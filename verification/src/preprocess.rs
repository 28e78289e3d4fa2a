//! The directive preprocessor: scans the lines of a shader's text once, in
//! their original order, collects the file paths named on directive lines,
//! and flattens the shader by putting each pulled-in text in front of the
//! buffer in turn. Pulled-in text is never itself scanned, so a directive
//! inside it stays inert.

use vstd::prelude::*;

verus! {

/// The marker that pulls other files in: the characters of `//!` followed by
/// the word for inclusion.
pub open spec fn directive_marker() -> Seq<char> {
    seq!['/', '/', '!', 'i', 'n', 'c', 'l', 'u', 'd', 'e']
}

/// The marker of a line the scan skips outright.
pub open spec fn ignore_marker() -> Seq<char> {
    seq!['/', '/', '!', 'i', 'g', 'n', 'o', 'r', 'e']
}

/// Unicode whitespace, exactly the set the scan splits directive lines on.
pub open spec fn is_space(c: char) -> bool {
    let u = c as u32;
    ||| u == 0x09
    ||| u == 0x0a
    ||| u == 0x0b
    ||| u == 0x0c
    ||| u == 0x0d
    ||| u == 0x20
    ||| u == 0x85
    ||| u == 0xa0
    ||| u == 0x1680
    ||| (0x2000 <= u && u <= 0x200a)
    ||| u == 0x2028
    ||| u == 0x2029
    ||| u == 0x202f
    ||| u == 0x205f
    ||| u == 0x3000
}

pub open spec fn starts_with(s: Seq<char>, prefix: Seq<char>) -> bool {
    s.len() >= prefix.len() && (forall|k: int| 0 <= k < prefix.len() ==> s[k] == prefix[k])
}

/// Index of the first line break in `s`, or `s.len()` when there is none.
pub open spec fn first_newline(s: Seq<char>) -> nat
    decreases s.len(),
{
    if s.len() == 0 {
        0
    } else if s[0] == '\n' {
        0
    } else {
        1 + first_newline(s.drop_first())
    }
}

/// Index of the first whitespace character in `s`, or `s.len()`.
pub open spec fn first_space(s: Seq<char>) -> nat
    decreases s.len(),
{
    if s.len() == 0 {
        0
    } else if is_space(s[0]) {
        0
    } else {
        1 + first_space(s.drop_first())
    }
}

pub open spec fn strip_cr(line: Seq<char>) -> Seq<char> {
    if line.len() > 0 && line.last() == '\r' {
        line.drop_last()
    } else {
        line
    }
}

/// The lines of `s`, as Rust's `str::lines` yields them: split at `'\n'`;
/// a line that a `'\n'` ended loses one trailing `'\r'`; no empty line after
/// a final `'\n'`; a final line without a line break is kept whole, a
/// trailing `'\r'` included.
pub open spec fn lines_of(s: Seq<char>) -> Seq<Seq<char>>
    decreases s.len(),
{
    if s.len() == 0 {
        Seq::empty()
    } else {
        let j = first_newline(s);
        if j >= s.len() {
            seq![s]
        } else {
            seq![strip_cr(s.subrange(0, j as int))] + lines_of(
                s.subrange(j as int + 1, s.len() as int),
            )
        }
    }
}

/// The whitespace-separated tokens of `line`, in order.
pub open spec fn tokens_of(line: Seq<char>) -> Seq<Seq<char>>
    decreases line.len(),
{
    if line.len() == 0 {
        Seq::empty()
    } else if is_space(line[0]) {
        tokens_of(line.drop_first())
    } else {
        let j = first_space(line);
        if j >= line.len() {
            seq![line]
        } else {
            seq![line.subrange(0, j as int)] + tokens_of(
                line.subrange(j as int, line.len() as int),
            )
        }
    }
}

/// All tokens of `line` but the first: the marker token itself names no file.
pub open spec fn rest_tokens(line: Seq<char>) -> Seq<Seq<char>> {
    let t = tokens_of(line);
    if t.len() == 0 {
        Seq::empty()
    } else {
        t.drop_first()
    }
}

/// What one line contributes to the list of files to pull in: a skipped line
/// nothing, a directive line its path tokens, any other line nothing.
pub open spec fn line_paths(line: Seq<char>) -> Seq<Seq<char>> {
    if starts_with(line, ignore_marker()) {
        Seq::empty()
    } else if starts_with(line, directive_marker()) {
        rest_tokens(line)
    } else {
        Seq::empty()
    }
}

pub open spec fn paths_of_lines(ls: Seq<Seq<char>>) -> Seq<Seq<char>>
    decreases ls.len(),
{
    if ls.len() == 0 {
        Seq::empty()
    } else {
        line_paths(ls[0]) + paths_of_lines(ls.drop_first())
    }
}

/// Every path a scan of `s` pulls in, in the order the tokens appear.
pub open spec fn inclusion_paths_of(s: Seq<char>) -> Seq<Seq<char>> {
    paths_of_lines(lines_of(s))
}

/// The flattened text: each pulled-in text is put in front of the buffer in
/// turn, so the last one ends up first and the original text last.
pub open spec fn flattened(shader: Seq<char>, contents: Seq<Seq<char>>) -> Seq<char>
    decreases contents.len(),
{
    if contents.len() == 0 {
        shader
    } else {
        contents.last() + flattened(shader, contents.drop_last())
    }
}

/// `first_newline` is pinned by a scan that saw no break before `i` and, if
/// `i` is in range, a break at `i`.
pub proof fn lemma_first_newline_at(s: Seq<char>, i: nat)
    requires
        i <= s.len(),
        forall|k: int| 0 <= k < i ==> s[k] != '\n',
        i < s.len() ==> s[i as int] == '\n',
    ensures
        first_newline(s) == i,
    decreases s.len(),
{
    if s.len() == 0 {
    } else if s[0] == '\n' {
        assert(i == 0);
    } else {
        assert(i >= 1);
        let t = s.drop_first();
        assert(forall|k: int| 0 <= k < i - 1 ==> t[k] == s[k + 1] && t[k] != '\n');
        assert(i - 1 < t.len() ==> t[i - 1] == s[i as int]);
        lemma_first_newline_at(t, (i - 1) as nat);
    }
}

pub proof fn lemma_first_space_at(s: Seq<char>, i: nat)
    requires
        i <= s.len(),
        forall|k: int| 0 <= k < i ==> !is_space(s[k]),
        i < s.len() ==> is_space(s[i as int]),
    ensures
        first_space(s) == i,
    decreases s.len(),
{
    if s.len() == 0 {
    } else if is_space(s[0]) {
        assert(i == 0);
    } else {
        assert(i >= 1);
        let t = s.drop_first();
        assert(forall|k: int| 0 <= k < i - 1 ==> t[k] == s[k + 1] && !is_space(t[k]));
        assert(i - 1 < t.len() ==> t[i - 1] == s[i as int]);
        lemma_first_space_at(t, (i - 1) as nat);
    }
}

fn space_char(c: char) -> (b: bool)
    ensures
        b == is_space(c),
{
    let u = c as u32;
    u == 0x09 || u == 0x0a || u == 0x0b || u == 0x0c || u == 0x0d || u == 0x20 || u == 0x85
        || u == 0xa0 || u == 0x1680 || (0x2000 <= u && u <= 0x200a) || u == 0x2028 || u == 0x2029
        || u == 0x202f || u == 0x205f || u == 0x3000
}

fn find_newline(s: &str) -> (j: usize)
    ensures
        j == first_newline(s@),
        j <= s@.len(),
{
    let n = s.unicode_len();
    let mut i: usize = 0;
    while i < n
        invariant
            i <= n,
            n == s@.len(),
            forall|k: int| 0 <= k < i ==> s@[k] != '\n',
        decreases n - i,
    {
        if s.get_char(i) == '\n' {
            proof {
                lemma_first_newline_at(s@, i as nat);
            }
            return i;
        }
        i += 1;
    }
    proof {
        lemma_first_newline_at(s@, n as nat);
    }
    n
}

fn find_space(s: &str) -> (j: usize)
    ensures
        j == first_space(s@),
        j <= s@.len(),
{
    let n = s.unicode_len();
    let mut i: usize = 0;
    while i < n
        invariant
            i <= n,
            n == s@.len(),
            forall|k: int| 0 <= k < i ==> !is_space(s@[k]),
        decreases n - i,
    {
        if space_char(s.get_char(i)) {
            proof {
                lemma_first_space_at(s@, i as nat);
            }
            return i;
        }
        i += 1;
    }
    proof {
        lemma_first_space_at(s@, n as nat);
    }
    n
}

fn has_prefix(line: &str, n: usize, prefix: &Vec<char>) -> (b: bool)
    requires
        n == line@.len(),
    ensures
        b == starts_with(line@, prefix@),
{
    if n < prefix.len() {
        return false;
    }
    let mut i: usize = 0;
    while i < prefix.len()
        invariant
            i <= prefix@.len() <= n,
            n == line@.len(),
            forall|k: int| 0 <= k < i ==> line@[k] == prefix@[k],
        decreases prefix@.len() - i,
    {
        if line.get_char(i) != prefix[i] {
            return false;
        }
        i += 1;
    }
    true
}

fn directive_marker_chars() -> (r: Vec<char>)
    ensures
        r@ == directive_marker(),
{
    let r = vec!['/', '/', '!', 'i', 'n', 'c', 'l', 'u', 'd', 'e'];
    proof {
        assert(r@ =~= directive_marker());
    }
    r
}

fn ignore_marker_chars() -> (r: Vec<char>)
    ensures
        r@ == ignore_marker(),
{
    let r = vec!['/', '/', '!', 'i', 'g', 'n', 'o', 'r', 'e'];
    proof {
        assert(r@ =~= ignore_marker());
    }
    r
}

/// The whitespace-separated tokens of `line`, each copied out as its own
/// string.
fn split_tokens(line: &str) -> (r: Vec<String>)
    ensures
        r.deep_view() == tokens_of(line@),
    decreases line@.len(),
{
    let n = line.unicode_len();
    if n == 0 {
        let r: Vec<String> = Vec::new();
        proof {
            assert(r.deep_view() =~= tokens_of(line@));
        }
        return r;
    }
    if space_char(line.get_char(0)) {
        let rest = line.substring_char(1, n);
        proof {
            assert(rest@ =~= line@.drop_first());
        }
        let r = split_tokens(rest);
        return r;
    }
    let j = find_space(line);
    proof {
        assert(j >= 1);
    }
    let tok = line.substring_char(0, j).to_owned();
    let mut r: Vec<String> = Vec::new();
    r.push(tok);
    if j < n {
        let rest = line.substring_char(j, n);
        let mut more = split_tokens(rest);
        let ghost moredv = more.deep_view();
        r.append(&mut more);
        proof {
            assert(r.deep_view() =~= seq![line@.subrange(0, j as int)] + moredv);
        }
    } else {
        proof {
            assert(line@.subrange(0, j as int) =~= line@);
            assert(r.deep_view() =~= seq![line@]);
        }
    }
    r
}

/// The file paths one line names: nothing unless the line is a directive
/// line, and then every token after the marker itself.
fn line_paths_exec(line: &str, n: usize) -> (r: Vec<String>)
    requires
        n == line@.len(),
    ensures
        r.deep_view() == line_paths(line@),
{
    let ig = ignore_marker_chars();
    if has_prefix(line, n, &ig) {
        let r: Vec<String> = Vec::new();
        proof {
            assert(r.deep_view() =~= line_paths(line@));
        }
        return r;
    }
    let dm = directive_marker_chars();
    if has_prefix(line, n, &dm) {
        let toks = split_tokens(line);
        let mut r: Vec<String> = Vec::new();
        let mut i: usize = 1;
        while i < toks.len()
            invariant
                1 <= i <= toks@.len() || (toks@.len() == 0 && i == 1),
                r.deep_view() =~= toks.deep_view().subrange(1, i as int) || (toks@.len() == 0
                    && r@.len() == 0),
            decreases toks@.len() - i,
        {
            let t = toks[i].clone();
            r.push(t);
            proof {
                assert(r.deep_view() =~= toks.deep_view().subrange(1, i as int + 1));
            }
            i += 1;
        }
        proof {
            if toks@.len() == 0 {
                assert(r.deep_view() =~= rest_tokens(line@));
            } else {
                assert(toks.deep_view().subrange(1, toks@.len() as int) =~= tokens_of(
                    line@,
                ).drop_first());
                assert(r.deep_view() =~= rest_tokens(line@));
            }
        }
        return r;
    }
    let r: Vec<String> = Vec::new();
    proof {
        assert(r.deep_view() =~= line_paths(line@));
    }
    r
}

proof fn lemma_paths_cons(l: Seq<char>, ls: Seq<Seq<char>>)
    ensures
        paths_of_lines(seq![l] + ls) == line_paths(l) + paths_of_lines(ls),
{
    assert((seq![l] + ls).drop_first() =~= ls);
    assert((seq![l] + ls)[0] == l);
}

/// Every file path the shader's directive lines name, in the order their
/// tokens appear; the scan walks the original text once and only that text.
pub fn inclusion_paths(shader: &str) -> (r: Vec<String>)
    ensures
        r.deep_view() == inclusion_paths_of(shader@),
    decreases shader@.len(),
{
    let n = shader.unicode_len();
    if n == 0 {
        let r: Vec<String> = Vec::new();
        proof {
            assert(r.deep_view() =~= inclusion_paths_of(shader@));
        }
        return r;
    }
    let j = find_newline(shader);
    if j < n {
        let e: usize = if j > 0 && shader.get_char(j - 1) == '\r' {
            j - 1
        } else {
            j
        };
        let line = shader.substring_char(0, e);
        proof {
            if j > 0 && shader@[j - 1] == '\r' {
                assert(shader@.subrange(0, j as int).last() == shader@[j - 1]);
                assert(line@ =~= strip_cr(shader@.subrange(0, j as int)));
            } else {
                assert(line@ =~= strip_cr(shader@.subrange(0, j as int)));
            }
        }
        let mut r = line_paths_exec(line, e);
        let rest = shader.substring_char(j + 1, n);
        let mut more = inclusion_paths(rest);
        let ghost rdv = r.deep_view();
        let ghost moredv = more.deep_view();
        r.append(&mut more);
        proof {
            assert(rest@ =~= shader@.subrange(j as int + 1, n as int));
            assert(r.deep_view() =~= rdv + moredv);
            lemma_paths_cons(line@, lines_of(rest@));
            assert(lines_of(shader@) =~= seq![line@] + lines_of(rest@));
        }
        r
    } else {
        // No line break: the final line is the whole text, kept as it
        // stands.
        let line = shader.substring_char(0, n);
        proof {
            assert(line@ =~= shader@);
        }
        let r = line_paths_exec(line, n);
        proof {
            assert(lines_of(shader@) =~= seq![shader@]);
            lemma_paths_cons(shader@, Seq::empty());
            assert(seq![shader@] + Seq::<Seq<char>>::empty() =~= seq![shader@]);
            assert(paths_of_lines(Seq::<Seq<char>>::empty()) =~= Seq::<Seq<char>>::empty());
            assert(r.deep_view() =~= inclusion_paths_of(shader@));
        }
        r
    }
}

pub proof fn lemma_paths_of_lines_concat(a: Seq<Seq<char>>, b: Seq<Seq<char>>)
    ensures
        paths_of_lines(a + b) == paths_of_lines(a) + paths_of_lines(b),
    decreases a.len(),
{
    if a.len() == 0 {
        assert(a + b =~= b);
        assert(paths_of_lines(a) + paths_of_lines(b) =~= paths_of_lines(b));
    } else {
        lemma_paths_of_lines_concat(a.drop_first(), b);
        assert(a + b =~= seq![a[0]] + (a.drop_first() + b));
        lemma_paths_cons(a[0], a.drop_first() + b);
        lemma_paths_cons(a[0], a.drop_first());
        assert(seq![a[0]] + a.drop_first() =~= a);
        assert(line_paths(a[0]) + (paths_of_lines(a.drop_first()) + paths_of_lines(b)) =~= (
        line_paths(a[0]) + paths_of_lines(a.drop_first())) + paths_of_lines(b));
    }
}

/// A line that starts with the skip marker is inert: the scan collects
/// exactly the same paths from the text with that line as from the text
/// without it, so the same contents are pulled in either way and the
/// flattened output differs only by the marked line itself.
pub proof fn lemma_ignore_line_inert(before: Seq<Seq<char>>, ig: Seq<char>, after: Seq<Seq<char>>)
    requires
        starts_with(ig, ignore_marker()),
    ensures
        paths_of_lines(before + seq![ig] + after) == paths_of_lines(before + after),
{
    lemma_paths_of_lines_concat(before, seq![ig]);
    lemma_paths_of_lines_concat(before + seq![ig], after);
    lemma_paths_of_lines_concat(before, after);
    lemma_paths_cons(ig, Seq::empty());
    assert(seq![ig] + Seq::<Seq<char>>::empty() =~= seq![ig]);
    assert(paths_of_lines(Seq::<Seq<char>>::empty()) =~= Seq::<Seq<char>>::empty());
    assert(line_paths(ig) =~= Seq::<Seq<char>>::empty());
    assert(paths_of_lines(before) + paths_of_lines(seq![ig]) =~= paths_of_lines(before));
}

/// Pulled-in text is never itself scanned: each element of `contents` stands
/// verbatim, as one contiguous block, in the flattened output — a directive
/// line inside it is inert text there.
pub proof fn lemma_no_transitive_expansion(shader: Seq<char>, contents: Seq<Seq<char>>, i: int)
    requires
        0 <= i < contents.len(),
    ensures
        exists|k: int|
            0 <= k && k + contents[i].len() <= flattened(shader, contents).len() && #[trigger] flattened(
                shader,
                contents,
            ).subrange(k, k + contents[i].len() as int) == contents[i],
    decreases contents.len(),
{
    let f = flattened(shader, contents);
    let piece = contents[i];
    if i == contents.len() - 1 {
        assert(f.subrange(0, piece.len() as int) =~= piece);
        assert(0 + piece.len() <= f.len() && f.subrange(0, 0 + piece.len() as int) == piece);
    } else {
        lemma_no_transitive_expansion(shader, contents.drop_last(), i);
        let f2 = flattened(shader, contents.drop_last());
        assert(contents.drop_last()[i] == piece);
        let k2 = choose|k2: int|
            0 <= k2 && k2 + piece.len() <= f2.len() && #[trigger] f2.subrange(
                k2,
                k2 + piece.len() as int,
            ) == piece;
        let k = contents.last().len() + k2;
        assert(f.subrange(k as int, k as int + piece.len() as int) =~= piece) by {
            assert(forall|m: int|
                0 <= m < piece.len() ==> #[trigger] f[k + m] == f2[k2 + m] && f2.subrange(
                    k2,
                    k2 + piece.len() as int,
                )[m] == f2[k2 + m]);
        }
        assert(0 <= k && k + piece.len() <= f.len() && f.subrange(k as int, k + piece.len() as int)
            == piece);
    }
}

/// `flattened` splits into the pulled-in block and the original text.
pub proof fn lemma_flattened_split(shader: Seq<char>, contents: Seq<Seq<char>>)
    ensures
        flattened(shader, contents) == flattened(Seq::empty(), contents) + shader,
    decreases contents.len(),
{
    if contents.len() == 0 {
        assert(flattened(Seq::empty(), contents) + shader =~= shader);
    } else {
        lemma_flattened_split(shader, contents.drop_last());
        assert(contents.last() + (flattened(Seq::empty(), contents.drop_last()) + shader)
            =~= (contents.last() + flattened(Seq::empty(), contents.drop_last())) + shader);
    }
}

/// Flattens the shader: each element of `contents` is put in front of the
/// buffer in turn, so the last element comes first, then the rest in reverse
/// order, then the original text, unchanged.
pub fn flatten_shader(shader: &str, contents: &Vec<String>) -> (r: String)
    ensures
        r@ == flattened(shader@, contents.deep_view()),
{
    let mut acc = String::new();
    proof {
        assert(acc@ =~= flattened(Seq::empty(), contents.deep_view().subrange(0, 0)));
    }
    let mut i: usize = 0;
    while i < contents.len()
        invariant
            i <= contents@.len(),
            acc@ == flattened(Seq::<char>::empty(), contents.deep_view().subrange(0, i as int)),
        decreases contents@.len() - i,
    {
        let next = String::from_str(contents[i].as_str()).concat(acc.as_str());
        proof {
            let cs = contents.deep_view();
            assert(cs.subrange(0, i as int + 1).drop_last() =~= cs.subrange(0, i as int));
            assert(cs.subrange(0, i as int + 1).last() == cs[i as int]);
        }
        acc = next;
        i += 1;
    }
    proof {
        assert(contents.deep_view().subrange(0, contents@.len() as int) =~= contents.deep_view());
    }
    let r = acc.concat(shader);
    proof {
        lemma_flattened_split(shader@, contents.deep_view());
    }
    r
}

} // verus!
