//! A canonical textual form for the structural summary: one object with
//! three named array-of-string fields, `types`, `global_variables` and
//! `functions`. Only quotes and backslashes are escaped, so for names
//! without control characters — every WGSL identifier — the text is strict
//! JSON; a control character in a name is carried raw, which this codec
//! reads back but a strict JSON parser may refuse. The encoder emits exactly
//! one text per summary; the decoder accepts exactly those texts, so
//! decoding an encoding yields the original value and nothing else.

use vstd::prelude::*;

use crate::summary::WgslTree;

verus! {

/// How one character is written inside a quoted string: a quote or a
/// backslash gets a backslash in front, anything else stands as itself.
pub open spec fn esc_char(c: char) -> Seq<char> {
    if c == '"' || c == '\\' {
        seq!['\\', c]
    } else {
        seq![c]
    }
}

pub open spec fn esc(s: Seq<char>) -> Seq<char>
    decreases s.len(),
{
    if s.len() == 0 {
        Seq::empty()
    } else {
        esc_char(s[0]) + esc(s.drop_first())
    }
}

/// A string value: its escaped characters between two quotes.
pub open spec fn quoted(s: Seq<char>) -> Seq<char> {
    seq!['"'] + esc(s) + seq!['"']
}

/// The inside of an array: the quoted elements, a comma between neighbours.
pub open spec fn arr_body(xs: Seq<Seq<char>>) -> Seq<char>
    decreases xs.len(),
{
    if xs.len() == 0 {
        Seq::empty()
    } else if xs.len() == 1 {
        quoted(xs[0])
    } else {
        quoted(xs[0]) + seq![','] + arr_body(xs.drop_first())
    }
}

pub open spec fn arr(xs: Seq<Seq<char>>) -> Seq<char> {
    seq!['['] + arr_body(xs) + seq![']']
}

pub open spec fn types_label() -> Seq<char> {
    seq!['{', '"', 't', 'y', 'p', 'e', 's', '"', ':']
}

pub open spec fn globals_label() -> Seq<char> {
    seq![',', '"', 'g', 'l', 'o', 'b', 'a', 'l', '_', 'v', 'a', 'r', 'i', 'a', 'b', 'l', 'e', 's', '"', ':']
}

pub open spec fn functions_label() -> Seq<char> {
    seq![',', '"', 'f', 'u', 'n', 'c', 't', 'i', 'o', 'n', 's', '"', ':']
}

/// The one text that stands for a summary with the three given name columns.
pub open spec fn tree_json(a: Seq<Seq<char>>, b: Seq<Seq<char>>, c: Seq<Seq<char>>) -> Seq<char> {
    types_label() + arr(a) + globals_label() + arr(b) + functions_label() + arr(c) + seq!['}']
}

proof fn lemma_esc_snoc(s: Seq<char>, c: char)
    ensures
        esc(s.push(c)) == esc(s) + esc_char(c),
    decreases s.len(),
{
    if s.len() == 0 {
        assert(s.push(c) =~= seq![c]);
        assert(seq![c].drop_first() =~= Seq::<char>::empty());
        assert(esc(Seq::<char>::empty()) =~= Seq::<char>::empty());
        assert(esc(seq![c]) =~= esc_char(c));
        assert(esc(s) =~= Seq::<char>::empty());
        assert(esc(s.push(c)) =~= esc(s) + esc_char(c));
    } else {
        assert(s.push(c).drop_first() =~= s.drop_first().push(c));
        lemma_esc_snoc(s.drop_first(), c);
        assert(s.push(c)[0] == s[0]);
        assert(esc_char(s[0]) + (esc(s.drop_first()) + esc_char(c)) =~= (esc_char(s[0]) + esc(
            s.drop_first(),
        )) + esc_char(c));
    }
}

proof fn lemma_arr_body_snoc(xs: Seq<Seq<char>>, x: Seq<char>)
    requires
        xs.len() > 0,
    ensures
        arr_body(xs.push(x)) == arr_body(xs) + seq![','] + quoted(x),
    decreases xs.len(),
{
    if xs.len() == 1 {
        assert(xs.push(x).drop_first() =~= seq![x]);
        assert(xs.push(x)[0] == xs[0]);
        assert(arr_body(seq![x]) == quoted(x));
        assert(arr_body(xs) == quoted(xs[0]));
        assert(quoted(xs[0]) + seq![','] + quoted(x) =~= arr_body(xs) + seq![','] + quoted(x));
    } else {
        assert(xs.push(x).drop_first() =~= xs.drop_first().push(x));
        lemma_arr_body_snoc(xs.drop_first(), x);
        assert(xs.push(x)[0] == xs[0]);
        assert(quoted(xs[0]) + seq![','] + (arr_body(xs.drop_first()) + seq![','] + quoted(x)) =~= (
        quoted(xs[0]) + seq![','] + arr_body(xs.drop_first())) + seq![','] + quoted(x));
    }
}

proof fn lemma_cancel_prefix(x: Seq<char>, y: Seq<char>, z: Seq<char>)
    requires
        x + y == x + z,
    ensures
        y == z,
{
    assert(y =~= (x + y).subrange(x.len() as int, (x + y).len() as int));
    assert(z =~= (x + z).subrange(x.len() as int, (x + z).len() as int));
}

/// The first written character of a nonempty string never looks like the
/// closing quote, and tells apart an escaped from a plain first character.
proof fn lemma_esc_first(x: Seq<char>)
    requires
        x.len() > 0,
    ensures
        esc(x).len() >= 1,
        esc(x)[0] != '"',
        (x[0] == '"' || x[0] == '\\') ==> esc(x).len() >= 2 && esc(x)[0] == '\\' && esc(x)[1]
            == x[0],
        !(x[0] == '"' || x[0] == '\\') ==> esc(x)[0] == x[0],
{
    assert(esc(x) =~= esc_char(x[0]) + esc(x.drop_first()));
}

/// A quoted string and what follows it are read back unambiguously.
proof fn lemma_esc_unique(a: Seq<char>, b: Seq<char>, u: Seq<char>, v: Seq<char>)
    requires
        esc(a) + seq!['"'] + u == esc(b) + seq!['"'] + v,
    ensures
        a == b,
        u == v,
    decreases a.len(),
{
    let lhs = esc(a) + seq!['"'] + u;
    let rhs = esc(b) + seq!['"'] + v;
    if a.len() == 0 {
        assert(esc(a) =~= Seq::<char>::empty());
        assert(lhs[0] == '"');
        if b.len() > 0 {
            lemma_esc_first(b);
            assert(rhs[0] == esc(b)[0]);
            assert(false);
        }
        assert(esc(b) =~= Seq::<char>::empty());
        assert(lhs =~= seq!['"'] + u);
        assert(rhs =~= seq!['"'] + v);
        lemma_cancel_prefix(seq!['"'], u, v);
        assert(a =~= b);
    } else if b.len() == 0 {
        lemma_esc_first(a);
        assert(esc(b) =~= Seq::<char>::empty());
        assert(rhs =~= seq!['"'] + v);
        assert(rhs[0] == '"');
        assert(lhs[0] == esc(a)[0]);
        assert(false);
    } else {
        lemma_esc_first(a);
        lemma_esc_first(b);
        assert(lhs[0] == esc(a)[0]);
        assert(rhs[0] == esc(b)[0]);
        let ea = a[0] == '"' || a[0] == '\\';
        let eb = b[0] == '"' || b[0] == '\\';
        if ea && eb {
            assert(lhs[1] == esc(a)[1]);
            assert(rhs[1] == esc(b)[1]);
            assert(a[0] == b[0]);
        } else if ea && !eb {
            assert(false);
        } else if !ea && eb {
            assert(false);
        } else {
            assert(a[0] == b[0]);
        }
        assert(esc(a) =~= esc_char(a[0]) + esc(a.drop_first()));
        assert(esc(b) =~= esc_char(b[0]) + esc(b.drop_first()));
        assert(lhs =~= esc_char(a[0]) + (esc(a.drop_first()) + seq!['"'] + u));
        assert(rhs =~= esc_char(a[0]) + (esc(b.drop_first()) + seq!['"'] + v));
        lemma_cancel_prefix(
            esc_char(a[0]),
            esc(a.drop_first()) + seq!['"'] + u,
            esc(b.drop_first()) + seq!['"'] + v,
        );
        lemma_esc_unique(a.drop_first(), b.drop_first(), u, v);
        assert forall|i: int| 0 <= i < a.len() implies a[i] == b[i] by {
            if i > 0 {
                assert(a[i] == a.drop_first()[i - 1]);
                assert(b[i] == b.drop_first()[i - 1]);
            }
        }
        assert(a =~= b);
    }
}

proof fn lemma_quoted_unique(a: Seq<char>, b: Seq<char>, u: Seq<char>, v: Seq<char>)
    requires
        quoted(a) + u == quoted(b) + v,
    ensures
        a == b,
        u == v,
{
    assert(quoted(a) + u =~= seq!['"'] + (esc(a) + seq!['"'] + u));
    assert(quoted(b) + v =~= seq!['"'] + (esc(b) + seq!['"'] + v));
    lemma_cancel_prefix(seq!['"'], esc(a) + seq!['"'] + u, esc(b) + seq!['"'] + v);
    lemma_esc_unique(a, b, u, v);
}

proof fn lemma_body_unique(xs: Seq<Seq<char>>, ys: Seq<Seq<char>>, u: Seq<char>, v: Seq<char>)
    requires
        arr_body(xs) + seq![']'] + u == arr_body(ys) + seq![']'] + v,
    ensures
        xs == ys,
        u == v,
    decreases xs.len(),
{
    let lhs = arr_body(xs) + seq![']'] + u;
    let rhs = arr_body(ys) + seq![']'] + v;
    if xs.len() == 0 {
        assert(arr_body(xs) =~= Seq::<char>::empty());
        assert(lhs =~= seq![']'] + u);
        assert(lhs[0] == ']');
        if ys.len() > 0 {
            assert(arr_body(ys)[0] == quoted(ys[0])[0]);
            assert(quoted(ys[0])[0] == '"');
            assert(rhs[0] == arr_body(ys)[0]);
            assert(false);
        }
        assert(arr_body(ys) =~= Seq::<char>::empty());
        assert(rhs =~= seq![']'] + v);
        lemma_cancel_prefix(seq![']'], u, v);
        assert(xs =~= ys);
    } else if ys.len() == 0 {
        assert(arr_body(ys) =~= Seq::<char>::empty());
        assert(rhs =~= seq![']'] + v);
        assert(rhs[0] == ']');
        assert(arr_body(xs)[0] == quoted(xs[0])[0]);
        assert(quoted(xs[0])[0] == '"');
        assert(lhs[0] == arr_body(xs)[0]);
        assert(false);
    } else {
        let tx: Seq<char> = if xs.len() == 1 {
            Seq::empty()
        } else {
            seq![','] + arr_body(xs.drop_first())
        };
        let ty: Seq<char> = if ys.len() == 1 {
            Seq::empty()
        } else {
            seq![','] + arr_body(ys.drop_first())
        };
        assert(arr_body(xs) =~= quoted(xs[0]) + tx);
        assert(arr_body(ys) =~= quoted(ys[0]) + ty);
        assert(lhs =~= quoted(xs[0]) + (tx + seq![']'] + u));
        assert(rhs =~= quoted(ys[0]) + (ty + seq![']'] + v));
        lemma_quoted_unique(xs[0], ys[0], tx + seq![']'] + u, ty + seq![']'] + v);
        if xs.len() == 1 && ys.len() == 1 {
            assert(tx + seq![']'] + u =~= seq![']'] + u);
            assert(ty + seq![']'] + v =~= seq![']'] + v);
            lemma_cancel_prefix(seq![']'], u, v);
            assert(xs =~= ys);
        } else if xs.len() == 1 {
            assert((tx + seq![']'] + u)[0] == ']');
            assert((ty + seq![']'] + v)[0] == ',');
            assert(false);
        } else if ys.len() == 1 {
            assert((tx + seq![']'] + u)[0] == ',');
            assert((ty + seq![']'] + v)[0] == ']');
            assert(false);
        } else {
            assert(tx + seq![']'] + u =~= seq![','] + (arr_body(xs.drop_first()) + seq![']'] + u));
            assert(ty + seq![']'] + v =~= seq![','] + (arr_body(ys.drop_first()) + seq![']'] + v));
            lemma_cancel_prefix(
                seq![','],
                arr_body(xs.drop_first()) + seq![']'] + u,
                arr_body(ys.drop_first()) + seq![']'] + v,
            );
            lemma_body_unique(xs.drop_first(), ys.drop_first(), u, v);
            assert forall|i: int| 0 <= i < xs.len() implies xs[i] == ys[i] by {
                if i > 0 {
                    assert(xs[i] == xs.drop_first()[i - 1]);
                    assert(ys[i] == ys.drop_first()[i - 1]);
                }
            }
            assert(xs =~= ys);
        }
    }
}

proof fn lemma_arr_unique(xs: Seq<Seq<char>>, ys: Seq<Seq<char>>, u: Seq<char>, v: Seq<char>)
    requires
        arr(xs) + u == arr(ys) + v,
    ensures
        xs == ys,
        u == v,
{
    assert(arr(xs) + u =~= seq!['['] + (arr_body(xs) + seq![']'] + u));
    assert(arr(ys) + v =~= seq!['['] + (arr_body(ys) + seq![']'] + v));
    lemma_cancel_prefix(seq!['['], arr_body(xs) + seq![']'] + u, arr_body(ys) + seq![']'] + v);
    lemma_body_unique(xs, ys, u, v);
}

/// The canonical text is unambiguous: one text stands for one summary, so
/// serializing a summary and then deserializing the text yields an equal
/// value — the same three sequences, in the same order — and nothing else.
pub proof fn lemma_tree_json_injective(
    a: Seq<Seq<char>>,
    b: Seq<Seq<char>>,
    c: Seq<Seq<char>>,
    a2: Seq<Seq<char>>,
    b2: Seq<Seq<char>>,
    c2: Seq<Seq<char>>,
)
    requires
        tree_json(a, b, c) == tree_json(a2, b2, c2),
    ensures
        a == a2,
        b == b2,
        c == c2,
{
    let ua = globals_label() + arr(b) + functions_label() + arr(c) + seq!['}'];
    let ua2 = globals_label() + arr(b2) + functions_label() + arr(c2) + seq!['}'];
    assert(tree_json(a, b, c) =~= types_label() + (arr(a) + ua));
    assert(tree_json(a2, b2, c2) =~= types_label() + (arr(a2) + ua2));
    lemma_cancel_prefix(types_label(), arr(a) + ua, arr(a2) + ua2);
    lemma_arr_unique(a, a2, ua, ua2);
    let ub = arr(c) + seq!['}'];
    let ub2 = arr(c2) + seq!['}'];
    assert(ua =~= globals_label() + (arr(b) + (functions_label() + ub)));
    assert(ua2 =~= globals_label() + (arr(b2) + (functions_label() + ub2)));
    lemma_cancel_prefix(
        globals_label(),
        arr(b) + (functions_label() + ub),
        arr(b2) + (functions_label() + ub2),
    );
    lemma_arr_unique(b, b2, functions_label() + ub, functions_label() + ub2);
    lemma_cancel_prefix(functions_label(), ub, ub2);
    lemma_arr_unique(c, c2, seq!['}'], seq!['}']);
}

/// Writes `quoted(s@)` after `acc0`.
fn append_quoted(acc0: String, s: &str) -> (r: String)
    ensures
        r@ == acc0@ + quoted(s@),
{
    let ghost start = acc0@;
    let mut acc = acc0;
    acc.append("\"");
    proof {
        reveal_strlit("\"");
        assert("\""@ =~= seq!['"']);
    }
    let n = s.unicode_len();
    let mut i: usize = 0;
    while i < n
        invariant
            i <= n,
            n == s@.len(),
            acc@ == start + seq!['"'] + esc(s@.subrange(0, i as int)),
        decreases n - i,
    {
        let ghost pre = s@.subrange(0, i as int);
        let c = s.get_char(i);
        if c == '"' {
            acc.append("\\\"");
            proof {
                reveal_strlit("\\\"");
                assert("\\\""@ =~= esc_char('"'));
            }
        } else if c == '\\' {
            acc.append("\\\\");
            proof {
                reveal_strlit("\\\\");
                assert("\\\\"@ =~= esc_char('\\'));
            }
        } else {
            let piece = s.substring_char(i, i + 1);
            acc.append(piece);
            proof {
                assert(piece@ =~= esc_char(c));
            }
        }
        proof {
            assert(s@.subrange(0, i as int + 1) =~= pre.push(c));
            lemma_esc_snoc(pre, c);
            assert(acc@ =~= start + seq!['"'] + esc(s@.subrange(0, i as int + 1)));
        }
        i += 1;
    }
    acc.append("\"");
    proof {
        assert(s@.subrange(0, n as int) =~= s@);
        assert(acc@ =~= start + quoted(s@));
    }
    acc
}

/// Writes `arr(xs.deep_view())` after `acc0`.
fn append_array(acc0: String, xs: &Vec<String>) -> (r: String)
    ensures
        r@ == acc0@ + arr(xs.deep_view()),
{
    let ghost start = acc0@;
    let mut acc = acc0;
    acc.append("[");
    proof {
        reveal_strlit("[");
        assert("["@ =~= seq!['[']);
        assert(arr_body(xs.deep_view().subrange(0, 0)) =~= Seq::<char>::empty());
        assert(acc@ =~= start + seq!['['] + arr_body(xs.deep_view().subrange(0, 0)));
    }
    let mut i: usize = 0;
    while i < xs.len()
        invariant
            i <= xs@.len(),
            acc@ == start + seq!['['] + arr_body(xs.deep_view().subrange(0, i as int)),
        decreases xs@.len() - i,
    {
        if i > 0 {
            acc.append(",");
            proof {
                reveal_strlit(",");
                assert(","@ =~= seq![',']);
            }
        }
        let x = &xs[i];
        acc = append_quoted(acc, x.as_str());
        proof {
            let dv = xs.deep_view();
            assert(dv.subrange(0, i as int + 1) =~= dv.subrange(0, i as int).push(dv[i as int]));
            if i == 0 {
                assert(dv.subrange(0, 1) =~= seq![dv[0]]);
                assert(arr_body(seq![dv[0]]) == quoted(dv[0]));
            } else {
                lemma_arr_body_snoc(dv.subrange(0, i as int), dv[i as int]);
            }
            assert(acc@ =~= start + seq!['['] + arr_body(dv.subrange(0, i as int + 1)));
        }
        i += 1;
    }
    acc.append("]");
    proof {
        reveal_strlit("]");
        assert("]"@ =~= seq![']']);
        assert(xs.deep_view().subrange(0, xs@.len() as int) =~= xs.deep_view());
        assert(acc@ =~= start + arr(xs.deep_view()));
    }
    acc
}

/// The canonical text of a summary.
pub fn to_json(t: &WgslTree) -> (r: String)
    ensures
        r@ == tree_json(t.types.deep_view(), t.global_variables.deep_view(), t.functions.deep_view()),
{
    let mut acc = String::new();
    acc.append("{\"types\":");
    proof {
        reveal_strlit("{\"types\":");
        assert("{\"types\":"@ =~= types_label());
    }
    acc = append_array(acc, &t.types);
    acc.append(",\"global_variables\":");
    proof {
        reveal_strlit(",\"global_variables\":");
        assert(",\"global_variables\":"@ =~= globals_label());
    }
    acc = append_array(acc, &t.global_variables);
    acc.append(",\"functions\":");
    proof {
        reveal_strlit(",\"functions\":");
        assert(",\"functions\":"@ =~= functions_label());
    }
    acc = append_array(acc, &t.functions);
    acc.append("}");
    proof {
        reveal_strlit("}");
        assert("}"@ =~= seq!['}']);
        assert(acc@ =~= tree_json(
            t.types.deep_view(),
            t.global_variables.deep_view(),
            t.functions.deep_view(),
        ));
    }
    acc
}

fn types_label_chars() -> (r: Vec<char>)
    ensures
        r@ == types_label(),
{
    let r = vec!['{', '"', 't', 'y', 'p', 'e', 's', '"', ':'];
    proof {
        assert(r@ =~= types_label());
    }
    r
}

fn globals_label_chars() -> (r: Vec<char>)
    ensures
        r@ == globals_label(),
{
    let r = vec![',', '"', 'g', 'l', 'o', 'b', 'a', 'l', '_', 'v', 'a', 'r', 'i', 'a', 'b', 'l', 'e', 's', '"', ':'];
    proof {
        assert(r@ =~= globals_label());
    }
    r
}

fn functions_label_chars() -> (r: Vec<char>)
    ensures
        r@ == functions_label(),
{
    let r = vec![',', '"', 'f', 'u', 'n', 'c', 't', 'i', 'o', 'n', 's', '"', ':'];
    proof {
        assert(r@ =~= functions_label());
    }
    r
}

/// Reads the exact characters of `lit` at `p`, or gives up.
fn expect_chars(s: &str, n: usize, p: usize, lit: &Vec<char>) -> (r: Option<usize>)
    requires
        n == s@.len(),
        p <= n,
    ensures
        r matches Some(p2) ==> p2 == p + lit@.len() && p2 <= n && s@.subrange(p as int, p2 as int)
            == lit@,
        r is None ==> !(p + lit@.len() <= n && s@.subrange(p as int, p as int + lit@.len() as int)
            == lit@),
{
    if n - p < lit.len() {
        return None;
    }
    let mut k: usize = 0;
    while k < lit.len()
        invariant
            k <= lit@.len(),
            p + lit@.len() <= n,
            n == s@.len(),
            forall|m: int| 0 <= m < k ==> s@[p + m] == lit@[m],
        decreases lit@.len() - k,
    {
        if s.get_char(p + k) != lit[k] {
            proof {
                if s@.subrange(p as int, p as int + lit@.len() as int) == lit@ {
                    assert(s@.subrange(p as int, p as int + lit@.len() as int)[k as int] == s@[p
                        + k]);
                    assert(false);
                }
            }
            return None;
        }
        k += 1;
    }
    proof {
        assert(s@.subrange(p as int, (p + lit.len()) as int) =~= lit@);
    }
    Some(p + lit.len())
}

/// Reads one quoted string at `p`, strictly: only `\"` and `\\` escapes, and
/// only where the encoder writes them. What was consumed is exactly the
/// canonical text of the value read, and the read fails only where no quoted
/// string stands at `p`.
fn parse_quoted(s: &str, n: usize, p: usize) -> (r: Option<(String, usize)>)
    requires
        n == s@.len(),
        p <= n,
    ensures
        r matches Some((x, p2)) ==> p + 2 <= p2 <= n && s@.subrange(p as int, p2 as int) == quoted(
            x@,
        ),
        r is None ==> forall|x: Seq<char>, rest: Seq<char>|
            s@.subrange(p as int, n as int) != quoted(x) + rest,
{
    let ghost suffix = s@.subrange(p as int, n as int);
    if p >= n || s.get_char(p) != '"' {
        proof {
            assert forall|x: Seq<char>, rest: Seq<char>| suffix != quoted(x) + rest by {
                if suffix == quoted(x) + rest {
                    assert((quoted(x) + rest)[0] == '"');
                    assert(suffix.len() >= 2);
                    assert(suffix[0] == s@[p as int]);
                    assert(false);
                }
            }
        }
        return None;
    }
    let mut out = String::new();
    let mut i: usize = p + 1;
    proof {
        assert forall|x: Seq<char>, rest: Seq<char>| suffix == quoted(x) + rest implies exists|
            x2: Seq<char>,
        |
            x == out@ + x2 && s@.subrange(i as int, n as int) == esc(x2) + seq!['"'] + rest by {
            assert(suffix.len() == n - p);
            assert(s@.subrange(p as int + 1, n as int) =~= suffix.subrange(1, (n - p) as int));
            assert(suffix.subrange(1, (n - p) as int) =~= esc(x) + seq!['"'] + rest);
            assert(out@ + x =~= x);
            assert(x == out@ + x && s@.subrange(i as int, n as int) == esc(x) + seq!['"'] + rest);
        }
    }
    loop
        invariant
            p + 1 <= i <= n,
            p < n,
            n == s@.len(),
            s@[p as int] == '"',
            suffix == s@.subrange(p as int, n as int),
            s@.subrange(p as int + 1, i as int) == esc(out@),
            forall|x: Seq<char>, rest: Seq<char>|
                suffix == quoted(x) + rest ==> exists|x2: Seq<char>|
                    x == out@ + x2 && s@.subrange(i as int, n as int) == esc(x2) + seq!['"']
                        + rest,
        decreases n - i,
    {
        if i >= n {
            proof {
                assert forall|x: Seq<char>, rest: Seq<char>| suffix != quoted(x) + rest by {
                    if suffix == quoted(x) + rest {
                        let x2 = choose|x2: Seq<char>|
                            x == out@ + x2 && s@.subrange(i as int, n as int) == esc(x2)
                                + seq!['"'] + rest;
                        assert(s@.subrange(i as int, n as int).len() == 0);
                        assert((esc(x2) + seq!['"'] + rest).len() >= 1);
                        assert(false);
                    }
                }
            }
            return None;
        }
        let c = s.get_char(i);
        if c == '"' {
            proof {
                assert(s@.subrange(p as int, i as int + 1) =~= seq!['"'] + esc(out@)
                    + seq!['"']);
                assert(s@.subrange(p as int, i as int + 1) =~= quoted(out@));
            }
            return Some((out, i + 1));
        } else if c == '\\' {
            if i + 1 >= n {
                proof {
                    assert forall|x: Seq<char>, rest: Seq<char>| suffix != quoted(x) + rest by {
                        if suffix == quoted(x) + rest {
                            let x2 = choose|x2: Seq<char>|
                                x == out@ + x2 && s@.subrange(i as int, n as int) == esc(x2)
                                    + seq!['"'] + rest;
                            if x2.len() == 0 {
                                assert(esc(x2) =~= Seq::<char>::empty());
                                assert(s@.subrange(i as int, n as int)[0] == '"');
                                assert(false);
                            } else {
                                lemma_esc_first(x2);
                                assert(s@.subrange(i as int, n as int)[0] == esc(x2)[0]);
                                assert(x2[0] == '"' || x2[0] == '\\');
                                assert((esc(x2) + seq!['"'] + rest).len() >= 3);
                                assert(false);
                            }
                        }
                    }
                }
                return None;
            }
            let c2 = s.get_char(i + 1);
            if c2 != '"' && c2 != '\\' {
                proof {
                    assert forall|x: Seq<char>, rest: Seq<char>| suffix != quoted(x) + rest by {
                        if suffix == quoted(x) + rest {
                            let x2 = choose|x2: Seq<char>|
                                x == out@ + x2 && s@.subrange(i as int, n as int) == esc(x2)
                                    + seq!['"'] + rest;
                            if x2.len() == 0 {
                                assert(esc(x2) =~= Seq::<char>::empty());
                                assert(s@.subrange(i as int, n as int)[0] == '"');
                                assert(false);
                            } else {
                                lemma_esc_first(x2);
                                assert(s@.subrange(i as int, n as int)[0] == esc(x2)[0]);
                                assert(x2[0] == '"' || x2[0] == '\\');
                                assert(s@.subrange(i as int, n as int)[1] == esc(x2)[1]);
                                assert(false);
                            }
                        }
                    }
                }
                return None;
            }
            let ghost pre = out@;
            let ghost oldi = i as int;
            let piece = s.substring_char(i + 1, i + 2);
            out.append(piece);
            proof {
                lemma_esc_snoc(pre, c2);
                assert(piece@ =~= seq![c2]);
                assert(out@ =~= pre.push(c2));
                assert(esc_char(c2) =~= seq!['\\', c2]);
                assert(s@.subrange(p as int + 1, i as int + 2) =~= esc(out@));
                assert forall|x: Seq<char>, rest: Seq<char>|
                    suffix == quoted(x) + rest implies exists|x2b: Seq<char>|
                        x == out@ + x2b && s@.subrange(oldi + 2, n as int) == esc(x2b)
                            + seq!['"'] + rest by {
                    let x2 = choose|x2: Seq<char>|
                        x == pre + x2 && s@.subrange(oldi, n as int) == esc(x2) + seq!['"']
                            + rest;
                    if x2.len() == 0 {
                        assert(esc(x2) =~= Seq::<char>::empty());
                        assert(s@.subrange(oldi, n as int)[0] == '"');
                        assert(false);
                    }
                    lemma_esc_first(x2);
                    assert(s@.subrange(oldi, n as int)[0] == esc(x2)[0]);
                    assert(x2[0] == '"' || x2[0] == '\\');
                    assert(s@.subrange(oldi, n as int)[1] == esc(x2)[1]);
                    assert(x2[0] == c2);
                    assert(esc(x2) =~= esc_char(x2[0]) + esc(x2.drop_first()));
                    let t = esc(x2.drop_first()) + seq!['"'] + rest;
                    assert(esc(x2) + seq!['"'] + rest =~= esc_char(x2[0]) + t);
                    assert(t.len() == n - oldi - 2);
                    assert forall|m: int| 0 <= m < n - oldi - 2 implies s@.subrange(
                        oldi + 2,
                        n as int,
                    )[m] == t[m] by {
                        assert(s@.subrange(oldi + 2, n as int)[m] == s@[oldi + 2 + m]);
                        assert(s@.subrange(oldi, n as int)[m + 2] == s@[oldi + 2 + m]);
                        assert((esc_char(x2[0]) + t)[m + 2] == t[m]);
                    }
                    assert(s@.subrange(oldi + 2, n as int) =~= esc(x2.drop_first()) + seq!['"']
                        + rest);
                    assert(x =~= out@ + x2.drop_first());
                    assert(x == out@ + x2.drop_first() && s@.subrange(oldi + 2, n as int) == esc(
                        x2.drop_first(),
                    ) + seq!['"'] + rest);
                }
            }
            i += 2;
        } else {
            let ghost pre = out@;
            let ghost oldi = i as int;
            let piece = s.substring_char(i, i + 1);
            out.append(piece);
            proof {
                lemma_esc_snoc(pre, c);
                assert(piece@ =~= seq![c]);
                assert(out@ =~= pre.push(c));
                assert(esc_char(c) =~= seq![c]);
                assert(s@.subrange(p as int + 1, i as int + 1) =~= esc(out@));
                assert forall|x: Seq<char>, rest: Seq<char>|
                    suffix == quoted(x) + rest implies exists|x2b: Seq<char>|
                        x == out@ + x2b && s@.subrange(oldi + 1, n as int) == esc(x2b)
                            + seq!['"'] + rest by {
                    let x2 = choose|x2: Seq<char>|
                        x == pre + x2 && s@.subrange(oldi, n as int) == esc(x2) + seq!['"']
                            + rest;
                    if x2.len() == 0 {
                        assert(esc(x2) =~= Seq::<char>::empty());
                        assert(s@.subrange(oldi, n as int)[0] == '"');
                        assert(false);
                    }
                    lemma_esc_first(x2);
                    assert(s@.subrange(oldi, n as int)[0] == esc(x2)[0]);
                    assert(!(x2[0] == '"' || x2[0] == '\\'));
                    assert(x2[0] == c);
                    assert(esc(x2) =~= esc_char(x2[0]) + esc(x2.drop_first()));
                    let t = esc(x2.drop_first()) + seq!['"'] + rest;
                    assert(esc(x2) + seq!['"'] + rest =~= esc_char(x2[0]) + t);
                    assert(t.len() == n - oldi - 1);
                    assert forall|m: int| 0 <= m < n - oldi - 1 implies s@.subrange(
                        oldi + 1,
                        n as int,
                    )[m] == t[m] by {
                        assert(s@.subrange(oldi + 1, n as int)[m] == s@[oldi + 1 + m]);
                        assert(s@.subrange(oldi, n as int)[m + 1] == s@[oldi + 1 + m]);
                        assert((esc_char(x2[0]) + t)[m + 1] == t[m]);
                    }
                    assert(s@.subrange(oldi + 1, n as int) =~= esc(x2.drop_first()) + seq!['"']
                        + rest);
                    assert(x =~= out@ + x2.drop_first());
                    assert(x == out@ + x2.drop_first() && s@.subrange(oldi + 1, n as int) == esc(
                        x2.drop_first(),
                    ) + seq!['"'] + rest);
                }
            }
            i += 1;
        }
    }
}

/// What still has to stand after some leading elements of an array were
/// read: the rest of the element list, the closing bracket, and whatever
/// follows the array.
spec fn arr_tail(xs2: Seq<Seq<char>>, rest: Seq<char>) -> Seq<char> {
    if xs2.len() == 0 {
        seq![']'] + rest
    } else {
        seq![','] + arr_body(xs2) + seq![']'] + rest
    }
}

/// A nonempty canonical array decomposes into its first element and the
/// tail of everything after it.
proof fn lemma_arr_head(s: Seq<char>, xs0: Seq<Seq<char>>, rest: Seq<char>)
    requires
        s == arr(xs0) + rest,
        xs0.len() > 0,
    ensures
        s =~= seq!['['] + (quoted(xs0[0]) + arr_tail(xs0.drop_first(), rest)),
{
    let tx: Seq<char> = if xs0.len() == 1 {
        Seq::empty()
    } else {
        seq![','] + arr_body(xs0.drop_first())
    };
    assert(arr_body(xs0) =~= quoted(xs0[0]) + tx);
    assert(arr_tail(xs0.drop_first(), rest) =~= tx + seq![']'] + rest);
    assert(arr(xs0) + rest =~= seq!['['] + (quoted(xs0[0]) + (tx + seq![']'] + rest)));
    assert(quoted(xs0[0]) + (tx + seq![']'] + rest) =~= quoted(xs0[0]) + arr_tail(
        xs0.drop_first(),
        rest,
    ));
}

/// Reads one array of quoted strings at `p`, strictly canonical: no spaces,
/// no trailing comma. What was consumed is exactly the canonical text of the
/// list read, and the read fails only where no canonical array stands at `p`.
fn parse_array(s: &str, n: usize, p: usize) -> (r: Option<(Vec<String>, usize)>)
    requires
        n == s@.len(),
        p <= n,
    ensures
        r matches Some((xs, p2)) ==> p < p2 <= n && s@.subrange(p as int, p2 as int) == arr(
            xs.deep_view(),
        ),
        r is None ==> forall|xs: Seq<Seq<char>>, rest: Seq<char>|
            s@.subrange(p as int, n as int) != arr(xs) + rest,
{
    let ghost suffix = s@.subrange(p as int, n as int);
    if p >= n || s.get_char(p) != '[' {
        proof {
            assert forall|xs: Seq<Seq<char>>, rest: Seq<char>| suffix != arr(xs) + rest by {
                if suffix == arr(xs) + rest {
                    assert(arr(xs) =~= seq!['['] + (arr_body(xs) + seq![']']));
                    assert((arr(xs) + rest)[0] == '[');
                    assert(suffix.len() >= 2);
                    assert(suffix[0] == s@[p as int]);
                    assert(false);
                }
            }
        }
        return None;
    }
    if p + 1 < n && s.get_char(p + 1) == ']' {
        let xs: Vec<String> = Vec::new();
        proof {
            assert(xs.deep_view() =~= Seq::<Seq<char>>::empty());
            assert(arr_body(Seq::<Seq<char>>::empty()) =~= Seq::<char>::empty());
            assert(s@.subrange(p as int, p as int + 2) =~= arr(xs.deep_view()));
        }
        return Some((xs, p + 2));
    }
    proof {
        // Not a closing bracket at `p + 1`: a canonical array here has at
        // least one element, whose quoted text starts at `p + 1`.
        assert forall|xs0: Seq<Seq<char>>, rest: Seq<char>|
            suffix == arr(xs0) + rest implies xs0.len() > 0 && s@.subrange(p as int + 1, n as int)
                == quoted(xs0[0]) + arr_tail(xs0.drop_first(), rest) by {
            assert(suffix.len() >= 2);
            assert(s@.subrange(p as int + 1, n as int) =~= suffix.subrange(1, (n - p) as int));
            if xs0.len() == 0 {
                assert(arr(xs0) =~= seq!['[', ']']);
                assert(suffix[1] == ']');
                assert(false);
            }
            lemma_arr_head(suffix, xs0, rest);
            assert(suffix.subrange(1, (n - p) as int) =~= quoted(xs0[0]) + arr_tail(
                xs0.drop_first(),
                rest,
            ));
        }
    }
    let mut xs: Vec<String> = Vec::new();
    let first = match parse_quoted(s, n, p + 1) {
        None => {
            proof {
                assert forall|xs0: Seq<Seq<char>>, rest: Seq<char>| suffix != arr(xs0) + rest by {
                    if suffix == arr(xs0) + rest {
                        assert(s@.subrange(p as int + 1, n as int) == quoted(xs0[0]) + arr_tail(
                            xs0.drop_first(),
                            rest,
                        ));
                        assert(false);
                    }
                }
            }
            return None;
        },
        Some(fp) => fp,
    };
    let mut q: usize = first.1;
    xs.push(first.0);
    proof {
        assert(xs.deep_view() =~= seq![xs@[0]@]);
        assert(arr_body(xs.deep_view()) == quoted(xs.deep_view()[0]));
        assert(s@.subrange(p as int + 1, q as int) =~= arr_body(xs.deep_view()));
        let fv = xs@[0]@;
        assert forall|xs0: Seq<Seq<char>>, rest: Seq<char>|
            suffix == arr(xs0) + rest implies exists|xs2: Seq<Seq<char>>|
                xs0 == xs.deep_view() + xs2 && s@.subrange(q as int, n as int) == arr_tail(
                    xs2,
                    rest,
                ) by {
            assert(s@.subrange(p as int + 1, n as int) == quoted(xs0[0]) + arr_tail(
                xs0.drop_first(),
                rest,
            ));
            assert(s@.subrange(p as int + 1, n as int) =~= quoted(fv) + s@.subrange(
                q as int,
                n as int,
            ));
            lemma_quoted_unique(
                xs0[0],
                fv,
                arr_tail(xs0.drop_first(), rest),
                s@.subrange(q as int, n as int),
            );
            assert(xs0 =~= xs.deep_view() + xs0.drop_first());
            assert(xs0 == xs.deep_view() + xs0.drop_first() && s@.subrange(q as int, n as int)
                == arr_tail(xs0.drop_first(), rest));
        }
    }
    loop
        invariant
            p + 1 <= q <= n,
            n == s@.len(),
            s@[p as int] == '[',
            xs@.len() > 0,
            suffix == s@.subrange(p as int, n as int),
            s@.subrange(p as int + 1, q as int) == arr_body(xs.deep_view()),
            forall|xs0: Seq<Seq<char>>, rest: Seq<char>|
                suffix == arr(xs0) + rest ==> exists|xs2: Seq<Seq<char>>|
                    xs0 == xs.deep_view() + xs2 && s@.subrange(q as int, n as int) == arr_tail(
                        xs2,
                        rest,
                    ),
        decreases n - q,
    {
        if q >= n {
            proof {
                assert forall|xs0: Seq<Seq<char>>, rest: Seq<char>| suffix != arr(xs0) + rest by {
                    if suffix == arr(xs0) + rest {
                        let xs2 = choose|xs2: Seq<Seq<char>>|
                            xs0 == xs.deep_view() + xs2 && s@.subrange(q as int, n as int)
                                == arr_tail(xs2, rest);
                        assert(s@.subrange(q as int, n as int).len() == 0);
                        assert(arr_tail(xs2, rest).len() >= 1);
                        assert(false);
                    }
                }
            }
            return None;
        }
        let c = s.get_char(q);
        if c == ']' {
            proof {
                assert(s@.subrange(p as int, q as int + 1) =~= seq!['['] + arr_body(xs.deep_view())
                    + seq![']']);
                assert(s@.subrange(p as int, q as int + 1) =~= arr(xs.deep_view()));
            }
            return Some((xs, q + 1));
        } else if c == ',' {
            proof {
                // Behind the comma a canonical array goes on with one more
                // quoted element.
                assert forall|xs0: Seq<Seq<char>>, rest: Seq<char>|
                    suffix == arr(xs0) + rest implies exists|xs2: Seq<Seq<char>>|
                        xs0 == xs.deep_view() + xs2 && xs2.len() > 0 && s@.subrange(
                            q as int + 1,
                            n as int,
                        ) == quoted(xs2[0]) + arr_tail(xs2.drop_first(), rest) by {
                    let xs2 = choose|xs2: Seq<Seq<char>>|
                        xs0 == xs.deep_view() + xs2 && s@.subrange(q as int, n as int) == arr_tail(
                            xs2,
                            rest,
                        );
                    if xs2.len() == 0 {
                        assert(s@.subrange(q as int, n as int)[0] == ']');
                        assert(false);
                    }
                    let tail = s@.subrange(q as int, n as int);
                    let tx2: Seq<char> = if xs2.len() == 1 {
                        Seq::empty()
                    } else {
                        seq![','] + arr_body(xs2.drop_first())
                    };
                    assert(arr_body(xs2) =~= quoted(xs2[0]) + tx2);
                    assert(arr_tail(xs2.drop_first(), rest) =~= tx2 + seq![']'] + rest);
                    assert(tail =~= seq![','] + (quoted(xs2[0]) + arr_tail(
                        xs2.drop_first(),
                        rest,
                    )));
                    assert(s@.subrange(q as int + 1, n as int) =~= tail.subrange(
                        1,
                        (n - q) as int,
                    ));
                    assert(tail.subrange(1, (n - q) as int) =~= quoted(xs2[0]) + arr_tail(
                        xs2.drop_first(),
                        rest,
                    ));
                    assert(xs0 == xs.deep_view() + xs2 && xs2.len() > 0 && s@.subrange(
                        q as int + 1,
                        n as int,
                    ) == quoted(xs2[0]) + arr_tail(xs2.drop_first(), rest));
                }
            }
            let next = match parse_quoted(s, n, q + 1) {
                None => {
                    proof {
                        assert forall|xs0: Seq<Seq<char>>, rest: Seq<char>|
                            suffix != arr(xs0) + rest by {
                            if suffix == arr(xs0) + rest {
                                let xs2 = choose|xs2: Seq<Seq<char>>|
                                    xs0 == xs.deep_view() + xs2 && xs2.len() > 0 && s@.subrange(
                                        q as int + 1,
                                        n as int,
                                    ) == quoted(xs2[0]) + arr_tail(xs2.drop_first(), rest);
                                assert(false);
                            }
                        }
                    }
                    return None;
                },
                Some(xp) => xp,
            };
            let ghost dv = xs.deep_view();
            let ghost oldq = q as int;
            let q2 = next.1;
            let ghost x = next.0@;
            xs.push(next.0);
            proof {
                assert(xs.deep_view() =~= dv.push(x));
                lemma_arr_body_snoc(dv, x);
                assert(s@.subrange(p as int + 1, q2 as int) =~= arr_body(dv) + seq![','] + quoted(
                    x,
                ));
                assert(s@.subrange(p as int + 1, q2 as int) =~= arr_body(xs.deep_view()));
                assert forall|xs0: Seq<Seq<char>>, rest: Seq<char>|
                    suffix == arr(xs0) + rest implies exists|xs2b: Seq<Seq<char>>|
                        xs0 == xs.deep_view() + xs2b && s@.subrange(q2 as int, n as int)
                            == arr_tail(xs2b, rest) by {
                    let xs2 = choose|xs2: Seq<Seq<char>>|
                        xs0 == dv + xs2 && xs2.len() > 0 && s@.subrange(oldq + 1, n as int)
                            == quoted(xs2[0]) + arr_tail(xs2.drop_first(), rest);
                    assert(s@.subrange(oldq + 1, n as int) =~= quoted(x) + s@.subrange(
                        q2 as int,
                        n as int,
                    ));
                    lemma_quoted_unique(
                        xs2[0],
                        x,
                        arr_tail(xs2.drop_first(), rest),
                        s@.subrange(q2 as int, n as int),
                    );
                    assert(xs0 =~= xs.deep_view() + xs2.drop_first());
                    assert(xs0 == xs.deep_view() + xs2.drop_first() && s@.subrange(
                        q2 as int,
                        n as int,
                    ) == arr_tail(xs2.drop_first(), rest));
                }
            }
            q = q2;
        } else {
            proof {
                assert forall|xs0: Seq<Seq<char>>, rest: Seq<char>| suffix != arr(xs0) + rest by {
                    if suffix == arr(xs0) + rest {
                        let xs2 = choose|xs2: Seq<Seq<char>>|
                            xs0 == xs.deep_view() + xs2 && s@.subrange(q as int, n as int)
                                == arr_tail(xs2, rest);
                        if xs2.len() == 0 {
                            assert(s@.subrange(q as int, n as int)[0] == ']');
                        } else {
                            assert(s@.subrange(q as int, n as int)[0] == ',');
                        }
                        assert(false);
                    }
                }
            }
            return None;
        }
    }
}

proof fn lemma_sub_split(s: Seq<char>, i: int, j: int, k: int)
    requires
        0 <= i <= j <= k <= s.len(),
    ensures
        s.subrange(i, k) == s.subrange(i, j) + s.subrange(j, k),
{
    assert(s.subrange(i, k) =~= s.subrange(i, j) + s.subrange(j, k));
}

/// A suffix of `s` that equals `x + y` splits at `x`'s length into `x` and
/// `y` exactly.
proof fn lemma_concat_sub(s: Seq<char>, i: int, j: int, x: Seq<char>, y: Seq<char>)
    requires
        0 <= i <= j <= s.len(),
        s.subrange(i, s.len() as int) == x + y,
        j - i == x.len(),
    ensures
        s.subrange(i, j) == x,
        s.subrange(j, s.len() as int) == y,
{
    lemma_sub_split(s, i, j, s.len() as int);
    let a = s.subrange(i, j);
    let b = s.subrange(j, s.len() as int);
    assert(a + b == x + y);
    assert(a =~= (a + b).subrange(0, a.len() as int));
    assert(x =~= (x + y).subrange(0, x.len() as int));
    assert(b =~= (a + b).subrange(a.len() as int, (a + b).len() as int));
    assert(y =~= (x + y).subrange(x.len() as int, (x + y).len() as int));
}

/// The canonical text, regrouped from the front: each label or array piece
/// followed by all that comes after it.
proof fn lemma_tj_assemble(a: Seq<Seq<char>>, b: Seq<Seq<char>>, c: Seq<Seq<char>>)
    ensures
        tree_json(a, b, c) == types_label() + (arr(a) + (globals_label() + (arr(b) + (
        functions_label() + (arr(c) + seq!['}']))))),
{
    assert(tree_json(a, b, c) =~= types_label() + (arr(a) + (globals_label() + (arr(b) + (
    functions_label() + (arr(c) + seq!['}']))))));
}

/// Reads a summary back from its canonical text. A `Some` result means the
/// whole input is exactly the canonical text of that summary, and every
/// canonical text is read back — so, with the canonical text unambiguous,
/// decoding an encoding always returns the encoded value.
pub fn from_json(s: &str) -> (r: Option<WgslTree>)
    ensures
        r matches Some(t) ==> s@ == tree_json(
            t.types.deep_view(),
            t.global_variables.deep_view(),
            t.functions.deep_view(),
        ),
        (exists|a: Seq<Seq<char>>, b: Seq<Seq<char>>, c: Seq<Seq<char>>|
            s@ == tree_json(a, b, c)) ==> r is Some,
{
    let n = s.unicode_len();
    let ghost enc = exists|a: Seq<Seq<char>>, b: Seq<Seq<char>>, c: Seq<Seq<char>>|
        s@ == tree_json(a, b, c);
    let ghost (ga, gb, gc) = choose|a: Seq<Seq<char>>, b: Seq<Seq<char>>, c: Seq<Seq<char>>|
        s@ == tree_json(a, b, c);
    let ghost r5 = arr(gc) + seq!['}'];
    let ghost r4 = functions_label() + r5;
    let ghost r3 = arr(gb) + r4;
    let ghost r2 = globals_label() + r3;
    let ghost r1 = arr(ga) + r2;
    proof {
        if enc {
            lemma_tj_assemble(ga, gb, gc);
            assert(s@ =~= s@.subrange(0, n as int));
            lemma_concat_sub(s@, 0, types_label().len() as int, types_label(), r1);
        }
    }
    let lit1 = types_label_chars();
    let p1 = match expect_chars(s, n, 0, &lit1) {
        None => {
            proof {
                if enc {
                    assert(false);
                }
            }
            return None;
        },
        Some(p) => p,
    };
    let ta = match parse_array(s, n, p1) {
        None => {
            proof {
                if enc {
                    assert(s@.subrange(p1 as int, n as int) == arr(ga) + r2);
                    assert(false);
                }
            }
            return None;
        },
        Some(x) => x,
    };
    let p2 = ta.1;
    proof {
        if enc {
            lemma_sub_split(s@, p1 as int, p2 as int, n as int);
            assert(arr(ta.0.deep_view()) + s@.subrange(p2 as int, n as int) == arr(ga) + r2);
            lemma_arr_unique(ta.0.deep_view(), ga, s@.subrange(p2 as int, n as int), r2);
            lemma_concat_sub(s@, p2 as int, p2 as int + globals_label().len() as int,
                globals_label(), r3);
        }
    }
    let lit2 = globals_label_chars();
    let p3 = match expect_chars(s, n, p2, &lit2) {
        None => {
            proof {
                if enc {
                    assert(false);
                }
            }
            return None;
        },
        Some(p) => p,
    };
    let tb = match parse_array(s, n, p3) {
        None => {
            proof {
                if enc {
                    assert(s@.subrange(p3 as int, n as int) == arr(gb) + r4);
                    assert(false);
                }
            }
            return None;
        },
        Some(x) => x,
    };
    let p4 = tb.1;
    proof {
        if enc {
            lemma_sub_split(s@, p3 as int, p4 as int, n as int);
            assert(arr(tb.0.deep_view()) + s@.subrange(p4 as int, n as int) == arr(gb) + r4);
            lemma_arr_unique(tb.0.deep_view(), gb, s@.subrange(p4 as int, n as int), r4);
            lemma_concat_sub(s@, p4 as int, p4 as int + functions_label().len() as int,
                functions_label(), r5);
        }
    }
    let lit3 = functions_label_chars();
    let p5 = match expect_chars(s, n, p4, &lit3) {
        None => {
            proof {
                if enc {
                    assert(false);
                }
            }
            return None;
        },
        Some(p) => p,
    };
    let tc = match parse_array(s, n, p5) {
        None => {
            proof {
                if enc {
                    assert(s@.subrange(p5 as int, n as int) == arr(gc) + seq!['}']);
                    assert(false);
                }
            }
            return None;
        },
        Some(x) => x,
    };
    let p6 = tc.1;
    proof {
        if enc {
            lemma_sub_split(s@, p5 as int, p6 as int, n as int);
            assert(arr(tc.0.deep_view()) + s@.subrange(p6 as int, n as int) == arr(gc)
                + seq!['}']);
            lemma_arr_unique(tc.0.deep_view(), gc, s@.subrange(p6 as int, n as int), seq!['}']);
            assert(n - p6 == 1);
            assert(s@.subrange(p6 as int, p6 as int + 1) =~= seq!['}']);
        }
    }
    let rb = vec!['}'];
    proof {
        assert(rb@ =~= seq!['}']);
    }
    let p7 = match expect_chars(s, n, p6, &rb) {
        None => {
            proof {
                if enc {
                    assert(false);
                }
            }
            return None;
        },
        Some(p) => p,
    };
    if p7 != n {
        proof {
            if enc {
                assert(false);
            }
        }
        return None;
    }
    let t = WgslTree { types: ta.0, global_variables: tb.0, functions: tc.0 };
    proof {
        lemma_sub_split(s@, 0, p1 as int, n as int);
        lemma_sub_split(s@, p1 as int, p2 as int, n as int);
        lemma_sub_split(s@, p2 as int, p3 as int, n as int);
        lemma_sub_split(s@, p3 as int, p4 as int, n as int);
        lemma_sub_split(s@, p4 as int, p5 as int, n as int);
        lemma_sub_split(s@, p5 as int, p6 as int, n as int);
        assert(s@ =~= s@.subrange(0, n as int));
        lemma_tj_assemble(t.types.deep_view(), t.global_variables.deep_view(),
            t.functions.deep_view());
        assert(s@.subrange(p6 as int, n as int) =~= seq!['}']);
    }
    Some(t)
}

} // verus!
