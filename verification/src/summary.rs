//! The structural summary: the name-only projection of a parsed module, for
//! tooling that wants a module's surface without its bodies.

use vstd::prelude::*;

verus! {

/// Three ordered lists of identifier names: the declared types, the global
/// variables and the functions of one parsed module, each in the order the
/// front-end's arena presents them.
#[derive(Debug, Clone, PartialEq, Eq)]
pub struct WgslTree {
    pub types: Vec<String>,
    pub global_variables: Vec<String>,
    pub functions: Vec<String>,
}

impl Default for WgslTree {
    /// An empty summary: no types, no globals, no functions.
    fn default() -> (t: WgslTree)
        ensures
            t.types@ == Seq::<String>::empty(),
            t.global_variables@ == Seq::<String>::empty(),
            t.functions@ == Seq::<String>::empty(),
    {
        WgslTree { types: Vec::new(), global_variables: Vec::new(), functions: Vec::new() }
    }
}

/// The names among `xs`, in order: an anonymous (`None`) entry is dropped
/// outright, never kept as an empty string.
pub open spec fn named_of(xs: Seq<Option<Seq<char>>>) -> Seq<Seq<char>>
    decreases xs.len(),
{
    if xs.len() == 0 {
        Seq::empty()
    } else {
        named_of(xs.drop_last()) + match xs.last() {
            Some(n) => seq![n],
            None => Seq::empty(),
        }
    }
}

/// Every name the projection keeps stems from a `Some` entry of the input:
/// anonymous declarations leave no trace, not even an empty entry.
pub proof fn lemma_named_of_sound(xs: Seq<Option<Seq<char>>>, j: int)
    requires
        0 <= j < named_of(xs).len(),
    ensures
        exists|i: int| 0 <= i < xs.len() && xs[i] == Some(named_of(xs)[j]),
    decreases xs.len(),
{
    if xs.len() != 0 {
        let front = named_of(xs.drop_last());
        if j < front.len() {
            lemma_named_of_sound(xs.drop_last(), j);
            let i = choose|i: int|
                0 <= i < xs.drop_last().len() && xs.drop_last()[i] == Some(front[j]);
            assert(xs[i] == Some(named_of(xs)[j]));
        } else {
            match xs.last() {
                Some(n) => {
                    assert(named_of(xs)[j] == n);
                    assert(xs[xs.len() - 1] == Some(named_of(xs)[j]));
                },
                None => {
                    assert(named_of(xs) =~= front);
                },
            }
        }
    }
}

/// Keeps each named entry, in order, and drops the anonymous ones.
pub fn collect_named(xs: &Vec<Option<String>>) -> (r: Vec<String>)
    ensures
        r.deep_view() == named_of(xs.deep_view()),
{
    let mut r: Vec<String> = Vec::new();
    proof {
        assert(r.deep_view() =~= named_of(xs.deep_view().subrange(0, 0)));
    }
    let mut i: usize = 0;
    while i < xs.len()
        invariant
            i <= xs@.len(),
            r.deep_view() == named_of(xs.deep_view().subrange(0, i as int)),
        decreases xs@.len() - i,
    {
        let ghost rdv = r.deep_view();
        match &xs[i] {
            Some(name) => {
                let n = name.clone();
                r.push(n);
                proof {
                    assert(r.deep_view() =~= rdv + seq![xs.deep_view()[i as int]->Some_0]);
                }
            },
            None => {},
        }
        proof {
            let dv = xs.deep_view();
            assert(dv.subrange(0, i as int + 1).drop_last() =~= dv.subrange(0, i as int));
            assert(dv.subrange(0, i as int + 1).last() == dv[i as int]);
        }
        i += 1;
    }
    proof {
        assert(xs.deep_view().subrange(0, xs@.len() as int) =~= xs.deep_view());
    }
    r
}

/// Builds the summary from the three name columns of a module, keeping only
/// the declarations that carry a name and their arena order.
pub fn build_tree(
    types: &Vec<Option<String>>,
    global_variables: &Vec<Option<String>>,
    functions: &Vec<Option<String>>,
) -> (t: WgslTree)
    ensures
        t.types.deep_view() == named_of(types.deep_view()),
        t.global_variables.deep_view() == named_of(global_variables.deep_view()),
        t.functions.deep_view() == named_of(functions.deep_view()),
{
    WgslTree {
        types: collect_named(types),
        global_variables: collect_named(global_variables),
        functions: collect_named(functions),
    }
}

} // verus!
