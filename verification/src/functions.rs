//! The functions that are not given by a definition.

use vstd::prelude::*;

use crate::ast::Ident;
use crate::decls::Param;

verus! {

/// A function without a definition: its parameters, and whether a definition is
/// to be found for it.
#[derive(Debug)]
pub struct FuncEntry {
    pub inputs: Vec<Param>,
    pub syn: bool,
}

/// The functions without a definition, by name.
#[derive(Debug)]
pub struct Uninterpreteds {
    functions: Vec<(Ident, FuncEntry)>,
}

/// Whether no name comes twice.
pub open spec fn distinct_names(functions: Seq<(Ident, FuncEntry)>) -> bool {
    forall|i: int, j: int|
        0 <= i < j < functions.len() ==> (#[trigger] functions[i]).0@ != (
        #[trigger] functions[j]).0@
}

/// Whether a definition is to be found for `f`.
pub open spec fn to_find(f: (Ident, FuncEntry)) -> bool {
    f.1.syn
}

/// The names and entries that references point to.
pub open spec fn entries(fs: Seq<(&Ident, &FuncEntry)>) -> Seq<(Ident, FuncEntry)> {
    fs.map_values(|f: (&Ident, &FuncEntry)| (*f.0, *f.1))
}

impl View for Uninterpreteds {
    type V = Seq<(Ident, FuncEntry)>;

    closed spec fn view(&self) -> Seq<(Ident, FuncEntry)> {
        self.functions@
    }
}

impl Uninterpreteds {
    /// No functions.
    pub fn new() -> (r: Uninterpreteds)
        ensures
            r@ == Seq::<(Ident, FuncEntry)>::empty(),
            distinct_names(r@),
    {
        Uninterpreteds { functions: Vec::new() }
    }

    /// The functions.
    pub fn functions(&self) -> (r: &Vec<(Ident, FuncEntry)>)
        ensures
            r@ == self@,
    {
        &self.functions
    }

    /// Adds the function `name`, unless there is one of that name; says whether it
    /// did.
    pub fn add_function(&mut self, name: Ident, entry: FuncEntry) -> (added: bool)
        requires
            distinct_names(old(self)@),
        ensures
            added == !(exists|i: int| 0 <= i < old(self)@.len() && (#[trigger] old(self)@[i]).0@
                == name@),
            final(self)@ == (if added {
                old(self)@.push((name, entry))
            } else {
                old(self)@
            }),
            distinct_names(final(self)@),
    {
        let ghost before = self@;
        for i in 0..self.functions.len()
            invariant
                self@ == before,
                distinct_names(before),
                forall|j: int| 0 <= j < i ==> (#[trigger] before[j]).0@ != name@,
        {
            if self.functions[i].0.same(&name) {
                assert(before[i as int].0@ == name@);
                return false;
            }
        }
        self.functions.push((name, entry));
        true
    }
}

/// The functions that a definition is to be found for are told apart by their
/// names where all functions are.
pub proof fn lemma_synth_functions_distinct(functions: Seq<(Ident, FuncEntry)>)
    requires
        distinct_names(functions),
    ensures
        distinct_names(functions.filter(|f: (Ident, FuncEntry)| to_find(f))),
    decreases functions.len(),
{
    let keep = |f: (Ident, FuncEntry)| to_find(f);
    reveal(Seq::filter);
    if functions.len() > 0 {
        let front = functions.drop_last();
        let kept = front.filter(keep);
        lemma_synth_functions_distinct(front);
        assert forall|i: int| 0 <= i < kept.len() implies (#[trigger] kept[i]).0@
            != functions.last().0@ by {
            front.lemma_filter_contains_rev(keep, kept[i]);
            let j = choose|j: int| 0 <= j < front.len() && front[j] == kept[i];
            assert(functions[j] == kept[i]);
        }
    }
}

/// The functions that a definition is to be found for.
pub fn get_synth_functions(un: &Uninterpreteds) -> (r: Vec<(&Ident, &FuncEntry)>)
    ensures
        entries(r@) == un@.filter(|f: (Ident, FuncEntry)| to_find(f)),
{
    let functions = un.functions();
    let ghost all = functions@;
    let ghost keep = |f: (Ident, FuncEntry)| to_find(f);
    let mut r: Vec<(&Ident, &FuncEntry)> = Vec::new();
    proof {
        reveal(Seq::filter);
        assert(entries(r@) =~= all.take(0).filter(keep));
    }
    for i in 0..functions.len()
        invariant
            all == functions@,
            keep == (|f: (Ident, FuncEntry)| to_find(f)),
            entries(r@) == all.take(i as int).filter(keep),
    {
        let ghost before = entries(r@);
        proof {
            reveal(Seq::filter);
            assert(all.take(i + 1).drop_last() =~= all.take(i as int));
        }
        if functions[i].1.syn {
            r.push((&functions[i].0, &functions[i].1));
            assert(entries(r@) =~= before.push(all[i as int]));
        }
    }
    assert(all.take(all.len() as int) =~= all);
    r
}

/// The functions that a definition is to be found for are those that are marked so, and
/// no others, each as often as it comes.
pub proof fn lemma_synth_functions_marked(functions: Seq<(Ident, FuncEntry)>)
    ensures
        functions.filter(|f: (Ident, FuncEntry)| to_find(f)) == functions.filter(
            |f: (Ident, FuncEntry)| f.1.syn,
        ),
{
    let a = |f: (Ident, FuncEntry)| to_find(f);
    let b = |f: (Ident, FuncEntry)| f.1.syn;
    assert(a =~= b);
}

} // verus!
