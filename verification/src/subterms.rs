//! The terms within a term.

use vstd::prelude::*;

use crate::ast::Term;
use crate::seqs::{joined, lemma_joined_add, lemma_joined_contains, lemma_joined_has};

verus! {

/// Whether `s` is `t` or stands somewhere below it.
pub open spec fn is_subterm(s: Term, t: Term) -> bool
    decreases t,
{
    s == t || exists|i: int| 0 <= i < t.kids.len() && is_subterm(s, #[trigger] t.kids[i])
}

/// All terms within `t`: `t` itself, and then those within each term below it, from left
/// to right.
pub open spec fn preorder(t: Term) -> Seq<Term>
    decreases t, 1nat,
{
    seq![t] + joined(preorder_below(t))
}

/// [`preorder`] for each of the terms below `t`.
pub open spec fn preorder_below(t: Term) -> Seq<Seq<Term>>
    decreases t, 0nat,
{
    Seq::new(
        t.kids.len(),
        |i: int|
            if 0 <= i < t.kids.len() {
                preorder(t.kids[i])
            } else {
                seq![]
            },
    )
}

/// The list of all terms within a term holds its subterms and nothing else.
pub proof fn lemma_preorder_subterms(t: Term, s: Term)
    ensures
        preorder(t).contains(s) <==> is_subterm(s, t),
    decreases t,
{
    let parts = preorder_below(t);
    let all = preorder(t);
    assert forall|i: int| 0 <= i < t.kids.len() implies (#[trigger] parts[i]).contains(s)
        == is_subterm(s, t.kids[i]) by {
        lemma_preorder_subterms(t.kids[i], s);
    }
    if all.contains(s) && s != t {
        let k = choose|k: int| 0 <= k < all.len() && all[k] == s;
        assert(joined(parts)[k - 1] == s);
        lemma_joined_contains(parts, s);
        let i = choose|i: int| 0 <= i < parts.len() && (#[trigger] parts[i]).contains(s);
        assert(is_subterm(s, t.kids[i]));
    }
    if is_subterm(s, t) {
        if s == t {
            assert(all[0] == s);
        } else {
            let i = choose|i: int| 0 <= i < t.kids.len() && is_subterm(s, #[trigger] t.kids[i]);
            assert(parts[i].contains(s));
            lemma_joined_has(parts, i, s);
            let k = choose|k: int| 0 <= k < joined(parts).len() && joined(parts)[k] == s;
            assert(all[k + 1] == s);
        }
    }
}

/// What `f` makes of each term within `t`, one after the other.
pub open spec fn gathered<A>(t: Term, f: spec_fn(Term) -> Seq<A>) -> Seq<A> {
    joined(preorder(t).map_values(f))
}

/// [`gathered`] for each of the terms below `t`.
pub open spec fn gathered_below<A>(t: Term, f: spec_fn(Term) -> Seq<A>) -> Seq<Seq<A>> {
    t.kids.map_values(|k: Term| gathered(k, f))
}

proof fn lemma_joined_map<A>(parts: Seq<Seq<Term>>, f: spec_fn(Term) -> Seq<A>)
    ensures
        joined(joined(parts).map_values(f)) == joined(
            parts.map_values(|p: Seq<Term>| joined(p.map_values(f))),
        ),
    decreases parts.len(),
{
    let g = |p: Seq<Term>| joined(p.map_values(f));
    if parts.len() == 0 {
        assert(joined(parts).map_values(f) =~= seq![]);
        assert(parts.map_values(g) =~= seq![]);
    } else {
        let front = parts.drop_last();
        lemma_joined_map(front, f);
        assert(joined(parts).map_values(f) =~= joined(front).map_values(f)
            + parts.last().map_values(f));
        lemma_joined_add(joined(front).map_values(f), parts.last().map_values(f));
        assert(parts.map_values(g).drop_last() =~= front.map_values(g));
        assert(parts.map_values(g).last() == joined(parts.last().map_values(f)));
    }
}

/// What is gathered from a term is what its root gives, and then what is gathered from
/// each of the terms below it.
pub proof fn lemma_gathered<A>(t: Term, f: spec_fn(Term) -> Seq<A>)
    ensures
        gathered(t, f) == f(t) + joined(gathered_below(t, f)),
{
    let parts = preorder_below(t);
    let root = seq![f(t)];
    assert(preorder(t).map_values(f) =~= root + joined(parts).map_values(f));
    lemma_joined_add(root, joined(parts).map_values(f));
    assert(root.drop_last() =~= seq![]);
    assert(joined(root.drop_last()) =~= seq![]);
    assert(joined(root) =~= f(t));
    lemma_joined_map(parts, f);
    assert(parts.map_values(|p: Seq<Term>| joined(p.map_values(f))) =~= gathered_below(t, f));
}

/// Gathering a term where a test holds, and nothing elsewhere, is keeping those terms for
/// which it holds.
pub proof fn lemma_gathered_filter(
    all: Seq<Term>,
    f: spec_fn(Term) -> Seq<Term>,
    test: spec_fn(Term) -> bool,
)
    requires
        forall|s: Term| #[trigger]
            f(s) == (if test(s) {
                seq![s]
            } else {
                seq![]
            }),
    ensures
        joined(all.map_values(f)) == all.filter(test),
    decreases all.len(),
{
    reveal(Seq::filter);
    let parts = all.map_values(f);
    if all.len() > 0 {
        let front = all.drop_last();
        lemma_gathered_filter(front, f, test);
        assert(parts.drop_last() =~= front.map_values(f));
        assert(parts.last() == f(all.last()));
        assert(joined(parts) =~= all.filter(test));
    } else {
        assert(joined(parts) =~= all.filter(test));
    }
}

/// What is gathered holds what `f` gives for each subterm, and nothing else.
pub proof fn lemma_gathered_contains<A>(t: Term, f: spec_fn(Term) -> Seq<A>, x: A)
    ensures
        gathered(t, f).contains(x) <==> exists|s: Term| #[trigger]
            is_subterm(s, t) && f(s).contains(x),
{
    let all = preorder(t);
    let parts = all.map_values(f);
    if gathered(t, f).contains(x) {
        lemma_joined_contains(parts, x);
        let i = choose|i: int| 0 <= i < parts.len() && (#[trigger] parts[i]).contains(x);
        lemma_preorder_subterms(t, all[i]);
        assert(all.contains(all[i]));
        assert(is_subterm(all[i], t) && f(all[i]).contains(x));
    }
    if exists|s: Term| #[trigger] is_subterm(s, t) && f(s).contains(x) {
        let s = choose|s: Term| #[trigger] is_subterm(s, t) && f(s).contains(x);
        lemma_preorder_subterms(t, s);
        let i = choose|i: int| 0 <= i < all.len() && all[i] == s;
        assert(parts[i] == f(s));
        lemma_joined_has(parts, i, x);
    }
}

} // verus!
