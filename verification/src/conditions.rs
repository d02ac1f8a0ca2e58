//! The Boolean conditions of a verification condition, and those of them that
//! speak of the parameters of an unknown function.

use vstd::prelude::*;

use crate::ast::{
    children, lemma_view, same_node, share, terms, Expr, ExprKind, Ident, Op, Term, UnOpKind,
};
use crate::calls::{all_entries, VarToParamMap};
use crate::collections::{
    entries_of, lookup, mapping_get, mapping_get_index, mapping_len, names_get_index, names_len,
    names_of, Entries,
};
use crate::seqs::{joined, lemma_joined_take};
use crate::substitution::{collect_program_vars, free_vars, resolved, subst_from_mapping};

verus! {

/// `t` itself, where it has a condition: an if-then-else or an Iverson bracket.
pub open spec fn own_site(t: Term) -> Seq<Term> {
    if t.op == Op::Ite || t.op == Op::Unary(UnOpKind::Iverson) {
        seq![t]
    } else {
        seq![]
    }
}

/// The if-then-elses and Iverson brackets in `t`, each before those below it.
pub open spec fn sites(t: Term) -> Seq<Term>
    decreases t, 1nat,
{
    own_site(t) + joined(sites_below(t))
}

/// [`sites`] for each of the terms below `t`.
pub open spec fn sites_below(t: Term) -> Seq<Seq<Term>>
    decreases t, 0nat,
{
    Seq::new(
        t.kids.len(),
        |i: int|
            if 0 <= i < t.kids.len() {
                sites(t.kids[i])
            } else {
                seq![]
            },
    )
}

/// The conditions of if-then-elses and the operands of Iverson brackets.
pub open spec fn conditions_at(sites: Seq<Term>) -> Seq<Term> {
    sites.map_values(|s: Term| s.kids[0])
}

/// Those of `all` that `keep` marks.
pub open spec fn marked(all: Seq<Term>, keep: Seq<bool>) -> Seq<Term>
    decreases all.len(),
{
    if all.len() == 0 {
        seq![]
    } else if keep.last() {
        marked(all.drop_last(), keep.drop_last()).push(all.last())
    } else {
        marked(all.drop_last(), keep.drop_last())
    }
}

/// Whether `keep` leaves out nothing but what equals something kept before it.
pub open spec fn leaves_out_repeats(all: Seq<Term>, keep: Seq<bool>) -> bool {
    &&& keep.len() == all.len()
    &&& forall|i: int|
        0 <= i < all.len() && !#[trigger] keep[i] ==> exists|j: int|
            0 <= j < i && #[trigger] keep[j] && all[j] == all[i]
}

/// Whether `some` is `all` without some repeats.
pub open spec fn without_repeats(all: Seq<Term>, some: Seq<Term>) -> bool {
    exists|keep: Seq<bool>|
        #[trigger] leaves_out_repeats(all, keep) && some == marked(all, keep)
}

/// Whether `conds` are the conditions in `t`, from left to right, an outer one
/// before those in it. A condition may be left out where the same
/// if-then-else or Iverson bracket came before.
pub open spec fn are_conditions(t: Term, conds: Seq<Term>) -> bool {
    exists|some: Seq<Term>|
        #[trigger] without_repeats(sites(t), some) && conds == conditions_at(some)
}

/// Marking everything leaves nothing out.
proof fn lemma_all_marked(all: Seq<Term>, keep: Seq<bool>)
    requires
        keep.len() == all.len(),
        forall|i: int| 0 <= i < keep.len() ==> #[trigger] keep[i],
    ensures
        marked(all, keep) == all,
    decreases all.len(),
{
    if all.len() > 0 {
        lemma_all_marked(all.drop_last(), keep.drop_last());
        assert(keep[all.len() - 1]);
        assert(all =~= all.drop_last().push(all.last()));
    } else {
        assert(all =~= seq![]);
    }
}

/// The conditions in a term, with all repeats, are its conditions.
pub proof fn lemma_all_conditions(t: Term)
    ensures
        are_conditions(t, conditions_at(sites(t))),
{
    let all = sites(t);
    let keep = Seq::new(all.len(), |i: int| true);
    lemma_all_marked(all, keep);
    assert(leaves_out_repeats(all, keep));
    assert(without_repeats(all, all));
}

/// What is marked comes from a marked place.
proof fn lemma_marked_from(all: Seq<Term>, keep: Seq<bool>, x: Term)
    requires
        keep.len() == all.len(),
        marked(all, keep).contains(x),
    ensures
        exists|j: int| 0 <= j < all.len() && #[trigger] keep[j] && all[j] == x,
    decreases all.len(),
{
    if all.len() > 0 {
        let n = all.len() - 1;
        if keep.last() && x == all.last() {
            assert(keep[n] && all[n] == x);
        } else {
            let before = marked(all.drop_last(), keep.drop_last());
            if keep.last() {
                let kept = marked(all, keep);
                let i = choose|i: int| 0 <= i < kept.len() && kept[i] == x;
                assert(before[i] == x);
            }
            lemma_marked_from(all.drop_last(), keep.drop_last(), x);
            let j = choose|j: int|
                0 <= j < n && #[trigger] keep.drop_last()[j] && all.drop_last()[j] == x;
            assert(keep[j] && all[j] == x);
        }
    }
}

/// One more place, kept or left out as a repeat.
proof fn lemma_without_repeats_step(all: Seq<Term>, some: Seq<Term>, x: Term)
    requires
        without_repeats(all, some),
    ensures
        without_repeats(all.push(x), some.push(x)),
        some.contains(x) ==> without_repeats(all.push(x), some),
{
    let keep = choose|keep: Seq<bool>|
        #[trigger] leaves_out_repeats(all, keep) && some == marked(all, keep);
    let kept = keep.push(true);
    assert(kept.drop_last() =~= keep);
    assert(all.push(x).drop_last() =~= all);
    assert forall|i: int| 0 <= i < all.push(x).len() && !#[trigger] kept[i] implies exists|j: int|
        0 <= j < i && #[trigger] kept[j] && all.push(x)[j] == all.push(x)[i] by {
        let j = choose|j: int| 0 <= j < i && #[trigger] keep[j] && all[j] == all[i];
        assert(kept[j]);
    }
    assert(leaves_out_repeats(all.push(x), kept));
    assert(marked(all.push(x), kept) == some.push(x));
    if some.contains(x) {
        lemma_marked_from(all, keep, x);
        let left = keep.push(false);
        assert(left.drop_last() =~= keep);
        assert forall|i: int| 0 <= i < all.push(x).len() && !#[trigger] left[i] implies exists|
            j: int,
        | 0 <= j < i && #[trigger] left[j] && all.push(x)[j] == all.push(x)[i] by {
            if i < all.len() {
                let j = choose|j: int| 0 <= j < i && #[trigger] keep[j] && all[j] == all[i];
                assert(left[j]);
            } else {
                let j = choose|j: int| 0 <= j < all.len() && #[trigger] keep[j] && all[j] == x;
                assert(left[j]);
            }
        }
        assert(leaves_out_repeats(all.push(x), left));
        assert(marked(all.push(x), left) == some);
    }
}

/// Whether the very node `site` is among `seen`. Where it is, an equal one is; where it
/// is not, nothing is said, since nodes are no part of the model.
fn is_seen(site: &Expr, seen: &Vec<Expr>) -> (known: bool)
    ensures
        known ==> terms(seen@).contains(site@),
{
    for i in 0..seen.len() {
        if same_node(site, &seen[i]) {
            assert(terms(seen@)[i as int] == site@);
            return true;
        }
    }
    false
}

/// Records `site` and its condition `cond`, unless the node is known.
pub fn record(known: bool, site: &Expr, cond: &Expr, out: &mut Vec<Expr>, seen: &mut Vec<Expr>)
    ensures
        final(out)@ == (if known {
            old(out)@
        } else {
            old(out)@.push(*cond)
        }),
        final(seen)@ == (if known {
            old(seen)@
        } else {
            old(seen)@.push(*site)
        }),
{
    if !known {
        out.push(share(cond));
        seen.push(share(site));
    }
}

/// Records the condition `cond` of `site`, unless that very node is among `seen`.
fn record_if_new(site: &Expr, cond: &Expr, out: &mut Vec<Expr>, seen: &mut Vec<Expr>)
    requires
        site@.kids.len() > 0,
        cond@ == site@.kids[0],
        terms(old(out)@) == conditions_at(terms(old(seen)@)),
    ensures
        terms(final(out)@) == conditions_at(terms(final(seen)@)),
        ({
            ||| terms(final(seen)@) == terms(old(seen)@).push(site@)
            ||| terms(final(seen)@) == terms(old(seen)@) && terms(old(seen)@).contains(site@)
        }),
{
    let ghost (before, conds) = (terms(seen@), terms(out@));
    let known = is_seen(site, seen);
    record(known, site, cond, out, seen);
    if !known {
        assert(terms(seen@) =~= before.push(site@));
        assert(terms(out@) =~= conds.push(cond@));
        assert(conditions_at(before.push(site@)) =~= conds.push(cond@));
    }
}

/// Records the conditions in `expr`.
fn collect_bool_conditions_rec(expr: &Expr, out: &mut Vec<Expr>, seen: &mut Vec<Expr>)
    requires
        terms(old(out)@) == conditions_at(terms(old(seen)@)),
    ensures
        terms(final(out)@) == conditions_at(terms(final(seen)@)),
        forall|all: Seq<Term>| #[trigger]
            without_repeats(all, terms(old(seen)@)) ==> without_repeats(
                all + sites(expr@),
                terms(final(seen)@),
            ),
    decreases expr@,
{
    let ghost before = terms(seen@);
    let ghost own = own_site(expr@);
    let ghost parts = sites_below(expr@);
    match &expr.kind {
        ExprKind::Ite(cond, _, _) => {
            record_if_new(expr, cond, out, seen);
        },
        ExprKind::Unary(UnOpKind::Iverson, operand) => {
            record_if_new(expr, operand, out, seen);
        },
        _ => {
            proof {
                lemma_view(&**expr);
            }
        },
    }
    assert forall|all: Seq<Term>| #[trigger] without_repeats(all, before) implies without_repeats(
        all + own,
        terms(seen@),
    ) by {
        lemma_without_repeats_step(all, before, expr@);
        assert(all + seq![expr@] =~= all.push(expr@));
        assert(all + Seq::<Term>::empty() =~= all);
    }
    let below = children(expr);
    assert(joined(parts.take(0)) =~= seq![]);
    assert(own + joined(parts.take(0)) =~= own);
    for i in 0..below.len()
        invariant
            terms(below@) == expr@.kids,
            parts == sites_below(expr@),
            terms(out@) == conditions_at(terms(seen@)),
            forall|all: Seq<Term>| #[trigger]
                without_repeats(all, before) ==> without_repeats(
                    all + (own + joined(parts.take(i as int))),
                    terms(seen@),
                ),
    {
        assert(expr@.kids[i as int] == below@[i as int]@);
        assert(decreases_to!(expr@ => expr@.kids));
        collect_bool_conditions_rec(&below[i], out, seen);
        proof {
            lemma_joined_take(parts, i as int);
            assert forall|all: Seq<Term>| #[trigger]
                without_repeats(all, before) implies without_repeats(
                all + (own + joined(parts.take(i + 1))),
                terms(seen@),
            ) by {
                assert(all + (own + joined(parts.take(i as int))) + parts[i as int] =~= all + (own
                    + joined(parts.take(i + 1))));
            }
        }
    }
    assert(parts.take(parts.len() as int) =~= parts);
}

/// The conditions of the if-then-elses and the operands of the Iverson brackets
/// in `expr`. One that is shared between several places is listed once. Which places
/// share a node is no part of the model, so the contract lets a repeat be listed or
/// left out.
pub fn collect_bool_conditions(expr: &Expr) -> (out: Vec<Expr>)
    ensures
        are_conditions(expr@, terms(out@)),
{
    let mut out: Vec<Expr> = Vec::new();
    let mut seen: Vec<Expr> = Vec::new();
    proof {
        assert(terms(out@) =~= conditions_at(terms(seen@)));
        assert(leaves_out_repeats(seq![], seq![]));
        assert(terms(seen@) =~= marked(seq![], seq![]));
        assert(without_repeats(seq![], terms(seen@)));
    }
    collect_bool_conditions_rec(expr, &mut out, &mut seen);
    assert(Seq::<Term>::empty() + sites(expr@) =~= sites(expr@));
    assert(without_repeats(sites(expr@), terms(seen@)));
    out
}

/// What stands at a marked place is among what is marked.
proof fn lemma_marked_contains(all: Seq<Term>, keep: Seq<bool>, j: int)
    requires
        keep.len() == all.len(),
        0 <= j < all.len(),
        keep[j],
    ensures
        marked(all, keep).contains(all[j]),
    decreases all.len(),
{
    let front = marked(all.drop_last(), keep.drop_last());
    let n = all.len() - 1;
    let kept = marked(all, keep);
    if j < n {
        lemma_marked_contains(all.drop_last(), keep.drop_last(), j);
        let i = choose|i: int| 0 <= i < front.len() && front[i] == all[j];
        assert(kept[i] == all[j]);
    } else {
        assert(kept[kept.len() - 1] == all[j]);
    }
}

/// No condition is lost and none is made up: the conditions of a term are those of
/// its if-then-elses and Iverson brackets.
pub proof fn lemma_conditions_complete(t: Term, conds: Seq<Term>, c: Term)
    requires
        are_conditions(t, conds),
    ensures
        conds.contains(c) <==> conditions_at(sites(t)).contains(c),
{
    let all = sites(t);
    let some = choose|some: Seq<Term>|
        #[trigger] without_repeats(all, some) && conds == conditions_at(some);
    let keep = choose|keep: Seq<bool>|
        #[trigger] leaves_out_repeats(all, keep) && some == marked(all, keep);
    if conds.contains(c) {
        let i = choose|i: int| 0 <= i < conds.len() && conds[i] == c;
        assert(some.contains(some[i]));
        lemma_marked_from(all, keep, some[i]);
        let j = choose|j: int| 0 <= j < all.len() && #[trigger] keep[j] && all[j] == some[i];
        assert(conditions_at(all)[j] == c);
    }
    if conditions_at(all).contains(c) {
        let i = choose|i: int| 0 <= i < all.len() && conditions_at(all)[i] == c;
        let j = if keep[i] {
            i
        } else {
            choose|j: int| 0 <= j < i && #[trigger] keep[j] && all[j] == all[i]
        };
        lemma_marked_contains(all, keep, j);
        let k = choose|k: int| 0 <= k < some.len() && some[k] == all[j];
        assert(conds[k] == c);
    }
}

/// Where no if-then-else or Iverson bracket comes twice, each condition is listed,
/// in order.
pub proof fn lemma_conditions_exact(t: Term, conds: Seq<Term>)
    requires
        are_conditions(t, conds),
        sites(t).no_duplicates(),
    ensures
        conds == conditions_at(sites(t)),
{
    let all = sites(t);
    let some = choose|some: Seq<Term>|
        #[trigger] without_repeats(all, some) && conds == conditions_at(some);
    let keep = choose|keep: Seq<bool>|
        #[trigger] leaves_out_repeats(all, keep) && some == marked(all, keep);
    assert forall|i: int| 0 <= i < keep.len() implies #[trigger] keep[i] by {
        if !keep[i] {
            let j = choose|j: int| 0 <= j < i && #[trigger] keep[j] && all[j] == all[i];
            assert(all[j] == all[i]);
        }
    }
    lemma_all_marked(all, keep);
}

/// Each of `ts` once, where it first comes.
pub open spec fn firsts(ts: Seq<Term>) -> Seq<Term>
    decreases ts.len(),
{
    if ts.len() == 0 {
        seq![]
    } else {
        let before = firsts(ts.drop_last());
        if before.contains(ts.last()) {
            before
        } else {
            before.push(ts.last())
        }
    }
}

proof fn lemma_firsts_contains(ts: Seq<Term>, i: int)
    requires
        0 <= i < ts.len(),
    ensures
        firsts(ts).contains(ts[i]),
    decreases ts.len(),
{
    let before = firsts(ts.drop_last());
    let all = firsts(ts);
    if i < ts.len() - 1 {
        lemma_firsts_contains(ts.drop_last(), i);
        let k = choose|k: int| 0 <= k < before.len() && before[k] == ts[i];
        assert(all[k] == ts[i]);
    } else if !before.contains(ts.last()) {
        assert(all[before.len() as int] == ts[i]);
    }
}

proof fn lemma_firsts_marked(all: Seq<Term>, keep: Seq<bool>)
    requires
        leaves_out_repeats(all, keep),
    ensures
        firsts(conditions_at(marked(all, keep))) == firsts(conditions_at(all)),
    decreases all.len(),
{
    if all.len() > 0 {
        let n = all.len() - 1;
        let (front, fewer) = (all.drop_last(), keep.drop_last());
        assert forall|i: int| 0 <= i < front.len() && !#[trigger] fewer[i] implies exists|j: int|
            0 <= j < i && #[trigger] fewer[j] && front[j] == front[i] by {
            assert(!keep[i]);
            let j = choose|j: int| 0 <= j < i && #[trigger] keep[j] && all[j] == all[i];
            assert(fewer[j] && front[j] == front[i]);
        }
        lemma_firsts_marked(front, fewer);
        let conds = conditions_at(all);
        assert(conds.drop_last() =~= conditions_at(front));
        if keep.last() {
            let kept = conditions_at(marked(all, keep));
            assert(kept.drop_last() =~= conditions_at(marked(front, fewer)));
        } else {
            assert(!keep[n]);
            let j = choose|j: int| 0 <= j < n && #[trigger] keep[j] && all[j] == all[n];
            lemma_firsts_contains(conditions_at(front), j);
            assert(conditions_at(front)[j] == conds.last());
        }
    } else {
        assert(marked(all, keep) =~= all);
    }
}

/// The conditions of a term are always the same, in the same order, but for repeats.
pub proof fn lemma_conditions_same(t: Term, a: Seq<Term>, b: Seq<Term>)
    requires
        are_conditions(t, a),
        are_conditions(t, b),
    ensures
        firsts(a) == firsts(b),
{
    lemma_firsts_conditions(t, a);
    lemma_firsts_conditions(t, b);
}

proof fn lemma_firsts_conditions(t: Term, conds: Seq<Term>)
    requires
        are_conditions(t, conds),
    ensures
        firsts(conds) == firsts(conditions_at(sites(t))),
{
    let all = sites(t);
    let some = choose|some: Seq<Term>|
        #[trigger] without_repeats(all, some) && conds == conditions_at(some);
    let keep = choose|keep: Seq<bool>|
        #[trigger] leaves_out_repeats(all, keep) && some == marked(all, keep);
    lemma_firsts_marked(all, keep);
}

/// Whether `m` maps every free variable of `cond`.
pub open spec fn covers(m: Entries, cond: Term) -> bool {
    forall|x: Seq<char>| #[trigger] free_vars(cond).contains(x) ==> lookup(m, x) is Some
}

/// The first of `maps` that maps every free variable of `cond`.
pub open spec fn explanation(maps: Seq<Entries>, cond: Term) -> Option<Entries>
    decreases maps.len(),
{
    if maps.len() == 0 {
        None
    } else if covers(maps[0], cond) {
        Some(maps[0])
    } else {
        explanation(maps.drop_first(), cond)
    }
}

/// Those of `conds` that one of `maps` explains, in terms of the parameters.
pub open spec fn explained(conds: Seq<Term>, maps: Seq<Entries>) -> Seq<Term>
    decreases conds.len(),
{
    if conds.len() == 0 {
        seq![]
    } else {
        let before = explained(conds.drop_last(), maps);
        match explanation(maps, conds.last()) {
            Some(m) => before.push(resolved(conds.last(), m)),
            None => before,
        }
    }
}

/// Whether `some` is `all` with some of it left out.
pub open spec fn is_subsequence(some: Seq<Term>, all: Seq<Term>) -> bool {
    exists|keep: Seq<bool>| keep.len() == all.len() && some == #[trigger] marked(all, keep)
}

/// More mappings do not change how a condition is explained.
pub proof fn lemma_explanation_kept(maps: Seq<Entries>, extra: Seq<Entries>, cond: Term)
    ensures
        explanation(maps, cond) is Some ==> explanation(maps + extra, cond) == explanation(
            maps,
            cond,
        ),
    decreases maps.len(),
{
    if maps.len() > 0 {
        lemma_explanation_kept(maps.drop_first(), extra, cond);
        assert((maps + extra).drop_first() =~= maps.drop_first() + extra);
    }
}

/// More mappings do not take away, reorder or change a condition that is explained.
pub proof fn lemma_explained_grows(conds: Seq<Term>, maps: Seq<Entries>, extra: Seq<Entries>)
    ensures
        is_subsequence(explained(conds, maps), explained(conds, maps + extra)),
    decreases conds.len(),
{
    let some = explained(conds, maps);
    let all = explained(conds, maps + extra);
    if conds.len() == 0 {
        let keep: Seq<bool> = seq![];
        assert(some =~= marked(all, keep));
    } else {
        let front = conds.drop_last();
        let c = conds.last();
        lemma_explained_grows(front, maps, extra);
        lemma_explanation_kept(maps, extra, c);
        let before = explained(front, maps + extra);
        let keep = choose|keep: Seq<bool>|
            keep.len() == before.len() && explained(front, maps) == #[trigger] marked(
                before,
                keep,
            );
        if explanation(maps + extra, c) is Some {
            let more = keep.push(explanation(maps, c) is Some);
            assert(more.drop_last() =~= keep);
            assert(all.drop_last() =~= before);
            assert(some == marked(all, more));
        } else {
            assert(some == marked(all, keep));
        }
    }
}

/// Each explained condition comes from a condition and the mapping that explains it.
proof fn lemma_explained_from(conds: Seq<Term>, maps: Seq<Entries>, x: Term) -> (c: Term)
    requires
        explained(conds, maps).contains(x),
    ensures
        conds.contains(c),
        explanation(maps, c) matches Some(m) && x == resolved(c, m),
    decreases conds.len(),
{
    let all = explained(conds, maps);
    let i = choose|i: int| 0 <= i < all.len() && all[i] == x;
    let front = conds.drop_last();
    let before = explained(front, maps);
    if i < before.len() {
        assert(before[i] == x);
        let c = lemma_explained_from(front, maps, x);
        let k = choose|k: int| 0 <= k < front.len() && front[k] == c;
        assert(conds[k] == c);
        c
    } else {
        assert(conds[conds.len() - 1] == conds.last());
        conds.last()
    }
}

proof fn lemma_explained_has(conds: Seq<Term>, maps: Seq<Entries>, i: int)
    requires
        0 <= i < conds.len(),
        explanation(maps, conds[i]) is Some,
    ensures
        explained(conds, maps).contains(resolved(conds[i], explanation(maps, conds[i])->0)),
    decreases conds.len(),
{
    let front = conds.drop_last();
    let before = explained(front, maps);
    let all = explained(conds, maps);
    let x = resolved(conds[i], explanation(maps, conds[i])->0);
    if i < conds.len() - 1 {
        lemma_explained_has(front, maps, i);
        let k = choose|k: int| 0 <= k < before.len() && before[k] == x;
        assert(all[k] == x);
    } else {
        assert(all[before.len() as int] == x);
    }
}

/// More mappings do not take away a relevant condition of a term, from one collection
/// of its conditions to another; nor do they reorder any, where no if-then-else or
/// Iverson bracket comes twice.
pub proof fn lemma_relevant_conditions_grow(
    t: Term,
    a: Seq<Term>,
    b: Seq<Term>,
    maps: Seq<Entries>,
    extra: Seq<Entries>,
)
    requires
        are_conditions(t, a),
        are_conditions(t, b),
    ensures
        forall|x: Term| #[trigger]
            explained(a, maps).contains(x) ==> explained(b, maps + extra).contains(x),
        sites(t).no_duplicates() ==> is_subsequence(
            explained(a, maps),
            explained(b, maps + extra),
        ),
{
    assert forall|x: Term| #[trigger] explained(a, maps).contains(x) implies explained(
        b,
        maps + extra,
    ).contains(x) by {
        let c = lemma_explained_from(a, maps, x);
        lemma_conditions_complete(t, a, c);
        lemma_conditions_complete(t, b, c);
        let i = choose|i: int| 0 <= i < b.len() && b[i] == c;
        lemma_explanation_kept(maps, extra, c);
        lemma_explained_has(b, maps + extra, i);
    }
    if sites(t).no_duplicates() {
        lemma_conditions_exact(t, a);
        lemma_conditions_exact(t, b);
        lemma_explained_grows(a, maps, extra);
    }
}

/// A list of parameters, each with a variable that stands for it.
pub type ParamVars = Seq<(Seq<char>, Seq<char>)>;

/// Whether `pairs` holds the parameter `p`.
pub open spec fn has_param(pairs: ParamVars, p: Seq<char>) -> bool {
    exists|i: int| 0 <= i < pairs.len() && (#[trigger] pairs[i]).0 == p
}

/// `pairs` with the first `n` entries of `m` noted, the other way round. A
/// parameter that is there already keeps its variable.
pub open spec fn noted(pairs: ParamVars, m: Entries, n: nat) -> ParamVars
    decreases n,
{
    if n == 0 {
        pairs
    } else {
        let before = noted(pairs, m, (n - 1) as nat);
        match m[n - 1].1.op {
            Op::Var(p) => if has_param(before, p) {
                before
            } else {
                before.push((p, m[n - 1].0))
            },
            _ => before,
        }
    }
}

/// The parameters, each with a variable, of the mappings that explain `conds`.
pub open spec fn param_vars(conds: Seq<Term>, maps: Seq<Entries>) -> ParamVars
    decreases conds.len(),
{
    if conds.len() == 0 {
        seq![]
    } else {
        let before = param_vars(conds.drop_last(), maps);
        match explanation(maps, conds.last()) {
            Some(m) => noted(before, m, m.len()),
            None => before,
        }
    }
}

/// The model of a list of parameters with their variables.
pub open spec fn pairs_of(pairs: Seq<(Ident, Ident)>) -> ParamVars {
    pairs.map_values(|p: (Ident, Ident)| (p.0@, p.1@))
}

/// Whether `mapping` maps every free variable of `cond`.
fn maps_all_vars(mapping: &VarToParamMap, cond: &Expr) -> (r: bool)
    ensures
        r == covers(entries_of(*mapping), cond@),
{
    let vars = collect_program_vars(cond);
    let n = names_len(&vars);
    let ghost names = free_vars(cond@);
    let mut i: usize = 0;
    while i < n
        invariant
            names == names_of(vars),
            names == free_vars(cond@),
            n == names.len(),
            i <= n,
            forall|j: int|
                0 <= j < i ==> lookup(entries_of(*mapping), #[trigger] names[j]) is Some,
        decreases n - i,
    {
        if let Some(x) = names_get_index(&vars, i) {
            if mapping_get(mapping, x).is_none() {
                assert(free_vars(cond@).contains(names[i as int]));
                return false;
            }
        }
        i = i + 1;
    }
    true
}

/// Notes the entries of `mapping` in `pairs`, the other way round.
fn note_params(mapping: &VarToParamMap, pairs: &mut Vec<(Ident, Ident)>)
    ensures
        pairs_of(final(pairs)@) == noted(
            pairs_of(old(pairs)@),
            entries_of(*mapping),
            entries_of(*mapping).len(),
        ),
{
    let n = mapping_len(mapping);
    let ghost m = entries_of(*mapping);
    let ghost start = pairs_of(pairs@);
    let mut i: usize = 0;
    while i < n
        invariant
            m == entries_of(*mapping),
            n == m.len(),
            i <= n,
            pairs_of(pairs@) == noted(start, m, i as nat),
        decreases n - i,
    {
        if let Some((prog_var, param_expr)) = mapping_get_index(mapping, i) {
            let ghost before = pairs_of(pairs@);
            if let ExprKind::Var(param_id) = &param_expr.kind {
                let mut known = false;
                for k in 0..pairs.len()
                    invariant
                        before == pairs_of(pairs@),
                        known == exists|j: int| 0 <= j < k && (#[trigger] before[j]).0 == param_id@,
                {
                    if pairs[k].0.same(param_id) {
                        assert(before[k as int].0 == param_id@);
                        known = true;
                    }
                }
                if !known {
                    pairs.push((param_id.copy(), Ident::new(prog_var)));
                    assert(pairs_of(pairs@) =~= before.push((param_id@, prog_var@)));
                }
            } else {
                proof {
                    lemma_view(&**param_expr);
                }
            }
        }
        i = i + 1;
    }
}

/// Those of `conds` whose free variables one of `mappings` maps, each with its
/// variables replaced as the first such mapping says; and the parameters of
/// these mappings, each with a variable.
pub fn explain_conditions(
    conds: &Vec<Expr>,
    mappings: &Vec<VarToParamMap>,
) -> (r: (Vec<Expr>, Vec<(Ident, Ident)>))
    ensures
        terms(r.0@) == explained(terms(conds@), all_entries(mappings@)),
        pairs_of(r.1@) == param_vars(terms(conds@), all_entries(mappings@)),
{
    let mut out: Vec<Expr> = Vec::new();
    let mut pairs: Vec<(Ident, Ident)> = Vec::new();
    let ghost cs = terms(conds@);
    let ghost maps = all_entries(mappings@);
    assert(cs.take(0) =~= seq![]);
    assert(terms(out@) =~= seq![]);
    assert(pairs_of(pairs@) =~= seq![]);
    for i in 0..conds.len()
        invariant
            cs == terms(conds@),
            maps == all_entries(mappings@),
            terms(out@) == explained(cs.take(i as int), maps),
            pairs_of(pairs@) == param_vars(cs.take(i as int), maps),
    {
        let b = &conds[i];
        proof {
            assert(cs.take(i + 1).drop_last() =~= cs.take(i as int));
            assert(cs.take(i + 1).last() == b@);
            assert(maps.skip(0) =~= maps);
        }
        let ghost out_before = terms(out@);
        let mut k: usize = 0;
        while k < mappings.len()
            invariant_except_break
                k <= mappings@.len(),
                explanation(maps, b@) == explanation(maps.skip(k as int), b@),
                terms(out@) == out_before,
                pairs_of(pairs@) == param_vars(cs.take(i as int), maps),
            invariant
                cs == terms(conds@),
                maps == all_entries(mappings@),
                0 <= i < conds@.len(),
                b@ == cs[i as int],
                cs.take(i + 1).drop_last() == cs.take(i as int),
                cs.take(i + 1).last() == b@,
                out_before == explained(cs.take(i as int), maps),
            ensures
                terms(out@) == explained(cs.take(i + 1), maps),
                pairs_of(pairs@) == param_vars(cs.take(i + 1), maps),
            decreases mappings@.len() - k,
        {
            let mapping = &mappings[k];
            assert(maps.skip(k as int)[0] == entries_of(*mapping));
            assert(maps.skip(k as int).drop_first() =~= maps.skip(k + 1));
            if maps_all_vars(mapping, b) {
                let wrapped = subst_from_mapping(mapping, b);
                out.push(wrapped);
                assert(terms(out@) =~= out_before.push(wrapped@));
                note_params(mapping, &mut pairs);
                break ;
            }
            k = k + 1;
        }
    }
    assert(cs.take(cs.len() as int) =~= cs);
    (out, pairs)
}

/// The conditions of `vc_expr` whose free variables are mapped at some call,
/// each with its variables replaced by the parameters they stand for there; and
/// the parameters of the mappings used, each with a variable.
pub fn collect_relevant_bool_conditions(
    vc_expr: &Expr,
    mappings: &Vec<VarToParamMap>,
) -> (r: (Vec<Expr>, Vec<(Ident, Ident)>))
    ensures
        exists|conds: Seq<Term>| #[trigger]
            are_conditions(vc_expr@, conds) && terms(r.0@) == explained(
                conds,
                all_entries(mappings@),
            ) && pairs_of(r.1@) == param_vars(conds, all_entries(mappings@)),
{
    let conds = collect_bool_conditions(vc_expr);
    explain_conditions(&conds, mappings)
}

} // verus!
