//! What holds of every search.

use vstd::prelude::*;

use crate::ast::{Op, Term, TyKind};
use crate::cegis::{
    canonical, constraints_at, entry_text, zero_extended, ActionModel, Failure, Search,
    VerdictModel, MAX_CEGIS_ITERS,
};
use crate::collections::{lemma_put_lookup, lookup, put, Entries};
use crate::naming::distinct;
use crate::regions::lemma_and_holds;
use crate::semantics::{holds, Valuation};
use crate::scripts::{
    clean, lemma_clean_escaped, lemma_clean_rendered, lemma_escaped_injective,
};
use crate::seqs::{joined, lemma_joined_contains};
use crate::smt::{escaped, escaped_char, rendered};
use crate::substitution::{
    free_vars, lemma_meaning_agrees, lemma_resolved_meaning, occurrences, occurrences_below,
    resolved, resolved_below,
};
use crate::text::lemma_decimal_digits;

verus! {

/// The value that a proposal has for a template variable.
pub open spec fn proposed(var: (Seq<char>, TyKind), candidate: Entries) -> Term {
    match lookup(candidate, var.0) {
        Some(v) => v,
        None => Term::number(0real, var.1),
    }
}

/// A proposal has a value for each template variable, that of the candidate or
/// zero, and for nothing else.
pub proof fn lemma_zero_extended_lookup(
    vars: Seq<(Seq<char>, TyKind)>,
    candidate: Entries,
    x: Seq<char>,
)
    requires
        distinct(vars),
    ensures
        forall|i: int|
            0 <= i < vars.len() && (#[trigger] vars[i]).0 == x ==> lookup(
                zero_extended(vars, candidate),
                x,
            ) == Some(proposed(vars[i], candidate)),
        lookup(zero_extended(vars, candidate), x) is Some ==> exists|i: int|
            0 <= i < vars.len() && (#[trigger] vars[i]).0 == x,
    decreases vars.len(),
{
    let m = zero_extended(vars, candidate);
    if vars.len() > 0 {
        let front = vars.drop_last();
        let n = vars.len() - 1;
        lemma_zero_extended_lookup(front, candidate, x);
        lemma_put_lookup(
            zero_extended(front, candidate),
            vars.last().0,
            proposed(vars.last(), candidate),
            x,
        );
        assert forall|i: int| 0 <= i < vars.len() && (#[trigger] vars[i]).0 == x implies lookup(
            m,
            x,
        ) == Some(proposed(vars[i], candidate)) by {
            if i < n {
                assert(front[i].0 == x);
                assert(vars[i].0 != vars[n].0);
            }
        }
        if lookup(m, x) is Some {
            if x == vars.last().0 {
                assert(vars[n].0 == x);
            } else {
                let i = choose|i: int| 0 <= i < front.len() && (#[trigger] front[i]).0 == x;
                assert(vars[i].0 == x);
            }
        }
    }
}

/// Whether `x` is not free in what `m` maps to.
pub open spec fn not_in_values(m: Entries, x: Seq<char>) -> bool {
    forall|y: Seq<char>|
        (#[trigger] lookup(m, y)) is Some ==> !occurrences(lookup(m, y)->0, seq![]).contains(x)
}

/// A variable that is replaced, by values in which it is not free, is gone.
pub proof fn lemma_replaced_gone(t: Term, m: Entries, x: Seq<char>)
    requires
        lookup(m, x) is Some,
        not_in_values(m, x),
    ensures
        !occurrences(resolved(t, m), seq![]).contains(x),
    decreases t,
{
    let none: Seq<Seq<char>> = seq![];
    let r = resolved(t, m);
    match t.op {
        Op::Var(y) => {
            if lookup(m, y) is None {
                assert(occurrences(r, none) =~= seq![y]);
            }
        },
        Op::Subst(y) => {
            if t.kids.len() == 2 {
                let v = resolved(t.kids[0], m);
                let inner = put(m, y, v);
                lemma_replaced_gone(t.kids[0], m, x);
                assert forall|z: Seq<char>| (#[trigger] lookup(inner, z)) is Some implies !(
                occurrences(lookup(inner, z)->0, none).contains(x)) by {
                    lemma_put_lookup(m, y, v, z);
                }
                lemma_put_lookup(m, y, v, x);
                lemma_replaced_gone(t.kids[1], inner, x);
            } else {
                assert(occurrences(r, none) =~= none);
            }
        },
        _ => {
            let below = resolved_below(t, m);
            let parts = occurrences_below(r, none);
            assert(r.kids == below);
            assert forall|i: int| 0 <= i < parts.len() implies !(#[trigger] parts[i]).contains(
                x,
            ) by {
                lemma_replaced_gone(t.kids[i], m, x);
                assert(parts[i] == occurrences(below[i], none));
            }
            if joined(parts).contains(x) {
                lemma_joined_contains(parts, x);
            }
        },
    }
}

/// The condition that is to be checked holds no template variable, where the
/// values of the candidate hold none.
pub proof fn lemma_proposal_closed(s: Search, i: int)
    requires
        0 <= i < s.vars.len(),
        distinct(s.vars),
        not_in_values(s.candidate, s.vars[i].0),
    ensures
        s.propose().1 matches ActionModel::Check(t) ==> !occurrences(t, seq![]).contains(
            s.vars[i].0,
        ),
{
    let m = zero_extended(s.vars, s.candidate);
    let x = s.vars[i].0;
    let none: Seq<Seq<char>> = seq![];
    lemma_zero_extended_lookup(s.vars, s.candidate, x);
    assert forall|y: Seq<char>| (#[trigger] lookup(m, y)) is Some implies !occurrences(
        lookup(m, y)->0,
        none,
    ).contains(x) by {
        lemma_zero_extended_lookup(s.vars, s.candidate, y);
        let k = choose|k: int| 0 <= k < s.vars.len() && (#[trigger] s.vars[k]).0 == y;
        if lookup(s.candidate, y) is None {
            let zero = Term::number(0real, s.vars[k].1);
            assert(occurrences_below(zero, none) =~= seq![]);
            assert(occurrences(zero, none) =~= none);
        }
    }
    lemma_replaced_gone(s.vc, m, x);
}

/// The constraints hold exactly where the verification condition holds at each
/// counterexample so far: values that meet them are not refuted by any of these.
pub proof fn lemma_constraints_hold(vc: Term, cexs: Seq<Entries>, env: Valuation)
    ensures
        holds(constraints_at(vc, cexs), env) <==> (forall|i: int|
            0 <= i < cexs.len() ==> holds(vc, env.after(#[trigger] cexs[i]))),
    decreases cexs.len(),
{
    if cexs.len() > 0 {
        let front = cexs.drop_last();
        let n = cexs.len() - 1;
        lemma_constraints_hold(vc, front, env);
        lemma_resolved_meaning(vc, cexs.last(), env);
        lemma_and_holds(resolved(vc, cexs.last()), constraints_at(vc, front), env);
        if holds(constraints_at(vc, cexs), env) {
            assert forall|i: int| 0 <= i < cexs.len() implies holds(
                vc,
                env.after(#[trigger] cexs[i]),
            ) by {
                if i < n {
                    assert(front[i] == cexs[i]);
                }
            }
        }
        if forall|i: int| 0 <= i < cexs.len() ==> holds(vc, env.after(#[trigger] cexs[i])) {
            assert(holds(vc, env.after(cexs[n])));
            assert forall|i: int| 0 <= i < front.len() implies holds(
                vc,
                env.after(#[trigger] front[i]),
            ) by {
                assert(front[i] == cexs[i]);
            }
        }
    }
}

/// Constraints add up: no step changes the verification condition or the template
/// variables, or drops a counterexample, and the constraints that are to be met are
/// those of all counterexamples so far.
pub proof fn lemma_counterexamples_kept(
    s: Search,
    verdict: VerdictModel,
    model: Option<Entries>,
)
    ensures
        ({
            let (p, j, r) = (s.propose().0, s.judge(verdict).0, s.resume(model).0);
            &&& p.vc == s.vc && j.vc == s.vc && r.vc == s.vc
            &&& p.vars == s.vars && j.vars == s.vars && r.vars == s.vars
            &&& p.cexs == s.cexs && r.cexs == s.cexs
            &&& s.cexs.is_prefix_of(j.cexs)
            &&& s.judge(verdict).1 matches ActionModel::FindModel(c) ==> c == constraints_at(
                s.vc,
                j.cexs,
            )
        }),
{
}

/// What is proposed next satisfies the verification condition at each counterexample
/// so far, where the values found meet the constraints that were asked for: `model`
/// is what was found, and the values not found are zero.
pub proof fn lemma_proposal_meets_constraints(
    s: Search,
    verdict: VerdictModel,
    model: Entries,
    env: Valuation,
)
    requires
        s.judge(verdict).1 matches ActionModel::FindModel(c) && holds(
            c,
            env.after(zero_extended(s.vars, model)),
        ),
    ensures
        ({
            let j = s.judge(verdict).0;
            let (next, action) = j.resume(Some(model));
            &&& next.current == zero_extended(s.vars, model)
            &&& next.cexs == j.cexs
            &&& action matches ActionModel::Check(t) ==> t == resolved(s.vc, next.current)
            &&& forall|k: int|
                0 <= k < next.cexs.len() ==> holds(
                    resolved(s.vc, #[trigger] next.cexs[k]),
                    env.after(next.current),
                )
        }),
{
    let j = s.judge(verdict).0;
    let m = zero_extended(s.vars, model);
    lemma_constraints_hold(s.vc, j.cexs, env.after(m));
    assert forall|k: int| 0 <= k < j.cexs.len() implies holds(
        resolved(s.vc, #[trigger] j.cexs[k]),
        env.after(m),
    ) by {
        lemma_resolved_meaning(s.vc, j.cexs[k], env.after(m));
    }
}

/// Whether no variable is free in what `m` maps to.
pub open spec fn closed_values(m: Entries) -> bool {
    forall|y: Seq<char>|
        (#[trigger] lookup(m, y)) is Some ==> free_vars(lookup(m, y)->0).len() == 0
}

proof fn lemma_zero_extended_closed(vars: Seq<(Seq<char>, TyKind)>, candidate: Entries)
    requires
        closed_values(candidate),
    ensures
        closed_values(zero_extended(vars, candidate)),
    decreases vars.len(),
{
    if vars.len() > 0 {
        let front = vars.drop_last();
        let (name, ty) = vars.last();
        let none: Seq<Seq<char>> = seq![];
        let zero = Term::number(0real, ty);
        lemma_zero_extended_closed(front, candidate);
        assert(occurrences_below(zero, none) =~= seq![]);
        assert(occurrences(zero, none) =~= none);
        assert(free_vars(zero).len() == 0);
        assert forall|y: Seq<char>| (#[trigger] lookup(
            zero_extended(vars, candidate),
            y,
        )) is Some implies free_vars(lookup(zero_extended(vars, candidate), y)->0).len() == 0 by {
            lemma_put_lookup(
                zero_extended(front, candidate),
                name,
                proposed(vars.last(), candidate),
                y,
            );
        }
    }
}

/// Two mappings to values without variables, of different variables, can be applied in
/// either order.
proof fn lemma_after_commutes(a: Entries, b: Entries, env: Valuation)
    requires
        closed_values(a),
        closed_values(b),
        forall|y: Seq<char>| (#[trigger] lookup(a, y)) is Some ==> lookup(b, y) is None,
    ensures
        env.after(a).after(b) == env.after(b).after(a),
{
    let (l, r) = (env.after(a).after(b), env.after(b).after(a));
    assert forall|y: Seq<char>| #[trigger] (l.vars)(y) == (r.vars)(y) by {
        if let Some(v) = lookup(a, y) {
            lemma_meaning_agrees(v, env, env.after(b));
        } else if let Some(v) = lookup(b, y) {
            lemma_meaning_agrees(v, env.after(a), env);
        }
    }
    assert(l =~= r);
}

/// No counterexample so far refutes what is to be checked next, where the values found
/// meet the constraints that were asked for, values hold no variables, and
/// counterexamples leave the template variables alone.
pub proof fn lemma_proposal_not_refuted(
    s: Search,
    verdict: VerdictModel,
    model: Entries,
    k: int,
    env: Valuation,
)
    requires
        s.judge(verdict).1 matches ActionModel::FindModel(c) && holds(
            c,
            env.after(zero_extended(s.vars, model)),
        ),
        0 <= k < s.judge(verdict).0.cexs.len(),
        closed_values(model),
        closed_values(s.judge(verdict).0.cexs[k]),
        forall|y: Seq<char>|
            (#[trigger] lookup(zero_extended(s.vars, model), y)) is Some ==> lookup(
                s.judge(verdict).0.cexs[k],
                y,
            ) is None,
    ensures
        ({
            let j = s.judge(verdict).0;
            j.resume(Some(model)).1 matches ActionModel::Check(t) ==> holds(
                t,
                env.after(j.cexs[k]),
            )
        }),
{
    let cex = s.judge(verdict).0.cexs[k];
    let m = zero_extended(s.vars, model);
    lemma_proposal_meets_constraints(s, verdict, model, env);
    lemma_zero_extended_closed(s.vars, model);
    lemma_after_commutes(m, cex, env);
    lemma_resolved_meaning(s.vc, cex, env.after(m));
    lemma_resolved_meaning(s.vc, m, env.after(cex));
}

/// The first proposal gives every template variable the value zero, of its type.
pub proof fn lemma_first_proposal_zero(vc: Term, vars: Seq<(Seq<char>, TyKind)>, i: int)
    requires
        distinct(vars),
        0 <= i < vars.len(),
    ensures
        lookup(Search::fresh(vc, vars).propose().0.current, vars[i].0) == Some(
            Term::number(0real, vars[i].1),
        ),
        Search::fresh(vc, vars).propose().1 == ActionModel::Check(
            resolved(vc, Search::fresh(vc, vars).propose().0.current),
        ),
{
    lemma_zero_extended_lookup(vars, seq![], vars[i].0);
}

impl Search {
    /// Whether no proposal and no counterexample came up twice, and there were not
    /// too many proposals.
    pub open spec fn sound(self) -> bool {
        &&& self.tried.no_duplicates()
        &&& self.cex_texts().no_duplicates()
        &&& self.iteration <= MAX_CEGIS_ITERS
    }
}

proof fn lemma_push_no_duplicates<A>(s: Seq<A>, x: A)
    requires
        s.no_duplicates(),
        !s.contains(x),
    ensures
        s.push(x).no_duplicates(),
{
}

/// A search that begins is sound.
pub proof fn lemma_fresh_sound(vc: Term, vars: Seq<(Seq<char>, TyKind)>)
    ensures
        Search::fresh(vc, vars).sound(),
{
}

/// Proposing keeps a search sound.
pub proof fn lemma_propose_sound(s: Search)
    requires
        s.sound(),
        s.iteration < MAX_CEGIS_ITERS,
    ensures
        s.propose().0.sound(),
{
    let text = canonical(zero_extended(s.vars, s.candidate));
    if !s.tried.contains(text) {
        lemma_push_no_duplicates(s.tried, text);
    }
}

/// A verdict keeps a search sound, and models are asked for only while more
/// proposals can be made.
pub proof fn lemma_judge_sound(s: Search, verdict: VerdictModel)
    requires
        s.sound(),
    ensures
        s.judge(verdict).0.sound(),
        s.judge(verdict).1 is FindModel ==> s.judge(verdict).0.iteration < MAX_CEGIS_ITERS,
{
    match verdict {
        VerdictModel::Counterexample(Some(cex)) => {
            let more = s.cexs.push(cex);
            if !s.cex_texts().contains(canonical(cex)) {
                lemma_push_no_duplicates(s.cex_texts(), canonical(cex));
                assert(more.map_values(|m: Entries| canonical(m)) =~= s.cex_texts().push(
                    canonical(cex),
                ));
            }
        },
        VerdictModel::Counterexample(None) => {
            if s.iteration < MAX_CEGIS_ITERS {
                lemma_propose_sound(s);
            }
        },
        _ => {},
    }
}

/// A model for the constraints, or that there is none, keeps a search sound.
pub proof fn lemma_resume_sound(s: Search, model: Option<Entries>)
    requires
        s.sound(),
        s.iteration < MAX_CEGIS_ITERS,
    ensures
        s.resume(model).0.sound(),
{
    if let Some(candidate) = model {
        lemma_propose_sound(Search { candidate, ..s });
    }
}

/// A counterexample that is not known ends a search: it can only propose the same
/// values again.
pub proof fn lemma_unknown_counterexample_repeats(s: Search)
    requires
        s.propose().1 is Check,
        s.iteration + 1 < MAX_CEGIS_ITERS,
    ensures
        s.propose().0.judge(VerdictModel::Counterexample(None)).1 == ActionModel::Repeated,
{
    let text = canonical(zero_extended(s.vars, s.candidate));
    let next = s.propose().0;
    assert(next.tried[s.tried.len() as int] == text);
    assert(next.tried.contains(text));
}

/// Values are reported as found only after the verification condition with exactly
/// these values was checked and proved.
pub proof fn lemma_found_was_checked(s: Search)
    requires
        s.propose().1 is Check,
    ensures
        s.propose().0.judge(VerdictModel::Proof).1 matches ActionModel::Found(m) && s.propose().1
            == ActionModel::Check(resolved(s.vc, m)),
{
}

/// Names written out hold no equals sign.
proof fn lemma_escaped_no_equals(name: Seq<char>)
    ensures
        forall|i: int| 0 <= i < escaped(name).len() ==> #[trigger] escaped(name)[i] != '=',
    decreases name.len(),
{
    reveal_strlit(".");
    if name.len() > 0 {
        lemma_escaped_no_equals(name.drop_last());
        lemma_decimal_digits(name.last() as nat);
        let tail = escaped_char(name.last());
        let front = escaped(name.drop_last());
        assert(forall|i: int| 0 <= i < tail.len() ==> #[trigger] tail[i] != '=');
        assert forall|i: int| 0 <= i < escaped(name).len() implies #[trigger] escaped(name)[i]
            != '=' by {
            if i < front.len() {
                assert(escaped(name)[i] == front[i]);
            } else {
                assert(escaped(name)[i] == tail[i - front.len()]);
            }
        }
    }
}

/// Two entries written out alike have the same name and values written out alike.
proof fn lemma_entry_text(a: (Seq<char>, Term), b: (Seq<char>, Term))
    requires
        entry_text(a) == entry_text(b),
    ensures
        a.0 == b.0,
        rendered(a.1) == rendered(b.1),
{
    reveal_strlit("=");
    let (ea, eb) = (escaped(a.0), escaped(b.0));
    let x = entry_text(a);
    lemma_escaped_no_equals(a.0);
    lemma_escaped_no_equals(b.0);
    if ea.len() < eb.len() {
        assert(x[ea.len() as int] == '=');
        assert(x[ea.len() as int] == eb[ea.len() as int]);
    }
    if eb.len() < ea.len() {
        assert(x[eb.len() as int] == '=');
        assert(x[eb.len() as int] == ea[eb.len() as int]);
    }
    assert(ea =~= x.take(ea.len() as int));
    assert(eb =~= x.take(ea.len() as int));
    assert(rendered(a.1) =~= x.skip((ea.len() + 1) as int));
    assert(rendered(b.1) =~= x.skip((ea.len() + 1) as int));
    lemma_escaped_injective(a.0, b.0);
}

proof fn lemma_entry_clean(entry: (Seq<char>, Term))
    ensures
        clean(entry_text(entry)),
{
    reveal_strlit("=");
    lemma_clean_escaped(entry.0);
    lemma_clean_rendered(entry.1);
}

proof fn lemma_canonical_end(entries: Entries)
    ensures
        entries.len() > 0 ==> canonical(entries).len() > 0 && canonical(entries).last() == ';',
        entries.len() == 0 ==> canonical(entries).len() == 0,
{
    reveal_strlit(";");
}

/// Mappings that are written out alike have the same names, in the same order, and
/// values written out alike: a proposal or a counterexample counts as one that came
/// up before only where it is written out as that one is, name by name and value
/// by value.
pub proof fn lemma_canonical_injective(a: Entries, b: Entries)
    requires
        canonical(a) == canonical(b),
    ensures
        a.len() == b.len(),
        forall|i: int|
            0 <= i < a.len() ==> (#[trigger] a[i]).0 == b[i].0 && rendered(a[i].1) == rendered(
                b[i].1,
            ),
    decreases a.len(),
{
    reveal_strlit(";");
    lemma_canonical_end(a);
    lemma_canonical_end(b);
    if a.len() > 0 && b.len() > 0 {
        let (fa, fb) = (canonical(a.drop_last()), canonical(b.drop_last()));
        let (ta, tb) = (entry_text(a.last()), entry_text(b.last()));
        let x = canonical(a);
        lemma_canonical_end(a.drop_last());
        lemma_canonical_end(b.drop_last());
        lemma_entry_clean(a.last());
        lemma_entry_clean(b.last());
        assert(x.len() == fa.len() + ta.len() + 1);
        assert(x.len() == fb.len() + tb.len() + 1);
        if fa.len() > fb.len() {
            let i = fa.len() - 1;
            assert(x[i] == fa[i]);
            assert(x[i] == tb[i - fb.len()]);
        }
        if fb.len() > fa.len() {
            let i = fb.len() - 1;
            assert(x[i] == fb[i]);
            assert(x[i] == ta[i - fa.len()]);
        }
        assert(fa =~= x.take(fa.len() as int));
        assert(fb =~= x.take(fa.len() as int));
        assert(ta =~= x.subrange(fa.len() as int, x.len() - 1));
        assert(tb =~= x.subrange(fa.len() as int, x.len() - 1));
        lemma_canonical_injective(a.drop_last(), b.drop_last());
        lemma_entry_text(a.last(), b.last());
        assert forall|i: int| 0 <= i < a.len() implies (#[trigger] a[i]).0 == b[i].0 && rendered(
            a[i].1,
        ) == rendered(b[i].1) by {
            if i < a.len() - 1 {
                assert(a.drop_last()[i] == a[i]);
                assert(b.drop_last()[i] == b[i]);
            }
        }
    }
}

/// A counterexample refines the search: where the limit is not reached and it is not
/// written out like an earlier one, values are asked for that meet the verification
/// condition at this counterexample too, and at all earlier ones.
pub proof fn lemma_counterexample_refines(s: Search, cex: Entries, env: Valuation)
    requires
        s.iteration < 3000,
        forall|i: int| 0 <= i < s.cexs.len() ==> canonical(#[trigger] s.cexs[i]) != canonical(cex),
    ensures
        ({
            let (next, action) = s.judge(VerdictModel::Counterexample(Some(cex)));
            &&& next == (Search { cexs: s.cexs.push(cex), ..s })
            &&& action matches ActionModel::FindModel(c) && (holds(c, env) <==> holds(
                s.vc,
                env.after(cex),
            ) && forall|i: int|
                0 <= i < s.cexs.len() ==> holds(s.vc, env.after(#[trigger] s.cexs[i])))
        }),
{
    let more = s.cexs.push(cex);
    assert(!s.cex_texts().contains(canonical(cex))) by {
        if s.cex_texts().contains(canonical(cex)) {
            let i = choose|i: int|
                0 <= i < s.cex_texts().len() && s.cex_texts()[i] == canonical(cex);
            assert(canonical(s.cexs[i]) == canonical(cex));
        }
    }
    lemma_constraints_hold(s.vc, more, env);
    assert(more[s.cexs.len() as int] == cex);
    if forall|i: int| 0 <= i < more.len() ==> holds(s.vc, env.after(#[trigger] more[i])) {
        assert forall|i: int| 0 <= i < s.cexs.len() implies holds(
            s.vc,
            env.after(#[trigger] s.cexs[i]),
        ) by {
            assert(more[i] == s.cexs[i]);
        }
        assert(holds(s.vc, env.after(more[s.cexs.len() as int])));
    }
    if holds(s.vc, env.after(cex)) && forall|i: int|
        0 <= i < s.cexs.len() ==> holds(s.vc, env.after(#[trigger] s.cexs[i])) {
        assert forall|i: int| 0 <= i < more.len() implies holds(
            s.vc,
            env.after(#[trigger] more[i]),
        ) by {
            if i < s.cexs.len() {
                assert(more[i] == s.cexs[i]);
            }
        }
    }
}

/// A counterexample that is written out like an earlier one ends the search, as one that
/// came up twice, where the limit is not reached.
pub proof fn lemma_counterexample_repeats(s: Search, cex: Entries, i: int)
    requires
        s.iteration < 3000,
        0 <= i < s.cexs.len(),
        canonical(s.cexs[i]) == canonical(cex),
    ensures
        s.judge(VerdictModel::Counterexample(Some(cex))) == (s, ActionModel::Repeated),
{
    assert(s.cex_texts()[i] == canonical(cex));
    assert(s.cex_texts().contains(canonical(cex)));
}

/// The other verdicts: a proof reports the values proposed last, an unknown one and any
/// counterexample at the limit give the search up, and a counterexample without values
/// leads to the next proposal.
pub proof fn lemma_verdicts(s: Search, cex: Option<Entries>)
    ensures
        s.judge(VerdictModel::Proof) == (s, ActionModel::Found(s.current)),
        s.judge(VerdictModel::Unknown) == (s, ActionModel::Failed(Failure::Unknown)),
        s.iteration >= 3000 ==> s.judge(VerdictModel::Counterexample(cex)) == (
            s,
            ActionModel::Failed(Failure::TooManyIterations),
        ),
        s.iteration < 3000 ==> s.judge(VerdictModel::Counterexample(None)) == s.propose(),
{
}

/// A proposal counts as one more. It is checked, with its values in the verification
/// condition, unless it is written out like an earlier one; it is remembered.
pub proof fn lemma_proposal(s: Search)
    ensures
        ({
            let m = zero_extended(s.vars, s.candidate);
            let (next, action) = s.propose();
            &&& next.iteration == s.iteration + 1
            &&& next.current == m
            &&& next.vc == s.vc && next.vars == s.vars && next.candidate == s.candidate
            &&& next.cexs == s.cexs
            &&& (exists|i: int| 0 <= i < s.tried.len() && #[trigger] s.tried[i] == canonical(m))
                ==> action == ActionModel::Repeated && next.tried == s.tried
            &&& (forall|i: int| 0 <= i < s.tried.len() ==> #[trigger] s.tried[i] != canonical(m))
                ==> action == ActionModel::Check(resolved(s.vc, m)) && next.tried
                == s.tried.push(canonical(m))
        }),
{
    let m = zero_extended(s.vars, s.candidate);
    if exists|i: int| 0 <= i < s.tried.len() && #[trigger] s.tried[i] == canonical(m) {
        let i = choose|i: int| 0 <= i < s.tried.len() && #[trigger] s.tried[i] == canonical(m);
        assert(s.tried.contains(canonical(m)));
    }
}

/// Values that meet the constraints become the candidate and are proposed; without any
/// the search is given up.
pub proof fn lemma_models(s: Search, model: Entries)
    ensures
        s.resume(None) == (s, ActionModel::Failed(Failure::NoModel)),
        s.resume(Some(model)) == (Search { candidate: model, ..s }).propose(),
{
}

/// What is checked stands for the verification condition with the values proposed, and
/// zero for template variables without one.
pub proof fn lemma_check_meaning(s: Search, env: Valuation)
    ensures
        s.propose().1 matches ActionModel::Check(t) ==> holds(t, env) == holds(
            s.vc,
            env.after(s.propose().0.current),
        ),
{
    lemma_resolved_meaning(s.vc, zero_extended(s.vars, s.candidate), env);
}

/// Two proposals of the same values: the second is noticed, whatever came between.
pub proof fn lemma_proposal_twice(s: Search, t: Search)
    requires
        s.propose().1 is Check,
        s.propose().0.tried.is_prefix_of(t.tried),
        zero_extended(t.vars, t.candidate) == zero_extended(s.vars, s.candidate),
    ensures
        t.propose().1 == ActionModel::Repeated,
{
    let text = canonical(zero_extended(s.vars, s.candidate));
    let first = s.propose().0.tried;
    assert(first[s.tried.len() as int] == text);
    assert(t.tried[s.tried.len() as int] == text);
}

/// Mappings with the same entries are written out alike.
pub proof fn lemma_canonical_alike(a: Entries, b: Entries)
    requires
        a.len() == b.len(),
        forall|i: int|
            0 <= i < a.len() ==> (#[trigger] a[i]).0 == b[i].0 && rendered(a[i].1) == rendered(
                b[i].1,
            ),
    ensures
        canonical(a) == canonical(b),
    decreases a.len(),
{
    if a.len() > 0 {
        assert forall|i: int| 0 <= i < a.drop_last().len() implies (
        #[trigger] a.drop_last()[i]).0 == b.drop_last()[i].0 && rendered(a.drop_last()[i].1)
            == rendered(b.drop_last()[i].1) by {
            assert(a[i].0 == b[i].0);
        }
        lemma_canonical_alike(a.drop_last(), b.drop_last());
        assert(a[a.len() - 1].0 == b[a.len() - 1].0);
    }
}

/// A proposal lists the template variables in their order.
pub proof fn lemma_zero_extended_order(vars: Seq<(Seq<char>, TyKind)>, candidate: Entries)
    requires
        distinct(vars),
    ensures
        zero_extended(vars, candidate) == vars.map_values(
            |v: (Seq<char>, TyKind)| (v.0, proposed(v, candidate)),
        ),
    decreases vars.len(),
{
    let f = |v: (Seq<char>, TyKind)| (v.0, proposed(v, candidate));
    if vars.len() > 0 {
        let front = vars.drop_last();
        let n = vars.len() - 1;
        lemma_zero_extended_order(front, candidate);
        let before = zero_extended(front, candidate);
        assert forall|i: int| 0 <= i < before.len() implies (#[trigger] before[i]).0
            != vars.last().0 by {
            assert(before[i].0 == front[i].0);
            assert(vars[i].0 != vars[n].0);
        }
        lemma_put_new(before, vars.last().0, proposed(vars.last(), candidate));
        assert(vars.map_values(f) =~= front.map_values(f).push(f(vars.last())));
    } else {
        assert(vars.map_values(f) =~= seq![]);
    }
}

proof fn lemma_put_new(entries: Entries, key: Seq<char>, v: Term)
    requires
        forall|i: int| 0 <= i < entries.len() ==> (#[trigger] entries[i]).0 != key,
    ensures
        put(entries, key, v) == entries.push((key, v)),
    decreases entries.len(),
{
    if entries.len() > 0 {
        let rest = entries.drop_first();
        assert(entries[0].0 != key);
        assert forall|i: int| 0 <= i < rest.len() implies (#[trigger] rest[i]).0 != key by {
            assert(rest[i] == entries[i + 1]);
        }
        lemma_put_new(rest, key, v);
        assert(put(entries, key, v) =~= entries.push((key, v)));
    } else {
        assert(put(entries, key, v) =~= entries.push((key, v)));
    }
}

/// A search begins without values, proposals or counterexamples.
pub proof fn lemma_fresh(vc: Term, vars: Seq<(Seq<char>, TyKind)>)
    ensures
        ({
            let s = Search::fresh(vc, vars);
            &&& s.vc == vc && s.vars == vars && s.iteration == 0
            &&& s.candidate.len() == 0 && s.current.len() == 0
            &&& s.tried.len() == 0 && s.cexs.len() == 0
        }),
{
}

/// A proposal has, for a name, the value of the last template variable of that name.
pub proof fn lemma_zero_extended_last(
    vars: Seq<(Seq<char>, TyKind)>,
    candidate: Entries,
    i: int,
)
    requires
        0 <= i < vars.len(),
        forall|j: int| i < j < vars.len() ==> (#[trigger] vars[j]).0 != vars[i].0,
    ensures
        lookup(zero_extended(vars, candidate), vars[i].0) == Some(proposed(vars[i], candidate)),
    decreases vars.len(),
{
    let front = vars.drop_last();
    let n = vars.len() - 1;
    lemma_put_lookup(
        zero_extended(front, candidate),
        vars.last().0,
        proposed(vars.last(), candidate),
        vars[i].0,
    );
    if i < n {
        assert(vars[n].0 != vars[i].0);
        assert forall|j: int| i < j < front.len() implies (#[trigger] front[j]).0 != front[i].0 by {
            assert(vars[j].0 != vars[i].0);
        }
        lemma_zero_extended_last(front, candidate, i);
    }
}

/// How mappings are written out: each entry as its name, an equals sign, its value and a
/// semicolon.
pub proof fn lemma_canonical_one_more(entries: Entries, name: Seq<char>, v: Term)
    ensures
        canonical(entries.push((name, v))) == canonical(entries) + escaped(name) + "="@
            + rendered(v) + ";"@,
        canonical(seq![]) == Seq::<char>::empty(),
{
    assert(entries.push((name, v)).drop_last() =~= entries);
    assert(canonical(entries) + (escaped(name) + "="@ + rendered(v)) + ";"@ =~= canonical(entries)
        + escaped(name) + "="@ + rendered(v) + ";"@);
}

} // verus!
