//! Guards: the conjunctions of conditions and their negations that can be true.

use vstd::prelude::*;

use crate::ast::{share, terms, BinOpKind, Expr, ExprBuilder, Term, TyKind, UnOpKind};
use crate::regions::{count_holding, lemma_and_holds, lemma_count_add};
use crate::semantics::{holds, Valuation};
use crate::solver::{asked, lemma_asked_add, lemma_nothing_asked, SatOracle};

verus! {

/// What an exploration of assignments finds and does.
pub struct Exploration {
    /// The guards of the complete assignments that were reached.
    pub guards: Seq<Term>,
    /// The terms that were checked, in order.
    pub queries: Seq<Term>,
    /// How many of them were found satisfiable.
    pub checks: nat,
}

impl Exploration {
    /// This exploration and then `next`.
    pub open spec fn and(self, next: Exploration) -> Exploration {
        Exploration {
            guards: self.guards + next.guards,
            queries: self.queries + next.queries,
            checks: self.checks + next.checks,
        }
    }
}

/// `prefix` and `cond`, or its negation where `bit` is false.
pub open spec fn step(prefix: Term, cond: Term, bit: bool) -> Term {
    Term::and(
        prefix,
        if bit {
            cond
        } else {
            Term::not(cond)
        },
    )
}

/// The assignments to `conds` under `prefix`: false before true, with the answers
/// from the `at`th on for the terms that are checked.
pub open spec fn explore(conds: Seq<Term>, prefix: Term, answers: Seq<bool>, at: nat) -> Exploration
    decreases conds.len(), 1nat,
{
    if conds.len() == 0 {
        Exploration { guards: seq![prefix], queries: seq![], checks: 0 }
    } else {
        let low = explore_branch(conds, step(prefix, conds[0], false), answers, at);
        low.and(
            explore_branch(
                conds,
                step(prefix, conds[0], true),
                answers,
                at + low.queries.len(),
            ),
        )
    }
}

/// The assignments to all but the first of `conds` under `query`, which is
/// checked first.
pub open spec fn explore_branch(
    conds: Seq<Term>,
    query: Term,
    answers: Seq<bool>,
    at: nat,
) -> Exploration
    decreases conds.len(), 0nat,
{
    if conds.len() == 0 || !answers[at as int] {
        Exploration { guards: seq![], queries: seq![query], checks: 0 }
    } else {
        let below = explore(conds.drop_first(), query, answers, at + 1);
        Exploration {
            guards: below.guards,
            queries: seq![query] + below.queries,
            checks: below.checks + 1,
        }
    }
}

/// No more terms are found satisfiable than are checked.
pub proof fn lemma_checks_bounded(conds: Seq<Term>, prefix: Term, answers: Seq<bool>, at: nat)
    ensures
        explore(conds, prefix, answers, at).checks <= explore(
            conds,
            prefix,
            answers,
            at,
        ).queries.len(),
    decreases conds.len(), 1nat,
{
    if conds.len() > 0 {
        let low = step(prefix, conds[0], false);
        let high = step(prefix, conds[0], true);
        let used = explore_branch(conds, low, answers, at).queries.len();
        lemma_branch_checks_bounded(conds, low, answers, at);
        lemma_branch_checks_bounded(conds, high, answers, at + used);
    }
}

proof fn lemma_branch_checks_bounded(conds: Seq<Term>, query: Term, answers: Seq<bool>, at: nat)
    ensures
        explore_branch(conds, query, answers, at).checks <= explore_branch(
            conds,
            query,
            answers,
            at,
        ).queries.len(),
    decreases conds.len(), 0nat,
{
    if conds.len() > 0 && answers[at as int] {
        lemma_checks_bounded(conds.drop_first(), query, answers, at + 1);
    }
}

/// Answers behind those that an exploration used do not change it.
pub proof fn lemma_explore_stable(
    conds: Seq<Term>,
    prefix: Term,
    a: Seq<bool>,
    b: Seq<bool>,
    at: nat,
)
    requires
        a.len() <= b.len(),
        a == b.take(a.len() as int),
        at + explore(conds, prefix, a, at).queries.len() <= a.len(),
    ensures
        explore(conds, prefix, a, at) == explore(conds, prefix, b, at),
    decreases conds.len(), 1nat,
{
    if conds.len() > 0 {
        let low = step(prefix, conds[0], false);
        let high = step(prefix, conds[0], true);
        let e = explore_branch(conds, low, a, at);
        lemma_branch_stable(conds, low, a, b, at);
        lemma_branch_stable(conds, high, a, b, at + e.queries.len());
    }
}

proof fn lemma_branch_stable(
    conds: Seq<Term>,
    query: Term,
    a: Seq<bool>,
    b: Seq<bool>,
    at: nat,
)
    requires
        a.len() <= b.len(),
        a == b.take(a.len() as int),
        at + explore_branch(conds, query, a, at).queries.len() <= a.len(),
    ensures
        explore_branch(conds, query, a, at) == explore_branch(conds, query, b, at),
    decreases conds.len(), 0nat,
{
    assert(at < a.len());
    assert(a[at as int] == b[at as int]);
    if conds.len() > 0 && a[at as int] {
        lemma_explore_stable(conds.drop_first(), query, a, b, at + 1);
    }
}

/// Explores the assignments to the expressions from `idx` on: for each, false
/// before true, checks the conjunction so far and goes on below it where it is
/// satisfiable. Puts the guards of the complete assignments behind
/// `valid_iversons` and returns how many checks found a satisfiable conjunction.
pub fn explore_boolean_assignments(
    idx: usize,
    bool_exprs: &[Expr],
    builder: &ExprBuilder,
    oracle: &mut SatOracle,
    iverson_prod: Expr,
    valid_iversons: &mut Vec<Expr>,
) -> (num_sat_checks: usize)
    requires
        idx <= bool_exprs@.len(),
    ensures
        ({
            let e = explore(
                terms(bool_exprs@).skip(idx as int),
                iverson_prod@,
                final(oracle).answers(),
                old(oracle).taken(),
            );
            &&& terms(final(valid_iversons)@) == terms(old(valid_iversons)@) + e.guards
            &&& num_sat_checks == e.checks
            &&& asked(*old(oracle), *final(oracle), e.queries)
        }),
    decreases bool_exprs@.len() - idx, 1nat,
{
    let ghost conds = terms(bool_exprs@).skip(idx as int);
    let ghost prefix = iverson_prod@;
    let ghost before = terms(valid_iversons@);
    if idx == bool_exprs.len() {
        proof {
            lemma_nothing_asked(*oracle);
        }
        valid_iversons.push(iverson_prod);
        assert(terms(valid_iversons@) =~= before + seq![prefix]);
        return 0;
    }
    let ghost start = *oracle;
    assert(conds[0] == bool_exprs@[idx as int]@);
    let negated = builder.unary(UnOpKind::Not, TyKind::Bool, share(&bool_exprs[idx]));
    let low = builder.binary(BinOpKind::And, TyKind::Bool, share(&iverson_prod), negated);
    let low_checks = explore_below(idx, bool_exprs, builder, oracle, low, valid_iversons);
    let ghost mid = *oracle;
    let ghost e_low = explore_branch(conds, low@, mid.answers(), start.taken());
    let high = builder.binary(
        BinOpKind::And,
        TyKind::Bool,
        iverson_prod,
        share(&bool_exprs[idx]),
    );
    let high_checks = explore_below(idx, bool_exprs, builder, oracle, high, valid_iversons);
    proof {
        let end = *oracle;
        let e_high = explore_branch(conds, high@, end.answers(), mid.taken());
        lemma_branch_stable(conds, low@, mid.answers(), end.answers(), start.taken());
        lemma_asked_add(start, mid, end, e_low.queries, e_high.queries);
        lemma_branch_checks_bounded(conds, low@, end.answers(), start.taken());
        lemma_branch_checks_bounded(conds, high@, end.answers(), mid.taken());
        oracle.lemma_taken_fits();
        assert(terms(valid_iversons@) =~= before + (e_low.guards + e_high.guards));
    }
    low_checks + high_checks
}

/// Checks `query` and, where it is satisfiable, explores the assignments to the
/// expressions behind `idx` under it.
fn explore_below(
    idx: usize,
    bool_exprs: &[Expr],
    builder: &ExprBuilder,
    oracle: &mut SatOracle,
    query: Expr,
    valid_iversons: &mut Vec<Expr>,
) -> (num_sat_checks: usize)
    requires
        idx < bool_exprs@.len(),
    ensures
        ({
            let e = explore_branch(
                terms(bool_exprs@).skip(idx as int),
                query@,
                final(oracle).answers(),
                old(oracle).taken(),
            );
            &&& terms(final(valid_iversons)@) == terms(old(valid_iversons)@) + e.guards
            &&& num_sat_checks == e.checks
            &&& asked(*old(oracle), *final(oracle), e.queries)
        }),
    decreases bool_exprs@.len() - idx, 0nat,
{
    let ghost conds = terms(bool_exprs@).skip(idx as int);
    let ghost start = *oracle;
    let ghost before = terms(valid_iversons@);
    let ghost q = query@;
    if oracle.check_sat(&query) {
        let ghost mid = *oracle;
        assert(idx < bool_exprs.len());
        let below = explore_boolean_assignments(
            idx + 1,
            bool_exprs,
            builder,
            oracle,
            query,
            valid_iversons,
        );
        proof {
            let end = *oracle;
            assert(conds.drop_first() =~= terms(bool_exprs@).skip(idx + 1));
            let e = explore(conds.drop_first(), q, end.answers(), mid.taken());
            assert(end.answers()[start.taken() as int] == mid.answers()[start.taken() as int]);
            lemma_asked_add(start, mid, end, seq![q], e.queries);
            lemma_checks_bounded(conds.drop_first(), q, end.answers(), mid.taken());
            oracle.lemma_taken_fits();
        }
        below + 1
    } else {
        assert(terms(valid_iversons@) =~= before + seq![]);
        0
    }
}

/// A step holds where its prefix holds and the condition is as its bit says.
pub proof fn lemma_step_holds(prefix: Term, cond: Term, bit: bool, env: Valuation)
    ensures
        holds(step(prefix, cond, bit), env) == (holds(prefix, env) && holds(cond, env) == bit),
{
    let literal = if bit {
        cond
    } else {
        Term::not(cond)
    };
    lemma_and_holds(prefix, literal, env);
    assert(Term::not(cond).kids[0] == cond);
    assert(holds(Term::not(cond), env) == !holds(cond, env));
}

/// Guards exclude each other: under any valuation at most one of them holds, and
/// none where the prefix does not.
pub proof fn lemma_guards_exclusive(
    conds: Seq<Term>,
    prefix: Term,
    answers: Seq<bool>,
    at: nat,
    env: Valuation,
)
    ensures
        count_holding(explore(conds, prefix, answers, at).guards, env) <= (if holds(prefix, env) {
            1nat
        } else {
            0nat
        }),
    decreases conds.len(),
{
    if conds.len() == 0 {
        let gs = seq![prefix];
        assert(gs.drop_last() =~= seq![]);
        assert(count_holding(gs.drop_last(), env) == 0);
    } else {
        let low = step(prefix, conds[0], false);
        let high = step(prefix, conds[0], true);
        let e_low = explore_branch(conds, low, answers, at);
        let next = at + e_low.queries.len();
        let e_high = explore_branch(conds, high, answers, next);
        lemma_step_holds(prefix, conds[0], false, env);
        lemma_step_holds(prefix, conds[0], true, env);
        lemma_count_add(e_low.guards, e_high.guards, env);
        lemma_guards_exclusive(conds.drop_first(), low, answers, at + 1, env);
        lemma_guards_exclusive(conds.drop_first(), high, answers, next + 1, env);
    }
}

/// Whether each of `queries` that holds under `env` was answered with yes.
pub open spec fn none_missed(
    queries: Seq<Term>,
    answers: Seq<bool>,
    at: nat,
    env: Valuation,
) -> bool {
    forall|i: int|
        0 <= i < queries.len() && holds(#[trigger] queries[i], env) ==> answers[at + i]
}

/// Guards leave nothing out: under a valuation under which the prefix holds, and
/// under which no term that holds was answered with no, exactly one guard holds.
pub proof fn lemma_guards_cover(
    conds: Seq<Term>,
    prefix: Term,
    answers: Seq<bool>,
    at: nat,
    env: Valuation,
)
    requires
        holds(prefix, env),
        none_missed(explore(conds, prefix, answers, at).queries, answers, at, env),
    ensures
        count_holding(explore(conds, prefix, answers, at).guards, env) == 1,
    decreases conds.len(),
{
    if conds.len() == 0 {
        let gs = seq![prefix];
        assert(gs.drop_last() =~= seq![]);
        assert(count_holding(gs.drop_last(), env) == 0);
    } else {
        let bit = holds(conds[0], env);
        let low = step(prefix, conds[0], false);
        let high = step(prefix, conds[0], true);
        let e_low = explore_branch(conds, low, answers, at);
        let next = at + e_low.queries.len();
        let e_high = explore_branch(conds, high, answers, next);
        let queries = e_low.queries + e_high.queries;
        lemma_step_holds(prefix, conds[0], false, env);
        lemma_step_holds(prefix, conds[0], true, env);
        lemma_count_add(e_low.guards, e_high.guards, env);
        lemma_guards_exclusive(conds.drop_first(), low, answers, at + 1, env);
        lemma_guards_exclusive(conds.drop_first(), high, answers, next + 1, env);
        if bit {
            assert(queries[e_low.queries.len() as int] == high);
            let below = explore(conds.drop_first(), high, answers, next + 1);
            assert forall|i: int| 0 <= i < below.queries.len() && holds(
                #[trigger] below.queries[i],
                env,
            ) implies answers[next + 1 + i] by {
                assert(queries[e_low.queries.len() + 1 + i] == below.queries[i]);
            }
            lemma_guards_cover(conds.drop_first(), high, answers, next + 1, env);
        } else {
            assert(queries[0] == low);
            let below = explore(conds.drop_first(), low, answers, at + 1);
            assert forall|i: int| 0 <= i < below.queries.len() && holds(
                #[trigger] below.queries[i],
                env,
            ) implies answers[at + 1 + i] by {
                assert(queries[1 + i] == below.queries[i]);
            }
            lemma_guards_cover(conds.drop_first(), low, answers, at + 1, env);
        }
    }
}

/// `prefix` and each of `conds`, or its negation, as `bits` says.
pub open spec fn assignment(conds: Seq<Term>, prefix: Term, bits: Seq<bool>) -> Term
    decreases bits.len(),
{
    if bits.len() == 0 {
        prefix
    } else {
        assignment(conds.drop_first(), step(prefix, conds[0], bits[0]), bits.drop_first())
    }
}

/// Whether `sat` says yes to each conjunction on the way to an assignment.
pub open spec fn reachable(
    conds: Seq<Term>,
    prefix: Term,
    bits: Seq<bool>,
    sat: spec_fn(Term) -> bool,
) -> bool
    decreases bits.len(),
{
    bits.len() == 0 || {
        let next = step(prefix, conds[0], bits[0]);
        sat(next) && reachable(conds.drop_first(), next, bits.drop_first(), sat)
    }
}

/// Whether the answers from the `at`th on are what `sat` says of `queries`.
pub open spec fn answered_by(
    queries: Seq<Term>,
    answers: Seq<bool>,
    at: nat,
    sat: spec_fn(Term) -> bool,
) -> bool {
    forall|i: int| 0 <= i < queries.len() ==> sat(#[trigger] queries[i]) == answers[at + i]
}

/// Where the answers depend on the checked terms alone, the guards are those of
/// the complete assignments that were answered with yes at each conjunction on
/// the way to them.
pub proof fn lemma_guards_reachable(
    conds: Seq<Term>,
    prefix: Term,
    answers: Seq<bool>,
    at: nat,
    sat: spec_fn(Term) -> bool,
    guard: Term,
)
    requires
        answered_by(explore(conds, prefix, answers, at).queries, answers, at, sat),
    ensures
        explore(conds, prefix, answers, at).guards.contains(guard) <==> exists|bits: Seq<bool>|
            bits.len() == conds.len() && guard == #[trigger] assignment(conds, prefix, bits)
                && reachable(conds, prefix, bits, sat),
    decreases conds.len(),
{
    let all = explore(conds, prefix, answers, at);
    if conds.len() == 0 {
        let empty: Seq<bool> = seq![];
        assert(assignment(conds, prefix, empty) == prefix);
        assert(all.guards[0] == prefix);
        assert forall|bits: Seq<bool>| bits.len() == 0 implies #[trigger] assignment(
            conds,
            prefix,
            bits,
        ) == prefix by {}
    } else {
        let rest = conds.drop_first();
        let low = step(prefix, conds[0], false);
        let high = step(prefix, conds[0], true);
        let e_low = explore_branch(conds, low, answers, at);
        let next = at + e_low.queries.len();
        let e_high = explore_branch(conds, high, answers, next);
        let below_low = explore(rest, low, answers, at + 1);
        let below_high = explore(rest, high, answers, next + 1);
        let k = e_low.queries.len();
        assert(all.queries[0] == low);
        assert(all.queries[k as int] == high);
        if sat(low) {
            assert forall|i: int| 0 <= i < below_low.queries.len() implies sat(
                #[trigger] below_low.queries[i],
            ) == answers[at + 1 + i] by {
                assert(all.queries[1 + i] == below_low.queries[i]);
            }
            lemma_guards_reachable(rest, low, answers, at + 1, sat, guard);
        }
        if sat(high) {
            assert forall|i: int| 0 <= i < below_high.queries.len() implies sat(
                #[trigger] below_high.queries[i],
            ) == answers[next + 1 + i] by {
                assert(all.queries[k + 1 + i] == below_high.queries[i]);
            }
            lemma_guards_reachable(rest, high, answers, next + 1, sat, guard);
        }
        assert(all.guards.contains(guard) <==> e_low.guards.contains(guard)
            || e_high.guards.contains(guard)) by {
            if e_low.guards.contains(guard) {
                let i = choose|i: int| 0 <= i < e_low.guards.len() && e_low.guards[i] == guard;
                assert(all.guards[i] == guard);
            }
            if e_high.guards.contains(guard) {
                let i = choose|i: int| 0 <= i < e_high.guards.len() && e_high.guards[i] == guard;
                assert(all.guards[e_low.guards.len() + i] == guard);
            }
        }
        if e_low.guards.contains(guard) {
            let b = choose|b: Seq<bool>|
                b.len() == rest.len() && guard == #[trigger] assignment(rest, low, b) && reachable(
                    rest,
                    low,
                    b,
                    sat,
                );
            let bits = seq![false] + b;
            assert(bits.drop_first() =~= b);
            assert(guard == assignment(conds, prefix, bits));
        }
        if e_high.guards.contains(guard) {
            let b = choose|b: Seq<bool>|
                b.len() == rest.len() && guard == #[trigger] assignment(rest, high, b)
                    && reachable(rest, high, b, sat);
            let bits = seq![true] + b;
            assert(bits.drop_first() =~= b);
            assert(guard == assignment(conds, prefix, bits));
        }
        if exists|bits: Seq<bool>|
            bits.len() == conds.len() && guard == #[trigger] assignment(conds, prefix, bits)
                && reachable(conds, prefix, bits, sat) {
            let bits = choose|bits: Seq<bool>|
                bits.len() == conds.len() && guard == #[trigger] assignment(conds, prefix, bits)
                    && reachable(conds, prefix, bits, sat);
            let b = bits.drop_first();
            assert(guard == assignment(rest, step(prefix, conds[0], bits[0]), b));
        }
    }
}

/// A guard holds only where its prefix does.
proof fn lemma_guard_implies_prefix(
    conds: Seq<Term>,
    prefix: Term,
    answers: Seq<bool>,
    at: nat,
    i: int,
    env: Valuation,
)
    requires
        0 <= i < explore(conds, prefix, answers, at).guards.len(),
        holds(explore(conds, prefix, answers, at).guards[i], env),
    ensures
        holds(prefix, env),
{
    lemma_guards_exclusive(conds, prefix, answers, at, env);
    lemma_count_some(explore(conds, prefix, answers, at).guards, i, env);
}

proof fn lemma_count_some(ts: Seq<Term>, i: int, env: Valuation)
    requires
        0 <= i < ts.len(),
        holds(ts[i], env),
    ensures
        count_holding(ts, env) >= 1,
    decreases ts.len(),
{
    if i < ts.len() - 1 {
        lemma_count_some(ts.drop_last(), i, env);
    }
}

/// Whether a term implies another.
pub open spec fn entails(g: Term, c: Term) -> bool {
    forall|env: Valuation| #[trigger] holds(g, env) ==> holds(c, env)
}

/// Whether a term implies that another does not hold.
pub open spec fn excludes(g: Term, c: Term) -> bool {
    forall|env: Valuation| #[trigger] holds(g, env) ==> !holds(c, env)
}

/// Every guard decides every condition: it implies the condition or its negation.
pub proof fn lemma_guards_decide(
    conds: Seq<Term>,
    prefix: Term,
    answers: Seq<bool>,
    at: nat,
    i: int,
    k: int,
)
    requires
        0 <= i < explore(conds, prefix, answers, at).guards.len(),
        0 <= k < conds.len(),
    ensures
        entails(explore(conds, prefix, answers, at).guards[i], conds[k]) || excludes(
            explore(conds, prefix, answers, at).guards[i],
            conds[k],
        ),
    decreases conds.len(),
{
    let all = explore(conds, prefix, answers, at);
    let g = all.guards[i];
    let rest = conds.drop_first();
    let low = step(prefix, conds[0], false);
    let high = step(prefix, conds[0], true);
    let e_low = explore_branch(conds, low, answers, at);
    let next = at + e_low.queries.len();
    let e_high = explore_branch(conds, high, answers, next);
    let is_low = i < e_low.guards.len();
    let (q, start, j) = if is_low {
        (low, at + 1, i)
    } else {
        (high, next + 1, i - e_low.guards.len())
    };
    let below = explore(rest, q, answers, start);
    assert(below.guards[j] == g);
    if k == 0 {
        assert forall|env: Valuation| #[trigger] holds(g, env) implies holds(conds[0], env)
            == !is_low by {
            lemma_guard_implies_prefix(rest, q, answers, start, j, env);
            lemma_step_holds(prefix, conds[0], !is_low, env);
        }
    } else {
        lemma_guards_decide(rest, q, answers, start, j, k - 1);
        assert(rest[k - 1] == conds[k]);
    }
}

/// A guard depends on the conditions alone: where these and the prefix hold alike, the
/// guard does.
pub proof fn lemma_guard_depends(
    conds: Seq<Term>,
    prefix: Term,
    answers: Seq<bool>,
    at: nat,
    i: int,
    a: Valuation,
    b: Valuation,
)
    requires
        0 <= i < explore(conds, prefix, answers, at).guards.len(),
        holds(prefix, a) == holds(prefix, b),
        forall|k: int| 0 <= k < conds.len() ==> holds(#[trigger] conds[k], a) == holds(conds[k], b),
    ensures
        holds(explore(conds, prefix, answers, at).guards[i], a) == holds(
            explore(conds, prefix, answers, at).guards[i],
            b,
        ),
    decreases conds.len(),
{
    if conds.len() > 0 {
        let rest = conds.drop_first();
        let low = step(prefix, conds[0], false);
        let high = step(prefix, conds[0], true);
        let e_low = explore_branch(conds, low, answers, at);
        let next = at + e_low.queries.len();
        assert(holds(conds[0], a) == holds(conds[0], b));
        assert forall|k: int| 0 <= k < rest.len() implies holds(#[trigger] rest[k], a) == holds(
            rest[k],
            b,
        ) by {
            assert(rest[k] == conds[k + 1]);
        }
        lemma_step_holds(prefix, conds[0], false, a);
        lemma_step_holds(prefix, conds[0], false, b);
        lemma_step_holds(prefix, conds[0], true, a);
        lemma_step_holds(prefix, conds[0], true, b);
        if i < e_low.guards.len() {
            lemma_guard_depends(rest, low, answers, at + 1, i, a, b);
        } else {
            lemma_guard_depends(rest, high, answers, next + 1, i - e_low.guards.len(), a, b);
        }
    }
}

/// How many of the `n` answers from the `at`th on are yes.
pub open spec fn count_yes(answers: Seq<bool>, at: nat, n: nat) -> nat
    decreases n,
{
    if n == 0 {
        0
    } else {
        count_yes(answers, at, (n - 1) as nat) + if answers[at + n - 1] {
            1nat
        } else {
            0nat
        }
    }
}

proof fn lemma_count_yes_add(answers: Seq<bool>, at: nat, m: nat, n: nat)
    ensures
        count_yes(answers, at, m + n) == count_yes(answers, at, m) + count_yes(
            answers,
            at + m,
            n,
        ),
    decreases n,
{
    if n > 0 {
        lemma_count_yes_add(answers, at, m, (n - 1) as nat);
    }
}

/// The checks that count are those that were answered with yes.
pub proof fn lemma_checks_counted(conds: Seq<Term>, prefix: Term, answers: Seq<bool>, at: nat)
    ensures
        explore(conds, prefix, answers, at).checks == count_yes(
            answers,
            at,
            explore(conds, prefix, answers, at).queries.len(),
        ),
    decreases conds.len(), 1nat,
{
    if conds.len() > 0 {
        let low = step(prefix, conds[0], false);
        let high = step(prefix, conds[0], true);
        let e_low = explore_branch(conds, low, answers, at);
        let used = e_low.queries.len();
        let e_high = explore_branch(conds, high, answers, at + used);
        lemma_branch_checks_counted(conds, low, answers, at);
        lemma_branch_checks_counted(conds, high, answers, at + used);
        lemma_count_yes_add(answers, at, used, e_high.queries.len());
    }
}

proof fn lemma_branch_checks_counted(conds: Seq<Term>, query: Term, answers: Seq<bool>, at: nat)
    requires
        conds.len() > 0,
    ensures
        explore_branch(conds, query, answers, at).checks == count_yes(
            answers,
            at,
            explore_branch(conds, query, answers, at).queries.len(),
        ),
    decreases conds.len(), 0nat,
{
    let e = explore_branch(conds, query, answers, at);
    reveal_with_fuel(count_yes, 2);
    if answers[at as int] {
        let below = explore(conds.drop_first(), query, answers, at + 1);
        lemma_checks_counted(conds.drop_first(), query, answers, at + 1);
        lemma_count_yes_add(answers, at, 1, below.queries.len());
        assert(e.queries.len() == 1 + below.queries.len());
    }
}

/// Whether one list of bits comes before another: it has a false where the other has a
/// true, at the first place where they differ.
pub open spec fn comes_before(a: Seq<bool>, b: Seq<bool>) -> bool {
    exists|k: int|
        0 <= k < a.len() && k < b.len() && !#[trigger] a[k] && b[k] && forall|j: int|
            0 <= j < k ==> #[trigger] a[j] == b[j]
}

/// Whether `bits` are assignments to all conditions, in order, and `guards` their guards.
pub open spec fn are_assignments(
    guards: Seq<Term>,
    conds: Seq<Term>,
    prefix: Term,
    bits: Seq<Seq<bool>>,
) -> bool {
    &&& bits.len() == guards.len()
    &&& forall|i: int|
        0 <= i < bits.len() ==> (#[trigger] bits[i]).len() == conds.len() && guards[i]
            == assignment(conds, prefix, bits[i])
    &&& forall|i: int, j: int|
        0 <= i < j < bits.len() ==> comes_before(#[trigger] bits[i], #[trigger] bits[j])
}

/// Guards come in the order of their assignments, false before true.
pub proof fn lemma_guards_ordered(
    conds: Seq<Term>,
    prefix: Term,
    answers: Seq<bool>,
    at: nat,
) -> (bits: Seq<Seq<bool>>)
    ensures
        are_assignments(explore(conds, prefix, answers, at).guards, conds, prefix, bits),
    decreases conds.len(),
{
    let all = explore(conds, prefix, answers, at);
    if conds.len() == 0 {
        let bits: Seq<Seq<bool>> = seq![seq![]];
        assert(all.guards =~= seq![prefix]);
        bits
    } else {
        let rest = conds.drop_first();
        let low = step(prefix, conds[0], false);
        let high = step(prefix, conds[0], true);
        let e_low = explore_branch(conds, low, answers, at);
        let next = at + e_low.queries.len();
        let e_high = explore_branch(conds, high, answers, next);
        let lows = if answers[at as int] {
            lemma_guards_ordered(rest, low, answers, at + 1)
        } else {
            seq![]
        };
        let highs = if answers[next as int] {
            lemma_guards_ordered(rest, high, answers, next + 1)
        } else {
            seq![]
        };
        let bits = lows.map_values(|b: Seq<bool>| seq![false] + b) + highs.map_values(
            |b: Seq<bool>| seq![true] + b,
        );
        let n = lows.len() as int;
        assert forall|i: int| 0 <= i < bits.len() implies (#[trigger] bits[i]).len() == conds.len()
            && all.guards[i] == assignment(conds, prefix, bits[i]) by {
            let b = if i < n {
                lows[i]
            } else {
                highs[i - n]
            };
            assert(bits[i].drop_first() =~= b);
        }
        assert forall|i: int, j: int| 0 <= i < j < bits.len() implies comes_before(
            #[trigger] bits[i],
            #[trigger] bits[j],
        ) by {
            if i < n && j >= n {
                assert(!bits[i][0] && bits[j][0]);
            } else {
                let (a, b) = if j < n {
                    (lows[i], lows[j])
                } else {
                    (highs[i - n], highs[j - n])
                };
                assert(comes_before(a, b));
                let k = choose|k: int|
                    0 <= k < a.len() && k < b.len() && !#[trigger] a[k] && b[k] && forall|j: int|
                        0 <= j < k ==> #[trigger] a[j] == b[j];
                assert(!bits[i][k + 1] && bits[j][k + 1]);
                assert forall|l: int| 0 <= l < k + 1 implies #[trigger] bits[i][l]
                    == bits[j][l] by {
                    if l > 0 {
                        assert(a[l - 1] == b[l - 1]);
                    }
                }
            }
        }
        bits
    }
}

/// An assignment holds where its prefix does and each condition is as its bit says.
pub proof fn lemma_assignment_holds(
    conds: Seq<Term>,
    prefix: Term,
    bits: Seq<bool>,
    env: Valuation,
)
    requires
        bits.len() <= conds.len(),
    ensures
        holds(assignment(conds, prefix, bits), env) <==> holds(prefix, env) && forall|k: int|
            0 <= k < bits.len() ==> holds(conds[k], env) == #[trigger] bits[k],
    decreases bits.len(),
{
    if bits.len() > 0 {
        let next = step(prefix, conds[0], bits[0]);
        let (rest, more) = (conds.drop_first(), bits.drop_first());
        lemma_step_holds(prefix, conds[0], bits[0], env);
        lemma_assignment_holds(rest, next, more, env);
        if holds(next, env) && forall|k: int|
            0 <= k < more.len() ==> holds(rest[k], env) == #[trigger] more[k] {
            assert forall|k: int| 0 <= k < bits.len() implies holds(conds[k], env)
                == #[trigger] bits[k] by {
                if k > 0 {
                    assert(more[k - 1] == bits[k]);
                    assert(rest[k - 1] == conds[k]);
                }
            }
        }
        if holds(prefix, env) && forall|k: int|
            0 <= k < bits.len() ==> holds(conds[k], env) == #[trigger] bits[k] {
            assert(holds(conds[0], env) == bits[0]);
            assert forall|k: int| 0 <= k < more.len() implies holds(rest[k], env)
                == #[trigger] more[k] by {
                assert(bits[k + 1] == more[k]);
            }
        }
    }
}

/// Each term that is checked is an assignment to some of the conditions, at least one, in
/// their order.
pub proof fn lemma_queries_assign(
    conds: Seq<Term>,
    prefix: Term,
    answers: Seq<bool>,
    at: nat,
    i: int,
)
    requires
        0 <= i < explore(conds, prefix, answers, at).queries.len(),
    ensures
        exists|bits: Seq<bool>|
            0 < bits.len() <= conds.len() && explore(conds, prefix, answers, at).queries[i]
                == #[trigger] assignment(conds, prefix, bits),
    decreases conds.len(),
{
    let all = explore(conds, prefix, answers, at);
    let rest = conds.drop_first();
    let low = step(prefix, conds[0], false);
    let high = step(prefix, conds[0], true);
    let e_low = explore_branch(conds, low, answers, at);
    let next = at + e_low.queries.len();
    let n = e_low.queries.len() as int;
    let bit = i >= n;
    let (q, start, j) = if bit {
        (high, next, i - n)
    } else {
        (low, at, i)
    };
    let e = explore_branch(conds, q, answers, start);
    assert(all.queries[i] == e.queries[j]);
    if j == 0 {
        let bits = seq![bit];
        assert(bits.drop_first() =~= seq![]);
        assert(assignment(rest, q, bits.drop_first()) == q);
        assert(all.queries[i] == assignment(conds, prefix, bits));
    } else {
        lemma_queries_assign(rest, q, answers, start + 1, j - 1);
        let b = choose|b: Seq<bool>|
            0 < b.len() <= rest.len() && explore(rest, q, answers, start + 1).queries[j - 1]
                == #[trigger] assignment(rest, q, b);
        let bits = seq![bit] + b;
        assert(bits.drop_first() =~= b);
        assert(all.queries[i] == assignment(conds, prefix, bits));
    }
}

} // verus!
