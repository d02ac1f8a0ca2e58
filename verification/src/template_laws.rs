//! What a template is, from the function and the verification condition that it is for.

use vstd::arithmetic::div_mod::{lemma_fundamental_div_mod, lemma_fundamental_div_mod_converse};
use vstd::arithmetic::power::pow;
use vstd::prelude::*;

use crate::ast::{Op, Term, TyKind};
use crate::calls::call_maps;
use crate::collecting_laws::{
    first_to_cover, has_condition, lemma_condition_from_subterm, lemma_explanation_first,
    lemma_relevant_condition,
};
use crate::collections::Entries;
use crate::conditions::{are_conditions, explained, explanation};
use crate::decls::{DeclModel, Param, Range, VarKind};
use crate::evaluation::{clamps, nonnegative, number_at};
use crate::guards::{
    count_yes, entails, excludes, lemma_checks_counted, lemma_guard_depends,
    lemma_guards_decide, lemma_guards_exclusive, none_missed,
};
use crate::naming::{distinct, lemma_template_names_distinct};
use crate::pieces::{assembled, lemma_assembled_queries, pair, Shape};
use crate::polynomial::{typed, typed_names, Coefficients};
use crate::polynomial_laws::{lemma_declaring_at, lemma_names_count, monomial_count};
use crate::regions::{
    count_holding, in_range, lemma_and_holds, lemma_one_split, lemma_split_count,
    lemma_split_width, region_splits,
};
use crate::semantics::{holds, meaning, value, Valuation, Value};
use crate::solver::{asked, SatOracle};
use crate::substitution::resolved;
use crate::subterms::is_subterm;
use crate::template::{
    declared_vars, is_built, is_template_for, numeric_params, param_names, ranged_params,
    template_conditions, template_guards, template_pieces, template_shape, template_splits,
    SynthOptions, Template,
};
use crate::template_value::{lemma_template_value, point};
use crate::text::decimal;

verus! {

/// What a template is laid out over: the conditions that its guards decide, the guards,
/// the splits, and the terms that were checked.
pub struct Layout {
    pub conds: Seq<Term>,
    pub guards: Seq<Term>,
    pub splits: Seq<Term>,
    pub queries: Seq<Term>,
}

/// The parameters as variables.
pub open spec fn formals(inputs: Seq<Param>, ctx: Map<Seq<char>, DeclModel>) -> Seq<Term> {
    Seq::new(
        inputs.len(),
        |i: int|
            Term {
                op: Op::Var(inputs[i].name@),
                kids: seq![],
                ty: Some(ctx[inputs[i].name@]->ty),
            },
    )
}

/// Whether `x` is a condition that stands anywhere in `vc`, and whose free variables are
/// all given at some call of the function, in terms of the parameters of the first such
/// call.
pub open spec fn is_relevant(x: Term, vc: Term, maps: Seq<Entries>) -> bool {
    exists|s: Term, k: int|
        #![trigger is_subterm(s, vc), first_to_cover(maps, s.kids[0], k)]
        is_subterm(s, vc) && has_condition(s) && first_to_cover(maps, s.kids[0], k) && x
            == resolved(s.kids[0], maps[k])
}

/// Whether the conditions are the relevant ones, all of them, where there are splits;
/// without any, the one condition that always holds stands in their place.
pub open spec fn conditions_fit(
    l: Layout,
    synth: Seq<char>,
    inputs: Seq<Param>,
    vc: Term,
    split_count: nat,
    ctx: Map<Seq<char>, DeclModel>,
) -> bool {
    let maps = call_maps(vc, synth, formals(inputs, ctx));
    &&& l.conds.len() > 0
    &&& forall|x: Term|
        split_count >= 1 && #[trigger] is_relevant(x, vc, maps) ==> l.conds.contains(x)
    &&& forall|x: Term| #[trigger]
        l.conds.contains(x) ==> (split_count >= 1 && is_relevant(x, vc, maps)) || (x == Term {
            op: Op::Bool(true),
            kids: seq![],
            ty: Some(TyKind::Bool),
        } && l.conds.len() == 1)
}

/// Whether the guards tell apart exactly what the conditions tell apart.
pub open spec fn guards_fit(l: Layout) -> bool {
    &&& forall|i: int, k: int|
        0 <= i < l.guards.len() && 0 <= k < l.conds.len() ==> entails(
            #[trigger] l.guards[i],
            #[trigger] l.conds[k],
        ) || excludes(l.guards[i], l.conds[k])
    &&& forall|env: Valuation| #[trigger] count_holding(l.guards, env) <= 1
    &&& forall|i: int, a: Valuation, b: Valuation|
        0 <= i < l.guards.len() && (forall|k: int|
            0 <= k < l.conds.len() ==> holds(#[trigger] l.conds[k], a) == holds(l.conds[k], b))
            ==> #[trigger] holds(l.guards[i], a) == #[trigger] holds(l.guards[i], b)
}

/// Whether the parameter is a number with a range.
pub open spec fn has_range(p: Param) -> bool {
    p.ty != TyKind::Bool && p.range is Some
}

/// Whether each ranged parameter has a value in its range.
pub open spec fn all_in_range(inputs: Seq<Param>, env: Valuation) -> bool {
    forall|i: int|
        0 <= i < inputs.len() && has_range(#[trigger] inputs[i]) ==> {
            let range = inputs[i].range->0;
            (env.vars)(inputs[i].name@) matches Value::Number(v) && range.lower as real <= v && v
                <= range.upper as real
        }
}

/// Whether the splits cut the range of each ranged parameter into `split_count` intervals
/// and its lower end: there are that many, one holds at each point, and each fixes a
/// parameter up to the width of an interval.
pub open spec fn splits_fit(l: Layout, inputs: Seq<Param>, split_count: nat) -> bool {
    let ranged = inputs.filter(|p: Param| has_range(p));
    &&& split_count == 0 ==> l.splits.len() == 1
    &&& split_count > 0 ==> l.splits.len() == pow(split_count + 1int, ranged.len())
    &&& forall|env: Valuation| #[trigger]
        all_in_range(inputs, env) ==> count_holding(l.splits, env) == 1
    &&& forall|s: int, i: int, a: Valuation, b: Valuation|
        0 <= s < l.splits.len() && 0 <= i < inputs.len() && has_range(#[trigger] inputs[i])
            && split_count > 0 && all_in_range(inputs, a) && all_in_range(inputs, b)
            && #[trigger] holds(l.splits[s], a) && #[trigger] holds(l.splits[s], b) ==> (number_at(
            a,
            inputs[i].name@,
        ) - number_at(b, inputs[i].name@)) * (split_count as real)
            <= inputs[i].range->0.upper as real - inputs[i].range->0.lower as real
}

/// The type of a function: that of its declaration, or the widest.
pub open spec fn function_type(ctx: Map<Seq<char>, DeclModel>, synth: Seq<char>) -> TyKind {
    if ctx.dom().contains(synth) {
        match ctx[synth] {
            DeclModel::Func { output } => output,
            _ => TyKind::EUReal,
        }
    } else {
        TyKind::EUReal
    }
}

/// The type of coefficients: that of the function where they are to be unsigned, else the
/// signed integers for a function into the natural numbers, and the reals for others.
pub open spec fn signed_type(options: SynthOptions, output: TyKind) -> TyKind {
    match (options.unsigned_coefficients, output) {
        (true, _) => output,
        (false, TyKind::UInt) => TyKind::Int,
        (false, _) => TyKind::Real,
    }
}

/// The highest degree: the one given, or 1.
pub open spec fn degree_of(options: SynthOptions) -> nat {
    match options.max_degree {
        Some(d) => d as nat,
        None => 1,
    }
}

/// The coefficients for the guard `i` and the split `s`.
pub open spec fn coefficients_for(
    options: SynthOptions,
    synth: Seq<char>,
    split_count: nat,
    ctx: Map<Seq<char>, DeclModel>,
    i: nat,
    s: nat,
) -> Coefficients {
    Coefficients {
        synth,
        addon: decimal(i) + "_"@ + decimal(s),
        suffix: split_count + 1,
        ty: signed_type(options, function_type(ctx, synth)),
    }
}

/// The names of the parameters that polynomials are over.
pub open spec fn numbers_of(inputs: Seq<Param>) -> Seq<Seq<char>> {
    inputs.filter(|p: Param| p.ty != TyKind::Bool).map_values(|p: Param| p.name@)
}

/// Whether the template stands, at each point at which no term that holds was answered with
/// no, for the polynomial of the one guard and split that hold there, cut off at zero.
pub open spec fn value_fits(
    l: Layout,
    t: Term,
    options: SynthOptions,
    synth: Seq<char>,
    inputs: Seq<Param>,
    split_count: nat,
    ctx: Map<Seq<char>, DeclModel>,
    answers: Seq<bool>,
    at: nat,
) -> bool {
    forall|env: Valuation| #[trigger]
        clamps(env) && all_in_range(inputs, env) && none_missed(l.queries, answers, at, env)
            ==> exists|i: nat, s: nat|
            i < l.guards.len() && s < l.splits.len() && holds(l.guards[i as int], env) && holds(
                l.splits[s as int],
                env,
            ) && value(t, env) == nonnegative(
                #[trigger] coefficients_for(
                    options,
                    synth,
                    split_count,
                    ctx,
                    i,
                    s,
                ).polynomial_value(point(numbers_of(inputs), env), degree_of(options), env),
            )
}

/// The term that was checked for the guard `i` and the split `s`: the last of them come
/// guard by guard.
pub open spec fn pair_query(l: Layout, i: int, s: int) -> Term {
    let (g, m) = (l.guards.len() as int, l.splits.len() as int);
    l.queries[l.queries.len() - g * m + i * m + s]
}

/// Whether the terms that were checked end with each guard and each split together, guard
/// by guard.
pub open spec fn queries_fit(l: Layout) -> bool {
    let (g, m) = (l.guards.len() as int, l.splits.len() as int);
    &&& l.queries.len() >= g * m
    &&& forall|i: int, s: int, env: Valuation|
        0 <= i < g && 0 <= s < m ==> #[trigger] holds(pair_query(l, i, s), env) == (holds(
            l.guards[i],
            env,
        ) && holds(l.splits[s], env))
}

/// Whether the counts are right: of pairs, of guards and splits; of checks, each pair and
/// each conjunction before that was answered with yes.
pub open spec fn counts_fit(
    l: Layout,
    pairs: nat,
    checks: nat,
    answers: Seq<bool>,
    at: nat,
) -> bool {
    &&& pairs == l.guards.len() * l.splits.len()
    &&& checks == pairs + count_yes(answers, at, (l.queries.len() - pairs) as nat)
}

/// Whether `x` is the name of a coefficient for a guard and a split that together were
/// answered with yes.
pub open spec fn is_pair_name(
    l: Layout,
    options: SynthOptions,
    synth: Seq<char>,
    inputs: Seq<Param>,
    split_count: nat,
    ctx: Map<Seq<char>, DeclModel>,
    answers: Seq<bool>,
    at: nat,
    x: Seq<char>,
) -> bool {
    let (g, m) = (l.guards.len(), l.splits.len());
    exists|i: nat, s: nat|
        i < g && s < m && answers[at + l.queries.len() - g * m + i * m + s]
            && #[trigger] coefficients_for(options, synth, split_count, ctx, i, s).names(
            numbers_of(inputs).len() as int,
            degree_of(options),
        ).contains(x)
}

/// Whether the coefficients are those of the pairs that were answered with yes, of the
/// right type, all different, and declared, and nothing else is declared anew.
pub open spec fn coefficients_fit(
    l: Layout,
    vars: Seq<(Seq<char>, TyKind)>,
    options: SynthOptions,
    synth: Seq<char>,
    inputs: Seq<Param>,
    split_count: nat,
    ctx: Map<Seq<char>, DeclModel>,
    ctx2: Map<Seq<char>, DeclModel>,
    answers: Seq<bool>,
    at: nat,
) -> bool {
    let ty = signed_type(options, function_type(ctx, synth));
    let n = numbers_of(inputs).len();
    let pairs = l.guards.len() * l.splits.len();
    &&& distinct(vars)
    &&& vars.len() == count_yes(answers, (at + l.queries.len() - pairs) as nat, pairs) * (
    monomial_count(n as int, degree_of(options)) + 1)
    &&& forall|v: int| 0 <= v < vars.len() ==> (#[trigger] vars[v]).1 == ty
    &&& forall|v: int|
        0 <= v < vars.len() ==> is_pair_name(
            l,
            options,
            synth,
            inputs,
            split_count,
            ctx,
            answers,
            at,
            (#[trigger] vars[v]).0,
        )
    &&& forall|v: int|
        0 <= v < vars.len() ==> ctx2.dom().contains((#[trigger] vars[v]).0) && ctx2[vars[v].0] == (
        DeclModel::Var { ty, kind: VarKind::Input, range: None })
    &&& forall|x: Seq<char>|
        (forall|v: int| 0 <= v < vars.len() ==> (#[trigger] vars[v]).0 != x) ==> (
        #[trigger] ctx2.dom().contains(x)) == ctx.dom().contains(x) && ctx2[x] == ctx[x]
}

proof fn lemma_numeric_filter(inputs: Seq<Param>)
    ensures
        numeric_params(inputs) == inputs.filter(|p: Param| p.ty != TyKind::Bool),
        param_names(numeric_params(inputs)) == numbers_of(inputs),
    decreases inputs.len(),
{
    reveal(Seq::filter);
    if inputs.len() > 0 {
        lemma_numeric_filter(inputs.drop_last());
    }
    assert(param_names(numeric_params(inputs)) =~= numbers_of(inputs));
}

/// Whether `v` is the parameter `p` with its range.
spec fn is_ranged(v: (Term, Range), p: Param) -> bool {
    has_range(p) && v.0.op == Op::Var(p.name@) && v.1 == p.range->0
}

proof fn lemma_ranged(ctx: Map<Seq<char>, DeclModel>, inputs: Seq<Param>)
    ensures
        ({
            let vars = ranged_params(ctx, numeric_params(inputs));
            &&& vars.len() == inputs.filter(|p: Param| has_range(p)).len()
            &&& forall|k: int|
                0 <= k < vars.len() ==> exists|i: int|
                    0 <= i < inputs.len() && is_ranged(#[trigger] vars[k], #[trigger] inputs[i])
            &&& forall|i: int|
                0 <= i < inputs.len() && has_range(#[trigger] inputs[i]) ==> exists|k: int|
                    0 <= k < vars.len() && is_ranged(#[trigger] vars[k], inputs[i])
        }),
    decreases inputs.len(),
{
    reveal(Seq::filter);
    let vars = ranged_params(ctx, numeric_params(inputs));
    if inputs.len() > 0 {
        let front = inputs.drop_last();
        let p = inputs.last();
        let before = ranged_params(ctx, numeric_params(front));
        let n = inputs.len() - 1;
        lemma_ranged(ctx, front);
        if p.ty != TyKind::Bool {
            assert(numeric_params(front).push(p).drop_last() =~= numeric_params(front));
        }
        assert forall|k: int| 0 <= k < vars.len() implies exists|i: int|
            0 <= i < inputs.len() && is_ranged(#[trigger] vars[k], #[trigger] inputs[i]) by {
            if k < before.len() {
                assert(vars[k] == before[k]);
                let i = choose|i: int|
                    0 <= i < front.len() && is_ranged(before[k], #[trigger] front[i]);
                assert(is_ranged(vars[k], inputs[i]));
            } else {
                assert(is_ranged(vars[k], inputs[n]));
            }
        }
        assert forall|i: int| 0 <= i < inputs.len() && has_range(
            #[trigger] inputs[i],
        ) implies exists|k: int|
            0 <= k < vars.len() && is_ranged(#[trigger] vars[k], inputs[i]) by {
            if i < n {
                assert(front[i] == inputs[i]);
                let k = choose|k: int|
                    0 <= k < before.len() && is_ranged(#[trigger] before[k], front[i]);
                assert(vars[k] == before[k]);
            } else {
                assert(is_ranged(vars[before.len() as int], inputs[i]));
            }
        }
    }
}

proof fn lemma_ranged_in_range(
    ctx: Map<Seq<char>, DeclModel>,
    inputs: Seq<Param>,
    env: Valuation,
)
    requires
        all_in_range(inputs, env),
    ensures
        ({
            let vars = ranged_params(ctx, numeric_params(inputs));
            forall|k: int|
                0 <= k < vars.len() ==> in_range((#[trigger] vars[k]).0, vars[k].1, env)
        }),
{
    let vars = ranged_params(ctx, numeric_params(inputs));
    lemma_ranged(ctx, inputs);
    assert forall|k: int| 0 <= k < vars.len() implies in_range(
        (#[trigger] vars[k]).0,
        vars[k].1,
        env,
    ) by {
        let i = choose|i: int| 0 <= i < inputs.len() && is_ranged(vars[k], #[trigger] inputs[i]);
        assert(has_range(inputs[i]));
        assert(meaning(vars[k].0, env) == (env.vars)(inputs[i].name@));
    }
}

proof fn lemma_splits_fit(
    l: Layout,
    inputs: Seq<Param>,
    split_count: nat,
    ctx: Map<Seq<char>, DeclModel>,
)
    requires
        l.splits == region_splits(ranged_params(ctx, numeric_params(inputs)), split_count),
    ensures
        splits_fit(l, inputs, split_count),
{
    let vars = ranged_params(ctx, numeric_params(inputs));
    lemma_ranged(ctx, inputs);
    lemma_split_count(vars, split_count);
    assert forall|env: Valuation| #[trigger] all_in_range(inputs, env) implies count_holding(
        l.splits,
        env,
    ) == 1 by {
        lemma_ranged_in_range(ctx, inputs, env);
        lemma_one_split(vars, split_count, env);
    }
    assert forall|s: int, i: int, a: Valuation, b: Valuation|
        0 <= s < l.splits.len() && 0 <= i < inputs.len() && has_range(#[trigger] inputs[i])
            && split_count > 0 && all_in_range(inputs, a) && all_in_range(inputs, b)
            && #[trigger] holds(l.splits[s], a) && #[trigger] holds(l.splits[s], b) implies (
    number_at(a, inputs[i].name@) - number_at(b, inputs[i].name@)) * (split_count as real)
        <= inputs[i].range->0.upper as real - inputs[i].range->0.lower as real by {
        let k = choose|k: int| 0 <= k < vars.len() && is_ranged(#[trigger] vars[k], inputs[i]);
        assert(meaning(vars[k].0, a) == (a.vars)(inputs[i].name@));
        assert(meaning(vars[k].0, b) == (b.vars)(inputs[i].name@));
        lemma_split_width(vars, split_count, s, k, a, b);
    }
}

proof fn lemma_guards_fit(l: Layout, answers: Seq<bool>, at: nat)
    requires
        l.guards == template_guards(l.conds, answers, at).guards,
    ensures
        guards_fit(l),
{
    let yes = Term::boolean(true);
    assert forall|i: int, k: int| 0 <= i < l.guards.len() && 0 <= k < l.conds.len() implies entails(
        #[trigger] l.guards[i],
        #[trigger] l.conds[k],
    ) || excludes(l.guards[i], l.conds[k]) by {
        lemma_guards_decide(l.conds, yes, answers, at, i, k);
    }
    assert forall|env: Valuation| #[trigger] count_holding(l.guards, env) <= 1 by {
        lemma_guards_exclusive(l.conds, yes, answers, at, env);
    }
    assert forall|i: int, a: Valuation, b: Valuation|
        0 <= i < l.guards.len() && (forall|k: int|
            0 <= k < l.conds.len() ==> holds(#[trigger] l.conds[k], a) == holds(
                l.conds[k],
                b,
            )) implies #[trigger] holds(l.guards[i], a) == #[trigger] holds(l.guards[i], b) by {
        assert(holds(yes, a) && holds(yes, b));
        lemma_guard_depends(l.conds, yes, answers, at, i, a, b);
    }
}

proof fn lemma_explained_relevant(vc: Term, found: Seq<Term>, maps: Seq<Entries>, x: Term)
    requires
        are_conditions(vc, found),
    ensures
        explained(found, maps).contains(x) <==> is_relevant(x, vc, maps),
{
    if is_relevant(x, vc, maps) {
        let (s, k) = choose|s: Term, k: int|
            #![trigger is_subterm(s, vc), first_to_cover(maps, s.kids[0], k)]
            is_subterm(s, vc) && has_condition(s) && first_to_cover(maps, s.kids[0], k) && x
                == resolved(s.kids[0], maps[k]);
        lemma_relevant_condition(vc, found, maps, s, k);
    }
    if explained(found, maps).contains(x) {
        let c = lemma_explained_source(found, maps, x);
        lemma_explanation_first(maps, c);
        let m = explanation(maps, c)->0;
        let k = choose|k: int| #[trigger] first_to_cover(maps, c, k) && m == maps[k];
        lemma_condition_from_subterm(vc, found, c);
        let s = choose|s: Term| #[trigger]
            is_subterm(s, vc) && (s.op == Op::Ite || s.op == Op::Unary(
                crate::ast::UnOpKind::Iverson,
            )) && c == s.kids[0];
        assert(first_to_cover(maps, s.kids[0], k));
    }
}

proof fn lemma_explained_source(conds: Seq<Term>, maps: Seq<Entries>, x: Term) -> (c: Term)
    requires
        explained(conds, maps).contains(x),
    ensures
        conds.contains(c),
        explanation(maps, c) matches Some(m) && x == resolved(c, m),
    decreases conds.len(),
{
    let all = explained(conds, maps);
    let i = choose|i: int| 0 <= i < all.len() && all[i] == x;
    let front = conds.drop_last();
    let before = explained(front, maps);
    if i < before.len() {
        assert(before[i] == x);
        let c = lemma_explained_source(front, maps, x);
        let k = choose|k: int| 0 <= k < front.len() && front[k] == c;
        assert(conds[k] == c);
        c
    } else {
        assert(conds[conds.len() - 1] == conds.last());
        conds.last()
    }
}

proof fn lemma_conditions_fit(
    l: Layout,
    found: Seq<Term>,
    synth: Seq<char>,
    inputs: Seq<Param>,
    vc: Term,
    split_count: nat,
    ctx: Map<Seq<char>, DeclModel>,
)
    requires
        are_conditions(vc, found),
        l.conds == template_conditions(found, synth, inputs, vc, split_count, ctx),
    ensures
        conditions_fit(l, synth, inputs, vc, split_count, ctx),
{
    let maps = call_maps(vc, synth, formals(inputs, ctx));
    assert(declared_vars(ctx, param_names(inputs)) =~= formals(inputs, ctx));
    let own = explained(found, maps);
    assert forall|x: Term| split_count >= 1 && #[trigger] is_relevant(
        x,
        vc,
        maps,
    ) implies l.conds.contains(x) by {
        lemma_explained_relevant(vc, found, maps, x);
        assert(own.contains(x));
    }
    assert forall|x: Term| #[trigger] l.conds.contains(x) implies (split_count >= 1 && is_relevant(
        x,
        vc,
        maps,
    )) || (x == Term { op: Op::Bool(true), kids: seq![], ty: Some(TyKind::Bool) } && l.conds.len()
        == 1) by {
        if split_count >= 1 && own.len() > 0 {
            lemma_explained_relevant(vc, found, maps, x);
        } else {
            assert(l.conds =~= seq![Term::boolean(true)]);
        }
    }
}

/// There is a piece for each pair that was answered with yes, with as many coefficients as
/// there are monomials, and one more.
pub proof fn lemma_pieces_counted(
    shape: Shape,
    guards: Seq<Term>,
    splits: Seq<Term>,
    answers: Seq<bool>,
    at: nat,
    ctx: Map<Seq<char>, DeclModel>,
    k: nat,
)
    ensures
        ({
            let a = assembled(shape, guards, splits, answers, at, ctx, k);
            &&& a.pieces.len() == count_yes(answers, at, k)
            &&& a.names.len() == count_yes(answers, at, k) * (monomial_count(
                shape.params.len() as int,
                shape.max_degree,
            ) + 1)
        }),
    decreases k,
{
    let per = (monomial_count(shape.params.len() as int, shape.max_degree) + 1) as int;
    if k > 0 {
        let j = (k - 1) as nat;
        let c = count_yes(answers, at, j) as int;
        lemma_pieces_counted(shape, guards, splits, answers, at, ctx, j);
        lemma_names_count(
            shape.coefficients(j / splits.len(), j % splits.len()),
            shape.params.len() as int,
            shape.max_degree,
        );
        assert((c + 1) * per == c * per + per) by (nonlinear_arith);
    } else {
        assert(0 * per == 0);
    }
}

proof fn lemma_piece_of_name(
    shape: Shape,
    guards: Seq<Term>,
    splits: Seq<Term>,
    answers: Seq<bool>,
    at: nat,
    ctx: Map<Seq<char>, DeclModel>,
    k: nat,
    v: int,
) -> (j: nat)
    requires
        0 <= v < assembled(shape, guards, splits, answers, at, ctx, k).names.len(),
    ensures
        j < k,
        answers[(at + j) as int],
        shape.piece_names(j / splits.len(), j % splits.len()).contains(
            assembled(shape, guards, splits, answers, at, ctx, k).names[v],
        ),
    decreases k,
{
    let names = assembled(shape, guards, splits, answers, at, ctx, k).names;
    let l = (k - 1) as nat;
    let before = assembled(shape, guards, splits, answers, at, ctx, l).names;
    if v < before.len() {
        assert(names[v] == before[v]);
        lemma_piece_of_name(shape, guards, splits, answers, at, ctx, l, v)
    } else {
        let own = shape.piece_names(l / splits.len(), l % splits.len());
        assert(names[v] == own[v - before.len()]);
        l
    }
}

proof fn lemma_index(k: nat, g: nat, m: nat)
    requires
        k < g * m,
    ensures
        m > 0,
        k / m < g,
        k % m < m,
{
    assert(m > 0) by (nonlinear_arith)
        requires
            k < g * m,
    ;
    lemma_fundamental_div_mod(k as int, m as int);
    let q = k as int / m as int;
    assert(q < g) by (nonlinear_arith)
        requires
            k < g * m,
            k == m * q + k as int % m as int,
            k as int % m as int >= 0,
            m > 0,
    ;
}

proof fn lemma_shape(
    options: SynthOptions,
    synth: Seq<char>,
    inputs: Seq<Param>,
    ctx: Map<Seq<char>, DeclModel>,
    split_count: nat,
    i: nat,
    s: nat,
)
    ensures
        ({
            let shape = template_shape(options, synth, inputs, ctx, split_count);
            &&& shape.coefficients(i, s) == coefficients_for(
                options,
                synth,
                split_count,
                ctx,
                i,
                s,
            )
            &&& shape.ty == signed_type(options, function_type(ctx, synth))
            &&& shape.max_degree == degree_of(options)
            &&& shape.params == numbers_of(inputs)
        }),
{
    lemma_numeric_filter(inputs);
}

/// What was found out about the layout and the counts of a template, or of one that could
/// not be built.
pub open spec fn layout_fits(
    l: Layout,
    synth: Seq<char>,
    inputs: Seq<Param>,
    vc: Term,
    split_count: nat,
    ctx: Map<Seq<char>, DeclModel>,
    before: SatOracle,
    after: SatOracle,
) -> bool {
    &&& conditions_fit(l, synth, inputs, vc, split_count, ctx)
    &&& guards_fit(l)
    &&& splits_fit(l, inputs, split_count)
    &&& queries_fit(l)
    &&& asked(before, after, l.queries)
}

/// Whether `t` is a template over the layout.
pub open spec fn template_fits(
    l: Layout,
    t: Template,
    options: SynthOptions,
    synth: Seq<char>,
    inputs: Seq<Param>,
    split_count: nat,
    ctx: Map<Seq<char>, DeclModel>,
    ctx2: Map<Seq<char>, DeclModel>,
    answers: Seq<bool>,
    at: nat,
) -> bool {
    &&& value_fits(l, t.0@, options, synth, inputs, split_count, ctx, answers, at)
    &&& counts_fit(l, t.2 as nat, t.3 as nat, answers, at)
    &&& coefficients_fit(
        l,
        typed_names(t.1@),
        options,
        synth,
        inputs,
        split_count,
        ctx,
        ctx2,
        answers,
        at,
    )
}

proof fn lemma_queries_fit(
    l: Layout,
    shape: Shape,
    e_queries: Seq<Term>,
    answers: Seq<bool>,
    at: nat,
    ctx: Map<Seq<char>, DeclModel>,
)
    requires
        l.queries == e_queries + assembled(
            shape,
            l.guards,
            l.splits,
            answers,
            at,
            ctx,
            l.guards.len() * l.splits.len(),
        ).queries,
    ensures
        queries_fit(l),
        l.queries.len() == e_queries.len() + l.guards.len() * l.splits.len(),
{
    let (g, m) = (l.guards.len() as int, l.splits.len() as int);
    let n = l.guards.len() * l.splits.len();
    lemma_assembled_queries(shape, l.guards, l.splits, answers, at, ctx, n);
    assert forall|i: int, s: int, env: Valuation| 0 <= i < g && 0 <= s < m implies #[trigger] holds(
        pair_query(l, i, s),
        env,
    ) == (holds(l.guards[i], env) && holds(l.splits[s], env)) by {
        assert(0 <= i * m + s < n) by (nonlinear_arith)
            requires
                0 <= i < g,
                0 <= s < m,
                n == g * m,
        ;
        lemma_fundamental_div_mod_converse(i * m + s, m, i, s);
        let k = (i * m + s) as nat;
        assert(pair_query(l, i, s) == pair(l.guards, l.splits, k));
        lemma_and_holds(l.guards[i], l.splits[s], env);
    }
}

/// A template that is built for a function in a verification condition has a layout as it
/// should be, and is a template over it.
pub proof fn lemma_template_laid_out(
    t: Template,
    options: SynthOptions,
    synth: Seq<char>,
    inputs: Seq<Param>,
    vc: Term,
    split_count: nat,
    ctx: Map<Seq<char>, DeclModel>,
    before: SatOracle,
    ctx2: Map<Seq<char>, DeclModel>,
    after: SatOracle,
) -> (l: Layout)
    requires
        is_template_for(
            Some(t),
            options,
            synth,
            inputs,
            vc,
            split_count,
            ctx,
            before,
            ctx2,
            after,
        ),
    ensures
        layout_fits(l, synth, inputs, vc, split_count, ctx, before, after),
        template_fits(
            l,
            t,
            options,
            synth,
            inputs,
            split_count,
            ctx,
            ctx2,
            after.answers(),
            before.taken(),
        ),
{
    let l = lemma_layout(
        Some(t),
        options,
        synth,
        inputs,
        vc,
        split_count,
        ctx,
        before,
        ctx2,
        after,
    );
    let shape = template_shape(options, synth, inputs, ctx, split_count);
    let vars = ranged_params(ctx, numeric_params(inputs));
    let (answers, at) = (after.answers(), before.taken());
    let e = template_guards(l.conds, answers, at);
    let a = template_pieces(shape, l.conds, l.splits, answers, at, ctx);
    let m = l.splits.len();
    let pairs = l.guards.len() * m;
    lemma_shape(options, synth, inputs, ctx, split_count, 0, 0);
    lemma_checks_counted(l.conds, Term::boolean(true), answers, at);
    assert forall|env: Valuation| #[trigger]
        clamps(env) && all_in_range(inputs, env) && none_missed(
            l.queries,
            answers,
            at,
            env,
        ) implies exists|i: nat, s: nat|
        i < l.guards.len() && s < l.splits.len() && holds(l.guards[i as int], env) && holds(
            l.splits[s as int],
            env,
        ) && value(t.0@, env) == nonnegative(
            #[trigger] coefficients_for(options, synth, split_count, ctx, i, s).polynomial_value(
                point(numbers_of(inputs), env),
                degree_of(options),
                env,
            ),
        ) by {
        lemma_ranged_in_range(ctx, inputs, env);
        lemma_template_value(shape, l.conds, vars, split_count, answers, at, ctx, env);
        let j = choose|j: nat|
            {
                &&& j < l.guards.len() * l.splits.len()
                &&& holds(#[trigger] pair(l.guards, l.splits, j), env)
                &&& a.pieces.len() > 0
                &&& value(t.0@, env) == shape.piece_value(l.splits.len(), j, env)
            };
        lemma_index(j, l.guards.len(), m);
        lemma_and_holds(l.guards[(j / m) as int], l.splits[(j % m) as int], env);
        lemma_shape(options, synth, inputs, ctx, split_count, j / m, j % m);
        let c = coefficients_for(options, synth, split_count, ctx, j / m, j % m);
        assert(value(t.0@, env) == nonnegative(
            c.polynomial_value(point(numbers_of(inputs), env), degree_of(options), env),
        ));
    }
    let named = typed_names(t.1@);
    let next = at + e.queries.len();
    assert(named == typed(a.names, shape.ty));
    lemma_pieces_counted(shape, l.guards, l.splits, answers, next, ctx, pairs);
    lemma_template_names_distinct(shape, l.guards, l.splits, answers, next, ctx);
    assert forall|v: int, w: int| 0 <= v < w < named.len() implies (#[trigger] named[v]).0 != (
    #[trigger] named[w]).0 by {
        assert(named[v].0 == a.names[v] && named[w].0 == a.names[w]);
    }
    assert forall|v: int| 0 <= v < named.len() implies is_pair_name(
        l,
        options,
        synth,
        inputs,
        split_count,
        ctx,
        answers,
        at,
        (#[trigger] named[v]).0,
    ) by {
        assert(named[v].0 == a.names[v]);
        let j = lemma_piece_of_name(shape, l.guards, l.splits, answers, next, ctx, pairs, v);
        lemma_index(j, l.guards.len(), m);
        lemma_shape(options, synth, inputs, ctx, split_count, j / m, j % m);
        let c = coefficients_for(options, synth, split_count, ctx, j / m, j % m);
        lemma_fundamental_div_mod(j as int, m as int);
        assert((j / m) * m == m * (j / m)) by (nonlinear_arith);
        assert(next + j == at + l.queries.len() - pairs + (j / m) * m + j % m);
        assert(c.names(numbers_of(inputs).len() as int, degree_of(options)).contains(named[v].0));
    }
    assert forall|v: int| 0 <= v < named.len() implies ctx2.dom().contains(
        (#[trigger] named[v]).0,
    ) && ctx2[named[v].0] == (DeclModel::Var {
        ty: shape.ty,
        kind: VarKind::Input,
        range: None,
    }) by {
        assert(a.names[v] == named[v].0);
        assert(a.names.contains(named[v].0));
        lemma_declaring_at(ctx, a.names, shape.ty, named[v].0);
    }
    assert forall|x: Seq<char>|
        (forall|v: int| 0 <= v < named.len() ==> (#[trigger] named[v]).0 != x) implies (
    #[trigger] ctx2.dom().contains(x)) == ctx.dom().contains(x) && ctx2[x] == ctx[x] by {
        if a.names.contains(x) {
            let v = choose|v: int| 0 <= v < a.names.len() && a.names[v] == x;
            assert(named[v].0 == x);
        }
        lemma_declaring_at(ctx, a.names, shape.ty, x);
    }
    assert(value_fits(l, t.0@, options, synth, inputs, split_count, ctx, answers, at));
    assert(counts_fit(l, t.2 as nat, t.3 as nat, answers, at));
    assert(coefficients_fit(
        l,
        named,
        options,
        synth,
        inputs,
        split_count,
        ctx,
        ctx2,
        answers,
        at,
    ));
    l
}

/// Where no template is built, each guard and each split together were answered with no.
pub proof fn lemma_no_template_laid_out(
    options: SynthOptions,
    synth: Seq<char>,
    inputs: Seq<Param>,
    vc: Term,
    split_count: nat,
    ctx: Map<Seq<char>, DeclModel>,
    before: SatOracle,
    ctx2: Map<Seq<char>, DeclModel>,
    after: SatOracle,
) -> (l: Layout)
    requires
        is_template_for(
            None,
            options,
            synth,
            inputs,
            vc,
            split_count,
            ctx,
            before,
            ctx2,
            after,
        ),
    ensures
        layout_fits(l, synth, inputs, vc, split_count, ctx, before, after),
        ({
            let pairs = l.guards.len() * l.splits.len();
            count_yes(
                after.answers(),
                (before.taken() + l.queries.len() - pairs) as nat,
                pairs,
            ) == 0
        }),
        ctx2 == ctx,
{
    let l = lemma_layout(
        None,
        options,
        synth,
        inputs,
        vc,
        split_count,
        ctx,
        before,
        ctx2,
        after,
    );
    let shape = template_shape(options, synth, inputs, ctx, split_count);
    let (answers, at) = (after.answers(), before.taken());
    let e = template_guards(l.conds, answers, at);
    let a = template_pieces(shape, l.conds, l.splits, answers, at, ctx);
    let pairs = l.guards.len() * l.splits.len();
    lemma_pieces_counted(
        shape,
        l.guards,
        l.splits,
        answers,
        at + e.queries.len(),
        ctx,
        pairs,
    );
    let per = monomial_count(shape.params.len() as int, shape.max_degree) + 1;
    assert(0 * per == 0);
    assert(a.names =~= seq![]);
    l
}

proof fn lemma_layout(
    r: Option<Template>,
    options: SynthOptions,
    synth: Seq<char>,
    inputs: Seq<Param>,
    vc: Term,
    split_count: nat,
    ctx: Map<Seq<char>, DeclModel>,
    before: SatOracle,
    ctx2: Map<Seq<char>, DeclModel>,
    after: SatOracle,
) -> (l: Layout)
    requires
        is_template_for(
            r,
            options,
            synth,
            inputs,
            vc,
            split_count,
            ctx,
            before,
            ctx2,
            after,
        ),
    ensures
        layout_fits(l, synth, inputs, vc, split_count, ctx, before, after),
        ({
            let shape = template_shape(options, synth, inputs, ctx, split_count);
            let (answers, at) = (after.answers(), before.taken());
            let e = template_guards(l.conds, answers, at);
            let a = template_pieces(shape, l.conds, l.splits, answers, at, ctx);
            &&& is_built(r, shape, l.conds, l.splits, ctx, before, ctx2, after)
            &&& l.guards == e.guards
            &&& l.splits == region_splits(ranged_params(ctx, numeric_params(inputs)), split_count)
            &&& l.queries == e.queries + a.queries
            &&& l.queries.len() == e.queries.len() + l.guards.len() * l.splits.len()
        }),
{
    let shape = template_shape(options, synth, inputs, ctx, split_count);
    let splits = template_splits(inputs, split_count, ctx);
    let (answers, at) = (after.answers(), before.taken());
    let found = choose|found: Seq<Term>| #[trigger]
        are_conditions(vc, found) && is_built(
            r,
            shape,
            template_conditions(found, synth, inputs, vc, split_count, ctx),
            splits,
            ctx,
            before,
            ctx2,
            after,
        );
    let conds = template_conditions(found, synth, inputs, vc, split_count, ctx);
    let e = template_guards(conds, answers, at);
    let a = template_pieces(shape, conds, splits, answers, at, ctx);
    let l = Layout { conds, guards: e.guards, splits, queries: e.queries + a.queries };
    lemma_conditions_fit(l, found, synth, inputs, vc, split_count, ctx);
    lemma_guards_fit(l, answers, at);
    lemma_splits_fit(l, inputs, split_count, ctx);
    lemma_queries_fit(l, shape, e.queries, answers, at + e.queries.len(), ctx);
    l
}

/// From the first split on, every relevant condition of the verification condition is
/// decided by every guard of the template: the guard implies it or its negation.
pub proof fn lemma_template_decides(
    l: Layout,
    synth: Seq<char>,
    inputs: Seq<Param>,
    vc: Term,
    split_count: nat,
    ctx: Map<Seq<char>, DeclModel>,
    before: SatOracle,
    after: SatOracle,
    s: Term,
    k: int,
    i: int,
)
    requires
        layout_fits(l, synth, inputs, vc, split_count, ctx, before, after),
        split_count >= 1,
        is_subterm(s, vc),
        s.op == Op::Ite || s.op == Op::Unary(crate::ast::UnOpKind::Iverson),
        first_to_cover(call_maps(vc, synth, formals(inputs, ctx)), s.kids[0], k),
        0 <= i < l.guards.len(),
    ensures
        ({
            let c = resolved(s.kids[0], call_maps(vc, synth, formals(inputs, ctx))[k]);
            entails(l.guards[i], c) || excludes(l.guards[i], c)
        }),
{
    let maps = call_maps(vc, synth, formals(inputs, ctx));
    let c = resolved(s.kids[0], maps[k]);
    assert(has_condition(s));
    assert(is_relevant(c, vc, maps));
    assert(l.conds.contains(c));
    let j = choose|j: int| 0 <= j < l.conds.len() && l.conds[j] == c;
    assert(entails(l.guards[i], l.conds[j]) || excludes(l.guards[i], l.conds[j]));
}

} // verus!
