//! What templates stand for.

use vstd::arithmetic::div_mod::{lemma_fundamental_div_mod, lemma_fundamental_div_mod_converse};
use vstd::prelude::*;

use crate::ast::{BinOpKind, Op, Term, UnOpKind};
use crate::collections::{lemma_put_lookup, lookup, Entries};
use crate::decls::{DeclModel, Range};
use crate::evaluation::{
    clamps, lemma_as_type_meaning, lemma_binary_meaning, lemma_combination_value, lemma_sum_value,
    nonnegative, number_at, total, values,
};
use crate::guards::{lemma_guards_cover, none_missed};
use crate::pieces::{assembled, lemma_assembled_queries, pair, Shape};
use crate::polynomial::{clamp_type, declaring, sum, vars_as};
use crate::regions::{
    count_holding, in_range, lemma_and_holds, lemma_one_split, region_splits,
};
use crate::semantics::{holds, meaning, value, well_formed, Valuation};
use crate::solver::SatOracle;
use crate::substitution::{
    free_vars, lemma_resolved_meaning, resolved, resolved_below, without_substs,
};
use crate::subterms::is_subterm;
use crate::template::{
    is_built, lemma_own_entries_vars, own_entries, template_guards, template_pieces,
    with_own_vars, Template,
};

verus! {

/// The numbers that variables stand for.
pub open spec fn point(names: Seq<Seq<char>>, env: Valuation) -> Seq<real> {
    names.map_values(|n: Seq<char>| number_at(env, n))
}

impl Shape {
    /// The polynomial of the `k`th pair, cut off at zero, at the point that the
    /// parameters stand for.
    pub open spec fn piece_value(self, m: nat, k: nat, env: Valuation) -> real {
        nonnegative(
            self.coefficients(k / m, k % m).polynomial_value(
                point(self.params, env),
                self.max_degree,
                env,
            ),
        )
    }
}

/// Putting the variables back as they are declared does not change what a term
/// stands for.
pub proof fn lemma_own_vars_meaning(
    t: Term,
    params: Seq<Seq<char>>,
    ctx: Map<Seq<char>, DeclModel>,
    env: Valuation,
)
    ensures
        meaning(with_own_vars(t, params, ctx), env) == meaning(t, env),
{
    let m = own_entries(free_vars(t), params, ctx);
    lemma_resolved_meaning(t, m, env);
    let after = env.after(m);
    assert forall|x: Seq<char>| #[trigger] (after.vars)(x) == (env.vars)(x) by {
        lemma_own_entries_vars(free_vars(t), params, ctx, x);
    }
    assert(after =~= env);
}

/// What the parameters stand for does not depend on how they are declared.
proof fn lemma_vars_as_values(
    ctx: Map<Seq<char>, DeclModel>,
    shape: Shape,
    env: Valuation,
)
    ensures
        values(vars_as(ctx, shape.params, shape.ty), env) == point(shape.params, env),
{
    let vars = vars_as(ctx, shape.params, shape.ty);
    assert forall|i: int| 0 <= i < vars.len() implies #[trigger] value(vars[i], env) == number_at(
        env,
        shape.params[i],
    ) by {
        let name = shape.params[i];
        let var = Term::var(name, ctx[name]->ty);
        lemma_as_type_meaning(var, shape.ty, env);
        assert(meaning(var, env) == (env.vars)(name));
    }
    assert(values(vars, env) =~= point(shape.params, env));
}

/// A piece stands for its polynomial, cut off at zero, where its guard and split
/// hold, and for zero elsewhere.
proof fn lemma_piece_value(
    shape: Shape,
    i: nat,
    s: nat,
    both: Term,
    ctx: Map<Seq<char>, DeclModel>,
    env: Valuation,
)
    requires
        clamps(env),
    ensures
        value(shape.piece(i, s, both, ctx), env) == (if holds(both, env) {
            nonnegative(
                shape.coefficients(i, s).polynomial_value(
                    point(shape.params, env),
                    shape.max_degree,
                    env,
                ),
            )
        } else {
            0real
        }),
{
    let c = shape.coefficients(i, s);
    let vars = vars_as(ctx, shape.params, shape.ty);
    let comb = c.combination(vars, shape.max_degree, shape.output);
    let bracket = Term::unary(UnOpKind::Iverson, clamp_type(shape.ty), both);
    lemma_vars_as_values(ctx, shape, env);
    lemma_combination_value(c, vars, shape.max_degree, shape.output, env);
    lemma_binary_meaning(BinOpKind::Mul, clamp_type(shape.ty), bracket, comb, env);
    assert(bracket.kids[0] == both);
    let v = value(comb, env);
    assert(value(bracket, env) == (if holds(both, env) {
        1real
    } else {
        0real
    }));
    assert(1real * v == v && 0real * v == 0real) by (nonlinear_arith);
}

/// Where no pair but the `j`th holds, and that one was not answered with no, the
/// pieces of the first `k` pairs add up to the piece of the `j`th, if it is among
/// them, and to zero otherwise.
proof fn lemma_pieces_total(
    shape: Shape,
    guards: Seq<Term>,
    splits: Seq<Term>,
    answers: Seq<bool>,
    at: nat,
    ctx: Map<Seq<char>, DeclModel>,
    k: nat,
    j: nat,
    env: Valuation,
)
    requires
        clamps(env),
        j < k ==> holds(pair(guards, splits, j), env) && answers[(at + j) as int],
        forall|i: nat| i < k && i != j ==> !holds(#[trigger] pair(guards, splits, i), env),
    ensures
        total(values(assembled(shape, guards, splits, answers, at, ctx, k).pieces, env)) == (if j
            < k {
            shape.piece_value(splits.len(), j, env)
        } else {
            0real
        }),
    decreases k,
{
    let pieces = assembled(shape, guards, splits, answers, at, ctx, k).pieces;
    if k == 0 {
        assert(values(pieces, env) =~= seq![]);
    } else {
        let l = (k - 1) as nat;
        let before = assembled(shape, guards, splits, answers, at, ctx, l);
        lemma_pieces_total(shape, guards, splits, answers, at, ctx, l, j, env);
        if answers[(at + l) as int] {
            lemma_piece_value(
                shape,
                l / splits.len(),
                l % splits.len(),
                pair(guards, splits, l),
                declaring(ctx, before.names, shape.ty),
                env,
            );
            assert(values(pieces, env).drop_last() =~= values(before.pieces, env));
        }
    }
}

/// Where one term of a list holds, and only one does, it is told by its place.
proof fn lemma_count_unique(ts: Seq<Term>, i: int, j: int, env: Valuation)
    requires
        count_holding(ts, env) <= 1,
        0 <= i < ts.len(),
        0 <= j < ts.len(),
        holds(ts[i], env),
        holds(ts[j], env),
    ensures
        i == j,
    decreases ts.len(),
{
    let front = ts.drop_last();
    let n = ts.len() - 1;
    if i < n && j < n {
        lemma_count_unique(front, i, j, env);
    } else if i < n {
        lemma_count_positive(front, i, env);
    } else if j < n {
        lemma_count_positive(front, j, env);
    }
}

proof fn lemma_count_positive(ts: Seq<Term>, i: int, env: Valuation)
    requires
        0 <= i < ts.len(),
        holds(ts[i], env),
    ensures
        count_holding(ts, env) >= 1,
    decreases ts.len(),
{
    if i < ts.len() - 1 {
        lemma_count_positive(ts.drop_last(), i, env);
    }
}

/// Where the number of terms that hold is not zero, one of them holds.
proof fn lemma_count_exists(ts: Seq<Term>, env: Valuation) -> (i: int)
    requires
        count_holding(ts, env) >= 1,
    ensures
        0 <= i < ts.len(),
        holds(ts[i], env),
    decreases ts.len(),
{
    if holds(ts.last(), env) {
        ts.len() - 1
    } else {
        lemma_count_exists(ts.drop_last(), env)
    }
}

proof fn lemma_pair_bounds(guards: Seq<Term>, splits: Seq<Term>, k: nat)
    requires
        k < guards.len() * splits.len(),
    ensures
        splits.len() > 0,
        k / splits.len() < guards.len(),
        k % splits.len() < splits.len(),
        k == (k / splits.len()) * splits.len() + k % splits.len(),
{
    let (g, m) = (guards.len() as int, splits.len() as int);
    assert(m > 0) by (nonlinear_arith)
        requires
            k < g * m,
            m >= 0,
            k >= 0,
    ;
    lemma_fundamental_div_mod(k as int, m);
    let q = k as int / m;
    assert(q < g) by (nonlinear_arith)
        requires
            k < g * m,
            k == m * q + k as int % m,
            k as int % m >= 0,
            m > 0,
    ;
    assert(m * q == q * m) by (nonlinear_arith);
}

/// The sum of the pieces stands for the polynomial of the one pair of a guard and a
/// split that holds, cut off at zero.
pub proof fn lemma_piecewise_value(
    shape: Shape,
    guards: Seq<Term>,
    splits: Seq<Term>,
    answers: Seq<bool>,
    at: nat,
    ctx: Map<Seq<char>, DeclModel>,
    j: nat,
    env: Valuation,
)
    requires
        clamps(env),
        j < guards.len() * splits.len(),
        count_holding(guards, env) <= 1,
        count_holding(splits, env) <= 1,
        holds(pair(guards, splits, j), env),
        answers[(at + j) as int],
    ensures
        ({
            let pieces = assembled(
                shape,
                guards,
                splits,
                answers,
                at,
                ctx,
                guards.len() * splits.len(),
            ).pieces;
            &&& pieces.len() > 0
            &&& value(sum(clamp_type(shape.ty), pieces), env) == shape.piece_value(
                splits.len(),
                j,
                env,
            )
        }),
{
    let m = splits.len();
    let n = guards.len() * m;
    lemma_pair_bounds(guards, splits, j);
    lemma_and_holds(guards[(j / m) as int], splits[(j % m) as int], env);
    assert forall|i: nat| i < n && i != j implies !holds(
        #[trigger] pair(guards, splits, i),
        env,
    ) by {
        lemma_pair_bounds(guards, splits, i);
        lemma_and_holds(guards[(i / m) as int], splits[(i % m) as int], env);
        if holds(pair(guards, splits, i), env) {
            lemma_count_unique(guards, (i / m) as int, (j / m) as int, env);
            lemma_count_unique(splits, (i % m) as int, (j % m) as int, env);
        }
    }
    lemma_pieces_total(shape, guards, splits, answers, at, ctx, n, j, env);
    lemma_some_piece(shape, guards, splits, answers, at, ctx, n, j);
    let pieces = assembled(shape, guards, splits, answers, at, ctx, n).pieces;
    lemma_sum_value(clamp_type(shape.ty), pieces, env);
}

/// A pair that was answered with yes has a piece.
proof fn lemma_some_piece(
    shape: Shape,
    guards: Seq<Term>,
    splits: Seq<Term>,
    answers: Seq<bool>,
    at: nat,
    ctx: Map<Seq<char>, DeclModel>,
    k: nat,
    j: nat,
)
    requires
        j < k,
        answers[(at + j) as int],
    ensures
        assembled(shape, guards, splits, answers, at, ctx, k).pieces.len() > 0,
    decreases k,
{
    if j < k - 1 {
        lemma_some_piece(shape, guards, splits, answers, at, ctx, (k - 1) as nat, j);
    }
}

/// The sum of the pieces stands for zero where no pair of a guard and a split
/// holds.
pub proof fn lemma_piecewise_zero(
    shape: Shape,
    guards: Seq<Term>,
    splits: Seq<Term>,
    answers: Seq<bool>,
    at: nat,
    ctx: Map<Seq<char>, DeclModel>,
    env: Valuation,
)
    requires
        clamps(env),
        forall|i: nat|
            i < guards.len() * splits.len() ==> !holds(#[trigger] pair(guards, splits, i), env),
    ensures
        ({
            let pieces = assembled(
                shape,
                guards,
                splits,
                answers,
                at,
                ctx,
                guards.len() * splits.len(),
            ).pieces;
            pieces.len() > 0 ==> value(sum(clamp_type(shape.ty), pieces), env) == 0real
        }),
{
    let n = guards.len() * splits.len();
    lemma_pieces_total(shape, guards, splits, answers, at, ctx, n, n, env);
    let pieces = assembled(shape, guards, splits, answers, at, ctx, n).pieces;
    if pieces.len() > 0 {
        lemma_sum_value(clamp_type(shape.ty), pieces, env);
    }
}

/// A template stands, under each valuation that gives the ranged parameters values
/// in their ranges, for the polynomial of exactly one pair of a guard and a split,
/// cut off at zero, unless a term that holds was answered with no.
pub proof fn lemma_template_value(
    shape: Shape,
    conds: Seq<Term>,
    vars: Seq<(Term, Range)>,
    split_count: nat,
    answers: Seq<bool>,
    at: nat,
    ctx: Map<Seq<char>, DeclModel>,
    env: Valuation,
)
    requires
        clamps(env),
        forall|i: int| 0 <= i < vars.len() ==> in_range((#[trigger] vars[i]).0, vars[i].1, env),
        ({
            let splits = region_splits(vars, split_count);
            let e = template_guards(conds, answers, at);
            let a = template_pieces(shape, conds, splits, answers, at, ctx);
            none_missed(e.queries + a.queries, answers, at, env)
        }),
    ensures
        ({
            let splits = region_splits(vars, split_count);
            let guards = template_guards(conds, answers, at).guards;
            let pieces = template_pieces(shape, conds, splits, answers, at, ctx).pieces;
            exists|j: nat|
                {
                    &&& j < guards.len() * splits.len()
                    &&& holds(#[trigger] pair(guards, splits, j), env)
                    &&& pieces.len() > 0
                    &&& value(
                        with_own_vars(sum(clamp_type(shape.ty), pieces), shape.params, ctx),
                        env,
                    ) == shape.piece_value(splits.len(), j, env)
                }
        }),
{
    let splits = region_splits(vars, split_count);
    let e = template_guards(conds, answers, at);
    let a = template_pieces(shape, conds, splits, answers, at, ctx);
    let guards = e.guards;
    let m = splits.len();
    let n = guards.len() * m;
    let queries = e.queries + a.queries;
    let next = at + e.queries.len();
    assert forall|i: int|
        0 <= i < e.queries.len() && holds(
            #[trigger] e.queries[i],
            env,
        ) implies answers[at + i] by {
        assert(queries[i] == e.queries[i]);
    }
    lemma_guards_cover(conds, Term::boolean(true), answers, at, env);
    lemma_one_split(vars, split_count, env);
    let i = lemma_count_exists(guards, env);
    let s = lemma_count_exists(splits, env);
    let j = (i * m + s) as nat;
    assert(0 <= i * m && i * m + s < n) by (nonlinear_arith)
        requires
            0 <= i < guards.len(),
            0 <= s < m,
            n == guards.len() * m,
    ;
    lemma_fundamental_div_mod_converse(j as int, m as int, i, s);
    lemma_and_holds(guards[i], splits[s], env);
    lemma_assembled_queries(shape, guards, splits, answers, next, ctx, n);
    assert(queries[(e.queries.len() + j) as int] == pair(guards, splits, j));
    lemma_piecewise_value(shape, guards, splits, answers, next, ctx, j, env);
    lemma_own_vars_meaning(sum(clamp_type(shape.ty), a.pieces), shape.params, ctx, env);
    assert(holds(pair(guards, splits, j), env));
}

/// A template is built, and stands for what [`lemma_template_value`] says, wherever
/// there is a valuation that gives the ranged parameters values in their ranges and
/// under which no term that holds was answered with no.
pub proof fn lemma_built_value(
    r: Option<Template>,
    shape: Shape,
    conds: Seq<Term>,
    vars: Seq<(Term, Range)>,
    split_count: nat,
    ctx: Map<Seq<char>, DeclModel>,
    before: SatOracle,
    ctx2: Map<Seq<char>, DeclModel>,
    after: SatOracle,
    env: Valuation,
)
    requires
        is_built(
            r,
            shape,
            conds,
            region_splits(vars, split_count),
            ctx,
            before,
            ctx2,
            after,
        ),
        clamps(env),
        forall|i: int| 0 <= i < vars.len() ==> in_range((#[trigger] vars[i]).0, vars[i].1, env),
        ({
            let splits = region_splits(vars, split_count);
            let (answers, at) = (after.answers(), before.taken());
            let e = template_guards(conds, answers, at);
            let a = template_pieces(shape, conds, splits, answers, at, ctx);
            none_missed(e.queries + a.queries, answers, at, env)
        }),
    ensures
        ({
            let splits = region_splits(vars, split_count);
            let guards = template_guards(conds, after.answers(), before.taken()).guards;
            r matches Some(t) && exists|j: nat|
                {
                    &&& j < guards.len() * splits.len()
                    &&& holds(#[trigger] pair(guards, splits, j), env)
                    &&& value(t.0@, env) == shape.piece_value(splits.len(), j, env)
                }
        }),
{
    let splits = region_splits(vars, split_count);
    let (answers, at) = (after.answers(), before.taken());
    let guards = template_guards(conds, answers, at).guards;
    let pieces = template_pieces(shape, conds, splits, answers, at, ctx).pieces;
    lemma_template_value(shape, conds, vars, split_count, answers, at, ctx, env);
    let whole = with_own_vars(sum(clamp_type(shape.ty), pieces), shape.params, ctx);
    let j = choose|j: nat|
        {
            &&& j < guards.len() * splits.len()
            &&& holds(#[trigger] pair(guards, splits, j), env)
            &&& pieces.len() > 0
            &&& value(whole, env) == shape.piece_value(splits.len(), j, env)
        };
    assert(holds(pair(guards, splits, j), env));
}

proof fn lemma_own_entries_has(
    names: Seq<Seq<char>>,
    params: Seq<Seq<char>>,
    ctx: Map<Seq<char>, DeclModel>,
    x: Seq<char>,
)
    requires
        names.contains(x),
        params.contains(x),
    ensures
        lookup(own_entries(names, params, ctx), x) == Some(Term::var(x, ctx[x]->ty)),
    decreases names.len(),
{
    let front = names.drop_last();
    let y = names.last();
    if params.contains(y) {
        lemma_put_lookup(own_entries(front, params, ctx), y, Term::var(y, ctx[y]->ty), x);
    }
    if x != y {
        let i = choose|i: int| 0 <= i < names.len() && names[i] == x;
        assert(front[i] == x);
        lemma_own_entries_has(front, params, ctx, x);
    }
}

proof fn lemma_var_replaced(t: Term, m: Entries, s: Term, x: Seq<char>)
    requires
        well_formed(t),
        without_substs(t),
        is_subterm(s, resolved(t, m)),
        s.op == Op::Var(x),
        lookup(m, x) is Some,
        forall|y: Seq<char>|
            (#[trigger] lookup(m, y)) is Some ==> lookup(m, y)->0.op == Op::Var(y) && lookup(
                m,
                y,
            )->0.kids.len() == 0,
    ensures
        s == lookup(m, x)->0,
    decreases t,
{
    let r = resolved(t, m);
    if let Op::Var(y) = t.op {
        if lookup(m, y) is Some {
            assert(s == r);
        } else {
            assert(s == t);
        }
    } else {
        let below = resolved_below(t, m);
        assert(r.kids == below);
        assert(s != r);
        let i = choose|i: int| 0 <= i < r.kids.len() && is_subterm(s, #[trigger] r.kids[i]);
        assert(below[i] == resolved(t.kids[i], m));
        lemma_var_replaced(t.kids[i], m, s, x);
    }
}

/// With the variables put back, each parameter that stands free in a term stands in it with
/// the type that it is declared with.
pub proof fn lemma_own_vars_types(
    t: Term,
    params: Seq<Seq<char>>,
    ctx: Map<Seq<char>, DeclModel>,
    s: Term,
    x: Seq<char>,
)
    requires
        well_formed(t),
        without_substs(t),
        is_subterm(s, with_own_vars(t, params, ctx)),
        s.op == Op::Var(x),
        params.contains(x),
        free_vars(t).contains(x),
    ensures
        s == Term::var(x, ctx[x]->ty),
{
    let m = own_entries(free_vars(t), params, ctx);
    lemma_own_entries_has(free_vars(t), params, ctx, x);
    assert forall|y: Seq<char>| (#[trigger] lookup(m, y)) is Some implies lookup(m, y)->0.op
        == Op::Var(y) && lookup(m, y)->0.kids.len() == 0 by {
        lemma_own_entries_vars(free_vars(t), params, ctx, y);
    }
    lemma_var_replaced(t, m, s, x);
}

} // verus!
