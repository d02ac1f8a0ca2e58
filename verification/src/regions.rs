//! Regions: the predicates that cut the ranges of variables into intervals.

use vstd::arithmetic::div_mod::lemma_fundamental_div_mod;
use vstd::arithmetic::power::pow;
use vstd::prelude::*;

use crate::ast::{share, terms, BinOpKind, Expr, ExprBuilder, Term, TyKind};
use crate::decls::Range;
use crate::evaluation::{lemma_as_type_meaning, lemma_binary_meaning, lemma_number_meaning};
use crate::monomials::term_lists;
use crate::polynomial::{as_type, cast_to};
use crate::rational::{
    rational_add, rational_from_integer, rational_mul, rational_new, rational_sub, Rational,
};
use crate::semantics::{holds, meaning, value, Valuation, Value};
use crate::seqs::{joined, lemma_joined_take};

verus! {

/// The point at `i / n` of the way from the lower to the upper end of `range`.
pub open spec fn cut(range: Range, i: nat, n: nat) -> real {
    range.lower as real + (range.upper as real - range.lower as real) * (i as real / n as real)
}

/// `x` is greater than `low` and at most `high`.
pub open spec fn between(x: Term, low: real, high: real) -> Term {
    Term::and(
        Term::binary(BinOpKind::Gt, TyKind::Bool, x, Term::number(low, TyKind::Real)),
        Term::binary(BinOpKind::Le, TyKind::Bool, x, Term::number(high, TyKind::Real)),
    )
}

/// `x` is at the lower end of `range`.
pub open spec fn at_lower(x: Term, range: Range) -> Term {
    Term::binary(BinOpKind::Eq, TyKind::Bool, x, Term::number(range.lower as real, TyKind::Real))
}

/// The first `k` of the `n` intervals of equal width that make up `range`, each
/// without its lower end.
pub open spec fn intervals(x: Term, range: Range, k: nat, n: nat) -> Seq<Term> {
    Seq::new(k, |i: int| between(x, cut(range, i as nat, n), cut(range, (i + 1) as nat, n)))
}

/// The `n` intervals that make up `range`, and its lower end by itself.
pub open spec fn regions_of(x: Term, range: Range, n: nat) -> Seq<Term> {
    intervals(x, range, n, n).push(at_lower(x, range))
}

/// `prefix` and each of `items`.
pub open spec fn extended(prefix: Term, items: Seq<Term>) -> Seq<Term> {
    items.map_values(|t: Term| Term::and(prefix, t))
}

/// Each of `prefixes` and each of `items`.
pub open spec fn all_extended(prefixes: Seq<Term>, items: Seq<Term>) -> Seq<Term> {
    joined(prefixes.map_values(|p: Term| extended(p, items)))
}

/// The conjunctions of one term out of each list.
pub open spec fn conjunctions(lists: Seq<Seq<Term>>) -> Seq<Term>
    decreases lists.len(),
{
    if lists.len() == 0 {
        seq![Term::boolean(true)]
    } else {
        all_extended(conjunctions(lists.drop_last()), lists.last())
    }
}

/// The models of variables with their ranges.
pub open spec fn ranged(vars: Seq<(Expr, Range)>) -> Seq<(Term, Range)> {
    vars.map_values(|v: (Expr, Range)| (v.0@, v.1))
}

/// The regions of each variable, cut into `n` intervals.
pub open spec fn region_lists(vars: Seq<(Term, Range)>, n: nat) -> Seq<Seq<Term>> {
    vars.map_values(|v: (Term, Range)| regions_of(as_type(v.0, TyKind::Real), v.1, n))
}

/// The regions of all variables together.
pub open spec fn region_splits(vars: Seq<(Term, Range)>, n: nat) -> Seq<Term> {
    if vars.len() == 0 || n == 0 {
        seq![Term::boolean(true)]
    } else {
        conjunctions(region_lists(vars, n))
    }
}

/// The point at `i / n` of the way through a range, from its lower end and its
/// width.
fn cut_point(lower: &Rational, width: &Rational, i: usize, n: usize) -> (r: Rational)
    requires
        n != 0,
    ensures
        r@ == lower@ + width@ * (i as real / n as real),
{
    let ratio = rational_new(i, n);
    rational_add(lower, &rational_mul(width, &ratio))
}

/// The regions of one variable of the type `Real`.
fn regions_of_var(builder: &ExprBuilder, real_var: &Expr, range: Range, split_count: usize) -> (r:
    Vec<Expr>)
    requires
        split_count > 0,
    ensures
        terms(r@) == regions_of(real_var@, range, split_count as nat),
{
    let lower = rational_from_integer(range.lower);
    let upper = rational_from_integer(range.upper);
    let width = rational_sub(&upper, &lower);
    let mut conditions: Vec<Expr> = Vec::new();
    let ghost x = real_var@;
    let ghost n = split_count as nat;
    for i in 0..split_count
        invariant
            split_count > 0,
            n == split_count,
            x == real_var@,
            lower@ == range.lower as real,
            width@ == range.upper as real - range.lower as real,
            terms(conditions@) == intervals(x, range, i as nat, n),
    {
        let lower_cut = cut_point(&lower, &width, i, split_count);
        let upper_cut = cut_point(&lower, &width, i + 1, split_count);
        let gt_lower = builder.binary(
            BinOpKind::Gt,
            TyKind::Bool,
            share(real_var),
            builder.signed_frac_lit(lower_cut),
        );
        let le_upper = builder.binary(
            BinOpKind::Le,
            TyKind::Bool,
            share(real_var),
            builder.signed_frac_lit(upper_cut),
        );
        let interval = builder.binary(BinOpKind::And, TyKind::Bool, gt_lower, le_upper);
        let ghost before = terms(conditions@);
        conditions.push(interval);
        assert(terms(conditions@) =~= before.push(interval@));
        assert(intervals(x, range, (i + 1) as nat, n) =~= before.push(interval@));
    }
    let lower_eq = builder.binary(
        BinOpKind::Eq,
        TyKind::Bool,
        share(real_var),
        builder.signed_frac_lit(lower),
    );
    let ghost before = terms(conditions@);
    conditions.push(lower_eq);
    assert(terms(conditions@) =~= before.push(lower_eq@));
    conditions
}

/// The conjunctions of one predicate out of each list.
pub fn cartesian_and(lists: &[Vec<Expr>], builder: &ExprBuilder) -> (r: Vec<Expr>)
    ensures
        terms(r@) == conjunctions(term_lists(lists@)),
{
    let mut acc: Vec<Expr> = Vec::new();
    acc.push(builder.bool_lit(true));
    let ghost all = term_lists(lists@);
    assert(all.take(0) =~= seq![]);
    assert(terms(acc@) =~= seq![Term::boolean(true)]);
    for l in 0..lists.len()
        invariant
            all == term_lists(lists@),
            terms(acc@) == conjunctions(all.take(l as int)),
    {
        let list = &lists[l];
        let ghost items = terms(list@);
        let ghost prefixes = terms(acc@);
        let ghost parts = prefixes.map_values(|p: Term| extended(p, items));
        let mut next: Vec<Expr> = Vec::new();
        assert(parts.take(0) =~= seq![]);
        assert(terms(next@) =~= seq![]);
        for p in 0..acc.len()
            invariant
                items == terms(list@),
                prefixes == terms(acc@),
                parts == prefixes.map_values(|p: Term| extended(p, items)),
                terms(next@) == joined(parts.take(p as int)),
        {
            let ghost done = terms(next@);
            let ghost row = extended(prefixes[p as int], items);
            assert(done + row.take(0) =~= done);
            for i in 0..list.len()
                invariant
                    items == terms(list@),
                    prefixes == terms(acc@),
                    p < acc@.len(),
                    row == extended(prefixes[p as int], items),
                    terms(next@) == done + row.take(i as int),
            {
                let conj = builder.binary(
                    BinOpKind::And,
                    TyKind::Bool,
                    share(&acc[p]),
                    share(&list[i]),
                );
                assert(conj@ == row[i as int]);
                let ghost before = terms(next@);
                next.push(conj);
                assert(terms(next@) =~= before.push(conj@));
                assert(done + row.take(i + 1) =~= before.push(conj@));
            }
            proof {
                assert(row.take(row.len() as int) =~= row);
                lemma_joined_take(parts, p as int);
            }
        }
        assert(parts.take(parts.len() as int) =~= parts);
        acc = next;
        proof {
            assert(all[l as int] == items);
            assert(all.take(l + 1).drop_last() =~= all.take(l as int));
        }
    }
    assert(all.take(all.len() as int) =~= all);
    acc
}

/// The predicates that cut each ranged variable into `split_count` intervals of
/// equal width, without their lower ends, and the lower end of its range: one
/// predicate for each variable, in each possible way. Where there is no variable
/// or no interval, the one predicate that always holds.
pub fn get_fix_region_splits(
    ranged_vars: &[(Expr, Range)],
    split_count: usize,
    builder: &ExprBuilder,
) -> (r: Vec<Expr>)
    requires
        split_count > 0 ==> forall|i: int|
            0 <= i < ranged_vars@.len() ==> (#[trigger] ranged_vars@[i]).0.ty is Some,
    ensures
        terms(r@) == region_splits(ranged(ranged_vars@), split_count as nat),
{
    if ranged_vars.len() == 0 || split_count == 0 {
        let mut trivial: Vec<Expr> = Vec::new();
        trivial.push(builder.bool_lit(true));
        assert(terms(trivial@) =~= seq![Term::boolean(true)]);
        return trivial;
    }
    let ghost vars = ranged(ranged_vars@);
    let ghost all = region_lists(vars, split_count as nat);
    let mut per_var: Vec<Vec<Expr>> = Vec::new();
    assert(term_lists(per_var@) =~= all.take(0));
    for i in 0..ranged_vars.len()
        invariant
            split_count > 0,
            vars == ranged(ranged_vars@),
            all == region_lists(vars, split_count as nat),
            term_lists(per_var@) == all.take(i as int),
    {
        let real_var = cast_to(builder, TyKind::Real, share(&ranged_vars[i].0));
        let conditions = regions_of_var(builder, &real_var, ranged_vars[i].1, split_count);
        let ghost before = term_lists(per_var@);
        assert(terms(conditions@) == all[i as int]);
        per_var.push(conditions);
        assert(term_lists(per_var@) =~= before.push(all[i as int]));
        assert(all.take(i + 1) =~= before.push(all[i as int]));
    }
    assert(all.take(all.len() as int) =~= all);
    cartesian_and(&per_var, builder)
}

/// How many of the terms hold.
pub open spec fn count_holding(ts: Seq<Term>, env: Valuation) -> nat
    decreases ts.len(),
{
    if ts.len() == 0 {
        0
    } else {
        count_holding(ts.drop_last(), env) + if holds(ts.last(), env) {
            1nat
        } else {
            0nat
        }
    }
}

/// As many terms of two lists hold as of each list together.
pub proof fn lemma_count_add(a: Seq<Term>, b: Seq<Term>, env: Valuation)
    ensures
        count_holding(a + b, env) == count_holding(a, env) + count_holding(b, env),
    decreases b.len(),
{
    if b.len() == 0 {
        assert(a + b =~= a);
    } else {
        lemma_count_add(a, b.drop_last(), env);
        assert((a + b).drop_last() =~= a + b.drop_last());
    }
}

/// A conjunction holds where both sides hold.
pub proof fn lemma_and_holds(a: Term, b: Term, env: Valuation)
    ensures
        holds(Term::and(a, b), env) == (holds(a, env) && holds(b, env)),
{
    lemma_binary_meaning(BinOpKind::And, TyKind::Bool, a, b, env);
}

/// Of the conjunctions of `prefix` and each item as many hold as items do, where
/// `prefix` holds, and none elsewhere.
proof fn lemma_count_extended(prefix: Term, items: Seq<Term>, env: Valuation)
    ensures
        count_holding(extended(prefix, items), env) == (if holds(prefix, env) {
            count_holding(items, env)
        } else {
            0
        }),
    decreases items.len(),
{
    if items.len() > 0 {
        lemma_count_extended(prefix, items.drop_last(), env);
        lemma_and_holds(prefix, items.last(), env);
        assert(extended(prefix, items).drop_last() =~= extended(prefix, items.drop_last()));
    }
}

/// Of the conjunctions of each prefix and each item, as many hold as prefixes do
/// times items do.
pub proof fn lemma_count_all_extended(prefixes: Seq<Term>, items: Seq<Term>, env: Valuation)
    ensures
        count_holding(all_extended(prefixes, items), env) == count_holding(prefixes, env)
            * count_holding(items, env),
    decreases prefixes.len(),
{
    let parts = prefixes.map_values(|p: Term| extended(p, items));
    let a = count_holding(prefixes, env);
    let b = count_holding(items, env);
    if prefixes.len() == 0 {
        assert(a * b == 0) by (nonlinear_arith)
            requires
                a == 0,
        ;
    } else {
        let front = prefixes.drop_last();
        lemma_count_all_extended(front, items, env);
        lemma_count_extended(prefixes.last(), items, env);
        assert(parts.drop_last() =~= front.map_values(|p: Term| extended(p, items)));
        lemma_count_add(all_extended(front, items), extended(prefixes.last(), items), env);
        let c = count_holding(front, env);
        assert((c + 1) * b == c * b + b) by (nonlinear_arith);
        assert(all_extended(prefixes, items) == all_extended(front, items) + extended(
            prefixes.last(),
            items,
        ));
    }
}

/// Whether the value of `x` lies in `range`.
pub open spec fn in_range(x: Term, range: Range, env: Valuation) -> bool {
    meaning(x, env) is Number && range.lower as real <= value(x, env) <= range.upper as real
}

/// `between` holds where it says.
proof fn lemma_between_holds(x: Term, low: real, high: real, env: Valuation)
    ensures
        holds(between(x, low, high), env) == (low < value(x, env) <= high),
{
    let l = Term::number(low, TyKind::Real);
    let h = Term::number(high, TyKind::Real);
    let gt = Term::binary(BinOpKind::Gt, TyKind::Bool, x, l);
    let le = Term::binary(BinOpKind::Le, TyKind::Bool, x, h);
    lemma_binary_meaning(BinOpKind::Gt, TyKind::Bool, x, l, env);
    lemma_binary_meaning(BinOpKind::Le, TyKind::Bool, x, h, env);
    lemma_number_meaning(low, TyKind::Real, env);
    lemma_number_meaning(high, TyKind::Real, env);
    lemma_and_holds(gt, le, env);
}

/// The cuts of a range go from its lower to its upper end and do not go back.
pub proof fn lemma_cuts(range: Range, i: nat, n: nat)
    requires
        range.lower <= range.upper,
        i < n,
    ensures
        cut(range, 0, n) == range.lower as real,
        cut(range, n, n) == range.upper as real,
        cut(range, i, n) <= cut(range, (i + 1) as nat, n),
{
    let w = range.upper as real - range.lower as real;
    let d = n as real;
    let a = i as real;
    assert(0real / d == 0real) by (nonlinear_arith)
        requires
            d > 0real,
    ;
    assert(d / d == 1real) by (nonlinear_arith)
        requires
            d > 0real,
    ;
    assert(w * 0real == 0real) by (nonlinear_arith);
    assert(w * 1real == w) by (nonlinear_arith);
    assert((i + 1) as real == a + 1real);
    assert(a / d <= (a + 1real) / d) by (nonlinear_arith)
        requires
            d > 0real,
    ;
    assert(w * (a / d) <= w * ((a + 1real) / d)) by (nonlinear_arith)
        requires
            w >= 0real,
            a / d <= (a + 1real) / d,
    ;
}

/// Of the first `k` intervals one holds where the value is above the lower end of
/// the range and not above the `k`th cut, and none elsewhere.
proof fn lemma_count_intervals(x: Term, range: Range, k: nat, n: nat, env: Valuation)
    requires
        range.lower <= range.upper,
        0 < n,
        k <= n,
    ensures
        count_holding(intervals(x, range, k, n), env) == (if (range.lower as real) < value(
            x,
            env,
        ) <= cut(range, k, n) {
            1nat
        } else {
            0nat
        }),
        range.lower as real <= cut(range, k, n),
    decreases k,
{
    if k == 0 {
        lemma_cuts(range, 0, n);
    } else {
        let j = (k - 1) as nat;
        lemma_count_intervals(x, range, j, n, env);
        lemma_cuts(range, j, n);
        let all = intervals(x, range, k, n);
        assert(all.drop_last() =~= intervals(x, range, j, n));
        lemma_between_holds(x, cut(range, j, n), cut(range, k, n), env);
    }
}

/// The regions of a variable cut up its range: exactly one of them holds where
/// the value of the variable lies in the range.
pub proof fn lemma_one_region(x: Term, range: Range, n: nat, env: Valuation)
    requires
        0 < n,
        in_range(x, range, env),
    ensures
        count_holding(regions_of(x, range, n), env) == 1,
{
    let low = Term::number(range.lower as real, TyKind::Real);
    lemma_count_intervals(x, range, n, n, env);
    lemma_cuts(range, 0, n);
    lemma_binary_meaning(BinOpKind::Eq, TyKind::Bool, x, low, env);
    lemma_number_meaning(range.lower as real, TyKind::Real, env);
    assert(meaning(x, env) == Value::Number(value(x, env)));
    assert(regions_of(x, range, n).drop_last() =~= intervals(x, range, n, n));
}

/// No region of a variable reaches out of its range: none holds where the value of
/// the variable lies outside.
pub proof fn lemma_no_region_outside(x: Term, range: Range, n: nat, env: Valuation)
    requires
        0 < n,
        range.lower <= range.upper,
        value(x, env) < range.lower as real || value(x, env) > range.upper as real,
    ensures
        count_holding(regions_of(x, range, n), env) == 0,
{
    let low = Term::number(range.lower as real, TyKind::Real);
    lemma_count_intervals(x, range, n, n, env);
    lemma_cuts(range, 0, n);
    lemma_binary_meaning(BinOpKind::Eq, TyKind::Bool, x, low, env);
    lemma_number_meaning(range.lower as real, TyKind::Real, env);
    assert(regions_of(x, range, n).drop_last() =~= intervals(x, range, n, n));
}

/// Where exactly one term of each list holds, exactly one of the conjunctions
/// does.
pub proof fn lemma_one_conjunction(lists: Seq<Seq<Term>>, env: Valuation)
    requires
        forall|i: int| 0 <= i < lists.len() ==> count_holding(#[trigger] lists[i], env) == 1,
    ensures
        count_holding(conjunctions(lists), env) == 1,
    decreases lists.len(),
{
    if lists.len() == 0 {
        let ts = seq![Term::boolean(true)];
        assert(ts.drop_last() =~= seq![]);
        assert(count_holding(ts.drop_last(), env) == 0);
        assert(holds(ts.last(), env));
    } else {
        let front = lists.drop_last();
        assert forall|i: int| 0 <= i < front.len() implies count_holding(
            #[trigger] front[i],
            env,
        ) == 1 by {
            assert(front[i] == lists[i]);
        }
        lemma_one_conjunction(front, env);
        lemma_count_all_extended(conjunctions(front), lists.last(), env);
    }
}

/// The region splits cut up the space of the ranged variables: exactly one of
/// them holds where each variable has a value in its range.
pub proof fn lemma_one_split(vars: Seq<(Term, Range)>, n: nat, env: Valuation)
    requires
        forall|i: int| 0 <= i < vars.len() ==> in_range((#[trigger] vars[i]).0, vars[i].1, env),
    ensures
        count_holding(region_splits(vars, n), env) == 1,
{
    if vars.len() == 0 || n == 0 {
        lemma_one_conjunction(seq![], env);
    } else {
        let lists = region_lists(vars, n);
        assert forall|i: int| 0 <= i < lists.len() implies count_holding(
            #[trigger] lists[i],
            env,
        ) == 1 by {
            lemma_as_type_meaning(vars[i].0, TyKind::Real, env);
            lemma_one_region(as_type(vars[i].0, TyKind::Real), vars[i].1, n, env);
        }
        lemma_one_conjunction(lists, env);
    }
}

/// There is one region more than there are intervals. The `i`th interval goes from
/// `i / n` of the way through the range, without that point, to `(i + 1) / n` of the way,
/// with that point; the last region is the lower end of the range.
pub proof fn lemma_region_bounds(x: Term, range: Range, n: nat, i: int, env: Valuation)
    requires
        0 <= i <= n,
        meaning(x, env) is Number,
    ensures
        regions_of(x, range, n).len() == n + 1,
        ({
            let (low, high, v) = (range.lower as real, range.upper as real, value(x, env));
            holds(regions_of(x, range, n)[i], env) == (if i == n {
                v == low
            } else {
                low + (high - low) * (i as real / n as real) < v && v <= low + (high - low) * ((i
                    + 1) as real / n as real)
            })
        }),
{
    if i < n {
        let (a, b) = (cut(range, i as nat, n), cut(range, (i + 1) as nat, n));
        assert(regions_of(x, range, n)[i] == between(x, a, b));
        lemma_between_holds(x, a, b, env);
    } else {
        let low = Term::number(range.lower as real, TyKind::Real);
        lemma_binary_meaning(BinOpKind::Eq, TyKind::Bool, x, low, env);
        lemma_number_meaning(range.lower as real, TyKind::Real, env);
        assert(meaning(x, env) == Value::Number(value(x, env)));
        assert(regions_of(x, range, n)[i] == at_lower(x, range));
    }
}

/// The conjunctions of each prefix and each item are counted prefix by prefix.
pub proof fn lemma_all_extended_at(prefixes: Seq<Term>, items: Seq<Term>, a: int, b: int)
    requires
        0 <= a < prefixes.len(),
        0 <= b < items.len(),
    ensures
        0 <= a * items.len() + b < all_extended(prefixes, items).len(),
        all_extended(prefixes, items)[a * items.len() + b] == Term::and(prefixes[a], items[b]),
        all_extended(prefixes, items).len() == prefixes.len() * items.len(),
    decreases prefixes.len(),
{
    let f = |p: Term| extended(p, items);
    let parts = prefixes.map_values(f);
    let front = prefixes.drop_last();
    let before = all_extended(front, items);
    let m = items.len() as int;
    let n = front.len() as int;
    lemma_all_extended_len(prefixes, items);
    lemma_all_extended_len(front, items);
    assert(parts.drop_last() =~= front.map_values(f));
    assert(all_extended(prefixes, items) == before + extended(prefixes.last(), items));
    assert(0 <= a * m) by (nonlinear_arith)
        requires
            a >= 0,
            m >= 0,
    ;
    if a < n {
        lemma_all_extended_at(front, items, a, b);
        assert(all_extended(prefixes, items)[a * m + b] == before[a * m + b]);
    } else {
        assert(before.len() == a * m);
    }
}

proof fn lemma_all_extended_len(prefixes: Seq<Term>, items: Seq<Term>)
    ensures
        all_extended(prefixes, items).len() == prefixes.len() * items.len(),
    decreases prefixes.len(),
{
    let f = |p: Term| extended(p, items);
    let parts = prefixes.map_values(f);
    let (n, m) = (prefixes.len() as int, items.len() as int);
    if prefixes.len() > 0 {
        let front = prefixes.drop_last();
        lemma_all_extended_len(front, items);
        assert(parts.drop_last() =~= front.map_values(f));
        assert(n * m == (n - 1) * m + m) by (nonlinear_arith);
    } else {
        assert(n * m == 0) by (nonlinear_arith)
            requires
                n == 0,
        ;
    }
}

/// One variable more: each split of the others is split by each of its regions, split by
/// split and region by region.
pub proof fn lemma_split_of_one_more(
    vars: Seq<(Term, Range)>,
    v: (Term, Range),
    n: nat,
    a: int,
    b: int,
    env: Valuation,
)
    requires
        0 < n,
        0 <= a < region_splits(vars, n).len(),
        0 <= b <= n,
    ensures
        region_splits(vars.push(v), n).len() == region_splits(vars, n).len() * (n + 1),
        0 <= a * (n + 1) + b < region_splits(vars.push(v), n).len(),
        holds(region_splits(vars.push(v), n)[a * (n + 1) + b], env) == (holds(
            region_splits(vars, n)[a],
            env,
        ) && holds(regions_of(as_type(v.0, TyKind::Real), v.1, n)[b], env)),
{
    let lists = region_lists(vars, n);
    let own = regions_of(as_type(v.0, TyKind::Real), v.1, n);
    let more = region_lists(vars.push(v), n);
    assert(more.drop_last() =~= lists);
    assert(more.last() == own);
    assert(own.len() == n + 1);
    if vars.len() == 0 {
        assert(lists =~= seq![]);
    }
    assert(conjunctions(lists) == region_splits(vars, n));
    lemma_all_extended_at(conjunctions(lists), own, a, b);
    lemma_and_holds(conjunctions(lists)[a], own[b], env);
}

/// Without variables or without intervals there is one split, and it always holds.
pub proof fn lemma_split_of_none(vars: Seq<(Term, Range)>, n: nat, env: Valuation)
    requires
        vars.len() == 0 || n == 0,
    ensures
        region_splits(vars, n).len() == 1,
        holds(region_splits(vars, n)[0], env),
{
}

/// There are `(n + 1) ^ k` splits for `k` variables and `n` intervals, and a split fixes
/// each variable up to the width of an interval.
pub proof fn lemma_split_width(
    vars: Seq<(Term, Range)>,
    n: nat,
    s: int,
    i: int,
    a: Valuation,
    b: Valuation,
)
    requires
        0 < n,
        0 <= s < region_splits(vars, n).len(),
        0 <= i < vars.len(),
        vars[i].1.lower <= vars[i].1.upper,
        meaning(vars[i].0, a) is Number,
        meaning(vars[i].0, b) is Number,
        holds(region_splits(vars, n)[s], a),
        holds(region_splits(vars, n)[s], b),
    ensures
        (value(vars[i].0, a) - value(vars[i].0, b)) * (n as real) <= vars[i].1.upper as real
            - vars[i].1.lower as real,
    decreases vars.len(),
{
    let front = vars.drop_last();
    let v = vars.last();
    assert(vars =~= front.push(v));
    let m = (n + 1) as int;
    let (p, q) = (s / m, s % m);
    let f = region_splits(front, n).len() as int;
    lemma_fundamental_div_mod(s, m);
    lemma_split_count(front, n);
    lemma_split_of_one_more(front, v, n, 0, 0, a);
    assert(0 <= q < m && s == m * p + q);
    assert(0 <= p < f && s == p * m + q) by (nonlinear_arith)
        requires
            0 <= s < f * m,
            s == m * p + q,
            0 <= q < m,
            m > 0,
    ;
    lemma_split_of_one_more(front, v, n, p, q, a);
    lemma_split_of_one_more(front, v, n, p, q, b);
    if i < front.len() {
        assert(front[i] == vars[i]);
        lemma_split_width(front, n, p, i, a, b);
    } else {
        let x = as_type(v.0, TyKind::Real);
        let (va, vb) = (value(v.0, a), value(v.0, b));
        lemma_as_type_meaning(v.0, TyKind::Real, a);
        lemma_as_type_meaning(v.0, TyKind::Real, b);
        lemma_region_bounds(x, v.1, n, q, a);
        lemma_region_bounds(x, v.1, n, q, b);
        let (low, w, d) = (
            v.1.lower as real,
            v.1.upper as real - v.1.lower as real,
            n as real,
        );
        if q < n {
            let j = q as real;
            assert((q + 1) as real == j + 1real);
            assert((va - vb) * d <= w) by (nonlinear_arith)
                requires
                    d > 0real,
                    w >= 0real,
                    low + w * (j / d) < vb,
                    va <= low + w * ((j + 1real) / d),
            {
                assert(w * ((j + 1real) / d) - w * (j / d) == w / d);
                assert(va - vb <= w / d);
                assert((w / d) * d == w);
            }
        } else {
            assert((va - vb) * d == 0real) by (nonlinear_arith)
                requires
                    va == vb,
            ;
        }
    }
}

/// How many splits there are.
pub proof fn lemma_split_count(vars: Seq<(Term, Range)>, n: nat)
    ensures
        region_splits(vars, n).len() > 0,
        n > 0 ==> region_splits(vars, n).len() == pow(n + 1int, vars.len()),
        n == 0 ==> region_splits(vars, n).len() == 1,
    decreases vars.len(),
{
    reveal(pow);
    if vars.len() > 0 && n > 0 {
        let front = vars.drop_last();
        let env = arbitrary::<Valuation>();
        assert(vars =~= front.push(vars.last()));
        lemma_split_count(front, n);
        lemma_split_of_one_more(front, vars.last(), n, 0, 0, env);
        let (a, m) = (region_splits(front, n).len() as int, (n + 1) as int);
        assert(a * m == m * a && a * m > 0) by (nonlinear_arith)
            requires
                a > 0,
                m > 0,
        ;
    }
}

/// One list more: each conjunction of the others is extended by each of its terms,
/// conjunction by conjunction and term by term. Without lists there is one conjunction,
/// and it always holds.
pub proof fn lemma_conjunctions_of_one_more(
    lists: Seq<Seq<Term>>,
    list: Seq<Term>,
    a: int,
    b: int,
    env: Valuation,
)
    requires
        0 <= a < conjunctions(lists).len(),
        0 <= b < list.len(),
    ensures
        conjunctions(lists.push(list)).len() == conjunctions(lists).len() * list.len(),
        0 <= a * list.len() + b < conjunctions(lists.push(list)).len(),
        holds(conjunctions(lists.push(list))[a * list.len() + b], env) == (holds(
            conjunctions(lists)[a],
            env,
        ) && holds(list[b], env)),
        conjunctions(seq![]).len() == 1,
        holds(conjunctions(seq![])[0], env),
{
    assert(lists.push(list).drop_last() =~= lists);
    lemma_all_extended_at(conjunctions(lists), list, a, b);
    lemma_and_holds(conjunctions(lists)[a], list[b], env);
}

/// There are as many conjunctions as there are ways to pick a term of each list.
pub proof fn lemma_conjunctions_count(lists: Seq<Seq<Term>>, list: Seq<Term>)
    ensures
        conjunctions(lists.push(list)).len() == conjunctions(lists).len() * list.len(),
{
    assert(lists.push(list).drop_last() =~= lists);
    lemma_all_extended_len(conjunctions(lists), list);
}

} // verus!
