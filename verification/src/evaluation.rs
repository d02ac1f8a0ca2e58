//! What polynomials with coefficients stand for.

use vstd::prelude::*;

use crate::ast::{BinOpKind, Term, TyKind};
use crate::monomials::{index_lists, lemma_index_lists_sound, monomials, product};
use crate::polynomial::{as_type, clamp_name, clamp_type, cut_off, quotient, sum, Coefficients};
use crate::semantics::{apply, meaning, meanings_below, value, Valuation, Value};

verus! {

/// The numbers added up.
pub open spec fn total(xs: Seq<real>) -> real
    decreases xs.len(),
{
    if xs.len() == 0 {
        0real
    } else {
        total(xs.drop_last()) + xs.last()
    }
}

/// The numbers multiplied.
pub open spec fn product_of(xs: Seq<real>) -> real
    decreases xs.len(),
{
    if xs.len() == 0 {
        1real
    } else {
        product_of(xs.drop_last()) * xs.last()
    }
}

/// The numbers that the terms stand for.
pub open spec fn values(ts: Seq<Term>, env: Valuation) -> Seq<real> {
    ts.map_values(|t: Term| value(t, env))
}

/// What a variable stands for as a number.
pub open spec fn number_at(env: Valuation, name: Seq<char>) -> real {
    (env.vars)(name).number()
}

/// The numbers at the given indices.
pub open spec fn numbers_at(xs: Seq<real>, indices: Seq<int>) -> Seq<real> {
    indices.map_values(|i: int| xs[i])
}

impl Coefficients {
    /// The coefficients of one degree, each times the product of the factors of
    /// its monomial, with `xs` for the variables.
    pub open spec fn degree_values(self, xs: Seq<real>, degree: nat, env: Valuation) -> Seq<real> {
        let lists = index_lists(xs.len() as int, degree, 0);
        Seq::new(
            lists.len(),
            |k: int|
                number_at(env, self.name(degree, k as nat)) * product_of(numbers_at(xs, lists[k])),
        )
    }

    /// The sum of the coefficients of the degrees from 1 to `max_degree`, each
    /// times the product of the factors of its monomial, with `xs` for the
    /// variables.
    pub open spec fn value_upto(self, xs: Seq<real>, max_degree: nat, env: Valuation) -> real
        decreases max_degree,
    {
        if max_degree == 0 {
            0real
        } else {
            self.value_upto(xs, (max_degree - 1) as nat, env) + total(
                self.degree_values(xs, max_degree, env),
            )
        }
    }

    /// The value of the polynomial at the point `xs`.
    pub open spec fn polynomial_value(
        self,
        xs: Seq<real>,
        max_degree: nat,
        env: Valuation,
    ) -> real {
        self.value_upto(xs, max_degree, env) + number_at(env, self.constant())
    }
}

/// Whether the function that cuts off at zero is interpreted as its name says.
pub open spec fn clamps(env: Valuation) -> bool {
    forall|v: Value|
        (#[trigger] (env.functions)(clamp_name(), seq![v])).number() == nonnegative(v.number())
}

/// `x`, or zero where `x` is less.
pub open spec fn nonnegative(x: real) -> real {
    if x >= 0real {
        x
    } else {
        0real
    }
}

/// Adding two lists of numbers is adding each and adding the two sums.
pub proof fn lemma_total_add(a: Seq<real>, b: Seq<real>)
    ensures
        total(a + b) == total(a) + total(b),
    decreases b.len(),
{
    if b.len() == 0 {
        assert(a + b =~= a);
    } else {
        lemma_total_add(a, b.drop_last());
        assert((a + b).drop_last() =~= a + b.drop_last());
    }
}

/// A binary term stands for what its operator makes of its two sides.
pub proof fn lemma_binary_meaning(op: BinOpKind, ty: TyKind, a: Term, b: Term, env: Valuation)
    ensures
        meaning(Term::binary(op, ty, a, b), env) == apply(op, meaning(a, env), meaning(b, env)),
{
    let t = Term::binary(op, ty, a, b);
    assert(t.kids[0] == a && t.kids[1] == b);
}

/// A conditional term stands for what the branch that its condition picks stands
/// for.
pub proof fn lemma_ite_meaning(ty: TyKind, c: Term, a: Term, b: Term, env: Valuation)
    ensures
        meaning(Term::ite(ty, c, a, b), env) == (if meaning(c, env).truth() {
            meaning(a, env)
        } else {
            meaning(b, env)
        }),
{
    let t = Term::ite(ty, c, a, b);
    assert(t.kids[0] == c && t.kids[1] == a && t.kids[2] == b);
}

/// A number stands for itself.
pub proof fn lemma_number_meaning(x: real, ty: TyKind, env: Valuation)
    ensures
        meaning(Term::number(x, ty), env) == Value::Number(x),
{
}

/// A sum stands for the sum of what its summands stand for.
pub proof fn lemma_sum_value(ty: TyKind, summands: Seq<Term>, env: Valuation)
    requires
        summands.len() > 0,
    ensures
        value(sum(ty, summands), env) == total(values(summands, env)),
    decreases summands.len(),
{
    let xs = values(summands, env);
    if summands.len() == 1 {
        assert(xs.drop_last() =~= seq![]);
        assert(total(xs.drop_last()) == 0real);
    } else {
        lemma_sum_value(ty, summands.drop_last(), env);
        lemma_binary_meaning(
            BinOpKind::Add,
            ty,
            sum(ty, summands.drop_last()),
            summands.last(),
            env,
        );
        assert(xs.drop_last() =~= values(summands.drop_last(), env));
    }
}

/// A product stands for the product of what its factors stand for.
pub proof fn lemma_product_value(ty: TyKind, factors: Seq<Term>, env: Valuation)
    requires
        factors.len() > 0,
    ensures
        value(product(ty, factors), env) == product_of(values(factors, env)),
    decreases factors.len(),
{
    let xs = values(factors, env);
    if factors.len() == 1 {
        assert(xs.drop_last() =~= seq![]);
        assert(product_of(xs.drop_last()) == 1real);
        assert(1real * xs[0] == xs[0]) by (nonlinear_arith);
    } else {
        lemma_product_value(ty, factors.drop_last(), env);
        lemma_binary_meaning(
            BinOpKind::Mul,
            ty,
            product(ty, factors.drop_last()),
            factors.last(),
            env,
        );
        assert(xs.drop_last() =~= values(factors.drop_last(), env));
    }
}

/// The monomials of one degree, with their coefficients, stand for each
/// coefficient times the product of its factors.
proof fn lemma_degree_values(c: Coefficients, vars: Seq<Term>, degree: nat, env: Valuation)
    requires
        degree > 0,
    ensures
        values(c.degree_terms(vars, degree), env) == c.degree_values(
            values(vars, env),
            degree,
            env,
        ),
{
    let ms = monomials(vars, degree);
    let xs = values(vars, env);
    let lists = index_lists(vars.len() as int, degree, 0);
    let found = values(c.degree_terms(vars, degree), env);
    assert forall|k: int| 0 <= k < ms.len() implies #[trigger] found[k] == c.degree_values(
        xs,
        degree,
        env,
    )[k] by {
        lemma_index_lists_sound(vars.len() as int, degree, 0, k);
        let coeff = Term::var(c.name(degree, k as nat), c.ty);
        lemma_product_value(c.ty, ms[k], env);
        lemma_binary_meaning(BinOpKind::Mul, c.ty, coeff, product(c.ty, ms[k]), env);
        assert(values(ms[k], env) =~= numbers_at(xs, lists[k]));
    }
    assert(found =~= c.degree_values(xs, degree, env));
}

/// All monomials with their coefficients add up to [`Coefficients::value_upto`].
proof fn lemma_terms_upto_value(c: Coefficients, vars: Seq<Term>, max_degree: nat, env: Valuation)
    ensures
        total(values(c.terms_upto(vars, max_degree), env)) == c.value_upto(
            values(vars, env),
            max_degree,
            env,
        ),
    decreases max_degree,
{
    if max_degree == 0 {
        assert(values(c.terms_upto(vars, 0), env) =~= seq![]);
    } else {
        let lower = c.terms_upto(vars, (max_degree - 1) as nat);
        let upper = c.degree_terms(vars, max_degree);
        lemma_terms_upto_value(c, vars, (max_degree - 1) as nat, env);
        lemma_degree_values(c, vars, max_degree, env);
        lemma_total_add(values(lower, env), values(upper, env));
        assert(values(lower + upper, env) =~= values(lower, env) + values(upper, env));
    }
}

/// A polynomial stands for the sum of its coefficients, each times the product of
/// the factors of its monomial, and its constant.
pub proof fn lemma_polynomial_value(
    c: Coefficients,
    vars: Seq<Term>,
    max_degree: nat,
    env: Valuation,
)
    ensures
        value(c.polynomial(vars, max_degree), env) == c.polynomial_value(
            values(vars, env),
            max_degree,
            env,
        ),
{
    let ts = c.terms_upto(vars, max_degree);
    let constant = Term::var(c.constant(), c.ty);
    lemma_terms_upto_value(c, vars, max_degree, env);
    lemma_sum_value(c.ty, ts.push(constant), env);
    let xs = values(ts.push(constant), env);
    assert(xs.drop_last() =~= values(ts, env));
}

/// Casting a term does not change what it stands for.
pub proof fn lemma_as_type_meaning(t: Term, ty: TyKind, env: Valuation)
    ensures
        meaning(as_type(t, ty), env) == meaning(t, env),
{
    assert(Term::cast(ty, t).kids[0] == t);
}

/// What the call of the function that cuts off at zero stands for.
proof fn lemma_clamp_call_value(p: Term, ty: TyKind, env: Valuation)
    requires
        clamps(env),
    ensures
        value(Term::call(clamp_name(), seq![p], ty), env) == nonnegative(value(p, env)),
{
    let t = Term::call(clamp_name(), seq![p], ty);
    assert(t.kids[0] == p);
    assert(meanings_below(t, env) =~= seq![meaning(p, env)]);
}

/// A combination stands for its polynomial where that is at least zero, and for
/// zero elsewhere.
pub proof fn lemma_combination_value(
    c: Coefficients,
    vars: Seq<Term>,
    max_degree: nat,
    output: TyKind,
    env: Valuation,
)
    requires
        clamps(env),
    ensures
        value(c.combination(vars, max_degree, output), env) == nonnegative(
            c.polynomial_value(values(vars, env), max_degree, env),
        ),
{
    let p = c.polynomial(vars, max_degree);
    let cut = cut_off(c.ty, p);
    let zero = Term::number(0real, c.ty);
    lemma_polynomial_value(c, vars, max_degree, env);
    lemma_as_type_meaning(cut, output, env);
    lemma_binary_meaning(BinOpKind::Ge, TyKind::Bool, p, zero, env);
    lemma_clamp_call_value(p, clamp_type(c.ty), env);
    lemma_number_meaning(0real, c.ty, env);
    lemma_number_meaning(0real, clamp_type(c.ty), env);
    lemma_ite_meaning(
        clamp_type(c.ty),
        Term::binary(BinOpKind::Ge, TyKind::Bool, p, zero),
        Term::call(clamp_name(), seq![p], clamp_type(c.ty)),
        Term::number(0real, clamp_type(c.ty)),
        env,
    );
}

/// A quotient never divides by a number that is not greater than zero: it divides
/// by one there. What it stands for is cut off at zero.
pub proof fn lemma_quotient_value(ty: TyKind, p: Term, q: Term, output: TyKind, env: Valuation)
    requires
        clamps(env),
    ensures
        value(as_type(quotient(ty, p, q), output), env) == nonnegative(
            value(p, env) / (if value(q, env) > 0real {
                value(q, env)
            } else {
                1real
            }),
        ),
{
    let zero = Term::number(0real, ty);
    let positive = Term::binary(BinOpKind::Gt, TyKind::Bool, q, zero);
    let divisor = Term::ite(ty, positive, q, Term::number(1real, ty));
    let ratio = Term::binary(BinOpKind::Div, ty, p, divisor);
    lemma_as_type_meaning(quotient(ty, p, q), output, env);
    lemma_binary_meaning(BinOpKind::Gt, TyKind::Bool, q, zero, env);
    lemma_binary_meaning(BinOpKind::Div, ty, p, divisor, env);
    lemma_number_meaning(0real, ty, env);
    lemma_number_meaning(1real, ty, env);
    lemma_ite_meaning(ty, positive, q, Term::number(1real, ty), env);
    lemma_clamp_call_value(ratio, clamp_type(ty), env);
}

} // verus!
