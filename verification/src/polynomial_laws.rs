//! The names and types of polynomials and of their coefficients.

use vstd::prelude::*;

use crate::ast::{BinOpKind, Op, Term, TyKind, UnOpKind};
use crate::decls::{DeclModel, VarKind};
use crate::evaluation::{lemma_as_type_meaning, number_at};
use crate::monomials::{index_lists, product};
use crate::polynomial::{
    as_type, clamp_type, cut_off, declaring, quotient, sum, typed, var_as, vars_as, Coefficients,
};
use crate::semantics::{meaning, meanings_below, value, Valuation, Value};
use crate::text::decimal;

verus! {

/// What terms are made of.
pub proof fn lemma_term_parts(
    name: Seq<char>,
    bit: bool,
    x: real,
    bin: BinOpKind,
    un: UnOpKind,
    ty: TyKind,
    a: Term,
    b: Term,
    c: Term,
    args: Seq<Term>,
)
    ensures
        Term::var(name, ty) == (Term { op: Op::Var(name), kids: seq![], ty: Some(ty) }),
        Term::boolean(bit) == (Term { op: Op::Bool(bit), kids: seq![], ty: Some(TyKind::Bool) }),
        Term::number(x, ty) == (Term { op: Op::Number(x), kids: seq![], ty: Some(ty) }),
        Term::call(name, args, ty) == (Term { op: Op::Call(name), kids: args, ty: Some(ty) }),
        Term::ite(ty, a, b, c) == (Term { op: Op::Ite, kids: seq![a, b, c], ty: Some(ty) }),
        Term::binary(bin, ty, a, b) == (Term {
            op: Op::Binary(bin),
            kids: seq![a, b],
            ty: Some(ty),
        }),
        Term::unary(un, ty, a) == (Term { op: Op::Unary(un), kids: seq![a], ty: Some(ty) }),
        Term::cast(ty, a) == (Term { op: Op::Cast, kids: seq![a], ty: Some(ty) }),
{
}

/// A truth value stands for itself, a variable for its value, and a call for what its
/// function makes of its arguments.
pub proof fn lemma_leaf_meanings(
    name: Seq<char>,
    bit: bool,
    ty: TyKind,
    arg: Term,
    env: Valuation,
)
    ensures
        meaning(Term::boolean(bit), env) == Value::Truth(bit),
        meaning(Term::var(name, ty), env) == (env.vars)(name),
        meaning(Term::call(name, seq![arg], ty), env) == (env.functions)(
            name,
            seq![meaning(arg, env)],
        ),
{
    let t = Term::call(name, seq![arg], ty);
    assert(t.kids[0] == arg);
    assert(meanings_below(t, env) =~= seq![meaning(arg, env)]);
}

/// What the names of coefficients are made of.
pub proof fn lemma_names_format(c: Coefficients, degree: nat, idx: nat)
    ensures
        c.name(degree, idx) == "tvar_"@ + c.synth + "_"@ + c.addon + "_deg"@ + decimal(degree)
            + "_m"@ + decimal(idx) + decimal(c.suffix),
        c.constant() == "tvar_"@ + c.synth + "_"@ + c.addon + "_const"@ + decimal(c.suffix),
{
}

proof fn lemma_names_upto_members(c: Coefficients, n: int, max_degree: nat, x: Seq<char>)
    ensures
        c.names_upto(n, max_degree).contains(x) <==> exists|d: nat, k: nat|
            1 <= d <= max_degree && k < index_lists(n, d, 0).len() && x == #[trigger] c.name(d, k),
    decreases max_degree,
{
    let names = c.names_upto(n, max_degree);
    if max_degree > 0 {
        let lower = c.names_upto(n, (max_degree - 1) as nat);
        let own = c.degree_names(n, max_degree);
        lemma_names_upto_members(c, n, (max_degree - 1) as nat, x);
        if names.contains(x) {
            let i = choose|i: int| 0 <= i < names.len() && names[i] == x;
            if i < lower.len() {
                assert(lower[i] == x);
                let (d, k) = choose|d: nat, k: nat|
                    1 <= d <= max_degree - 1 && k < index_lists(n, d, 0).len() && x
                        == #[trigger] c.name(d, k);
                assert(x == c.name(d, k));
            } else {
                let k = (i - lower.len()) as nat;
                assert(own[k as int] == x);
                assert(x == c.name(max_degree, k));
            }
        }
        if exists|d: nat, k: nat|
            1 <= d <= max_degree && k < index_lists(n, d, 0).len() && x == #[trigger] c.name(d, k) {
            let (d, k) = choose|d: nat, k: nat|
                1 <= d <= max_degree && k < index_lists(n, d, 0).len() && x == #[trigger] c.name(
                    d,
                    k,
                );
            if d < max_degree {
                assert(lower.contains(x));
                let i = choose|i: int| 0 <= i < lower.len() && lower[i] == x;
                assert(names[i] == x);
            } else {
                assert(names[(lower.len() + k) as int] == x);
            }
        }
    }
}

/// A polynomial has a coefficient for each monomial of each degree up to the highest, and
/// a constant, and no others; the constant comes last.
pub proof fn lemma_names_members(c: Coefficients, n: int, max_degree: nat, x: Seq<char>)
    ensures
        c.names(n, max_degree).contains(x) <==> x == c.constant() || exists|d: nat, k: nat|
            1 <= d <= max_degree && k < index_lists(n, d, 0).len() && x == #[trigger] c.name(d, k),
        c.names(n, max_degree).last() == c.constant(),
{
    let upto = c.names_upto(n, max_degree);
    let names = c.names(n, max_degree);
    lemma_names_upto_members(c, n, max_degree, x);
    if names.contains(x) && x != c.constant() {
        let i = choose|i: int| 0 <= i < names.len() && names[i] == x;
        assert(upto[i] == x);
    }
    if upto.contains(x) {
        let i = choose|i: int| 0 <= i < upto.len() && upto[i] == x;
        assert(names[i] == x);
    }
    assert(names[upto.len() as int] == c.constant());
}

/// How many monomials there are of the degrees from 1 to `max_degree`, over `n`
/// variables.
pub open spec fn monomial_count(n: int, max_degree: nat) -> nat
    decreases max_degree,
{
    if max_degree == 0 {
        0
    } else {
        monomial_count(n, (max_degree - 1) as nat) + index_lists(n, max_degree, 0).len()
    }
}

/// There are as many coefficients as monomials, and one more.
pub proof fn lemma_names_count(c: Coefficients, n: int, max_degree: nat)
    ensures
        c.names(n, max_degree).len() == monomial_count(n, max_degree) + 1,
{
    lemma_names_upto_count(c, n, max_degree);
}

proof fn lemma_names_upto_count(c: Coefficients, n: int, max_degree: nat)
    ensures
        c.names_upto(n, max_degree).len() == monomial_count(n, max_degree),
    decreases max_degree,
{
    if max_degree > 0 {
        lemma_names_upto_count(c, n, (max_degree - 1) as nat);
    }
}

/// Declaring names makes each of them an input variable of the type, without a range, and
/// leaves all other names as they were.
pub proof fn lemma_declaring_at(
    ctx: Map<Seq<char>, DeclModel>,
    names: Seq<Seq<char>>,
    ty: TyKind,
    x: Seq<char>,
)
    ensures
        names.contains(x) ==> declaring(ctx, names, ty).dom().contains(x) && declaring(
            ctx,
            names,
            ty,
        )[x] == (DeclModel::Var { ty, kind: VarKind::Input, range: None }),
        !names.contains(x) ==> declaring(ctx, names, ty).dom().contains(x) == ctx.dom().contains(x)
            && declaring(ctx, names, ty)[x] == ctx[x],
    decreases names.len(),
{
    if names.len() > 0 {
        let front = names.drop_last();
        lemma_declaring_at(ctx, front, ty, x);
        if names.contains(x) && x != names.last() {
            let i = choose|i: int| 0 <= i < names.len() && names[i] == x;
            assert(front[i] == x);
        }
        if front.contains(x) {
            let i = choose|i: int| 0 <= i < front.len() && front[i] == x;
            assert(names[i] == x);
        }
        assert(names[names.len() - 1] == names.last());
    }
}

/// A list of names with a type gives each name that type.
pub proof fn lemma_typed_at(names: Seq<Seq<char>>, ty: TyKind, i: int)
    requires
        0 <= i < names.len(),
    ensures
        typed(names, ty).len() == names.len(),
        typed(names, ty)[i] == (names[i], ty),
{
}

/// Sums and products have the type that they are made at, where there is something to
/// add or multiply.
pub proof fn lemma_sum_type(ty: TyKind, ts: Seq<Term>)
    ensures
        ts.len() > 1 ==> sum(ty, ts).ty == Some(ty) && product(ty, ts).ty == Some(ty),
        ts.len() == 1 ==> sum(ty, ts) == ts[0] && product(ty, ts) == ts[0],
{
}

/// Polynomials and their combinations have the types that they are made at.
pub proof fn lemma_polynomial_types(
    c: Coefficients,
    vars: Seq<Term>,
    max_degree: nat,
    output: TyKind,
    t: Term,
)
    ensures
        c.polynomial(vars, max_degree).ty == Some(c.ty),
        c.combination(vars, max_degree, output).ty == Some(output),
        as_type(t, output).ty == Some(output),
        clamp_type(c.ty) == (match c.ty {
            TyKind::Int => TyKind::UInt,
            TyKind::UInt => TyKind::UInt,
            _ => TyKind::UReal,
        }),
        cut_off(c.ty, t).ty == Some(clamp_type(c.ty)),
        quotient(c.ty, t, t).ty == Some(clamp_type(c.ty)),
{
    let all = c.terms_upto(vars, max_degree).push(Term::var(c.constant(), c.ty));
    lemma_sum_type(c.ty, all);
}

/// The variables of a polynomial are of its type, whatever they are declared as, and stand
/// for the values of the names.
pub proof fn lemma_vars_as_at(
    ctx: Map<Seq<char>, DeclModel>,
    names: Seq<Seq<char>>,
    ty: TyKind,
    i: int,
    env: Valuation,
)
    requires
        0 <= i < names.len(),
    ensures
        vars_as(ctx, names, ty).len() == names.len(),
        vars_as(ctx, names, ty)[i].ty == Some(ty),
        value(vars_as(ctx, names, ty)[i], env) == number_at(env, names[i]),
        ctx[names[i]]->ty == ty ==> vars_as(ctx, names, ty)[i] == Term::var(names[i], ty),
        ctx[names[i]]->ty != ty ==> vars_as(ctx, names, ty)[i] == Term::cast(
            ty,
            Term::var(names[i], ctx[names[i]]->ty),
        ),
{
    let var = Term::var(names[i], ctx[names[i]]->ty);
    assert(vars_as(ctx, names, ty)[i] == var_as(ctx, names[i], ty));
    lemma_as_type_meaning(var, ty, env);
    assert(meaning(var, env) == (env.vars)(names[i]));
}

} // verus!
