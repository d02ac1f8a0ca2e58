//! Polynomials with unknown coefficients over the parameters of a function.

use vstd::prelude::*;

use crate::ast::{
    lemma_view, share, terms, BinOpKind, Expr, ExprBuilder, Ident, Term, TyKind,
};
use crate::decls::{DeclKind, DeclModel, TyCtx, VarDecl, VarKind};
use crate::monomials::{
    gen_monomials, index_lists, monomials, multiply_all, picked, product, term_lists, completions,
};
use crate::text::{decimal, push_decimal};

verus! {

/// The name of the function that cuts negative numbers off at zero.
pub open spec fn clamp_name() -> Seq<char> {
    "clamp_with_zero"@
}

/// The type of numbers that were cut off at zero.
pub open spec fn clamp_type(signed: TyKind) -> TyKind {
    if signed == TyKind::Int || signed == TyKind::UInt {
        TyKind::UInt
    } else {
        TyKind::UReal
    }
}

/// `t` as a term of the type `ty`: cast where it has another.
pub open spec fn as_type(t: Term, ty: TyKind) -> Term {
    if t.ty == Some(ty) {
        t
    } else {
        Term::cast(ty, t)
    }
}

/// `p` where it is at least zero, and zero elsewhere.
pub open spec fn cut_off(signed: TyKind, p: Term) -> Term {
    Term::ite(
        clamp_type(signed),
        Term::binary(BinOpKind::Ge, TyKind::Bool, p, Term::number(0real, signed)),
        Term::call(clamp_name(), seq![p], clamp_type(signed)),
        Term::number(0real, clamp_type(signed)),
    )
}

/// `p` divided by `q` where that is greater than zero, and by one elsewhere,
/// cut off at zero.
pub open spec fn quotient(signed: TyKind, p: Term, q: Term) -> Term {
    let divisor = Term::ite(
        signed,
        Term::binary(BinOpKind::Gt, TyKind::Bool, q, Term::number(0real, signed)),
        q,
        Term::number(1real, signed),
    );
    Term::call(
        clamp_name(),
        seq![Term::binary(BinOpKind::Div, signed, p, divisor)],
        clamp_type(signed),
    )
}

/// The terms added, from left to right, at the type `ty`.
pub open spec fn sum(ty: TyKind, summands: Seq<Term>) -> Term
    decreases summands.len(),
{
    if summands.len() <= 1 {
        summands[0]
    } else {
        Term::binary(BinOpKind::Add, ty, sum(ty, summands.drop_last()), summands.last())
    }
}

/// The coefficients of one polynomial: what their names are made of, and their
/// type.
pub struct Coefficients {
    pub synth: Seq<char>,
    pub addon: Seq<char>,
    pub suffix: nat,
    pub ty: TyKind,
}

impl Coefficients {
    /// What the name of each coefficient starts with.
    pub open spec fn stem(self) -> Seq<char> {
        "tvar_"@ + self.synth + "_"@ + self.addon
    }

    /// The name of the coefficient of a monomial, by its degree and its place
    /// among the monomials of that degree.
    pub open spec fn name(self, degree: nat, idx: nat) -> Seq<char> {
        self.stem() + "_deg"@ + decimal(degree) + "_m"@ + decimal(idx) + decimal(self.suffix)
    }

    /// The name of the constant.
    pub open spec fn constant(self) -> Seq<char> {
        self.stem() + "_const"@ + decimal(self.suffix)
    }

    /// The names of the coefficients of one degree, over `n` variables.
    pub open spec fn degree_names(self, n: int, degree: nat) -> Seq<Seq<char>> {
        Seq::new(index_lists(n, degree, 0).len(), |k: int| self.name(degree, k as nat))
    }

    /// The names of the coefficients of the degrees from 1 to `max_degree`.
    pub open spec fn names_upto(self, n: int, max_degree: nat) -> Seq<Seq<char>>
        decreases max_degree,
    {
        if max_degree == 0 {
            seq![]
        } else {
            self.names_upto(n, (max_degree - 1) as nat) + self.degree_names(n, max_degree)
        }
    }

    /// The names of all coefficients, that of the constant last.
    pub open spec fn names(self, n: int, max_degree: nat) -> Seq<Seq<char>> {
        self.names_upto(n, max_degree).push(self.constant())
    }

    /// Each monomial of one degree, with its coefficient.
    pub open spec fn degree_terms(self, vars: Seq<Term>, degree: nat) -> Seq<Term> {
        Seq::new(
            monomials(vars, degree).len(),
            |k: int|
                Term::binary(
                    BinOpKind::Mul,
                    self.ty,
                    Term::var(self.name(degree, k as nat), self.ty),
                    product(self.ty, monomials(vars, degree)[k]),
                ),
        )
    }

    /// Each monomial of a degree from 1 to `max_degree`, with its coefficient.
    pub open spec fn terms_upto(self, vars: Seq<Term>, max_degree: nat) -> Seq<Term>
        decreases max_degree,
    {
        if max_degree == 0 {
            seq![]
        } else {
            self.terms_upto(vars, (max_degree - 1) as nat) + self.degree_terms(vars, max_degree)
        }
    }

    /// The polynomial over `vars`: the sum of all monomials with their
    /// coefficients, and the constant.
    pub open spec fn polynomial(self, vars: Seq<Term>, max_degree: nat) -> Term {
        sum(
            self.ty,
            self.terms_upto(vars, max_degree).push(Term::var(self.constant(), self.ty)),
        )
    }

    /// The polynomial over `vars`, cut off at zero, as a term of the type
    /// `output`.
    pub open spec fn combination(self, vars: Seq<Term>, max_degree: nat, output: TyKind) -> Term {
        as_type(cut_off(self.ty, self.polynomial(vars, max_degree)), output)
    }
}

/// How a template variable is declared.
pub open spec fn template_var(ty: TyKind) -> DeclModel {
    DeclModel::Var { ty, kind: VarKind::Input, range: None }
}

/// `ctx` with `names` declared as template variables.
pub open spec fn declaring(
    ctx: Map<Seq<char>, DeclModel>,
    names: Seq<Seq<char>>,
    ty: TyKind,
) -> Map<Seq<char>, DeclModel>
    decreases names.len(),
{
    if names.len() == 0 {
        ctx
    } else {
        declaring(ctx, names.drop_last(), ty).insert(names.last(), template_var(ty))
    }
}

/// The template variables declared so far, with how to name and type the next.
#[derive(Debug)]
pub struct TemplateVars {
    pub split_count: usize,
    pub ty: TyKind,
    pub idents: Vec<(Ident, TyKind)>,
}

impl View for TemplateVars {
    type V = Seq<(Seq<char>, TyKind)>;

    open spec fn view(&self) -> Seq<(Seq<char>, TyKind)> {
        typed_names(self.idents@)
    }
}

/// The model of a list of variables with their types.
pub open spec fn typed_names(idents: Seq<(Ident, TyKind)>) -> Seq<(Seq<char>, TyKind)> {
    idents.map_values(|v: (Ident, TyKind)| (v.0@, v.1))
}

/// `names`, each with the type `ty`.
pub open spec fn typed(names: Seq<Seq<char>>, ty: TyKind) -> Seq<(Seq<char>, TyKind)> {
    names.map_values(|n: Seq<char>| (n, ty))
}

impl TemplateVars {
    /// No template variables yet.
    pub fn new(split_count: usize, ty: TyKind) -> (r: TemplateVars)
        ensures
            r@ == Seq::<(Seq<char>, TyKind)>::empty(),
            r.split_count == split_count,
            r.ty == ty,
    {
        let r = TemplateVars { split_count, ty, idents: Vec::new() };
        assert(r@ =~= seq![]);
        r
    }

    /// Declares the template variable whose name is `name` and the number of the
    /// template behind it.
    pub fn declare(&mut self, tcx: &mut TyCtx, name: String) -> (decl: VarDecl)
        requires
            old(self).split_count < usize::MAX,
        ensures
            decl.name@ == name@ + decimal((old(self).split_count + 1) as nat),
            decl.model() == template_var(old(self).ty),
            final(tcx)@ == old(tcx)@.insert(decl.name@, template_var(old(self).ty)),
            final(self)@ == old(self)@.push((decl.name@, old(self).ty)),
            final(self).split_count == old(self).split_count,
            final(self).ty == old(self).ty,
    {
        let mut full_name = name;
        push_decimal(&mut full_name, self.split_count + 1);
        let ident = Ident { name: full_name };
        let ghost before = self@;
        tcx.declare(
            DeclKind::VarDecl(
                VarDecl { name: ident.copy(), ty: self.ty, kind: VarKind::Input, range: None },
            ),
        );
        self.idents.push((ident.copy(), self.ty));
        assert(self@ =~= before.push((ident@, self.ty)));
        VarDecl { name: ident, ty: self.ty, kind: VarKind::Input, range: None }
    }
}

/// The names of declarations.
pub open spec fn decl_names(decls: Seq<VarDecl>) -> Seq<Seq<char>> {
    decls.map_values(|d: VarDecl| d.name@)
}

/// Whether each of `names` is declared as a variable.
pub open spec fn are_vars(ctx: Map<Seq<char>, DeclModel>, names: Seq<Seq<char>>) -> bool {
    forall|i: int|
        0 <= i < names.len() ==> ctx.dom().contains(#[trigger] names[i]) && ctx[names[i]] is Var
}

/// The variable `name`, cast to the type `ty` where it has another.
pub open spec fn var_as(ctx: Map<Seq<char>, DeclModel>, name: Seq<char>, ty: TyKind) -> Term {
    as_type(Term::var(name, ctx[name]->ty), ty)
}

/// The variables `names`, cast to the type `ty` where they have another.
pub open spec fn vars_as(
    ctx: Map<Seq<char>, DeclModel>,
    names: Seq<Seq<char>>,
    ty: TyKind,
) -> Seq<Term> {
    names.map_values(|n: Seq<char>| var_as(ctx, n, ty))
}

/// Declaring template variables leaves variables variables.
pub proof fn lemma_declaring_vars(
    ctx: Map<Seq<char>, DeclModel>,
    names: Seq<Seq<char>>,
    ty: TyKind,
    vars: Seq<Seq<char>>,
)
    requires
        are_vars(ctx, vars),
    ensures
        are_vars(declaring(ctx, names, ty), vars),
    decreases names.len(),
{
    if names.len() > 0 {
        lemma_declaring_vars(ctx, names.drop_last(), ty, vars);
    }
}

/// Declaring one list of names after another is declaring both.
pub proof fn lemma_declaring_add(
    ctx: Map<Seq<char>, DeclModel>,
    a: Seq<Seq<char>>,
    b: Seq<Seq<char>>,
    ty: TyKind,
)
    ensures
        declaring(declaring(ctx, a, ty), b, ty) == declaring(ctx, a + b, ty),
    decreases b.len(),
{
    if b.len() == 0 {
        assert(a + b =~= a);
    } else {
        lemma_declaring_add(ctx, a, b.drop_last(), ty);
        assert((a + b).drop_last() =~= a + b.drop_last());
    }
}

/// `expr` as an expression of the type `ty`.
pub(crate) fn cast_to(builder: &ExprBuilder, ty: TyKind, expr: Expr) -> (r: Expr)
    ensures
        r@ == as_type(expr@, ty),
{
    proof {
        lemma_view(&*expr);
    }
    if expr.ty != Some(ty) {
        builder.cast(ty, expr)
    } else {
        expr
    }
}

/// The type of numbers that were cut off at zero.
pub(crate) fn clamp_type_of(signed: TyKind) -> (r: TyKind)
    ensures
        r == clamp_type(signed),
{
    if signed == TyKind::Int || signed == TyKind::UInt {
        TyKind::UInt
    } else {
        TyKind::UReal
    }
}

/// The program variables as expressions of the type `ty`.
fn cast_vars(
    builder: &ExprBuilder,
    tcx: &TyCtx,
    program_var_decls: &[VarDecl],
    ty: TyKind,
) -> (vars: Vec<Expr>)
    requires
        are_vars(tcx@, decl_names(program_var_decls@)),
    ensures
        terms(vars@) == vars_as(tcx@, decl_names(program_var_decls@), ty),
{
    let mut vars: Vec<Expr> = Vec::new();
    let ghost names = decl_names(program_var_decls@);
    for i in 0..program_var_decls.len()
        invariant
            names == decl_names(program_var_decls@),
            are_vars(tcx@, names),
            terms(vars@) =~= vars_as(tcx@, names.take(i as int), ty),
    {
        let name = &program_var_decls[i].name;
        assert(names[i as int] == name@);
        let v = cast_to(builder, ty, builder.var(name, tcx));
        assert(v@ == var_as(tcx@, names[i as int], ty));
        let ghost before = terms(vars@);
        vars.push(v);
        assert(terms(vars@) =~= before.push(v@));
        assert(vars_as(tcx@, names.take(i + 1), ty) =~= vars_as(
            tcx@,
            names.take(i as int),
            ty,
        ).push(v@));
    }
    assert(names.take(names.len() as int) =~= names);
    vars
}

/// What the name of the coefficient of a monomial holds before the number of the
/// template.
fn coefficient_name(synth_name: &Ident, name_addon: &str, degree: usize, idx: usize) -> (s: String)
    ensures
        s@ == "tvar_"@ + synth_name@ + "_"@ + name_addon@ + "_deg"@ + decimal(degree as nat)
            + "_m"@ + decimal(idx as nat),
{
    let mut s = "tvar_".to_owned();
    s.append(&synth_name.name);
    s.append("_");
    s.append(name_addon);
    s.append("_deg");
    push_decimal(&mut s, degree);
    s.append("_m");
    push_decimal(&mut s, idx);
    s
}

/// What the name of the constant holds before the number of the template.
fn constant_name(synth_name: &Ident, name_addon: &str) -> (s: String)
    ensures
        s@ == "tvar_"@ + synth_name@ + "_"@ + name_addon@ + "_const"@,
{
    let mut s = "tvar_".to_owned();
    s.append(&synth_name.name);
    s.append("_");
    s.append(name_addon);
    s.append("_const");
    s
}

/// One summand more.
fn add_term(builder: &ExprBuilder, ty: TyKind, poly: Option<Expr>, term: Expr, Ghost(
    before,
): Ghost<Seq<Term>>) -> (r: Expr)
    requires
        poly is None <==> before.len() == 0,
        poly matches Some(p) ==> p@ == sum(ty, before),
    ensures
        r@ == sum(ty, before.push(term@)),
{
    assert(before.push(term@).drop_last() =~= before);
    match poly {
        None => term,
        Some(acc) => builder.binary(BinOpKind::Add, ty, acc, term),
    }
}

/// A polynomial over the program variables, up to the degree `max_degree`, with
/// new template variables for coefficients.
pub fn build_polynomial(
    name_addon: &str,
    synth_name: &Ident,
    builder: &ExprBuilder,
    tcx: &mut TyCtx,
    template_vars: &mut TemplateVars,
    program_var_decls: &[VarDecl],
    max_degree: usize,
) -> (r: Expr)
    requires
        old(template_vars).split_count < usize::MAX,
        are_vars(old(tcx)@, decl_names(program_var_decls@)),
    ensures
        ({
            let ty = old(template_vars).ty;
            let c = Coefficients {
                synth: synth_name@,
                addon: name_addon@,
                suffix: (old(template_vars).split_count + 1) as nat,
                ty,
            };
            let vars = vars_as(old(tcx)@, decl_names(program_var_decls@), ty);
            let names = c.names(vars.len() as int, max_degree as nat);
            &&& r@ == c.polynomial(vars, max_degree as nat)
            &&& final(tcx)@ == declaring(old(tcx)@, names, ty)
            &&& final(template_vars)@ == old(template_vars)@ + typed(names, ty)
        }),
        final(template_vars).split_count == old(template_vars).split_count,
        final(template_vars).ty == old(template_vars).ty,
{
    let ty = template_vars.ty;
    let vars = cast_vars(builder, tcx, program_var_decls, ty);
    let ghost vs = terms(vars@);
    let ghost n = vs.len() as int;
    let ghost c = Coefficients {
        synth: synth_name@,
        addon: name_addon@,
        suffix: (template_vars.split_count + 1) as nat,
        ty,
    };
    let ghost ctx = tcx@;
    let ghost before = template_vars@;
    let mut poly: Option<Expr> = None;
    let mut degree: usize = 0;
    let ghost mut summands: Seq<Term> = seq![];
    let ghost mut names: Seq<Seq<char>> = seq![];
    assert(before + typed(names, ty) =~= before);
    while degree < max_degree
        invariant
            degree <= max_degree,
            vs == terms(vars@),
            n == vs.len(),
            template_vars.split_count < usize::MAX,
            template_vars.split_count == old(template_vars).split_count,
            template_vars.ty == ty,
            c == (Coefficients {
                synth: synth_name@,
                addon: name_addon@,
                suffix: (template_vars.split_count + 1) as nat,
                ty,
            }),
            summands == c.terms_upto(vs, degree as nat),
            names == c.names_upto(n, degree as nat),
            tcx@ == declaring(ctx, names, ty),
            template_vars@ == before + typed(names, ty),
            poly is None <==> summands.len() == 0,
            poly matches Some(p) ==> p@ == sum(ty, summands),
        decreases max_degree - degree,
    {
        degree = degree + 1;
        let mut monos: Vec<Vec<Expr>> = Vec::new();
        let mut current: Vec<Expr> = Vec::new();
        gen_monomials(&vars, degree, 0, &mut current, &mut monos);
        let ghost ms = monomials(vs, degree as nat);
        let ghost all_terms = c.degree_terms(vs, degree as nat);
        let ghost all_names = c.degree_names(n, degree as nat);
        let ghost old_summands = summands;
        let ghost old_names = names;
        proof {
            assert(terms(current@) =~= seq![]);
            let lists = index_lists(n, degree as nat, 0);
            assert forall|k: int| 0 <= k < lists.len() implies #[trigger] completions(
                vs,
                seq![],
                lists,
            )[k] == ms[k] by {
                assert(Seq::<Term>::empty() + picked(vs, lists[k]) =~= picked(vs, lists[k]));
            }
            assert(term_lists(monos@) =~= ms);
            assert(old_summands + all_terms.take(0) =~= old_summands);
            assert(old_names + all_names.take(0) =~= old_names);
        }
        for idx in 0..monos.len()
            invariant
                0 < degree <= max_degree,
                n == vs.len(),
                template_vars.split_count < usize::MAX,
                template_vars.split_count == old(template_vars).split_count,
                template_vars.ty == ty,
                c == (Coefficients {
                    synth: synth_name@,
                    addon: name_addon@,
                    suffix: (template_vars.split_count + 1) as nat,
                    ty,
                }),
                ms == monomials(vs, degree as nat),
                term_lists(monos@) == ms,
                all_terms == c.degree_terms(vs, degree as nat),
                all_names == c.degree_names(n, degree as nat),
                summands == old_summands + all_terms.take(idx as int),
                names == old_names + all_names.take(idx as int),
                tcx@ == declaring(ctx, names, ty),
                template_vars@ == before + typed(names, ty),
                poly is None <==> summands.len() == 0,
                poly matches Some(p) ==> p@ == sum(ty, summands),
        {
            proof {
                crate::monomials::lemma_index_lists_sound(n, degree as nat, 0, idx as int);
                assert(terms(monos@[idx as int]@) == ms[idx as int]);
            }
            let prod = multiply_all(builder, &ty, &monos[idx]);
            let coeff_name = coefficient_name(synth_name, name_addon, degree, idx);
            let coeff_decl = template_vars.declare(tcx, coeff_name);
            let coeff = builder.var(&coeff_decl.name, tcx);
            let term = builder.binary(BinOpKind::Mul, ty, coeff, prod);
            assert(coeff_decl.name@ =~= all_names[idx as int]);
            assert(term@ == all_terms[idx as int]);
            let sum_expr = add_term(builder, ty, poly, term, Ghost(summands));
            poly = Some(sum_expr);
            proof {
                let name = coeff_decl.name@;
                assert(names.push(name).drop_last() =~= names);
                assert(before + typed(names.push(name), ty) =~= (before + typed(names, ty)).push(
                    (name, ty),
                ));
                assert(all_names.take(idx + 1) =~= all_names.take(idx as int).push(name));
                assert(all_terms.take(idx + 1) =~= all_terms.take(idx as int).push(term@));
                assert(old_names + all_names.take(idx + 1) =~= names.push(name));
                assert(old_summands + all_terms.take(idx + 1) =~= summands.push(term@));
                names = names.push(name);
                summands = summands.push(term@);
            }
        }
        proof {
            assert(all_names.take(all_names.len() as int) =~= all_names);
            assert(all_terms.take(all_terms.len() as int) =~= all_terms);
        }
    }
    let const_decl = template_vars.declare(tcx, constant_name(synth_name, name_addon));
    let constant = builder.var(&const_decl.name, tcx);
    proof {
        let name = const_decl.name@;
        assert(name =~= c.constant());
        assert(names.push(name).drop_last() =~= names);
        assert(before + typed(names.push(name), ty) =~= (before + typed(names, ty)).push(
            (name, ty),
        ));
    }
    add_term(builder, ty, poly, constant, Ghost(summands))
}

/// A polynomial over the program variables, as [`build_polynomial`] makes it,
/// cut off at zero and cast to the output type.
pub fn build_polynomial_combination(
    name_addon: &str,
    synth_name: &Ident,
    builder: &ExprBuilder,
    tcx: &mut TyCtx,
    template_vars: &mut TemplateVars,
    program_var_decls: &[VarDecl],
    output_type: TyKind,
    max_degree: usize,
) -> (r: Expr)
    requires
        old(template_vars).split_count < usize::MAX,
        are_vars(old(tcx)@, decl_names(program_var_decls@)),
    ensures
        ({
            let ty = old(template_vars).ty;
            let c = Coefficients {
                synth: synth_name@,
                addon: name_addon@,
                suffix: (old(template_vars).split_count + 1) as nat,
                ty,
            };
            let vars = vars_as(old(tcx)@, decl_names(program_var_decls@), ty);
            let names = c.names(vars.len() as int, max_degree as nat);
            &&& r@ == c.combination(vars, max_degree as nat, output_type)
            &&& final(tcx)@ == declaring(old(tcx)@, names, ty)
            &&& final(template_vars)@ == old(template_vars)@ + typed(names, ty)
        }),
        final(template_vars).split_count == old(template_vars).split_count,
        final(template_vars).ty == old(template_vars).ty,
{
    let ty = template_vars.ty;
    let poly = build_polynomial(
        name_addon,
        synth_name,
        builder,
        tcx,
        template_vars,
        program_var_decls,
        max_degree,
    );
    let clamp_ty = clamp_type_of(ty);
    let cond = builder.binary(BinOpKind::Ge, TyKind::Bool, share(&poly), builder.zero_lit(ty));
    let clamped = builder.call(clamp_ty, "clamp_with_zero", poly);
    let expr = builder.ite(clamp_ty, cond, clamped, builder.zero_lit(clamp_ty));
    cast_to(builder, output_type, expr)
}

/// A quotient of two polynomials over the program variables, as
/// [`build_polynomial`] makes them, cut off at zero and cast to the output type.
/// Where the divisor is not greater than zero, the quotient is the dividend.
pub fn build_rational_combination(
    name_addon: &str,
    synth_name: &Ident,
    builder: &ExprBuilder,
    tcx: &mut TyCtx,
    template_vars: &mut TemplateVars,
    program_var_decls: &[VarDecl],
    output_type: TyKind,
    max_degree: usize,
) -> (r: Expr)
    requires
        old(template_vars).split_count < usize::MAX,
        are_vars(old(tcx)@, decl_names(program_var_decls@)),
    ensures
        ({
            let ty = old(template_vars).ty;
            let num = Coefficients {
                synth: synth_name@,
                addon: name_addon@ + "_num"@,
                suffix: (old(template_vars).split_count + 1) as nat,
                ty,
            };
            let den = Coefficients { addon: name_addon@ + "_den"@, ..num };
            let vars = vars_as(old(tcx)@, decl_names(program_var_decls@), ty);
            let n = vars.len() as int;
            let num_names = num.names(n, max_degree as nat);
            let den_names = den.names(n, max_degree as nat);
            let mid = declaring(old(tcx)@, num_names, ty);
            let mid_vars = vars_as(mid, decl_names(program_var_decls@), ty);
            &&& r@ == as_type(
                quotient(
                    ty,
                    num.polynomial(vars, max_degree as nat),
                    den.polynomial(mid_vars, max_degree as nat),
                ),
                output_type,
            )
            &&& final(tcx)@ == declaring(old(tcx)@, num_names + den_names, ty)
            &&& final(template_vars)@ == old(template_vars)@ + typed(num_names + den_names, ty)
        }),
        final(template_vars).split_count == old(template_vars).split_count,
        final(template_vars).ty == old(template_vars).ty,
{
    let ty = template_vars.ty;
    let ghost ctx = tcx@;
    let ghost before = template_vars@;
    let ghost vars = vars_as(ctx, decl_names(program_var_decls@), ty);
    let ghost num = Coefficients {
        synth: synth_name@,
        addon: name_addon@ + "_num"@,
        suffix: (template_vars.split_count + 1) as nat,
        ty,
    };
    let ghost den = Coefficients { addon: name_addon@ + "_den"@, ..num };
    let ghost num_names = num.names(vars.len() as int, max_degree as nat);
    let ghost den_names = den.names(vars.len() as int, max_degree as nat);

    let mut num_addon = name_addon.to_owned();
    num_addon.append("_num");
    let numerator = build_polynomial(
        &num_addon,
        synth_name,
        builder,
        tcx,
        template_vars,
        program_var_decls,
        max_degree,
    );
    proof {
        lemma_declaring_vars(ctx, num_names, ty, decl_names(program_var_decls@));
    }
    let mut den_addon = name_addon.to_owned();
    den_addon.append("_den");
    let denominator = build_polynomial(
        &den_addon,
        synth_name,
        builder,
        tcx,
        template_vars,
        program_var_decls,
        max_degree,
    );
    proof {
        lemma_declaring_add(ctx, num_names, den_names, ty);
        assert(before + typed(num_names, ty) + typed(den_names, ty) =~= before + typed(
            num_names + den_names,
            ty,
        ));
    }
    let positive = builder.binary(
        BinOpKind::Gt,
        TyKind::Bool,
        share(&denominator),
        builder.zero_lit(ty),
    );
    let divisor = builder.ite(ty, positive, denominator, builder.one_lit(ty));
    let ratio = builder.binary(BinOpKind::Div, ty, numerator, divisor);
    let clamped = builder.call(clamp_type_of(ty), "clamp_with_zero", ratio);
    cast_to(builder, output_type, clamped)
}

} // verus!
