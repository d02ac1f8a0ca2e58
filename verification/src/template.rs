//! Templates: piecewise polynomials with unknown coefficients, for functions in a
//! verification condition.

use vstd::prelude::*;

use crate::ast::{lemma_view, share, terms, Expr, ExprBuilder, Ident, Term, TyKind};
use crate::calls::{all_entries, call_maps, collect_call_var_param_maps};
use crate::collections::{
    entries_of, lemma_put_lookup, lookup, mapping_insert, mapping_new, names_get_index, names_len,
    names_of, put, Entries, Mapping,
};
use crate::conditions::{
    are_conditions, collect_relevant_bool_conditions, conditions_at, explained,
    lemma_all_conditions, sites,
};
use crate::decls::{DeclKind, DeclModel, Param, Range, TyCtx, VarDecl, VarKind};
use crate::functions::FuncEntry;
use crate::guards::{
    explore, explore_boolean_assignments, lemma_checks_bounded, lemma_explore_stable, Exploration,
};
use crate::pieces::{
    assemble_piecewise_expression, assembled, lemma_assembled_queries, Assembly, Shape,
};
use crate::polynomial::{
    are_vars, clamp_type, decl_names, declaring, lemma_declaring_vars, sum, typed, typed_names,
    TemplateVars,
};
use crate::regions::{get_fix_region_splits, ranged, region_splits};
use crate::semantics::lemma_view_well_formed;
use crate::solver::{asked, lemma_asked_add, SatOracle};
use crate::substitution::{
    collect_program_vars, free_vars, lemma_resolved_without_substs, resolved, subst_from_mapping,
    without_substs,
};

verus! {

/// How templates are to be built.
#[derive(Clone, Copy, PartialEq, Eq, Structural, Debug)]
pub struct SynthOptions {
    /// Whether coefficients have the type of the function, and not a signed one.
    pub unsigned_coefficients: bool,
    /// The degree of the polynomials; 1 where none is given.
    pub max_degree: Option<usize>,
}

/// The type of the function `synth`.
pub open spec fn output_of(ctx: Map<Seq<char>, DeclModel>, synth: Seq<char>) -> TyKind {
    if ctx.dom().contains(synth) && ctx[synth] is Func {
        ctx[synth]->output
    } else {
        TyKind::EUReal
    }
}

/// The type of the coefficients for a function of the type `output`.
pub open spec fn coefficient_type(options: SynthOptions, output: TyKind) -> TyKind {
    if options.unsigned_coefficients {
        output
    } else if output == TyKind::UInt {
        TyKind::Int
    } else {
        TyKind::Real
    }
}

/// The names of parameters.
pub open spec fn param_names(params: Seq<Param>) -> Seq<Seq<char>> {
    params.map_values(|p: Param| p.name@)
}

/// The variables of the given names, with the types that they are declared with.
pub open spec fn declared_vars(ctx: Map<Seq<char>, DeclModel>, names: Seq<Seq<char>>) -> Seq<Term> {
    names.map_values(|n: Seq<char>| Term::var(n, ctx[n]->ty))
}

/// The parameters that a polynomial can be over: those that are not truth values.
pub open spec fn numeric_params(params: Seq<Param>) -> Seq<Param>
    decreases params.len(),
{
    if params.len() == 0 {
        seq![]
    } else if params.last().ty != TyKind::Bool {
        numeric_params(params.drop_last()).push(params.last())
    } else {
        numeric_params(params.drop_last())
    }
}

/// The parameters that have a range, with it.
pub open spec fn ranged_params(ctx: Map<Seq<char>, DeclModel>, params: Seq<Param>) -> Seq<
    (Term, Range),
>
    decreases params.len(),
{
    if params.len() == 0 {
        seq![]
    } else {
        let before = ranged_params(ctx, params.drop_last());
        let p = params.last();
        match p.range {
            Some(range) => before.push((Term::var(p.name@, ctx[p.name@]->ty), range)),
            None => before,
        }
    }
}

/// The shape of the template for the function `synth`.
pub open spec fn template_shape(
    options: SynthOptions,
    synth: Seq<char>,
    inputs: Seq<Param>,
    ctx: Map<Seq<char>, DeclModel>,
    split_count: nat,
) -> Shape {
    let output = output_of(ctx, synth);
    Shape {
        synth,
        suffix: split_count + 1,
        ty: coefficient_type(options, output),
        output,
        max_degree: match options.max_degree {
            Some(d) => d as nat,
            None => 1,
        },
        params: param_names(numeric_params(inputs)),
    }
}

/// `conds`, or the one condition that always holds where there are none.
pub open spec fn or_true(conds: Seq<Term>) -> Seq<Term> {
    if conds.len() == 0 {
        seq![Term::boolean(true)]
    } else {
        conds
    }
}

/// Each of `names` that is among `params`, with the variable it is declared as.
pub open spec fn own_entries(
    names: Seq<Seq<char>>,
    params: Seq<Seq<char>>,
    ctx: Map<Seq<char>, DeclModel>,
) -> Entries
    decreases names.len(),
{
    if names.len() == 0 {
        seq![]
    } else {
        let before = own_entries(names.drop_last(), params, ctx);
        let x = names.last();
        if params.contains(x) {
            put(before, x, Term::var(x, ctx[x]->ty))
        } else {
            before
        }
    }
}

/// `t` with the variables that are among `params` as they are declared.
pub open spec fn with_own_vars(
    t: Term,
    params: Seq<Seq<char>>,
    ctx: Map<Seq<char>, DeclModel>,
) -> Term {
    resolved(t, own_entries(free_vars(t), params, ctx))
}

/// The exploration of the conditions, with the answers from the `at`th on.
pub open spec fn template_guards(conds: Seq<Term>, answers: Seq<bool>, at: nat) -> Exploration {
    explore(conds, Term::boolean(true), answers, at)
}

/// The pieces for the guards that the conditions come to and the splits, with the
/// answers from the `at`th on.
pub open spec fn template_pieces(
    shape: Shape,
    conds: Seq<Term>,
    splits: Seq<Term>,
    answers: Seq<bool>,
    at: nat,
    ctx: Map<Seq<char>, DeclModel>,
) -> Assembly {
    let e = template_guards(conds, answers, at);
    assembled(
        shape,
        e.guards,
        splits,
        answers,
        at + e.queries.len(),
        ctx,
        e.guards.len() * splits.len(),
    )
}

/// A template: the expression, its coefficients with their types, how many pairs
/// of guards and splits it was made from, and how many checks it took.
pub type Template = (Expr, Vec<(Ident, TyKind)>, usize, usize);

/// Whether `r` is the template for the given conditions.
pub open spec fn is_template(
    r: Option<Template>,
    shape: Shape,
    conds: Seq<Term>,
    splits: Seq<Term>,
    answers: Seq<bool>,
    at: nat,
    ctx: Map<Seq<char>, DeclModel>,
) -> bool {
    let e = template_guards(conds, answers, at);
    let a = template_pieces(shape, conds, splits, answers, at, ctx);
    match r {
        None => a.pieces.len() == 0,
        Some((expr, idents, pairs, checks)) => {
            &&& a.pieces.len() > 0
            &&& expr@ == with_own_vars(sum(clamp_type(shape.ty), a.pieces), shape.params, ctx)
            &&& without_substs(expr@)
            &&& typed_names(idents@) == typed(a.names, shape.ty)
            &&& pairs == e.guards.len() * splits.len()
            &&& checks == e.checks + e.guards.len() * splits.len()
        },
    }
}

/// The type of a function that a definition is to be found for.
fn output_type_of(tcx: &TyCtx, synth_name: &Ident) -> (r: TyKind)
    ensures
        r == output_of(tcx@, synth_name@),
{
    match tcx.get(synth_name) {
        Some(DeclKind::FuncDecl(func)) => func.output,
        _ => TyKind::EUReal,
    }
}

/// The declarations of the parameters that are not truth values.
fn numeric_decls(inputs: &Vec<Param>) -> (r: Vec<VarDecl>)
    ensures
        decl_names(r@) == param_names(numeric_params(inputs@)),
        r@.len() == numeric_params(inputs@).len(),
        forall|i: int| 0 <= i < r@.len() ==> (#[trigger] r@[i]).range == numeric_params(
            inputs@,
        )[i].range,
{
    let mut r: Vec<VarDecl> = Vec::new();
    let ghost all = inputs@;
    assert(all.take(0) =~= seq![]);
    assert(decl_names(r@) =~= param_names(numeric_params(all.take(0))));
    for i in 0..inputs.len()
        invariant
            all == inputs@,
            r@.len() == numeric_params(all.take(i as int)).len(),
            decl_names(r@) == param_names(numeric_params(all.take(i as int))),
            forall|j: int| 0 <= j < r@.len() ==> (#[trigger] r@[j]).range == numeric_params(
                all.take(i as int),
            )[j].range,
    {
        let ghost before = decl_names(r@);
        assert(all.take(i + 1).drop_last() =~= all.take(i as int));
        let vardecl = VarDecl::from_param(&inputs[i], VarKind::Input);
        if vardecl.ty != TyKind::Bool {
            r.push(vardecl);
            assert(decl_names(r@) =~= before.push(vardecl.name@));
            assert(param_names(numeric_params(all.take(i + 1))) =~= before.push(vardecl.name@));
        }
    }
    assert(all.take(all.len() as int) =~= all);
    r
}

/// The parameters as variables.
fn param_vars_of(inputs: &Vec<Param>, builder: &ExprBuilder, tcx: &TyCtx) -> (r: Vec<Expr>)
    requires
        are_vars(tcx@, param_names(inputs@)),
    ensures
        terms(r@) == declared_vars(tcx@, param_names(inputs@)),
{
    let mut r: Vec<Expr> = Vec::new();
    let ghost names = param_names(inputs@);
    for i in 0..inputs.len()
        invariant
            names == param_names(inputs@),
            are_vars(tcx@, names),
            terms(r@) =~= declared_vars(tcx@, names.take(i as int)),
    {
        assert(names[i as int] == inputs@[i as int].name@);
        let v = builder.var(&inputs[i].name, tcx);
        let ghost before = terms(r@);
        r.push(v);
        assert(terms(r@) =~= before.push(v@));
        assert(declared_vars(tcx@, names.take(i + 1)) =~= before.push(v@));
    }
    assert(names.take(names.len() as int) =~= names);
    r
}

/// The variables that have a range, with it.
fn ranged_vars_of(
    decls: &Vec<VarDecl>,
    builder: &ExprBuilder,
    tcx: &TyCtx,
    Ghost(params): Ghost<Seq<Param>>,
) -> (r: Vec<(Expr, Range)>)
    requires
        are_vars(tcx@, decl_names(decls@)),
        decl_names(decls@) == param_names(params),
        decls@.len() == params.len(),
        forall|i: int| 0 <= i < decls@.len() ==> (#[trigger] decls@[i]).range == params[i].range,
    ensures
        ranged(r@) == ranged_params(tcx@, params),
        forall|i: int| 0 <= i < r@.len() ==> (#[trigger] r@[i]).0.ty is Some,
{
    let mut r: Vec<(Expr, Range)> = Vec::new();
    assert(params.take(0) =~= seq![]);
    assert(ranged(r@) =~= seq![]);
    for i in 0..decls.len()
        invariant
            are_vars(tcx@, decl_names(decls@)),
            decl_names(decls@) == param_names(params),
            decls@.len() == params.len(),
            forall|j: int|
                0 <= j < decls@.len() ==> (#[trigger] decls@[j]).range == params[j].range,
            ranged(r@) == ranged_params(tcx@, params.take(i as int)),
            forall|j: int| 0 <= j < r@.len() ==> (#[trigger] r@[j]).0.ty is Some,
    {
        let ghost before = ranged(r@);
        proof {
            assert(params.take(i + 1).drop_last() =~= params.take(i as int));
            assert(decl_names(decls@)[i as int] == decls@[i as int].name@);
            assert(param_names(params)[i as int] == params[i as int].name@);
        }
        if let Some(range) = decls[i].range {
            let v = builder.var(&decls[i].name, tcx);
            proof {
                lemma_view(&*v);
            }
            r.push((v, range));
            assert(ranged(r@) =~= before.push((v@, range)));
        }
    }
    assert(params.take(params.len() as int) =~= params);
    r
}

/// The declarations as variables.
fn decl_vars(decls: &Vec<VarDecl>, builder: &ExprBuilder, tcx: &TyCtx) -> (r: Vec<Expr>)
    requires
        are_vars(tcx@, decl_names(decls@)),
    ensures
        terms(r@) == declared_vars(tcx@, decl_names(decls@)),
{
    let mut r: Vec<Expr> = Vec::new();
    let ghost names = decl_names(decls@);
    for i in 0..decls.len()
        invariant
            names == decl_names(decls@),
            are_vars(tcx@, names),
            terms(r@) =~= declared_vars(tcx@, names.take(i as int)),
    {
        assert(names[i as int] == decls@[i as int].name@);
        let v = builder.var(&decls[i].name, tcx);
        let ghost before = terms(r@);
        r.push(v);
        assert(terms(r@) =~= before.push(v@));
        assert(declared_vars(tcx@, names.take(i + 1)) =~= before.push(v@));
    }
    assert(names.take(names.len() as int) =~= names);
    r
}

/// The place of the first declaration of the name `x`.
fn position_of(decls: &Vec<VarDecl>, x: &str) -> (r: Option<usize>)
    ensures
        r is Some <==> decl_names(decls@).contains(x@),
        r matches Some(i) ==> i < decls@.len() && decl_names(decls@)[i as int] == x@,
{
    let ghost names = decl_names(decls@);
    let name = Ident::new(x);
    for i in 0..decls.len()
        invariant
            names == decl_names(decls@),
            name@ == x@,
            forall|j: int| 0 <= j < i ==> names[j] != x@,
    {
        assert(names[i as int] == decls@[i as int].name@);
        if decls[i].name.same(&name) {
            return Some(i);
        }
    }
    None
}

/// What is looked up among own entries is the variable itself.
pub proof fn lemma_own_entries_vars(
    names: Seq<Seq<char>>,
    params: Seq<Seq<char>>,
    ctx: Map<Seq<char>, DeclModel>,
    x: Seq<char>,
)
    ensures
        lookup(own_entries(names, params, ctx), x) matches Some(v) ==> v == Term::var(
            x,
            ctx[x]->ty,
        ),
    decreases names.len(),
{
    if names.len() > 0 {
        let front = names.drop_last();
        let y = names.last();
        lemma_own_entries_vars(front, params, ctx, x);
        if params.contains(y) {
            lemma_put_lookup(own_entries(front, params, ctx), y, Term::var(y, ctx[y]->ty), x);
        }
    }
}

/// `expr` with the variables that are declared by `decls` replaced by `vars`.
fn restore_vars(
    expr: &Expr,
    decls: &Vec<VarDecl>,
    vars: &Vec<Expr>,
    Ghost(ctx): Ghost<Map<Seq<char>, DeclModel>>,
) -> (r: Expr)
    requires
        terms(vars@) == declared_vars(ctx, decl_names(decls@)),
    ensures
        r@ == with_own_vars(expr@, decl_names(decls@), ctx),
        without_substs(r@),
{
    let free = collect_program_vars(expr);
    let ghost names = names_of(free);
    let ghost params = decl_names(decls@);
    let n = names_len(&free);
    let mut mapping: Mapping = mapping_new();
    assert(names.take(0) =~= seq![]);
    for i in 0..n
        invariant
            names == names_of(free),
            n == names.len(),
            params == decl_names(decls@),
            terms(vars@) == declared_vars(ctx, params),
            entries_of(mapping) == own_entries(names.take(i as int), params, ctx),
    {
        assert(names.take(i + 1).drop_last() =~= names.take(i as int));
        if let Some(x) = names_get_index(&free, i) {
            if let Some(k) = position_of(decls, x) {
                assert(terms(vars@).len() == params.len());
                assert(terms(vars@)[k as int] == vars@[k as int]@);
                mapping_insert(&mut mapping, x.clone(), share(&vars[k]));
            }
        }
    }
    assert(names.take(names.len() as int) =~= names);
    proof {
        lemma_view_well_formed(&**expr);
        assert forall|y: Seq<char>| (#[trigger] lookup(
            entries_of(mapping),
            y,
        )) is Some implies without_substs(lookup(entries_of(mapping), y)->0) by {
            lemma_own_entries_vars(names, params, ctx, y);
        }
        lemma_resolved_without_substs(expr@, entries_of(mapping));
    }
    subst_from_mapping(&mapping, expr)
}

/// The guards that the conditions come to, and how many checks found a satisfiable
/// conjunction.
fn satisfiable_guards(conditions: &Vec<Expr>, builder: &ExprBuilder, oracle: &mut SatOracle) -> (r:
    (Vec<Expr>, usize))
    ensures
        ({
            let e = template_guards(
                terms(conditions@),
                final(oracle).answers(),
                old(oracle).taken(),
            );
            &&& terms(r.0@) == e.guards
            &&& r.1 == e.checks
            &&& e.checks <= e.queries.len()
            &&& asked(*old(oracle), *final(oracle), e.queries)
        }),
{
    let mut guards: Vec<Expr> = Vec::new();
    let ghost conds = terms(conditions@);
    let ghost at = oracle.taken();
    let no_guard_yet = builder.bool_lit(true);
    let checks = explore_boolean_assignments(
        0,
        conditions,
        builder,
        oracle,
        no_guard_yet,
        &mut guards,
    );
    proof {
        let e = template_guards(conds, oracle.answers(), at);
        assert(conds.skip(0) =~= conds);
        assert(terms(guards@) =~= e.guards);
        lemma_checks_bounded(conds, Term::boolean(true), oracle.answers(), at);
    }
    (guards, checks)
}

/// The template for a function, from conditions on its parameters: a sum of
/// polynomials with new coefficients, one for each guard and split that can be
/// true together. `None` where there is no such pair.
#[verifier::rlimit(40)]
pub fn build_template_from_conditions(
    options: &SynthOptions,
    synth_name: &Ident,
    synth_val: &FuncEntry,
    bool_exprs: Vec<Expr>,
    builder: &ExprBuilder,
    tcx: &mut TyCtx,
    split_count: usize,
    oracle: &mut SatOracle,
) -> (r: Option<Template>)
    requires
        split_count < usize::MAX,
        are_vars(old(tcx)@, param_names(synth_val.inputs@)),
    ensures
        is_built(
            r,
            template_shape(
                *options,
                synth_name@,
                synth_val.inputs@,
                old(tcx)@,
                split_count as nat,
            ),
            or_true(terms(bool_exprs@)),
            template_splits(synth_val.inputs@, split_count as nat, old(tcx)@),
            old(tcx)@,
            *old(oracle),
            final(tcx)@,
            *final(oracle),
        ),
{
    let ghost ctx = tcx@;
    let ghost start = *oracle;
    let ghost at = oracle.taken();
    let ghost inputs = synth_val.inputs@;
    let ghost shape = template_shape(*options, synth_name@, inputs, ctx, split_count as nat);
    let output_type = output_type_of(tcx, synth_name);
    let signed_type = if options.unsigned_coefficients {
        output_type
    } else if output_type == TyKind::UInt {
        TyKind::Int
    } else {
        TyKind::Real
    };
    let decls = numeric_decls(&synth_val.inputs);
    proof {
        lemma_numeric_vars(ctx, inputs);
    }
    let raw_vars = decl_vars(&decls, builder, tcx);
    let mut conditions = bool_exprs;
    if conditions.len() == 0 {
        conditions.push(builder.bool_lit(true));
        assert(terms(conditions@) =~= seq![Term::boolean(true)]);
    }
    let ghost conds = terms(conditions@);
    assert(conds == or_true(terms(bool_exprs@)));
    let ranged_vars = ranged_vars_of(&decls, builder, tcx, Ghost(numeric_params(inputs)));
    let split_conditions = get_fix_region_splits(&ranged_vars, split_count, builder);
    let ghost splits = terms(split_conditions@);

    let (guards, guard_checks) = satisfiable_guards(&conditions, builder, oracle);
    let ghost mid = *oracle;
    let ghost e = template_guards(conds, mid.answers(), at);
    let mut template_vars = TemplateVars::new(split_count, signed_type);
    let max_degree = match options.max_degree {
        Some(d) => d,
        None => 1,
    };
    let (assembled_expr, pair_checks, _) = assemble_piecewise_expression(
        synth_name,
        &guards,
        &split_conditions,
        builder,
        tcx,
        oracle,
        &mut template_vars,
        &decls,
        output_type,
        max_degree,
    );
    proof {
        let end = *oracle;
        lemma_explore_stable(conds, Term::boolean(true), mid.answers(), end.answers(), at);
        let a = template_pieces(shape, conds, splits, end.answers(), at, ctx);
        lemma_asked_add(start, mid, end, e.queries, a.queries);
        lemma_assembled_queries(
            shape,
            e.guards,
            splits,
            end.answers(),
            mid.taken(),
            ctx,
            e.guards.len() * splits.len(),
        );
        end.lemma_taken_fits();
        assert(Seq::<(Seq<char>, TyKind)>::empty() + typed(a.names, shape.ty) =~= typed(
            a.names,
            shape.ty,
        ));
    }
    match assembled_expr {
        None => None,
        Some(expr) => {
            let restored = restore_vars(&expr, &decls, &raw_vars, Ghost(ctx));
            Some((restored, template_vars.idents, pair_checks, guard_checks + pair_checks))
        },
    }
}

/// The conditions that a template is built from: those of `found` that can be put in
/// terms of the parameters, where there are splits.
pub open spec fn template_conditions(
    found: Seq<Term>,
    synth: Seq<char>,
    inputs: Seq<Param>,
    vc: Term,
    split_count: nat,
    ctx: Map<Seq<char>, DeclModel>,
) -> Seq<Term> {
    or_true(
        if split_count >= 1 {
            explained(found, call_maps(vc, synth, declared_vars(ctx, param_names(inputs))))
        } else {
            seq![]
        },
    )
}

/// The splits that a template is built from.
pub open spec fn template_splits(
    inputs: Seq<Param>,
    split_count: nat,
    ctx: Map<Seq<char>, DeclModel>,
) -> Seq<Term> {
    region_splits(ranged_params(ctx, numeric_params(inputs)), split_count)
}

/// Whether `r` is the template of the given shape, from the given conditions and
/// splits, built in `ctx` with the answers of `before`, which leaves `ctx2` and
/// `after`.
pub open spec fn is_built(
    r: Option<Template>,
    shape: Shape,
    conds: Seq<Term>,
    splits: Seq<Term>,
    ctx: Map<Seq<char>, DeclModel>,
    before: SatOracle,
    ctx2: Map<Seq<char>, DeclModel>,
    after: SatOracle,
) -> bool {
    let (answers, at) = (after.answers(), before.taken());
    let e = template_guards(conds, answers, at);
    let a = template_pieces(shape, conds, splits, answers, at, ctx);
    &&& is_template(r, shape, conds, splits, answers, at, ctx)
    &&& asked(before, after, e.queries + a.queries)
    &&& ctx2 == declaring(ctx, a.names, shape.ty)
}

/// Whether `r` is the template for the function `synth` in the verification
/// condition `vc`, built in `ctx` with the answers of `before`, which leaves `ctx2`
/// and `after`.
pub open spec fn is_template_for(
    r: Option<Template>,
    options: SynthOptions,
    synth: Seq<char>,
    inputs: Seq<Param>,
    vc: Term,
    split_count: nat,
    ctx: Map<Seq<char>, DeclModel>,
    before: SatOracle,
    ctx2: Map<Seq<char>, DeclModel>,
    after: SatOracle,
) -> bool {
    exists|found: Seq<Term>| #[trigger]
        are_conditions(vc, found) && is_built(
            r,
            template_shape(options, synth, inputs, ctx, split_count),
            template_conditions(found, synth, inputs, vc, split_count, ctx),
            template_splits(inputs, split_count, ctx),
            ctx,
            before,
            ctx2,
            after,
        )
}

/// The template for a function in a verification condition, from the conditions
/// in it that can be put in terms of the parameters; from none of them where
/// `split_count` is zero.
pub fn build_template_expression(
    options: &SynthOptions,
    synth_name: &Ident,
    synth_val: &FuncEntry,
    vc_expr: &Expr,
    builder: &ExprBuilder,
    tcx: &mut TyCtx,
    split_count: usize,
    oracle: &mut SatOracle,
) -> (r: Option<Template>)
    requires
        split_count < usize::MAX,
        are_vars(old(tcx)@, param_names(synth_val.inputs@)),
    ensures
        is_template_for(
            r,
            *options,
            synth_name@,
            synth_val.inputs@,
            vc_expr@,
            split_count as nat,
            old(tcx)@,
            *old(oracle),
            final(tcx)@,
            *final(oracle),
        ),
{
    let params = param_vars_of(&synth_val.inputs, builder, tcx);
    let mappings = collect_call_var_param_maps(vc_expr, synth_name, &params);
    let ghost mut found = conditions_at(sites(vc_expr@));
    let bool_exprs = if split_count >= 1 {
        let (found_exprs, _) = collect_relevant_bool_conditions(vc_expr, &mappings);
        proof {
            found = choose|conds: Seq<Term>| #[trigger]
                are_conditions(vc_expr@, conds) && terms(found_exprs@) == explained(
                    conds,
                    all_entries(mappings@),
                );
        }
        found_exprs
    } else {
        proof {
            lemma_all_conditions(vc_expr@);
        }
        let none: Vec<Expr> = Vec::new();
        assert(terms(none@) =~= seq![]);
        none
    };
    assert(are_conditions(vc_expr@, found));
    build_template_from_conditions(
        options,
        synth_name,
        synth_val,
        bool_exprs,
        builder,
        tcx,
        split_count,
        oracle,
    )
}

/// A template takes no more checks than are answered, and building it leaves
/// variables variables.
pub proof fn lemma_template_for(
    r: Option<Template>,
    options: SynthOptions,
    synth: Seq<char>,
    inputs: Seq<Param>,
    vc: Term,
    split_count: nat,
    ctx: Map<Seq<char>, DeclModel>,
    before: SatOracle,
    ctx2: Map<Seq<char>, DeclModel>,
    after: SatOracle,
)
    requires
        is_template_for(
            r,
            options,
            synth,
            inputs,
            vc,
            split_count,
            ctx,
            before,
            ctx2,
            after,
        ),
    ensures
        r matches Some(t) ==> before.taken() + t.3 <= after.taken(),
        before.taken() <= after.taken(),
        forall|names: Seq<Seq<char>>| #[trigger] are_vars(ctx, names) ==> are_vars(ctx2, names),
{
    let shape = template_shape(options, synth, inputs, ctx, split_count);
    let splits = template_splits(inputs, split_count, ctx);
    let (answers, at) = (after.answers(), before.taken());
    let found = choose|found: Seq<Term>| #[trigger]
        are_conditions(vc, found) && is_built(
            r,
            shape,
            template_conditions(found, synth, inputs, vc, split_count, ctx),
            splits,
            ctx,
            before,
            ctx2,
            after,
        );
    let conds = template_conditions(found, synth, inputs, vc, split_count, ctx);
    let e = template_guards(conds, answers, at);
    let a = template_pieces(shape, conds, splits, answers, at, ctx);
    lemma_checks_bounded(conds, Term::boolean(true), answers, at);
    lemma_assembled_queries(
        shape,
        e.guards,
        splits,
        answers,
        at + e.queries.len(),
        ctx,
        e.guards.len() * splits.len(),
    );
    assert forall|names: Seq<Seq<char>>| #[trigger] are_vars(ctx, names) implies are_vars(
        ctx2,
        names,
    ) by {
        lemma_declaring_vars(ctx, a.names, shape.ty, names);
    }
}

/// The parameters that are not truth values are variables where all are.
proof fn lemma_numeric_vars(ctx: Map<Seq<char>, DeclModel>, params: Seq<Param>)
    requires
        are_vars(ctx, param_names(params)),
    ensures
        are_vars(ctx, param_names(numeric_params(params))),
    decreases params.len(),
{
    if params.len() > 0 {
        let front = params.drop_last();
        let names = param_names(params);
        assert forall|i: int| 0 <= i < front.len() implies ctx.dom().contains(
            #[trigger] param_names(front)[i],
        ) && ctx[param_names(front)[i]] is Var by {
            assert(param_names(front)[i] == names[i]);
        }
        lemma_numeric_vars(ctx, front);
        let kept = param_names(numeric_params(front));
        assert(names[params.len() - 1] == params.last().name@);
        if params.last().ty != TyKind::Bool {
            assert(param_names(numeric_params(params)) =~= kept.push(params.last().name@));
        }
    }
}

} // verus!
