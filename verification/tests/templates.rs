use std::rc::Rc;

use indexmap::IndexMap;
use invariant_synthesis::ast::{
    BinOpKind, Expr, ExprBuilder, ExprData, ExprKind, Ident, TyKind, UnOpKind,
};
use invariant_synthesis::decls::{DeclKind, FuncDecl, Param, Range, TyCtx, VarDecl, VarKind};
use invariant_synthesis::functions::{get_synth_functions, FuncEntry, Uninterpreteds};
use invariant_synthesis::guards::explore_boolean_assignments;
use invariant_synthesis::inlining::inline_function;
use invariant_synthesis::monomials::{gen_monomials, multiply_all};
use invariant_synthesis::pieces::assemble_piecewise_expression;
use invariant_synthesis::polynomial::{
    build_polynomial, build_polynomial_combination, build_rational_combination, TemplateVars,
};
use invariant_synthesis::regions::{cartesian_and, get_fix_region_splits};
use invariant_synthesis::smt::render;
use invariant_synthesis::solver::SatOracle;
use invariant_synthesis::substitution::subst_from_mapping;
use invariant_synthesis::synthesis::{
    build_templates, inline_templates, instantiate_templates,
};
use invariant_synthesis::template::{
    build_template_expression, build_template_from_conditions, SynthOptions,
};

fn decl(name: &str, ty: TyKind) -> VarDecl {
    VarDecl { name: Ident::new(name), ty, kind: VarKind::Input, range: None }
}

fn context(vars: &[(&str, TyKind)]) -> TyCtx {
    let mut tcx = TyCtx::new();
    for (name, ty) in vars {
        tcx.declare(DeclKind::VarDecl(decl(name, *ty)));
    }
    tcx
}

fn var(tcx: &TyCtx, name: &str) -> Expr {
    ExprBuilder::new().var(&Ident::new(name), tcx)
}

fn call(f: &str, args: Vec<Expr>, ty: TyKind) -> Expr {
    Rc::new(ExprData { kind: ExprKind::Call(Ident::new(f), args), ty: Some(ty) })
}

fn texts(es: &[Expr]) -> Vec<String> {
    es.iter().map(render).collect()
}

fn param(name: &str, ty: TyKind, range: Option<Range>) -> Param {
    Param { name: Ident::new(name), ty, range }
}

fn names(vars: &[(Ident, TyKind)]) -> Vec<String> {
    vars.iter().map(|(id, _)| id.name.clone()).collect()
}

const PLAIN: SynthOptions = SynthOptions { unsigned_coefficients: false, max_degree: None };

#[test]
fn monomials_are_combinations_with_repetition() {
    let tcx = context(&[("x", TyKind::Real), ("y", TyKind::Real)]);
    let vars = vec![var(&tcx, "x"), var(&tcx, "y")];
    let mut out = Vec::new();
    gen_monomials(&vars, 2, 0, &mut Vec::new(), &mut out);
    let found: Vec<Vec<String>> = out.iter().map(|m| texts(m)).collect();
    assert_eq!(
        found,
        vec![vec!["v.x", "v.x"], vec!["v.x", "v.y"], vec!["v.y", "v.y"]]
    );
    let mut out = Vec::new();
    gen_monomials(&vars, 0, 0, &mut Vec::new(), &mut out);
    assert_eq!(out.len(), 1);
    assert_eq!(out[0].len(), 0);
    let mut out = Vec::new();
    gen_monomials(&vars, 1, 5, &mut Vec::new(), &mut out);
    assert_eq!(out.len(), 0);
    let mut current = vec![var(&tcx, "x"), var(&tcx, "y")];
    let mut out = vec![vec![var(&tcx, "y")]];
    gen_monomials(&vars, 1, 2, &mut current, &mut out);
    assert_eq!(texts(&current), vec!["v.x", "v.y"]);
    assert_eq!(out.len(), 1);
    assert_eq!(texts(&out[0]), vec!["v.y"]);
}

#[test]
fn factors_are_multiplied_from_the_left() {
    let tcx = context(&[("x", TyKind::Real), ("y", TyKind::Real)]);
    let b = ExprBuilder::new();
    let factors = vec![var(&tcx, "x"), var(&tcx, "y"), var(&tcx, "x")];
    assert_eq!(render(&multiply_all(&b, &TyKind::Real, &factors)), "(* (* v.x v.y) v.x)");
    assert_eq!(render(&multiply_all(&b, &TyKind::Real, &[var(&tcx, "y")])), "v.y");
}

#[test]
fn a_polynomial_has_a_coefficient_for_each_monomial() {
    let mut tcx = context(&[("x", TyKind::Real), ("n", TyKind::UInt)]);
    let b = ExprBuilder::new();
    let mut vars = TemplateVars::new(1, TyKind::Real);
    let decls = vec![decl("x", TyKind::Real), decl("n", TyKind::UInt)];
    let poly = build_polynomial("a", &Ident::new("f"), &b, &mut tcx, &mut vars, &decls, 1);
    assert_eq!(
        render(&poly),
        "(+ (+ (* v.tvar_f_a_deg1_m02 v.x) (* v.tvar_f_a_deg1_m12 (to_real v.n))) \
         v.tvar_f_a_const2)"
    );
    assert_eq!(
        names(&vars.idents),
        vec!["tvar_f_a_deg1_m02", "tvar_f_a_deg1_m12", "tvar_f_a_const2"]
    );
    assert_eq!(tcx.var_type(&Ident::new("tvar_f_a_const2")), Some(TyKind::Real));
    assert!(vars.idents.iter().all(|(_, ty)| *ty == TyKind::Real));
}

#[test]
fn a_polynomial_of_degree_zero_is_its_constant() {
    let mut tcx = context(&[("x", TyKind::Real)]);
    let b = ExprBuilder::new();
    let mut vars = TemplateVars::new(0, TyKind::Int);
    let decls = vec![decl("x", TyKind::Real)];
    let poly = build_polynomial("", &Ident::new("g"), &b, &mut tcx, &mut vars, &decls, 0);
    assert_eq!(render(&poly), "v.tvar_g__const1");
}

#[test]
fn a_polynomial_of_degree_two_has_squares() {
    let mut tcx = context(&[("x", TyKind::Real)]);
    let b = ExprBuilder::new();
    let mut vars = TemplateVars::new(0, TyKind::Real);
    let decls = vec![decl("x", TyKind::Real)];
    let poly = build_polynomial("p", &Ident::new("f"), &b, &mut tcx, &mut vars, &decls, 2);
    assert_eq!(
        render(&poly),
        "(+ (+ (* v.tvar_f_p_deg1_m01 v.x) (* v.tvar_f_p_deg2_m01 (* v.x v.x))) \
         v.tvar_f_p_const1)"
    );
}

#[test]
fn a_combination_is_cut_off_at_zero() {
    let mut tcx = context(&[]);
    let b = ExprBuilder::new();
    let mut vars = TemplateVars::new(0, TyKind::Real);
    let comb = build_polynomial_combination(
        "0_0",
        &Ident::new("f"),
        &b,
        &mut tcx,
        &mut vars,
        &vec![],
        TyKind::EUReal,
        1,
    );
    assert_eq!(comb.ty, Some(TyKind::EUReal));
    assert_eq!(
        render(&comb),
        "(ite (>= v.tvar_f_0_0_const1 (/ 0.0 1.0)) (f.clamp_with_zero v.tvar_f_0_0_const1) \
         (/ 0.0 1.0))"
    );
    let mut vars = TemplateVars::new(0, TyKind::Int);
    let comb = build_polynomial_combination(
        "0_0",
        &Ident::new("g"),
        &b,
        &mut tcx,
        &mut vars,
        &vec![],
        TyKind::UInt,
        1,
    );
    assert_eq!(comb.ty, Some(TyKind::UInt));
    assert!(matches!(comb.kind, ExprKind::Ite(_, _, _)));
}

#[test]
fn a_quotient_divides_by_positive_numbers_only() {
    let mut tcx = context(&[]);
    let b = ExprBuilder::new();
    let mut vars = TemplateVars::new(0, TyKind::Real);
    let comb = build_rational_combination(
        "q",
        &Ident::new("f"),
        &b,
        &mut tcx,
        &mut vars,
        &vec![],
        TyKind::UReal,
        3,
    );
    assert_eq!(
        render(&comb),
        "(f.clamp_with_zero (/ v.tvar_f_q_num_const1 (ite (> v.tvar_f_q_den_const1 (/ 0.0 1.0)) \
         v.tvar_f_q_den_const1 (/ 1.0 1.0))))"
    );
    assert_eq!(names(&vars.idents), vec!["tvar_f_q_num_const1", "tvar_f_q_den_const1"]);
}

#[test]
fn ranges_are_cut_into_equal_intervals() {
    let tcx = context(&[("x", TyKind::UInt)]);
    let b = ExprBuilder::new();
    let vars = vec![(var(&tcx, "x"), Range { lower: -1, upper: 4 })];
    assert_eq!(
        texts(&get_fix_region_splits(&vars, 2, &b)),
        vec![
            "(and true (and (> (to_real v.x) (- (/ 1.0 1.0))) (<= (to_real v.x) (/ 3.0 2.0))))",
            "(and true (and (> (to_real v.x) (/ 3.0 2.0)) (<= (to_real v.x) (/ 4.0 1.0))))",
            "(and true (= (to_real v.x) (- (/ 1.0 1.0))))",
        ]
    );
}

#[test]
fn cuts_are_in_lowest_terms() {
    let tcx = context(&[("x", TyKind::Real)]);
    let b = ExprBuilder::new();
    let vars = vec![(var(&tcx, "x"), Range { lower: 1, upper: 3 })];
    let splits = texts(&get_fix_region_splits(&vars, 6, &b));
    assert_eq!(splits.len(), 7);
    assert_eq!(splits[1], "(and true (and (> v.x (/ 4.0 3.0)) (<= v.x (/ 5.0 3.0))))");
    let wide = vec![(var(&tcx, "x"), Range { lower: i64::MIN, upper: i64::MAX })];
    assert_eq!(
        texts(&get_fix_region_splits(&wide, 1, &b))[0],
        "(and true (and (> v.x (- (/ 9223372036854775808.0 1.0))) \
         (<= v.x (/ 9223372036854775807.0 1.0))))"
    );
}

#[test]
fn without_ranges_or_splits_there_is_one_region() {
    let tcx = context(&[("x", TyKind::Real)]);
    let b = ExprBuilder::new();
    assert_eq!(texts(&get_fix_region_splits(&vec![], 3, &b)), vec!["true"]);
    let vars = vec![(var(&tcx, "x"), Range { lower: 0, upper: 1 })];
    assert_eq!(texts(&get_fix_region_splits(&vars, 0, &b)), vec!["true"]);
    let untyped = Rc::new(ExprData { kind: ExprKind::Var(Ident::new("y")), ty: None });
    let vars = vec![(untyped, Range { lower: 0, upper: 1 })];
    assert_eq!(texts(&get_fix_region_splits(&vars, 0, &b)), vec!["true"]);
}

#[test]
fn regions_of_two_variables_are_combined() {
    let tcx = context(&[("x", TyKind::Real), ("y", TyKind::Real)]);
    let b = ExprBuilder::new();
    let vars = vec![
        (var(&tcx, "x"), Range { lower: 0, upper: 1 }),
        (var(&tcx, "y"), Range { lower: 0, upper: 1 }),
    ];
    assert_eq!(get_fix_region_splits(&vars, 2, &b).len(), 9);
    let lists = vec![
        vec![var(&tcx, "x"), var(&tcx, "y")],
        vec![b.bool_lit(false), b.bool_lit(true)],
    ];
    assert_eq!(
        texts(&cartesian_and(&lists, &b)),
        vec![
            "(and (and true v.x) false)",
            "(and (and true v.x) true)",
            "(and (and true v.y) false)",
            "(and (and true v.y) true)",
        ]
    );
    assert_eq!(cartesian_and(&vec![vec![]], &b).len(), 0);
}

#[test]
fn exactly_one_region_holds_at_each_point() {
    let tcx = context(&[("x", TyKind::Real)]);
    let b = ExprBuilder::new();
    let vars = vec![(var(&tcx, "x"), Range { lower: 0, upper: 3 })];
    let regions = get_fix_region_splits(&vars, 2, &b);
    for point in 0..4 {
        let at = b.binary(
            BinOpKind::Eq,
            TyKind::Bool,
            var(&tcx, "x"),
            b.int_lit(point, TyKind::Real),
        );
        let mut oracle = SatOracle::new();
        let holding = regions
            .iter()
            .filter(|r| {
                let both = b.binary(BinOpKind::And, TyKind::Bool, (*r).clone(), at.clone());
                oracle.check_sat(&both)
            })
            .count();
        assert_eq!(holding, 1);
    }
}

#[test]
fn the_solver_answers_and_is_recorded() {
    let tcx = context(&[("x", TyKind::Int)]);
    let b = ExprBuilder::new();
    let x = var(&tcx, "x");
    let gt = b.binary(BinOpKind::Gt, TyKind::Bool, x.clone(), b.int_lit(3, TyKind::Int));
    let lt = b.binary(BinOpKind::Lt, TyKind::Bool, x, b.int_lit(4, TyKind::Int));
    let none = b.binary(BinOpKind::And, TyKind::Bool, gt.clone(), lt);
    let mut oracle = SatOracle::new();
    assert!(oracle.check_sat(&gt));
    assert!(!oracle.check_sat(&none));
    assert_eq!(oracle.recorded(), &vec![true, false]);
    let mut replay = SatOracle::replaying(&vec![false, true]);
    assert!(!replay.check_sat(&gt));
    assert!(replay.check_sat(&none));
    assert!(!replay.check_sat(&none));
    assert_eq!(replay.recorded(), &vec![false, true, false]);
}

#[test]
fn names_with_zero_characters_reach_the_solver() {
    let tcx = context(&[("a\0b|c", TyKind::Bool)]);
    let mut oracle = SatOracle::new();
    assert!(oracle.check_sat(&var(&tcx, "a\0b|c")));
}

fn explore(conds: &Vec<Expr>, oracle: &mut SatOracle) -> (Vec<String>, usize) {
    let b = ExprBuilder::new();
    let mut guards = Vec::new();
    let checks =
        explore_boolean_assignments(0, conds, &b, oracle, b.bool_lit(true), &mut guards);
    (texts(&guards), checks)
}

#[test]
fn unsatisfiable_assignments_are_pruned() {
    let tcx = context(&[("x", TyKind::Int)]);
    let b = ExprBuilder::new();
    let low = b.binary(BinOpKind::Lt, TyKind::Bool, var(&tcx, "x"), b.int_lit(0, TyKind::Int));
    let high = b.binary(BinOpKind::Gt, TyKind::Bool, var(&tcx, "x"), b.int_lit(9, TyKind::Int));
    let mut oracle = SatOracle::new();
    let (guards, checks) = explore(&vec![low, high], &mut oracle);
    assert_eq!(
        guards,
        vec![
            "(and (and true (not (< v.x 0))) (not (> v.x 9)))",
            "(and (and true (not (< v.x 0))) (> v.x 9))",
            "(and (and true (< v.x 0)) (not (> v.x 9)))",
        ]
    );
    assert_eq!(checks, 5);
    assert_eq!(oracle.recorded(), &vec![true, true, true, true, true, false]);
}

#[test]
fn exploration_follows_the_answers() {
    let tcx = context(&[("p", TyKind::Bool), ("q", TyKind::Bool)]);
    let conds = vec![var(&tcx, "p"), var(&tcx, "q")];
    let mut oracle = SatOracle::replaying(&vec![false, true, false, true]);
    let (guards, checks) = explore(&conds, &mut oracle);
    assert_eq!(guards, vec!["(and (and true v.p) v.q)"]);
    assert_eq!(checks, 2);
    assert_eq!(oracle.recorded().len(), 4);
    let mut oracle = SatOracle::replaying(&vec![false, false]);
    let (guards, checks) = explore(&conds, &mut oracle);
    assert_eq!(guards.len(), 0);
    assert_eq!(checks, 0);
    let mut oracle = SatOracle::new();
    let (guards, checks) = explore(&vec![], &mut oracle);
    assert_eq!(guards, vec!["true"]);
    assert_eq!(checks, 0);
}

#[test]
fn pieces_are_kept_for_satisfiable_pairs() {
    let mut tcx = context(&[]);
    let b = ExprBuilder::new();
    let guards = vec![b.bool_lit(true), b.bool_lit(false)];
    let splits = vec![b.bool_lit(false), b.bool_lit(true)];
    let mut vars = TemplateVars::new(3, TyKind::Real);
    let mut oracle = SatOracle::replaying(&vec![false, true, true, false]);
    let (expr, checks, kept) = assemble_piecewise_expression(
        &Ident::new("f"),
        &guards,
        &splits,
        &b,
        &mut tcx,
        &mut oracle,
        &mut vars,
        &vec![],
        TyKind::UReal,
        1,
    );
    assert_eq!(checks, 4);
    assert_eq!(kept, 2);
    assert_eq!(names(&vars.idents), vec!["tvar_f_0_1_const4", "tvar_f_1_0_const4"]);
    let piece = |both: &str, name: &str| {
        format!(
            "(* (ite {both} 1.0 0.0) (ite (>= {name} (/ 0.0 1.0)) (f.clamp_with_zero {name}) \
             (/ 0.0 1.0)))"
        )
    };
    assert_eq!(
        render(&expr.unwrap()),
        format!(
            "(+ {} {})",
            piece("(and true true)", "v.tvar_f_0_1_const4"),
            piece("(and false false)", "v.tvar_f_1_0_const4")
        )
    );
}

#[test]
fn without_satisfiable_pairs_there_is_no_expression() {
    let mut tcx = context(&[]);
    let b = ExprBuilder::new();
    let mut vars = TemplateVars::new(0, TyKind::Real);
    let mut oracle = SatOracle::new();
    let (expr, checks, kept) = assemble_piecewise_expression(
        &Ident::new("f"),
        &vec![b.bool_lit(true)],
        &vec![b.bool_lit(false)],
        &b,
        &mut tcx,
        &mut oracle,
        &mut vars,
        &vec![],
        TyKind::UReal,
        1,
    );
    assert!(expr.is_none());
    assert_eq!((checks, kept), (1, 0));
    assert_eq!(vars.idents.len(), 0);
}

fn function(tcx: &mut TyCtx, name: &str, output: TyKind, inputs: Vec<Param>) -> FuncEntry {
    tcx.declare(DeclKind::FuncDecl(FuncDecl { name: Ident::new(name), output }));
    for p in &inputs {
        tcx.declare(DeclKind::VarDecl(VarDecl::from_param(p, VarKind::Input)));
    }
    FuncEntry { inputs, syn: true }
}

#[test]
fn a_template_without_splits_is_one_polynomial() {
    let mut tcx = context(&[("x", TyKind::UInt)]);
    let b = ExprBuilder::new();
    let entry = function(
        &mut tcx,
        "f",
        TyKind::UReal,
        vec![param("n", TyKind::UInt, None), param("p", TyKind::Bool, None)],
    );
    let x = var(&tcx, "x");
    let cond = b.binary(BinOpKind::Gt, TyKind::Bool, x.clone(), b.zero_lit(TyKind::UInt));
    let bracket = b.unary(UnOpKind::Iverson, TyKind::UReal, cond);
    let f_call = call("f", vec![x, b.bool_lit(true)], TyKind::UReal);
    let vc = b.binary(BinOpKind::Add, TyKind::UReal, bracket, f_call);
    let mut oracle = SatOracle::new();
    let (expr, vars, pairs, checks) = build_template_expression(
        &PLAIN,
        &Ident::new("f"),
        &entry,
        &vc,
        &b,
        &mut tcx,
        0,
        &mut oracle,
    )
    .unwrap();
    let poly = "(+ (* v.tvar_f_0_0_deg1_m01 (to_real v.n)) v.tvar_f_0_0_const1)";
    assert_eq!(
        render(&expr),
        format!(
            "(* (ite (and (and true true) true) 1.0 0.0) (ite (>= {poly} (/ 0.0 1.0)) \
             (f.clamp_with_zero {poly}) (/ 0.0 1.0)))"
        )
    );
    assert_eq!(names(&vars), vec!["tvar_f_0_0_deg1_m01", "tvar_f_0_0_const1"]);
    assert_eq!(pairs, 1);
    // The negation of the one condition cannot be true, so two checks count.
    assert_eq!(checks, 2);
    assert_eq!(oracle.recorded(), &vec![false, true, true]);
}

#[test]
fn a_template_has_a_piece_for_each_guard_and_split() {
    let mut tcx = context(&[("x", TyKind::UInt)]);
    let b = ExprBuilder::new();
    let range = Some(Range { lower: 0, upper: 4 });
    let entry = function(&mut tcx, "f", TyKind::UInt, vec![param("n", TyKind::UInt, range)]);
    let x = var(&tcx, "x");
    let cond = b.binary(BinOpKind::Gt, TyKind::Bool, x.clone(), b.zero_lit(TyKind::UInt));
    let bracket = b.unary(UnOpKind::Iverson, TyKind::UInt, cond);
    let vc = b.binary(
        BinOpKind::Add,
        TyKind::UInt,
        bracket,
        call("f", vec![x], TyKind::UInt),
    );
    let mut oracle = SatOracle::new();
    let (_, vars, pairs, checks) = build_template_expression(
        &PLAIN,
        &Ident::new("f"),
        &entry,
        &vc,
        &b,
        &mut tcx,
        1,
        &mut oracle,
    )
    .unwrap();
    // Not `n > 0` with `n == 0`, and `n > 0` with `0 < n <= 4`.
    assert_eq!(
        names(&vars),
        vec![
            "tvar_f_0_1_deg1_m02",
            "tvar_f_0_1_const2",
            "tvar_f_1_0_deg1_m02",
            "tvar_f_1_0_const2",
        ]
    );
    assert!(vars.iter().all(|(_, ty)| *ty == TyKind::Int));
    assert_eq!(pairs, 4);
    assert_eq!(checks, 6);
    assert_eq!(oracle.recorded(), &vec![true, true, false, true, true, false]);
}

#[test]
fn coefficients_of_a_template_are_distinct() {
    let mut tcx = context(&[]);
    let b = ExprBuilder::new();
    let range = Some(Range { lower: 0, upper: 9 });
    let entry = function(
        &mut tcx,
        "f",
        TyKind::UReal,
        vec![param("m", TyKind::UReal, range), param("n", TyKind::UReal, range)],
    );
    let options = SynthOptions { unsigned_coefficients: true, max_degree: Some(2) };
    let (_, vars, pairs, _) = build_template_from_conditions(
        &options,
        &Ident::new("f"),
        &entry,
        vec![],
        &b,
        &mut tcx,
        11,
        &mut SatOracle::replaying(&vec![true; 400]),
    )
    .unwrap();
    assert_eq!(pairs, 288);
    assert_eq!(vars.len(), 288 * 6);
    let mut all = names(&vars);
    all.sort();
    all.dedup();
    assert_eq!(all.len(), vars.len());
    assert!(vars.iter().all(|(_, ty)| *ty == TyKind::UReal));
}

#[test]
fn a_template_can_fail() {
    let mut tcx = context(&[]);
    let b = ExprBuilder::new();
    let entry = function(&mut tcx, "f", TyKind::UReal, vec![]);
    let mut oracle = SatOracle::replaying(&vec![false, false]);
    let r = build_template_from_conditions(
        &PLAIN,
        &Ident::new("f"),
        &entry,
        vec![b.bool_lit(true)],
        &b,
        &mut tcx,
        1,
        &mut oracle,
    );
    assert!(r.is_none());
}

#[test]
fn an_undeclared_function_has_the_widest_type() {
    let mut tcx = context(&[]);
    let b = ExprBuilder::new();
    let entry = FuncEntry { inputs: vec![], syn: true };
    let (expr, vars, _, _) = build_template_from_conditions(
        &PLAIN,
        &Ident::new("f"),
        &entry,
        vec![],
        &b,
        &mut tcx,
        0,
        &mut SatOracle::new(),
    )
    .unwrap();
    assert_eq!(vars[0].1, TyKind::Real);
    let ExprKind::Binary(BinOpKind::Mul, _, lc) = &expr.kind else {
        panic!("not a product");
    };
    assert_eq!(lc.ty, Some(TyKind::EUReal));
    assert_eq!(expr.ty, Some(TyKind::UReal));
}

#[test]
fn functions_to_be_found_are_picked() {
    let mut un = Uninterpreteds::new();
    assert!(un.add_function(Ident::new("f"), FuncEntry { inputs: vec![], syn: true }));
    assert!(un.add_function(Ident::new("g"), FuncEntry { inputs: vec![], syn: false }));
    assert!(un.add_function(Ident::new("h"), FuncEntry { inputs: vec![], syn: true }));
    assert!(!un.add_function(Ident::new("g"), FuncEntry { inputs: vec![], syn: true }));
    assert_eq!(un.functions().len(), 3);
    let found: Vec<&str> =
        get_synth_functions(&un).iter().map(|(id, _)| id.name.as_str()).collect();
    assert_eq!(found, vec!["f", "h"]);
}

#[test]
fn all_templates_are_built_and_inlined() {
    let mut tcx = context(&[("x", TyKind::UReal)]);
    let b = ExprBuilder::new();
    let mut un = Uninterpreteds::new();
    let f = function(&mut tcx, "f", TyKind::UReal, vec![param("n", TyKind::UReal, None)]);
    let g = function(&mut tcx, "g", TyKind::UReal, vec![]);
    un.add_function(Ident::new("f"), f);
    un.add_function(Ident::new("g"), g);
    let synth = get_synth_functions(&un);
    let vc = b.binary(
        BinOpKind::Le,
        TyKind::Bool,
        call("f", vec![var(&tcx, "x")], TyKind::UReal),
        call("g", vec![], TyKind::UReal),
    );
    let mut oracle = SatOracle::new();
    let built = build_templates(&PLAIN, &synth, &vc, &b, &mut tcx, 0, &mut oracle).unwrap();
    assert_eq!(built.templates.len(), 2);
    assert_eq!(
        names(&built.template_vars),
        vec!["tvar_f_0_0_deg1_m01", "tvar_f_0_0_const1", "tvar_g_0_0_const1"]
    );
    assert_eq!(built.sat_checks, 4);
    let whole = inline_templates(&vc, &synth, &built.templates);
    let f_text = render(&built.templates[0].0).replace("v.n", "v.x");
    let g_text = render(&built.templates[1].0);
    assert_eq!(render(&whole), format!("(<= {f_text} {g_text})"));
    let mut oracle = SatOracle::replaying(&vec![false, true, true, false, false]);
    assert!(build_templates(&PLAIN, &synth, &vc, &b, &mut tcx, 0, &mut oracle).is_none());
}

/// Whether `expr` has the value `n` with the given integers for its variables.
fn has_value(expr: &Expr, values: &[(&str, i64)], n: i64) -> bool {
    let b = ExprBuilder::new();
    let x = context(&[("x", TyKind::Real)]);
    let cut = b.ite(
        TyKind::UReal,
        b.binary(BinOpKind::Ge, TyKind::Bool, var(&x, "x"), b.zero_lit(TyKind::Real)),
        var(&x, "x"),
        b.zero_lit(TyKind::Real),
    );
    let clamp = Ident::new("clamp_with_zero");
    let plain = inline_function(expr, &clamp, &vec![param("x", TyKind::Real, None)], &cut);
    let mut m = IndexMap::new();
    for (name, value) in values {
        m.insert(name.to_string(), b.int_lit(*value, TyKind::Real));
    }
    let value = subst_from_mapping(&m, &plain);
    let other = b.binary(BinOpKind::Ne, TyKind::Bool, value, b.int_lit(n, TyKind::Real));
    !SatOracle::new().check_sat(&other)
}

#[test]
fn a_polynomial_is_the_sum_of_its_terms() {
    let mut tcx = context(&[("x", TyKind::Real), ("y", TyKind::Real)]);
    let b = ExprBuilder::new();
    let mut vars = TemplateVars::new(0, TyKind::Real);
    let decls = vec![decl("x", TyKind::Real), decl("y", TyKind::Real)];
    let poly = build_polynomial("p", &Ident::new("f"), &b, &mut tcx, &mut vars, &decls, 2);
    let values = [
        ("tvar_f_p_deg1_m01", 1),
        ("tvar_f_p_deg1_m11", 2),
        ("tvar_f_p_deg2_m01", 3),
        ("tvar_f_p_deg2_m11", 4),
        ("tvar_f_p_deg2_m21", 5),
        ("tvar_f_p_const1", 6),
        ("x", 2),
        ("y", -1),
    ];
    // 1 * 2 + 2 * -1 + 3 * 4 + 4 * -2 + 5 * 1 + 6
    assert!(has_value(&poly, &values, 15));
    assert!(!has_value(&poly, &values, 14));
}

#[test]
fn combinations_have_no_negative_values() {
    let mut tcx = context(&[]);
    let b = ExprBuilder::new();
    let f = Ident::new("f");
    let mut vars = TemplateVars::new(0, TyKind::Real);
    let comb = build_polynomial_combination(
        "p",
        &f,
        &b,
        &mut tcx,
        &mut vars,
        &[],
        TyKind::EUReal,
        1,
    );
    assert!(has_value(&comb, &[("tvar_f_p_const1", 7)], 7));
    assert!(has_value(&comb, &[("tvar_f_p_const1", -7)], 0));
    let quotient =
        build_rational_combination("q", &f, &b, &mut tcx, &mut vars, &[], TyKind::EUReal, 1);
    let at = |p: i64, q: i64| [("tvar_f_q_num_const1", p), ("tvar_f_q_den_const1", q)];
    assert!(has_value(&quotient, &at(6, 2), 3));
    assert!(has_value(&quotient, &at(-6, 2), 0));
    assert!(has_value(&quotient, &at(6, 0), 6));
    assert!(has_value(&quotient, &at(6, -2), 6));
}

#[test]
fn a_template_has_the_value_of_the_piece_that_applies() {
    let mut tcx = context(&[]);
    let b = ExprBuilder::new();
    let range = Some(Range { lower: 0, upper: 4 });
    let entry = function(&mut tcx, "f", TyKind::UReal, vec![param("n", TyKind::Real, range)]);
    let cond = b.binary(
        BinOpKind::Gt,
        TyKind::Bool,
        var(&tcx, "n"),
        b.int_lit(2, TyKind::Real),
    );
    let (expr, vars, pairs, _) = build_template_from_conditions(
        &PLAIN,
        &Ident::new("f"),
        &entry,
        vec![cond],
        &b,
        &mut tcx,
        1,
        &mut SatOracle::new(),
    )
    .unwrap();
    assert_eq!(pairs, 4);
    assert_eq!(vars.len(), 6);
    // Up to 2 and above 0: n + 10. At 0: 20. Above 2: 70 - 20 n, cut off.
    let at = |n: i64| {
        [
            ("tvar_f_0_0_deg1_m02", 1),
            ("tvar_f_0_0_const2", 10),
            ("tvar_f_0_1_deg1_m02", 3),
            ("tvar_f_0_1_const2", 20),
            ("tvar_f_1_0_deg1_m02", -20),
            ("tvar_f_1_0_const2", 70),
            ("n", n),
        ]
    };
    assert!(has_value(&expr, &at(0), 20));
    assert!(has_value(&expr, &at(1), 11));
    assert!(has_value(&expr, &at(2), 12));
    assert!(has_value(&expr, &at(3), 10));
    assert!(has_value(&expr, &at(4), 0));
    // Outside the range no piece applies.
    assert!(has_value(&expr, &at(5), 0));
    assert!(has_value(&expr, &at(-1), 0));
}

#[test]
fn exactly_one_guard_holds_at_each_point() {
    let tcx = context(&[("x", TyKind::Int)]);
    let b = ExprBuilder::new();
    let less = |n: i64| {
        b.binary(BinOpKind::Lt, TyKind::Bool, var(&tcx, "x"), b.int_lit(n, TyKind::Int))
    };
    let mut oracle = SatOracle::new();
    let mut guards = Vec::new();
    let conds = vec![less(0), less(3), less(3)];
    explore_boolean_assignments(0, &conds, &b, &mut oracle, b.bool_lit(true), &mut guards);
    assert_eq!(guards.len(), 3);
    for point in -1..5 {
        let at = b.binary(
            BinOpKind::Eq,
            TyKind::Bool,
            var(&tcx, "x"),
            b.int_lit(point, TyKind::Int),
        );
        let holding = guards
            .iter()
            .filter(|g| {
                let both = b.binary(BinOpKind::And, TyKind::Bool, (*g).clone(), at.clone());
                oracle.check_sat(&both)
            })
            .count();
        assert_eq!(holding, 1);
    }
}

#[test]
fn coefficients_of_different_functions_are_distinct() {
    let mut tcx = context(&[]);
    let b = ExprBuilder::new();
    let mut un = Uninterpreteds::new();
    let range = Some(Range { lower: 0, upper: 1 });
    for name in ["f", "f_0", "f_0_0", "f_"] {
        let entry = function(&mut tcx, name, TyKind::UReal, vec![param("n", TyKind::Real, range)]);
        un.add_function(Ident::new(name), entry);
    }
    let synth = get_synth_functions(&un);
    let mut oracle = SatOracle::new();
    let vc = b.bool_lit(true);
    let built = build_templates(&PLAIN, &synth, &vc, &b, &mut tcx, 2, &mut oracle).unwrap();
    let mut all = names(&built.template_vars);
    assert_eq!(all.len(), 4 * 3 * 2);
    all.sort();
    all.dedup();
    assert_eq!(all.len(), built.template_vars.len());
}

#[test]
fn no_region_holds_outside_the_range() {
    let tcx = context(&[("x", TyKind::Real)]);
    let b = ExprBuilder::new();
    let vars = vec![(var(&tcx, "x"), Range { lower: 0, upper: 3 })];
    let mut oracle = SatOracle::new();
    for region in get_fix_region_splits(&vars, 2, &b) {
        for point in [-1, 4] {
            let at = b.binary(
                BinOpKind::Eq,
                TyKind::Bool,
                var(&tcx, "x"),
                b.int_lit(point, TyKind::Real),
            );
            let both = b.binary(BinOpKind::And, TyKind::Bool, region.clone(), at);
            assert!(!oracle.check_sat(&both));
        }
    }
}

#[test]
fn what_is_checked_holds_the_definitions_reported() {
    let mut tcx = context(&[("x", TyKind::UReal)]);
    let b = ExprBuilder::new();
    let mut un = Uninterpreteds::new();
    let f = function(&mut tcx, "f", TyKind::UReal, vec![param("n", TyKind::UReal, None)]);
    let g = function(&mut tcx, "g", TyKind::UReal, vec![]);
    un.add_function(Ident::new("f"), f);
    un.add_function(Ident::new("g"), g);
    let synth = get_synth_functions(&un);
    let vc = b.binary(
        BinOpKind::Le,
        TyKind::Bool,
        call("f", vec![var(&tcx, "x")], TyKind::UReal),
        call("g", vec![], TyKind::UReal),
    );
    let mut oracle = SatOracle::new();
    let built = build_templates(&PLAIN, &synth, &vc, &b, &mut tcx, 0, &mut oracle).unwrap();
    let mut values = IndexMap::new();
    for (n, (id, ty)) in built.template_vars.iter().enumerate() {
        values.insert(id.name.clone(), b.int_lit(n as i64 + 2, *ty));
    }
    let whole = inline_templates(&vc, &synth, &built.templates);
    let checked = subst_from_mapping(&values, &whole);
    let found = instantiate_templates(&built.templates, &values);
    let mut defined = vc;
    for ((name, entry), body) in synth.iter().zip(&found) {
        defined = inline_function(&defined, name, &entry.inputs, body);
    }
    assert_eq!(render(&checked), render(&defined));
    assert!(render(&checked).contains("(+ (* (/ 2.0 1.0) v.x) (/ 3.0 1.0))"));
}
