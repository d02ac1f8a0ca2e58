use std::rc::Rc;

use invariant_synthesis::ast::{
    BinOpKind, Expr, ExprBuilder, ExprData, ExprKind, Ident, TyKind, UnOpKind,
};
use invariant_synthesis::calls::{collect_call_var_param_maps, collect_call_var_param_maps_rec};
use invariant_synthesis::conditions::{
    collect_bool_conditions, collect_relevant_bool_conditions, explain_conditions, record,
};
use invariant_synthesis::decls::{DeclKind, TyCtx, VarDecl, VarKind};
use invariant_synthesis::smt::render;

fn context(names: &[&str]) -> TyCtx {
    let mut tcx = TyCtx::new();
    for name in names {
        tcx.declare(DeclKind::VarDecl(VarDecl {
            name: Ident::new(name),
            ty: TyKind::Int,
            kind: VarKind::Input,
            range: None,
        }));
    }
    tcx
}

fn var(tcx: &TyCtx, name: &str) -> Expr {
    ExprBuilder::new().var(&Ident::new(name), tcx)
}

fn call(f: &str, args: Vec<Expr>) -> Expr {
    Rc::new(ExprData { kind: ExprKind::Call(Ident::new(f), args), ty: Some(TyKind::Int) })
}

fn positive(e: Expr) -> Expr {
    let b = ExprBuilder::new();
    b.binary(BinOpKind::Gt, TyKind::Bool, e, b.zero_lit(TyKind::Int))
}

fn texts(es: &[Expr]) -> Vec<String> {
    es.iter().map(render).collect()
}

#[test]
fn each_call_gives_a_mapping() {
    let tcx = context(&["x", "y", "m", "n"]);
    let b = ExprBuilder::new();
    let params = vec![var(&tcx, "m"), var(&tcx, "n")];
    let inner = call("f", vec![var(&tcx, "y"), b.one_lit(TyKind::Int)]);
    let outer = call("f", vec![var(&tcx, "x"), inner]);
    let vc = positive(outer);
    let maps = collect_call_var_param_maps(&vc, &Ident::new("f"), &params);
    assert_eq!(maps.len(), 2);
    assert_eq!(maps[0].len(), 1);
    assert_eq!(render(&maps[0]["x"]), "v.m");
    assert_eq!(maps[1].len(), 1);
    assert_eq!(render(&maps[1]["y"]), "v.m");
}

#[test]
fn calls_without_variables_or_with_other_arity_give_none() {
    let tcx = context(&["x", "m", "n"]);
    let b = ExprBuilder::new();
    let params = vec![var(&tcx, "m"), var(&tcx, "n")];
    let f = Ident::new("f");
    let constant = call("f", vec![b.one_lit(TyKind::Int), b.zero_lit(TyKind::Int)]);
    assert_eq!(collect_call_var_param_maps(&constant, &f, &params).len(), 0);
    let short = call("f", vec![var(&tcx, "x")]);
    assert_eq!(collect_call_var_param_maps(&short, &f, &params).len(), 0);
    let other = call("g", vec![var(&tcx, "x"), var(&tcx, "x")]);
    assert_eq!(collect_call_var_param_maps(&other, &f, &params).len(), 0);
}

#[test]
fn the_last_place_of_a_variable_counts() {
    let tcx = context(&["x", "m", "n"]);
    let params = vec![var(&tcx, "m"), var(&tcx, "n")];
    let twice = call("f", vec![var(&tcx, "x"), var(&tcx, "x")]);
    let maps = collect_call_var_param_maps(&twice, &Ident::new("f"), &params);
    assert_eq!(maps.len(), 1);
    assert_eq!(render(&maps[0]["x"]), "v.n");
}

#[test]
fn conditions_come_from_outside_in() {
    let tcx = context(&["x", "y", "z"]);
    let b = ExprBuilder::new();
    let z = positive(var(&tcx, "z"));
    let bracket = b.unary(UnOpKind::Iverson, TyKind::Int, z);
    let inner = b.ite(
        TyKind::Int,
        positive(var(&tcx, "y")),
        bracket,
        b.zero_lit(TyKind::Int),
    );
    let outer = b.ite(TyKind::Int, positive(var(&tcx, "x")), b.one_lit(TyKind::Int), inner);
    assert_eq!(
        texts(&collect_bool_conditions(&outer)),
        vec!["(> v.x 0)", "(> v.y 0)", "(> v.z 0)"]
    );
    assert_eq!(collect_bool_conditions(&positive(var(&tcx, "x"))).len(), 0);
}

#[test]
fn conditions_in_conditions_are_found() {
    let tcx = context(&["x", "y"]);
    let b = ExprBuilder::new();
    let inner = b.unary(UnOpKind::Iverson, TyKind::Int, positive(var(&tcx, "x")));
    let cond = b.binary(BinOpKind::Lt, TyKind::Bool, inner, var(&tcx, "y"));
    let e = b.unary(UnOpKind::Iverson, TyKind::Int, cond);
    assert_eq!(
        texts(&collect_bool_conditions(&e)),
        vec!["(< (ite (> v.x 0) 1 0) v.y)", "(> v.x 0)"]
    );
}

#[test]
fn a_shared_bracket_counts_once() {
    let tcx = context(&["x"]);
    let b = ExprBuilder::new();
    let cond = positive(var(&tcx, "x"));
    let bracket = b.unary(UnOpKind::Iverson, TyKind::Int, cond.clone());
    let shared = b.binary(BinOpKind::Add, TyKind::Int, bracket.clone(), bracket.clone());
    assert_eq!(texts(&collect_bool_conditions(&shared)), vec!["(> v.x 0)"]);
    let other = b.unary(UnOpKind::Iverson, TyKind::Int, cond);
    let separate = b.binary(BinOpKind::Add, TyKind::Int, bracket, other);
    assert_eq!(texts(&collect_bool_conditions(&separate)), vec!["(> v.x 0)", "(> v.x 0)"]);
}

#[test]
fn conditions_are_put_in_terms_of_parameters() {
    let tcx = context(&["x", "y", "m", "n"]);
    let b = ExprBuilder::new();
    let params = vec![var(&tcx, "m"), var(&tcx, "n")];
    let f = Ident::new("f");
    let x_call = call("f", vec![var(&tcx, "x"), b.one_lit(TyKind::Int)]);
    let xy_call = call("f", vec![var(&tcx, "y"), var(&tcx, "x")]);
    let both = b.binary(BinOpKind::Lt, TyKind::Bool, var(&tcx, "x"), var(&tcx, "y"));
    let other = positive(var(&tcx, "n"));
    let conds = vec![positive(var(&tcx, "x")), both, other];
    let calls = b.binary(BinOpKind::Add, TyKind::Int, x_call, xy_call);
    let maps = collect_call_var_param_maps(&calls, &f, &params);
    let (explained, pairs) = explain_conditions(&conds, &maps);
    assert_eq!(texts(&explained), vec!["(> v.m 0)", "(< v.n v.m)"]);
    let pairs: Vec<(String, String)> =
        pairs.into_iter().map(|(p, v)| (p.name, v.name)).collect();
    assert_eq!(
        pairs,
        vec![("m".to_string(), "x".to_string()), ("n".to_string(), "x".to_string())]
    );
}

#[test]
fn relevant_conditions_of_a_whole_condition() {
    let tcx = context(&["x", "y", "m"]);
    let b = ExprBuilder::new();
    let params = vec![var(&tcx, "m")];
    let on_x = b.unary(UnOpKind::Iverson, TyKind::Int, positive(var(&tcx, "x")));
    let on_y = b.unary(UnOpKind::Iverson, TyKind::Int, positive(var(&tcx, "y")));
    let sum = b.binary(BinOpKind::Add, TyKind::Int, on_x, on_y);
    let vc = b.binary(BinOpKind::Add, TyKind::Int, sum, call("f", vec![var(&tcx, "x")]));
    let maps = collect_call_var_param_maps(&vc, &Ident::new("f"), &params);
    let (found, _) = collect_relevant_bool_conditions(&vc, &maps);
    assert_eq!(texts(&found), vec!["(> v.m 0)"]);
    let (found, _) = collect_relevant_bool_conditions(&vc, &vec![]);
    assert_eq!(found.len(), 0);
}

#[test]
fn a_condition_without_variables_is_explained_by_any_call() {
    let tcx = context(&["x", "m"]);
    let b = ExprBuilder::new();
    let maps = collect_call_var_param_maps(
        &call("f", vec![var(&tcx, "x")]),
        &Ident::new("f"),
        &vec![var(&tcx, "m")],
    );
    let (found, _) = explain_conditions(&vec![b.bool_lit(false)], &maps);
    assert_eq!(texts(&found), vec!["false"]);
}

#[test]
fn mappings_are_put_behind_those_that_are_there() {
    let tcx = context(&["x", "y", "m"]);
    let params = vec![var(&tcx, "m")];
    let f = Ident::new("f");
    let mut out = collect_call_var_param_maps(&call("f", vec![var(&tcx, "x")]), &f, &params);
    collect_call_var_param_maps_rec(&call("f", vec![var(&tcx, "y")]), &f, &params, &mut out);
    assert_eq!(out.len(), 2);
    assert_eq!(render(&out[0]["x"]), "v.m");
    assert_eq!(render(&out[1]["y"]), "v.m");
}

#[test]
fn more_mappings_keep_explained_conditions() {
    let tcx = context(&["x", "y", "m", "n"]);
    let params = vec![var(&tcx, "m"), var(&tcx, "n")];
    let f = Ident::new("f");
    let b = ExprBuilder::new();
    let one = b.one_lit(TyKind::Int);
    let on_x = call("f", vec![var(&tcx, "x"), one]);
    let on_both = call("f", vec![var(&tcx, "y"), var(&tcx, "x")]);
    let conds = vec![positive(var(&tcx, "y")), positive(var(&tcx, "x"))];
    let few = collect_call_var_param_maps(&on_x, &f, &params);
    let (found, _) = explain_conditions(&conds, &few);
    assert_eq!(texts(&found), vec!["(> v.m 0)"]);
    let mut more = few;
    collect_call_var_param_maps_rec(&on_both, &f, &params, &mut more);
    let (found, _) = explain_conditions(&conds, &more);
    // The condition on `x` is still explained by the first call, in which it is `m`.
    assert_eq!(texts(&found), vec!["(> v.m 0)", "(> v.m 0)"]);
    let bracket = |c: Expr| b.unary(UnOpKind::Iverson, TyKind::Int, c);
    let sum = b.binary(
        BinOpKind::Add,
        TyKind::Int,
        bracket(positive(var(&tcx, "y"))),
        bracket(positive(var(&tcx, "x"))),
    );
    let (found, _) = collect_relevant_bool_conditions(&sum, &more);
    assert_eq!(texts(&found), vec!["(> v.m 0)", "(> v.m 0)"]);
}

#[test]
fn a_known_node_is_not_recorded() {
    let tcx = context(&["x"]);
    let b = ExprBuilder::new();
    let cond = positive(var(&tcx, "x"));
    let site = b.unary(UnOpKind::Iverson, TyKind::Int, cond.clone());
    let (mut out, mut seen) = (Vec::new(), Vec::new());
    record(false, &site, &cond, &mut out, &mut seen);
    assert_eq!(texts(&out), vec!["(> v.x 0)"]);
    assert_eq!(texts(&seen), vec!["(ite (> v.x 0) 1 0)"]);
    record(true, &site, &cond, &mut out, &mut seen);
    assert_eq!((out.len(), seen.len()), (1, 1));
}
