use std::rc::Rc;

use indexmap::IndexMap;
use invariant_synthesis::ast::{
    children, with_children, BinOpKind, Expr, ExprBuilder, ExprData, ExprKind, Ident, TyKind,
    UnOpKind, _split_vc,
};
use invariant_synthesis::decls::{DeclKind, FuncDecl, Param, Range, TyCtx, VarDecl, VarKind};
use invariant_synthesis::inlining::inline_function;
use invariant_synthesis::smt::{render, script_text};
use invariant_synthesis::substitution::{collect_program_vars, subst_from_mapping};

fn context(vars: &[(&str, TyKind)]) -> TyCtx {
    let mut tcx = TyCtx::new();
    for (name, ty) in vars {
        tcx.declare(DeclKind::VarDecl(VarDecl {
            name: Ident::new(name),
            ty: *ty,
            kind: VarKind::Input,
            range: None,
        }));
    }
    tcx
}

fn var(tcx: &TyCtx, name: &str) -> Expr {
    ExprBuilder::new().var(&Ident::new(name), tcx)
}

fn subst(x: &str, v: Expr, e: Expr) -> Expr {
    let ty = e.ty;
    Rc::new(ExprData { kind: ExprKind::Subst(Ident::new(x), v, e), ty })
}

#[test]
fn the_last_declaration_counts() {
    let mut tcx = context(&[("x", TyKind::Int), ("x", TyKind::Real)]);
    assert_eq!(tcx.var_type(&Ident::new("x")), Some(TyKind::Real));
    assert_eq!(tcx.var_type(&Ident::new("y")), None);
    tcx.declare(DeclKind::FuncDecl(FuncDecl { name: Ident::new("x"), output: TyKind::UInt }));
    assert_eq!(tcx.var_type(&Ident::new("x")), None);
    assert!(matches!(tcx.get(&Ident::new("x")), Some(DeclKind::FuncDecl(_))));
}

#[test]
fn a_parameter_becomes_a_declaration() {
    let param = Param {
        name: Ident::new("n"),
        ty: TyKind::UInt,
        range: Some(Range { lower: 0, upper: 4 }),
    };
    let decl = VarDecl::from_param(&param, VarKind::Input);
    assert_eq!(decl.name.name, "n");
    assert_eq!(decl.ty, TyKind::UInt);
    assert_eq!(decl.kind, VarKind::Input);
    assert_eq!(decl.range, Some(Range { lower: 0, upper: 4 }));
}

#[test]
fn expressions_are_written_out() {
    let b = ExprBuilder::new();
    let tcx = context(&[("x", TyKind::Int), ("y", TyKind::Real), ("p", TyKind::Bool)]);
    let x = var(&tcx, "x");
    let y = var(&tcx, "y");
    let p = var(&tcx, "p");
    let real_x = b.cast(TyKind::Real, x.clone());
    assert_eq!(render(&real_x), "(to_real v.x)");
    assert_eq!(render(&b.cast(TyKind::Int, y.clone())), "(to_int v.y)");
    assert_eq!(render(&b.cast(TyKind::UReal, y.clone())), "v.y");
    let sum = b.binary(BinOpKind::Add, TyKind::Real, real_x, y.clone());
    assert_eq!(render(&sum), "(+ (to_real v.x) v.y)");
    assert_eq!(render(&b.unary(UnOpKind::Not, TyKind::Bool, p.clone())), "(not v.p)");
    assert_eq!(
        render(&b.unary(UnOpKind::Iverson, TyKind::UReal, p.clone())),
        "(ite v.p 1.0 0.0)"
    );
    assert_eq!(render(&b.unary(UnOpKind::Iverson, TyKind::UInt, p.clone())), "(ite v.p 1 0)");
    assert_eq!(
        render(&b.binary(BinOpKind::CoImpl, TyKind::Bool, p.clone(), b.bool_lit(true))),
        "(and (not v.p) true)"
    );
    assert_eq!(
        render(&b.binary(BinOpKind::Impl, TyKind::Bool, p.clone(), b.bool_lit(false))),
        "(=> v.p false)"
    );
    assert_eq!(
        render(&b.ite(TyKind::Real, p, y.clone(), b.zero_lit(TyKind::Real))),
        "(ite v.p v.y (/ 0.0 1.0))"
    );
    assert_eq!(render(&b.call(TyKind::Real, "f", y.clone())), "(f.f v.y)");
    assert_eq!(render(&subst("z", x, y)), "(let ((v.z v.x)) v.y)");
}

#[test]
fn numbers_are_written_out() {
    let b = ExprBuilder::new();
    assert_eq!(render(&b.int_lit(0, TyKind::Int)), "0");
    assert_eq!(render(&b.one_lit(TyKind::UInt)), "1");
    assert_eq!(render(&b.int_lit(-120, TyKind::Int)), "(- 120)");
    assert_eq!(render(&b.int_lit(-7, TyKind::Real)), "(- (/ 7.0 1.0))");
    assert_eq!(
        render(&b.int_lit(i64::MIN, TyKind::Int)),
        "(- 9223372036854775808)"
    );
}

#[test]
fn names_are_escaped() {
    let b = ExprBuilder::new();
    let tcx = context(&[("a b", TyKind::Int), ("x'", TyKind::Int), ("\0", TyKind::Int)]);
    assert_eq!(render(&var(&tcx, "a b")), "v.a.32.b");
    assert_eq!(render(&var(&tcx, "x'")), "v.x.39.");
    assert_eq!(render(&var(&tcx, "\0")), "v..0.");
    assert_eq!(render(&b.call(TyKind::Int, "é", b.one_lit(TyKind::Int))), "(f..233. 1)");
}

#[test]
fn scripts_declare_each_symbol_once() {
    let b = ExprBuilder::new();
    let tcx = context(&[("x", TyKind::UInt), ("y", TyKind::EUReal)]);
    let x = var(&tcx, "x");
    let call = b.call(TyKind::EUReal, "f", x.clone());
    let le = b.binary(BinOpKind::Le, TyKind::Bool, call, var(&tcx, "y"));
    let gt = b.binary(BinOpKind::Gt, TyKind::Bool, x, b.zero_lit(TyKind::UInt));
    let both = b.binary(BinOpKind::And, TyKind::Bool, le, gt);
    assert_eq!(
        script_text(&both),
        "(declare-fun f.f ( Int) Real)(declare-const v.x Int)(declare-const v.y Real)\
         (assert (and (<= (f.f v.x) v.y) (> v.x 0)))"
    );
}

#[test]
fn free_variables_come_in_order() {
    let b = ExprBuilder::new();
    let tcx = context(&[("x", TyKind::Int), ("y", TyKind::Int), ("z", TyKind::Int)]);
    let add = |l: Expr, r: Expr| b.binary(BinOpKind::Add, TyKind::Int, l, r);
    let inner = add(var(&tcx, "x"), var(&tcx, "y"));
    let bound = subst("x", var(&tcx, "z"), inner);
    let names: Vec<String> = collect_program_vars(&bound).into_iter().collect();
    assert_eq!(names, vec!["z".to_string(), "y".to_string()]);
    let outer = add(bound, add(var(&tcx, "x"), var(&tcx, "y")));
    let names: Vec<String> = collect_program_vars(&outer).into_iter().collect();
    assert_eq!(names, vec!["z".to_string(), "y".to_string(), "x".to_string()]);
}

#[test]
fn substitution_is_simultaneous() {
    let b = ExprBuilder::new();
    let tcx = context(&[("x", TyKind::Int), ("y", TyKind::Int)]);
    let sub = b.binary(BinOpKind::Sub, TyKind::Int, var(&tcx, "x"), var(&tcx, "y"));
    let mut swap = IndexMap::new();
    swap.insert("x".to_string(), var(&tcx, "y"));
    swap.insert("y".to_string(), var(&tcx, "x"));
    assert_eq!(render(&subst_from_mapping(&swap, &sub)), "(- v.y v.x)");
}

#[test]
fn substitution_resolves_inner_substitutions() {
    let b = ExprBuilder::new();
    let tcx = context(&[("x", TyKind::Int), ("y", TyKind::Int)]);
    let sub = b.binary(BinOpKind::Sub, TyKind::Int, var(&tcx, "x"), var(&tcx, "y"));
    let bound = subst("x", var(&tcx, "y"), sub);
    let mut m = IndexMap::new();
    m.insert("x".to_string(), b.int_lit(1, TyKind::Int));
    m.insert("y".to_string(), b.int_lit(2, TyKind::Int));
    assert_eq!(render(&subst_from_mapping(&m, &bound)), "(- 2 2)");
    assert_eq!(render(&subst_from_mapping(&IndexMap::new(), &bound)), "(- v.y v.y)");
}

#[test]
fn calls_are_inlined() {
    let b = ExprBuilder::new();
    let tcx = context(&[("x", TyKind::Int), ("n", TyKind::Int)]);
    let params = vec![Param { name: Ident::new("n"), ty: TyKind::Int, range: None }];
    let body = b.binary(BinOpKind::Mul, TyKind::Int, var(&tcx, "n"), var(&tcx, "n"));
    let inner = b.call(TyKind::Int, "f", var(&tcx, "x"));
    let outer = b.call(TyKind::Int, "f", inner.clone());
    let f = Ident::new("f");
    assert_eq!(render(&inline_function(&inner, &f, &params, &body)), "(* v.x v.x)");
    assert_eq!(
        render(&inline_function(&outer, &f, &params, &body)),
        "(* (* v.x v.x) (* v.x v.x))"
    );
    let other = b.call(TyKind::Int, "g", inner.clone());
    assert_eq!(render(&inline_function(&other, &f, &params, &body)), "(f.g (* v.x v.x))");
    assert_eq!(render(&inline_function(&inner, &f, &vec![], &body)), "(f.f v.x)");
}

#[test]
fn children_can_be_exchanged() {
    let b = ExprBuilder::new();
    let tcx = context(&[("x", TyKind::Int), ("y", TyKind::Int)]);
    let sub = b.binary(BinOpKind::Sub, TyKind::Int, var(&tcx, "x"), var(&tcx, "y"));
    let mut kids = children(&sub);
    kids.reverse();
    assert_eq!(render(&with_children(&sub, &kids)), "(- v.y v.x)");
}

#[test]
fn verification_conditions_have_two_sides() {
    let b = ExprBuilder::new();
    let tcx = context(&[("x", TyKind::Real), ("y", TyKind::Real)]);
    let vc = b.binary(BinOpKind::Impl, TyKind::Real, var(&tcx, "x"), var(&tcx, "y"));
    let (lhs, rhs) = _split_vc(&vc);
    assert_eq!(render(lhs), "v.x");
    assert_eq!(render(rhs), "v.y");
    let co = b.binary(BinOpKind::CoImpl, TyKind::Real, var(&tcx, "y"), var(&tcx, "x"));
    let (lhs, rhs) = _split_vc(&co);
    assert_eq!(render(lhs), "v.y");
    assert_eq!(render(rhs), "v.x");
}

#[test]
fn different_names_have_different_symbols() {
    let tcx = context(&[("a b", TyKind::Int), ("a.32.b", TyKind::Int), ("a;b", TyKind::Int)]);
    assert_eq!(render(&var(&tcx, "a.32.b")), "v.a.46.32.46.b");
    assert_eq!(render(&var(&tcx, "a;b")), "v.a.59.b");
    assert_ne!(render(&var(&tcx, "a b")), render(&var(&tcx, "a.32.b")));
}

#[test]
fn calls_below_a_substitution_are_inlined() {
    let b = ExprBuilder::new();
    let tcx = context(&[("x", TyKind::Int), ("n", TyKind::Int), ("c", TyKind::Int)]);
    let params = vec![Param { name: Ident::new("n"), ty: TyKind::Int, range: None }];
    let body = b.binary(BinOpKind::Mul, TyKind::Int, var(&tcx, "n"), var(&tcx, "c"));
    let inner = b.call(TyKind::Int, "f", var(&tcx, "n"));
    let bound = subst("n", var(&tcx, "x"), inner);
    let whole = inline_function(&bound, &Ident::new("f"), &params, &body);
    assert_eq!(render(&whole), "(let ((v.n v.x)) (* v.n v.c))");
    assert_eq!(render(&subst_from_mapping(&IndexMap::new(), &whole)), "(* v.x v.c)");
}
