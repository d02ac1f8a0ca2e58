use indexmap::IndexMap;
use invariant_synthesis::ast::{BinOpKind, Expr, ExprBuilder, Ident, TyKind};
use invariant_synthesis::cegis::{
    canonical_form, zero_extended_mapping, Action, Cegis, Failure, Verdict, MAX_CEGIS_ITERS,
};
use invariant_synthesis::collections::Mapping;
use invariant_synthesis::decls::{DeclKind, TyCtx, VarDecl, VarKind};
use invariant_synthesis::smt::render;
use invariant_synthesis::substitution::collect_program_vars;
use invariant_synthesis::synthesis::{
    instantiate_templates, Outcome, Progress, MAX_SPLIT_COUNT,
};

fn context(names: &[&str]) -> TyCtx {
    let mut tcx = TyCtx::new();
    for name in names {
        tcx.declare(DeclKind::VarDecl(VarDecl {
            name: Ident::new(name),
            ty: TyKind::Int,
            kind: VarKind::Input,
            range: None,
        }));
    }
    tcx
}

/// `x <= a`, for the template variable `a`.
fn condition() -> Expr {
    let tcx = context(&["x", "a"]);
    let b = ExprBuilder::new();
    b.binary(
        BinOpKind::Le,
        TyKind::Bool,
        b.var(&Ident::new("x"), &tcx),
        b.var(&Ident::new("a"), &tcx),
    )
}

fn value(name: &str, n: i64) -> Mapping {
    let mut m = IndexMap::new();
    m.insert(name.to_string(), ExprBuilder::new().int_lit(n, TyKind::Int));
    m
}

fn search() -> Cegis {
    Cegis::new(condition(), vec![(Ident::new("a"), TyKind::Int)], &ExprBuilder::new())
}

#[test]
fn missing_values_are_zero() {
    let b = ExprBuilder::new();
    let vars = vec![(Ident::new("a"), TyKind::Int), (Ident::new("b"), TyKind::Real)];
    let mut candidate = value("a", 5);
    candidate.insert("other".to_string(), b.one_lit(TyKind::Int));
    let m = zero_extended_mapping(&vars, &candidate, &b);
    let found: Vec<(String, String)> = m.iter().map(|(k, v)| (k.clone(), render(v))).collect();
    assert_eq!(
        found,
        vec![("a".to_string(), "5".to_string()), ("b".to_string(), "(/ 0.0 1.0)".to_string())]
    );
}

#[test]
fn mappings_are_written_out() {
    let mut m = value("a", 5);
    m.insert("b c".to_string(), ExprBuilder::new().int_lit(-1, TyKind::Int));
    assert_eq!(canonical_form(&m), "a=5;b.32.c=(- 1);");
    assert_eq!(canonical_form(&IndexMap::new()), "");
}

#[test]
fn a_search_finds_values() {
    let b = ExprBuilder::new();
    let (s, action) = search().propose(&b);
    assert_eq!(s.iteration(), 1);
    let Action::Check(vc) = action else { panic!("not a check") };
    assert_eq!(render(&vc), "(<= v.x 0)");
    let free: Vec<String> = collect_program_vars(&vc).into_iter().collect();
    assert_eq!(free, vec!["x".to_string()]);
    let (s, action) = s.judge(Verdict::Counterexample(Some(value("x", 1))), &b);
    let Action::FindModel(constraints) = action else { panic!("not a search") };
    assert_eq!(render(&constraints), "(and (<= 1 v.a) true)");
    let (s, action) = s.resume(Some(value("a", 1)), &b);
    assert_eq!(s.iteration(), 2);
    let Action::Check(vc) = action else { panic!("not a check") };
    assert_eq!(render(&vc), "(<= v.x 1)");
    let (s, action) = s.judge(Verdict::Counterexample(Some(value("x", 2))), &b);
    let Action::FindModel(constraints) = action else { panic!("not a search") };
    assert_eq!(render(&constraints), "(and (<= 2 v.a) (and (<= 1 v.a) true))");
    let (s, _) = s.resume(Some(value("a", 7)), &b);
    let (_, action) = s.judge(Verdict::Proof, &b);
    let Action::Found(m) = action else { panic!("not found") };
    assert_eq!(canonical_form(&m), "a=7;");
}

#[test]
fn an_unknown_verdict_ends_a_search() {
    let b = ExprBuilder::new();
    let (s, _) = search().propose(&b);
    let (_, action) = s.judge(Verdict::Unknown, &b);
    assert!(matches!(action, Action::Failed(Failure::Unknown)));
}

#[test]
fn constraints_without_a_model_end_a_search() {
    let b = ExprBuilder::new();
    let (s, _) = search().propose(&b);
    let (s, _) = s.judge(Verdict::Counterexample(Some(value("x", 1))), &b);
    let (_, action) = s.resume(None, &b);
    assert!(matches!(action, Action::Failed(Failure::NoModel)));
}

#[test]
fn a_repeated_proposal_is_noticed() {
    let b = ExprBuilder::new();
    let (s, _) = search().propose(&b);
    let (s, _) = s.judge(Verdict::Counterexample(Some(value("x", 1))), &b);
    let (_, action) = s.resume(Some(value("a", 0)), &b);
    assert!(matches!(action, Action::Repeated));
}

#[test]
fn a_repeated_counterexample_is_noticed() {
    let b = ExprBuilder::new();
    let (s, _) = search().propose(&b);
    let (s, _) = s.judge(Verdict::Counterexample(Some(value("x", 1))), &b);
    let (s, _) = s.resume(Some(value("a", 4)), &b);
    let (_, action) = s.judge(Verdict::Counterexample(Some(value("x", 1))), &b);
    assert!(matches!(action, Action::Repeated));
}

#[test]
fn a_counterexample_without_a_model_repeats_the_proposal() {
    let b = ExprBuilder::new();
    let (s, _) = search().propose(&b);
    let (s, action) = s.judge(Verdict::Counterexample(None), &b);
    assert!(matches!(action, Action::Repeated));
    assert_eq!(s.iteration(), 2);
}

#[test]
fn a_search_is_given_up_after_too_many_proposals() {
    let b = ExprBuilder::new();
    let (mut s, mut action) = search().propose(&b);
    let mut n = 0;
    loop {
        n += 1;
        assert!(matches!(action, Action::Check(_)));
        let (next, reply) = s.judge(Verdict::Counterexample(Some(value("x", n))), &b);
        if next.iteration() == MAX_CEGIS_ITERS {
            assert!(matches!(reply, Action::Failed(Failure::TooManyIterations)));
            break;
        }
        (s, action) = next.resume(Some(value("a", n)), &b);
    }
    assert_eq!(n, 3000);
}

#[test]
fn templates_are_instantiated() {
    let templates = vec![(condition(), vec![], 1, 1)];
    let found = instantiate_templates(&templates, &value("a", 3));
    assert_eq!(found.len(), 1);
    assert_eq!(render(&found[0]), "(<= v.x 3)");
}

#[test]
fn rounds_go_on_until_definitions_are_found() {
    let mut p = Progress::new();
    assert!(p.more_rounds());
    assert_eq!(p.split_count, 1);
    p.finish_unit(Outcome::Failed, 4, 10);
    assert_eq!(p.split_count, 2);
    assert!(p.more_rounds());
    assert!(!p.succeeded());
    p.finish_unit(Outcome::Proved, 3, 5);
    assert_eq!(p.split_count, MAX_SPLIT_COUNT + 2);
    assert!(!p.more_rounds());
    assert_eq!(p.num_proven, 1);
    assert_eq!(p.num_failures, 1);
    assert_eq!(p.total_num_cegis_its, 7);
    assert_eq!(p.template_satchecks, 15);
    assert!(!p.succeeded());
}

#[test]
fn rounds_end_without_definitions() {
    let mut p = Progress::new();
    let mut rounds = 0;
    while p.more_rounds() {
        assert!(p.has_room(1, 1));
        p.finish_unit(Outcome::Failed, 1, 1);
        rounds += 1;
    }
    assert_eq!(rounds, 30);
    assert_eq!(p.num_failures, 30);
    let mut q = Progress::new();
    q.finish_unit(Outcome::Proved, 1, 1);
    assert!(q.succeeded());
}

#[test]
fn counts_that_do_not_fit_are_noticed() {
    let p = Progress { total_num_cegis_its: usize::MAX - 1, ..Progress::new() };
    assert!(p.has_room(1, 0));
    assert!(!p.has_room(2, 0));
    let p = Progress { template_satchecks: usize::MAX, ..Progress::new() };
    assert!(p.has_room(0, 0));
    assert!(!p.has_room(0, 1));
}

#[test]
fn different_mappings_are_written_out_differently() {
    let mut two = value("a", 1);
    two.insert("b".to_string(), ExprBuilder::new().int_lit(2, TyKind::Int));
    let one = value("a=1;b", 2);
    assert_eq!(canonical_form(&two), "a=1;b=2;");
    assert_eq!(canonical_form(&one), "a.61.1.59.b=2;");
    assert_ne!(canonical_form(&value("a", 1)), canonical_form(&value("a", -1)));
}
