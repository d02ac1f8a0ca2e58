//! Pieces: polynomials with unknown coefficients, each where a guard and a split
//! hold.

use vstd::arithmetic::div_mod::lemma_fundamental_div_mod_converse;
use vstd::prelude::*;

use crate::ast::{share, terms, BinOpKind, Expr, ExprBuilder, Ident, Term, TyKind, UnOpKind};
use crate::decls::{DeclModel, TyCtx, VarDecl};
use crate::polynomial::{
    are_vars, build_polynomial_combination, clamp_type, clamp_type_of, decl_names, declaring,
    lemma_declaring_add, lemma_declaring_vars, sum, typed, vars_as, Coefficients, TemplateVars,
};
use crate::solver::{asked, lemma_asked_add, lemma_nothing_asked, SatOracle};
use crate::text::{decimal, push_decimal};

verus! {

/// What the pieces of a template have in common: the function they are for, the
/// number behind the names of their coefficients, the type of the coefficients,
/// the type of the function, the degree, and the variables.
pub struct Shape {
    pub synth: Seq<char>,
    pub suffix: nat,
    pub ty: TyKind,
    pub output: TyKind,
    pub max_degree: nat,
    pub params: Seq<Seq<char>>,
}

impl Shape {
    /// The coefficients of the piece for the guard `i` and the split `s`.
    pub open spec fn coefficients(self, i: nat, s: nat) -> Coefficients {
        Coefficients {
            synth: self.synth,
            addon: decimal(i) + "_"@ + decimal(s),
            suffix: self.suffix,
            ty: self.ty,
        }
    }

    /// The names of the coefficients of a piece.
    pub open spec fn piece_names(self, i: nat, s: nat) -> Seq<Seq<char>> {
        self.coefficients(i, s).names(self.params.len() as int, self.max_degree)
    }

    /// The piece for the guard `i` and the split `s`, which is not zero only where
    /// `both` holds.
    pub open spec fn piece(
        self,
        i: nat,
        s: nat,
        both: Term,
        ctx: Map<Seq<char>, DeclModel>,
    ) -> Term {
        Term::binary(
            BinOpKind::Mul,
            clamp_type(self.ty),
            Term::unary(UnOpKind::Iverson, clamp_type(self.ty), both),
            self.coefficients(i, s).combination(
                vars_as(ctx, self.params, self.ty),
                self.max_degree,
                self.output,
            ),
        )
    }
}

/// A guard and a split together. The pairs are counted guard by guard.
pub open spec fn pair(guards: Seq<Term>, splits: Seq<Term>, k: nat) -> Term {
    Term::and(guards[(k / splits.len()) as int], splits[(k % splits.len()) as int])
}

/// What the pairs of guards and splits so far have come to.
pub struct Assembly {
    /// The pieces for the pairs that can be true.
    pub pieces: Seq<Term>,
    /// The names of their coefficients.
    pub names: Seq<Seq<char>>,
    /// The pairs that were checked.
    pub queries: Seq<Term>,
}

/// The first `k` pairs of guards and splits, with the answers from the `at`th on.
pub open spec fn assembled(
    shape: Shape,
    guards: Seq<Term>,
    splits: Seq<Term>,
    answers: Seq<bool>,
    at: nat,
    ctx: Map<Seq<char>, DeclModel>,
    k: nat,
) -> Assembly
    decreases k,
{
    if k == 0 {
        Assembly { pieces: seq![], names: seq![], queries: seq![] }
    } else {
        let j = (k - 1) as nat;
        let before = assembled(shape, guards, splits, answers, at, ctx, j);
        let both = pair(guards, splits, j);
        let (i, s) = (j / splits.len(), j % splits.len());
        if answers[(at + j) as int] {
            Assembly {
                pieces: before.pieces.push(
                    shape.piece(i, s, both, declaring(ctx, before.names, shape.ty)),
                ),
                names: before.names + shape.piece_names(i, s),
                queries: before.queries.push(both),
            }
        } else {
            Assembly { queries: before.queries.push(both), ..before }
        }
    }
}

/// The sum of the pieces, where there are any.
pub open spec fn piecewise(shape: Shape, pieces: Seq<Term>) -> Option<Term> {
    if pieces.len() == 0 {
        None
    } else {
        Some(sum(clamp_type(shape.ty), pieces))
    }
}

/// The model of an optional expression.
pub open spec fn opt_term(e: Option<Expr>) -> Option<Term> {
    match e {
        Some(e) => Some(e@),
        None => None,
    }
}

/// As many pairs are checked as there are.
pub proof fn lemma_assembled_queries(
    shape: Shape,
    guards: Seq<Term>,
    splits: Seq<Term>,
    answers: Seq<bool>,
    at: nat,
    ctx: Map<Seq<char>, DeclModel>,
    k: nat,
)
    ensures
        assembled(shape, guards, splits, answers, at, ctx, k).queries == Seq::new(
            k,
            |j: int| pair(guards, splits, j as nat),
        ),
    decreases k,
{
    let a = assembled(shape, guards, splits, answers, at, ctx, k);
    if k > 0 {
        lemma_assembled_queries(shape, guards, splits, answers, at, ctx, (k - 1) as nat);
    }
    assert(a.queries =~= Seq::new(k, |j: int| pair(guards, splits, j as nat)));
}

/// Answers behind those that the pairs used do not change what they come to.
pub proof fn lemma_assembled_stable(
    shape: Shape,
    guards: Seq<Term>,
    splits: Seq<Term>,
    a: Seq<bool>,
    b: Seq<bool>,
    at: nat,
    ctx: Map<Seq<char>, DeclModel>,
    k: nat,
)
    requires
        a.len() <= b.len(),
        a == b.take(a.len() as int),
        at + k <= a.len(),
    ensures
        assembled(shape, guards, splits, a, at, ctx, k) == assembled(
            shape,
            guards,
            splits,
            b,
            at,
            ctx,
            k,
        ),
    decreases k,
{
    if k > 0 {
        lemma_assembled_stable(shape, guards, splits, a, b, at, ctx, (k - 1) as nat);
        assert(a[at + k - 1] == b[at + k - 1]);
    }
}

/// What the name of each coefficient of a piece holds behind that of the function.
fn piece_addon(i: usize, s: usize) -> (r: String)
    ensures
        r@ == decimal(i as nat) + "_"@ + decimal(s as nat),
{
    let mut r = String::new();
    push_decimal(&mut r, i);
    r.append("_");
    push_decimal(&mut r, s);
    assert(r@ =~= decimal(i as nat) + "_"@ + decimal(s as nat));
    r
}

/// The sum, over the guards and splits that can be true together, of a polynomial
/// with new coefficients where both hold; `None` where no guard and split can be
/// true together. Also how many pairs were checked, and how many can be true.
pub fn assemble_piecewise_expression(
    synth_name: &Ident,
    collected_guards: &[Expr],
    split_conditions: &Vec<Expr>,
    builder: &ExprBuilder,
    tcx: &mut TyCtx,
    oracle: &mut SatOracle,
    template_vars: &mut TemplateVars,
    program_var_decls: &[VarDecl],
    output_type: TyKind,
    max_degree: usize,
) -> (r: (Option<Expr>, usize, usize))
    requires
        old(template_vars).split_count < usize::MAX,
        are_vars(old(tcx)@, decl_names(program_var_decls@)),
    ensures
        ({
            let shape = Shape {
                synth: synth_name@,
                suffix: (old(template_vars).split_count + 1) as nat,
                ty: old(template_vars).ty,
                output: output_type,
                max_degree: max_degree as nat,
                params: decl_names(program_var_decls@),
            };
            let a = assembled(
                shape,
                terms(collected_guards@),
                terms(split_conditions@),
                final(oracle).answers(),
                old(oracle).taken(),
                old(tcx)@,
                collected_guards@.len() * split_conditions@.len(),
            );
            &&& opt_term(r.0) == piecewise(shape, a.pieces)
            &&& r.1 == collected_guards@.len() * split_conditions@.len()
            &&& r.2 == a.pieces.len()
            &&& asked(*old(oracle), *final(oracle), a.queries)
            &&& final(tcx)@ == declaring(old(tcx)@, a.names, shape.ty)
            &&& final(template_vars)@ == old(template_vars)@ + typed(a.names, shape.ty)
        }),
        final(template_vars).split_count == old(template_vars).split_count,
        final(template_vars).ty == old(template_vars).ty,
{
    let ty = template_vars.ty;
    let ghost shape = Shape {
        synth: synth_name@,
        suffix: (template_vars.split_count + 1) as nat,
        ty,
        output: output_type,
        max_degree: max_degree as nat,
        params: decl_names(program_var_decls@),
    };
    let ghost guards = terms(collected_guards@);
    let ghost splits = terms(split_conditions@);
    let ghost start = *oracle;
    let ghost at = oracle.taken();
    let ghost ctx = tcx@;
    let ghost before = template_vars@;
    let ghost mut k: nat = 0;
    let ghost mut acc = Assembly { pieces: seq![], names: seq![], queries: seq![] };
    let clamp_ty = clamp_type_of(ty);
    let mut final_expr: Option<Expr> = None;
    let mut num_sat_checks: usize = 0;
    let mut num_guard_expressions: usize = 0;
    proof {
        lemma_nothing_asked(start);
        assert(before + typed(seq![], ty) =~= before);
        assert(0 * splits.len() == 0);
    }
    for i_idx in 0..collected_guards.len()
        invariant
            template_vars.split_count < usize::MAX,
            template_vars.split_count == old(template_vars).split_count,
            template_vars.ty == ty,
            shape == (Shape {
                synth: synth_name@,
                suffix: (template_vars.split_count + 1) as nat,
                ty,
                output: output_type,
                max_degree: max_degree as nat,
                params: decl_names(program_var_decls@),
            }),
            are_vars(ctx, decl_names(program_var_decls@)),
            guards == terms(collected_guards@),
            splits == terms(split_conditions@),
            at == start.taken(),
            clamp_ty == clamp_type(ty),
            k == i_idx * splits.len(),
            acc == assembled(shape, guards, splits, oracle.answers(), at, ctx, k),
            asked(start, *oracle, acc.queries),
            acc.queries.len() == k,
            acc.pieces.len() <= k,
            opt_term(final_expr) == piecewise(shape, acc.pieces),
            num_sat_checks == k,
            num_guard_expressions == acc.pieces.len(),
            tcx@ == declaring(ctx, acc.names, ty),
            template_vars@ == before + typed(acc.names, ty),
    {
        for s_idx in 0..split_conditions.len()
            invariant
                i_idx < collected_guards@.len(),
                template_vars.split_count < usize::MAX,
                template_vars.split_count == old(template_vars).split_count,
                template_vars.ty == ty,
                shape == (Shape {
                    synth: synth_name@,
                    suffix: (template_vars.split_count + 1) as nat,
                    ty,
                    output: output_type,
                    max_degree: max_degree as nat,
                    params: decl_names(program_var_decls@),
                }),
                are_vars(ctx, decl_names(program_var_decls@)),
                guards == terms(collected_guards@),
                splits == terms(split_conditions@),
                at == start.taken(),
                clamp_ty == clamp_type(ty),
                k == i_idx * splits.len() + s_idx,
                acc == assembled(shape, guards, splits, oracle.answers(), at, ctx, k),
                asked(start, *oracle, acc.queries),
                acc.queries.len() == k,
                acc.pieces.len() <= k,
                opt_term(final_expr) == piecewise(shape, acc.pieces),
                num_sat_checks == k,
                num_guard_expressions == acc.pieces.len(),
                tcx@ == declaring(ctx, acc.names, ty),
                template_vars@ == before + typed(acc.names, ty),
        {
            proof {
                lemma_fundamental_div_mod_converse(
                    k as int,
                    splits.len() as int,
                    i_idx as int,
                    s_idx as int,
                );
            }
            let both = builder.binary(
                BinOpKind::And,
                TyKind::Bool,
                share(&collected_guards[i_idx]),
                share(&split_conditions[s_idx]),
            );
            assert(both@ == pair(guards, splits, k));
            let ghost mid = *oracle;
            let sat = oracle.check_sat(&both);
            proof {
                let end = *oracle;
                lemma_assembled_stable(
                    shape,
                    guards,
                    splits,
                    mid.answers(),
                    end.answers(),
                    at,
                    ctx,
                    k,
                );
                lemma_asked_add(start, mid, end, acc.queries, seq![both@]);
                assert(acc.queries + seq![both@] =~= acc.queries.push(both@));
                end.lemma_taken_fits();
            }
            let ghost next = assembled(
                shape,
                guards,
                splits,
                oracle.answers(),
                at,
                ctx,
                (k + 1) as nat,
            );
            num_sat_checks = num_sat_checks + 1;
            if sat {
                num_guard_expressions = num_guard_expressions + 1;
                let iverson_both = builder.unary(UnOpKind::Iverson, clamp_ty, both);
                proof {
                    lemma_declaring_vars(ctx, acc.names, ty, shape.params);
                }
                let lc = build_polynomial_combination(
                    &piece_addon(i_idx, s_idx),
                    synth_name,
                    builder,
                    tcx,
                    template_vars,
                    program_var_decls,
                    output_type,
                    max_degree,
                );
                let full = builder.binary(BinOpKind::Mul, clamp_ty, iverson_both, lc);
                proof {
                    let names = shape.piece_names(i_idx as nat, s_idx as nat);
                    lemma_declaring_add(ctx, acc.names, names, ty);
                    assert(before + typed(acc.names, ty) + typed(names, ty) =~= before + typed(
                        acc.names + names,
                        ty,
                    ));
                    assert(acc.pieces.push(full@).drop_last() =~= acc.pieces);
                    assert(next.pieces == acc.pieces.push(full@));
                }
                final_expr = Some(
                    match final_expr {
                        None => full,
                        Some(so_far) => builder.binary(BinOpKind::Add, clamp_ty, so_far, full),
                    },
                );
            }
            proof {
                acc = next;
                k = k + 1;
            }
        }
        proof {
            let m = splits.len() as int;
            assert((i_idx + 1) * m == i_idx * m + m) by (nonlinear_arith);
        }
    }
    (final_expr, num_sat_checks, num_guard_expressions)
}

/// There is an expression exactly where there is a piece, and one piece is the expression.
pub proof fn lemma_piecewise(shape: Shape, pieces: Seq<Term>)
    ensures
        piecewise(shape, pieces) is None <==> pieces.len() == 0,
        pieces.len() == 1 ==> piecewise(shape, pieces) == Some(pieces[0]),
        pieces.len() > 1 ==> (piecewise(shape, pieces) matches Some(t) && t.ty == Some(
            clamp_type(shape.ty),
        )),
{
}

/// A pair is a guard and a split, counted guard by guard.
pub proof fn lemma_pair_parts(guards: Seq<Term>, splits: Seq<Term>, i: int, s: int)
    requires
        0 <= i < guards.len(),
        0 <= s < splits.len(),
    ensures
        pair(guards, splits, (i * splits.len() + s) as nat) == Term::and(guards[i], splits[s]),
{
    let m = splits.len() as int;
    assert(0 <= i * m) by (nonlinear_arith)
        requires
            i >= 0,
            m > 0,
    ;
    lemma_fundamental_div_mod_converse(i * m + s, m, i, s);
}

} // verus!
