//! Expressions and how they are built.
//!
//! An expression is a shared, immutable tree. Its mathematical model is a
//! [`Term`]: an operator, the terms below it, and its type.

use std::rc::Rc;
use vstd::prelude::*;

use crate::decls::TyCtx;
use crate::rational::{rational_from_integer, Rational};

verus! {

/// An identifier.
#[derive(Debug)]
pub struct Ident {
    pub name: String,
}

impl Ident {
    /// The identifier with the given name.
    pub fn new(name: &str) -> (id: Ident)
        ensures
            id@ == name@,
    {
        Ident { name: name.to_owned() }
    }

    /// A second identifier of the same name.
    pub fn copy(&self) -> (id: Ident)
        ensures
            id@ == self@,
    {
        Ident { name: self.name.clone() }
    }

    /// Whether two identifiers have the same name.
    pub fn same(&self, other: &Ident) -> (r: bool)
        ensures
            r == (self@ == other@),
    {
        self.name == other.name
    }
}

impl View for Ident {
    type V = Seq<char>;

    open spec fn view(&self) -> Seq<char> {
        self.name@
    }
}

/// The types of expressions.
#[derive(Clone, Copy, PartialEq, Eq, Structural, Debug)]
pub enum TyKind {
    Bool,
    Int,
    UInt,
    Real,
    UReal,
    EUReal,
}

/// The operators with two operands.
#[derive(Clone, Copy, PartialEq, Eq, Structural, Debug)]
pub enum BinOpKind {
    Add,
    Sub,
    Mul,
    Div,
    And,
    Or,
    Eq,
    Ne,
    Lt,
    Le,
    Gt,
    Ge,
    Impl,
    CoImpl,
}

/// The operators with one operand.
#[derive(Clone, Copy, PartialEq, Eq, Structural, Debug)]
pub enum UnOpKind {
    Not,
    Iverson,
}

/// Literals.
#[derive(Debug)]
pub enum Lit {
    Bool(bool),
    Number(Rational),
}

/// A shared expression.
pub type Expr = Rc<ExprData>;

/// The root of an expression, with its type once that is known.
#[derive(Debug)]
pub struct ExprData {
    pub kind: ExprKind,
    pub ty: Option<TyKind>,
}

/// The kinds of expressions. `Subst(x, v, e)` is `e` with `v` for `x`.
#[derive(Debug)]
pub enum ExprKind {
    Var(Ident),
    Lit(Lit),
    Call(Ident, Vec<Expr>),
    Ite(Expr, Expr, Expr),
    Binary(BinOpKind, Expr, Expr),
    Unary(UnOpKind, Expr),
    Cast(Expr),
    Subst(Ident, Expr, Expr),
}

/// What stands at the root of a term.
pub enum Op {
    Var(Seq<char>),
    Bool(bool),
    Number(real),
    Call(Seq<char>),
    Ite,
    Binary(BinOpKind),
    Unary(UnOpKind),
    Cast,
    Subst(Seq<char>),
}

/// The model of an expression: its root, the terms below it from left to
/// right, and its type.
pub struct Term {
    pub op: Op,
    pub kids: Seq<Term>,
    pub ty: Option<TyKind>,
}

impl Term {
    /// The variable `name`.
    pub open spec fn var(name: Seq<char>, ty: TyKind) -> Term {
        Term { op: Op::Var(name), kids: seq![], ty: Some(ty) }
    }

    /// A truth value.
    pub open spec fn boolean(b: bool) -> Term {
        Term { op: Op::Bool(b), kids: seq![], ty: Some(TyKind::Bool) }
    }

    /// A number of the type `ty`.
    pub open spec fn number(x: real, ty: TyKind) -> Term {
        Term { op: Op::Number(x), kids: seq![], ty: Some(ty) }
    }

    /// The call of `f` on `args`.
    pub open spec fn call(f: Seq<char>, args: Seq<Term>, ty: TyKind) -> Term {
        Term { op: Op::Call(f), kids: args, ty: Some(ty) }
    }

    /// `if c then a else b`.
    pub open spec fn ite(ty: TyKind, c: Term, a: Term, b: Term) -> Term {
        Term { op: Op::Ite, kids: seq![c, a, b], ty: Some(ty) }
    }

    /// `a op b`.
    pub open spec fn binary(op: BinOpKind, ty: TyKind, a: Term, b: Term) -> Term {
        Term { op: Op::Binary(op), kids: seq![a, b], ty: Some(ty) }
    }

    /// `op a`.
    pub open spec fn unary(op: UnOpKind, ty: TyKind, a: Term) -> Term {
        Term { op: Op::Unary(op), kids: seq![a], ty: Some(ty) }
    }

    /// `a` seen as a value of the type `ty`.
    pub open spec fn cast(ty: TyKind, a: Term) -> Term {
        Term { op: Op::Cast, kids: seq![a], ty: Some(ty) }
    }

    /// `a && b`.
    pub open spec fn and(a: Term, b: Term) -> Term {
        Term::binary(BinOpKind::And, TyKind::Bool, a, b)
    }

    /// `!a`.
    pub open spec fn not(a: Term) -> Term {
        Term::unary(UnOpKind::Not, TyKind::Bool, a)
    }
}

impl ExprData {
    /// The model of this expression.
    pub open spec fn term(self) -> Term
        decreases self,
    {
        match self.kind {
            ExprKind::Var(id) => Term { op: Op::Var(id@), kids: seq![], ty: self.ty },
            ExprKind::Lit(Lit::Bool(b)) => Term { op: Op::Bool(b), kids: seq![], ty: self.ty },
            ExprKind::Lit(Lit::Number(x)) => Term { op: Op::Number(x@), kids: seq![], ty: self.ty },
            ExprKind::Call(f, args) => Term {
                op: Op::Call(f@),
                kids: Seq::new(
                    args@.len(),
                    |i: int|
                        if 0 <= i < args@.len() {
                            (*args@[i]).term()
                        } else {
                            arbitrary()
                        },
                ),
                ty: self.ty,
            },
            ExprKind::Ite(c, a, b) => Term {
                op: Op::Ite,
                kids: seq![(*c).term(), (*a).term(), (*b).term()],
                ty: self.ty,
            },
            ExprKind::Binary(op, a, b) => Term {
                op: Op::Binary(op),
                kids: seq![(*a).term(), (*b).term()],
                ty: self.ty,
            },
            ExprKind::Unary(op, a) => Term {
                op: Op::Unary(op),
                kids: seq![(*a).term()],
                ty: self.ty,
            },
            ExprKind::Cast(a) => Term { op: Op::Cast, kids: seq![(*a).term()], ty: self.ty },
            ExprKind::Subst(x, v, e) => Term {
                op: Op::Subst(x@),
                kids: seq![(*v).term(), (*e).term()],
                ty: self.ty,
            },
        }
    }
}

impl View for ExprData {
    type V = Term;

    open spec fn view(&self) -> Term {
        self.term()
    }
}

/// The model of an expression has its type and, where it is a literal, the literal
/// for its root and nothing below.
pub proof fn lemma_view(e: &ExprData)
    ensures
        e@.ty == e.ty,
        e.kind matches ExprKind::Lit(l) ==> e@.kids.len() == 0 && e@.op == (match l {
            Lit::Bool(b) => Op::Bool(b),
            Lit::Number(x) => Op::Number(x@),
        }),
{
    match e.kind {
        ExprKind::Lit(Lit::Bool(_)) => {},
        ExprKind::Lit(Lit::Number(_)) => {},
        _ => {},
    }
}

/// The models of a sequence of expressions.
pub open spec fn terms(es: Seq<Expr>) -> Seq<Term> {
    es.map_values(|e: Expr| e@)
}

/// `std::rc::Rc::clone`: a second handle on the same expression.
#[verifier::external_body]
pub(crate) fn share(e: &Expr) -> (r: Expr)
    ensures
        r == *e,
{
    Rc::clone(e)
}

/// `std::rc::Rc::ptr_eq`: whether two handles share one allocation. Handles
/// that do hold the same expression; of handles that do not, nothing is said.
#[verifier::external_body]
pub(crate) fn same_node(a: &Expr, b: &Expr) -> (r: bool)
    ensures
        r ==> *a == *b,
{
    Rc::ptr_eq(a, b)
}

/// Second handles on each of the expressions `es`.
pub fn share_all(es: &Vec<Expr>) -> (r: Vec<Expr>)
    ensures
        r@ == es@,
{
    let mut r: Vec<Expr> = Vec::new();
    for i in 0..es.len()
        invariant
            r@ == es@.take(i as int),
    {
        r.push(share(&es[i]));
        assert(es@.take(i + 1) =~= es@.take(i as int).push(es@[i as int]));
    }
    assert(es@.take(es@.len() as int) =~= es@);
    r
}

/// The expressions directly below `expr`, from left to right.
pub fn children(expr: &Expr) -> (r: Vec<Expr>)
    ensures
        terms(r@) =~= expr@.kids,
{
    let mut r: Vec<Expr> = Vec::new();
    match &expr.kind {
        ExprKind::Var(_) => {},
        ExprKind::Lit(_) => {
            proof {
                lemma_view(&**expr);
            }
        },
        ExprKind::Call(_, args) => {
            r = share_all(args);
        },
        ExprKind::Ite(c, a, b) => {
            r.push(share(c));
            r.push(share(a));
            r.push(share(b));
        },
        ExprKind::Binary(_, a, b) => {
            r.push(share(a));
            r.push(share(b));
        },
        ExprKind::Unary(_, a) => {
            r.push(share(a));
        },
        ExprKind::Cast(a) => {
            r.push(share(a));
        },
        ExprKind::Subst(_, v, e) => {
            r.push(share(v));
            r.push(share(e));
        },
    }
    r
}

/// `expr` with the expressions directly below it replaced by `kids`.
pub fn with_children(expr: &Expr, kids: &Vec<Expr>) -> (r: Expr)
    requires
        kids@.len() == expr@.kids.len(),
    ensures
        r@ == (Term { op: expr@.op, kids: terms(kids@), ty: expr@.ty }),
{
    let ghost ks = terms(kids@);
    proof {
        lemma_view(&**expr);
        assert(forall|i: int| 0 <= i < ks.len() ==> #[trigger] ks[i] == kids@[i]@);
    }
    let kind = match &expr.kind {
        ExprKind::Var(_) | ExprKind::Lit(_) => {
            assert(ks =~= expr@.kids);
            return share(expr);
        },
        ExprKind::Call(f, _) => ExprKind::Call(f.copy(), share_all(kids)),
        ExprKind::Ite(_, _, _) => ExprKind::Ite(share(&kids[0]), share(&kids[1]), share(&kids[2])),
        ExprKind::Binary(op, _, _) => ExprKind::Binary(*op, share(&kids[0]), share(&kids[1])),
        ExprKind::Unary(op, _) => ExprKind::Unary(*op, share(&kids[0])),
        ExprKind::Cast(_) => ExprKind::Cast(share(&kids[0])),
        ExprKind::Subst(x, _, _) => ExprKind::Subst(x.copy(), share(&kids[0]), share(&kids[1])),
    };
    let r = Rc::new(ExprData { kind, ty: expr.ty });
    assert(r@.kids =~= ks);
    r
}

/// Builds expressions.
#[derive(Debug)]
pub struct ExprBuilder {}

impl ExprBuilder {
    /// A new builder.
    pub fn new() -> ExprBuilder {
        ExprBuilder {  }
    }

    /// The variable `ident`, with the type of its declaration.
    pub fn var(&self, ident: &Ident, tcx: &TyCtx) -> (r: Expr)
        requires
            tcx@.dom().contains(ident@),
            tcx@[ident@] is Var,
        ensures
            r@ == Term::var(ident@, tcx@[ident@]->ty),
    {
        Rc::new(ExprData { kind: ExprKind::Var(ident.copy()), ty: tcx.var_type(ident) })
    }

    /// `operand` as a value of the type `ty`.
    pub fn cast(&self, ty: TyKind, operand: Expr) -> (r: Expr)
        ensures
            r@ == Term::cast(ty, operand@),
    {
        Rc::new(ExprData { kind: ExprKind::Cast(operand), ty: Some(ty) })
    }

    /// `lhs op rhs`, of the type `ty`.
    pub fn binary(&self, op: BinOpKind, ty: TyKind, lhs: Expr, rhs: Expr) -> (r: Expr)
        ensures
            r@ == Term::binary(op, ty, lhs@, rhs@),
    {
        Rc::new(ExprData { kind: ExprKind::Binary(op, lhs, rhs), ty: Some(ty) })
    }

    /// `op operand`, of the type `ty`.
    pub fn unary(&self, op: UnOpKind, ty: TyKind, operand: Expr) -> (r: Expr)
        ensures
            r@ == Term::unary(op, ty, operand@),
    {
        Rc::new(ExprData { kind: ExprKind::Unary(op, operand), ty: Some(ty) })
    }

    /// `if cond then a else b`, of the type `ty`.
    pub fn ite(&self, ty: TyKind, cond: Expr, a: Expr, b: Expr) -> (r: Expr)
        ensures
            r@ == Term::ite(ty, cond@, a@, b@),
    {
        Rc::new(ExprData { kind: ExprKind::Ite(cond, a, b), ty: Some(ty) })
    }

    /// The call of `f` on the one argument `arg`, of the type `ty`.
    pub fn call(&self, ty: TyKind, f: &str, arg: Expr) -> (r: Expr)
        ensures
            r@ == Term::call(f@, seq![arg@], ty),
    {
        let mut args: Vec<Expr> = Vec::new();
        args.push(arg);
        let r = Rc::new(ExprData { kind: ExprKind::Call(Ident::new(f), args), ty: Some(ty) });
        assert(r@.kids =~= seq![arg@]);
        r
    }

    /// A truth value.
    pub fn bool_lit(&self, value: bool) -> (r: Expr)
        ensures
            r@ == Term::boolean(value),
    {
        Rc::new(ExprData { kind: ExprKind::Lit(Lit::Bool(value)), ty: Some(TyKind::Bool) })
    }

    /// The number zero, of the type `ty`.
    pub fn zero_lit(&self, ty: TyKind) -> (r: Expr)
        ensures
            r@ == Term::number(0real, ty),
    {
        let zero = rational_from_integer(0);
        Rc::new(ExprData { kind: ExprKind::Lit(Lit::Number(zero)), ty: Some(ty) })
    }

    /// The number one, of the type `ty`.
    pub fn one_lit(&self, ty: TyKind) -> (r: Expr)
        ensures
            r@ == Term::number(1real, ty),
    {
        let one = rational_from_integer(1);
        Rc::new(ExprData { kind: ExprKind::Lit(Lit::Number(one)), ty: Some(ty) })
    }

    /// The integer `value`, of the type `ty`.
    pub fn int_lit(&self, value: i64, ty: TyKind) -> (r: Expr)
        ensures
            r@ == Term::number(value as real, ty),
    {
        let number = rational_from_integer(value);
        Rc::new(ExprData { kind: ExprKind::Lit(Lit::Number(number)), ty: Some(ty) })
    }

    /// The rational number `value`, of the type `Real`.
    pub fn signed_frac_lit(&self, value: Rational) -> (r: Expr)
        ensures
            r@ == Term::number(value@, TyKind::Real),
    {
        Rc::new(ExprData { kind: ExprKind::Lit(Lit::Number(value)), ty: Some(TyKind::Real) })
    }
}

/// The two sides of a verification condition that is an implication or a
/// co-implication.
pub fn _split_vc(expr: &Expr) -> (r: (&Expr, &Expr))
    requires
        expr@.op == Op::Binary(BinOpKind::Impl) || expr@.op == Op::Binary(BinOpKind::CoImpl),
    ensures
        r.0@ == expr@.kids[0],
        r.1@ == expr@.kids[1],
{
    match &expr.kind {
        ExprKind::Binary(_, lhs, rhs) => (lhs, rhs),
        _ => {
            proof {
                lemma_view(&**expr);
            }
            (expr, expr)
        },
    }
}

} // verus!
