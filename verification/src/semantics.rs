//! What terms mean: the number or truth value that a term stands for under a
//! valuation of its variables and functions.

use vstd::prelude::*;

use crate::ast::{lemma_view, BinOpKind, ExprData, ExprKind, Op, Term, UnOpKind};

verus! {

/// What a term can stand for.
pub enum Value {
    Number(real),
    Truth(bool),
}

impl Value {
    /// The number; 0 for a truth value.
    pub open spec fn number(self) -> real {
        match self {
            Value::Number(x) => x,
            Value::Truth(_) => 0real,
        }
    }

    /// The truth value; false for a number.
    pub open spec fn truth(self) -> bool {
        self == Value::Truth(true)
    }
}

/// Values for variables, and functions on values.
#[verifier::ext_equal]
pub struct Valuation {
    pub vars: spec_fn(Seq<char>) -> Value,
    pub functions: spec_fn(Seq<char>, Seq<Value>) -> Value,
}

impl Valuation {
    /// This valuation with `v` for `name`.
    pub open spec fn bind(self, name: Seq<char>, v: Value) -> Valuation {
        Valuation {
            vars: |n: Seq<char>|
                if n == name {
                    v
                } else {
                    (self.vars)(n)
                },
            functions: self.functions,
        }
    }
}

/// Whether a root can have `n` terms below it.
pub open spec fn arity_fits(op: Op, n: nat) -> bool {
    match op {
        Op::Var(_) | Op::Bool(_) | Op::Number(_) | Op::Call(_) => true,
        Op::Ite => n == 3,
        Op::Binary(_) | Op::Subst(_) => n == 2,
        Op::Unary(_) | Op::Cast => n == 1,
    }
}

/// Whether each root in `t` has as many terms below it as it should have, and variables
/// and literals have none.
pub open spec fn well_formed(t: Term) -> bool
    decreases t,
{
    &&& arity_fits(t.op, t.kids.len())
    &&& t.op is Var || t.op is Bool || t.op is Number ==> t.kids.len() == 0
    &&& forall|i: int| 0 <= i < t.kids.len() ==> well_formed(#[trigger] t.kids[i])
}

/// The models of expressions are well-formed.
pub proof fn lemma_view_well_formed(e: &ExprData)
    ensures
        well_formed(e@),
    decreases e,
{
    lemma_view(e);
    match e.kind {
        ExprKind::Call(_, args) => {
            assert forall|i: int| 0 <= i < e@.kids.len() implies well_formed(
                #[trigger] e@.kids[i],
            ) by {
                assert(e@.kids[i] == args@[i]@);
                lemma_view_well_formed(&*args@[i]);
            }
        },
        ExprKind::Ite(c, a, b) => {
            lemma_view_well_formed(&*c);
            lemma_view_well_formed(&*a);
            lemma_view_well_formed(&*b);
        },
        ExprKind::Binary(_, a, b) => {
            lemma_view_well_formed(&*a);
            lemma_view_well_formed(&*b);
        },
        ExprKind::Unary(_, a) => {
            lemma_view_well_formed(&*a);
        },
        ExprKind::Cast(a) => {
            lemma_view_well_formed(&*a);
        },
        ExprKind::Subst(_, v, b) => {
            lemma_view_well_formed(&*v);
            lemma_view_well_formed(&*b);
        },
        _ => {},
    }
}

/// What `op` makes of two values.
pub open spec fn apply(op: BinOpKind, a: Value, b: Value) -> Value {
    match op {
        BinOpKind::Add => Value::Number(a.number() + b.number()),
        BinOpKind::Sub => Value::Number(a.number() - b.number()),
        BinOpKind::Mul => Value::Number(a.number() * b.number()),
        BinOpKind::Div => Value::Number(a.number() / b.number()),
        BinOpKind::And => Value::Truth(a.truth() && b.truth()),
        BinOpKind::Or => Value::Truth(a.truth() || b.truth()),
        BinOpKind::Eq => Value::Truth(a == b),
        BinOpKind::Ne => Value::Truth(a != b),
        BinOpKind::Lt => Value::Truth(a.number() < b.number()),
        BinOpKind::Le => Value::Truth(a.number() <= b.number()),
        BinOpKind::Gt => Value::Truth(a.number() > b.number()),
        BinOpKind::Ge => Value::Truth(a.number() >= b.number()),
        BinOpKind::Impl => Value::Truth(a.truth() ==> b.truth()),
        BinOpKind::CoImpl => Value::Truth(!a.truth() && b.truth()),
    }
}

/// What `t` stands for.
pub open spec fn meaning(t: Term, env: Valuation) -> Value
    decreases t, 1nat,
{
    if !arity_fits(t.op, t.kids.len()) {
        Value::Truth(false)
    } else {
        match t.op {
            Op::Var(name) => (env.vars)(name),
            Op::Bool(b) => Value::Truth(b),
            Op::Number(x) => Value::Number(x),
            Op::Call(f) => (env.functions)(f, meanings_below(t, env)),
            Op::Ite => if meaning(t.kids[0], env).truth() {
                meaning(t.kids[1], env)
            } else {
                meaning(t.kids[2], env)
            },
            Op::Binary(op) => apply(op, meaning(t.kids[0], env), meaning(t.kids[1], env)),
            Op::Unary(UnOpKind::Not) => Value::Truth(!meaning(t.kids[0], env).truth()),
            Op::Unary(UnOpKind::Iverson) => Value::Number(
                if meaning(t.kids[0], env).truth() {
                    1real
                } else {
                    0real
                },
            ),
            Op::Cast => meaning(t.kids[0], env),
            Op::Subst(x) => meaning(t.kids[1], env.bind(x, meaning(t.kids[0], env))),
        }
    }
}

/// [`meaning`] of each of the terms below `t`.
pub open spec fn meanings_below(t: Term, env: Valuation) -> Seq<Value>
    decreases t, 0nat,
{
    Seq::new(
        t.kids.len(),
        |i: int|
            if 0 <= i < t.kids.len() {
                meaning(t.kids[i], env)
            } else {
                Value::Truth(false)
            },
    )
}

/// The number that `t` stands for.
pub open spec fn value(t: Term, env: Valuation) -> real {
    meaning(t, env).number()
}

/// Whether `t` stands for truth.
pub open spec fn holds(t: Term, env: Valuation) -> bool {
    meaning(t, env).truth()
}

} // verus!
