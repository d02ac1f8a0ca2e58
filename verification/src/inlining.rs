//! Calls of a function replaced by its definition.

use vstd::prelude::*;

use crate::ast::{
    children, lemma_view, share, terms, with_children, Expr, ExprKind, Ident, Op, Term,
};
use crate::collections::{entries_of, mapping_insert, mapping_new, put, Entries, Mapping};
use crate::decls::Param;
use crate::semantics::{meaning, meanings_below, Valuation, Value};
use crate::substitution::{
    agree, free_vars, lemma_after_put, lemma_meaning_agrees, lemma_resolved_meaning, resolved,
    subst_from_mapping,
};
use crate::template::param_names;

verus! {

/// Each parameter with the argument in its place; the last one of a name counts.
pub open spec fn bound_entries(params: Seq<Seq<char>>, args: Seq<Term>) -> Entries
    decreases params.len(),
{
    if params.len() == 0 {
        seq![]
    } else {
        put(bound_entries(params.drop_last(), args), params.last(), args[params.len() - 1])
    }
}

/// `t` with each call of `f` on as many arguments as there are parameters replaced
/// by `body`, with the arguments for the parameters.
pub open spec fn inlined(t: Term, f: Seq<char>, params: Seq<Seq<char>>, body: Term) -> Term
    decreases t, 1nat,
{
    let below = inlined_below(t, f, params, body);
    if t.op == Op::Call(f) && t.kids.len() == params.len() {
        resolved(body, bound_entries(params, below))
    } else {
        Term { op: t.op, kids: below, ty: t.ty }
    }
}

/// [`inlined`] for each of the terms below `t`.
pub open spec fn inlined_below(
    t: Term,
    f: Seq<char>,
    params: Seq<Seq<char>>,
    body: Term,
) -> Seq<Term>
    decreases t, 0nat,
{
    Seq::new(
        t.kids.len(),
        |i: int|
            if 0 <= i < t.kids.len() {
                inlined(t.kids[i], f, params, body)
            } else {
                t
            },
    )
}

/// The mapping from parameters to the arguments in their places.
fn bind_params(params: &Vec<Param>, args: &Vec<Expr>) -> (m: Mapping)
    requires
        params@.len() == args@.len(),
    ensures
        entries_of(m) == bound_entries(param_names(params@), terms(args@)),
{
    let mut m = mapping_new();
    let ghost names = param_names(params@);
    let ghost ts = terms(args@);
    assert(names.take(0) =~= seq![]);
    for i in 0..params.len()
        invariant
            params@.len() == args@.len(),
            names == param_names(params@),
            ts == terms(args@),
            entries_of(m) == bound_entries(names.take(i as int), ts),
    {
        assert(names.take(i + 1).drop_last() =~= names.take(i as int));
        mapping_insert(&mut m, params[i].name.name.clone(), share(&args[i]));
    }
    assert(names.take(names.len() as int) =~= names);
    m
}

/// `expr` with the calls of `func` replaced by `body`, with the arguments for the
/// parameters.
pub fn inline_function(expr: &Expr, func: &Ident, params: &Vec<Param>, body: &Expr) -> (r: Expr)
    ensures
        r@ == inlined(expr@, func@, param_names(params@), body@),
    decreases expr@,
{
    let ghost t = expr@;
    let ghost names = param_names(params@);
    let ghost below = inlined_below(t, func@, names, body@);
    let kids = children(expr);
    let mut new_kids: Vec<Expr> = Vec::new();
    for i in 0..kids.len()
        invariant
            t == expr@,
            names == param_names(params@),
            terms(kids@) == t.kids,
            below == inlined_below(t, func@, names, body@),
            terms(new_kids@) =~= below.take(i as int),
    {
        assert(t.kids[i as int] == kids@[i as int]@);
        assert(decreases_to!(expr@ => expr@.kids));
        let kid = inline_function(&kids[i], func, params, body);
        let ghost before = terms(new_kids@);
        new_kids.push(kid);
        assert(terms(new_kids@) =~= before.push(kid@));
        assert(below.take(i + 1) =~= before.push(kid@));
    }
    assert(below.take(below.len() as int) =~= below);
    if let ExprKind::Call(g, _) = &expr.kind {
        if g.same(func) && new_kids.len() == params.len() {
            let m = bind_params(params, &new_kids);
            return subst_from_mapping(&m, body);
        }
    } else {
        proof {
            lemma_view(&**expr);
        }
    }
    with_children(expr, &new_kids)
}

/// Whether no substitution in `t` binds a variable that is free in `body`, unless it
/// is one of `params`.
pub open spec fn captures_nothing(t: Term, params: Seq<Seq<char>>, body: Term) -> bool
    decreases t,
{
    &&& t.op matches Op::Subst(x) ==> params.contains(x) || !free_vars(body).contains(x)
    &&& forall|i: int|
        0 <= i < t.kids.len() ==> captures_nothing(#[trigger] t.kids[i], params, body)
}

impl Valuation {
    /// This valuation with `args` for `params`.
    pub open spec fn bind_all(self, params: Seq<Seq<char>>, args: Seq<Value>) -> Valuation
        decreases params.len(),
    {
        if params.len() == 0 {
            self
        } else {
            self.bind_all(params.drop_last(), args).bind(params.last(), args[params.len() - 1])
        }
    }

    /// This valuation with the function `f` defined by `body`.
    pub open spec fn define(
        self,
        f: Seq<char>,
        params: Seq<Seq<char>>,
        body: Term,
    ) -> Valuation {
        Valuation {
            vars: self.vars,
            functions: |g: Seq<char>, args: Seq<Value>|
                if g == f && args.len() == params.len() {
                    meaning(body, self.bind_all(params, args))
                } else {
                    (self.functions)(g, args)
                },
        }
    }
}

proof fn lemma_bound_entries(
    params: Seq<Seq<char>>,
    args: Seq<Term>,
    vs: Seq<Value>,
    env: Valuation,
)
    requires
        params.len() <= args.len(),
        vs.len() == args.len(),
        forall|i: int| 0 <= i < args.len() ==> meaning(#[trigger] args[i], env) == vs[i],
    ensures
        env.after(bound_entries(params, args)) == env.bind_all(params, vs),
    decreases params.len(),
{
    if params.len() == 0 {
        let after = env.after(bound_entries(params, args));
        assert(after =~= env);
    } else {
        let front = params.drop_last();
        lemma_bound_entries(front, args, vs, env);
        lemma_after_put(env, bound_entries(front, args), params.last(), args[params.len() - 1]);
    }
}

/// Binding the parameters hides what they stood for before.
proof fn lemma_bind_all_agrees(
    params: Seq<Seq<char>>,
    args: Seq<Value>,
    a: Valuation,
    b: Valuation,
    x: Seq<char>,
)
    requires
        a.functions == b.functions,
        agree(a, b, x) || params.contains(x),
    ensures
        agree(a.bind_all(params, args), b.bind_all(params, args), x),
        a.bind_all(params, args).functions == a.functions,
        b.bind_all(params, args).functions == b.functions,
    decreases params.len(),
{
    if params.len() > 0 {
        let front = params.drop_last();
        if x == params.last() {
            lemma_bind_all_agrees(front, args, a, a, x);
            lemma_bind_all_agrees(front, args, b, b, x);
        } else {
            if params.contains(x) {
                let i = choose|i: int| 0 <= i < params.len() && params[i] == x;
                assert(front[i] == x);
            }
            lemma_bind_all_agrees(front, args, a, b, x);
        }
    }
}

/// Binding a variable does not change how a function is defined, unless the variable
/// is free in the definition.
proof fn lemma_define_bind(
    f: Seq<char>,
    params: Seq<Seq<char>>,
    body: Term,
    x: Seq<char>,
    v: Value,
    env: Valuation,
)
    requires
        params.contains(x) || !free_vars(body).contains(x),
    ensures
        env.bind(x, v).define(f, params, body) == env.define(f, params, body).bind(x, v),
{
    let a = env.bind(x, v);
    let l = a.define(f, params, body);
    let r = env.define(f, params, body).bind(x, v);
    assert forall|g: Seq<char>, args: Seq<Value>| #[trigger] (l.functions)(g, args) == (
    r.functions)(g, args) by {
        if g == f && args.len() == params.len() {
            let (p, q) = (a.bind_all(params, args), env.bind_all(params, args));
            lemma_bind_all_agrees(params, args, a, a, x);
            lemma_bind_all_agrees(params, args, env, env, x);
            assert forall|y: Seq<char>| #[trigger] free_vars(body).contains(y) implies agree(
                p,
                q,
                y,
            ) by {
                lemma_bind_all_agrees(params, args, a, env, y);
            }
            lemma_meaning_agrees(body, p, q);
        }
    }
    assert(l.functions =~= r.functions);
    assert(l =~= r);
}

/// A term in which the calls of a function were replaced stands for what the term
/// stood for with the function so defined, where no substitution in it captures a
/// variable of the definition.
pub proof fn lemma_inlined_meaning(
    t: Term,
    f: Seq<char>,
    params: Seq<Seq<char>>,
    body: Term,
    env: Valuation,
)
    requires
        captures_nothing(t, params, body),
    ensures
        meaning(inlined(t, f, params, body), env) == meaning(t, env.define(f, params, body)),
    decreases t,
{
    let below = inlined_below(t, f, params, body);
    let r = inlined(t, f, params, body);
    let defined = env.define(f, params, body);
    assert forall|i: int| 0 <= i < t.kids.len() implies meaning(#[trigger] below[i], env)
        == meaning(t.kids[i], defined) by {
        lemma_inlined_meaning(t.kids[i], f, params, body, env);
    }
    let vs = meanings_below(t, defined);
    if t.op == Op::Call(f) && t.kids.len() == params.len() {
        lemma_bound_entries(params, below, vs, env);
        lemma_resolved_meaning(body, bound_entries(params, below), env);
        assert(vs.len() == params.len());
    } else if let Op::Subst(x) = t.op {
        if t.kids.len() == 2 {
            let v = meaning(t.kids[0], defined);
            lemma_define_bind(f, params, body, x, v, env);
            assert(captures_nothing(t.kids[1], params, body));
            lemma_inlined_meaning(t.kids[1], f, params, body, env.bind(x, v));
            assert(below[0] == r.kids[0] && below[1] == r.kids[1]);
        }
    } else {
        assert(r.kids == below);
        assert(meanings_below(r, env) =~= vs);
    }
}

/// Whether `f` is not called in `t` on as many arguments as there are parameters.
pub open spec fn does_not_call(t: Term, f: Seq<char>, params: Seq<Seq<char>>) -> bool
    decreases t,
{
    &&& !(t.op == Op::Call(f) && t.kids.len() == params.len())
    &&& forall|i: int| 0 <= i < t.kids.len() ==> does_not_call(#[trigger] t.kids[i], f, params)
}

/// Inlining a function that is not called leaves a term as it is.
pub proof fn lemma_inlined_same(t: Term, f: Seq<char>, params: Seq<Seq<char>>, body: Term)
    requires
        does_not_call(t, f, params),
    ensures
        inlined(t, f, params, body) == t,
    decreases t,
{
    let below = inlined_below(t, f, params, body);
    assert forall|i: int| 0 <= i < t.kids.len() implies #[trigger] below[i] == t.kids[i] by {
        lemma_inlined_same(t.kids[i], f, params, body);
    }
    assert(below =~= t.kids);
}

/// Inlining keeps the root and the type of any term but a call that is replaced.
pub proof fn lemma_inlined_root(
    t: Term,
    f: Seq<char>,
    params: Seq<Seq<char>>,
    body: Term,
    i: int,
)
    requires
        !(t.op == Op::Call(f) && t.kids.len() == params.len()),
        0 <= i < t.kids.len(),
    ensures
        inlined(t, f, params, body).op == t.op,
        inlined(t, f, params, body).ty == t.ty,
        inlined(t, f, params, body).kids.len() == t.kids.len(),
        inlined(t, f, params, body).kids[i] == inlined(t.kids[i], f, params, body),
{
}

} // verus!
