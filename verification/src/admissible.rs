//! What is found is what was asked for: the condition that is checked stands for the
//! verification condition with the definitions that are reported.

use vstd::prelude::*;

use crate::ast::{Ident, Op, Term, TyKind};
use crate::cegis::{zero_extended, ActionModel, Search, VerdictModel};
use crate::cegis_laws::{closed_values, proposed};
use crate::collections::{lemma_put_lookup, lookup, put, Entries};
use crate::decls::DeclModel;
use crate::functions::FuncEntry;
use crate::inlining::{
    bound_entries, captures_nothing, inlined, inlined_below, lemma_inlined_meaning,
};
use crate::semantics::{meaning, Valuation, Value};
use crate::solver::SatOracle;
use crate::substitution::{
    agree, free_vars, lemma_meaning_agrees, lemma_resolved_meaning, occurrences,
    occurrences_below, resolved, resolved_below, without_calls, without_substs,
};
use crate::synthesis::{are_templates, inlined_all, instantiated};
use crate::template::{is_template_for, param_names, SynthOptions, Template};

verus! {

/// Binding a variable and giving others values without variables can be done in either
/// order.
proof fn lemma_bind_after(m: Entries, x: Seq<char>, v: Value, env: Valuation)
    requires
        closed_values(m),
        lookup(m, x) is None,
    ensures
        env.after(m).bind(x, v) == env.bind(x, v).after(m),
{
    let (l, r) = (env.after(m).bind(x, v), env.bind(x, v).after(m));
    assert forall|y: Seq<char>| #[trigger] (l.vars)(y) == (r.vars)(y) by {
        if let Some(w) = lookup(m, y) {
            lemma_meaning_agrees(w, env, env.bind(x, v));
        }
    }
    assert(l =~= r);
}

proof fn lemma_bind_all_after(
    m: Entries,
    params: Seq<Seq<char>>,
    args: Seq<Value>,
    env: Valuation,
)
    requires
        closed_values(m),
        forall|i: int| 0 <= i < params.len() ==> lookup(m, #[trigger] params[i]) is None,
    ensures
        env.after(m).bind_all(params, args) == env.bind_all(params, args).after(m),
    decreases params.len(),
{
    if params.len() > 0 {
        let front = params.drop_last();
        let n = params.len() - 1;
        assert forall|i: int| 0 <= i < front.len() implies lookup(
            m,
            #[trigger] front[i],
        ) is None by {
            assert(front[i] == params[i]);
        }
        lemma_bind_all_after(m, front, args, env);
        assert(lookup(m, params[n]) is None);
        lemma_bind_after(m, params.last(), args[n], env.bind_all(front, args));
    }
}

/// A function with a definition, under values of the variables in it, is the function
/// with the definition in which these values stand.
proof fn lemma_define_after(
    m: Entries,
    f: Seq<char>,
    params: Seq<Seq<char>>,
    body: Term,
    env: Valuation,
)
    requires
        closed_values(m),
        forall|i: int| 0 <= i < params.len() ==> lookup(m, #[trigger] params[i]) is None,
    ensures
        env.after(m).define(f, params, body).functions == env.define(
            f,
            params,
            resolved(body, m),
        ).functions,
{
    let l = env.after(m).define(f, params, body).functions;
    let r = env.define(f, params, resolved(body, m)).functions;
    assert forall|g: Seq<char>, args: Seq<Value>| #[trigger] l(g, args) == r(g, args) by {
        if g == f && args.len() == params.len() {
            lemma_bind_all_after(m, params, args, env);
            lemma_resolved_meaning(body, m, env.bind_all(params, args));
        }
    }
    assert(l =~= r);
}

/// A verification condition in which a function was replaced by a template, with values
/// for the coefficients, stands for the condition with the function defined by the
/// template with these values: the coefficients are neither parameters nor variables
/// of the condition, and their values hold no variables.
pub proof fn lemma_instantiated_meaning(
    vc: Term,
    f: Seq<char>,
    params: Seq<Seq<char>>,
    body: Term,
    m: Entries,
    env: Valuation,
)
    requires
        captures_nothing(vc, params, body),
        closed_values(m),
        forall|i: int| 0 <= i < params.len() ==> lookup(m, #[trigger] params[i]) is None,
        forall|x: Seq<char>| #[trigger] free_vars(vc).contains(x) ==> lookup(m, x) is None,
    ensures
        meaning(resolved(inlined(vc, f, params, body), m), env) == meaning(
            vc,
            env.define(f, params, resolved(body, m)),
        ),
{
    let (a, b) = (
        env.after(m).define(f, params, body),
        env.define(f, params, resolved(body, m)),
    );
    lemma_resolved_meaning(inlined(vc, f, params, body), m, env);
    lemma_inlined_meaning(vc, f, params, body, env.after(m));
    lemma_define_after(m, f, params, body, env);
    assert forall|x: Seq<char>| #[trigger] free_vars(vc).contains(x) implies agree(a, b, x) by {}
    lemma_meaning_agrees(vc, a, b);
}

/// Whether no variable is free in what `m` maps to, and no function is called in it.
pub open spec fn constant_values(m: Entries) -> bool {
    forall|y: Seq<char>|
        (#[trigger] lookup(m, y)) is Some ==> free_vars(lookup(m, y)->0).len() == 0
            && without_calls(lookup(m, y)->0)
}

impl Valuation {
    /// This valuation with the first `n` functions defined by `bodies`, the last of them
    /// first: an earlier definition may call a later function.
    pub open spec fn define_all(
        self,
        synth: Seq<(Ident, FuncEntry)>,
        bodies: Seq<Term>,
        n: nat,
    ) -> Valuation
        decreases n,
    {
        if n == 0 {
            self
        } else {
            let f = synth[n - 1];
            self.define(f.0@, param_names(f.1.inputs@), bodies[n - 1]).define_all(
                synth,
                bodies,
                (n - 1) as nat,
            )
        }
    }
}

/// The templates as terms.
pub open spec fn bodies_of(templates: Seq<Template>) -> Seq<Term> {
    templates.map_values(|t: Template| t.0@)
}

/// Replacing variables brings in no substitution that captures.
proof fn lemma_resolved_captures(t: Term, m: Entries, params: Seq<Seq<char>>, body: Term)
    requires
        captures_nothing(t, params, body),
        forall|y: Seq<char>|
            (#[trigger] lookup(m, y)) is Some ==> captures_nothing(
                lookup(m, y)->0,
                params,
                body,
            ),
    ensures
        captures_nothing(resolved(t, m), params, body),
    decreases t,
{
    match t.op {
        Op::Var(_) => {},
        Op::Subst(x) => {
            if t.kids.len() == 2 {
                assert(captures_nothing(t.kids[0], params, body));
                assert(captures_nothing(t.kids[1], params, body));
                let v = resolved(t.kids[0], m);
                lemma_resolved_captures(t.kids[0], m, params, body);
                assert forall|y: Seq<char>| (#[trigger] lookup(
                    put(m, x, v),
                    y,
                )) is Some implies captures_nothing(
                    lookup(put(m, x, v), y)->0,
                    params,
                    body,
                ) by {
                    lemma_put_lookup(m, x, v, y);
                }
                lemma_resolved_captures(t.kids[1], put(m, x, v), params, body);
            }
        },
        _ => {
            let below = resolved_below(t, m);
            assert forall|i: int| 0 <= i < below.len() implies captures_nothing(
                #[trigger] below[i],
                params,
                body,
            ) by {
                lemma_resolved_captures(t.kids[i], m, params, body);
            }
        },
    }
}

proof fn lemma_bound_lookup(params: Seq<Seq<char>>, args: Seq<Term>, y: Seq<char>)
    ensures
        lookup(bound_entries(params, args), y) matches Some(v) ==> exists|i: int|
            0 <= i < params.len() && #[trigger] args[i] == v,
    decreases params.len(),
{
    if params.len() > 0 {
        let front = params.drop_last();
        let n = params.len() - 1;
        lemma_bound_lookup(front, args, y);
        lemma_put_lookup(bound_entries(front, args), params.last(), args[n], y);
        if let Some(v) = lookup(bound_entries(front, args), y) {
            let i = choose|i: int| 0 <= i < front.len() && #[trigger] args[i] == v;
            assert(args[i] == v);
        }
    }
}

/// Replacing calls brings in no substitution that captures.
proof fn lemma_inlined_captures(
    t: Term,
    f: Seq<char>,
    formals: Seq<Seq<char>>,
    definition: Term,
    params: Seq<Seq<char>>,
    body: Term,
)
    requires
        captures_nothing(t, params, body),
        captures_nothing(definition, params, body),
    ensures
        captures_nothing(inlined(t, f, formals, definition), params, body),
    decreases t,
{
    let below = inlined_below(t, f, formals, definition);
    assert forall|i: int| 0 <= i < below.len() implies captures_nothing(
        #[trigger] below[i],
        params,
        body,
    ) by {
        lemma_inlined_captures(t.kids[i], f, formals, definition, params, body);
    }
    if t.op == Op::Call(f) && t.kids.len() == formals.len() {
        let m = bound_entries(formals, below);
        assert forall|y: Seq<char>| (#[trigger] lookup(m, y)) is Some implies captures_nothing(
            lookup(m, y)->0,
            params,
            body,
        ) by {
            lemma_bound_lookup(formals, below, y);
        }
        lemma_resolved_captures(definition, m, params, body);
    }
}

/// A term without substitutions captures nothing.
proof fn lemma_without_substs_captures(t: Term, params: Seq<Seq<char>>, body: Term)
    requires
        without_substs(t),
    ensures
        captures_nothing(t, params, body),
    decreases t,
{
    assert forall|i: int| 0 <= i < t.kids.len() implies captures_nothing(
        #[trigger] t.kids[i],
        params,
        body,
    ) by {
        lemma_without_substs_captures(t.kids[i], params, body);
    }
}

/// Whether the templates can be put into `vc`: they hold no substitutions, and none in
/// `vc` binds a variable of a template that is not a parameter.
pub open spec fn can_inline(
    vc: Term,
    synth: Seq<(Ident, FuncEntry)>,
    templates: Seq<Template>,
    n: nat,
) -> bool {
    &&& n <= synth.len()
    &&& n <= templates.len()
    &&& forall|k: int|
        0 <= k < n ==> without_substs((#[trigger] templates[k]).0@) && captures_nothing(
            vc,
            param_names(synth[k].1.inputs@),
            templates[k].0@,
        )
}

proof fn lemma_inlined_all_captures(
    vc: Term,
    synth: Seq<(Ident, FuncEntry)>,
    templates: Seq<Template>,
    n: nat,
    k: int,
)
    requires
        can_inline(vc, synth, templates, n),
        0 <= k < templates.len(),
        captures_nothing(vc, param_names(synth[k].1.inputs@), templates[k].0@),
    ensures
        captures_nothing(
            inlined_all(vc, synth, templates, n),
            param_names(synth[k].1.inputs@),
            templates[k].0@,
        ),
    decreases n,
{
    if n > 0 {
        let (params, body) = (param_names(synth[k].1.inputs@), templates[k].0@);
        lemma_inlined_all_captures(vc, synth, templates, (n - 1) as nat, k);
        assert(without_substs(templates[n - 1].0@));
        lemma_without_substs_captures(templates[n - 1].0@, params, body);
        lemma_inlined_captures(
            inlined_all(vc, synth, templates, (n - 1) as nat),
            synth[n - 1].0@,
            param_names(synth[n - 1].1.inputs@),
            templates[n - 1].0@,
            params,
            body,
        );
    }
}

/// A verification condition in which functions were replaced by templates stands for
/// the condition with the functions so defined.
pub proof fn lemma_inlined_all_meaning(
    vc: Term,
    synth: Seq<(Ident, FuncEntry)>,
    templates: Seq<Template>,
    n: nat,
    env: Valuation,
)
    requires
        can_inline(vc, synth, templates, n),
    ensures
        meaning(inlined_all(vc, synth, templates, n), env) == meaning(
            vc,
            env.define_all(synth, bodies_of(templates), n),
        ),
    decreases n,
{
    if n > 0 {
        let k = n - 1;
        let (params, body) = (param_names(synth[k].1.inputs@), templates[k].0@);
        assert(without_substs(templates[k].0@));
        lemma_inlined_all_captures(vc, synth, templates, k as nat, k);
        lemma_inlined_meaning(
            inlined_all(vc, synth, templates, k as nat),
            synth[k].0@,
            params,
            body,
            env,
        );
        assert(bodies_of(templates)[k] == body);
        lemma_inlined_all_meaning(
            vc,
            synth,
            templates,
            k as nat,
            env.define(synth[k].0@, params, body),
        );
    }
}

/// Whether no parameter of the first `n` functions is mapped by `m`.
pub open spec fn leaves_params(m: Entries, synth: Seq<(Ident, FuncEntry)>, n: nat) -> bool {
    forall|k: int, i: int|
        0 <= k < n && 0 <= i < param_names(synth[k].1.inputs@).len() ==> lookup(
            m,
            #[trigger] param_names(synth[k].1.inputs@)[i],
        ) is None
}

/// Functions with definitions, under constant values of the variables in these, are the
/// functions with the definitions in which these values stand.
proof fn lemma_define_all_after(
    m: Entries,
    synth: Seq<(Ident, FuncEntry)>,
    templates: Seq<Template>,
    n: nat,
    env: Valuation,
)
    requires
        n <= templates.len(),
        constant_values(m),
        leaves_params(m, synth, n),
    ensures
        env.after(m).define_all(synth, bodies_of(templates), n) == env.define_all(
            synth,
            instantiated(templates, m),
            n,
        ).after(m),
    decreases n,
{
    if n > 0 {
        let k = n - 1;
        let f = synth[k].0@;
        let (params, body) = (param_names(synth[k].1.inputs@), templates[k].0@);
        let filled = resolved(body, m);
        let (l, r) = (
            env.after(m).define(f, params, body),
            env.define(f, params, filled).after(m),
        );
        assert forall|i: int| 0 <= i < params.len() implies lookup(
            m,
            #[trigger] params[i],
        ) is None by {
            assert(params[i] == param_names(synth[k].1.inputs@)[i]);
        }
        lemma_define_after(m, f, params, body, env);
        assert forall|y: Seq<char>| #[trigger] (l.vars)(y) == (r.vars)(y) by {
            if let Some(v) = lookup(m, y) {
                lemma_meaning_agrees(v, env, env.define(f, params, filled));
            }
        }
        assert(l =~= r);
        assert(bodies_of(templates)[k] == body);
        assert(instantiated(templates, m)[k] == filled);
        lemma_define_all_after(m, synth, templates, k as nat, env.define(f, params, filled));
    }
}

/// A verification condition in which functions were replaced by templates, with
/// constant values for the coefficients, stands for the condition with the functions
/// defined by the templates with these values.
pub proof fn lemma_all_instantiated_meaning(
    vc: Term,
    synth: Seq<(Ident, FuncEntry)>,
    templates: Seq<Template>,
    n: nat,
    m: Entries,
    env: Valuation,
)
    requires
        can_inline(vc, synth, templates, n),
        constant_values(m),
        leaves_params(m, synth, n),
        forall|x: Seq<char>| #[trigger] free_vars(vc).contains(x) ==> lookup(m, x) is None,
    ensures
        meaning(resolved(inlined_all(vc, synth, templates, n), m), env) == meaning(
            vc,
            env.define_all(synth, instantiated(templates, m), n),
        ),
{
    let defined = env.define_all(synth, instantiated(templates, m), n);
    lemma_resolved_meaning(inlined_all(vc, synth, templates, n), m, env);
    lemma_inlined_all_meaning(vc, synth, templates, n, env.after(m));
    lemma_define_all_after(m, synth, templates, n, env);
    assert forall|x: Seq<char>| #[trigger] free_vars(vc).contains(x) implies agree(
        defined.after(m),
        defined,
        x,
    ) by {}
    lemma_meaning_agrees(vc, defined.after(m), defined);
}

/// The templates that are built hold no substitutions.
pub proof fn lemma_templates_without_substs(
    templates: Seq<Template>,
    options: SynthOptions,
    synth: Seq<(Ident, FuncEntry)>,
    vc: Term,
    split_count: nat,
    ctx0: Map<Seq<char>, DeclModel>,
    first: SatOracle,
    ctx: Map<Seq<char>, DeclModel>,
    last: SatOracle,
)
    requires
        are_templates(templates, options, synth, vc, split_count, ctx0, first, ctx, last),
    ensures
        forall|k: int| 0 <= k < templates.len() ==> without_substs((#[trigger] templates[k]).0@),
    decreases templates.len(),
{
    if templates.len() > 0 {
        let front = templates.drop_last();
        let f = synth[templates.len() - 1];
        let (mid_ctx, mid) = choose|mid_ctx: Map<Seq<char>, DeclModel>, mid: SatOracle|
            are_templates(front, options, synth, vc, split_count, ctx0, first, mid_ctx, mid)
                && #[trigger] is_template_for(
                Some(templates.last()),
                options,
                f.0@,
                f.1.inputs@,
                vc,
                split_count,
                mid_ctx,
                mid,
                ctx,
                last,
            );
        lemma_templates_without_substs(
            front,
            options,
            synth,
            vc,
            split_count,
            ctx0,
            first,
            mid_ctx,
            mid,
        );
        assert forall|k: int| 0 <= k < templates.len() implies without_substs(
            (#[trigger] templates[k]).0@,
        ) by {
            if k < front.len() {
                assert(templates[k] == front[k]);
            }
        }
    }
}

proof fn lemma_proposal_values(vars: Seq<(Seq<char>, TyKind)>, candidate: Entries)
    requires
        constant_values(candidate),
    ensures
        constant_values(zero_extended(vars, candidate)),
        forall|y: Seq<char>|
            (#[trigger] lookup(zero_extended(vars, candidate), y)) is Some ==> exists|i: int|
                0 <= i < vars.len() && (#[trigger] vars[i]).0 == y,
    decreases vars.len(),
{
    let m = zero_extended(vars, candidate);
    if vars.len() > 0 {
        let front = vars.drop_last();
        let (name, ty) = vars.last();
        let none: Seq<Seq<char>> = seq![];
        let zero = Term::number(0real, ty);
        lemma_proposal_values(front, candidate);
        assert(occurrences_below(zero, none) =~= seq![]);
        assert(occurrences(zero, none) =~= none);
        assert(free_vars(zero).len() == 0 && without_calls(zero));
        assert forall|y: Seq<char>| (#[trigger] lookup(m, y)) is Some implies free_vars(
            lookup(m, y)->0,
        ).len() == 0 && without_calls(lookup(m, y)->0) && exists|i: int|
            0 <= i < vars.len() && (#[trigger] vars[i]).0 == y by {
            lemma_put_lookup(
                zero_extended(front, candidate),
                name,
                proposed(vars.last(), candidate),
                y,
            );
            if y == name {
                assert(vars[vars.len() - 1].0 == y);
            } else {
                let i = choose|i: int| 0 <= i < front.len() && (#[trigger] front[i]).0 == y;
                assert(vars[i].0 == y);
            }
        }
    }
}

/// What is found is admissible: where the verification condition with the templates in
/// it is searched, and the values found are constant, the condition that was proved
/// stands, under each valuation, for the verification condition with the functions
/// defined by the templates with the values reported.
pub proof fn lemma_found_is_admissible(
    s: Search,
    vc: Term,
    synth: Seq<(Ident, FuncEntry)>,
    templates: Seq<Template>,
    env: Valuation,
)
    requires
        s.vc == inlined_all(vc, synth, templates, templates.len()),
        can_inline(vc, synth, templates, templates.len()),
        constant_values(s.candidate),
        forall|i: int| 0 <= i < s.vars.len() ==> !free_vars(vc).contains((#[trigger] s.vars[i]).0),
        forall|i: int, k: int|
            0 <= i < s.vars.len() && 0 <= k < templates.len() ==> !#[trigger] param_names(
                synth[k].1.inputs@,
            ).contains((#[trigger] s.vars[i]).0),
    ensures
        s.propose().1 matches ActionModel::Check(t) ==> (s.propose().0.judge(
            VerdictModel::Proof,
        ).1 matches ActionModel::Found(m) && meaning(t, env) == meaning(
            vc,
            env.define_all(synth, instantiated(templates, m), templates.len()),
        )),
{
    let m = zero_extended(s.vars, s.candidate);
    let n = templates.len();
    lemma_proposal_values(s.vars, s.candidate);
    assert forall|x: Seq<char>| #[trigger] free_vars(vc).contains(x) implies lookup(
        m,
        x,
    ) is None by {
        if lookup(m, x) is Some {
            let i = choose|i: int| 0 <= i < s.vars.len() && (#[trigger] s.vars[i]).0 == x;
            assert(!free_vars(vc).contains(s.vars[i].0));
        }
    }
    assert forall|k: int, i: int|
        0 <= k < n && 0 <= i < param_names(synth[k].1.inputs@).len() implies lookup(
        m,
        #[trigger] param_names(synth[k].1.inputs@)[i],
    ) is None by {
        let params = param_names(synth[k].1.inputs@);
        if lookup(m, params[i]) is Some {
            let j = choose|j: int| 0 <= j < s.vars.len() && (#[trigger] s.vars[j]).0 == params[i];
            assert(params.contains(params[i]));
            assert(!params.contains(s.vars[j].0));
        }
    }
    lemma_all_instantiated_meaning(vc, synth, templates, n, m, env);
}

} // verus!
