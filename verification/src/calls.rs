//! The calls of an unknown function, and how the variables at a call stand for
//! its parameters.

use vstd::prelude::*;

use crate::ast::{children, lemma_view, share, terms, Expr, ExprKind, Ident, Op, Term};
use crate::collections::{
    entries_of, mapping_insert, mapping_len, mapping_new, put, Entries, Mapping,
};
use crate::seqs::{joined, lemma_joined_take};

verus! {

/// A mapping from the variables at a call to the parameters they are given for.
pub type VarToParamMap = Mapping;

/// The models of a sequence of mappings.
pub open spec fn all_entries(maps: Seq<Mapping>) -> Seq<Entries> {
    maps.map_values(|m: Mapping| entries_of(m))
}

/// The variables among the first `n` of `args`, each with the parameter in its
/// place; the last place counts for a variable that comes more than once.
pub open spec fn arg_entries(args: Seq<Term>, params: Seq<Term>, n: nat) -> Entries
    decreases n,
{
    if n == 0 {
        seq![]
    } else {
        let before = arg_entries(args, params, (n - 1) as nat);
        match args[n - 1].op {
            Op::Var(x) => put(before, x, params[n - 1]),
            _ => before,
        }
    }
}

/// The mapping of the call `t`, where it is a call of `target` with a variable
/// among its arguments, and with as many arguments as there are `params`.
pub open spec fn call_entries(t: Term, target: Seq<char>, params: Seq<Term>) -> Seq<Entries> {
    let entries = arg_entries(t.kids, params, params.len());
    if t.op == Op::Call(target) && t.kids.len() == params.len() && entries.len() > 0 {
        seq![entries]
    } else {
        seq![]
    }
}

/// The mappings of the calls of `target` in `t`, a call before those in its
/// arguments.
pub open spec fn call_maps(t: Term, target: Seq<char>, params: Seq<Term>) -> Seq<Entries>
    decreases t, 1nat,
{
    call_entries(t, target, params) + joined(call_maps_below(t, target, params))
}

/// [`call_maps`] for each of the terms below `t`.
pub open spec fn call_maps_below(t: Term, target: Seq<char>, params: Seq<Term>) -> Seq<Seq<Entries>>
    decreases t, 0nat,
{
    Seq::new(
        t.kids.len(),
        |i: int|
            if 0 <= i < t.kids.len() {
                call_maps(t.kids[i], target, params)
            } else {
                seq![]
            },
    )
}

/// The mapping from the variables among `args` to the `params` in their places.
fn args_to_params(args: &Vec<Expr>, params: &[Expr]) -> (map: VarToParamMap)
    requires
        args@.len() == params@.len(),
    ensures
        entries_of(map) == arg_entries(terms(args@), terms(params@), params@.len()),
{
    let mut map = mapping_new();
    for i in 0..params.len()
        invariant
            args@.len() == params@.len(),
            entries_of(map) == arg_entries(terms(args@), terms(params@), i as nat),
    {
        assert(terms(args@)[i as int] == args@[i as int]@);
        if let ExprKind::Var(id) = &args[i].kind {
            mapping_insert(&mut map, id.name.clone(), share(&params[i]));
        } else {
            proof {
                lemma_view(&*args@[i as int]);
            }
        }
    }
    map
}

/// Puts the mappings of the calls of `target_ident` in `expr` at the end of `out`.
pub fn collect_call_var_param_maps_rec(
    expr: &Expr,
    target_ident: &Ident,
    params: &[Expr],
    out: &mut Vec<VarToParamMap>,
)
    ensures
        all_entries(final(out)@) == all_entries(old(out)@) + call_maps(
            expr@,
            target_ident@,
            terms(params@),
        ),
    decreases expr@,
{
    let ghost ps = terms(params@);
    let ghost before = all_entries(out@);
    let ghost own = call_entries(expr@, target_ident@, ps);
    let ghost parts = call_maps_below(expr@, target_ident@, ps);
    if let ExprKind::Call(func_ident, args) = &expr.kind {
        assert(terms(args@) =~= expr@.kids);
        if func_ident.same(target_ident) && args.len() == params.len() {
            let map = args_to_params(args, params);
            if mapping_len(&map) > 0 {
                out.push(map);
            }
        }
    } else {
        proof {
            lemma_view(&**expr);
        }
    }
    assert(all_entries(out@) =~= before + own);
    let below = children(expr);
    assert(joined(parts.take(0)) =~= seq![]);
    assert(all_entries(out@) =~= before + own + joined(parts.take(0)));
    for i in 0..below.len()
        invariant
            terms(below@) == expr@.kids,
            ps == terms(params@),
            parts == call_maps_below(expr@, target_ident@, ps),
            all_entries(out@) == before + own + joined(parts.take(i as int)),
    {
        assert(expr@.kids[i as int] == below@[i as int]@);
        assert(decreases_to!(expr@ => expr@.kids));
        collect_call_var_param_maps_rec(&below[i], target_ident, params, out);
        proof {
            lemma_joined_take(parts, i as int);
            assert(before + own + joined(parts.take(i as int)) + parts[i as int] =~= before + own
                + joined(parts.take(i + 1)));
        }
    }
    assert(parts.take(parts.len() as int) =~= parts);
    assert(before + own + joined(parts) =~= before + (own + joined(parts)));
}

/// For each call of `target_ident` in `expr` that has a variable among its
/// arguments, the mapping from those variables to the `params` in their places.
pub fn collect_call_var_param_maps(
    expr: &Expr,
    target_ident: &Ident,
    params: &[Expr],
) -> (out: Vec<VarToParamMap>)
    ensures
        all_entries(out@) == call_maps(expr@, target_ident@, terms(params@)),
{
    let mut out: Vec<VarToParamMap> = Vec::new();
    collect_call_var_param_maps_rec(expr, target_ident, params, &mut out);
    assert(all_entries(out@) =~= call_maps(expr@, target_ident@, terms(params@)));
    out
}

} // verus!
