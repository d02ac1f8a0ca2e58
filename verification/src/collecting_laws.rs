//! What is collected from a term: nothing that stands anywhere in it is missed.

use vstd::prelude::*;

use crate::ast::{terms, Expr, Ident, Op, Term, TyKind, UnOpKind};
use crate::calls::{all_entries, arg_entries, call_entries, call_maps, call_maps_below};
use crate::collections::{
    entries_of, lemma_put_lookup, lemma_with_names_contains, lookup, with_names, Entries, Mapping,
};
use crate::conditions::{
    are_conditions, conditions_at, covers, explained, explanation, has_param,
    lemma_conditions_complete, noted, own_site, pairs_of, param_vars, sites, sites_below,
    ParamVars,
};
use crate::decls::{Param, Range, VarDecl};
use crate::monomials::term_lists;
use crate::polynomial::{decl_names, typed_names};
use crate::regions::ranged;
use crate::seqs::{joined, lemma_joined_contains, lemma_joined_has};
use crate::smt::{
    declarations, declarations_below, form, func_symbol, own_declaration, var_symbol, Sort,
};
use crate::substitution::{
    free_vars, occurrences, occurrences_below, resolved, without_substs,
};
use crate::subterms::{
    gathered, gathered_below, is_subterm, lemma_gathered, lemma_gathered_contains,
    lemma_gathered_filter, preorder,
};
use crate::template::param_names;

verus! {

/// Whether `t` has a condition at its root: it is an if-then-else or an Iverson bracket.
pub open spec fn has_condition(t: Term) -> bool {
    t.op == Op::Ite || t.op == Op::Unary(UnOpKind::Iverson)
}

proof fn lemma_sites_gathered(t: Term)
    ensures
        sites(t) == gathered(t, |s: Term| own_site(s)),
    decreases t,
{
    let f = |s: Term| own_site(s);
    lemma_gathered(t, f);
    let parts = sites_below(t);
    assert forall|i: int| 0 <= i < parts.len() implies #[trigger] parts[i] == gathered_below(
        t,
        f,
    )[i] by {
        lemma_sites_gathered(t.kids[i]);
    }
    assert(parts =~= gathered_below(t, f));
}

/// The if-then-elses and Iverson brackets of a term are those of all terms within it, in
/// the order in which these come.
pub proof fn lemma_sites_all(t: Term)
    ensures
        sites(t) == preorder(t).filter(|s: Term| has_condition(s)),
{
    lemma_sites_gathered(t);
    lemma_gathered_filter(preorder(t), |s: Term| own_site(s), |s: Term| has_condition(s));
}

/// The condition of every if-then-else and the operand of every Iverson bracket anywhere
/// in a term is among the conditions collected from it.
pub proof fn lemma_condition_of_subterm(t: Term, conds: Seq<Term>, s: Term)
    requires
        are_conditions(t, conds),
        is_subterm(s, t),
        s.op == Op::Ite || s.op == Op::Unary(UnOpKind::Iverson),
    ensures
        conds.contains(s.kids[0]),
{
    let f = |s: Term| own_site(s);
    lemma_sites_gathered(t);
    assert(f(s)[0] == s);
    assert(f(s).contains(s));
    lemma_gathered_contains(t, f, s);
    let all = sites(t);
    let i = choose|i: int| 0 <= i < all.len() && all[i] == s;
    assert(conditions_at(all)[i] == s.kids[0]);
    lemma_conditions_complete(t, conds, s.kids[0]);
}

/// Each condition collected from a term is that of an if-then-else, or the operand of an
/// Iverson bracket, in the term.
pub proof fn lemma_condition_from_subterm(t: Term, conds: Seq<Term>, c: Term)
    requires
        are_conditions(t, conds),
        conds.contains(c),
    ensures
        exists|s: Term| #[trigger]
            is_subterm(s, t) && (s.op == Op::Ite || s.op == Op::Unary(UnOpKind::Iverson))
                && c == s.kids[0],
{
    let f = |s: Term| own_site(s);
    lemma_conditions_complete(t, conds, c);
    lemma_sites_gathered(t);
    let all = sites(t);
    let i = choose|i: int| 0 <= i < all.len() && conditions_at(all)[i] == c;
    assert(all.contains(all[i]));
    lemma_gathered_contains(t, f, all[i]);
    let s = choose|s: Term| #[trigger] is_subterm(s, t) && f(s).contains(all[i]);
    assert(s == all[i]);
}

proof fn lemma_call_maps_gathered(t: Term, target: Seq<char>, params: Seq<Term>)
    ensures
        call_maps(t, target, params) == gathered(t, |s: Term| call_entries(s, target, params)),
    decreases t,
{
    let f = |s: Term| call_entries(s, target, params);
    lemma_gathered(t, f);
    let parts = call_maps_below(t, target, params);
    assert forall|i: int| 0 <= i < parts.len() implies #[trigger] parts[i] == gathered_below(
        t,
        f,
    )[i] by {
        lemma_call_maps_gathered(t.kids[i], target, params);
    }
    assert(parts =~= gathered_below(t, f));
}

/// Whether `m` maps each variable among `args`, and nothing else, to the parameter in the
/// last place at which it stands.
pub open spec fn maps_args(m: Entries, args: Seq<Term>, params: Seq<Term>) -> bool {
    &&& forall|j: int, x: Seq<char>|
        0 <= j < args.len() && (#[trigger] args[j]).op == Op::Var(x) && (forall|k: int|
            j < k < args.len() ==> (#[trigger] args[k]).op != Op::Var(x)) ==> #[trigger] lookup(
            m,
            x,
        ) == Some(params[j])
    &&& forall|x: Seq<char>|
        (#[trigger] lookup(m, x)) is Some ==> exists|j: int|
            0 <= j < args.len() && (#[trigger] args[j]).op == Op::Var(x)
}

proof fn lemma_arg_entries(args: Seq<Term>, params: Seq<Term>, n: nat)
    requires
        n <= args.len(),
    ensures
        maps_args(arg_entries(args, params, n), args.take(n as int), params),
    decreases n,
{
    let m = arg_entries(args, params, n);
    let now = args.take(n as int);
    if n > 0 {
        let l = (n - 1) as nat;
        let before = args.take(l as int);
        lemma_arg_entries(args, params, l);
        assert(now.drop_last() =~= before);
        let prev = arg_entries(args, params, l);
        assert forall|j: int, x: Seq<char>|
            0 <= j < now.len() && (#[trigger] now[j]).op == Op::Var(x) && (forall|k: int|
                j < k < now.len() ==> (#[trigger] now[k]).op != Op::Var(
                x,
            )) implies #[trigger] lookup(m, x) == Some(params[j]) by {
            if let Op::Var(y) = args[n - 1].op {
                lemma_put_lookup(prev, y, params[n - 1], x);
            }
            if j < l {
                assert(now[l as int].op != Op::Var(x));
                assert(before[j].op == Op::Var(x));
                assert forall|k: int| j < k < before.len() implies (#[trigger] before[k]).op
                    != Op::Var(x) by {
                    assert(now[k].op != Op::Var(x));
                }
            }
        }
        assert forall|x: Seq<char>| (#[trigger] lookup(m, x)) is Some implies exists|j: int|
            0 <= j < now.len() && (#[trigger] now[j]).op == Op::Var(x) by {
            if let Op::Var(y) = args[n - 1].op {
                lemma_put_lookup(prev, y, params[n - 1], x);
                if x == y {
                    assert(now[l as int].op == Op::Var(x));
                }
            }
            if lookup(prev, x) is Some {
                let j = choose|j: int| 0 <= j < before.len() && (#[trigger] before[j]).op
                    == Op::Var(x);
                assert(now[j].op == Op::Var(x));
            }
        }
    } else {
        assert(m =~= seq![]);
    }
}

proof fn lemma_last_place(args: Seq<Term>, x: Seq<char>, j: int) -> (l: int)
    requires
        0 <= j < args.len(),
        args[j].op == Op::Var(x),
    ensures
        j <= l < args.len(),
        args[l].op == Op::Var(x),
        forall|k: int| l < k < args.len() ==> (#[trigger] args[k]).op != Op::Var(x),
    decreases args.len() - j,
{
    if exists|k: int| j < k < args.len() && (#[trigger] args[k]).op == Op::Var(x) {
        let k = choose|k: int| j < k < args.len() && (#[trigger] args[k]).op == Op::Var(x);
        lemma_last_place(args, x, k)
    } else {
        j
    }
}

/// A call of the target, anywhere in a term, that has as many arguments as there are
/// parameters and a variable among them, gives a mapping from its variables to the
/// parameters in their places.
pub proof fn lemma_map_of_call(
    t: Term,
    target: Seq<char>,
    params: Seq<Term>,
    s: Term,
    j: int,
    x: Seq<char>,
) -> (m: Entries)
    requires
        is_subterm(s, t),
        s.op == Op::Call(target),
        s.kids.len() == params.len(),
        0 <= j < s.kids.len(),
        s.kids[j].op == Op::Var(x),
    ensures
        call_maps(t, target, params).contains(m),
        maps_args(m, s.kids, params),
{
    let f = |s: Term| call_entries(s, target, params);
    let m = arg_entries(s.kids, params, params.len());
    lemma_arg_entries(s.kids, params, params.len());
    assert(s.kids.take(params.len() as int) =~= s.kids);
    let l = lemma_last_place(s.kids, x, j);
    assert(lookup(m, x) == Some(params[l]));
    assert(m.len() > 0);
    assert(f(s)[0] == m);
    assert(f(s).contains(m));
    lemma_call_maps_gathered(t, target, params);
    lemma_gathered_contains(t, f, m);
    m
}

/// Each mapping collected from a term is that of a call of the target in it, with as many
/// arguments as there are parameters and a variable among them.
pub proof fn lemma_map_from_call(t: Term, target: Seq<char>, params: Seq<Term>, m: Entries)
    requires
        call_maps(t, target, params).contains(m),
    ensures
        m.len() > 0,
        exists|s: Term| #[trigger]
            is_subterm(s, t) && s.op == Op::Call(target) && s.kids.len() == params.len()
                && maps_args(m, s.kids, params),
{
    let f = |s: Term| call_entries(s, target, params);
    lemma_call_maps_gathered(t, target, params);
    lemma_gathered_contains(t, f, m);
    let s = choose|s: Term| #[trigger] is_subterm(s, t) && f(s).contains(m);
    assert(f(s)[0] == m);
    lemma_arg_entries(s.kids, params, params.len());
    assert(s.kids.take(params.len() as int) =~= s.kids);
}

/// The mappings of a term are those of its terms, in the order in which these come: one
/// for each call of the target that has one.
pub proof fn lemma_maps_in_order(t: Term, target: Seq<char>, params: Seq<Term>)
    ensures
        call_maps(t, target, params) == joined(
            preorder(t).map_values(|s: Term| call_entries(s, target, params)),
        ),
        forall|s: Term| (#[trigger] call_entries(s, target, params)).len() <= 1,
{
    lemma_call_maps_gathered(t, target, params);
}

/// Whether `k` is the first of `maps` that maps every free variable of `cond`.
pub open spec fn first_to_cover(maps: Seq<Entries>, cond: Term, k: int) -> bool {
    &&& 0 <= k < maps.len()
    &&& forall|x: Seq<char>| #[trigger] free_vars(cond).contains(x) ==> lookup(maps[k], x) is Some
    &&& forall|j: int|
        0 <= j < k ==> exists|x: Seq<char>| #[trigger]
            free_vars(cond).contains(x) && lookup(#[trigger] maps[j], x) is None
}

/// A condition is explained by the first mapping that maps all its free variables, and by
/// none where there is no such mapping.
pub proof fn lemma_explanation_first(maps: Seq<Entries>, cond: Term)
    ensures
        explanation(maps, cond) matches Some(m) ==> exists|k: int| #[trigger]
            first_to_cover(maps, cond, k) && m == maps[k],
        explanation(maps, cond) is None ==> forall|k: int|
            0 <= k < maps.len() ==> exists|x: Seq<char>| #[trigger]
                free_vars(cond).contains(x) && lookup(#[trigger] maps[k], x) is None,
    decreases maps.len(),
{
    if maps.len() > 0 {
        let rest = maps.drop_first();
        if covers(maps[0], cond) {
            assert(first_to_cover(maps, cond, 0));
        } else {
            lemma_explanation_first(rest, cond);
            let x0 = choose|x: Seq<char>| #[trigger]
                free_vars(cond).contains(x) && lookup(maps[0], x) is None;
            if let Some(m) = explanation(rest, cond) {
                let k = choose|k: int| #[trigger] first_to_cover(rest, cond, k) && m == rest[k];
                assert(maps[k + 1] == rest[k]);
                assert forall|j: int| 0 <= j < k + 1 implies exists|x: Seq<char>| #[trigger]
                    free_vars(cond).contains(x) && lookup(#[trigger] maps[j], x) is None by {
                    if j == 0 {
                        assert(free_vars(cond).contains(x0) && lookup(maps[0], x0) is None);
                    } else {
                        assert(maps[j] == rest[j - 1]);
                    }
                }
                assert(first_to_cover(maps, cond, k + 1));
            } else {
                assert forall|j: int| 0 <= j < maps.len() implies exists|x: Seq<char>| #[trigger]
                    free_vars(cond).contains(x) && lookup(#[trigger] maps[j], x) is None by {
                    if j == 0 {
                        assert(free_vars(cond).contains(x0) && lookup(maps[0], x0) is None);
                    } else {
                        assert(maps[j] == rest[j - 1]);
                    }
                }
            }
        }
    }
}

/// The explained conditions of a list are those of its first part, and then the last one,
/// in terms of the parameters, where the first mapping that maps its free variables is
/// the `k`th.
pub proof fn lemma_explained_one(conds: Seq<Term>, c: Term, maps: Seq<Entries>, k: int)
    requires
        first_to_cover(maps, c, k),
    ensures
        explained(conds.push(c), maps) == explained(conds, maps).push(resolved(c, maps[k])),
{
    assert(conds.push(c).drop_last() =~= conds);
    lemma_explanation_first(maps, c);
    if explanation(maps, c) is None {
        assert(exists|x: Seq<char>| #[trigger]
            free_vars(c).contains(x) && lookup(maps[k], x) is None);
    }
    let m = explanation(maps, c)->0;
    let l = choose|l: int| #[trigger] first_to_cover(maps, c, l) && m == maps[l];
    if l < k {
        assert(exists|x: Seq<char>| #[trigger]
            free_vars(c).contains(x) && lookup(maps[l], x) is None);
    }
    if k < l {
        assert(exists|x: Seq<char>| #[trigger]
            free_vars(c).contains(x) && lookup(maps[k], x) is None);
    }
}

/// A condition with a free variable that no mapping maps, whichever mapping is tried, is
/// left out.
pub proof fn lemma_unexplained_one(conds: Seq<Term>, c: Term, maps: Seq<Entries>)
    requires
        forall|k: int|
            0 <= k < maps.len() ==> exists|x: Seq<char>| #[trigger]
                free_vars(c).contains(x) && lookup(#[trigger] maps[k], x) is None,
    ensures
        explained(conds.push(c), maps) == explained(conds, maps),
{
    assert(conds.push(c).drop_last() =~= conds);
    lemma_explanation_first(maps, c);
    if let Some(m) = explanation(maps, c) {
        let k = choose|k: int| #[trigger] first_to_cover(maps, c, k) && m == maps[k];
        assert(exists|x: Seq<char>| #[trigger]
            free_vars(c).contains(x) && lookup(maps[k], x) is None);
    }
}

/// Where nothing is to be explained, nothing is.
pub proof fn lemma_explained_none(maps: Seq<Entries>)
    ensures
        explained(seq![], maps) == Seq::<Term>::empty(),
{
}

/// Each condition anywhere in a term whose free variables one of the mappings maps is,
/// in terms of the parameters of the first such mapping, among the relevant conditions.
pub proof fn lemma_relevant_condition(
    t: Term,
    conds: Seq<Term>,
    maps: Seq<Entries>,
    s: Term,
    k: int,
)
    requires
        are_conditions(t, conds),
        is_subterm(s, t),
        s.op == Op::Ite || s.op == Op::Unary(UnOpKind::Iverson),
        first_to_cover(maps, s.kids[0], k),
    ensures
        explained(conds, maps).contains(resolved(s.kids[0], maps[k])),
{
    lemma_condition_of_subterm(t, conds, s);
    let i = choose|i: int| 0 <= i < conds.len() && conds[i] == s.kids[0];
    lemma_explained_at(conds, maps, i, k);
}

proof fn lemma_explained_at(conds: Seq<Term>, maps: Seq<Entries>, i: int, k: int)
    requires
        0 <= i < conds.len(),
        first_to_cover(maps, conds[i], k),
    ensures
        explained(conds, maps).contains(resolved(conds[i], maps[k])),
    decreases conds.len(),
{
    let front = conds.drop_last();
    let c = conds.last();
    let x = resolved(conds[i], maps[k]);
    let all = explained(conds, maps);
    let before = explained(front, maps);
    assert(conds =~= front.push(c));
    if i < front.len() {
        lemma_explained_at(front, maps, i, k);
        let j = choose|j: int| 0 <= j < before.len() && before[j] == x;
        assert(all[j] == x);
    } else {
        lemma_explained_one(front, c, maps, k);
        assert(all[before.len() as int] == x);
    }
}

proof fn lemma_occurrences_gathered(t: Term)
    requires
        without_substs(t),
        forall|s: Term| #[trigger] is_subterm(s, t) && s.op is Var ==> s.kids.len() == 0,
    ensures
        occurrences(t, seq![]) == gathered(
            t,
            |s: Term|
                match s.op {
                    Op::Var(x) => seq![x],
                    _ => seq![],
                },
        ),
    decreases t,
{
    let none: Seq<Seq<char>> = seq![];
    let f = |s: Term|
        match s.op {
            Op::Var(x) => seq![x],
            _ => seq![],
        };
    lemma_gathered(t, f);
    let parts = occurrences_below(t, none);
    assert forall|i: int| 0 <= i < parts.len() implies #[trigger] parts[i] == gathered_below(
        t,
        f,
    )[i] by {
        assert forall|s: Term| #[trigger]
            is_subterm(s, t.kids[i]) && s.op is Var implies s.kids.len() == 0 by {
            assert(is_subterm(s, t));
        }
        lemma_occurrences_gathered(t.kids[i]);
    }
    assert(parts =~= gathered_below(t, f));
    if let Op::Var(x) = t.op {
        assert(is_subterm(t, t));
        assert(gathered_below(t, f) =~= seq![]);
        assert(occurrences(t, none) =~= seq![x]);
    } else {
        assert(f(t) + joined(parts) =~= joined(parts));
    }
}

/// The free variables of a term without substitutions are the variables that stand
/// anywhere in it.
pub proof fn lemma_free_vars_all(t: Term, x: Seq<char>)
    requires
        without_substs(t),
        forall|s: Term| #[trigger] is_subterm(s, t) && s.op is Var ==> s.kids.len() == 0,
    ensures
        free_vars(t).contains(x) <==> exists|s: Term| #[trigger]
            is_subterm(s, t) && s.op == Op::Var(x),
{
    let f = |s: Term|
        match s.op {
            Op::Var(x) => seq![x],
            _ => seq![],
        };
    lemma_occurrences_gathered(t);
    lemma_with_names_contains(seq![], occurrences(t, seq![]), x);
    lemma_gathered_contains(t, f, x);
    if free_vars(t).contains(x) {
        let s = choose|s: Term| #[trigger] is_subterm(s, t) && f(s).contains(x);
        assert(s.op == Op::Var(x));
    }
    if exists|s: Term| #[trigger] is_subterm(s, t) && s.op == Op::Var(x) {
        let s = choose|s: Term| #[trigger] is_subterm(s, t) && s.op == Op::Var(x);
        assert(f(s)[0] == x);
        assert(f(s).contains(x));
    }
}

proof fn lemma_declarations_gathered(t: Term)
    ensures
        declarations(t) == gathered(t, |s: Term| own_declaration(s)),
    decreases t,
{
    let f = |s: Term| own_declaration(s);
    lemma_gathered(t, f);
    let parts = declarations_below(t);
    assert forall|i: int| 0 <= i < parts.len() implies #[trigger] parts[i] == gathered_below(
        t,
        f,
    )[i] by {
        lemma_declarations_gathered(t.kids[i]);
    }
    assert(parts =~= gathered_below(t, f));
}

/// Every variable that stands anywhere in a term is declared, with the sort of its type.
pub proof fn lemma_var_declared(t: Term, s: Term, x: Seq<char>)
    requires
        is_subterm(s, t),
        s.op == Op::Var(x),
    ensures
        declarations(t).contains(
            form("declare-const"@, seq![var_symbol(x), Sort::of(s.ty).name()]),
        ),
{
    let f = |s: Term| own_declaration(s);
    let d = form("declare-const"@, seq![var_symbol(x), Sort::of(s.ty).name()]);
    lemma_declarations_gathered(t);
    assert(f(s)[0] == d);
    assert(f(s).contains(d));
    lemma_gathered_contains(t, f, d);
}

/// Every function that is called anywhere in a term is declared, with the sorts of its
/// arguments and of its result.
pub proof fn lemma_function_declared(t: Term, s: Term, g: Seq<char>)
    requires
        is_subterm(s, t),
        s.op == Op::Call(g),
    ensures
        declarations(t).contains(
            form(
                "declare-fun"@,
                seq![
                    func_symbol(g),
                    form(""@, s.kids.map_values(|k: Term| Sort::of(k.ty).name())),
                    Sort::of(s.ty).name(),
                ],
            ),
        ),
{
    let f = |s: Term| own_declaration(s);
    let d = own_declaration(s)[0];
    lemma_declarations_gathered(t);
    assert(f(s)[0] == d);
    assert(f(s).contains(d));
    lemma_gathered_contains(t, f, d);
}

/// Whether the entry `e` of `m` maps the variable `v` to the parameter `p`.
pub open spec fn is_entry(m: Entries, e: int, p: Seq<char>, v: Seq<char>) -> bool {
    0 <= e < m.len() && m[e].0 == v && m[e].1.op == Op::Var(p)
}

/// Whether a mapping that explains one of `conds` maps the variable `v` to the parameter
/// `p`.
pub open spec fn is_noted(
    conds: Seq<Term>,
    maps: Seq<Entries>,
    p: Seq<char>,
    v: Seq<char>,
) -> bool {
    exists|c: int, e: int|
        0 <= c < conds.len() && explanation(maps, conds[c]) is Some && #[trigger] is_entry(
            explanation(maps, conds[c])->0,
            e,
            p,
            v,
        )
}

/// Whether no parameter comes twice.
pub open spec fn once_each(pairs: ParamVars) -> bool {
    forall|i: int, j: int|
        0 <= i < j < pairs.len() ==> (#[trigger] pairs[i]).0 != (#[trigger] pairs[j]).0
}

proof fn lemma_noted(pairs: ParamVars, m: Entries, n: nat)
    requires
        n <= m.len(),
        once_each(pairs),
    ensures
        once_each(noted(pairs, m, n)),
        pairs.is_prefix_of(noted(pairs, m, n)),
        forall|i: int|
            pairs.len() <= i < noted(pairs, m, n).len() ==> exists|e: int|
                0 <= e < n && m[e].0 == (#[trigger] noted(pairs, m, n)[i]).1 && (
                #[trigger] m[e]).1.op == Op::Var(noted(pairs, m, n)[i].0),
        forall|e: int|
            0 <= e < n ==> ((#[trigger] m[e]).1.op matches Op::Var(p) ==> has_param(
                noted(pairs, m, n),
                p,
            )),
    decreases n,
{
    let all = noted(pairs, m, n);
    if n > 0 {
        let l = (n - 1) as nat;
        let before = noted(pairs, m, l);
        lemma_noted(pairs, m, l);
        assert forall|i: int| pairs.len() <= i < all.len() implies exists|e: int|
            0 <= e < n && m[e].0 == (#[trigger] all[i]).1 && (#[trigger] m[e]).1.op == Op::Var(
                all[i].0,
            ) by {
            if i < before.len() {
                assert(all[i] == before[i]);
                let e = choose|e: int|
                    0 <= e < l && m[e].0 == before[i].1 && (#[trigger] m[e]).1.op == Op::Var(
                        before[i].0,
                    );
                assert(m[e].0 == all[i].1);
            } else {
                assert(m[n - 1].0 == all[i].1);
            }
        }
        assert forall|e: int| 0 <= e < n implies ((#[trigger] m[e]).1.op matches Op::Var(p)
            ==> has_param(all, p)) by {
            if let Op::Var(p) = m[e].1.op {
                if e < l || has_param(before, p) {
                    assert(has_param(before, p));
                    let i = choose|i: int| 0 <= i < before.len() && (#[trigger] before[i]).0 == p;
                    assert(all[i].0 == p);
                } else {
                    assert(all[before.len() as int].0 == p);
                }
            }
        }
        if let Op::Var(p) = m[n - 1].1.op {
            if !has_param(before, p) {
                assert forall|i: int, j: int| 0 <= i < j < all.len() implies (
                #[trigger] all[i]).0 != (#[trigger] all[j]).0 by {
                    if j == before.len() {
                        assert(before[i].0 != p);
                    }
                }
            }
        }
    }
}

/// The parameters noted with variables are those that the explaining mappings map to, each
/// once, with a variable that one of them maps to it.
pub proof fn lemma_param_vars(conds: Seq<Term>, maps: Seq<Entries>)
    ensures
        once_each(param_vars(conds, maps)),
        forall|i: int|
            0 <= i < param_vars(conds, maps).len() ==> is_noted(
                conds,
                maps,
                (#[trigger] param_vars(conds, maps)[i]).0,
                param_vars(conds, maps)[i].1,
            ),
        forall|p: Seq<char>, v: Seq<char>| #[trigger]
            is_noted(conds, maps, p, v) ==> has_param(param_vars(conds, maps), p),
    decreases conds.len(),
{
    let all = param_vars(conds, maps);
    if conds.len() > 0 {
        let front = conds.drop_last();
        let n = conds.len() - 1;
        let before = param_vars(front, maps);
        lemma_param_vars(front, maps);
        if let Some(m) = explanation(maps, conds.last()) {
            lemma_noted(before, m, m.len());
        }
        assert forall|i: int| 0 <= i < all.len() implies is_noted(
            conds,
            maps,
            (#[trigger] all[i]).0,
            all[i].1,
        ) by {
            if i < before.len() {
                assert(all[i] == before[i]);
                assert(is_noted(front, maps, before[i].0, before[i].1));
                let (c, e) = choose|c: int, e: int|
                    0 <= c < front.len() && explanation(maps, front[c]) is Some
                        && #[trigger] is_entry(
                        explanation(maps, front[c])->0,
                        e,
                        before[i].0,
                        before[i].1,
                    );
                assert(conds[c] == front[c]);
                assert(is_entry(explanation(maps, conds[c])->0, e, all[i].0, all[i].1));
            } else {
                let m = explanation(maps, conds[n])->0;
                let e = choose|e: int|
                    0 <= e < m.len() && m[e].0 == all[i].1 && (#[trigger] m[e]).1.op == Op::Var(
                        all[i].0,
                    );
                assert(is_entry(explanation(maps, conds[n])->0, e, all[i].0, all[i].1));
            }
        }
        assert forall|p: Seq<char>, v: Seq<char>| #[trigger] is_noted(
            conds,
            maps,
            p,
            v,
        ) implies has_param(all, p) by {
            let (c, e) = choose|c: int, e: int|
                0 <= c < conds.len() && explanation(maps, conds[c]) is Some && #[trigger] is_entry(
                    explanation(maps, conds[c])->0,
                    e,
                    p,
                    v,
                );
            let m = explanation(maps, conds[c])->0;
            if c < n {
                assert(front[c] == conds[c]);
                assert(is_entry(explanation(maps, front[c])->0, e, p, v));
                assert(is_noted(front, maps, p, v));
                assert(has_param(before, p));
                let i = choose|i: int| 0 <= i < before.len() && (#[trigger] before[i]).0 == p;
                assert(all[i].0 == p);
            } else {
                assert(m[e].1.op == Op::Var(p));
            }
        }
    }
}

proof fn lemma_occurrences_bound(t: Term, bound: Seq<Seq<char>>, y: Seq<char>)
    ensures
        occurrences(t, bound).contains(y) <==> occurrences(t, seq![]).contains(y)
            && !bound.contains(y),
    decreases t,
{
    let none: Seq<Seq<char>> = seq![];
    match t.op {
        Op::Var(x) => {
            assert(!none.contains(x));
            assert(seq![x][0] == x);
            assert(seq![x].contains(y) == (x == y));
        },
        Op::Subst(x) => {
            if t.kids.len() == 2 {
                let (v, e) = (t.kids[0], t.kids[1]);
                lemma_occurrences_bound(v, bound, y);
                lemma_occurrences_bound(e, bound.push(x), y);
                lemma_occurrences_bound(e, none.push(x), y);
                assert(bound.push(x).contains(y) == (bound.contains(y) || x == y)) by {
                    if bound.contains(y) {
                        let i = choose|i: int| 0 <= i < bound.len() && bound[i] == y;
                        assert(bound.push(x)[i] == y);
                    }
                    assert(bound.push(x)[bound.len() as int] == x);
                }
                assert(none.push(x).contains(y) == (x == y)) by {
                    assert(none.push(x)[0] == x);
                }
                lemma_contains_add(occurrences(v, bound), occurrences(e, bound.push(x)), y);
                lemma_contains_add(occurrences(v, none), occurrences(e, none.push(x)), y);
            }
        },
        _ => {
            let (a, b) = (occurrences_below(t, bound), occurrences_below(t, none));
            assert forall|i: int| 0 <= i < t.kids.len() implies (#[trigger] a[i]).contains(y) == (
            b[i].contains(y) && !bound.contains(y)) by {
                lemma_occurrences_bound(t.kids[i], bound, y);
            }
            if joined(a).contains(y) {
                lemma_joined_contains(a, y);
                let i = choose|i: int| 0 <= i < a.len() && (#[trigger] a[i]).contains(y);
                lemma_joined_has(b, i, y);
            }
            if joined(b).contains(y) && !bound.contains(y) {
                lemma_joined_contains(b, y);
                let i = choose|i: int| 0 <= i < b.len() && (#[trigger] b[i]).contains(y);
                assert(a[i].contains(y));
                lemma_joined_has(a, i, y);
            }
        },
    }
}

proof fn lemma_contains_add(a: Seq<Seq<char>>, b: Seq<Seq<char>>, y: Seq<char>)
    ensures
        (a + b).contains(y) <==> a.contains(y) || b.contains(y),
{
    if a.contains(y) {
        let i = choose|i: int| 0 <= i < a.len() && a[i] == y;
        assert((a + b)[i] == y);
    }
    if b.contains(y) {
        let i = choose|i: int| 0 <= i < b.len() && b[i] == y;
        assert((a + b)[a.len() + i] == y);
    }
}

/// The free variables of a substitution are those of the value, and those of the term but
/// for the variable that is replaced.
pub proof fn lemma_free_vars_subst(t: Term, x: Seq<char>, y: Seq<char>)
    requires
        t.op == Op::Subst(x),
        t.kids.len() == 2,
    ensures
        free_vars(t).contains(y) <==> free_vars(t.kids[0]).contains(y) || (y != x && free_vars(
            t.kids[1],
        ).contains(y)),
{
    let none: Seq<Seq<char>> = seq![];
    let (v, e) = (t.kids[0], t.kids[1]);
    lemma_with_names_contains(none, occurrences(t, none), y);
    lemma_with_names_contains(none, occurrences(v, none), y);
    lemma_with_names_contains(none, occurrences(e, none), y);
    lemma_occurrences_bound(e, none.push(x), y);
    assert(none.push(x).contains(y) == (x == y)) by {
        assert(none.push(x)[0] == x);
    }
    lemma_contains_add(occurrences(v, none), occurrences(e, none.push(x)), y);
}

/// The free variables of any other term are the variable itself, or those of the terms
/// below it. Each is listed once.
pub proof fn lemma_free_vars_below(t: Term, y: Seq<char>)
    ensures
        t.op matches Op::Var(x) ==> (free_vars(t).contains(y) <==> x == y),
        !(t.op is Var) && !(t.op is Subst) ==> (free_vars(t).contains(y) <==> exists|i: int|
            0 <= i < t.kids.len() && free_vars(#[trigger] t.kids[i]).contains(y)),
        free_vars(t).no_duplicates(),
{
    let none: Seq<Seq<char>> = seq![];
    lemma_with_names_contains(none, occurrences(t, none), y);
    lemma_names_once(occurrences(t, none));
    if let Op::Var(x) = t.op {
        assert(!none.contains(x));
        assert(seq![x][0] == x);
    } else if !(t.op is Subst) {
        let parts = occurrences_below(t, none);
        assert forall|i: int| 0 <= i < t.kids.len() implies (#[trigger] parts[i]).contains(y)
            == free_vars(t.kids[i]).contains(y) by {
            lemma_with_names_contains(none, occurrences(t.kids[i], none), y);
        }
        if joined(parts).contains(y) {
            lemma_joined_contains(parts, y);
            let i = choose|i: int| 0 <= i < parts.len() && (#[trigger] parts[i]).contains(y);
            assert(free_vars(t.kids[i]).contains(y));
        }
        if exists|i: int| 0 <= i < t.kids.len() && free_vars(#[trigger] t.kids[i]).contains(y) {
            let i = choose|i: int|
                0 <= i < t.kids.len() && free_vars(#[trigger] t.kids[i]).contains(y);
            assert(parts[i].contains(y));
            lemma_joined_has(parts, i, y);
        }
    }
}

proof fn lemma_names_once(more: Seq<Seq<char>>)
    ensures
        with_names(seq![], more).no_duplicates(),
    decreases more.len(),
{
    if more.len() > 0 {
        lemma_names_once(more.drop_last());
    }
}

/// The variables of a term without substitutions, once for each time that they come, are
/// those of the terms within it, in the order in which these come.
pub proof fn lemma_occurrences_order(t: Term)
    requires
        without_substs(t),
        forall|s: Term| #[trigger] is_subterm(s, t) && s.op is Var ==> s.kids.len() == 0,
    ensures
        occurrences(t, seq![]) == joined(
            preorder(t).map_values(
                |s: Term|
                    match s.op {
                        Op::Var(x) => seq![x],
                        _ => seq![],
                    },
            ),
        ),
        free_vars(t) == with_names(seq![], occurrences(t, seq![])),
{
    lemma_occurrences_gathered(t);
}

/// Lists of expressions, mappings and parameters are read item by item.
pub proof fn lemma_lists_read(
    es: Seq<Expr>,
    lists: Seq<Vec<Expr>>,
    maps: Seq<Mapping>,
    vars: Seq<(Expr, Range)>,
    params: Seq<Param>,
    decls: Seq<VarDecl>,
    idents: Seq<(Ident, TyKind)>,
    pairs: Seq<(Ident, Ident)>,
    i: int,
)
    ensures
        terms(es).len() == es.len(),
        0 <= i < es.len() ==> terms(es)[i] == es[i]@,
        term_lists(lists).len() == lists.len(),
        0 <= i < lists.len() ==> term_lists(lists)[i] == terms(lists[i]@),
        all_entries(maps).len() == maps.len(),
        0 <= i < maps.len() ==> all_entries(maps)[i] == entries_of(maps[i]),
        ranged(vars).len() == vars.len(),
        0 <= i < vars.len() ==> ranged(vars)[i] == (vars[i].0@, vars[i].1),
        param_names(params).len() == params.len(),
        0 <= i < params.len() ==> param_names(params)[i] == params[i].name@,
        decl_names(decls).len() == decls.len(),
        0 <= i < decls.len() ==> decl_names(decls)[i] == decls[i].name@,
        typed_names(idents).len() == idents.len(),
        0 <= i < idents.len() ==> typed_names(idents)[i] == (idents[i].0@, idents[i].1),
        pairs_of(pairs).len() == pairs.len(),
        0 <= i < pairs.len() ==> pairs_of(pairs)[i] == (pairs[i].0@, pairs[i].1@),
{
}

/// A parameter keeps the variable that it was first noted with: what is noted stays when
/// there are more conditions, and when there are more entries.
pub proof fn lemma_noted_stays(
    conds: Seq<Term>,
    c: Term,
    maps: Seq<Entries>,
    pairs: ParamVars,
    m: Entries,
    n: nat,
)
    requires
        n < m.len(),
    ensures
        param_vars(conds, maps).is_prefix_of(param_vars(conds.push(c), maps)),
        noted(pairs, m, n).is_prefix_of(noted(pairs, m, n + 1)),
        m[n as int].1.op matches Op::Var(p) ==> (!has_param(noted(pairs, m, n), p) ==> noted(
            pairs,
            m,
            n + 1,
        ) == noted(pairs, m, n).push((p, m[n as int].0))),
{
    assert(conds.push(c).drop_last() =~= conds);
    lemma_param_vars(conds, maps);
    if let Some(e) = explanation(maps, c) {
        lemma_noted(param_vars(conds, maps), e, e.len());
    }
}

} // verus!
