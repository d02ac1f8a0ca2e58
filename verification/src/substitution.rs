//! Free variables and substitution.

use vstd::prelude::*;

use crate::ast::{
    children, lemma_view, share, terms, with_children, Expr, ExprKind, Ident, Op, Term,
};
use crate::collections::{
    entries_of, lemma_put_lookup, lemma_with_names_add, lemma_with_names_contains, lookup,
    mapping_clone, mapping_get, mapping_insert, names_insert, names_new, names_of, put, with_names,
    Entries, Mapping, NameSet,
};
use crate::semantics::{meaning, meanings_below, well_formed, Valuation};
use crate::seqs::{joined, lemma_joined_has, lemma_joined_take};

verus! {

/// The variables of `t` that are not among `bound`, as they come from left to
/// right, once for each time that they come.
pub open spec fn occurrences(t: Term, bound: Seq<Seq<char>>) -> Seq<Seq<char>>
    decreases t, 1nat,
{
    match t.op {
        Op::Var(x) => if bound.contains(x) {
            seq![]
        } else {
            seq![x]
        },
        Op::Subst(x) => if t.kids.len() == 2 {
            occurrences(t.kids[0], bound) + occurrences(t.kids[1], bound.push(x))
        } else {
            seq![]
        },
        _ => joined(occurrences_below(t, bound)),
    }
}

/// [`occurrences`] for each of the terms below `t`.
pub open spec fn occurrences_below(t: Term, bound: Seq<Seq<char>>) -> Seq<Seq<Seq<char>>>
    decreases t, 0nat,
{
    Seq::new(
        t.kids.len(),
        |i: int|
            if 0 <= i < t.kids.len() {
                occurrences(t.kids[i], bound)
            } else {
                seq![]
            },
    )
}

/// The free variables of `t`, each once, in the order in which they first come.
pub open spec fn free_vars(t: Term) -> Seq<Seq<char>> {
    with_names(seq![], occurrences(t, seq![]))
}

/// Whether `names` holds `x`.
fn bound_contains(names: &Vec<String>, x: &Ident) -> (r: bool)
    ensures
        r == names@.map_values(|s: String| s@).contains(x@),
{
    let ghost all = names@.map_values(|s: String| s@);
    for i in 0..names.len()
        invariant
            all == names@.map_values(|s: String| s@),
            forall|j: int| 0 <= j < i ==> all[j] != x@,
    {
        if names[i] == x.name {
            assert(all[i as int] == x@);
            return true;
        }
    }
    false
}

/// Puts the variables of `expr` that are not among `bound` into `out`.
fn collect_vars(expr: &Expr, bound: &mut Vec<String>, out: &mut NameSet)
    ensures
        final(bound)@ == old(bound)@,
        names_of(*final(out)) == with_names(
            names_of(*old(out)),
            occurrences(expr@, old(bound)@.map_values(|s: String| s@)),
        ),
    decreases expr@,
{
    let ghost b = bound@.map_values(|s: String| s@);
    let ghost before = names_of(*out);
    match &expr.kind {
        ExprKind::Var(x) => {
            reveal_with_fuel(with_names, 2);
            if !bound_contains(bound, x) {
                names_insert(out, x.name.clone());
                assert(occurrences(expr@, b).drop_last() =~= seq![]);
            }
        },
        ExprKind::Subst(x, v, e) => {
            assert(expr@.kids[0] == v@ && expr@.kids[1] == e@);
            collect_vars(v, bound, out);
            let ghost outer = bound@;
            bound.push(x.name.clone());
            assert(bound@.map_values(|s: String| s@) =~= b.push(x@));
            collect_vars(e, bound, out);
            bound.pop();
            assert(bound@ =~= outer);
            proof {
                lemma_with_names_add(
                    before,
                    occurrences(v@, b),
                    occurrences(e@, b.push(x@)),
                );
            }
        },
        _ => {
            let below = children(expr);
            let ghost parts = occurrences_below(expr@, b);
            let ghost outer = bound@;
            assert(parts.take(0) =~= seq![]);
            for i in 0..below.len()
                invariant
                    terms(below@) == expr@.kids,
                    bound@ == outer,
                    b == outer.map_values(|s: String| s@),
                    parts == occurrences_below(expr@, b),
                    names_of(*out) == with_names(before, joined(parts.take(i as int))),
            {
                assert(expr@.kids[i as int] == below@[i as int]@);
                assert(decreases_to!(expr@ => expr@.kids));
                collect_vars(&below[i], bound, out);
                proof {
                    lemma_joined_take(parts, i as int);
                    lemma_with_names_add(before, joined(parts.take(i as int)), parts[i as int]);
                }
            }
            assert(parts.take(parts.len() as int) =~= parts);
            assert(occurrences(expr@, b) == joined(parts)) by {
                lemma_view(&**expr);
            }
        },
    }
}

/// The free variables of `expr`, in the order in which they first come.
pub fn collect_program_vars(expr: &Expr) -> (r: NameSet)
    ensures
        names_of(r) == free_vars(expr@),
{
    let mut out = names_new();
    let mut bound: Vec<String> = Vec::new();
    assert(bound@.map_values(|s: String| s@) =~= seq![]);
    collect_vars(expr, &mut bound, &mut out);
    out
}

/// `t` with each free variable that `m` maps replaced by what it maps it to,
/// all at once, and without the substitutions that stand in `t`.
pub open spec fn resolved(t: Term, m: Entries) -> Term
    decreases t, 1nat,
{
    match t.op {
        Op::Var(x) => match lookup(m, x) {
            Some(v) => v,
            None => t,
        },
        Op::Subst(x) => if t.kids.len() == 2 {
            resolved(t.kids[1], put(m, x, resolved(t.kids[0], m)))
        } else {
            t
        },
        _ => Term { op: t.op, kids: resolved_below(t, m), ty: t.ty },
    }
}

/// [`resolved`] for each of the terms below `t`.
pub open spec fn resolved_below(t: Term, m: Entries) -> Seq<Term>
    decreases t, 0nat,
{
    Seq::new(
        t.kids.len(),
        |i: int|
            if 0 <= i < t.kids.len() {
                resolved(t.kids[i], m)
            } else {
                t
            },
    )
}

/// `expr` with its free variables replaced as `mapping` says, all at once.
pub fn subst_from_mapping(mapping: &Mapping, expr: &Expr) -> (r: Expr)
    ensures
        r@ == resolved(expr@, entries_of(*mapping)),
    decreases expr@,
{
    let ghost m = entries_of(*mapping);
    let ghost t = expr@;
    match &expr.kind {
        ExprKind::Var(x) => {
            return match mapping_get(mapping, &x.name) {
                Some(v) => share(v),
                None => share(expr),
            };
        },
        ExprKind::Subst(x, v, e) => {
            assert(t.kids[0] == v@ && t.kids[1] == e@);
            let v2 = subst_from_mapping(mapping, v);
            let mut inner = mapping_clone(mapping);
            mapping_insert(&mut inner, x.name.clone(), v2);
            return subst_from_mapping(&inner, e);
        },
        _ => {},
    }
    proof {
        lemma_view(&**expr);
    }
    let ghost below = resolved_below(t, m);
    let kids = children(expr);
    let mut new_kids: Vec<Expr> = Vec::new();
    for i in 0..kids.len()
        invariant
            t == expr@,
            m == entries_of(*mapping),
            terms(kids@) == t.kids,
            below == resolved_below(t, m),
            terms(new_kids@) =~= below.take(i as int),
    {
        assert(t.kids[i as int] == kids@[i as int]@);
        assert(decreases_to!(expr@ => expr@.kids));
        let kid = subst_from_mapping(mapping, &kids[i]);
        let ghost before = terms(new_kids@);
        new_kids.push(kid);
        assert(terms(new_kids@) =~= before.push(kid@));
        assert(below.take(i + 1) =~= before.push(kid@));
    }
    assert(below.take(below.len() as int) =~= below);
    with_children(expr, &new_kids)
}

impl Valuation {
    /// This valuation after the variables that `m` maps take the values of what
    /// it maps them to.
    pub open spec fn after(self, m: Entries) -> Valuation {
        Valuation {
            vars: |x: Seq<char>|
                match lookup(m, x) {
                    Some(v) => meaning(v, self),
                    None => (self.vars)(x),
                },
            functions: self.functions,
        }
    }
}

/// Mapping one more variable is binding it.
pub proof fn lemma_after_put(env: Valuation, m: Entries, x: Seq<char>, v: Term)
    ensures
        env.after(put(m, x, v)) == env.after(m).bind(x, meaning(v, env)),
{
    let a = env.after(put(m, x, v));
    let b = env.after(m).bind(x, meaning(v, env));
    assert forall|n: Seq<char>| #[trigger] (a.vars)(n) == (b.vars)(n) by {
        lemma_put_lookup(m, x, v, n);
    }
    assert(a =~= b);
}

/// Substitution means what it should: a term in which variables were replaced
/// stands, under any valuation, for what the term stood for with the values of
/// the replacements given to those variables.
pub proof fn lemma_resolved_meaning(t: Term, m: Entries, env: Valuation)
    ensures
        meaning(resolved(t, m), env) == meaning(t, env.after(m)),
    decreases t,
{
    let r = resolved(t, m);
    match t.op {
        Op::Var(x) => {},
        Op::Subst(x) => {
            if t.kids.len() == 2 {
                let v = resolved(t.kids[0], m);
                lemma_resolved_meaning(t.kids[0], m, env);
                lemma_resolved_meaning(t.kids[1], put(m, x, v), env);
                lemma_after_put(env, m, x, v);
            }
        },
        _ => {
            let below = resolved_below(t, m);
            assert(r.kids == below);
            assert forall|i: int| 0 <= i < t.kids.len() implies meaning(
                #[trigger] below[i],
                env,
            ) == meaning(t.kids[i], env.after(m)) by {
                lemma_resolved_meaning(t.kids[i], m, env);
            }
            assert(meanings_below(r, env) =~= meanings_below(t, env.after(m)));
        },
    }
}

/// Whether two valuations give the variable `x` the same value.
pub open spec fn agree(a: Valuation, b: Valuation, x: Seq<char>) -> bool {
    (a.vars)(x) == (b.vars)(x)
}

/// Whether no function is called in `t`.
pub open spec fn without_calls(t: Term) -> bool
    decreases t,
{
    &&& !(t.op is Call)
    &&& forall|i: int| 0 <= i < t.kids.len() ==> without_calls(#[trigger] t.kids[i])
}

proof fn lemma_meaning_agrees_under(
    t: Term,
    bound: Seq<Seq<char>>,
    a: Valuation,
    b: Valuation,
)
    requires
        a.functions == b.functions || without_calls(t),
        forall|x: Seq<char>| #[trigger] bound.contains(x) ==> agree(a, b, x),
        forall|x: Seq<char>| #[trigger] occurrences(t, bound).contains(x) ==> agree(a, b, x),
    ensures
        meaning(t, a) == meaning(t, b),
    decreases t,
{
    match t.op {
        Op::Var(x) => {
            if !bound.contains(x) {
                assert(occurrences(t, bound)[0] == x);
                assert(occurrences(t, bound).contains(x));
            }
            assert(agree(a, b, x));
        },
        Op::Subst(x) => {
            if t.kids.len() == 2 {
                let outer = occurrences(t.kids[0], bound);
                let inner = occurrences(t.kids[1], bound.push(x));
                let whole = occurrences(t, bound);
                assert forall|y: Seq<char>| #[trigger] outer.contains(y) implies agree(a, b, y) by {
                    let i = choose|i: int| 0 <= i < outer.len() && outer[i] == y;
                    assert(whole[i] == y);
                    assert(whole.contains(y));
                }
                lemma_meaning_agrees_under(t.kids[0], bound, a, b);
                let v = meaning(t.kids[0], a);
                let (c, d) = (a.bind(x, v), b.bind(x, v));
                assert forall|y: Seq<char>| #[trigger] bound.push(x).contains(y) implies agree(
                    c,
                    d,
                    y,
                ) by {
                    if y != x {
                        let i = choose|i: int|
                            0 <= i < bound.push(x).len() && bound.push(x)[i] == y;
                        assert(bound[i] == y);
                        assert(bound.contains(y));
                    }
                }
                assert forall|y: Seq<char>| #[trigger] inner.contains(y) implies agree(c, d, y) by {
                    if y != x {
                        let i = choose|i: int| 0 <= i < inner.len() && inner[i] == y;
                        assert(whole[outer.len() + i] == y);
                        assert(whole.contains(y));
                    }
                }
                lemma_meaning_agrees_under(t.kids[1], bound.push(x), c, d);
            }
        },
        _ => {
            let parts = occurrences_below(t, bound);
            assert forall|i: int| 0 <= i < t.kids.len() implies meaning(
                #[trigger] t.kids[i],
                a,
            ) == meaning(t.kids[i], b) by {
                assert forall|x: Seq<char>| #[trigger]
                    occurrences(t.kids[i], bound).contains(x) implies agree(a, b, x) by {
                    assert(parts[i] == occurrences(t.kids[i], bound));
                    lemma_joined_has(parts, i, x);
                    assert(occurrences(t, bound).contains(x));
                }
                lemma_meaning_agrees_under(t.kids[i], bound, a, b);
            }
            assert(meanings_below(t, a) =~= meanings_below(t, b));
        },
    }
}

/// What a term stands for depends on its free variables and functions alone: it is the
/// same under valuations that agree on these.
pub proof fn lemma_meaning_agrees(t: Term, a: Valuation, b: Valuation)
    requires
        a.functions == b.functions || without_calls(t),
        forall|x: Seq<char>| #[trigger] free_vars(t).contains(x) ==> agree(a, b, x),
    ensures
        meaning(t, a) == meaning(t, b),
{
    let none: Seq<Seq<char>> = seq![];
    assert forall|x: Seq<char>| #[trigger] occurrences(t, none).contains(x) implies agree(
        a,
        b,
        x,
    ) by {
        lemma_with_names_contains(none, occurrences(t, none), x);
        assert(free_vars(t).contains(x));
    }
    lemma_meaning_agrees_under(t, none, a, b);
}

/// Whether no substitution stands in `t`.
pub open spec fn without_substs(t: Term) -> bool
    decreases t,
{
    &&& !(t.op is Subst)
    &&& forall|i: int| 0 <= i < t.kids.len() ==> without_substs(#[trigger] t.kids[i])
}

/// A term in which variables were replaced, by terms without substitutions, holds no
/// substitution.
pub proof fn lemma_resolved_without_substs(t: Term, m: Entries)
    requires
        well_formed(t),
        forall|y: Seq<char>|
            (#[trigger] lookup(m, y)) is Some ==> without_substs(lookup(m, y)->0),
    ensures
        without_substs(resolved(t, m)),
    decreases t,
{
    match t.op {
        Op::Var(x) => {},
        Op::Subst(x) => {
            let v = resolved(t.kids[0], m);
            lemma_resolved_without_substs(t.kids[0], m);
            assert forall|y: Seq<char>| (#[trigger] lookup(
                put(m, x, v),
                y,
            )) is Some implies without_substs(lookup(put(m, x, v), y)->0) by {
                lemma_put_lookup(m, x, v, y);
            }
            lemma_resolved_without_substs(t.kids[1], put(m, x, v));
        },
        _ => {
            let below = resolved_below(t, m);
            assert forall|i: int| 0 <= i < below.len() implies without_substs(
                #[trigger] below[i],
            ) by {
                lemma_resolved_without_substs(t.kids[i], m);
            }
        },
    }
}

/// Replacing variables that are not free in a term without substitutions leaves it as it
/// is.
pub proof fn lemma_resolved_same(t: Term, m: Entries)
    requires
        without_substs(t),
        forall|x: Seq<char>| #[trigger] free_vars(t).contains(x) ==> lookup(m, x) is None,
    ensures
        resolved(t, m) == t,
{
    let none: Seq<Seq<char>> = seq![];
    assert forall|x: Seq<char>| #[trigger] occurrences(t, none).contains(x) implies lookup(
        m,
        x,
    ) is None by {
        lemma_with_names_contains(none, occurrences(t, none), x);
        assert(free_vars(t).contains(x));
    }
    lemma_resolved_same_under(t, m);
}

proof fn lemma_resolved_same_under(t: Term, m: Entries)
    requires
        without_substs(t),
        forall|x: Seq<char>| #[trigger]
            occurrences(t, seq![]).contains(x) ==> lookup(m, x) is None,
    ensures
        resolved(t, m) == t,
    decreases t,
{
    let none: Seq<Seq<char>> = seq![];
    if let Op::Var(x) = t.op {
        assert(occurrences(t, none)[0] == x);
        assert(occurrences(t, none).contains(x));
    } else {
        let parts = occurrences_below(t, none);
        assert forall|i: int| 0 <= i < t.kids.len() implies #[trigger] resolved_below(t, m)[i]
            == t.kids[i] by {
            assert forall|x: Seq<char>| #[trigger] occurrences(
                t.kids[i],
                none,
            ).contains(x) implies lookup(m, x) is None by {
                assert(parts[i] == occurrences(t.kids[i], none));
                lemma_joined_has(parts, i, x);
                assert(occurrences(t, none).contains(x));
            }
            lemma_resolved_same_under(t.kids[i], m);
        }
        assert(resolved_below(t, m) =~= t.kids);
    }
}

/// Replacing variables keeps the root and the type of any term but a variable or a
/// substitution, and the number of terms below it; a variable gives what it is mapped to.
pub proof fn lemma_resolved_root(t: Term, m: Entries, i: int)
    ensures
        !(t.op is Var) && !(t.op is Subst) ==> resolved(t, m).op == t.op && resolved(t, m).ty
            == t.ty && resolved(t, m).kids.len() == t.kids.len(),
        !(t.op is Var) && !(t.op is Subst) && 0 <= i < t.kids.len() ==> resolved(t, m).kids[i]
            == resolved(t.kids[i], m),
        t.op matches Op::Var(x) ==> resolved(t, m) == (match lookup(m, x) {
            Some(v) => v,
            None => t,
        }),
{
    let below = resolved_below(t, m);
    if !(t.op is Var) && !(t.op is Subst) {
        assert(resolved(t, m).kids == below);
    }
}

} // verus!
