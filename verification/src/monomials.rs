//! Monomials: products of variables, as combinations with repetition.

use vstd::prelude::*;

use crate::ast::{share, share_all, terms, BinOpKind, Expr, ExprBuilder, Term, TyKind};

verus! {

/// `first` in front of each of `lists`.
pub open spec fn prepended(first: int, lists: Seq<Seq<int>>) -> Seq<Seq<int>> {
    lists.map_values(|l: Seq<int>| seq![first] + l)
}

/// The lists of `degree` indices from `start` up to, but not with, `n` in which
/// no index is less than the one before it, in lexicographic order.
pub open spec fn index_lists(n: int, degree: nat, start: int) -> Seq<Seq<int>>
    decreases degree, n - start,
{
    if degree == 0 {
        seq![seq![]]
    } else if start >= n {
        seq![]
    } else {
        prepended(start, index_lists(n, (degree - 1) as nat, start)) + index_lists(
            n,
            degree,
            start + 1,
        )
    }
}

/// The variables at the given indices.
pub open spec fn picked(vars: Seq<Term>, indices: Seq<int>) -> Seq<Term> {
    indices.map_values(|i: int| vars[i])
}

/// `prefix` with the variables at each list of indices behind it.
pub open spec fn completions(vars: Seq<Term>, prefix: Seq<Term>, lists: Seq<Seq<int>>) -> Seq<
    Seq<Term>,
> {
    lists.map_values(|l: Seq<int>| prefix + picked(vars, l))
}

/// The monomials of the given degree over `vars`, as lists of factors.
pub open spec fn monomials(vars: Seq<Term>, degree: nat) -> Seq<Seq<Term>> {
    index_lists(vars.len() as int, degree, 0).map_values(|l: Seq<int>| picked(vars, l))
}

/// The models of lists of expressions.
pub open spec fn term_lists(lists: Seq<Vec<Expr>>) -> Seq<Seq<Term>> {
    lists.map_values(|l: Vec<Expr>| terms(l@))
}

/// Whether `l` is a list of `degree` indices from `start` up to, but not with,
/// `n` in which no index is less than one before it.
pub open spec fn is_index_list(n: int, degree: nat, start: int, l: Seq<int>) -> bool {
    &&& l.len() == degree
    &&& forall|i: int| 0 <= i < l.len() ==> start <= #[trigger] l[i] < n
    &&& forall|i: int, j: int| 0 <= i < j < l.len() ==> #[trigger] l[i] <= #[trigger] l[j]
}

/// Puts at the end of `out` the factors `current` completed, in each possible
/// way, to `degree` factors from `vars`, none before the index `start` and none
/// before the one that it follows. Where `current` holds more factors already and
/// there are no variables from `start` on, nothing is put there.
pub fn gen_monomials(
    vars: &[Expr],
    degree: usize,
    start: usize,
    current: &mut Vec<Expr>,
    out: &mut Vec<Vec<Expr>>,
)
    requires
        old(current)@.len() <= degree || start >= vars@.len(),
    ensures
        final(current)@ == old(current)@,
        old(current)@.len() <= degree ==> term_lists(final(out)@) == term_lists(old(out)@)
            + completions(
            terms(vars@),
            terms(old(current)@),
            index_lists(vars@.len() as int, (degree - old(current)@.len()) as nat, start as int),
        ),
        old(current)@.len() > degree ==> final(out)@ == old(out)@,
    decreases degree - old(current)@.len(),
{
    let ghost vs = terms(vars@);
    let ghost n = vars@.len() as int;
    let ghost d = (degree - current@.len()) as nat;
    let ghost prefix = terms(current@);
    let ghost before = term_lists(out@);
    if current.len() == degree {
        let copy = share_all(current);
        out.push(copy);
        proof {
            assert(prefix + picked(vs, seq![]) =~= prefix);
            assert(completions(vs, prefix, seq![seq![]]) =~= seq![prefix]);
            assert(term_lists(out@) =~= before + seq![prefix]);
        }
        return ;
    }
    if current.len() > degree {
        return ;
    }
    let ghost whole = before + completions(vs, prefix, index_lists(n, d, start as int));
    let ghost outer = current@;
    let mut i: usize = start;
    while i < vars.len()
        invariant
            n == vars@.len(),
            vs == terms(vars@),
            outer.len() < degree,
            current@ == outer,
            prefix == terms(outer),
            d == degree - outer.len(),
            outer == old(current)@,
            whole == term_lists(out@) + completions(vs, prefix, index_lists(n, d, i as int)),
        decreases vars@.len() - i,
    {
        let ghost mid = term_lists(out@);
        let ghost shorter = index_lists(n, (d - 1) as nat, i as int);
        let ghost rest = index_lists(n, d, i + 1);
        current.push(share(&vars[i]));
        assert(terms(current@) =~= prefix.push(vs[i as int]));
        gen_monomials(vars, degree, i, current, out);
        current.pop();
        assert(current@ =~= outer);
        proof {
            let front = completions(vs, prefix.push(vs[i as int]), shorter);
            assert forall|k: int| 0 <= k < shorter.len() implies #[trigger] front[k] == prefix
                + picked(vs, seq![i as int] + shorter[k]) by {
                assert(prefix.push(vs[i as int]) + picked(vs, shorter[k]) =~= prefix + picked(
                    vs,
                    seq![i as int] + shorter[k],
                ));
            }
            assert(completions(vs, prefix, prepended(i as int, shorter)) =~= front);
            assert(completions(vs, prefix, prepended(i as int, shorter) + rest) =~= front
                + completions(vs, prefix, rest));
            assert(index_lists(n, d, i as int) == prepended(i as int, shorter) + rest);
            assert(mid + (front + completions(vs, prefix, rest)) =~= (mid + front) + completions(
                vs,
                prefix,
                rest,
            ));
        }
        i = i + 1;
    }
    assert(completions(vs, prefix, index_lists(n, d, i as int)) =~= seq![]);
    assert(term_lists(out@) =~= whole);
}

/// The factors multiplied, from left to right, at the type `ty`.
pub open spec fn product(ty: TyKind, factors: Seq<Term>) -> Term
    decreases factors.len(),
{
    if factors.len() <= 1 {
        factors[0]
    } else {
        Term::binary(BinOpKind::Mul, ty, product(ty, factors.drop_last()), factors.last())
    }
}

/// Multiplies the factors.
pub fn multiply_all(builder: &ExprBuilder, output_type: &TyKind, factors: &[Expr]) -> (r: Expr)
    requires
        factors@.len() > 0,
    ensures
        r@ == product(*output_type, terms(factors@)),
{
    let ghost fs = terms(factors@);
    let mut acc = share(&factors[0]);
    for i in 1..factors.len()
        invariant
            fs == terms(factors@),
            factors@.len() > 0,
            acc@ == product(*output_type, fs.take(i as int)),
    {
        acc = builder.binary(BinOpKind::Mul, *output_type, acc, share(&factors[i]));
        assert(fs.take(i + 1).drop_last() =~= fs.take(i as int));
    }
    assert(fs.take(fs.len() as int) =~= fs);
    acc
}

/// Everything that [`index_lists`] lists is an index list.
pub proof fn lemma_index_lists_sound(n: int, degree: nat, start: int, k: int)
    requires
        0 <= k < index_lists(n, degree, start).len(),
    ensures
        is_index_list(n, degree, start, index_lists(n, degree, start)[k]),
    decreases degree, n - start,
{
    if degree > 0 && start < n {
        let shorter = index_lists(n, (degree - 1) as nat, start);
        if k < shorter.len() {
            lemma_index_lists_sound(n, (degree - 1) as nat, start, k);
        } else {
            lemma_index_lists_sound(n, degree, start + 1, k - shorter.len());
        }
    }
}

/// [`index_lists`] lists every index list.
pub proof fn lemma_index_lists_complete(n: int, degree: nat, start: int, l: Seq<int>)
    requires
        is_index_list(n, degree, start, l),
    ensures
        index_lists(n, degree, start).contains(l),
    decreases degree, n - start,
{
    let all = index_lists(n, degree, start);
    if degree == 0 {
        assert(l =~= seq![]);
        assert(all[0] == l);
    } else {
        assert(start <= l[0] < n);
        let shorter = index_lists(n, (degree - 1) as nat, start);
        let later = index_lists(n, degree, start + 1);
        if l[0] == start {
            let rest = l.drop_first();
            assert forall|i: int| 0 <= i < rest.len() implies start <= #[trigger] rest[i] < n by {
                assert(rest[i] == l[i + 1]);
            }
            assert forall|i: int, j: int| 0 <= i < j < rest.len() implies #[trigger] rest[i]
                <= #[trigger] rest[j] by {
                assert(rest[i] == l[i + 1] && rest[j] == l[j + 1]);
            }
            lemma_index_lists_complete(n, (degree - 1) as nat, start, rest);
            let k = choose|k: int| 0 <= k < shorter.len() && shorter[k] == rest;
            assert(seq![start] + rest =~= l);
            assert(all[k] == prepended(start, shorter)[k]);
            assert(all[k] == l);
        } else {
            assert forall|i: int| 0 <= i < l.len() implies start + 1 <= #[trigger] l[i] < n by {
                if i > 0 {
                    assert(l[0] <= l[i]);
                }
            }
            lemma_index_lists_complete(n, degree, start + 1, l);
            let k = choose|k: int| 0 <= k < later.len() && later[k] == l;
            assert(all[shorter.len() + k] == l);
        }
    }
}

/// [`index_lists`] lists nothing twice.
pub proof fn lemma_index_lists_distinct(n: int, degree: nat, start: int, a: int, b: int)
    requires
        0 <= a < b < index_lists(n, degree, start).len(),
    ensures
        index_lists(n, degree, start)[a] != index_lists(n, degree, start)[b],
    decreases degree, n - start,
{
    let all = index_lists(n, degree, start);
    if degree > 0 && start < n {
        let shorter = index_lists(n, (degree - 1) as nat, start);
        let later = index_lists(n, degree, start + 1);
        let m = shorter.len() as int;
        if b < m {
            lemma_index_lists_distinct(n, (degree - 1) as nat, start, a, b);
            assert(all[a].drop_first() =~= shorter[a]);
            assert(all[b].drop_first() =~= shorter[b]);
        } else if a < m {
            lemma_index_lists_sound(n, degree, start + 1, b - m);
            assert(all[a][0] == start);
            assert(all[b] == later[b - m]);
            assert(all[b][0] >= start + 1);
        } else {
            lemma_index_lists_distinct(n, degree, start + 1, a - m, b - m);
        }
    }
}

/// Whether one list of indices comes before another: it has the lesser index at the first
/// place where they differ.
pub open spec fn lists_before(a: Seq<int>, b: Seq<int>) -> bool {
    exists|k: int|
        0 <= k < a.len() && k < b.len() && #[trigger] a[k] < b[k] && forall|j: int|
            0 <= j < k ==> #[trigger] a[j] == b[j]
}

/// Index lists come in lexicographic order.
pub proof fn lemma_index_lists_ordered(n: int, degree: nat, start: int, i: int, j: int)
    requires
        0 <= i < j < index_lists(n, degree, start).len(),
    ensures
        lists_before(index_lists(n, degree, start)[i], index_lists(n, degree, start)[j]),
    decreases degree, n - start,
{
    let all = index_lists(n, degree, start);
    let shorter = index_lists(n, (degree - 1) as nat, start);
    let rest = index_lists(n, degree, start + 1);
    let m = shorter.len() as int;
    assert(all == prepended(start, shorter) + rest);
    if j < m {
        lemma_index_lists_ordered(n, (degree - 1) as nat, start, i, j);
        let (a, b) = (shorter[i], shorter[j]);
        let k = choose|k: int|
            0 <= k < a.len() && k < b.len() && #[trigger] a[k] < b[k] && forall|j: int|
                0 <= j < k ==> #[trigger] a[j] == b[j];
        assert(all[i] == seq![start] + a && all[j] == seq![start] + b);
        assert(all[i][k + 1] < all[j][k + 1]);
        assert forall|l: int| 0 <= l < k + 1 implies #[trigger] all[i][l] == all[j][l] by {
            if l > 0 {
                assert(a[l - 1] == b[l - 1]);
            }
        }
    } else if i >= m {
        lemma_index_lists_ordered(n, degree, start + 1, i - m, j - m);
    } else {
        lemma_index_lists_sound(n, degree, start + 1, j - m);
        assert(all[i] == seq![start] + shorter[i]);
        assert(all[j] == rest[j - m]);
        assert(all[i][0] < all[j][0]);
    }
}

/// A completion is the factors so far and then the variables at its indices.
pub proof fn lemma_completion_factors(
    vars: Seq<Term>,
    prefix: Seq<Term>,
    lists: Seq<Seq<int>>,
    k: int,
    j: int,
)
    requires
        0 <= k < lists.len(),
        0 <= j < prefix.len() + lists[k].len(),
    ensures
        completions(vars, prefix, lists).len() == lists.len(),
        completions(vars, prefix, lists)[k].len() == prefix.len() + lists[k].len(),
        completions(vars, prefix, lists)[k][j] == (if j < prefix.len() {
            prefix[j]
        } else {
            vars[lists[k][j - prefix.len()]]
        }),
{
}

} // verus!
