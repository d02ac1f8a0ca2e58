//! The names of coefficients tell them apart.

use vstd::arithmetic::div_mod::lemma_fundamental_div_mod;
use vstd::prelude::*;

use crate::ast::{Ident, Term, TyKind};
use crate::conditions::are_conditions;
use crate::decls::{DeclModel, Param};
use crate::functions::{distinct_names, FuncEntry};
use crate::pieces::{assembled, Shape};
use crate::polynomial::{typed, typed_names, Coefficients};
use crate::solver::SatOracle;
use crate::synthesis::{are_templates, coefficients_of};
use crate::template::{
    is_built, is_template_for, template_conditions, template_guards, template_pieces,
    template_shape, template_splits, SynthOptions, Template,
};
use crate::text::{decimal, is_digit, lemma_decimal_digits, lemma_decimal_injective};

verus! {

/// A number in decimal ends at the first character that is not a digit.
proof fn lemma_decimal_prefix(a: nat, x: Seq<char>, b: nat, y: Seq<char>)
    requires
        decimal(a) + x == decimal(b) + y,
        x.len() > 0,
        y.len() > 0,
        !is_digit(x[0]),
        !is_digit(y[0]),
    ensures
        a == b,
        x == y,
{
    let (da, db) = (decimal(a), decimal(b));
    let whole = da + x;
    lemma_decimal_digits(a);
    lemma_decimal_digits(b);
    if da.len() < db.len() {
        assert(whole[da.len() as int] == x[0]);
        assert(whole[da.len() as int] == db[da.len() as int]);
    }
    if db.len() < da.len() {
        assert(whole[db.len() as int] == y[0]);
        assert(whole[db.len() as int] == da[db.len() as int]);
    }
    assert(da =~= whole.take(da.len() as int));
    assert(db =~= whole.take(da.len() as int));
    assert(x =~= whole.skip(da.len() as int));
    assert(y =~= whole.skip(da.len() as int));
    lemma_decimal_injective(a, b);
}

/// What follows the same text in two equal texts is the same.
proof fn lemma_same_prefix(p: Seq<char>, x: Seq<char>, y: Seq<char>)
    requires
        p + x == p + y,
    ensures
        x == y,
{
    assert(x =~= (p + x).skip(p.len() as int));
    assert(y =~= (p + y).skip(p.len() as int));
}

/// What comes before the same text in two equal texts is the same.
proof fn lemma_same_suffix(x: Seq<char>, y: Seq<char>, p: Seq<char>)
    requires
        x + p == y + p,
    ensures
        x == y,
{
    assert((x + p).len() == (y + p).len());
    assert((x + p).len() == x.len() + p.len());
    assert((y + p).len() == y.len() + p.len());
    assert(x =~= (x + p).take(x.len() as int));
    assert(y =~= (y + p).take(x.len() as int));
}

/// What the name of a coefficient holds behind the number of its degree.
spec fn name_tail(c: Coefficients, idx: nat) -> Seq<char> {
    "_m"@ + (decimal(idx) + decimal(c.suffix))
}

/// The coefficients of different monomials have different names.
pub proof fn lemma_coefficient_names(c: Coefficients, d1: nat, k1: nat, d2: nat, k2: nat)
    requires
        c.name(d1, k1) == c.name(d2, k2),
    ensures
        d1 == d2,
        k1 == k2,
{
    reveal_strlit("_m");
    let head = c.stem() + "_deg"@;
    assert(c.name(d1, k1) =~= head + (decimal(d1) + name_tail(c, k1)));
    assert(c.name(d2, k2) =~= head + (decimal(d2) + name_tail(c, k2)));
    lemma_same_prefix(head, decimal(d1) + name_tail(c, k1), decimal(d2) + name_tail(c, k2));
    lemma_decimal_prefix(d1, name_tail(c, k1), d2, name_tail(c, k2));
    lemma_same_prefix(
        "_m"@,
        decimal(k1) + decimal(c.suffix),
        decimal(k2) + decimal(c.suffix),
    );
    lemma_same_suffix(decimal(k1), decimal(k2), decimal(c.suffix));
    lemma_decimal_injective(k1, k2);
}

/// No coefficient of a monomial has the name of the constant.
pub proof fn lemma_constant_name(c: Coefficients, d: nat, k: nat)
    ensures
        c.name(d, k) != c.constant(),
{
    reveal_strlit("_deg");
    reveal_strlit("_const");
    let i = c.stem().len() + 1;
    assert(c.name(d, k)[i as int] == 'd');
    assert(c.constant()[i as int] == 'c');
}

/// Whether `x` is the name of a coefficient of a degree from 1 to `max_degree`.
spec fn is_name(c: Coefficients, x: Seq<char>, max_degree: nat) -> bool {
    exists|d: nat, k: nat| 1 <= d <= max_degree && x == #[trigger] c.name(d, k)
}

proof fn lemma_names_upto(c: Coefficients, n: int, max_degree: nat)
    ensures
        c.names_upto(n, max_degree).no_duplicates(),
        forall|i: int|
            0 <= i < c.names_upto(n, max_degree).len() ==> is_name(
                c,
                #[trigger] c.names_upto(n, max_degree)[i],
                max_degree,
            ),
    decreases max_degree,
{
    let names = c.names_upto(n, max_degree);
    if max_degree > 0 {
        let lower = c.names_upto(n, (max_degree - 1) as nat);
        let own = c.degree_names(n, max_degree);
        lemma_names_upto(c, n, (max_degree - 1) as nat);
        assert forall|i: int| 0 <= i < names.len() implies is_name(
            c,
            #[trigger] names[i],
            max_degree,
        ) by {
            if i < lower.len() {
                assert(names[i] == lower[i]);
                let (d, k) = choose|d: nat, k: nat|
                    1 <= d <= max_degree - 1 && lower[i] == #[trigger] c.name(d, k);
                assert(names[i] == c.name(d, k));
            } else {
                assert(names[i] == c.name(max_degree, (i - lower.len()) as nat));
            }
        }
        assert forall|i: int, j: int| 0 <= i < j < names.len() implies names[i] != names[j] by {
            if j < lower.len() {
                assert(names[i] == lower[i] && names[j] == lower[j]);
            } else {
                let kj = (j - lower.len()) as nat;
                assert(names[j] == c.name(max_degree, kj));
                if i < lower.len() {
                    assert(names[i] == lower[i]);
                    let (d, k) = choose|d: nat, k: nat|
                        1 <= d <= max_degree - 1 && lower[i] == #[trigger] c.name(d, k);
                    if names[i] == names[j] {
                        lemma_coefficient_names(c, d, k, max_degree, kj);
                    }
                } else {
                    let ki = (i - lower.len()) as nat;
                    assert(names[i] == c.name(max_degree, ki));
                    if names[i] == names[j] {
                        lemma_coefficient_names(c, max_degree, ki, max_degree, kj);
                    }
                }
            }
        }
    }
}

/// The coefficients of a polynomial have different names.
pub proof fn lemma_polynomial_names_distinct(c: Coefficients, n: int, max_degree: nat)
    ensures
        c.names(n, max_degree).no_duplicates(),
{
    let upto = c.names_upto(n, max_degree);
    let names = c.names(n, max_degree);
    lemma_names_upto(c, n, max_degree);
    assert forall|i: int, j: int| 0 <= i < j < names.len() implies names[i] != names[j] by {
        assert(names[i] == upto[i]);
        if j < upto.len() {
            assert(names[j] == upto[j]);
        } else {
            let (d, k) = choose|d: nat, k: nat|
                1 <= d <= max_degree && upto[i] == #[trigger] c.name(d, k);
            lemma_constant_name(c, d, k);
        }
    }
}

/// What the names for a function start with, the two numbers of a piece, and `tail`.
spec fn piece_name(synth: Seq<char>, i: nat, s: nat, tail: Seq<char>) -> Seq<char> {
    "tvar_"@ + synth + "_"@ + piece_text(i, s, tail)
}

/// The two numbers of a piece, and `tail`.
spec fn piece_text(i: nat, s: nat, tail: Seq<char>) -> Seq<char> {
    decimal(i) + ("_"@ + (decimal(s) + tail))
}

/// Whether `tail` can stand behind the numbers of a piece: it starts with an
/// underscore, and no underscore in it has a digit behind it.
spec fn is_tail(tail: Seq<char>) -> bool {
    &&& tail.len() > 0
    &&& tail[0] == '_'
    &&& forall|k: int|
        0 <= k < tail.len() && #[trigger] tail[k] == '_' ==> k + 1 < tail.len() && !is_digit(
            tail[k + 1],
        )
}

/// Whether `x` can be the name of a coefficient of the piece for `i` and `s`.
spec fn is_piece_name(synth: Seq<char>, x: Seq<char>, i: nat, s: nat) -> bool {
    exists|tail: Seq<char>| is_tail(tail) && x == #[trigger] piece_name(synth, i, s, tail)
}

/// It does not matter in which order texts are put together.
proof fn lemma_add_assoc(a: Seq<char>, b: Seq<char>, c: Seq<char>)
    ensures
        a + b + c == a + (b + c),
{
    assert(a + b + c =~= a + (b + c));
}

proof fn lemma_piece_stem(shape: Shape, i: nat, s: nat, tail: Seq<char>)
    ensures
        shape.coefficients(i, s).stem() + tail == piece_name(shape.synth, i, s, tail),
{
    let head = "tvar_"@ + shape.synth + "_"@;
    let (di, ds) = (decimal(i), decimal(s));
    lemma_add_assoc(head, di + "_"@ + ds, tail);
    lemma_add_assoc(di + "_"@, ds, tail);
    lemma_add_assoc(di, "_"@, ds + tail);
}

proof fn lemma_degree_tail(d: nat, m: nat, suffix: nat)
    ensures
        is_tail("_deg"@ + decimal(d) + "_m"@ + decimal(m) + decimal(suffix)),
{
    reveal_strlit("_deg");
    reveal_strlit("_m");
    lemma_decimal_digits(d);
    lemma_decimal_digits(m);
    lemma_decimal_digits(suffix);
    let front = "_deg"@ + decimal(d);
    let numbers = decimal(m) + decimal(suffix);
    let tail = front + "_m"@ + decimal(m) + decimal(suffix);
    assert(tail =~= front + ("_m"@ + numbers));
    assert forall|k: int| 0 <= k < tail.len() && #[trigger] tail[k] == '_' implies k + 1
        < tail.len() && !is_digit(tail[k + 1]) by {
        if k < 4 {
            assert(tail[k] == "_deg"@[k]);
            assert(k == 0);
            assert(tail[1] == 'd');
        } else if k < front.len() {
            assert(is_digit(decimal(d)[k - 4]));
        } else if k == front.len() {
            assert(tail[k + 1] == 'm');
        } else if k == front.len() + 1 {
            assert(tail[k] == 'm');
        } else {
            let l = k - front.len() - 2;
            assert(tail[k] == numbers[l]);
            if l < decimal(m).len() {
                assert(is_digit(decimal(m)[l]));
            } else {
                assert(is_digit(decimal(suffix)[l - decimal(m).len()]));
            }
        }
    }
    assert(tail[0] == "_deg"@[0]);
}

proof fn lemma_constant_tail(suffix: nat)
    ensures
        is_tail("_const"@ + decimal(suffix)),
{
    reveal_strlit("_const");
    lemma_decimal_digits(suffix);
    let tail = "_const"@ + decimal(suffix);
    assert forall|k: int| 0 <= k < tail.len() && #[trigger] tail[k] == '_' implies k + 1
        < tail.len() && !is_digit(tail[k + 1]) by {
        if k < 6 {
            assert(tail[k] == "_const"@[k]);
            assert(k == 0);
            assert(tail[1] == 'c');
        } else {
            assert(is_digit(decimal(suffix)[k - 6]));
        }
    }
    assert(tail[0] == "_const"@[0]);
}

proof fn lemma_piece_names(shape: Shape, i: nat, s: nat, k: int)
    requires
        0 <= k < shape.piece_names(i, s).len(),
    ensures
        is_piece_name(shape.synth, shape.piece_names(i, s)[k], i, s),
{
    let c = shape.coefficients(i, s);
    let n = shape.params.len() as int;
    let upto = c.names_upto(n, shape.max_degree);
    let x = shape.piece_names(i, s)[k];
    let stem = c.stem();
    if k < upto.len() {
        lemma_names_upto(c, n, shape.max_degree);
        assert(x == upto[k]);
        let (d, m) = choose|d: nat, m: nat|
            1 <= d <= shape.max_degree && x == #[trigger] c.name(d, m);
        let tail = "_deg"@ + decimal(d) + "_m"@ + decimal(m) + decimal(c.suffix);
        lemma_add_assoc(stem, "_deg"@, decimal(d));
        lemma_add_assoc(stem, "_deg"@ + decimal(d), "_m"@);
        lemma_add_assoc(stem, "_deg"@ + decimal(d) + "_m"@, decimal(m));
        lemma_add_assoc(stem, "_deg"@ + decimal(d) + "_m"@ + decimal(m), decimal(c.suffix));
        lemma_piece_stem(shape, i, s, tail);
        lemma_degree_tail(d, m, c.suffix);
        assert(x == piece_name(shape.synth, i, s, tail));
    } else {
        let tail = "_const"@ + decimal(c.suffix);
        lemma_add_assoc(stem, "_const"@, decimal(c.suffix));
        lemma_piece_stem(shape, i, s, tail);
        lemma_constant_tail(c.suffix);
        assert(x == piece_name(shape.synth, i, s, tail));
    }
}

/// A name belongs to one piece.
proof fn lemma_one_piece(synth: Seq<char>, x: Seq<char>, i1: nat, s1: nat, i2: nat, s2: nat)
    requires
        is_piece_name(synth, x, i1, s1),
        is_piece_name(synth, x, i2, s2),
    ensures
        i1 == i2,
        s1 == s2,
{
    reveal_strlit("_");
    let head = "tvar_"@ + synth + "_"@;
    let t1 = choose|tail: Seq<char>|
        is_tail(tail) && x == #[trigger] piece_name(synth, i1, s1, tail);
    let t2 = choose|tail: Seq<char>|
        is_tail(tail) && x == #[trigger] piece_name(synth, i2, s2, tail);
    let r1 = "_"@ + (decimal(s1) + t1);
    let r2 = "_"@ + (decimal(s2) + t2);
    lemma_same_prefix(head, decimal(i1) + r1, decimal(i2) + r2);
    lemma_decimal_prefix(i1, r1, i2, r2);
    lemma_same_prefix("_"@, decimal(s1) + t1, decimal(s2) + t2);
    lemma_decimal_prefix(s1, t1, s2, t2);
}

/// What stands behind an underscore in the text of a piece is not the text of a
/// piece.
proof fn lemma_no_piece_within(
    i1: nat,
    s1: nat,
    t1: Seq<char>,
    i2: nat,
    s2: nat,
    t2: Seq<char>,
    p: int,
)
    requires
        is_tail(t1),
        is_tail(t2),
        0 <= p < piece_text(i1, s1, t1).len(),
        piece_text(i1, s1, t1)[p] == '_',
    ensures
        piece_text(i1, s1, t1).skip(p + 1) != piece_text(i2, s2, t2),
{
    reveal_strlit("_");
    let (d1, e1) = (decimal(i1), decimal(s1));
    let (d2, e2) = (decimal(i2), decimal(s2));
    lemma_decimal_digits(i1);
    lemma_decimal_digits(s1);
    lemma_decimal_digits(i2);
    lemma_decimal_digits(s2);
    let a = piece_text(i1, s1, t1);
    let b = piece_text(i2, s2, t2);
    let rest = a.skip(p + 1);
    if rest == b {
        assert(b[0] == d2[0]);
        if p < d1.len() {
            assert(a[p] == d1[p]);
        } else if p == d1.len() {
            let behind = "_"@ + (e2 + t2);
            assert(rest =~= e1 + t1);
            lemma_decimal_prefix(s1, t1, i2, behind);
            assert(behind[1] == e2[0]);
            assert(t1[0] == '_');
            assert(!is_digit(t1[1]));
        } else if p < d1.len() + 1 + e1.len() {
            assert(a[p] == e1[p - d1.len() - 1]);
        } else {
            let q = p - d1.len() - 1 - e1.len();
            assert(a[p] == t1[q]);
            assert(!is_digit(t1[q + 1]));
            assert(rest[0] == t1[q + 1]);
        }
    }
}

/// A name belongs to one function.
proof fn lemma_one_function(
    f: Seq<char>,
    g: Seq<char>,
    x: Seq<char>,
    i1: nat,
    s1: nat,
    i2: nat,
    s2: nat,
)
    requires
        is_piece_name(f, x, i1, s1),
        is_piece_name(g, x, i2, s2),
        f.len() <= g.len(),
    ensures
        f == g,
{
    reveal_strlit("_");
    let t1 = choose|tail: Seq<char>| is_tail(tail) && x == #[trigger] piece_name(f, i1, s1, tail);
    let t2 = choose|tail: Seq<char>| is_tail(tail) && x == #[trigger] piece_name(g, i2, s2, tail);
    let (a, b) = (piece_text(i1, s1, t1), piece_text(i2, s2, t2));
    let start = "tvar_"@.len() as int;
    assert(f =~= x.subrange(start, start + f.len()));
    assert(g =~= x.subrange(start, start + g.len()));
    assert(a =~= x.skip(start + f.len() + 1));
    assert(b =~= x.skip(start + g.len() + 1));
    if f.len() < g.len() {
        let p = g.len() - f.len() - 1;
        assert(x[start + g.len()] == '_');
        assert(a[p] == x[start + g.len()]);
        assert(a.skip(p + 1) =~= b);
        lemma_no_piece_within(i1, s1, t1, i2, s2, t2, p);
    }
}

/// Whether `x` is the name of a coefficient of one of the first `k` pairs.
spec fn is_early_name(synth: Seq<char>, x: Seq<char>, m: nat, k: nat) -> bool {
    exists|j: nat| j < k && #[trigger] is_piece_name(synth, x, j / m, j % m)
}

proof fn lemma_assembled_names(
    shape: Shape,
    guards: Seq<Term>,
    splits: Seq<Term>,
    answers: Seq<bool>,
    at: nat,
    ctx: Map<Seq<char>, DeclModel>,
    k: nat,
)
    requires
        splits.len() > 0,
    ensures
        ({
            let names = assembled(shape, guards, splits, answers, at, ctx, k).names;
            &&& names.no_duplicates()
            &&& forall|i: int|
                0 <= i < names.len() ==> is_early_name(
                    shape.synth,
                    #[trigger] names[i],
                    splits.len(),
                    k,
                )
        }),
    decreases k,
{
    let m = splits.len();
    let names = assembled(shape, guards, splits, answers, at, ctx, k).names;
    if k > 0 {
        let j = (k - 1) as nat;
        let before = assembled(shape, guards, splits, answers, at, ctx, j).names;
        lemma_assembled_names(shape, guards, splits, answers, at, ctx, j);
        let own = if answers[(at + j) as int] {
            shape.piece_names(j / m, j % m)
        } else {
            seq![]
        };
        assert(names =~= before + own);
        lemma_polynomial_names_distinct(
            shape.coefficients(j / m, j % m),
            shape.params.len() as int,
            shape.max_degree,
        );
        assert forall|i: int| 0 <= i < names.len() implies is_early_name(
            shape.synth,
            #[trigger] names[i],
            m,
            k,
        ) by {
            if i < before.len() {
                assert(names[i] == before[i]);
                let e = choose|e: nat|
                    e < j && #[trigger] is_piece_name(shape.synth, before[i], e / m, e % m);
                assert(is_piece_name(shape.synth, names[i], e / m, e % m));
            } else {
                lemma_piece_names(shape, j / m, j % m, i - before.len());
                assert(is_piece_name(shape.synth, names[i], j / m, j % m));
            }
        }
        assert forall|a: int, b: int| 0 <= a < b < names.len() implies names[a] != names[b] by {
            if b < before.len() {
                assert(names[a] == before[a] && names[b] == before[b]);
            } else {
                assert(names[b] == own[b - before.len()]);
                if a < before.len() {
                    assert(names[a] == before[a]);
                    let e = choose|e: nat|
                        e < j && #[trigger] is_piece_name(shape.synth, before[a], e / m, e % m);
                    lemma_piece_names(shape, j / m, j % m, b - before.len());
                    if names[a] == names[b] {
                        lemma_one_piece(shape.synth, names[a], e / m, e % m, j / m, j % m);
                        lemma_fundamental_div_mod(e as int, m as int);
                        lemma_fundamental_div_mod(j as int, m as int);
                    }
                } else {
                    assert(names[a] == own[a - before.len()]);
                }
            }
        }
    }
}

/// The coefficients of a template have different names.
pub proof fn lemma_template_names_distinct(
    shape: Shape,
    guards: Seq<Term>,
    splits: Seq<Term>,
    answers: Seq<bool>,
    at: nat,
    ctx: Map<Seq<char>, DeclModel>,
)
    ensures
        assembled(
            shape,
            guards,
            splits,
            answers,
            at,
            ctx,
            guards.len() * splits.len(),
        ).names.no_duplicates(),
{
    if splits.len() > 0 {
        lemma_assembled_names(
            shape,
            guards,
            splits,
            answers,
            at,
            ctx,
            guards.len() * splits.len(),
        );
    } else {
        assert(guards.len() * splits.len() == 0) by (nonlinear_arith)
            requires
                splits.len() == 0,
        ;
    }
}

/// Whether the names are different from each other.
pub open spec fn distinct(vars: Seq<(Seq<char>, TyKind)>) -> bool {
    forall|i: int, j: int|
        0 <= i < j < vars.len() ==> (#[trigger] vars[i]).0 != (#[trigger] vars[j]).0
}

/// Whether `x` can be the name of a coefficient for one of the first `n` functions.
spec fn is_coefficient(synth: Seq<(Ident, FuncEntry)>, x: Seq<char>, n: int) -> bool {
    exists|k: int, i: nat, s: nat|
        0 <= k < n && #[trigger] is_piece_name(synth[k].0@, x, i, s)
}

/// Whether `x` can be the name of a coefficient for the function `synth`.
spec fn is_for_function(synth: Seq<char>, x: Seq<char>) -> bool {
    exists|i: nat, s: nat| is_piece_name(synth, x, i, s)
}

/// The coefficients of one template have different names, all of them for its
/// function.
proof fn lemma_template_for_names(
    t: Template,
    options: SynthOptions,
    synth: Seq<char>,
    inputs: Seq<Param>,
    vc: Term,
    split_count: nat,
    ctx: Map<Seq<char>, DeclModel>,
    before: SatOracle,
    ctx2: Map<Seq<char>, DeclModel>,
    after: SatOracle,
)
    requires
        is_template_for(
            Some(t),
            options,
            synth,
            inputs,
            vc,
            split_count,
            ctx,
            before,
            ctx2,
            after,
        ),
    ensures
        distinct(typed_names(t.1@)),
        forall|k: int|
            0 <= k < typed_names(t.1@).len() ==> is_for_function(
                synth,
                (#[trigger] typed_names(t.1@)[k]).0,
            ),
{
    let shape = template_shape(options, synth, inputs, ctx, split_count);
    let splits = template_splits(inputs, split_count, ctx);
    let (answers, at) = (after.answers(), before.taken());
    let found = choose|found: Seq<Term>| #[trigger]
        are_conditions(vc, found) && is_built(
            Some(t),
            shape,
            template_conditions(found, synth, inputs, vc, split_count, ctx),
            splits,
            ctx,
            before,
            ctx2,
            after,
        );
    let conds = template_conditions(found, synth, inputs, vc, split_count, ctx);
    let e = template_guards(conds, answers, at);
    let names = template_pieces(shape, conds, splits, answers, at, ctx).names;
    let vars = typed_names(t.1@);
    let k = e.guards.len() * splits.len();
    assert(vars == typed(names, shape.ty));
    if splits.len() > 0 {
        lemma_assembled_names(shape, e.guards, splits, answers, at + e.queries.len(), ctx, k);
    } else {
        assert(k == 0) by (nonlinear_arith)
            requires
                k == e.guards.len() * splits.len(),
                splits.len() == 0,
        ;
        assert(names.len() == 0);
    }
    assert forall|i: int| 0 <= i < vars.len() implies is_for_function(
        synth,
        (#[trigger] vars[i]).0,
    ) by {
        assert(vars[i].0 == names[i]);
        let m = splits.len();
        let j = choose|j: nat| j < k && #[trigger] is_piece_name(synth, names[i], j / m, j % m);
        assert(is_piece_name(synth, vars[i].0, j / m, j % m));
    }
    assert forall|i: int, j: int| 0 <= i < j < vars.len() implies (#[trigger] vars[i]).0 != (
    #[trigger] vars[j]).0 by {
        assert(vars[i].0 == names[i] && vars[j].0 == names[j]);
    }
}

proof fn lemma_templates_names(
    templates: Seq<Template>,
    options: SynthOptions,
    synth: Seq<(Ident, FuncEntry)>,
    vc: Term,
    split_count: nat,
    ctx0: Map<Seq<char>, DeclModel>,
    first: SatOracle,
    ctx: Map<Seq<char>, DeclModel>,
    last: SatOracle,
)
    requires
        are_templates(templates, options, synth, vc, split_count, ctx0, first, ctx, last),
        templates.len() <= synth.len(),
        distinct_names(synth),
    ensures
        distinct(coefficients_of(templates)),
        forall|i: int|
            0 <= i < coefficients_of(templates).len() ==> is_coefficient(
                synth,
                (#[trigger] coefficients_of(templates)[i]).0,
                templates.len() as int,
            ),
    decreases templates.len(),
{
    let vars = coefficients_of(templates);
    if templates.len() > 0 {
        let n = templates.len() - 1;
        let f = synth[n];
        let front = templates.drop_last();
        let (mid_ctx, mid) = choose|mid_ctx: Map<Seq<char>, DeclModel>, mid: SatOracle|
            are_templates(front, options, synth, vc, split_count, ctx0, first, mid_ctx, mid)
                && #[trigger] is_template_for(
                Some(templates.last()),
                options,
                f.0@,
                f.1.inputs@,
                vc,
                split_count,
                mid_ctx,
                mid,
                ctx,
                last,
            );
        lemma_templates_names(front, options, synth, vc, split_count, ctx0, first, mid_ctx, mid);
        lemma_template_for_names(
            templates.last(),
            options,
            f.0@,
            f.1.inputs@,
            vc,
            split_count,
            mid_ctx,
            mid,
            ctx,
            last,
        );
        let before = coefficients_of(front);
        let own = typed_names(templates.last().1@);
        let parts = templates.map_values(|t: Template| typed_names(t.1@));
        assert(parts.drop_last() =~= front.map_values(|t: Template| typed_names(t.1@)));
        assert(vars == before + own);
        assert forall|i: int| 0 <= i < vars.len() implies is_coefficient(
            synth,
            (#[trigger] vars[i]).0,
            n + 1,
        ) by {
            if i < before.len() {
                assert(vars[i] == before[i]);
                let (k, a, b) = choose|k: int, a: nat, b: nat|
                    0 <= k < n && #[trigger] is_piece_name(synth[k].0@, before[i].0, a, b);
                assert(is_piece_name(synth[k].0@, vars[i].0, a, b));
            } else {
                assert(vars[i] == own[i - before.len()]);
                let (a, b) = choose|a: nat, b: nat| is_piece_name(f.0@, vars[i].0, a, b);
                assert(is_piece_name(synth[n].0@, vars[i].0, a, b));
            }
        }
        assert forall|i: int, j: int| 0 <= i < j < vars.len() implies (#[trigger] vars[i]).0 != (
        #[trigger] vars[j]).0 by {
            if j < before.len() {
                assert(vars[i] == before[i] && vars[j] == before[j]);
            } else if i >= before.len() {
                assert(vars[i] == own[i - before.len()] && vars[j] == own[j - before.len()]);
            } else {
                assert(vars[i] == before[i] && vars[j] == own[j - before.len()]);
                let (k, a, b) = choose|k: int, a: nat, b: nat|
                    0 <= k < n && #[trigger] is_piece_name(synth[k].0@, before[i].0, a, b);
                let (c, d) = choose|c: nat, d: nat| is_piece_name(f.0@, vars[j].0, c, d);
                if vars[i].0 == vars[j].0 {
                    let g = synth[k].0@;
                    if g.len() <= f.0@.len() {
                        lemma_one_function(g, f.0@, vars[i].0, a, b, c, d);
                    } else {
                        lemma_one_function(f.0@, g, vars[i].0, c, d, a, b);
                    }
                    assert(synth[k].0@ != synth[n].0@);
                }
            }
        }
    }
}

/// The coefficients of the templates for different functions have different names,
/// within a template and from one to another.
pub proof fn lemma_coefficients_distinct(
    templates: Seq<Template>,
    options: SynthOptions,
    synth: Seq<(Ident, FuncEntry)>,
    vc: Term,
    split_count: nat,
    ctx0: Map<Seq<char>, DeclModel>,
    first: SatOracle,
    ctx: Map<Seq<char>, DeclModel>,
    last: SatOracle,
)
    requires
        are_templates(templates, options, synth, vc, split_count, ctx0, first, ctx, last),
        templates.len() <= synth.len(),
        distinct_names(synth),
    ensures
        distinct(coefficients_of(templates)),
{
    lemma_templates_names(templates, options, synth, vc, split_count, ctx0, first, ctx, last);
}

} // verus!
