//! What is written out for the solver means what the term means.

use vstd::prelude::*;

use crate::ast::{BinOpKind, Op, Term, TyKind, UnOpKind};
use crate::collections::{lemma_with_names_contains, with_names};
use crate::rational::{lowest, lowest_terms};
use crate::scripts::lemma_escaped_injective;
use crate::semantics::{apply, meaning, meanings_below, well_formed, Valuation, Value};
use crate::seqs::joined;
use crate::smt::{
    converted, declarations, escaped, form, func_symbol, magnitude, number_text, op_symbol,
    rendered, rendered_below, script, spaced, units, var_symbol, Sort,
};
use crate::text::{
    decimal, digits_value, is_digit, lemma_decimal_digits, lemma_decimal_value,
};

verus! {

/// An expression of the language of the solver.
pub enum Sexp {
    /// A symbol or a number.
    Atom(Seq<char>),
    /// A symbol applied to arguments.
    App(Seq<char>, Seq<Sexp>),
    /// A symbol bound to a value.
    Let(Seq<char>, Box<Sexp>, Box<Sexp>),
}

/// Words with a space between each and the next.
pub open spec fn words(parts: Seq<Seq<char>>) -> Seq<char>
    decreases parts.len(),
{
    if parts.len() == 0 {
        seq![]
    } else if parts.len() == 1 {
        parts[0]
    } else {
        words(parts.drop_last()) + seq![' '] + parts.last()
    }
}

/// How an expression is written: an application in parentheses, the symbol first.
pub open spec fn text_of(e: Sexp) -> Seq<char>
    decreases e, 1nat,
{
    match e {
        Sexp::Atom(a) => a,
        Sexp::App(h, _) => seq!['('] + words(seq![h] + texts_below(e)) + seq![')'],
        Sexp::Let(x, v, b) => seq!['(', 'l', 'e', 't', ' ', '(', '('] + x + seq![' '] + text_of(*v)
            + seq![')', ')', ' '] + text_of(*b) + seq![')'],
    }
}

/// [`text_of`] for each argument.
pub open spec fn texts_below(e: Sexp) -> Seq<Seq<char>>
    decreases e, 0nat,
{
    match e {
        Sexp::App(_, args) => Seq::new(
            args.len(),
            |i: int|
                if 0 <= i < args.len() {
                    text_of(args[i])
                } else {
                    seq![]
                },
        ),
        _ => seq![],
    }
}

/// Whether `n` is the largest integer that is not greater than `x`.
pub open spec fn is_floor(n: int, x: real) -> bool {
    n as real <= x && x < (n + 1) as real
}

/// The largest integer that is not greater than a number.
pub open spec fn floor(x: real) -> int {
    choose|n: int| is_floor(n, x)
}

/// What a symbol applied to values is: the theory symbols are interpreted, the others are
/// as `sigma` says.
#[verifier::opaque]
pub open spec fn smt_apply(h: Seq<char>, vs: Seq<Value>, sigma: Valuation) -> Value {
    if h == seq!['+'] {
        Value::Number(vs[0].number() + vs[1].number())
    } else if h == seq!['-'] && vs.len() == 1 {
        Value::Number(0real - vs[0].number())
    } else if h == seq!['-'] {
        Value::Number(vs[0].number() - vs[1].number())
    } else if h == seq!['*'] {
        Value::Number(vs[0].number() * vs[1].number())
    } else if h == seq!['/'] {
        Value::Number(vs[0].number() / vs[1].number())
    } else if h == seq!['a', 'n', 'd'] {
        Value::Truth(vs[0].truth() && vs[1].truth())
    } else if h == seq!['o', 'r'] {
        Value::Truth(vs[0].truth() || vs[1].truth())
    } else if h == seq!['n', 'o', 't'] {
        Value::Truth(!vs[0].truth())
    } else if h == seq!['=', '>'] {
        Value::Truth(vs[0].truth() ==> vs[1].truth())
    } else if h == seq!['='] {
        Value::Truth(vs[0] == vs[1])
    } else if h == seq!['d', 'i', 's', 't', 'i', 'n', 'c', 't'] {
        Value::Truth(vs[0] != vs[1])
    } else if h == seq!['<'] {
        Value::Truth(vs[0].number() < vs[1].number())
    } else if h == seq!['<', '='] {
        Value::Truth(vs[0].number() <= vs[1].number())
    } else if h == seq!['>'] {
        Value::Truth(vs[0].number() > vs[1].number())
    } else if h == seq!['>', '='] {
        Value::Truth(vs[0].number() >= vs[1].number())
    } else if h == seq!['i', 't', 'e'] {
        if vs[0].truth() {
            vs[1]
        } else {
            vs[2]
        }
    } else if h == seq!['t', 'o', '_', 'r', 'e', 'a', 'l'] {
        vs[0]
    } else if h == seq!['t', 'o', '_', 'i', 'n', 't'] {
        Value::Number(floor(vs[0].number()) as real)
    } else {
        (sigma.functions)(h, vs)
    }
}

/// What an expression of the language of the solver stands for.
pub open spec fn smt_value(e: Sexp, sigma: Valuation) -> Value
    decreases e, 1nat,
{
    match e {
        Sexp::Atom(a) => if a == seq!['t', 'r', 'u', 'e'] {
            Value::Truth(true)
        } else if a == seq!['f', 'a', 'l', 's', 'e'] {
            Value::Truth(false)
        } else if a.len() > 0 && is_digit(a[0]) {
            Value::Number(
                if a.len() > 2 && a[a.len() - 2] == '.' && a.last() == '0' {
                    digits_value(a.take(a.len() - 2)) as real
                } else {
                    digits_value(a) as real
                },
            )
        } else if a.len() > 1 && a[0] == 'f' && a[1] == '.' {
            (sigma.functions)(a, seq![])
        } else {
            (sigma.vars)(a)
        },
        Sexp::App(h, _) => smt_apply(h, smt_values_below(e, sigma), sigma),
        Sexp::Let(x, v, b) => smt_value(*b, sigma.bind(x, smt_value(*v, sigma))),
    }
}

/// [`smt_value`] for each argument.
pub open spec fn smt_values_below(e: Sexp, sigma: Valuation) -> Seq<Value>
    decreases e, 0nat,
{
    match e {
        Sexp::App(_, args) => Seq::new(
            args.len(),
            |i: int|
                if 0 <= i < args.len() {
                    smt_value(args[i], sigma)
                } else {
                    Value::Truth(false)
                },
        ),
        _ => seq![],
    }
}

/// Whether the symbols of variables and functions stand for what these stand for.
pub open spec fn corresponds(sigma: Valuation, env: Valuation) -> bool {
    &&& forall|x: Seq<char>| (sigma.vars)(#[trigger] var_symbol(x)) == (env.vars)(x)
    &&& forall|f: Seq<char>, vs: Seq<Value>|
        (sigma.functions)(#[trigger] func_symbol(f), vs) == #[trigger] (env.functions)(f, vs)
}

/// Whether each number in a term is rational, and no cast in it cuts off fractions.
pub open spec fn is_exact(t: Term) -> bool
    decreases t,
{
    &&& t.op matches Op::Number(x) ==> exists|n: int, d: int| #[trigger]
        lowest(n, d) && x == n as real / d as real
    &&& t.op is Cast && t.kids.len() == 1 ==> !(Sort::of(t.kids[0].ty) == Sort::Real && Sort::of(
        t.ty,
    ) == Sort::Int)
    &&& forall|i: int| 0 <= i < t.kids.len() ==> is_exact(#[trigger] t.kids[i])
}

spec fn magnitude_sexp(n: nat, d: nat, sort: Sort) -> Sexp {
    if sort == Sort::Int && d == 1 {
        Sexp::Atom(decimal(n))
    } else {
        Sexp::App(
            "/"@,
            seq![Sexp::Atom(decimal(n) + ".0"@), Sexp::Atom(decimal(d) + ".0"@)],
        )
    }
}

spec fn number_sexp(x: real, sort: Sort) -> Sexp {
    let (n, d) = lowest_terms(x);
    if n < 0 {
        Sexp::App("-"@, seq![magnitude_sexp((-n) as nat, d as nat, sort)])
    } else {
        magnitude_sexp(n as nat, d as nat, sort)
    }
}

spec fn sexp_of(t: Term) -> Sexp
    decreases t, 1nat,
{
    let below = sexps_below(t);
    match t.op {
        Op::Var(x) => Sexp::Atom(var_symbol(x)),
        Op::Bool(b) => Sexp::Atom(
            if b {
                "true"@
            } else {
                "false"@
            },
        ),
        Op::Number(x) => number_sexp(x, Sort::of(t.ty)),
        Op::Call(f) => if t.kids.len() == 0 {
            Sexp::Atom(func_symbol(f))
        } else {
            Sexp::App(func_symbol(f), below)
        },
        Op::Ite => Sexp::App("ite"@, below),
        Op::Binary(op) => if op == BinOpKind::CoImpl {
            Sexp::App("and"@, seq![Sexp::App("not"@, seq![below[0]]), below[1]])
        } else {
            Sexp::App(op_symbol(op), below)
        },
        Op::Unary(UnOpKind::Not) => Sexp::App("not"@, below),
        Op::Unary(UnOpKind::Iverson) => Sexp::App(
            "ite"@,
            below + units(Sort::of(t.ty)).map_values(|u: Seq<char>| Sexp::Atom(u)),
        ),
        Op::Cast => if Sort::of(t.kids[0].ty) == Sort::Int && Sort::of(t.ty) == Sort::Real {
            Sexp::App("to_real"@, seq![below[0]])
        } else {
            below[0]
        },
        Op::Subst(x) => Sexp::Let(var_symbol(x), Box::new(below[0]), Box::new(below[1])),
    }
}

spec fn sexps_below(t: Term) -> Seq<Sexp>
    decreases t, 0nat,
{
    Seq::new(
        t.kids.len(),
        |i: int|
            if 0 <= i < t.kids.len() {
                sexp_of(t.kids[i])
            } else {
                Sexp::Atom(seq![])
            },
    )
}

proof fn lemma_words(h: Seq<char>, parts: Seq<Seq<char>>)
    ensures
        words(seq![h] + parts) == h + spaced(parts),
    decreases parts.len(),
{
    reveal_strlit(" ");
    let all = seq![h] + parts;
    if parts.len() == 0 {
        assert(h + spaced(parts) =~= h);
    } else {
        lemma_words(h, parts.drop_last());
        assert(all.drop_last() =~= seq![h] + parts.drop_last());
        assert(" "@ =~= seq![' ']);
        assert(words(all) =~= h + spaced(parts));
    }
}

proof fn lemma_app_text(h: Seq<char>, args: Seq<Sexp>, parts: Seq<Seq<char>>)
    requires
        args.len() == parts.len(),
        forall|i: int| 0 <= i < args.len() ==> text_of(#[trigger] args[i]) == parts[i],
    ensures
        text_of(Sexp::App(h, args)) == form(h, parts),
{
    reveal_strlit("(");
    reveal_strlit(")");
    let e = Sexp::App(h, args);
    assert(texts_below(e) =~= parts);
    lemma_words(h, parts);
    assert("("@ =~= seq!['('] && ")"@ =~= seq![')']);
    assert(text_of(e) =~= form(h, parts));
}

proof fn lemma_number_text(x: real, sort: Sort)
    ensures
        text_of(number_sexp(x, sort)) == number_text(x, sort),
{
    let (n, d) = lowest_terms(x);
    let a = if n < 0 {
        (-n) as nat
    } else {
        n as nat
    };
    let parts = seq![decimal(a) + ".0"@, decimal(d as nat) + ".0"@];
    let args = seq![
        Sexp::Atom(decimal(a) + ".0"@),
        Sexp::Atom(decimal(d as nat) + ".0"@),
    ];
    lemma_app_text("/"@, args, parts);
    let mag = magnitude_sexp(a, d as nat, sort);
    assert(text_of(mag) == magnitude(a, d as nat, sort));
    lemma_app_text("-"@, seq![mag], seq![magnitude(a, d as nat, sort)]);
}

proof fn lemma_let_text(x: Seq<char>, value: Sexp, body: Sexp)
    ensures
        text_of(Sexp::Let(x, Box::new(value), Box::new(body))) == form(
            "let"@,
            seq![form(form(x, seq![text_of(value)]), seq![]), text_of(body)],
        ),
{
    reveal_strlit("(");
    reveal_strlit(")");
    reveal_strlit(" ");
    reveal_strlit("let");
    let (v, b) = (text_of(value), text_of(body));
    let binding = form(x, seq![v]);
    let bound = form(binding, seq![]);
    reveal_with_fuel(spaced, 3);
    assert(seq![v].drop_last() =~= seq![]);
    assert(seq![bound, b].drop_last() =~= seq![bound]);
    assert(seq![bound].drop_last() =~= seq![]);
    assert("("@ =~= seq!['('] && ")"@ =~= seq![')'] && " "@ =~= seq![' '] && "let"@ =~= seq![
        'l',
        'e',
        't',
    ]);
    assert(binding =~= seq!['('] + x + seq![' '] + v + seq![')']);
    assert(bound =~= seq!['('] + binding + seq![')']);
    let head = seq!['(', 'l', 'e', 't', ' '];
    let whole = form("let"@, seq![bound, b]);
    assert(spaced(seq![bound, b]) =~= seq![' '] + bound + seq![' '] + b);
    assert(whole =~= head + bound + seq![' '] + b + seq![')']);
    assert(bound =~= seq!['(', '('] + x + seq![' '] + v + seq![')', ')']);
    let e = Sexp::Let(x, Box::new(value), Box::new(body));
    assert(text_of(e) == seq!['(', 'l', 'e', 't', ' ', '(', '('] + x + seq![' '] + v + seq![
        ')',
        ')',
        ' ',
    ] + b + seq![')']);
    assert(text_of(e) =~= whole);
}

proof fn lemma_text(t: Term)
    requires
        well_formed(t),
        is_exact(t),
    ensures
        text_of(sexp_of(t)) == rendered(t),
    decreases t,
{
    let below = sexps_below(t);
    let parts = rendered_below(t);
    assert forall|i: int| 0 <= i < below.len() implies text_of(#[trigger] below[i]) == parts[i] by {
        lemma_text(t.kids[i]);
    }
    match t.op {
        Op::Var(_) => {},
        Op::Bool(_) => {},
        Op::Number(x) => {
            lemma_number_text(x, Sort::of(t.ty));
        },
        Op::Call(f) => {
            lemma_app_text(func_symbol(f), below, parts);
        },
        Op::Ite => {
            lemma_app_text("ite"@, below, parts);
        },
        Op::Binary(op) => {
            lemma_app_text(op_symbol(op), below, parts);
            if op == BinOpKind::CoImpl {
                let not = Sexp::App("not"@, seq![below[0]]);
                lemma_app_text("not"@, seq![below[0]], seq![parts[0]]);
                lemma_app_text(
                    "and"@,
                    seq![not, below[1]],
                    seq![form("not"@, seq![parts[0]]), parts[1]],
                );
            }
        },
        Op::Unary(UnOpKind::Not) => {
            lemma_app_text("not"@, below, parts);
        },
        Op::Unary(UnOpKind::Iverson) => {
            let us = units(Sort::of(t.ty));
            let atoms = us.map_values(|u: Seq<char>| Sexp::Atom(u));
            assert forall|i: int| 0 <= i < (below + atoms).len() implies text_of(
                #[trigger] (below + atoms)[i],
            ) == (parts + us)[i] by {
                if i >= below.len() {
                    assert(atoms[i - below.len()] == Sexp::Atom(us[i - below.len()]));
                }
            }
            lemma_app_text("ite"@, below + atoms, parts + us);
        },
        Op::Cast => {
            lemma_app_text("to_real"@, seq![below[0]], seq![parts[0]]);
        },
        Op::Subst(x) => {
            lemma_let_text(var_symbol(x), below[0], below[1]);
        },
    }
}

proof fn lemma_corresponds_bind(sigma: Valuation, env: Valuation, x: Seq<char>, v: Value)
    requires
        corresponds(sigma, env),
    ensures
        corresponds(sigma.bind(var_symbol(x), v), env.bind(x, v)),
{
    let (s, e) = (sigma.bind(var_symbol(x), v), env.bind(x, v));
    assert forall|y: Seq<char>| (s.vars)(#[trigger] var_symbol(y)) == (e.vars)(y) by {
        if var_symbol(y) == var_symbol(x) {
            assert(escaped(y) =~= var_symbol(y).skip("v."@.len() as int));
            assert(escaped(x) =~= var_symbol(x).skip("v."@.len() as int));
            lemma_escaped_injective(y, x);
        }
    }
    assert forall|f: Seq<char>, vs: Seq<Value>|
        (s.functions)(#[trigger] func_symbol(f), vs) == #[trigger] (e.functions)(f, vs) by {
        assert((sigma.functions)(func_symbol(f), vs) == (env.functions)(f, vs));
    }
}

proof fn lemma_literals()
    ensures
        "ite"@ =~= seq!['i', 't', 'e'],
        "not"@ =~= seq!['n', 'o', 't'],
        "and"@ =~= seq!['a', 'n', 'd'],
        "or"@ =~= seq!['o', 'r'],
        "to_real"@ =~= seq!['t', 'o', '_', 'r', 'e', 'a', 'l'],
        "distinct"@ =~= seq!['d', 'i', 's', 't', 'i', 'n', 'c', 't'],
        "+"@ =~= seq!['+'],
        "-"@ =~= seq!['-'],
        "*"@ =~= seq!['*'],
        "/"@ =~= seq!['/'],
        "="@ =~= seq!['='],
        "<"@ =~= seq!['<'],
        "<="@ =~= seq!['<', '='],
        ">"@ =~= seq!['>'],
        ">="@ =~= seq!['>', '='],
        "=>"@ =~= seq!['=', '>'],
        "true"@ =~= seq!['t', 'r', 'u', 'e'],
        "false"@ =~= seq!['f', 'a', 'l', 's', 'e'],
        "v."@ =~= seq!['v', '.'],
        "f."@ =~= seq!['f', '.'],
        ".0"@ =~= seq!['.', '0'],
        "1"@ =~= seq!['1'],
        "0"@ =~= seq!['0'],
        "1.0"@ =~= seq!['1', '.', '0'],
        "0.0"@ =~= seq!['0', '.', '0'],
{
    reveal_strlit("ite");
    reveal_strlit("not");
    reveal_strlit("and");
    reveal_strlit("or");
    reveal_strlit("to_real");
    reveal_strlit("distinct");
    reveal_strlit("+");
    reveal_strlit("-");
    reveal_strlit("*");
    reveal_strlit("/");
    reveal_strlit("=");
    reveal_strlit("<");
    reveal_strlit("<=");
    reveal_strlit(">");
    reveal_strlit(">=");
    reveal_strlit("=>");
    reveal_strlit("true");
    reveal_strlit("false");
    reveal_strlit("v.");
    reveal_strlit("f.");
    reveal_strlit(".0");
    reveal_strlit("1");
    reveal_strlit("0");
    reveal_strlit("1.0");
    reveal_strlit("0.0");
}

proof fn lemma_binary_apply(op: BinOpKind, a: Value, b: Value, sigma: Valuation)
    requires
        op != BinOpKind::CoImpl,
    ensures
        smt_apply(op_symbol(op), seq![a, b], sigma) == apply(op, a, b),
{
    reveal(smt_apply);
    lemma_literals();
    let h = op_symbol(op);
    let vs = seq![a, b];
    assert(vs[0] == a && vs[1] == b && vs.len() == 2);
    match op {
        BinOpKind::Add => {},
        BinOpKind::Sub => {
            assert(h[0] != '+');
        },
        BinOpKind::Mul => {
            assert(h[0] == '*');
        },
        BinOpKind::Div => {
            assert(h[0] == '/');
        },
        BinOpKind::And => {
            assert(h.len() == 3);
        },
        BinOpKind::Or => {
            assert(h.len() == 2 && h[0] == 'o');
        },
        BinOpKind::Eq => {
            assert(h.len() == 1 && h[0] == '=');
        },
        BinOpKind::Ne => {
            assert(h.len() == 8);
        },
        BinOpKind::Lt => {
            assert(h.len() == 1 && h[0] == '<');
        },
        BinOpKind::Le => {
            assert(h.len() == 2 && h[0] == '<');
        },
        BinOpKind::Gt => {
            assert(h.len() == 1 && h[0] == '>');
        },
        BinOpKind::Ge => {
            assert(h.len() == 2 && h[0] == '>' && h[1] == '=');
        },
        BinOpKind::Impl => {
            assert(h.len() == 2 && h[0] == '=' && h[1] == '>');
        },
        BinOpKind::CoImpl => {},
    }
}

proof fn lemma_other_apply(vs: Seq<Value>, f: Seq<char>, sigma: Valuation)
    ensures
        smt_apply("not"@, vs, sigma) == Value::Truth(!vs[0].truth()),
        smt_apply("ite"@, vs, sigma) == (if vs[0].truth() {
            vs[1]
        } else {
            vs[2]
        }),
        smt_apply("to_real"@, vs, sigma) == vs[0],
        vs.len() == 1 ==> smt_apply("-"@, vs, sigma) == Value::Number(0real - vs[0].number()),
        smt_apply(func_symbol(f), vs, sigma) == (sigma.functions)(func_symbol(f), vs),
{
    reveal(smt_apply);
    lemma_literals();
    assert("not"@.len() == 3 && "not"@[0] == 'n');
    assert("ite"@.len() == 3 && "ite"@[0] == 'i');
    assert("to_real"@.len() == 7);
    assert("-"@[0] == '-');
    let h = func_symbol(f);
    assert(h[0] == 'f' && h[1] == '.');
}

proof fn lemma_decimal_atom(n: nat, sigma: Valuation)
    ensures
        smt_value(Sexp::Atom(decimal(n)), sigma) == Value::Number(n as real),
        smt_value(Sexp::Atom(decimal(n) + ".0"@), sigma) == Value::Number(n as real),
{
    lemma_literals();
    lemma_decimal_digits(n);
    lemma_decimal_value(n);
    let d = decimal(n);
    let e = d + ".0"@;
    assert(is_digit(d[0]));
    if d.len() > 2 {
        assert(is_digit(d[d.len() - 2]));
    }
    assert(e[0] == d[0]);
    assert(e[e.len() - 2] == '.' && e.last() == '0');
    assert(e.take(e.len() - 2) =~= d);
}

proof fn lemma_number_value(x: real, sort: Sort, sigma: Valuation)
    requires
        exists|n: int, d: int| #[trigger] lowest(n, d) && x == n as real / d as real,
    ensures
        smt_value(number_sexp(x, sort), sigma) == Value::Number(x),
{
    let (n, d) = lowest_terms(x);
    assert(lowest(n, d) && x == n as real / d as real);
    let a = if n < 0 {
        (-n) as nat
    } else {
        n as nat
    };
    let mag = magnitude_sexp(a, d as nat, sort);
    let (p, q) = (Sexp::Atom(decimal(a) + ".0"@), Sexp::Atom(decimal(d as nat) + ".0"@));
    lemma_decimal_atom(a, sigma);
    lemma_decimal_atom(d as nat, sigma);
    let quotient = Sexp::App("/"@, seq![p, q]);
    assert(smt_values_below(quotient, sigma) =~= seq![
        Value::Number(a as real),
        Value::Number(d as real),
    ]);
    lemma_binary_apply(
        BinOpKind::Div,
        Value::Number(a as real),
        Value::Number(d as real),
        sigma,
    );
    let size = a as real / d as real;
    assert(smt_value(quotient, sigma) == Value::Number(size));
    if d == 1 {
        assert(size == a as real) by (nonlinear_arith)
            requires
                size == a as real / d as real,
                d == 1,
        ;
    }
    assert(smt_value(mag, sigma) == Value::Number(size));
    let negated = Sexp::App("-"@, seq![mag]);
    assert(smt_values_below(negated, sigma) =~= seq![Value::Number(size)]);
    lemma_other_apply(seq![Value::Number(size)], seq![], sigma);
    if n < 0 {
        assert(0real - size == n as real / d as real) by (nonlinear_arith)
            requires
                size == a as real / d as real,
                a == -n,
                d > 0,
        ;
    }
}

proof fn lemma_symbol_atoms(x: Seq<char>, f: Seq<char>, sigma: Valuation)
    ensures
        smt_value(Sexp::Atom(var_symbol(x)), sigma) == (sigma.vars)(var_symbol(x)),
        smt_value(Sexp::Atom(func_symbol(f)), sigma) == (sigma.functions)(func_symbol(f), seq![]),
        smt_value(Sexp::Atom("true"@), sigma) == Value::Truth(true),
        smt_value(Sexp::Atom("false"@), sigma) == Value::Truth(false),
{
    lemma_literals();
    let (a, b) = (var_symbol(x), func_symbol(f));
    assert(a[0] == 'v' && a[1] == '.');
    assert(b[0] == 'f' && b[1] == '.');
    assert("false"@[1] == 'a' && "true"@[0] == 't' && "false"@.len() == 5 && "true"@.len() == 4);
}

proof fn lemma_unit_atoms(sort: Sort, sigma: Valuation)
    ensures
        units(sort).len() == 2,
        smt_value(Sexp::Atom(units(sort)[0]), sigma) == Value::Number(1real),
        smt_value(Sexp::Atom(units(sort)[1]), sigma) == Value::Number(0real),
{
    lemma_literals();
    lemma_decimal_atom(1, sigma);
    lemma_decimal_atom(0, sigma);
    assert(decimal(1) =~= "1"@);
    assert(decimal(0) =~= "0"@);
    assert("1.0"@ =~= decimal(1) + ".0"@);
    assert("0.0"@ =~= decimal(0) + ".0"@);
}

proof fn lemma_value(t: Term, sigma: Valuation, env: Valuation)
    requires
        well_formed(t),
        is_exact(t),
        corresponds(sigma, env),
    ensures
        smt_value(sexp_of(t), sigma) == meaning(t, env),
    decreases t,
{
    let below = sexps_below(t);
    let e = sexp_of(t);
    if !(t.op is Subst) {
        assert forall|i: int| 0 <= i < t.kids.len() implies smt_value(#[trigger] below[i], sigma)
            == meaning(t.kids[i], env) by {
            lemma_value(t.kids[i], sigma, env);
        }
    }
    match t.op {
        Op::Var(x) => {
            lemma_symbol_atoms(x, x, sigma);
        },
        Op::Bool(b) => {
            lemma_symbol_atoms(seq![], seq![], sigma);
        },
        Op::Number(x) => {
            lemma_number_value(x, Sort::of(t.ty), sigma);
        },
        Op::Call(f) => {
            let vs = meanings_below(t, env);
            lemma_symbol_atoms(f, f, sigma);
            lemma_other_apply(vs, f, sigma);
            assert((sigma.functions)(func_symbol(f), vs) == (env.functions)(f, vs));
            if t.kids.len() == 0 {
                assert(vs =~= seq![]);
            } else {
                assert(smt_values_below(e, sigma) =~= vs);
            }
        },
        Op::Ite => {
            let vs = smt_values_below(e, sigma);
            lemma_other_apply(vs, seq![], sigma);
            assert(vs[0] == meaning(t.kids[0], env));
            assert(vs[1] == meaning(t.kids[1], env));
            assert(vs[2] == meaning(t.kids[2], env));
        },
        Op::Binary(op) => {
            let (a, b) = (meaning(t.kids[0], env), meaning(t.kids[1], env));
            assert(smt_value(below[0], sigma) == a && smt_value(below[1], sigma) == b);
            if op == BinOpKind::CoImpl {
                let not = Sexp::App("not"@, seq![below[0]]);
                assert(smt_values_below(not, sigma) =~= seq![a]);
                lemma_other_apply(seq![a], seq![], sigma);
                let n = Value::Truth(!a.truth());
                assert(smt_value(not, sigma) == n);
                assert(smt_values_below(e, sigma) =~= seq![n, b]);
                lemma_binary_apply(BinOpKind::And, n, b, sigma);
            } else {
                assert(smt_values_below(e, sigma) =~= seq![a, b]);
                lemma_binary_apply(op, a, b, sigma);
            }
        },
        Op::Unary(UnOpKind::Not) => {
            let a = meaning(t.kids[0], env);
            assert(smt_value(below[0], sigma) == a);
            assert(smt_values_below(e, sigma) =~= seq![a]);
            lemma_other_apply(seq![a], seq![], sigma);
        },
        Op::Unary(UnOpKind::Iverson) => {
            let a = meaning(t.kids[0], env);
            assert(smt_value(below[0], sigma) == a);
            let atoms = units(Sort::of(t.ty)).map_values(|u: Seq<char>| Sexp::Atom(u));
            lemma_unit_atoms(Sort::of(t.ty), sigma);
            assert(smt_value(atoms[0], sigma) == Value::Number(1real));
            assert(smt_value(atoms[1], sigma) == Value::Number(0real));
            let vs = seq![a, Value::Number(1real), Value::Number(0real)];
            assert(smt_values_below(e, sigma) =~= vs);
            lemma_other_apply(vs, seq![], sigma);
        },
        Op::Cast => {
            let a = meaning(t.kids[0], env);
            assert(smt_value(below[0], sigma) == a);
            let up = Sexp::App("to_real"@, seq![below[0]]);
            assert(smt_values_below(up, sigma) =~= seq![a]);
            lemma_other_apply(seq![a], seq![], sigma);
        },
        Op::Subst(x) => {
            lemma_value(t.kids[0], sigma, env);
            let v = meaning(t.kids[0], env);
            lemma_corresponds_bind(sigma, env, x, v);
            lemma_value(t.kids[1], sigma.bind(var_symbol(x), v), env.bind(x, v));
        },
    }
}

/// What is written out for a term is an expression of the language of the solver that
/// stands for what the term stands for, whatever the symbols of its variables and
/// functions stand for: its numbers are rational, and no cast in it cuts off fractions.
pub proof fn lemma_rendered_meaning(t: Term) -> (e: Sexp)
    requires
        well_formed(t),
        is_exact(t),
    ensures
        text_of(e) == rendered(t),
        forall|sigma: Valuation, env: Valuation| #[trigger]
            corresponds(sigma, env) ==> smt_value(e, sigma) == meaning(t, env),
{
    lemma_text(t);
    assert forall|sigma: Valuation, env: Valuation| #[trigger]
        corresponds(sigma, env) implies smt_value(sexp_of(t), sigma) == meaning(t, env) by {
        lemma_value(t, sigma, env);
    }
    sexp_of(t)
}

/// A cast is written out as the conversion between the sorts of its types, and as nothing
/// where the sorts are the same or one is that of truth values.
pub proof fn lemma_cast_written(t: Term)
    requires
        t.op is Cast,
        t.kids.len() == 1,
    ensures
        ({
            let (from, to) = (Sort::of(t.kids[0].ty), Sort::of(t.ty));
            let inner = rendered(t.kids[0]);
            rendered(t) == (match (from, to) {
                (Sort::Int, Sort::Real) => "(to_real "@ + inner + ")"@,
                (Sort::Real, Sort::Int) => "(to_int "@ + inner + ")"@,
                _ => inner,
            })
        }),
{
    let below = rendered_below(t);
    let (from, to) = (Sort::of(t.kids[0].ty), Sort::of(t.ty));
    assert(below[0] == rendered(t.kids[0]));
    assert(rendered(t) == converted(from, to, below[0]));
    reveal_strlit("(");
    reveal_strlit(")");
    reveal_strlit(" ");
    reveal_strlit("to_real");
    reveal_strlit("to_int");
    reveal_strlit("(to_real ");
    reveal_strlit("(to_int ");
    reveal_with_fuel(spaced, 2);
    assert(seq![below[0]].drop_last() =~= seq![]);
    assert("(to_real "@ =~= "("@ + "to_real"@ + " "@);
    assert("(to_int "@ =~= "("@ + "to_int"@ + " "@);
    assert(form("to_real"@, seq![below[0]]) =~= "(to_real "@ + below[0] + ")"@);
    assert(form("to_int"@, seq![below[0]]) =~= "(to_int "@ + below[0] + ")"@);
}

/// The sorts of types: truth values, integers, and reals for all others.
pub proof fn lemma_sorts(ty: Option<TyKind>)
    ensures
        Sort::of(ty) == (match ty {
            Some(TyKind::Bool) => Sort::Bool,
            Some(TyKind::Int) => Sort::Int,
            Some(TyKind::UInt) => Sort::Int,
            _ => Sort::Real,
        }),
        Sort::of(ty).name() == (match Sort::of(ty) {
            Sort::Bool => "Bool"@,
            Sort::Int => "Int"@,
            Sort::Real => "Real"@,
        }),
{
}

/// A script is the declarations that a term needs, each once, and the assertion of what is
/// written out for the term.
pub proof fn lemma_script(t: Term, d: Seq<char>)
    ensures
        ({
            let needed = with_names(seq![], declarations(t));
            &&& needed.no_duplicates()
            &&& needed.contains(d) == declarations(t).contains(d)
            &&& script(t) == joined(needed) + "(assert "@ + rendered(t) + ")"@
        }),
{
    let needed = with_names(seq![], declarations(t));
    lemma_with_names_contains(seq![], declarations(t), d);
    lemma_with_names_distinct(declarations(t));
    reveal_strlit("(");
    reveal_strlit(")");
    reveal_strlit(" ");
    reveal_strlit("assert");
    reveal_strlit("(assert ");
    reveal_with_fuel(spaced, 2);
    assert(seq![rendered(t)].drop_last() =~= seq![]);
    assert("(assert "@ =~= "("@ + "assert"@ + " "@);
    assert(script(t) =~= joined(needed) + "(assert "@ + rendered(t) + ")"@);
}

proof fn lemma_with_names_distinct(more: Seq<Seq<char>>)
    ensures
        with_names(seq![], more).no_duplicates(),
    decreases more.len(),
{
    if more.len() > 0 {
        lemma_with_names_distinct(more.drop_last());
    }
}

} // verus!
