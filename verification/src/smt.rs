//! Expressions written out in the language of SMT solvers.

use vstd::prelude::*;

use crate::ast::{
    children, lemma_view, terms, BinOpKind, Expr, ExprKind, Lit, Op, Term, TyKind, UnOpKind,
};
use crate::collections::{
    lemma_with_names_add, names_get_index, names_insert, names_len, names_new, names_of,
    with_names, NameSet,
};
use crate::rational::{lowest_terms, Rational};
use crate::semantics::arity_fits;
use crate::seqs::{joined, lemma_joined_take};
use crate::text::{decimal, is_digit, lemma_decimal_digits, lemma_decimal_injective, push_decimal};

verus! {

/// The sorts that terms are given.
#[derive(Clone, Copy, PartialEq, Eq, Structural, Debug)]
pub enum Sort {
    Bool,
    Int,
    Real,
}

impl Sort {
    /// The sort of terms of the type `ty`.
    pub open spec fn of(ty: Option<TyKind>) -> Sort {
        match ty {
            Some(TyKind::Bool) => Sort::Bool,
            Some(TyKind::Int) | Some(TyKind::UInt) => Sort::Int,
            _ => Sort::Real,
        }
    }

    /// The name of this sort.
    pub open spec fn name(self) -> Seq<char> {
        match self {
            Sort::Bool => "Bool"@,
            Sort::Int => "Int"@,
            Sort::Real => "Real"@,
        }
    }
}

/// The sort of expressions of the type `ty`.
fn sort_of(ty: Option<TyKind>) -> (r: Sort)
    ensures
        r == Sort::of(ty),
{
    match ty {
        Some(TyKind::Bool) => Sort::Bool,
        Some(TyKind::Int) => Sort::Int,
        Some(TyKind::UInt) => Sort::Int,
        _ => Sort::Real,
    }
}

/// The name of a sort.
fn sort_name(sort: Sort) -> (s: &'static str)
    ensures
        s@ == sort.name(),
{
    match sort {
        Sort::Bool => "Bool",
        Sort::Int => "Int",
        Sort::Real => "Real",
    }
}

/// Each of `parts` with a space in front.
pub open spec fn spaced(parts: Seq<Seq<char>>) -> Seq<char>
    decreases parts.len(),
{
    if parts.len() == 0 {
        seq![]
    } else {
        spaced(parts.drop_last()) + " "@ + parts.last()
    }
}

/// `head` and `parts` in parentheses.
pub open spec fn form(head: Seq<char>, parts: Seq<Seq<char>>) -> Seq<char> {
    "("@ + head + spaced(parts) + ")"@
}

/// The contents of strings.
pub open spec fn texts(parts: Seq<String>) -> Seq<Seq<char>> {
    parts.map_values(|s: String| s@)
}

/// `head` and `parts` in parentheses.
fn form_text(head: &str, parts: &Vec<String>) -> (s: String)
    ensures
        s@ == form(head@, texts(parts@)),
{
    let mut s = "(".to_owned();
    s.append(head);
    let ghost all = texts(parts@);
    let ghost start = s@;
    assert(start + spaced(all.take(0)) =~= start);
    for i in 0..parts.len()
        invariant
            all == texts(parts@),
            s@ == start + spaced(all.take(i as int)),
    {
        s.append(" ");
        s.append(&parts[i]);
        assert(all.take(i + 1).drop_last() =~= all.take(i as int));
        assert(s@ =~= start + spaced(all.take(i + 1)));
    }
    assert(all.take(all.len() as int) =~= all);
    s.append(")");
    s
}

/// `head` and one part in parentheses.
fn form_one(head: &str, part: String) -> (s: String)
    ensures
        s@ == form(head@, seq![part@]),
{
    let mut parts: Vec<String> = Vec::new();
    parts.push(part);
    assert(texts(parts@) =~= seq![part@]);
    form_text(head, &parts)
}

/// Whether `c` is a letter, a digit or an underscore.
pub open spec fn is_plain(c: char) -> bool {
    'a' <= c <= 'z' || 'A' <= c <= 'Z' || '0' <= c <= '9' || c == '_'
}

/// A character of a name: itself where it is plain, else its number between dots.
pub open spec fn escaped_char(c: char) -> Seq<char> {
    if is_plain(c) {
        seq![c]
    } else {
        "."@ + decimal(c as nat) + "."@
    }
}

/// A name with all its characters plain or escaped.
pub open spec fn escaped(name: Seq<char>) -> Seq<char>
    decreases name.len(),
{
    if name.len() == 0 {
        seq![]
    } else {
        escaped(name.drop_last()) + escaped_char(name.last())
    }
}

/// The symbol of the variable `name`.
pub open spec fn var_symbol(name: Seq<char>) -> Seq<char> {
    "v."@ + escaped(name)
}

/// The symbol of the function `name`.
pub open spec fn func_symbol(name: Seq<char>) -> Seq<char> {
    "f."@ + escaped(name)
}

/// Appends `name` to `out`, with all its characters plain or escaped.
pub(crate) fn push_escaped(out: &mut String, name: &str)
    ensures
        final(out)@ == old(out)@ + escaped(name@),
{
    let n = name.unicode_len();
    let ghost before = out@;
    assert(before + escaped(name@.take(0)) =~= before);
    for i in 0..n
        invariant
            n == name@.len(),
            out@ == before + escaped(name@.take(i as int)),
    {
        let c = name.get_char(i);
        if ('a' <= c && c <= 'z') || ('A' <= c && c <= 'Z') || ('0' <= c && c <= '9') || c == '_' {
            out.append(name.substring_char(i, i + 1));
            assert(name@.subrange(i as int, i + 1) =~= seq![c]);
        } else {
            out.append(".");
            push_decimal(out, c as u32 as usize);
            out.append(".");
        }
        assert(name@.take(i + 1).drop_last() =~= name@.take(i as int));
        assert(out@ =~= before + escaped(name@.take(i + 1)));
    }
    assert(name@.take(n as int) =~= name@);
}

/// The symbol of a variable.
fn var_symbol_text(name: &str) -> (s: String)
    ensures
        s@ == var_symbol(name@),
{
    let mut s = "v.".to_owned();
    push_escaped(&mut s, name);
    s
}

/// The symbol of a function.
fn func_symbol_text(name: &str) -> (s: String)
    ensures
        s@ == func_symbol(name@),
{
    let mut s = "f.".to_owned();
    push_escaped(&mut s, name);
    s
}

/// A number that is not negative, as a quotient of integers.
pub open spec fn magnitude(n: nat, d: nat, sort: Sort) -> Seq<char> {
    if sort == Sort::Int && d == 1 {
        decimal(n)
    } else {
        form("/"@, seq![decimal(n) + ".0"@, decimal(d) + ".0"@])
    }
}

/// A rational number.
pub open spec fn number_text(x: real, sort: Sort) -> Seq<char> {
    let (n, d) = lowest_terms(x);
    if n < 0 {
        form("-"@, seq![magnitude((-n) as nat, d as nat, sort)])
    } else {
        magnitude(n as nat, d as nat, sort)
    }
}

/// A rational number.
fn render_number(x: &Rational, sort: Sort) -> (s: String)
    ensures
        s@ == number_text(x@, sort),
{
    let ghost (n, d) = lowest_terms(x@);
    let numer = x.numer_text();
    let denom = x.denom_text();
    proof {
        lemma_decimal_digits(if n < 0 {
            (-n) as nat
        } else {
            n as nat
        });
        lemma_decimal_digits(d as nat);
        reveal_strlit("1");
        assert(decimal(1) =~= "1"@);
        if decimal(d as nat) == decimal(1) {
            lemma_decimal_injective(d as nat, 1);
        }
    }
    let negative = numer.get_char(0) == '-';
    assert(negative == (n < 0)) by {
        if n >= 0 {
            assert(is_digit(decimal(n as nat)[0]));
        }
    }
    let mut digits = if negative {
        numer.substring_char(1, numer.unicode_len()).to_owned()
    } else {
        numer
    };
    assert(digits@ =~= decimal(if n < 0 {
        (-n) as nat
    } else {
        n as nat
    }));
    let size = if sort == Sort::Int && denom == "1".to_owned() {
        digits
    } else {
        digits.append(".0");
        let mut below = denom;
        below.append(".0");
        let mut parts: Vec<String> = Vec::new();
        parts.push(digits);
        parts.push(below);
        assert(texts(parts@) =~= seq![parts@[0]@, parts@[1]@]);
        form_text("/", &parts)
    };
    if negative {
        form_one("-", size)
    } else {
        size
    }
}

/// The symbol of an operator, for those that have one.
pub open spec fn op_symbol(op: BinOpKind) -> Seq<char> {
    match op {
        BinOpKind::Add => "+"@,
        BinOpKind::Sub => "-"@,
        BinOpKind::Mul => "*"@,
        BinOpKind::Div => "/"@,
        BinOpKind::And => "and"@,
        BinOpKind::Or => "or"@,
        BinOpKind::Eq => "="@,
        BinOpKind::Ne => "distinct"@,
        BinOpKind::Lt => "<"@,
        BinOpKind::Le => "<="@,
        BinOpKind::Gt => ">"@,
        BinOpKind::Ge => ">="@,
        BinOpKind::Impl => "=>"@,
        BinOpKind::CoImpl => "and"@,
    }
}

/// The symbol of an operator.
fn op_symbol_text(op: BinOpKind) -> (s: &'static str)
    ensures
        s@ == op_symbol(op),
{
    match op {
        BinOpKind::Add => "+",
        BinOpKind::Sub => "-",
        BinOpKind::Mul => "*",
        BinOpKind::Div => "/",
        BinOpKind::And => "and",
        BinOpKind::Or => "or",
        BinOpKind::Eq => "=",
        BinOpKind::Ne => "distinct",
        BinOpKind::Lt => "<",
        BinOpKind::Le => "<=",
        BinOpKind::Gt => ">",
        BinOpKind::Ge => ">=",
        BinOpKind::Impl => "=>",
        BinOpKind::CoImpl => "and",
    }
}

/// A term of the sort `from` as one of the sort `to`.
pub open spec fn converted(from: Sort, to: Sort, text: Seq<char>) -> Seq<char> {
    if from == Sort::Int && to == Sort::Real {
        form("to_real"@, seq![text])
    } else if from == Sort::Real && to == Sort::Int {
        form("to_int"@, seq![text])
    } else {
        text
    }
}

/// The numbers one and zero.
pub open spec fn units(sort: Sort) -> Seq<Seq<char>> {
    if sort == Sort::Int {
        seq!["1"@, "0"@]
    } else {
        seq!["1.0"@, "0.0"@]
    }
}

/// A term written out.
pub open spec fn rendered(t: Term) -> Seq<char>
    decreases t, 1nat,
{
    let below = rendered_below(t);
    if !arity_fits(t.op, t.kids.len()) {
        seq![]
    } else {
        match t.op {
            Op::Var(x) => var_symbol(x),
            Op::Bool(b) => if b {
                "true"@
            } else {
                "false"@
            },
            Op::Number(x) => number_text(x, Sort::of(t.ty)),
            Op::Call(f) => if t.kids.len() == 0 {
                func_symbol(f)
            } else {
                form(func_symbol(f), below)
            },
            Op::Ite => form("ite"@, below),
            Op::Binary(op) => if op == BinOpKind::CoImpl {
                form("and"@, seq![form("not"@, seq![below[0]]), below[1]])
            } else {
                form(op_symbol(op), below)
            },
            Op::Unary(UnOpKind::Not) => form("not"@, below),
            Op::Unary(UnOpKind::Iverson) => form("ite"@, below + units(Sort::of(t.ty))),
            Op::Cast => converted(Sort::of(t.kids[0].ty), Sort::of(t.ty), below[0]),
            Op::Subst(x) => form(
                "let"@,
                seq![form(form(var_symbol(x), seq![below[0]]), seq![]), below[1]],
            ),
        }
    }
}

/// [`rendered`] for each of the terms below `t`.
pub open spec fn rendered_below(t: Term) -> Seq<Seq<char>>
    decreases t, 0nat,
{
    Seq::new(
        t.kids.len(),
        |i: int|
            if 0 <= i < t.kids.len() {
                rendered(t.kids[i])
            } else {
                seq![]
            },
    )
}

/// An expression written out.
pub fn render(expr: &Expr) -> (s: String)
    ensures
        s@ == rendered(expr@),
    decreases expr@,
{
    let below = children(expr);
    let ghost all = rendered_below(expr@);
    let mut parts: Vec<String> = Vec::new();
    for i in 0..below.len()
        invariant
            terms(below@) == expr@.kids,
            all == rendered_below(expr@),
            texts(parts@) == all.take(i as int),
    {
        assert(expr@.kids[i as int] == below@[i as int]@);
        assert(decreases_to!(expr@ => expr@.kids));
        let part = render(&below[i]);
        let ghost before = texts(parts@);
        assert(part@ == all[i as int]);
        parts.push(part);
        assert(texts(parts@) =~= before.push(part@));
        assert(all.take(i + 1) =~= before.push(part@));
    }
    assert(all.take(all.len() as int) =~= all);
    proof {
        lemma_view(&**expr);
        assert(forall|i: int|
            0 <= i < parts@.len() ==> (#[trigger] parts@[i])@ == texts(parts@)[i]);
    }
    match &expr.kind {
        ExprKind::Var(x) => var_symbol_text(&x.name),
        ExprKind::Lit(Lit::Bool(b)) => if *b {
            "true".to_owned()
        } else {
            "false".to_owned()
        },
        ExprKind::Lit(Lit::Number(x)) => render_number(x, sort_of(expr.ty)),
        ExprKind::Call(f, _) => if below.len() == 0 {
            func_symbol_text(&f.name)
        } else {
            form_text(&func_symbol_text(&f.name), &parts)
        },
        ExprKind::Ite(_, _, _) => form_text("ite", &parts),
        ExprKind::Binary(op, _, _) => if *op == BinOpKind::CoImpl {
            let mut sides: Vec<String> = Vec::new();
            sides.push(form_one("not", parts[0].clone()));
            sides.push(parts[1].clone());
            assert(texts(sides@) =~= seq![form("not"@, seq![all[0]]), all[1]]);
            form_text("and", &sides)
        } else {
            form_text(op_symbol_text(*op), &parts)
        },
        ExprKind::Unary(UnOpKind::Not, _) => form_text("not", &parts),
        ExprKind::Unary(UnOpKind::Iverson, _) => {
            if sort_of(expr.ty) == Sort::Int {
                parts.push("1".to_owned());
                parts.push("0".to_owned());
            } else {
                parts.push("1.0".to_owned());
                parts.push("0.0".to_owned());
            }
            assert(texts(parts@) =~= all + units(Sort::of(expr@.ty)));
            form_text("ite", &parts)
        },
        ExprKind::Cast(a) => {
            assert(expr@.kids[0] == a@);
            proof {
                lemma_view(&**a);
            }
            let from = sort_of(a.ty);
            let to = sort_of(expr.ty);
            if from == Sort::Int && to == Sort::Real {
                form_one("to_real", parts[0].clone())
            } else if from == Sort::Real && to == Sort::Int {
                form_one("to_int", parts[0].clone())
            } else {
                parts[0].clone()
            }
        },
        ExprKind::Subst(x, _, _) => {
            let binding = form_one(&var_symbol_text(&x.name), parts[0].clone());
            let none: Vec<String> = Vec::new();
            assert(texts(none@) =~= seq![]);
            let mut sides: Vec<String> = Vec::new();
            sides.push(form_text(&binding, &none));
            sides.push(parts[1].clone());
            assert(texts(sides@) =~= seq![
                form(form(var_symbol(x@), seq![all[0]]), seq![]),
                all[1],
            ]);
            form_text("let", &sides)
        },
    }
}

/// The declaration that the root of `t` needs, if any.
pub open spec fn own_declaration(t: Term) -> Seq<Seq<char>> {
    match t.op {
        Op::Var(x) => seq![form("declare-const"@, seq![var_symbol(x), Sort::of(t.ty).name()])],
        Op::Call(f) => seq![
            form(
                "declare-fun"@,
                seq![
                    func_symbol(f),
                    form(""@, t.kids.map_values(|k: Term| Sort::of(k.ty).name())),
                    Sort::of(t.ty).name(),
                ],
            ),
        ],
        _ => seq![],
    }
}

/// The declarations that `t` needs, from the root down and from left to right.
pub open spec fn declarations(t: Term) -> Seq<Seq<char>>
    decreases t, 1nat,
{
    own_declaration(t) + joined(declarations_below(t))
}

/// [`declarations`] for each of the terms below `t`.
pub open spec fn declarations_below(t: Term) -> Seq<Seq<Seq<char>>>
    decreases t, 0nat,
{
    Seq::new(
        t.kids.len(),
        |i: int|
            if 0 <= i < t.kids.len() {
                declarations(t.kids[i])
            } else {
                seq![]
            },
    )
}

/// The script that asks whether `t` can be true: each declaration that it needs,
/// once, and the assertion of `t`.
pub open spec fn script(t: Term) -> Seq<char> {
    joined(with_names(seq![], declarations(t))) + form("assert"@, seq![rendered(t)])
}

/// The declaration of a variable.
fn var_declaration(name: &str, sort: Sort) -> (s: String)
    ensures
        s@ == form("declare-const"@, seq![var_symbol(name@), sort.name()]),
{
    let mut parts: Vec<String> = Vec::new();
    parts.push(var_symbol_text(name));
    parts.push(sort_name(sort).to_owned());
    assert(texts(parts@) =~= seq![var_symbol(name@), sort.name()]);
    form_text("declare-const", &parts)
}

/// The declaration of a function on the given arguments.
fn func_declaration(name: &str, args: &Vec<Expr>, sort: Sort) -> (s: String)
    ensures
        s@ == form(
            "declare-fun"@,
            seq![
                func_symbol(name@),
                form(""@, terms(args@).map_values(|k: Term| Sort::of(k.ty).name())),
                sort.name(),
            ],
        ),
{
    let ghost all = terms(args@).map_values(|k: Term| Sort::of(k.ty).name());
    let mut sorts: Vec<String> = Vec::new();
    for i in 0..args.len()
        invariant
            all == terms(args@).map_values(|k: Term| Sort::of(k.ty).name()),
            texts(sorts@) == all.take(i as int),
    {
        proof {
            lemma_view(&*args@[i as int]);
        }
        let sort_text = sort_name(sort_of(args[i].ty)).to_owned();
        assert(sort_text@ == all[i as int]);
        let ghost before = texts(sorts@);
        sorts.push(sort_text);
        assert(texts(sorts@) =~= before.push(sort_text@));
        assert(all.take(i + 1) =~= before.push(sort_text@));
    }
    assert(all.take(all.len() as int) =~= all);
    let mut parts: Vec<String> = Vec::new();
    parts.push(func_symbol_text(name));
    parts.push(form_text("", &sorts));
    parts.push(sort_name(sort).to_owned());
    assert(texts(parts@) =~= seq![func_symbol(name@), form(""@, all), sort.name()]);
    form_text("declare-fun", &parts)
}

/// Puts the declarations that `expr` needs into `out`.
fn collect_declarations(expr: &Expr, out: &mut NameSet)
    ensures
        names_of(*final(out)) == with_names(names_of(*old(out)), declarations(expr@)),
    decreases expr@,
{
    let below = children(expr);
    let ghost before = names_of(*out);
    let ghost own = own_declaration(expr@);
    proof {
        lemma_view(&**expr);
        reveal_with_fuel(with_names, 2);
    }
    match &expr.kind {
        ExprKind::Var(x) => {
            let text = var_declaration(&x.name, sort_of(expr.ty));
            assert(own.drop_last() =~= seq![] && own.last() == text@);
            names_insert(out, text);
        },
        ExprKind::Call(f, _) => {
            let text = func_declaration(&f.name, &below, sort_of(expr.ty));
            assert(own.drop_last() =~= seq![] && own.last() == text@);
            names_insert(out, text);
        },
        _ => {},
    }
    assert(names_of(*out) == with_names(before, own));
    let ghost parts = declarations_below(expr@);
    assert(own + joined(parts.take(0)) =~= own);
    for i in 0..below.len()
        invariant
            terms(below@) == expr@.kids,
            parts == declarations_below(expr@),
            names_of(*out) == with_names(before, own + joined(parts.take(i as int))),
    {
        assert(expr@.kids[i as int] == below@[i as int]@);
        assert(decreases_to!(expr@ => expr@.kids));
        collect_declarations(&below[i], out);
        proof {
            let so_far = own + joined(parts.take(i as int));
            lemma_joined_take(parts, i as int);
            lemma_with_names_add(before, so_far, parts[i as int]);
            assert(so_far + parts[i as int] =~= own + joined(parts.take(i + 1)));
        }
    }
    assert(parts.take(parts.len() as int) =~= parts);
}

/// The script that asks whether `expr` can be true.
pub fn script_text(expr: &Expr) -> (s: String)
    ensures
        s@ == script(expr@),
{
    let mut names = names_new();
    collect_declarations(expr, &mut names);
    let ghost all = names_of(names);
    let mut s = String::new();
    let n = names_len(&names);
    assert(all.take(0) =~= seq![]);
    for i in 0..n
        invariant
            all == names_of(names),
            n == all.len(),
            s@ == joined(all.take(i as int)),
    {
        if let Some(text) = names_get_index(&names, i) {
            s.append(text);
        }
        proof {
            lemma_joined_take(all, i as int);
        }
    }
    assert(all.take(all.len() as int) =~= all);
    s.append(&form_one("assert", render(expr)));
    s
}

} // verus!
