//! What scripts hold: no character that would end them early, and different symbols
//! for different names.

use vstd::prelude::*;

use crate::ast::{BinOpKind, Op, Term, UnOpKind};
use crate::collections::with_names;
use crate::rational::lowest_terms;
use crate::semantics::arity_fits;
use crate::seqs::joined;
use crate::smt::{
    declarations, declarations_below, escaped, escaped_char, form, func_symbol, is_plain,
    magnitude, number_text, op_symbol, own_declaration, rendered, rendered_below, script, spaced,
    units, var_symbol, Sort,
};
use crate::text::{decimal, lemma_decimal_digits, lemma_decimal_injective};

verus! {

/// Whether no character of `s` is a semicolon or the character with the number
/// zero.
pub open spec fn clean(s: Seq<char>) -> bool {
    forall|i: int| 0 <= i < s.len() ==> #[trigger] s[i] != '\0' && s[i] != ';'
}

/// Whether each text is clean.
pub open spec fn all_clean(parts: Seq<Seq<char>>) -> bool {
    forall|i: int| 0 <= i < parts.len() ==> clean(#[trigger] parts[i])
}

proof fn lemma_clean_literals()
    ensures
        clean("("@),
        clean(")"@),
        clean(" "@),
        clean("."@),
        clean(".0"@),
        clean("v."@),
        clean("f."@),
        clean("true"@),
        clean("false"@),
        clean("1"@),
        clean("0"@),
        clean("1.0"@),
        clean("0.0"@),
        clean("ite"@),
        clean("not"@),
        clean("let"@),
        clean("to_real"@),
        clean("to_int"@),
        clean("declare-const"@),
        clean("declare-fun"@),
        clean("assert"@),
        clean("Bool"@),
        clean("Int"@),
        clean("Real"@),
        clean(""@),
{
    reveal_strlit("(");
    reveal_strlit(")");
    reveal_strlit(" ");
    reveal_strlit(".");
    reveal_strlit(".0");
    reveal_strlit("v.");
    reveal_strlit("f.");
    reveal_strlit("true");
    reveal_strlit("false");
    reveal_strlit("1");
    reveal_strlit("0");
    reveal_strlit("1.0");
    reveal_strlit("0.0");
    reveal_strlit("ite");
    reveal_strlit("not");
    reveal_strlit("let");
    reveal_strlit("to_real");
    reveal_strlit("to_int");
    reveal_strlit("declare-const");
    reveal_strlit("declare-fun");
    reveal_strlit("assert");
    reveal_strlit("Bool");
    reveal_strlit("Int");
    reveal_strlit("Real");
    reveal_strlit("");
}

proof fn lemma_clean_symbols(op: BinOpKind)
    ensures
        clean(op_symbol(op)),
{
    reveal_strlit("+");
    reveal_strlit("-");
    reveal_strlit("*");
    reveal_strlit("/");
    reveal_strlit("and");
    reveal_strlit("or");
    reveal_strlit("=");
    reveal_strlit("distinct");
    reveal_strlit("<");
    reveal_strlit("<=");
    reveal_strlit(">");
    reveal_strlit(">=");
    reveal_strlit("=>");
}

proof fn lemma_clean_spaced(parts: Seq<Seq<char>>)
    requires
        all_clean(parts),
    ensures
        clean(spaced(parts)),
    decreases parts.len(),
{
    lemma_clean_literals();
    if parts.len() > 0 {
        lemma_clean_spaced(parts.drop_last());
        assert(clean(parts.last()));
    }
}

proof fn lemma_clean_form(head: Seq<char>, parts: Seq<Seq<char>>)
    requires
        clean(head),
        all_clean(parts),
    ensures
        clean(form(head, parts)),
{
    lemma_clean_literals();
    lemma_clean_spaced(parts);
}

pub proof fn lemma_clean_escaped(name: Seq<char>)
    ensures
        clean(escaped(name)),
    decreases name.len(),
{
    lemma_clean_literals();
    if name.len() > 0 {
        lemma_clean_escaped(name.drop_last());
        lemma_decimal_digits(name.last() as nat);
        assert(clean(escaped_char(name.last())));
    }
}

proof fn lemma_clean_number(x: real, sort: Sort)
    ensures
        clean(number_text(x, sort)),
{
    let (n, d) = lowest_terms(x);
    let a = if n < 0 {
        (-n) as nat
    } else {
        n as nat
    };
    lemma_clean_literals();
    lemma_decimal_digits(a);
    lemma_decimal_digits(d as nat);
    lemma_clean_symbols(BinOpKind::Div);
    lemma_clean_symbols(BinOpKind::Sub);
    assert(clean(decimal(a)));
    assert(clean(decimal(d as nat)));
    lemma_clean_form("/"@, seq![decimal(a) + ".0"@, decimal(d as nat) + ".0"@]);
    lemma_clean_form("-"@, seq![magnitude(a, d as nat, sort)]);
}

pub proof fn lemma_clean_rendered(t: Term)
    ensures
        clean(rendered(t)),
    decreases t,
{
    let below = rendered_below(t);
    lemma_clean_literals();
    assert forall|i: int| 0 <= i < below.len() implies clean(#[trigger] below[i]) by {
        lemma_clean_rendered(t.kids[i]);
    }
    if arity_fits(t.op, t.kids.len()) {
        match t.op {
            Op::Var(x) => {
                lemma_clean_escaped(x);
            },
            Op::Bool(_) => {},
            Op::Number(x) => {
                lemma_clean_number(x, Sort::of(t.ty));
            },
            Op::Call(f) => {
                lemma_clean_escaped(f);
                lemma_clean_form(func_symbol(f), below);
            },
            Op::Ite => {
                lemma_clean_form("ite"@, below);
            },
            Op::Binary(op) => {
                lemma_clean_symbols(op);
                lemma_clean_form(op_symbol(op), below);
                if op == BinOpKind::CoImpl {
                    lemma_clean_form("not"@, seq![below[0]]);
                    lemma_clean_form("and"@, seq![form("not"@, seq![below[0]]), below[1]]);
                }
            },
            Op::Unary(UnOpKind::Not) => {
                lemma_clean_form("not"@, below);
            },
            Op::Unary(UnOpKind::Iverson) => {
                lemma_clean_form("ite"@, below + units(Sort::of(t.ty)));
            },
            Op::Cast => {
                lemma_clean_form("to_real"@, seq![below[0]]);
                lemma_clean_form("to_int"@, seq![below[0]]);
            },
            Op::Subst(x) => {
                lemma_clean_escaped(x);
                let binding = form(var_symbol(x), seq![below[0]]);
                lemma_clean_form(var_symbol(x), seq![below[0]]);
                lemma_clean_form(binding, seq![]);
                lemma_clean_form("let"@, seq![form(binding, seq![]), below[1]]);
            },
        }
    }
}

proof fn lemma_clean_own_declaration(t: Term)
    ensures
        all_clean(own_declaration(t)),
{
    lemma_clean_literals();
    match t.op {
        Op::Var(x) => {
            lemma_clean_escaped(x);
            lemma_clean_form("declare-const"@, seq![var_symbol(x), Sort::of(t.ty).name()]);
        },
        Op::Call(f) => {
            let sorts = t.kids.map_values(|k: Term| Sort::of(k.ty).name());
            lemma_clean_escaped(f);
            lemma_clean_form(""@, sorts);
            lemma_clean_form(
                "declare-fun"@,
                seq![func_symbol(f), form(""@, sorts), Sort::of(t.ty).name()],
            );
        },
        _ => {},
    }
}

proof fn lemma_clean_joined(parts: Seq<Seq<char>>)
    requires
        all_clean(parts),
    ensures
        clean(joined(parts)),
    decreases parts.len(),
{
    if parts.len() > 0 {
        lemma_clean_joined(parts.drop_last());
        assert(clean(parts.last()));
    }
}

proof fn lemma_all_clean_joined(parts: Seq<Seq<Seq<char>>>)
    requires
        forall|i: int| 0 <= i < parts.len() ==> all_clean(#[trigger] parts[i]),
    ensures
        all_clean(joined(parts)),
    decreases parts.len(),
{
    if parts.len() > 0 {
        lemma_all_clean_joined(parts.drop_last());
        assert(all_clean(parts.last()));
    }
}

proof fn lemma_clean_declarations(t: Term)
    ensures
        all_clean(declarations(t)),
    decreases t,
{
    let parts = declarations_below(t);
    lemma_clean_own_declaration(t);
    assert forall|i: int| 0 <= i < parts.len() implies all_clean(#[trigger] parts[i]) by {
        lemma_clean_declarations(t.kids[i]);
    }
    lemma_all_clean_joined(parts);
}

proof fn lemma_clean_with_names(names: Seq<Seq<char>>, more: Seq<Seq<char>>)
    requires
        all_clean(names),
        all_clean(more),
    ensures
        all_clean(with_names(names, more)),
    decreases more.len(),
{
    if more.len() > 0 {
        lemma_clean_with_names(names, more.drop_last());
        assert(clean(more.last()));
    }
}

/// No script holds a semicolon or the character with the number zero, whatever the
/// names in the term hold.
pub proof fn lemma_script_clean(t: Term)
    ensures
        clean(script(t)),
{
    lemma_clean_literals();
    lemma_clean_declarations(t);
    lemma_clean_with_names(seq![], declarations(t));
    lemma_clean_joined(with_names(seq![], declarations(t)));
    lemma_clean_rendered(t);
    lemma_clean_form("assert"@, seq![rendered(t)]);
}

/// Different characters have different numbers.
proof fn lemma_char_number(a: char, b: char)
    requires
        a as nat == b as nat,
    ensures
        a == b,
{
}

/// Different names have different symbols.
pub proof fn lemma_escaped_injective(a: Seq<char>, b: Seq<char>)
    requires
        escaped(a) == escaped(b),
    ensures
        a == b,
    decreases a.len(),
{
    reveal_strlit(".");
    if a.len() > 0 {
        lemma_decimal_digits(a.last() as nat);
        assert(escaped(a).len() > 0);
    }
    if b.len() > 0 {
        lemma_decimal_digits(b.last() as nat);
        assert(escaped(b).len() > 0);
    }
    if a.len() > 0 && b.len() > 0 {
        let x = escaped(a);
        let front_a = escaped(a.drop_last());
        let front_b = escaped(b.drop_last());
        let tail_a = escaped_char(a.last());
        let tail_b = escaped_char(b.last());
        assert(x.last() == tail_a.last() && x.last() == tail_b.last());
        if !is_plain(a.last()) && !is_plain(b.last()) {
            let da = decimal(a.last() as nat);
            let db = decimal(b.last() as nat);
            if da.len() < db.len() {
                let i = x.len() - da.len() - 2;
                assert(x[i] == '.');
                assert(x[i] == db[db.len() - da.len() - 1]);
            } else if db.len() < da.len() {
                let i = x.len() - db.len() - 2;
                assert(x[i] == '.');
                assert(x[i] == da[da.len() - db.len() - 1]);
            }
            assert(da =~= db) by {
                assert(da =~= x.subrange(x.len() - da.len() - 1, x.len() - 1));
                assert(db =~= x.subrange(x.len() - db.len() - 1, x.len() - 1));
            }
            lemma_decimal_injective(a.last() as nat, b.last() as nat);
            lemma_char_number(a.last(), b.last());
        }
        assert(tail_a.len() == tail_b.len());
        assert(a.last() == b.last()) by {
            if is_plain(a.last()) {
                assert(tail_a[0] == x.last());
            }
        }
        assert(front_a =~= x.take(x.len() - tail_a.len()));
        assert(front_b =~= x.take(x.len() - tail_b.len()));
        lemma_escaped_injective(a.drop_last(), b.drop_last());
        assert(a =~= a.drop_last().push(a.last()));
        assert(b =~= b.drop_last().push(b.last()));
    } else {
        assert(a =~= b);
    }
}

/// A name of letters, digits and underscores is written out as it is.
pub proof fn lemma_escaped_plain(name: Seq<char>)
    requires
        forall|i: int| 0 <= i < name.len() ==> is_plain(#[trigger] name[i]),
    ensures
        escaped(name) == name,
        var_symbol(name) == seq!['v', '.'] + name,
        func_symbol(name) == seq!['f', '.'] + name,
    decreases name.len(),
{
    reveal_strlit("v.");
    reveal_strlit("f.");
    if name.len() > 0 {
        lemma_escaped_plain(name.drop_last());
        assert(is_plain(name[name.len() - 1]));
        assert(escaped(name) =~= name);
    } else {
        assert(escaped(name) =~= name);
    }
    assert("v."@ =~= seq!['v', '.']);
    assert("f."@ =~= seq!['f', '.']);
}

/// Any other character of a name is written out as its number in decimal, between dots.
pub proof fn lemma_escaped_one_more(name: Seq<char>, c: char)
    ensures
        escaped(name.push(c)) == escaped(name) + (if 'a' <= c <= 'z' || 'A' <= c <= 'Z' || '0' <= c
            <= '9' || c == '_' {
            seq![c]
        } else {
            seq!['.'] + decimal(c as nat) + seq!['.']
        }),
        escaped(seq![]) == Seq::<char>::empty(),
{
    reveal_strlit(".");
    assert(name.push(c).drop_last() =~= name);
    assert("."@ =~= seq!['.']);
}

} // verus!
