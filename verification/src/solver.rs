//! Satisfiability checks.
//!
//! The answers come from the Z3 solver. A [`SatOracle`] keeps the answers that it
//! was given, so that what was built on them can be built again.

use vstd::prelude::*;

use crate::ast::{Expr, Term};
use crate::scripts::{clean, lemma_script_clean};
use crate::smt::{script, script_text};

verus! {

/// Whether Z3 can give `answer` when it is asked whether the assertions of
/// `script` can hold together: yes, no, or nothing known.
pub uninterp spec fn z3_may_answer(script: Seq<char>, answer: Option<bool>) -> bool;

/// `z3::Solver::check`, on a `z3::Solver::new` that was given the script by
/// `z3::Solver::from_string`: whether the assertions of the script can hold
/// together, or `None` where Z3 does not know. The answer is one that Z3 can
/// give to this script; that Z3 gives the same answer each time is not claimed.
/// `from_string` panics on a script that holds the character with the number
/// zero.
#[verifier::external_body]
fn z3_check(script: &str) -> (answer: Option<bool>)
    requires
        clean(script@),
    ensures
        z3_may_answer(script@, answer),
{
    let solver = z3::Solver::new();
    solver.from_string(script);
    match solver.check() {
        z3::SatResult::Sat => Some(true),
        z3::SatResult::Unsat => Some(false),
        z3::SatResult::Unknown => None,
    }
}

/// Whether Z3 can say of `query` that it is satisfiable (`sat`), or fail to say so
/// (not `sat`).
pub open spec fn z3_says(query: Term, sat: bool) -> bool {
    exists|answer: Option<bool>| #[trigger]
        z3_may_answer(script(query), answer) && sat == (answer == Some(true))
}

/// Gives answers to satisfiability checks, one after the other: those that it was
/// made with first, and then those of Z3.
#[derive(Debug)]
pub struct SatOracle {
    given: Vec<bool>,
    /// The answers still to give before Z3 is asked, the next one last.
    waiting: Vec<bool>,
}

impl SatOracle {
    /// All answers, given or still to give.
    pub closed spec fn answers(self) -> Seq<bool> {
        self.given@ + self.waiting@.reverse()
    }

    /// How many answers have been given.
    pub closed spec fn taken(self) -> nat {
        self.given@.len()
    }

    /// The answers that have been given can be counted.
    pub proof fn lemma_taken_fits(self)
        ensures
            self.taken() <= usize::MAX,
            self.taken() <= self.answers().len(),
    {
        assert(self.given.len() == self.given@.len());
    }

    /// An oracle that asks Z3 each time.
    pub fn new() -> (r: SatOracle)
        ensures
            r.answers() == Seq::<bool>::empty(),
            r.taken() == 0,
    {
        let r = SatOracle { given: Vec::new(), waiting: Vec::new() };
        assert(r.answers() =~= seq![]);
        r
    }

    /// An oracle that gives `answers` before it asks Z3.
    pub fn replaying(answers: &Vec<bool>) -> (r: SatOracle)
        ensures
            r.answers() == answers@,
            r.taken() == 0,
    {
        let mut waiting: Vec<bool> = Vec::new();
        for i in 0..answers.len()
            invariant
                waiting@ == answers@.skip(answers@.len() - i).reverse(),
        {
            let ghost before = answers@.skip(answers@.len() - i);
            waiting.push(answers[answers.len() - 1 - i]);
            assert(answers@.skip(answers@.len() - (i + 1)) =~= seq![
                answers@[answers@.len() - 1 - i],
            ] + before);
        }
        let r = SatOracle { given: Vec::new(), waiting };
        assert(r.answers() =~= answers@);
        r
    }

    /// The answers that have been given.
    pub fn recorded(&self) -> (r: &Vec<bool>)
        ensures
            r@ == self.answers().take(self.taken() as int),
    {
        assert(self.given@ =~= self.answers().take(self.taken() as int));
        &self.given
    }

    /// Whether `query` is satisfiable, as far as is known.
    pub fn check_sat(&mut self, query: &Expr) -> (sat: bool)
        ensures
            asked(*old(self), *final(self), seq![query@]),
            sat == final(self).answers()[old(self).taken() as int],
    {
        let ghost before = self.answers();
        let ghost old_waiting = self.waiting@;
        let sat = match self.waiting.pop() {
            Some(sat) => {
                assert(old_waiting.reverse() =~= seq![sat] + self.waiting@.reverse());
                sat
            },
            None => {
                let text = script_text(query);
                proof {
                    lemma_script_clean(query@);
                }
                let answer = z3_check(&text);
                let sat = answer == Some(true);
                assert(z3_says(query@, sat));
                sat
            },
        };
        self.given.push(sat);
        assert(before =~= self.answers().take(before.len() as int));
        sat
    }
}

/// Whether `before` has become `after` by answering `queries`: the answers that it
/// held are those that it gave first, and the others are answers of Z3 to the
/// queries.
pub open spec fn asked(before: SatOracle, after: SatOracle, queries: Seq<Term>) -> bool {
    &&& before.taken() <= before.answers().len()
    &&& after.taken() == before.taken() + queries.len()
    &&& after.taken() <= after.answers().len()
    &&& before.answers().len() <= after.answers().len()
    &&& before.answers() == after.answers().take(before.answers().len() as int)
    &&& after.answers().len() > before.answers().len() ==> after.answers().len() == after.taken()
    &&& forall|k: int|
        before.answers().len() <= k < after.answers().len() ==> z3_says(
            queries[k - before.taken()],
            #[trigger] after.answers()[k],
        )
}

/// An oracle answers no queries by staying as it is.
pub proof fn lemma_nothing_asked(oracle: SatOracle)
    ensures
        asked(oracle, oracle, seq![]),
{
    oracle.lemma_taken_fits();
    assert(oracle.answers() =~= oracle.answers().take(oracle.answers().len() as int));
}

/// Answering some queries and then others is answering all of them.
pub proof fn lemma_asked_add(
    a: SatOracle,
    b: SatOracle,
    c: SatOracle,
    first: Seq<Term>,
    second: Seq<Term>,
)
    requires
        asked(a, b, first),
        asked(b, c, second),
    ensures
        asked(a, c, first + second),
{
    assert(a.answers() =~= c.answers().take(a.answers().len() as int));
    assert forall|k: int| a.answers().len() <= k < c.answers().len() implies z3_says(
        (first + second)[k - a.taken()],
        #[trigger] c.answers()[k],
    ) by {
        if k < b.answers().len() {
            assert(c.answers()[k] == b.answers()[k]);
        }
    }
}

/// An answer of Z3 counts as yes only where Z3 can say that the query is satisfiable, and
/// as no only where it can say that it is not, or that it does not know.
pub proof fn lemma_z3_says(query: Term, sat: bool)
    requires
        z3_says(query, sat),
    ensures
        sat ==> z3_may_answer(script(query), Some(true)),
        !sat ==> z3_may_answer(script(query), Some(false)) || z3_may_answer(script(query), None),
{
    let answer = choose|answer: Option<bool>| #[trigger]
        z3_may_answer(script(query), answer) && sat == (answer == Some(true));
    match answer {
        Some(true) => {},
        Some(false) => {},
        None => {},
    }
}

/// Answering queries uses one answer for each, first those that were there. Each answer
/// that was not there before is one that Z3 can give to the query in its place.
pub proof fn lemma_asked(before: SatOracle, after: SatOracle, queries: Seq<Term>, i: int)
    requires
        asked(before, after, queries),
        0 <= i < queries.len(),
    ensures
        after.taken() == before.taken() + queries.len(),
        ({
            let k = before.taken() + i;
            let sat = after.answers()[k];
            if k < before.answers().len() {
                sat == before.answers()[k]
            } else if sat {
                z3_may_answer(script(queries[i]), Some(true))
            } else {
                z3_may_answer(script(queries[i]), Some(false)) || z3_may_answer(
                    script(queries[i]),
                    None,
                )
            }
        }),
{
    let k = before.taken() + i;
    if k < before.answers().len() {
        assert(before.answers()[k] == after.answers().take(before.answers().len() as int)[k]);
    } else {
        assert(z3_says(queries[k - before.taken()], after.answers()[k]));
        lemma_z3_says(queries[i], after.answers()[k]);
    }
}

} // verus!
