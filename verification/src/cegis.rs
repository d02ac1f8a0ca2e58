//! The search for values of template variables, guided by counterexamples.
//!
//! A search proposes values, is told whether the verification condition is valid
//! with them, and, where it is not, turns the counterexample into a constraint
//! on the values to propose next.

use vstd::prelude::*;

use crate::ast::{share, BinOpKind, Expr, ExprBuilder, Ident, Term, TyKind};
use crate::collections::{
    entries_of, lookup, mapping_clone, mapping_get, mapping_get_index, mapping_insert, mapping_len,
    mapping_new, names_insert, names_new, names_of, put, Entries, Mapping, NameSet,
};
use crate::polynomial::typed_names;
use crate::smt::{escaped, push_escaped, render, rendered};
use crate::substitution::{resolved, subst_from_mapping};

verus! {

/// After how many proposals a search is given up.
pub const MAX_CEGIS_ITERS: usize = 3000;

/// What the verifier says of a proposal.
#[derive(Debug)]
pub enum Verdict {
    /// The verification condition is valid.
    Proof,
    /// It is not valid: the values of its variables that show this, if known.
    Counterexample(Option<Mapping>),
    /// It is not known.
    Unknown,
}

/// Why a search is given up.
#[derive(Clone, Copy, PartialEq, Eq, Structural, Debug)]
pub enum Failure {
    /// The verifier does not know.
    Unknown,
    /// There were too many proposals.
    TooManyIterations,
    /// No values meet the constraints.
    NoModel,
}

/// What is to be done next.
#[derive(Debug)]
pub enum Action {
    /// Check whether the condition is valid.
    Check(Expr),
    /// Find values of the template variables for which the constraints hold.
    FindModel(Expr),
    /// Nothing: the values have been found.
    Found(Mapping),
    /// Nothing: the search has failed.
    Failed(Failure),
    /// Nothing: a proposal or a counterexample came up a second time.
    Repeated,
}

/// The model of a [`Verdict`].
pub enum VerdictModel {
    Proof,
    Counterexample(Option<Entries>),
    Unknown,
}

/// The model of an [`Action`].
pub enum ActionModel {
    Check(Term),
    FindModel(Term),
    Found(Entries),
    Failed(Failure),
    Repeated,
}

/// The model of an optional mapping.
pub open spec fn opt_entries(m: Option<Mapping>) -> Option<Entries> {
    match m {
        Some(m) => Some(entries_of(m)),
        None => None,
    }
}

impl View for Verdict {
    type V = VerdictModel;

    open spec fn view(&self) -> VerdictModel {
        match *self {
            Verdict::Proof => VerdictModel::Proof,
            Verdict::Counterexample(m) => VerdictModel::Counterexample(opt_entries(m)),
            Verdict::Unknown => VerdictModel::Unknown,
        }
    }
}

impl View for Action {
    type V = ActionModel;

    open spec fn view(&self) -> ActionModel {
        match *self {
            Action::Check(e) => ActionModel::Check(e@),
            Action::FindModel(e) => ActionModel::FindModel(e@),
            Action::Found(m) => ActionModel::Found(entries_of(m)),
            Action::Failed(f) => ActionModel::Failed(f),
            Action::Repeated => ActionModel::Repeated,
        }
    }
}

/// An entry of a mapping, written out.
pub open spec fn entry_text(entry: (Seq<char>, Term)) -> Seq<char> {
    escaped(entry.0) + "="@ + rendered(entry.1)
}

/// A mapping, written out.
pub open spec fn canonical(entries: Entries) -> Seq<char>
    decreases entries.len(),
{
    if entries.len() == 0 {
        seq![]
    } else {
        canonical(entries.drop_last()) + entry_text(entries.last()) + ";"@
    }
}

/// A mapping, written out.
pub fn canonical_form(mapping: &Mapping) -> (s: String)
    ensures
        s@ == canonical(entries_of(*mapping)),
{
    let mut s = String::new();
    let ghost all = entries_of(*mapping);
    let n = mapping_len(mapping);
    assert(all.take(0) =~= seq![]);
    for i in 0..n
        invariant
            all == entries_of(*mapping),
            n == all.len(),
            s@ == canonical(all.take(i as int)),
    {
        let ghost before = s@;
        if let Some((name, value)) = mapping_get_index(mapping, i) {
            push_escaped(&mut s, name);
            s.append("=");
            s.append(&render(value));
            s.append(";");
            assert(s@ =~= before + entry_text((name@, value@)) + ";"@);
        }
        assert(all.take(i + 1).drop_last() =~= all.take(i as int));
    }
    assert(all.take(all.len() as int) =~= all);
    s
}

/// A value for each of `vars`: the one that `candidate` has for it, or zero.
pub open spec fn zero_extended(vars: Seq<(Seq<char>, TyKind)>, candidate: Entries) -> Entries
    decreases vars.len(),
{
    if vars.len() == 0 {
        seq![]
    } else {
        let (name, ty) = vars.last();
        put(
            zero_extended(vars.drop_last(), candidate),
            name,
            match lookup(candidate, name) {
                Some(v) => v,
                None => Term::number(0real, ty),
            },
        )
    }
}

/// A value for each template variable: the one that `candidate` has for it, or zero.
pub fn zero_extended_mapping(
    template_vars: &Vec<(Ident, TyKind)>,
    candidate: &Mapping,
    builder: &ExprBuilder,
) -> (r: Mapping)
    ensures
        entries_of(r) == zero_extended(typed_names(template_vars@), entries_of(*candidate)),
{
    let mut r = mapping_new();
    let ghost vars = typed_names(template_vars@);
    assert(vars.take(0) =~= seq![]);
    for i in 0..template_vars.len()
        invariant
            vars == typed_names(template_vars@),
            entries_of(r) == zero_extended(vars.take(i as int), entries_of(*candidate)),
    {
        let id = &template_vars[i].0;
        let value = match mapping_get(candidate, &id.name) {
            Some(v) => share(v),
            None => builder.zero_lit(template_vars[i].1),
        };
        assert(vars.take(i + 1).drop_last() =~= vars.take(i as int));
        assert(vars[i as int] == (id@, template_vars@[i as int].1));
        mapping_insert(&mut r, id.name.clone(), value);
    }
    assert(vars.take(vars.len() as int) =~= vars);
    r
}

/// That `vc` holds at each counterexample.
pub open spec fn constraints_at(vc: Term, cexs: Seq<Entries>) -> Term
    decreases cexs.len(),
{
    if cexs.len() == 0 {
        Term::boolean(true)
    } else {
        Term::and(resolved(vc, cexs.last()), constraints_at(vc, cexs.drop_last()))
    }
}

/// The model of a [`Cegis`].
pub struct Search {
    /// The verification condition.
    pub vc: Term,
    /// The template variables.
    pub vars: Seq<(Seq<char>, TyKind)>,
    /// The values found last.
    pub candidate: Entries,
    /// The values proposed last.
    pub current: Entries,
    /// The proposals so far, written out.
    pub tried: Seq<Seq<char>>,
    /// The counterexamples so far.
    pub cexs: Seq<Entries>,
    /// How many proposals there were.
    pub iteration: nat,
}

impl Search {
    /// A search that has not begun.
    pub open spec fn fresh(vc: Term, vars: Seq<(Seq<char>, TyKind)>) -> Search {
        Search {
            vc,
            vars,
            candidate: seq![],
            current: seq![],
            tried: seq![],
            cexs: seq![],
            iteration: 0,
        }
    }

    /// The counterexamples so far, written out.
    pub open spec fn cex_texts(self) -> Seq<Seq<char>> {
        self.cexs.map_values(|m: Entries| canonical(m))
    }

    /// The search after it proposes the candidate, extended by zeros, and what is
    /// to be done.
    pub open spec fn propose(self) -> (Search, ActionModel) {
        let m = zero_extended(self.vars, self.candidate);
        let next = Search { current: m, iteration: self.iteration + 1, ..self };
        if self.tried.contains(canonical(m)) {
            (next, ActionModel::Repeated)
        } else {
            (
                Search { tried: self.tried.push(canonical(m)), ..next },
                ActionModel::Check(resolved(self.vc, m)),
            )
        }
    }

    /// The search after the verdict on its proposal, and what is to be done.
    pub open spec fn judge(self, verdict: VerdictModel) -> (Search, ActionModel) {
        match verdict {
            VerdictModel::Proof => (self, ActionModel::Found(self.current)),
            VerdictModel::Unknown => (self, ActionModel::Failed(Failure::Unknown)),
            VerdictModel::Counterexample(model) => if self.iteration >= MAX_CEGIS_ITERS {
                (self, ActionModel::Failed(Failure::TooManyIterations))
            } else {
                match model {
                    None => self.propose(),
                    Some(cex) => if self.cex_texts().contains(canonical(cex)) {
                        (self, ActionModel::Repeated)
                    } else {
                        let cexs = self.cexs.push(cex);
                        (
                            Search { cexs, ..self },
                            ActionModel::FindModel(constraints_at(self.vc, cexs)),
                        )
                    },
                }
            },
        }
    }

    /// The search after the constraints have been tried, and what is to be done.
    pub open spec fn resume(self, model: Option<Entries>) -> (Search, ActionModel) {
        match model {
            Some(candidate) => Search { candidate, ..self }.propose(),
            None => (self, ActionModel::Failed(Failure::NoModel)),
        }
    }
}

/// A search for values of template variables.
pub struct Cegis {
    vc: Expr,
    template_vars: Vec<(Ident, TyKind)>,
    candidate: Mapping,
    current: Mapping,
    constraints: Expr,
    all_zems: NameSet,
    all_cexs: NameSet,
    cexs: Ghost<Seq<Entries>>,
    iteration: usize,
}

impl View for Cegis {
    type V = Search;

    closed spec fn view(&self) -> Search {
        Search {
            vc: self.vc@,
            vars: typed_names(self.template_vars@),
            candidate: entries_of(self.candidate),
            current: entries_of(self.current),
            tried: names_of(self.all_zems),
            cexs: self.cexs@,
            iteration: self.iteration as nat,
        }
    }
}

impl Cegis {
    #[verifier::type_invariant]
    spec fn in_step(self) -> bool {
        &&& self.constraints@ == constraints_at(self.vc@, self.cexs@)
        &&& names_of(self.all_cexs) == self@.cex_texts()
    }

    /// A search that has not begun.
    pub fn new(vc: Expr, template_vars: Vec<(Ident, TyKind)>, builder: &ExprBuilder) -> (r: Cegis)
        ensures
            r@ == Search::fresh(vc@, typed_names(template_vars@)),
    {
        let all_cexs = names_new();
        let ghost none: Seq<Entries> = seq![];
        assert(names_of(all_cexs) =~= none.map_values(|m: Entries| canonical(m)));
        Cegis {
            vc,
            template_vars,
            candidate: mapping_new(),
            current: mapping_new(),
            constraints: builder.bool_lit(true),
            all_zems: names_new(),
            all_cexs,
            cexs: Ghost(none),
            iteration: 0,
        }
    }

    /// How many proposals there were.
    pub fn iteration(&self) -> (r: usize)
        ensures
            r == self@.iteration,
    {
        self.iteration
    }

    /// Proposes the values found last, with zero for variables without a value.
    pub fn propose(self, builder: &ExprBuilder) -> (r: (Cegis, Action))
        requires
            self@.iteration < MAX_CEGIS_ITERS,
        ensures
            (r.0@, r.1@) == self@.propose(),
    {
        proof {
            use_type_invariant(&self);
        }
        let Cegis {
            vc,
            template_vars,
            candidate,
            current: _,
            constraints,
            all_zems,
            all_cexs,
            cexs,
            iteration,
        } = self;
        let current = zero_extended_mapping(&template_vars, &candidate, builder);
        let mut all_zems = all_zems;
        let new = names_insert(&mut all_zems, canonical_form(&current));
        let action = if new {
            Action::Check(subst_from_mapping(&current, &vc))
        } else {
            Action::Repeated
        };
        let next = Cegis {
            vc,
            template_vars,
            candidate,
            current,
            constraints,
            all_zems,
            all_cexs,
            cexs,
            iteration: iteration + 1,
        };
        (next, action)
    }

    /// Takes the verdict on the proposal made last.
    pub fn judge(self, verdict: Verdict, builder: &ExprBuilder) -> (r: (Cegis, Action))
        ensures
            (r.0@, r.1@) == self@.judge(verdict@),
    {
        proof {
            use_type_invariant(&self);
        }
        match verdict {
            Verdict::Proof => {
                let current = mapping_clone(&self.current);
                (self, Action::Found(current))
            },
            Verdict::Unknown => (self, Action::Failed(Failure::Unknown)),
            Verdict::Counterexample(model) => if self.iteration >= MAX_CEGIS_ITERS {
                (self, Action::Failed(Failure::TooManyIterations))
            } else {
                match model {
                    None => self.propose(builder),
                    Some(cex) => {
                        let Cegis {
                            vc,
                            template_vars,
                            candidate,
                            current,
                            constraints,
                            all_zems,
                            all_cexs,
                            cexs,
                            iteration,
                        } = self;
                        let mut all_cexs = all_cexs;
                        let new = names_insert(&mut all_cexs, canonical_form(&cex));
                        if !new {
                            let same = Cegis {
                                vc,
                                template_vars,
                                candidate,
                                current,
                                constraints,
                                all_zems,
                                all_cexs,
                                cexs,
                                iteration,
                            };
                            return (same, Action::Repeated);
                        }
                        let instantiated = subst_from_mapping(&cex, &vc);
                        let constraints = builder.binary(
                            BinOpKind::And,
                            TyKind::Bool,
                            instantiated,
                            constraints,
                        );
                        let ghost more = cexs@.push(entries_of(cex));
                        proof {
                            assert(more.drop_last() =~= cexs@);
                            assert(names_of(all_cexs) =~= more.map_values(
                                |m: Entries| canonical(m),
                            ));
                        }
                        let action = Action::FindModel(share(&constraints));
                        let next = Cegis {
                            vc,
                            template_vars,
                            candidate,
                            current,
                            constraints,
                            all_zems,
                            all_cexs,
                            cexs: Ghost(more),
                            iteration,
                        };
                        (next, action)
                    },
                }
            },
        }
    }

    /// Takes values for which the constraints hold, or that there are none.
    pub fn resume(self, model: Option<Mapping>, builder: &ExprBuilder) -> (r: (Cegis, Action))
        requires
            self@.iteration < MAX_CEGIS_ITERS,
        ensures
            (r.0@, r.1@) == self@.resume(opt_entries(model)),
    {
        proof {
            use_type_invariant(&self);
        }
        match model {
            None => (self, Action::Failed(Failure::NoModel)),
            Some(candidate) => {
                let next = Cegis { candidate, ..self };
                next.propose(builder)
            },
        }
    }
}

} // verus!
