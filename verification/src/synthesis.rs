//! Rounds of synthesis: templates for all unknown functions of a verification
//! condition, and what has come of the conditions so far.

use vstd::prelude::*;

use crate::ast::{share, terms, Expr, ExprBuilder, Ident, Term, TyKind};
use crate::collections::{entries_of, Entries, Mapping};
use crate::decls::{DeclModel, TyCtx};
use crate::functions::{entries, FuncEntry};
use crate::inlining::{inline_function, inlined};
use crate::polynomial::{are_vars, typed_names};
use crate::semantics::{meaning, Valuation};
use crate::seqs::joined;
use crate::solver::SatOracle;
use crate::substitution::{lemma_resolved_meaning, resolved, subst_from_mapping};
use crate::template::{
    build_template_expression, is_template_for, lemma_template_for, param_names, SynthOptions,
    Template,
};

verus! {

/// The last number of splits that a round starts with.
pub const MAX_SPLIT_COUNT: usize = 30;

/// What has come of a verification condition.
#[derive(Clone, Copy, PartialEq, Eq, Structural, Debug)]
pub enum Outcome {
    /// Definitions were found.
    Proved,
    /// The search was given up.
    Failed,
}

/// The state of the rounds.
#[derive(Clone, Copy, PartialEq, Eq, Structural, Debug)]
pub struct Progress {
    /// How many intervals the next templates cut ranges into.
    pub split_count: usize,
    /// For how many verification conditions definitions were found.
    pub num_proven: usize,
    /// For how many verification conditions the search was given up.
    pub num_failures: usize,
    /// How many proposals were made in all.
    pub total_num_cegis_its: usize,
    /// How many satisfiability checks templates took.
    pub template_satchecks: usize,
}

impl Progress {
    /// The state before the first round.
    pub open spec fn start() -> Progress {
        Progress {
            split_count: 1,
            num_proven: 0,
            num_failures: 0,
            total_num_cegis_its: 0,
            template_satchecks: 0,
        }
    }

    /// Whether another round is to start.
    pub open spec fn goes_on(self) -> bool {
        self.split_count <= MAX_SPLIT_COUNT
    }

    /// Whether the counts of another verification condition can be added.
    pub open spec fn room_for(self, iterations: nat, satchecks: nat) -> bool {
        &&& self.split_count < usize::MAX
        &&& self.num_proven < usize::MAX
        &&& self.num_failures < usize::MAX
        &&& self.total_num_cegis_its + iterations <= usize::MAX
        &&& self.template_satchecks + satchecks <= usize::MAX
    }

    /// The state after a verification condition whose templates took `satchecks`
    /// checks and for which `iterations` proposals were made. Once definitions
    /// were found no further round starts.
    pub open spec fn after(self, outcome: Outcome, iterations: nat, satchecks: nat) -> Progress {
        let proved = outcome == Outcome::Proved;
        Progress {
            split_count: if proved {
                (MAX_SPLIT_COUNT + 2) as usize
            } else {
                (self.split_count + 1) as usize
            },
            num_proven: if proved {
                (self.num_proven + 1) as usize
            } else {
                self.num_proven
            },
            num_failures: if proved {
                self.num_failures
            } else {
                (self.num_failures + 1) as usize
            },
            total_num_cegis_its: (self.total_num_cegis_its + iterations) as usize,
            template_satchecks: (self.template_satchecks + satchecks) as usize,
        }
    }

    /// The state before the first round.
    pub fn new() -> (r: Progress)
        ensures
            r == Progress::start(),
    {
        Progress {
            split_count: 1,
            num_proven: 0,
            num_failures: 0,
            total_num_cegis_its: 0,
            template_satchecks: 0,
        }
    }

    /// Whether another round is to start.
    pub fn more_rounds(&self) -> (r: bool)
        ensures
            r == self.goes_on(),
    {
        self.split_count <= MAX_SPLIT_COUNT
    }

    /// Whether the counts of another verification condition can be added.
    pub fn has_room(&self, iterations: usize, satchecks: usize) -> (r: bool)
        ensures
            r == self.room_for(iterations as nat, satchecks as nat),
    {
        self.split_count < usize::MAX && self.num_proven < usize::MAX && self.num_failures
            < usize::MAX && iterations <= usize::MAX - self.total_num_cegis_its && satchecks
            <= usize::MAX - self.template_satchecks
    }

    /// Takes what has come of a verification condition.
    pub fn finish_unit(&mut self, outcome: Outcome, iterations: usize, satchecks: usize)
        requires
            old(self).room_for(iterations as nat, satchecks as nat),
        ensures
            *final(self) == old(self).after(outcome, iterations as nat, satchecks as nat),
    {
        self.template_satchecks = self.template_satchecks + satchecks;
        self.total_num_cegis_its = self.total_num_cegis_its + iterations;
        match outcome {
            Outcome::Proved => {
                self.num_proven = self.num_proven + 1;
                self.split_count = MAX_SPLIT_COUNT + 1;
            },
            Outcome::Failed => {
                self.num_failures = self.num_failures + 1;
            },
        }
        self.split_count = self.split_count + 1;
    }

    /// Whether no search was given up.
    pub fn succeeded(&self) -> (r: bool)
        ensures
            r == (self.num_failures == 0),
    {
        self.num_failures == 0
    }
}

/// Rounds come to an end: a verification condition brings the number of splits
/// closer to the last one or past it, and once it is past it stays so; definitions
/// that were found bring it past at once. Each condition is counted once.
pub proof fn lemma_rounds_end(p: Progress, outcome: Outcome, iterations: nat, satchecks: nat)
    requires
        p.room_for(iterations, satchecks),
    ensures
        ({
            let q = p.after(outcome, iterations, satchecks);
            &&& p.goes_on() ==> q.split_count > p.split_count
            &&& !p.goes_on() ==> !q.goes_on()
            &&& outcome == Outcome::Proved ==> !q.goes_on()
            &&& q.num_proven + q.num_failures == p.num_proven + p.num_failures + 1
        }),
{
}

/// Whether `templates` are those for the first functions, one after the other,
/// from `ctx0` and `first` to `ctx` and `last`.
pub open spec fn are_templates(
    templates: Seq<Template>,
    options: SynthOptions,
    synth: Seq<(Ident, FuncEntry)>,
    vc: Term,
    split_count: nat,
    ctx0: Map<Seq<char>, DeclModel>,
    first: SatOracle,
    ctx: Map<Seq<char>, DeclModel>,
    last: SatOracle,
) -> bool
    decreases templates.len(),
{
    if templates.len() == 0 {
        ctx == ctx0 && last == first
    } else {
        let f = synth[templates.len() - 1];
        exists|mid_ctx: Map<Seq<char>, DeclModel>, mid: SatOracle|
            are_templates(
                templates.drop_last(),
                options,
                synth,
                vc,
                split_count,
                ctx0,
                first,
                mid_ctx,
                mid,
            ) && #[trigger] is_template_for(
                Some(templates.last()),
                options,
                f.0@,
                f.1.inputs@,
                vc,
                split_count,
                mid_ctx,
                mid,
                ctx,
                last,
            )
    }
}

/// The coefficients of templates.
pub open spec fn coefficients_of(templates: Seq<Template>) -> Seq<(Seq<char>, TyKind)> {
    joined(templates.map_values(|t: Template| typed_names(t.1@)))
}

/// How many checks templates took.
pub open spec fn checks_of(templates: Seq<Template>) -> nat
    decreases templates.len(),
{
    if templates.len() == 0 {
        0
    } else {
        checks_of(templates.drop_last()) + templates.last().3 as nat
    }
}

/// Templates for the unknown functions of a verification condition.
#[derive(Debug)]
pub struct Templates {
    /// One for each function.
    pub templates: Vec<Template>,
    /// The coefficients of all of them.
    pub template_vars: Vec<(Ident, TyKind)>,
    /// How many checks they took.
    pub sat_checks: usize,
}

/// Puts copies of `more` at the end of `vars`.
fn extend_vars(vars: &mut Vec<(Ident, TyKind)>, more: &Vec<(Ident, TyKind)>)
    ensures
        typed_names(final(vars)@) == typed_names(old(vars)@) + typed_names(more@),
{
    let ghost before = typed_names(vars@);
    let ghost added = typed_names(more@);
    assert(before + added.take(0) =~= before);
    for i in 0..more.len()
        invariant
            added == typed_names(more@),
            typed_names(vars@) == before + added.take(i as int),
    {
        let ghost so_far = typed_names(vars@);
        let v = (more[i].0.copy(), more[i].1);
        vars.push(v);
        assert(added[i as int] == (v.0@, v.1));
        assert(typed_names(vars@) =~= so_far.push(added[i as int]));
        assert(before + added.take(i + 1) =~= so_far.push(added[i as int]));
    }
    assert(added.take(added.len() as int) =~= added);
}

/// The templates for the functions `synth`, built one after the other; `None` where
/// one of them has no piece.
pub fn build_templates(
    options: &SynthOptions,
    synth: &Vec<(&Ident, &FuncEntry)>,
    vc_expr: &Expr,
    builder: &ExprBuilder,
    tcx: &mut TyCtx,
    split_count: usize,
    oracle: &mut SatOracle,
) -> (r: Option<Templates>)
    requires
        split_count < usize::MAX,
        forall|i: int|
            0 <= i < synth@.len() ==> are_vars(
                old(tcx)@,
                param_names((#[trigger] synth@[i]).1.inputs@),
            ),
    ensures
        r matches Some(b) ==> {
            &&& b.templates@.len() == synth@.len()
            &&& are_templates(
                b.templates@,
                *options,
                entries(synth@),
                vc_expr@,
                split_count as nat,
                old(tcx)@,
                *old(oracle),
                final(tcx)@,
                *final(oracle),
            )
            &&& typed_names(b.template_vars@) == coefficients_of(b.templates@)
            &&& b.sat_checks == checks_of(b.templates@)
        },
        r is None ==> exists|
            done: Seq<Template>,
            ctx: Map<Seq<char>, DeclModel>,
            mid: SatOracle,
        |
            {
                let f = entries(synth@)[done.len() as int];
                &&& done.len() < synth@.len()
                &&& #[trigger] are_templates(
                    done,
                    *options,
                    entries(synth@),
                    vc_expr@,
                    split_count as nat,
                    old(tcx)@,
                    *old(oracle),
                    ctx,
                    mid,
                )
                &&& is_template_for(
                    None,
                    *options,
                    f.0@,
                    f.1.inputs@,
                    vc_expr@,
                    split_count as nat,
                    ctx,
                    mid,
                    final(tcx)@,
                    *final(oracle),
                )
            },
{
    let ghost ctx0 = tcx@;
    let ghost first = *oracle;
    let ghost fs = entries(synth@);
    let mut templates: Vec<Template> = Vec::new();
    let mut template_vars: Vec<(Ident, TyKind)> = Vec::new();
    let mut sat_checks: usize = 0;
    assert(typed_names(template_vars@) =~= seq![]);
    assert(templates@.map_values(|t: Template| typed_names(t.1@)) =~= seq![]);
    for i in 0..synth.len()
        invariant
            split_count < usize::MAX,
            fs == entries(synth@),
            forall|j: int|
                0 <= j < synth@.len() ==> are_vars(
                    tcx@,
                    param_names((#[trigger] synth@[j]).1.inputs@),
                ),
            ctx0 == old(tcx)@,
            first == *old(oracle),
            templates@.len() == i,
            are_templates(
                templates@,
                *options,
                fs,
                vc_expr@,
                split_count as nat,
                ctx0,
                first,
                tcx@,
                *oracle,
            ),
            typed_names(template_vars@) == coefficients_of(templates@),
            sat_checks == checks_of(templates@),
            sat_checks <= oracle.taken(),
    {
        let (name, entry) = synth[i];
        assert(fs[i as int] == (*name, *entry));
        assert(are_vars(tcx@, param_names(synth@[i as int].1.inputs@)));
        let ghost ctx = tcx@;
        let ghost mid = *oracle;
        let ghost done = templates@;
        let built = build_template_expression(
            options,
            name,
            entry,
            vc_expr,
            builder,
            tcx,
            split_count,
            oracle,
        );
        proof {
            lemma_template_for(
                built,
                *options,
                name@,
                entry.inputs@,
                vc_expr@,
                split_count as nat,
                ctx,
                mid,
                tcx@,
                *oracle,
            );
            oracle.lemma_taken_fits();
        }
        match built {
            None => {
                return None;
            },
            Some(template) => {
                extend_vars(&mut template_vars, &template.1);
                sat_checks = sat_checks + template.3;
                templates.push(template);
                proof {
                    assert(templates@.drop_last() =~= done);
                    assert(templates@.last() == template);
                    let parts = templates@.map_values(|t: Template| typed_names(t.1@));
                    assert(parts.drop_last() =~= done.map_values(
                        |t: Template| typed_names(t.1@),
                    ));
                    assert(parts.last() == typed_names(template.1@));
                }
            },
        }
    }
    Some(Templates { templates, template_vars, sat_checks })
}

/// `vc` with the calls of the first `n` functions replaced by their templates, one
/// function after the other.
pub open spec fn inlined_all(
    vc: Term,
    synth: Seq<(Ident, FuncEntry)>,
    templates: Seq<Template>,
    n: nat,
) -> Term
    decreases n,
{
    if n == 0 {
        vc
    } else {
        inlined(
            inlined_all(vc, synth, templates, (n - 1) as nat),
            synth[n - 1].0@,
            param_names(synth[n - 1].1.inputs@),
            templates[n - 1].0@,
        )
    }
}

/// The verification condition with the calls of the unknown functions replaced by
/// their templates.
pub fn inline_templates(
    vc_expr: &Expr,
    synth: &Vec<(&Ident, &FuncEntry)>,
    templates: &Vec<Template>,
) -> (r: Expr)
    requires
        synth@.len() == templates@.len(),
    ensures
        r@ == inlined_all(vc_expr@, entries(synth@), templates@, synth@.len()),
{
    let mut vc = share(vc_expr);
    let ghost fs = entries(synth@);
    for i in 0..synth.len()
        invariant
            synth@.len() == templates@.len(),
            fs == entries(synth@),
            vc@ == inlined_all(vc_expr@, fs, templates@, i as nat),
    {
        let (name, entry) = synth[i];
        assert(fs[i as int] == (*name, *entry));
        vc = inline_function(&vc, name, &entry.inputs, &templates[i].0);
    }
    vc
}

/// The templates with values for their coefficients.
pub open spec fn instantiated(templates: Seq<Template>, m: Entries) -> Seq<Term> {
    templates.map_values(|t: Template| resolved(t.0@, m))
}

/// The templates with values for their coefficients.
pub fn instantiate_templates(templates: &Vec<Template>, mapping: &Mapping) -> (r: Vec<Expr>)
    ensures
        terms(r@) == instantiated(templates@, entries_of(*mapping)),
{
    let mut r: Vec<Expr> = Vec::new();
    let ghost all = instantiated(templates@, entries_of(*mapping));
    for i in 0..templates.len()
        invariant
            all == instantiated(templates@, entries_of(*mapping)),
            terms(r@) =~= all.take(i as int),
    {
        let e = subst_from_mapping(mapping, &templates[i].0);
        let ghost before = terms(r@);
        assert(e@ == all[i as int]);
        r.push(e);
        assert(terms(r@) =~= before.push(e@));
        assert(all.take(i + 1) =~= before.push(e@));
    }
    assert(all.take(all.len() as int) =~= all);
    r
}

/// A search that was given up makes the next templates cut ranges into one interval more,
/// and counts as a failure; definitions that were found end the rounds and count as found.
/// Proposals and checks add up.
pub proof fn lemma_progress(p: Progress, iterations: nat, satchecks: nat)
    requires
        p.room_for(iterations, satchecks),
    ensures
        ({
            let q = p.after(Outcome::Failed, iterations, satchecks);
            &&& q.split_count == p.split_count + 1
            &&& q.num_failures == p.num_failures + 1
            &&& q.num_proven == p.num_proven
            &&& q.total_num_cegis_its == p.total_num_cegis_its + iterations
            &&& q.template_satchecks == p.template_satchecks + satchecks
        }),
        ({
            let q = p.after(Outcome::Proved, iterations, satchecks);
            &&& q.split_count == 32
            &&& q.num_failures == p.num_failures
            &&& q.num_proven == p.num_proven + 1
            &&& q.total_num_cegis_its == p.total_num_cegis_its + iterations
            &&& q.template_satchecks == p.template_satchecks + satchecks
        }),
        p.goes_on() <==> p.split_count <= 30,
        Progress::start().split_count == 1,
        Progress::start().num_failures == 0 && Progress::start().num_proven == 0,
        Progress::start().total_num_cegis_its == 0 && Progress::start().template_satchecks == 0,
{
}

/// The coefficients of templates are those of each, in order, and their checks add up.
pub proof fn lemma_templates_add(templates: Seq<Template>, t: Template)
    ensures
        coefficients_of(templates.push(t)) == coefficients_of(templates) + typed_names(t.1@),
        checks_of(templates.push(t)) == checks_of(templates) + t.3,
        coefficients_of(seq![]) == Seq::<(Seq<char>, TyKind)>::empty(),
        checks_of(seq![]) == 0,
{
    let f = |t: Template| typed_names(t.1@);
    assert(templates.push(t).drop_last() =~= templates);
    assert(templates.push(t).map_values(f).drop_last() =~= templates.map_values(f));
    assert(templates.push(t).map_values(f).last() == typed_names(t.1@));
    let none: Seq<Template> = seq![];
    assert(none.map_values(f) =~= seq![]);
}

/// A definition is its template with the values in it.
pub proof fn lemma_instantiated_at(templates: Seq<Template>, m: Entries, i: int, env: Valuation)
    requires
        0 <= i < templates.len(),
    ensures
        instantiated(templates, m).len() == templates.len(),
        meaning(instantiated(templates, m)[i], env) == meaning(templates[i].0@, env.after(m)),
{
    lemma_resolved_meaning(templates[i].0@, m, env);
}

/// Each of the templates that are built is the template for its function, with the same
/// options and splits for all.
pub proof fn lemma_templates_each(
    templates: Seq<Template>,
    options: SynthOptions,
    synth: Seq<(Ident, FuncEntry)>,
    vc: Term,
    split_count: nat,
    ctx0: Map<Seq<char>, DeclModel>,
    first: SatOracle,
    ctx: Map<Seq<char>, DeclModel>,
    last: SatOracle,
    i: int,
)
    requires
        are_templates(templates, options, synth, vc, split_count, ctx0, first, ctx, last),
        0 <= i < templates.len(),
    ensures
        exists|
            a: Map<Seq<char>, DeclModel>,
            before: SatOracle,
            b: Map<Seq<char>, DeclModel>,
            after: SatOracle,
        | #[trigger]
            is_template_for(
                Some(templates[i]),
                options,
                synth[i].0@,
                synth[i].1.inputs@,
                vc,
                split_count,
                a,
                before,
                b,
                after,
            ),
    decreases templates.len(),
{
    let front = templates.drop_last();
    let n = templates.len() - 1;
    let f = synth[n];
    let (mid_ctx, mid) = choose|mid_ctx: Map<Seq<char>, DeclModel>, mid: SatOracle|
        are_templates(front, options, synth, vc, split_count, ctx0, first, mid_ctx, mid)
            && #[trigger] is_template_for(
            Some(templates.last()),
            options,
            f.0@,
            f.1.inputs@,
            vc,
            split_count,
            mid_ctx,
            mid,
            ctx,
            last,
        );
    if i < n {
        assert(front[i] == templates[i]);
        lemma_templates_each(
            front,
            options,
            synth,
            vc,
            split_count,
            ctx0,
            first,
            mid_ctx,
            mid,
            i,
        );
    } else {
        assert(templates.last() == templates[i]);
    }
}

/// The first template is built in the context and with the answers that there are, and
/// each next one in the context and with the answers that are left.
pub proof fn lemma_templates_chain(
    templates: Seq<Template>,
    t: Template,
    options: SynthOptions,
    synth: Seq<(Ident, FuncEntry)>,
    vc: Term,
    split_count: nat,
    ctx0: Map<Seq<char>, DeclModel>,
    first: SatOracle,
    ctx: Map<Seq<char>, DeclModel>,
    last: SatOracle,
)
    ensures
        are_templates(seq![], options, synth, vc, split_count, ctx0, first, ctx, last) <==> ctx
            == ctx0 && last == first,
        are_templates(
            templates.push(t),
            options,
            synth,
            vc,
            split_count,
            ctx0,
            first,
            ctx,
            last,
        ) ==> exists|mid_ctx: Map<Seq<char>, DeclModel>, mid: SatOracle|
            are_templates(templates, options, synth, vc, split_count, ctx0, first, mid_ctx, mid)
                && #[trigger] is_template_for(
                Some(t),
                options,
                synth[templates.len() as int].0@,
                synth[templates.len() as int].1.inputs@,
                vc,
                split_count,
                mid_ctx,
                mid,
                ctx,
                last,
            ),
{
    assert(templates.push(t).drop_last() =~= templates);
    assert(templates.push(t).last() == t);
}

} // verus!
