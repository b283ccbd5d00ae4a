//! What acceptance promises.
//!
//! Every operation of an accepted program keeps the invariants, and every step
//! of its plan has an effect that a capability of the agent covers: whatever
//! reaches the world was authorized before anything ran.

use vstd::prelude::*;

use crate::acceptance::{
    all_hold, direct_operations, found_functions, parts_reject, walked_blocks, walked_operations,
    walked_regions,
};
use crate::capability::{CapabilitySetView, CapabilityView};
use crate::cost::Budget;
use crate::dependency::{graph_of, graphs_are_well_formed, level_members};
use crate::diagnostic::rejects;
use crate::dialects::{signature_of, SignatureView};
use crate::effect::EffectView;
use crate::effects::{lists_conflict, recorded};
use crate::ids::{OperationId, RegionId};
use crate::module::{ModuleView, OperationView};
use crate::number::Number;
use crate::plan::{
    batch_steps, batches_steps, nested_steps, plan_steps, Backend, ControlView, PlanView, StepView,
};
use crate::printer::lemma_filter_member;
use crate::rules::{
    all_findings, concurrency_findings, confidence_findings, dominance_findings, guard_findings,
    guess_findings, is_guarded, is_pure, is_verified, loop_findings, op_findings, ops_findings,
    pair_findings, parallel_findings, safety_findings, safety_findings_of, sibling_findings,
    signature_findings, static_findings, terminator_findings, top_level_findings, type_findings,
    unknown_findings,
};
use crate::scheduler::{
    block_plan, block_plannable, declared_budget, degraded, degraded_note, end_batches, fitted,
    function_plannable, is_terminator, lemma_reduced_plan, level_batch, level_batches, op_plannable,
    plan_cost, planned_regions, reduced_plan, reduced_step, region_plan, scheduled, step_plan,
    Degradation, Fitting, Planner,
};
use crate::types::TypeView;

verus! {

// ------------------------------------------------------------ the invariants

/// Whether the agent may have an effect: it is pure, or a capability covers it
/// and is approved where it is gated.
pub open spec fn permitted(caps: CapabilitySetView, e: EffectView) -> bool {
    e is Pure || exists|i: int|
        0 <= i < caps.capabilities.len() && may(caps, #[trigger] caps.capabilities[i].1, e)
}

/// Whether a capability covers an effect, and is approved where it is gated.
pub open spec fn may(caps: CapabilitySetView, c: CapabilityView, e: EffectView) -> bool {
    c.covers(e) && (c.requires_approval ==> caps.approvals.contains(c.name))
}

/// Whether an operation keeps the invariants: everything it reads has a
/// dominating producer; where it touches the world it reads nothing of
/// unresolved type, and no unchecked guess; an irreversible effect is guarded;
/// a loop has a positive bound; and what runs in parallel does not conflict.
pub open spec fn keeps_the_invariants(
    m: ModuleView,
    registry: Seq<SignatureView>,
    table: Seq<Seq<EffectView>>,
    threshold: Number,
    o: OperationView,
) -> bool {
    &&& signature_of(registry, o.name, 0) matches Some(s) && (s.allowed_effects.len() > 0
        ==> s.allowed_effects.contains(o.effect.class()))
    &&& forall|k: int| 0 <= k < o.operands.len() ==> m.dominates(#[trigger] o.operands[k], o.id)
    &&& !is_pure(table, o.id) ==> forall|k: int|
        0 <= k < o.operands.len() ==> m.value(#[trigger] o.operands[k]).ty != TypeView::Unknown && (
        m.value(o.operands[k]).provenance.unverified(threshold) ==> is_verified(
            m,
            o.id,
            o.operands[k],
        ))
    &&& o.effect is Irreversible ==> is_guarded(m, o)
    &&& o.name.is("control"@, "loop"@) || o.name.is("control"@, "while"@) ==> is_bounded(o)
    &&& o.name.is("control"@, "parallel"@) ==> forall|r: int|
        0 <= r < o.regions.len() ==> no_conflicts(
            table,
            m.ops_in_region(#[trigger] o.regions[r]),
        )
}

/// Whether an operation declares a positive number of iterations.
pub open spec fn is_bounded(o: OperationView) -> bool {
    match o.int_attr("max_iterations"@) {
        Some(bound) => bound > 0,
        None => false,
    }
}

/// Whether no two of some operations conflict.
pub open spec fn no_conflicts(table: Seq<Seq<EffectView>>, ops: Seq<OperationId>) -> bool {
    forall|a: int, b: int|
        0 <= a < b < ops.len() ==> !lists_conflict(
            recorded(table, #[trigger] ops[a]),
            recorded(table, #[trigger] ops[b]),
        )
}

proof fn accepted_dominance(m: ModuleView, o: OperationView, n: int)
    requires
        !rejects(dominance_findings(m, o, n)),
    ensures
        forall|k: int| 0 <= k < n ==> m.dominates(#[trigger] o.operands[k], o.id),
    decreases n,
{
    if n > 0 {
        let before = dominance_findings(m, o, n - 1);
        let all = dominance_findings(m, o, n);
        let last = all.skip(before.len() as int);
        assert(all =~= before + last);
        parts_reject(before, last);
        accepted_dominance(m, o, n - 1);
        if !m.dominates(o.operands[n - 1], o.id) {
            assert(last[0].is_error());
        }
    }
}

proof fn accepted_types(m: ModuleView, table: Seq<Seq<EffectView>>, o: OperationView, n: int)
    requires
        !rejects(unknown_findings(m, table, o, n)),
    ensures
        forall|k: int|
            0 <= k < n ==> m.value(#[trigger] o.operands[k]).ty != TypeView::Unknown,
    decreases n,
{
    if n > 0 {
        let before = unknown_findings(m, table, o, n - 1);
        let all = unknown_findings(m, table, o, n);
        let last = all.skip(before.len() as int);
        assert(all =~= before + last);
        parts_reject(before, last);
        accepted_types(m, table, o, n - 1);
        if m.value(o.operands[n - 1]).ty == TypeView::Unknown {
            assert(last[0].is_error());
        }
    }
}

proof fn accepted_guesses(
    m: ModuleView,
    table: Seq<Seq<EffectView>>,
    threshold: Number,
    o: OperationView,
    n: int,
)
    requires
        !rejects(guess_findings(m, table, threshold, o, n)),
    ensures
        forall|k: int|
            0 <= k < n && m.value(#[trigger] o.operands[k]).provenance.unverified(threshold)
                ==> is_verified(m, o.id, o.operands[k]),
    decreases n,
{
    if n > 0 {
        let before = guess_findings(m, table, threshold, o, n - 1);
        let all = guess_findings(m, table, threshold, o, n);
        let last = all.skip(before.len() as int);
        assert(all =~= before + last);
        parts_reject(before, last);
        accepted_guesses(m, table, threshold, o, n - 1);
        if m.value(o.operands[n - 1]).provenance.unverified(threshold) && !is_verified(
            m,
            o.id,
            o.operands[n - 1],
        ) {
            assert(last[0].is_error());
        }
    }
}

proof fn accepted_pairs(
    m: ModuleView,
    table: Seq<Seq<EffectView>>,
    ops: Seq<OperationId>,
    i: int,
    n: int,
)
    requires
        !rejects(pair_findings(m, table, ops, i, n)),
    ensures
        forall|k: int|
            i < k < n ==> !lists_conflict(recorded(table, ops[i]), recorded(table, #[trigger] ops[k])),
    decreases n - i,
{
    if n > i + 1 {
        let before = pair_findings(m, table, ops, i, n - 1);
        let all = pair_findings(m, table, ops, i, n);
        let last = all.skip(before.len() as int);
        assert(all =~= before + last);
        parts_reject(before, last);
        accepted_pairs(m, table, ops, i, n - 1);
        if lists_conflict(recorded(table, ops[i]), recorded(table, ops[n - 1])) {
            assert(last[0].is_error());
        }
    }
}

proof fn accepted_siblings(
    m: ModuleView,
    table: Seq<Seq<EffectView>>,
    ops: Seq<OperationId>,
    n: int,
)
    requires
        0 <= n <= ops.len(),
        !rejects(sibling_findings(m, table, ops, n)),
    ensures
        forall|a: int, b: int|
            0 <= a < n && a < b < ops.len() ==> !lists_conflict(
                recorded(table, #[trigger] ops[a]),
                recorded(table, #[trigger] ops[b]),
            ),
    decreases n,
{
    if n > 0 {
        let before = sibling_findings(m, table, ops, n - 1);
        let last = pair_findings(m, table, ops, n - 1, ops.len() as int);
        parts_reject(before, last);
        accepted_siblings(m, table, ops, n - 1);
        accepted_pairs(m, table, ops, n - 1, ops.len() as int);
    }
}

proof fn accepted_concurrency(
    m: ModuleView,
    table: Seq<Seq<EffectView>>,
    regions: Seq<RegionId>,
    n: int,
)
    requires
        !rejects(concurrency_findings(m, table, regions, n)),
    ensures
        forall|r: int|
            0 <= r < n ==> no_conflicts(table, m.ops_in_region(#[trigger] regions[r])),
    decreases n,
{
    if n > 0 {
        let ops = m.ops_in_region(regions[n - 1]);
        let before = concurrency_findings(m, table, regions, n - 1);
        let last = sibling_findings(m, table, ops, ops.len() as int);
        parts_reject(before, last);
        accepted_concurrency(m, table, regions, n - 1);
        accepted_siblings(m, table, ops, ops.len() as int);
    }
}

/// An operation of which nothing is rejected keeps the invariants.
proof fn accepted_operation(
    m: ModuleView,
    registry: Seq<SignatureView>,
    table: Seq<Seq<EffectView>>,
    threshold: Number,
    op: OperationId,
)
    requires
        !rejects(op_findings(m, registry, table, threshold, op)),
    ensures
        keeps_the_invariants(m, registry, table, threshold, m.op(op)),
{
    let o = m.op(op);
    let a = signature_findings(o, registry);
    let b = dominance_findings(m, o, o.operands.len() as int);
    let c = type_findings(m, table, o);
    let d = guard_findings(m, o);
    let e = confidence_findings(m, table, threshold, o);
    let f = loop_findings(o);
    let g = parallel_findings(m, table, o);
    let h = terminator_findings(m, registry, o, o.regions.len() as int);
    parts_reject(a + b + c + d + e + f + g, h);
    parts_reject(a + b + c + d + e + f, g);
    parts_reject(a + b + c + d + e, f);
    parts_reject(a + b + c + d, e);
    parts_reject(a + b + c, d);
    parts_reject(a + b, c);
    parts_reject(a, b);
    match signature_of(registry, o.name, 0) {
        None => {
            assert(a[0].is_error());
        },
        Some(s) => {
            let x = crate::rules::effect_findings(o, s);
            let y = a.take(a.len() - x.len());
            assert(a =~= y + x);
            parts_reject(y, x);
            if s.allowed_effects.len() > 0 && !s.allowed_effects.contains(o.effect.class()) {
                assert(x[0].is_error());
            }
        },
    }
    accepted_dominance(m, o, o.operands.len() as int);
    if !is_pure(table, o.id) {
        accepted_types(m, table, o, o.operands.len() as int);
        accepted_guesses(m, table, threshold, o, o.operands.len() as int);
    }
    if o.effect is Irreversible && !is_guarded(m, o) {
        assert(d[0].is_error());
    }
    if o.name.is("control"@, "loop"@) || o.name.is("control"@, "while"@) {
        if !is_bounded(o) {
            assert(f[0].is_error());
        }
    }
    if o.name.is("control"@, "parallel"@) {
        accepted_concurrency(m, table, o.regions, o.regions.len() as int);
    }
}

proof fn accepted_each(
    m: ModuleView,
    registry: Seq<SignatureView>,
    table: Seq<Seq<EffectView>>,
    threshold: Number,
    ops: Seq<OperationId>,
    n: int,
)
    requires
        !rejects(ops_findings(m, registry, table, threshold, ops, n)),
    ensures
        forall|i: int|
            0 <= i < n ==> keeps_the_invariants(
                m,
                registry,
                table,
                threshold,
                m.op(#[trigger] ops[i]),
            ),
    decreases n,
{
    if n > 0 {
        let before = ops_findings(m, registry, table, threshold, ops, n - 1);
        let last = op_findings(m, registry, table, threshold, ops[n - 1]);
        parts_reject(before, last);
        accepted_each(m, registry, table, threshold, ops, n - 1);
        accepted_operation(m, registry, table, threshold, ops[n - 1]);
    }
}

/// Every operation of a program that the verifier accepts keeps the
/// invariants.
pub proof fn accepted_programs_keep_the_invariants(
    m: ModuleView,
    registry: Seq<SignatureView>,
    table: Seq<Seq<EffectView>>,
    threshold: Number,
    i: int,
)
    requires
        !rejects(all_findings(m, registry, table, threshold)),
        0 <= i < m.program_order(m.body).len(),
    ensures
        keeps_the_invariants(
            m,
            registry,
            table,
            threshold,
            m.op(m.program_order(m.body)[i]),
        ),
{
    let ops = m.program_order(m.body);
    let tops = m.ops_in_region(m.body);
    let found = static_findings(m, registry, table, threshold);
    assert(!rejects(found)) by {
        if rejects(found) {
            assert(all_findings(m, registry, table, threshold) == found);
        }
    }
    parts_reject(
        ops_findings(m, registry, table, threshold, ops, ops.len() as int),
        top_level_findings(m, tops, tops.len() as int),
    );
    accepted_each(m, registry, table, threshold, ops, ops.len() as int);
}

proof fn covered_each(m: ModuleView, ops: Seq<OperationId>, n: int)
    requires
        !rejects(safety_findings(m, ops, n)),
    ensures
        forall|i: int|
            0 <= i < n ==> permitted(m.capabilities, m.op(#[trigger] ops[i]).effect),
    decreases n,
{
    if n > 0 {
        let before = safety_findings(m, ops, n - 1);
        let last = safety_findings_of(m, ops[n - 1]);
        parts_reject(before, last);
        covered_each(m, ops, n - 1);
        let e = m.op(ops[n - 1]).effect;
        if !(e is Pure) {
            crate::capability::covering_finds(m.capabilities, e);
            match m.capabilities.covering(e) {
                None => {
                    assert(last[0].is_error());
                },
                Some(c) => {
                    if c.requires_approval && !m.capabilities.approvals.contains(c.name) {
                        assert(last[0].is_error());
                    }
                    let list = m.capabilities.capabilities;
                    let k = choose|k: int| 0 <= k < list.len() && (#[trigger] list[k]).1 == c;
                    assert(may(m.capabilities, list[k].1, e));
                },
            }
        }
    }
}

/// Every operation of a program that the verifier accepts has an effect that
/// the agent may have.
pub proof fn accepted_programs_are_permitted(
    m: ModuleView,
    registry: Seq<SignatureView>,
    table: Seq<Seq<EffectView>>,
    threshold: Number,
    i: int,
)
    requires
        !rejects(all_findings(m, registry, table, threshold)),
        0 <= i < m.program_order(m.body).len(),
    ensures
        permitted(m.capabilities, m.op(m.program_order(m.body)[i]).effect),
{
    let ops = m.program_order(m.body);
    let found = static_findings(m, registry, table, threshold);
    assert(!rejects(found)) by {
        if rejects(found) {
            assert(all_findings(m, registry, table, threshold) == found);
        }
    }
    parts_reject(found, safety_findings(m, ops, ops.len() as int));
    covered_each(m, ops, ops.len() as int);
}

// ------------------------------------------------------------------ the plan

/// Whether every one of some steps is allowed.
pub open spec fn all_allowed(steps: Seq<StepView>, allowed: spec_fn(StepView) -> bool) -> bool {
    forall|i: int| 0 <= i < steps.len() ==> allowed(#[trigger] steps[i])
}

/// Whether a step and the steps nested in it are allowed.
pub open spec fn step_allowed(s: StepView, allowed: spec_fn(StepView) -> bool) -> bool {
    allowed(s) && all_allowed(nested_steps(s.control), allowed)
}

/// Whether all steps of a batch, and the steps nested in them, are allowed.
pub open spec fn batch_allowed(
    steps: Seq<StepView>,
    allowed: spec_fn(StepView) -> bool,
) -> bool {
    forall|i: int| 0 <= i < steps.len() ==> step_allowed(#[trigger] steps[i], allowed)
}

pub proof fn parts_allowed(
    a: Seq<StepView>,
    b: Seq<StepView>,
    allowed: spec_fn(StepView) -> bool,
)
    ensures
        all_allowed(a + b, allowed) == (all_allowed(a, allowed) && all_allowed(b, allowed)),
{
    let all = a + b;
    if all_allowed(all, allowed) {
        assert forall|i: int| 0 <= i < a.len() implies allowed(#[trigger] a[i]) by {
            assert(allowed(all[i]));
        }
        assert forall|i: int| 0 <= i < b.len() implies allowed(#[trigger] b[i]) by {
            assert(allowed(all[a.len() + i]));
        }
    }
    if all_allowed(a, allowed) && all_allowed(b, allowed) {
        assert forall|i: int| 0 <= i < all.len() implies allowed(#[trigger] all[i]) by {
            if i < a.len() {
                assert(all[i] == a[i]);
            } else {
                assert(all[i] == b[i - a.len()]);
            }
        }
    }
}

/// The steps of a batch are allowed exactly when each of them is.
pub proof fn batch_steps_allowed(
    steps: Seq<StepView>,
    j: int,
    allowed: spec_fn(StepView) -> bool,
)
    requires
        0 <= j <= steps.len(),
    ensures
        all_allowed(batch_steps(steps, j), allowed) == (forall|i: int|
            j <= i < steps.len() ==> step_allowed(#[trigger] steps[i], allowed)),
    decreases steps.len() - j,
{
    if j < steps.len() {
        batch_steps_allowed(steps, j + 1, allowed);
        let one = seq![steps[j]];
        let nested = nested_steps(steps[j].control);
        let rest = batch_steps(steps, j + 1);
        parts_allowed(one + nested, rest, allowed);
        parts_allowed(one, nested, allowed);
        assert(all_allowed(one, allowed) == allowed(steps[j])) by {
            assert(one[0] == steps[j]);
        }
    }
}

/// The steps of some batches are allowed exactly when those of each are.
pub proof fn batches_steps_allowed(
    batches: Seq<Seq<StepView>>,
    i: int,
    allowed: spec_fn(StepView) -> bool,
)
    requires
        0 <= i <= batches.len(),
    ensures
        all_allowed(batches_steps(batches, i), allowed) == (forall|b: int|
            i <= b < batches.len() ==> batch_allowed(#[trigger] batches[b], allowed)),
    decreases batches.len() - i,
{
    if i < batches.len() {
        batches_steps_allowed(batches, i + 1, allowed);
        batch_steps_allowed(batches[i], 0, allowed);
        parts_allowed(batch_steps(batches[i], 0), batches_steps(batches, i + 1), allowed);
    }
}

/// The steps of a plan are allowed exactly when each of its batches is.
pub proof fn plan_allowed(p: PlanView, allowed: spec_fn(StepView) -> bool)
    ensures
        all_allowed(plan_steps(p), allowed) == (forall|b: int|
            0 <= b < p.batches.len() ==> batch_allowed(#[trigger] p.batches[b], allowed)),
{
    batches_steps_allowed(p.batches, 0, allowed);
}

/// Whether it depends on its effect alone whether a step is allowed.
pub open spec fn by_effect(allowed: spec_fn(StepView) -> bool) -> bool {
    forall|s: StepView, t: StepView|
        #[trigger] allowed(s) && s.effect == t.effect ==> #[trigger] allowed(t)
}

/// Whether every step with some effect is allowed.
pub open spec fn suits(allowed: spec_fn(StepView) -> bool, e: EffectView) -> bool {
    forall|s: StepView| s.effect == e ==> #[trigger] allowed(s)
}

/// Whether halving the loop bounds of a step makes no difference to whether it
/// is allowed.
pub open spec fn survives_halving(allowed: spec_fn(StepView) -> bool) -> bool {
    forall|s: StepView| allowed(s) ==> allowed((#[trigger] reduced_step(s)).0)
}

/// Halving loop bounds leaves the effects alone.
proof fn effects_survive_halving(allowed: spec_fn(StepView) -> bool)
    requires
        by_effect(allowed),
    ensures
        survives_halving(allowed),
{
    assert forall|s: StepView| allowed(s) implies allowed((#[trigger] reduced_step(s)).0) by {
        assert(reduced_step(s).0.effect == s.effect);
    }
}

/// What is allowed step by step stays allowed when loop bounds are halved.
pub proof fn reducing_allows(p: PlanView, allowed: spec_fn(StepView) -> bool)
    requires
        all_allowed(plan_steps(p), allowed),
        survives_halving(allowed),
    ensures
        all_allowed(plan_steps(reduced_plan(p).0), allowed),
    decreases p, 0int,
{
    lemma_reduced_plan(p);
    plan_allowed(p, allowed);
    let q = reduced_plan(p).0;
    assert forall|b: int| 0 <= b < q.batches.len() implies batch_allowed(
        #[trigger] q.batches[b],
        allowed,
    ) by {
        assert(batch_allowed(p.batches[b], allowed));
        assert forall|j: int| 0 <= j < q.batches[b].len() implies step_allowed(
            #[trigger] q.batches[b][j],
            allowed,
        ) by {
            assert(step_allowed(p.batches[b][j], allowed));
            assert(decreases_to!(p => p.batches));
            assert(decreases_to!(p.batches => p.batches[b]));
            assert(decreases_to!(p.batches[b] => p.batches[b][j]));
            reducing_step_allows(p.batches[b][j], allowed);
        }
    }
    plan_allowed(q, allowed);
}

proof fn reducing_step_allows(s: StepView, allowed: spec_fn(StepView) -> bool)
    requires
        step_allowed(s, allowed),
        survives_halving(allowed),
    ensures
        step_allowed(reduced_step(s).0, allowed),
    decreases s, 0int,
{
    assert(allowed(s));
    if let Some(c) = s.control {
        assert(decreases_to!(s => s.control));
        match c {
            ControlView::If { taken, otherwise } => {
                let other = match otherwise {
                    Some(p) => plan_steps(p),
                    None => Seq::empty(),
                };
                parts_allowed(plan_steps(taken), other, allowed);
                reducing_allows(taken, allowed);
                if let Some(p) = otherwise {
                    reducing_allows(p, allowed);
                    parts_allowed(
                        plan_steps(reduced_plan(taken).0),
                        plan_steps(reduced_plan(p).0),
                        allowed,
                    );
                } else {
                    parts_allowed(plan_steps(reduced_plan(taken).0), Seq::empty(), allowed);
                }
            },
            ControlView::Loop { binding, max_iterations, body } => {
                reducing_allows(body, allowed);
            },
            ControlView::While { condition, max_iterations, body } => {
                parts_allowed(plan_steps(condition), plan_steps(body), allowed);
                reducing_allows(condition, allowed);
                reducing_allows(body, allowed);
                parts_allowed(
                    plan_steps(reduced_plan(condition).0),
                    plan_steps(reduced_plan(body).0),
                    allowed,
                );
            },
            ControlView::Parallel { body } => {
                reducing_allows(body, allowed);
            },
        }
    }
}

/// What is allowed step by step stays allowed when a plan is degraded.
pub proof fn degrading_allows(
    s: Fitting,
    budget: Budget,
    times: nat,
    allowed: spec_fn(StepView) -> bool,
)
    requires
        all_allowed(plan_steps(s.plan), allowed),
        survives_halving(allowed),
    ensures
        all_allowed(plan_steps(degraded(s, budget, times).plan), allowed),
    decreases times,
{
    if times > 0 {
        if let Some(overrun) = budget.first_overrun(s.estimated) {
            reducing_allows(s.plan, allowed);
            let (plan, reduced) = reduced_plan(s.plan);
            if reduced {
                degrading_allows(
                    Fitting {
                        plan,
                        estimated: plan_cost(plan),
                        notes: s.notes.push(degraded_note(overrun)),
                        degradation: Degradation::ReducedIterations,
                    },
                    budget,
                    (times - 1) as nat,
                    allowed,
                );
            }
        }
    }
}

// ---------------------------------------------------------------- scheduling

/// What planning asks of the operations it comes to.
spec fn op_allowed(
    m: ModuleView,
    op: OperationId,
    reach: nat,
    fuel: nat,
    allowed: spec_fn(StepView) -> bool,
) -> bool {
    &&& m.has_op(op)
    &&& op_plannable(m, op, fuel)
    &&& suits(allowed, m.op(op).effect)
    &&& all_hold(
        m.walk_regions(m.op(op).regions, 0, reach),
        |op: OperationId| suits(allowed, m.op(op).effect),
    )
}

/// How deep an operation nests, at most.
spec fn reaches(m: ModuleView, levels: Seq<nat>, op: OperationId, reach: nat) -> bool {
    forall|n: int|
        0 <= n < m.op(op).regions.len() ==> m.has_region(#[trigger] m.op(op).regions[n]) && levels[m.op(
            op,
        ).regions[n].spec_index()] + reach > m.regions.len() && levels[m.op(
            op,
        ).regions[n].spec_index()] < m.regions.len()
}

proof fn step_is_allowed<B: Backend>(
    p: Planner<B>,
    m: ModuleView,
    levels: Seq<nat>,
    op: OperationId,
    reach: nat,
    fuel: nat,
    allowed: spec_fn(StepView) -> bool,
)
    requires
        m.in_bounds(),
        m.leveled(levels),
        op_allowed(m, op, reach, fuel, allowed),
        reaches(m, levels, op, reach),
    ensures
        step_plan(p, m, op, fuel).0 matches Some(s) ==> step_allowed(s, allowed),
    decreases fuel, 0int,
{
    let o = m.op(op);
    if fuel > 0 {
        assert forall|n: int| 0 <= n < planned_regions(o) implies all_allowed(
            plan_steps(region_plan(p, m, #[trigger] o.regions[n], (fuel - 1) as nat).0),
            allowed,
        ) by {
            let child = o.regions[n];
            assert(m.has_region(o.regions[n]));
            walked_regions(
                m,
                o.regions,
                0,
                reach,
                n,
                |op: OperationId| suits(allowed, m.op(op).effect),
            );
            block_is_allowed(p, m, levels, child, (reach - 1) as nat, (fuel - 1) as nat, allowed);
        }
        let none = Seq::<StepView>::empty();
        if o.name.is("control"@, "if"@) {
            let taken = region_plan(p, m, o.regions[0], (fuel - 1) as nat).0;
            if o.regions.len() >= 2 {
                let other = region_plan(p, m, o.regions[1], (fuel - 1) as nat).0;
                parts_allowed(plan_steps(taken), plan_steps(other), allowed);
            } else {
                parts_allowed(plan_steps(taken), none, allowed);
            }
        } else if o.name.is("control"@, "loop"@) {
            let body = region_plan(p, m, o.regions[0], (fuel - 1) as nat).0;
            assert(all_allowed(plan_steps(body), allowed));
        } else if o.name.is("control"@, "while"@) {
            let condition = region_plan(p, m, o.regions[0], (fuel - 1) as nat).0;
            let body = region_plan(p, m, o.regions[1], (fuel - 1) as nat).0;
            parts_allowed(plan_steps(condition), plan_steps(body), allowed);
        } else if o.name.is("control"@, "parallel"@) {
            let body = region_plan(p, m, o.regions[0], (fuel - 1) as nat).0;
            assert(all_allowed(plan_steps(body), allowed));
        }
    }
}

proof fn level_is_allowed<B: Backend>(
    p: Planner<B>,
    m: ModuleView,
    levels: Seq<nat>,
    ops: Seq<OperationId>,
    n: int,
    reach: nat,
    fuel: nat,
    allowed: spec_fn(StepView) -> bool,
)
    requires
        m.in_bounds(),
        m.leveled(levels),
        0 <= n <= ops.len(),
        forall|i: int|
            0 <= i < ops.len() ==> op_allowed(m, #[trigger] ops[i], reach, fuel, allowed)
                && reaches(m, levels, ops[i], reach),
    ensures
        batch_allowed(level_batch(p, m, ops, n, fuel).0, allowed),
        forall|b: int|
            0 <= b < end_batches(p, m, ops, n, fuel).0.len() ==> batch_allowed(
                #[trigger] end_batches(p, m, ops, n, fuel).0[b],
                allowed,
            ),
    decreases fuel, 1int, n,
{
    if n > 0 {
        level_is_allowed(p, m, levels, ops, n - 1, reach, fuel, allowed);
        assert(op_allowed(m, ops[n - 1], reach, fuel, allowed));
        step_is_allowed(p, m, levels, ops[n - 1], reach, fuel, allowed);
        let before = end_batches(p, m, ops, n - 1, fuel).0;
        let all = end_batches(p, m, ops, n, fuel).0;
        assert forall|b: int| 0 <= b < all.len() implies batch_allowed(
            #[trigger] all[b],
            allowed,
        ) by {
            if b < before.len() {
                assert(all[b] == before[b]);
            } else {
                assert(all[b] =~= seq![step_plan(p, m, ops[n - 1], fuel).0->0]);
            }
        }
    }
}

proof fn levels_are_allowed<B: Backend>(
    p: Planner<B>,
    m: ModuleView,
    levels: Seq<nat>,
    ranks: Seq<Seq<OperationId>>,
    n: int,
    reach: nat,
    fuel: nat,
    allowed: spec_fn(StepView) -> bool,
)
    requires
        m.in_bounds(),
        m.leveled(levels),
        0 <= n <= ranks.len(),
        forall|r: int, i: int|
            0 <= r < ranks.len() && 0 <= i < ranks[r].len() ==> op_allowed(
                m,
                #[trigger] ranks[r][i],
                reach,
                fuel,
                allowed,
            ) && reaches(m, levels, ranks[r][i], reach),
    ensures
        forall|b: int|
            0 <= b < level_batches(p, m, ranks, n, fuel).0.len() ==> batch_allowed(
                #[trigger] level_batches(p, m, ranks, n, fuel).0[b],
                allowed,
            ),
    decreases fuel, 2int, n,
{
    if n > 0 {
        levels_are_allowed(p, m, levels, ranks, n - 1, reach, fuel, allowed);
        let ops = ranks[n - 1];
        assert forall|i: int| 0 <= i < ops.len() implies op_allowed(
            m,
            #[trigger] ops[i],
            reach,
            fuel,
            allowed,
        ) && reaches(m, levels, ops[i], reach) by {
            assert(op_allowed(m, ranks[n - 1][i], reach, fuel, allowed));
        }
        level_is_allowed(p, m, levels, ops, ops.len() as int, reach, fuel, allowed);
        let before = level_batches(p, m, ranks, n - 1, fuel).0;
        let all = level_batches(p, m, ranks, n, fuel).0;
        assert forall|b: int| 0 <= b < all.len() implies batch_allowed(
            #[trigger] all[b],
            allowed,
        ) by {
            if b < before.len() {
                assert(all[b] == before[b]);
            } else {
                assert(all[b] == level_batch(p, m, ops, ops.len() as int, fuel).0);
            }
        }
    }
}

/// Every step of the plan of a block has an effect that is allowed, where all
/// operations of the block do.
proof fn block_is_allowed<B: Backend>(
    p: Planner<B>,
    m: ModuleView,
    levels: Seq<nat>,
    region: RegionId,
    reach: nat,
    fuel: nat,
    allowed: spec_fn(StepView) -> bool,
)
    requires
        m.in_bounds(),
        m.leveled(levels),
        m.has_region(region),
        m.region(region).blocks.len() > 0,
        block_plannable(m, m.region(region).blocks[0], fuel),
        reach + levels[region.spec_index()] >= m.regions.len(),
        all_hold(
            m.walk_blocks(m.region(region).blocks, 0, reach),
            |op: OperationId| suits(allowed, m.op(op).effect),
        ),
    ensures
        all_allowed(plan_steps(region_plan(p, m, region, fuel).0), allowed),
    decreases fuel, 3int, 0int,
{
    let holds = |op: OperationId| suits(allowed, m.op(op).effect);
    let r = region.spec_index();
    let block = m.region(region).blocks[0];
    let ops = m.block(block).ops;
    let live = m.live(ops);
    assert(m.region_in_bounds(m.regions[r]));
    assert(m.has_block(m.region(region).blocks[0]));
    assert(m.block_in_bounds(m.blocks[block.spec_index()]));
    walked_blocks(m, m.region(region).blocks, 0, reach, 0, holds);
    assert forall|i: int| 0 <= i < live.len() implies op_allowed(
        m,
        #[trigger] live[i],
        reach,
        fuel,
        allowed,
    ) && reaches(m, levels, live[i], reach) by {
        lemma_filter_member(ops, |op: OperationId| !m.op(op).erased, i);
        let k = choose|k: int| 0 <= k < ops.len() && ops[k] == live[i] && !m.op(ops[k]).erased;
        let op = live[i];
        assert(m.has_op(ops[k]));
        walked_operations(m, ops, 0, reach, k, holds);
        assert(op_plannable(m, live[i], fuel));
        let regions = m.op(op).regions;
        assert(m.op_in_bounds(m.ops[op.spec_index()]));
        assert forall|n: int| 0 <= n < m.op(op).regions.len() implies m.has_region(
            #[trigger] m.op(op).regions[n],
        ) && levels[m.op(op).regions[n].spec_index()] + reach > m.regions.len() && levels[m.op(
            op,
        ).regions[n].spec_index()] < m.regions.len() by {
            let child = regions[n];
            assert(m.has_region(child));
            assert(m.has_child(r, 0, k, n));
            assert(m.child(r, 0, k, n) == child);
            assert(levels[child.spec_index()] > levels[r]);
            assert(levels[child.spec_index()] < m.regions.len());
        }
    }
    let g = graph_of(m, block, p.table);
    graphs_are_well_formed(m, block, p.table);
    let ranks = g.levels();
    assert forall|l: int, i: int| 0 <= l < ranks.len() && 0 <= i < ranks[l].len() implies op_allowed(
        m,
        #[trigger] ranks[l][i],
        reach,
        fuel,
        allowed,
    ) && reaches(m, levels, ranks[l][i], reach) by {
        assert(ranks[l] == g.level(l as nat));
        level_members(g, l as nat, i);
        let j = choose|j: int| 0 <= j < g.order.len() && g.order[j] == ranks[l][i];
        assert(op_allowed(m, live[j], reach, fuel, allowed));
    }
    levels_are_allowed(p, m, levels, ranks, ranks.len() as int, reach, fuel, allowed);
    let keep = |op: OperationId| is_terminator(m.op(op));
    let ends = live.filter(keep);
    assert forall|i: int| 0 <= i < ends.len() implies op_allowed(
        m,
        #[trigger] ends[i],
        reach,
        fuel,
        allowed,
    ) && reaches(m, levels, ends[i], reach) by {
        lemma_filter_member(live, keep, i);
        let j = choose|j: int| 0 <= j < live.len() && live[j] == ends[i] && keep(live[j]);
        assert(op_allowed(m, live[j], reach, fuel, allowed));
    }
    level_is_allowed(p, m, levels, ends, ends.len() as int, reach, fuel, allowed);
    let plan = block_plan(p, m, block, fuel).0;
    let first = level_batches(p, m, ranks, ranks.len() as int, fuel).0;
    let last = end_batches(p, m, ends, ends.len() as int, fuel).0;
    assert(plan.batches == first + last);
    assert forall|b: int| 0 <= b < plan.batches.len() implies batch_allowed(
        #[trigger] plan.batches[b],
        allowed,
    ) by {
        if b < first.len() {
            assert(plan.batches[b] == first[b]);
        } else {
            assert(plan.batches[b] == last[b - first.len()]);
        }
    }
    plan_allowed(plan, allowed);
}

/// Whether every step of a plan has an effect that the agent may have.
pub open spec fn plan_permitted(caps: CapabilitySetView, plan: PlanView) -> bool {
    forall|i: int|
        0 <= i < plan_steps(plan).len() ==> permitted(caps, (#[trigger] plan_steps(plan)[i]).effect)
}

/// Every step of the plan of an accepted program has an effect that the agent
/// may have: what is lowered to the runtime was authorized at compile time.
pub proof fn planned_effects_are_permitted<B: Backend>(
    p: Planner<B>,
    budget: Budget,
    times: nat,
    m: ModuleView,
    registry: Seq<SignatureView>,
    threshold: Number,
    function: Seq<char>,
)
    requires
        m.well_formed(),
        !rejects(all_findings(m, registry, p.table, threshold)),
        function_plannable(m, function),
        scheduled(p, budget, times, m, function) is Ok,
    ensures
        plan_permitted(m.capabilities, scheduled(p, budget, times, m, function)->Ok_0.plan),
{
    let allowed = |s: StepView| permitted(m.capabilities, s.effect);
    let holds = |op: OperationId| suits(allowed, m.op(op).effect);
    let levels = choose|levels: Seq<nat>| m.leveled(levels);
    let order = m.program_order(m.body);
    assert forall|k: int| 0 <= k < order.len() implies holds(#[trigger] order[k]) by {
        accepted_programs_are_permitted(m, registry, p.table, threshold, k);
    }
    let tops = m.ops_in_region(m.body);
    found_functions(m, tops, 0, function);
    let func = m.function(function)->0;
    let t = choose|t: int| 0 <= t < tops.len() && #[trigger] tops[t] == func;
    let blocks = m.region(m.body).blocks;
    direct_operations(m, blocks, blocks.len() as int, t);
    let (b, k) = choose|b: int, k: int|
        0 <= b < blocks.len() && 0 <= k < m.block(blocks[b]).ops.len() && #[trigger] m.block(
            blocks[b],
        ).ops[k] == tops[t] && !m.op(m.block(blocks[b]).ops[k]).erased;
    let r = m.body.spec_index();
    let n = m.regions.len();
    assert(m.region_in_bounds(m.regions[r]));
    assert(m.has_block(blocks[b]));
    assert(m.block_in_bounds(m.blocks[blocks[b].spec_index()]));
    assert(m.has_op(m.block(blocks[b]).ops[k]));
    assert(m.op_in_bounds(m.ops[func.spec_index()]));
    walked_blocks(m, blocks, 0, n, b, holds);
    walked_operations(m, m.block(blocks[b]).ops, 0, n, k, holds);
    let child = m.op(func).regions[0];
    assert(m.has_region(child));
    assert(m.has_child(r, b, k, 0));
    assert(m.child(r, b, k, 0) == child);
    assert(levels[child.spec_index()] > levels[r]);
    walked_regions(m, m.op(func).regions, 0, n, 0, holds);
    block_is_allowed(p, m, levels, child, (n - 1) as nat, n, allowed);
    let entry = m.region(child).blocks[0];
    let plan = block_plan(p, m, entry, n).0;
    let limits = match declared_budget(m, m.live(m.block(entry).ops), 0) {
        Some(x) => x,
        None => budget,
    };
    effects_survive_halving(allowed);
    degrading_allows(
        Fitting {
            plan,
            estimated: plan_cost(plan),
            notes: Seq::empty(),
            degradation: Degradation::NotNeeded,
        },
        limits,
        times,
        allowed,
    );
    let out = scheduled(p, budget, times, m, function)->Ok_0.plan;
    assert(out == fitted(plan, limits, times).plan);
    assert(all_allowed(plan_steps(out), allowed));
    assert forall|i: int| 0 <= i < plan_steps(out).len() implies permitted(
        m.capabilities,
        (#[trigger] plan_steps(out)[i]).effect,
    ) by {
        assert(allowed(plan_steps(out)[i]));
    }
}

} // verus!
