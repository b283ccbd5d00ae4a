//! What a run does is what its plan says.
//!
//! Whatever a run asks of the world is asked for a step of its plan, and every
//! effect in the log points back at the operation that caused it. A plan whose
//! effects were all authorized therefore never reaches the world with one that
//! was not.

use vstd::prelude::*;

use crate::capability::CapabilitySetView;
use crate::durability::extends;
use crate::env::{Dealings, InvocationView, ReplyView, RequestView};
use crate::event::{EventKindView, EventView};
use crate::execution::{
    batch_run, batches_run, body_stops, effective_key, external_run, function_run, is_control,
    items_of, loop_run, perform, plan_run, region_done, request_of, returned, simple_run, started,
    step_run, target_name, while_ends, while_run, FlowView, Ran, RunView, RuntimeErrorView,
};
use crate::guarantees::{
    all_allowed, batch_allowed, parts_allowed, permitted, plan_allowed, plan_permitted,
    step_allowed,
};
use crate::ids::ValueId;
use crate::plan::{
    plan_steps, Builtin, ControlView, ExecutionPlanView, PlanView, StepView, TargetView,
};
use crate::value::ValueView;
use crate::world::{told, told_in_order};

verus! {

/// Whether a call is one that a step makes: of its target, with its effect and
/// its attributes, and under a key where the step has one.
pub open spec fn is_call_of(call: InvocationView, s: StepView) -> bool {
    &&& call.target == target_name(s.target)
    &&& call.effect == s.effect
    &&& call.attributes == crate::value::record_of(s.attributes)
    &&& call.args.len() == s.operands.len()
    &&& call.idempotency_key is Some == s.idempotency_key is Some
}

/// Whether a request calls the world only for one of some steps.
pub open spec fn request_traced(r: RequestView, steps: spec_fn(StepView) -> bool) -> bool {
    match r.call() {
        Some(call) => exists|s: StepView| #[trigger] steps(s) && is_call_of(call, s),
        None => true,
    }
}

/// Whether an entry points back only at one of some steps, and does so where an
/// effect happened.
pub open spec fn entry_traced(e: EventView, steps: spec_fn(StepView) -> bool) -> bool {
    &&& e.op matches Some(op) ==> exists|s: StepView| #[trigger] steps(s) && s.op == op
    &&& e.kind is Effect || e.kind is EffectReplayed ==> e.op is Some
}

/// Whether everything that was asked and logged between two moments of a run
/// comes from one of some steps.
pub open spec fn traced(
    before: RunView,
    after: RunView,
    steps: spec_fn(StepView) -> bool,
) -> bool {
    &&& extends(after.asked, before.asked)
    &&& extends(after.log, before.log)
    &&& forall|i: int|
        before.asked.len() <= i < after.asked.len() ==> request_traced(
            #[trigger] after.asked[i],
            steps,
        )
    &&& forall|i: int|
        before.log.len() <= i < after.log.len() ==> entry_traced(#[trigger] after.log[i], steps)
}

proof fn traced_on(a: RunView, b: RunView, c: RunView, steps: spec_fn(StepView) -> bool)
    requires
        traced(a, b, steps),
        traced(b, c, steps),
    ensures
        traced(a, c, steps),
{
    assert forall|i: int| a.asked.len() <= i < c.asked.len() implies request_traced(
        #[trigger] c.asked[i],
        steps,
    ) by {
        if i < b.asked.len() {
            assert(c.asked[i] == b.asked[i]);
        }
    }
    assert forall|i: int| a.log.len() <= i < c.log.len() implies entry_traced(
        #[trigger] c.log[i],
        steps,
    ) by {
        if i < b.log.len() {
            assert(c.log[i] == b.log[i]);
        }
    }
}

/// One entry for a step, or for none where it records no effect.
proof fn note_is_traced(
    run: RunView,
    s: StepView,
    kind: EventKindView,
    steps: spec_fn(StepView) -> bool,
)
    requires
        steps(s),
    ensures
        traced(run, run.note(Some(s.op), kind), steps),
{
    let after = run.note(Some(s.op), kind);
    assert(entry_traced(after.log[run.log.len() as int], steps));
}

proof fn plain_note_is_traced(
    run: RunView,
    kind: EventKindView,
    steps: spec_fn(StepView) -> bool,
)
    requires
        !(kind is Effect) && !(kind is EffectReplayed),
    ensures
        traced(run, run.note(None, kind), steps),
{
    let after = run.note(None, kind);
    assert(entry_traced(after.log[run.log.len() as int], steps));
}

proof fn checkpoint_is_traced(run: RunView, steps: spec_fn(StepView) -> bool)
    ensures
        traced(run, run.maybe_checkpoint(), steps),
{
    let after = run.maybe_checkpoint();
    if after.log.len() > run.log.len() {
        assert(entry_traced(after.log[run.log.len() as int], steps));
    }
}

proof fn replay_is_traced(
    run: RunView,
    s: StepView,
    key: Seq<char>,
    result: ValueView,
    steps: spec_fn(StepView) -> bool,
)
    requires
        steps(s),
    ensures
        traced(run, run.replay(s, key, result), steps),
{
    let after = run.replay(s, key, result);
    assert(entry_traced(after.log[run.log.len() as int], steps));
}

proof fn performing_is_traced(
    world: Seq<ReplyView>,
    run: RunView,
    s: StepView,
    steps: spec_fn(StepView) -> bool,
)
    requires
        steps(s),
        !(s.target is Builtin),
    ensures
        traced(run, perform(world, run, s).0, steps),
{
    if run.is_stuck(s) {
        let after = run.stopped(s).0;
        assert(entry_traced(after.log[run.log.len() as int], steps));
    } else {
        let call = run.invocation(s);
        let request = request_of(s.target, call);
        let asked = run.counted(s).ask(request);
        let reply = world[run.counted(s).asked.len() as int].outcome();
        assert(request.call() == Some(call));
        assert(is_call_of(call, s));
        assert(request_traced(asked.asked[run.asked.len() as int], steps));
        assert(traced(run, asked, steps));
        match reply {
            Err(error) => {
                let after = asked.settle(s, call.idempotency_key, reply).0;
                assert(entry_traced(after.log[run.log.len() as int], steps));
                assert(traced(asked, after, steps));
                traced_on(run, asked, after, steps);
            },
            Ok(result) => {
                let recorded = match call.idempotency_key {
                    Some(key) => asked.with_state(asked.state.record(key, result)),
                    None => asked,
                };
                let kind = EventKindView::Effect {
                    target: target_name(s.target),
                    effect: s.effect.text(),
                    idempotency_key: call.idempotency_key,
                    result,
                };
                let noted = recorded.note(Some(s.op), kind);
                note_is_traced(recorded, s, kind, steps);
                let bound = noted.bind_results(s, result);
                let effected = RunView {
                    effects: crate::state::one_more(bound.effects),
                    ..bound
                };
                assert(traced(asked, effected, steps));
                checkpoint_is_traced(effected, steps);
                traced_on(run, asked, effected, steps);
                traced_on(run, effected, effected.maybe_checkpoint(), steps);
                assert(asked.settle(s, call.idempotency_key, reply).0
                    == effected.maybe_checkpoint());
            },
        }
    }
}

proof fn external_is_traced(
    world: Seq<ReplyView>,
    run: RunView,
    s: StepView,
    steps: spec_fn(StepView) -> bool,
)
    requires
        steps(s),
        !(s.target is Builtin),
    ensures
        traced(run, external_run(world, run, s).0, steps),
{
    match effective_key(s.idempotency_key, run.path) {
        Some(key) => {
            let asked = run.ask(RequestView::Lookup(key));
            assert(request_traced(asked.asked[run.asked.len() as int], steps));
            assert(traced(run, asked, steps));
            if let Some(result) = crate::assoc::lookup(run.state.ledger, key) {
                replay_is_traced(run, s, key, result, steps);
            } else if let Some(result) = world[run.asked.len() as int].known() {
                replay_is_traced(asked, s, key, result, steps);
                traced_on(run, asked, asked.replay(s, key, result), steps);
            } else {
                performing_is_traced(world, asked, s, steps);
                traced_on(run, asked, perform(world, asked, s).0, steps);
            }
        },
        None => {
            performing_is_traced(world, run, s, steps);
        },
    }
}

proof fn simple_is_traced(
    run: RunView,
    s: StepView,
    builtin: Builtin,
    steps: spec_fn(StepView) -> bool,
)
    requires
        steps(s),
    ensures
        traced(run, simple_run(run, s, builtin).0, steps),
{
    let after = simple_run(run, s, builtin).0;
    if after.log.len() > run.log.len() {
        assert(entry_traced(after.log[run.log.len() as int], steps));
    }
}

proof fn region_is_traced(
    run: RunView,
    ran: Ran,
    s: StepView,
    steps: spec_fn(StepView) -> bool,
)
    requires
        traced(run, ran.0, steps),
    ensures
        traced(run, region_done(ran, s).0, steps),
{
}

/// Running a plan asks and logs only for its steps.
proof fn plan_is_traced(
    world: Seq<ReplyView>,
    run: RunView,
    plan: PlanView,
    steps: spec_fn(StepView) -> bool,
)
    requires
        all_allowed(plan_steps(plan), steps),
    ensures
        traced(run, plan_run(world, run, plan).0, steps),
    decreases plan, 0int, 0int,
{
    plan_allowed(plan, steps);
    batches_are_traced(world, run, plan.batches, 0, steps);
}

proof fn batches_are_traced(
    world: Seq<ReplyView>,
    run: RunView,
    batches: Seq<Seq<StepView>>,
    i: int,
    steps: spec_fn(StepView) -> bool,
)
    requires
        forall|b: int| 0 <= b < batches.len() ==> batch_allowed(#[trigger] batches[b], steps),
    ensures
        traced(run, batches_run(world, run, batches, i).0, steps),
    decreases batches, 0int, batches.len() - i,
{
    if 0 <= i < batches.len() {
        assert(decreases_to!(batches => batches[i]));
        assert(batch_allowed(batches[i], steps));
        batch_is_traced(world, run, batches[i], 0, steps);
        let (next, flow) = batch_run(world, run, batches[i], 0);
        if flow == Ok::<FlowView, RuntimeErrorView>(FlowView::Continue) {
            batches_are_traced(world, next, batches, i + 1, steps);
            traced_on(run, next, batches_run(world, next, batches, i + 1).0, steps);
        }
    }
}

proof fn batch_is_traced(
    world: Seq<ReplyView>,
    run: RunView,
    batch: Seq<StepView>,
    j: int,
    steps: spec_fn(StepView) -> bool,
)
    requires
        batch_allowed(batch, steps),
    ensures
        traced(run, batch_run(world, run, batch, j).0, steps),
    decreases batch, 0int, batch.len() - j,
{
    if 0 <= j < batch.len() {
        assert(decreases_to!(batch => batch[j]));
        assert(step_allowed(batch[j], steps));
        step_is_traced(world, run, batch[j], steps);
        let (next, flow) = step_run(world, run, batch[j]);
        if flow == Ok::<FlowView, RuntimeErrorView>(FlowView::Continue) {
            batch_is_traced(world, next, batch, j + 1, steps);
            traced_on(run, next, batch_run(world, next, batch, j + 1).0, steps);
        }
    }
}

proof fn step_is_traced(
    world: Seq<ReplyView>,
    run: RunView,
    s: StepView,
    steps: spec_fn(StepView) -> bool,
)
    requires
        step_allowed(s, steps),
    ensures
        traced(run, step_run(world, run, s).0, steps),
    decreases s, 0int, 0int,
{
    assert(traced(run, run, steps));
    match s.target {
        TargetView::Builtin(builtin) => {
            if !is_control(builtin) {
                simple_is_traced(run, s, builtin, steps);
            } else if let Some(control) = s.control {
                assert(decreases_to!(s => s.control));
                match control {
                    ControlView::If { taken, otherwise } => {
                        let other = match otherwise {
                            Some(p) => plan_steps(p),
                            None => Seq::empty(),
                        };
                        parts_allowed(plan_steps(taken), other, steps);
                        plan_is_traced(world, run, taken, steps);
                        region_is_traced(run, plan_run(world, run, taken), s, steps);
                        if let Some(plan) = otherwise {
                            plan_is_traced(world, run, plan, steps);
                            region_is_traced(run, plan_run(world, run, plan), s, steps);
                        }
                    },
                    ControlView::Loop { binding, max_iterations, body } => {
                        let items = items_of(run.operand(s, 0));
                        loop_is_traced(world, run, binding, body, items, 0, steps);
                    },
                    ControlView::While { condition, max_iterations, body } => {
                        parts_allowed(plan_steps(condition), plan_steps(body), steps);
                        while_is_traced(world, run, control, 0, steps);
                    },
                    ControlView::Parallel { body } => {
                        plan_is_traced(world, run, body, steps);
                        region_is_traced(run, plan_run(world, run, body), s, steps);
                    },
                }
            }
        },
        _ => {
            external_is_traced(world, run, s, steps);
        },
    }
}

proof fn loop_is_traced(
    world: Seq<ReplyView>,
    run: RunView,
    binding: Option<ValueId>,
    body: PlanView,
    items: Seq<ValueView>,
    k: int,
    steps: spec_fn(StepView) -> bool,
)
    requires
        all_allowed(plan_steps(body), steps),
    ensures
        traced(run, loop_run(world, run, binding, body, items, k).0, steps),
    decreases body, 1int, items.len() - k,
{
    if 0 <= k < items.len() {
        let bound = match binding {
            Some(id) => run.with_state(run.state.bind(id, items[k])),
            None => run,
        };
        let entered = bound.enter(k as u64);
        plan_is_traced(world, entered, body, steps);
        let (ended, flow) = plan_run(world, entered, body);
        let next = ended.leave(run.path);
        assert(traced(run, next, steps));
        if !body_stops(flow) {
            loop_is_traced(world, next, binding, body, items, k + 1, steps);
            traced_on(
                run,
                next,
                loop_run(world, next, binding, body, items, k + 1).0,
                steps,
            );
        }
    }
}

proof fn while_is_traced(
    world: Seq<ReplyView>,
    run: RunView,
    control: ControlView,
    k: int,
    steps: spec_fn(StepView) -> bool,
)
    requires
        control is While,
        all_allowed(plan_steps(control->While_condition), steps),
        all_allowed(plan_steps(control->While_body), steps),
    ensures
        traced(run, while_run(world, run, control, k).0, steps),
    decreases control, 1int, control->While_max_iterations - k,
{
    if let ControlView::While { condition, max_iterations, body } = control {
        if 0 <= k < max_iterations {
            let opened = run.enter(k as u64);
            plan_is_traced(world, opened, condition, steps);
            let (tested, verdict) = plan_run(world, opened, condition);
            let closed = tested.leave(run.path);
            assert(traced(run, closed, steps));
            if while_ends(verdict) is None {
                let entered = closed.enter(k as u64);
                plan_is_traced(world, entered, body, steps);
                let (ended, flow) = plan_run(world, entered, body);
                let next = ended.leave(run.path);
                assert(traced(closed, next, steps));
                traced_on(run, closed, next, steps);
                if !body_stops(flow) && k + 1 != max_iterations {
                    while_is_traced(world, next, control, k + 1, steps);
                    traced_on(run, next, while_run(world, next, control, k + 1).0, steps);
                }
            }
        }
    }
}

/// A run asks and logs only for the steps of its plan.
proof fn function_is_traced(
    world: Seq<ReplyView>,
    run: RunView,
    plan: ExecutionPlanView,
    arguments: Seq<ValueView>,
)
    ensures
        traced(
            run,
            function_run(world, run, plan, arguments).0,
            |s: StepView| plan_steps(plan.plan).contains(s),
        ),
{
    let steps = |s: StepView| plan_steps(plan.plan).contains(s);
    let begun = started(run, plan, arguments);
    let unlogged = RunView { log: run.log, ..begun };
    let start = EventKindView::Started { function: plan.function, version: plan.version };
    plain_note_is_traced(unlogged, start, steps);
    assert(traced(run, begun, steps));
    let all = plan_steps(plan.plan);
    assert forall|i: int| 0 <= i < all.len() implies steps(#[trigger] all[i]) by {
        assert(all.contains(all[i]));
    }
    plan_is_traced(world, begun, plan.plan, steps);
    let (ended, flow) = plan_run(world, begun, plan.plan);
    traced_on(run, begun, ended, steps);
    if let Ok(f) = flow {
        let kind = EventKindView::Finished { result: returned(f) };
        plain_note_is_traced(ended, kind, steps);
        traced_on(run, ended, ended.note(None, kind), steps);
    }
}

/// The runtime executes the plan and does not reinterpret it: whatever a run
/// calls the world for is a call that a step of its plan makes, and every
/// effect in the log points back at the operation of a step.
pub proof fn a_run_does_what_its_plan_says(
    world: Seq<ReplyView>,
    run: RunView,
    plan: ExecutionPlanView,
    arguments: Seq<ValueView>,
    before: Dealings,
    after: Dealings,
)
    requires
        told(before, after, world, run, function_run(world, run, plan, arguments).0),
    ensures
        traced(
            run,
            function_run(world, run, plan, arguments).0,
            |s: StepView| plan_steps(plan.plan).contains(s),
        ),
        forall|k: int|
            before.exchanges.len() <= k < after.exchanges.len() ==> request_traced(
                (#[trigger] after.exchanges[k]).request,
                |s: StepView| plan_steps(plan.plan).contains(s),
            ),
{
    function_is_traced(world, run, plan, arguments);
    let ended = function_run(world, run, plan, arguments).0;
    let steps = |s: StepView| plan_steps(plan.plan).contains(s);
    assert forall|k: int| before.exchanges.len() <= k < after.exchanges.len() implies request_traced(
        (#[trigger] after.exchanges[k]).request,
        steps,
    ) by {
        let (i, _) = told_in_order(before, after, world, run, ended, k, k);
        assert(request_traced(ended.asked[i], steps));
    }
}

/// Nothing unauthorized reaches the world: a run of a plan whose effects are
/// all permitted makes no call with an effect that is not.
pub proof fn only_permitted_effects_reach_the_world(
    world: Seq<ReplyView>,
    run: RunView,
    plan: ExecutionPlanView,
    arguments: Seq<ValueView>,
    caps: CapabilitySetView,
    before: Dealings,
    after: Dealings,
    k: int,
)
    requires
        plan_permitted(caps, plan.plan),
        told(before, after, world, run, function_run(world, run, plan, arguments).0),
        before.exchanges.len() <= k < after.exchanges.len(),
    ensures
        after.exchanges[k].request.call() matches Some(call) ==> permitted(caps, call.effect),
{
    a_run_does_what_its_plan_says(world, run, plan, arguments, before, after);
    let steps = |s: StepView| plan_steps(plan.plan).contains(s);
    let r = after.exchanges[k].request;
    assert(request_traced(r, steps));
    if let Some(call) = r.call() {
        let s = choose|s: StepView| #[trigger] steps(s) && is_call_of(call, s);
        let all = plan_steps(plan.plan);
        let m = choose|m: int| 0 <= m < all.len() && all[m] == s;
        assert(permitted(caps, all[m].effect));
    }
}

} // verus!
