//! What one step does.
//!
//! A step that reaches the world hands over what is bound to its operands, once,
//! and what comes back is bound to its results, recorded under its key and
//! logged. A step that the runtime evaluates itself reads only what is bound and
//! touches nothing else.

use vstd::prelude::*;

use crate::assoc::{insert_keeps_others, insert_then_lookup, keys, lookup, sorted};
use crate::attribute::AttributeView;
use crate::control::{all_are_bound, binds, same_but_values};
use crate::env::{EnvErrorView, InvocationView, ReplyView, RequestView};
use crate::event::{EventKindView, EventView};
use crate::execution::{
    effective_key, function_run, plan_run, step_run, FlowView, Ran, RunView, RuntimeErrorView,
};
use crate::ids::{OperationId, ValueId};
use crate::plan::{Builtin, ExecutionPlanView, MemoryOp, StepView, TargetView};
use crate::state::{in_order, seen, value_at, StateView};
use crate::value::{value_of, ValueView};

verus! {

// ------------------------------------------------------------------ reading

/// What a run holds under a handle: what is bound to it, and nothing meaningful
/// where nothing is.
pub open spec fn held(run: RunView, id: ValueId) -> ValueView {
    match value_at(run.state.values, id) {
        Some(value) => value,
        None => ValueView::Null,
    }
}

/// What a run holds under the operand of a step at a position.
pub open spec fn argument(run: RunView, step: StepView, index: int) -> ValueView {
    if 0 <= index < step.operands.len() {
        held(run, step.operands[index])
    } else {
        ValueView::Null
    }
}

/// Whether some values are what a run holds under the operands of a step, in
/// order.
pub open spec fn are_arguments(run: RunView, step: StepView, values: Seq<ValueView>) -> bool {
    &&& values.len() == step.operands.len()
    &&& forall|i: int| 0 <= i < values.len() ==> #[trigger] values[i] == argument(run, step, i)
}

/// The attribute of a step under a name, as a value.
pub open spec fn setting(step: StepView, name: Seq<char>) -> Option<ValueView> {
    match lookup(step.attributes, name) {
        Some(attribute) => Some(value_of(attribute)),
        None => None,
    }
}

/// The text attribute of a step under a name, or another text where there is
/// none.
pub open spec fn wording(step: StepView, name: Seq<char>, fallback: Seq<char>) -> Seq<char> {
    match lookup(step.attributes, name) {
        Some(AttributeView::Str(text)) => text,
        _ => fallback,
    }
}

/// Whether the bindings and the ledger of a run are in order.
pub open spec fn is_tidy(run: RunView) -> bool {
    in_order(run.state.values) && sorted(keys(run.state.ledger))
}

/// Every attribute becomes the value it stands for: a number stays that number,
/// a text that text, and an effect becomes its text. A list becomes the list of
/// what its items become, and a dictionary the record under the same names.
pub proof fn attributes_become_values(a: AttributeView)
    ensures
        match a {
            AttributeView::Int(v) => value_of(a) == ValueView::Int(v),
            AttributeView::Float(v) => value_of(a) == ValueView::Float(v),
            AttributeView::Bool(v) => value_of(a) == ValueView::Bool(v),
            AttributeView::Str(v) => value_of(a) == ValueView::Str(v),
            AttributeView::Effect(e) => value_of(a) == ValueView::Str(e.text()),
            AttributeView::Array(items) => value_of(a) matches ValueView::List(values)
                && values.len() == items.len() && forall|i: int|
                0 <= i < items.len() ==> #[trigger] values[i] == value_of(items[i]),
            AttributeView::Dict(entries) => value_of(a) matches ValueView::Record(fields)
                && fields.len() == entries.len() && forall|i: int|
                0 <= i < entries.len() ==> (#[trigger] fields[i]).0 == entries[i].0 && fields[i].1
                    == value_of(entries[i].1),
        },
{
    crate::value::value_of_nested(a);
}

// ------------------------------------------------------------------ binding

/// Whether the results of a step took a value, and no other handle changed: one
/// result takes the value; several take the items of a list of the same length,
/// one each, and nothing meaningful where the value is not such a list.
pub open spec fn results_take(
    after: StateView,
    before: StateView,
    step: StepView,
    value: ValueView,
) -> bool {
    if step.results.len() <= 1 {
        binds(after, before, step.results, seq![value])
    } else {
        match value {
            ValueView::List(items) if items.len() == step.results.len() => binds(
                after,
                before,
                step.results,
                items,
            ),
            _ => binds(
                after,
                before,
                step.results,
                Seq::new(step.results.len(), |i: int| ValueView::Null),
            ),
        }
    }
}

/// Binding what a step gave binds its results and leaves everything else alone.
pub proof fn results_are_bound(run: RunView, step: StepView, value: ValueView)
    ensures
        results_take(run.bind_results(step, value).state, run.state, step, value),
        same_but_values(run.bind_results(step, value), run),
{
    let ids = step.results;
    let after = run.bind_results(step, value);
    let n = ids.len() as int;
    if n == 0 {
    } else if n == 1 {
        let values = seq![value];
        all_are_bound(run.state, ids, values, 1);
        assert(ids.take(1) =~= ids);
        reveal_with_fuel(StateView::bind_all, 2);
        assert(run.state.bind_all(ids, values, 1) == run.state.bind(ids[0], value));
    } else {
        match value {
            ValueView::List(items) if items.len() == ids.len() => {
                all_are_bound(run.state, ids, items, n);
            },
            _ => {
                all_are_bound(run.state, ids, Seq::new(ids.len(), |i: int| ValueView::Null), n);
            },
        }
        assert(ids.take(n) =~= ids);
    }
}

// ------------------------------------------------------------------ calling

/// Whether a call is the one a step makes of the world: it names what the target
/// names, hands over what is bound to the operands, in order, and the attributes
/// of the operation, and states its effect and the key of this invocation.
pub open spec fn is_the_call(run: RunView, step: StepView, call: InvocationView) -> bool {
    &&& match step.target {
        TargetView::ToolCall { tool } => call.target == tool,
        TargetView::Inference { model, .. } => call.target == model,
        TargetView::Memory { key, .. } => match key {
            Some(name) => call.target == name,
            None => call.target.len() == 0,
        },
        TargetView::Builtin(_) => false,
    }
    &&& are_arguments(run, step, call.args)
    &&& call.attributes.len() == step.attributes.len()
    &&& forall|i: int|
        0 <= i < call.attributes.len() ==> (#[trigger] call.attributes[i]).0 == step.attributes[i].0
            && call.attributes[i].1 == value_of(step.attributes[i].1)
    &&& call.effect == step.effect
    &&& call.idempotency_key == effective_key(step.idempotency_key, run.path)
}

/// Whether a request makes a call where the target of a step says it is made.
pub open spec fn is_addressed(step: StepView, request: RequestView, call: InvocationView) -> bool {
    match step.target {
        TargetView::ToolCall { .. } => request == RequestView::Tool(call),
        TargetView::Inference { .. } => request == RequestView::Infer(call),
        TargetView::Memory { operation: MemoryOp::Read, .. } => request == RequestView::Read(call),
        TargetView::Memory { operation: MemoryOp::Write, .. } => request == RequestView::Write(
            call,
        ),
        TargetView::Memory { operation: MemoryOp::Search, .. } => request == RequestView::Search(
            call,
        ),
        TargetView::Builtin(_) => false,
    }
}

/// What the world is asked first: whether it knows the key, where there is one.
pub open spec fn inquiry(key: Option<Seq<char>>) -> Seq<RequestView> {
    match key {
        Some(key) => seq![RequestView::Lookup(key)],
        None => Seq::empty(),
    }
}

/// Whether the effect of this invocation is not known to have happened: it has
/// no key, or neither the ledger nor the world knows it.
pub open spec fn is_new(world: Seq<ReplyView>, run: RunView, step: StepView) -> bool {
    match effective_key(step.idempotency_key, run.path) {
        Some(key) => lookup(run.state.ledger, key) is None && world[run.asked.len() as int].known()
            is None,
        None => true,
    }
}

/// Whether the guard lets a call through: it was made fewer times than the
/// threshold says.
pub open spec fn is_allowed(run: RunView, call: InvocationView) -> bool {
    seen(run.state.repeats, crate::repetition::signature_of(call)) < run.policy.repeat_threshold
}

/// Whether a log is another one with one more entry, about an operation.
pub open spec fn one_entry(
    after: Seq<EventView>,
    before: Seq<EventView>,
    op: Option<OperationId>,
    kind: EventKindView,
) -> bool {
    &&& after.len() == before.len() + 1
    &&& after.take(before.len() as int) == before
    &&& after.last().op == op
    &&& after.last().kind == kind
    &&& after.last().sequence == before.len() as u64
}

/// What a run keeps when a step is done, whatever it did.
pub open spec fn same_frame(after: RunView, before: RunView) -> bool {
    &&& after.policy == before.policy
    &&& after.version == before.version
    &&& after.path == before.path
    &&& after.state.rejected == before.state.rejected
}

/// Whether a key was recorded with a result, and no other key changed.
pub open spec fn records(
    after: Seq<(Seq<char>, ValueView)>,
    before: Seq<(Seq<char>, ValueView)>,
    key: Option<Seq<char>>,
    result: ValueView,
) -> bool {
    match key {
        Some(key) => sorted(keys(before)) ==> {
            &&& lookup(after, key) == Some(result)
            &&& forall|other: Seq<char>|
                other != key ==> #[trigger] lookup(after, other) == lookup(before, other)
        },
        None => after == before,
    }
}

/// Whether a checkpoint was taken if it was due, and only then: after as many
/// effects as the policy says, of the whole state as it is, once everything in
/// the log up to it happened.
pub open spec fn is_saved_when_due(after: RunView, before: RunView) -> bool {
    let every = before.policy.checkpoint_every;
    if every == 0 {
        &&& after.saved == before.saved
        &&& after.since_checkpoint == before.since_checkpoint
        &&& after.checkpoint_sequence == before.checkpoint_sequence
        &&& after.log.len() == before.log.len() + 1
    } else if before.since_checkpoint + 1 < every {
        &&& after.saved == before.saved
        &&& after.since_checkpoint == before.since_checkpoint + 1
        &&& after.checkpoint_sequence == before.checkpoint_sequence
        &&& after.log.len() == before.log.len() + 1
    } else {
        let taken = after.saved.last();
        &&& after.saved.len() == before.saved.len() + 1
        &&& after.saved.take(before.saved.len() as int) == before.saved
        &&& taken.state == after.state
        &&& taken.version == before.version
        &&& taken.log_position == (before.log.len() + 1) as u64
        &&& before.checkpoint_sequence < u64::MAX ==> taken.sequence == before.checkpoint_sequence
            + 1
        &&& after.checkpoint_sequence == taken.sequence
        &&& after.since_checkpoint == 0
        &&& after.log.len() == before.log.len() + 2
        &&& after.log.last().kind == (EventKindView::Checkpoint {
            sequence: taken.sequence,
            effects: after.state.ledger.len() as usize,
        })
    }
}

/// A step that reaches the world asks for its effect once, where it is not known
/// to have happened and the guard lets it through: whether the key is known
/// first, and then the one call. What is handed over is what is bound to its
/// operands.
pub proof fn an_effect_is_asked_for_once(world: Seq<ReplyView>, run: RunView, step: StepView)
    requires
        !(step.target is Builtin),
        is_new(world, run, step),
        forall|call: InvocationView| is_the_call(run, step, call) ==> #[trigger] is_allowed(
            run,
            call,
        ),
    ensures
        ({
            let asked = step_run(world, run, step).0.asked;
            let before = run.asked + inquiry(effective_key(step.idempotency_key, run.path));
            &&& asked.len() == before.len() + 1
            &&& asked.take(before.len() as int) == before
            &&& asked.last().call() matches Some(call) && is_the_call(run, step, call)
                && is_addressed(step, asked.last(), call)
        }),
{
    the_call_is_made(run, step);
    let call = run.invocation(step);
    assert(is_allowed(run, call));
    assert(crate::repetition::signature_of(call) == run.signature(step));
    let key = effective_key(step.idempotency_key, run.path);
    let asked = step_run(world, run, step).0.asked;
    let before = run.asked + inquiry(key);
    let request = crate::execution::request_of(step.target, call);
    let stand = match key {
        Some(k) => run.ask(RequestView::Lookup(k)),
        None => run,
    };
    assert(stand.asked =~= before);
    assert(stand.signature(step) == run.signature(step)) by {
        assert(stand.operands(step) =~= run.operands(step));
    }
    assert(stand.invocation(step) == call) by {
        assert(stand.operands(step) =~= run.operands(step));
    }
    assert(asked == before.push(request));
    assert(asked.take(before.len() as int) =~= before);
}

/// The call of a step is the one its operation says.
proof fn the_call_is_made(run: RunView, step: StepView)
    requires
        !(step.target is Builtin),
    ensures
        is_the_call(run, step, run.invocation(step)),
{
}

/// Where the guard does not let the call through, the world is not asked for it:
/// the run ends with what the policy says should happen, and logs it.
pub proof fn a_repeated_action_is_stopped(
    world: Seq<ReplyView>,
    run: RunView,
    step: StepView,
    call: InvocationView,
)
    requires
        !(step.target is Builtin),
        is_new(world, run, step),
        is_the_call(run, step, call),
        !is_allowed(run, call),
        run.policy.repeat_threshold < usize::MAX,
    ensures
        ({
            let (after, flow) = step_run(world, run, step);
            &&& flow matches Err(RuntimeErrorView::LoopGuard { target, repeats, action })
                && target == call.target && repeats > run.policy.repeat_threshold && action
                == run.policy.on_loop_guard && one_entry(
                after.log,
                run.log,
                Some(step.op),
                EventKindView::LoopGuard { target, repeats, action: action.text() },
            )
            &&& after.asked == run.asked + inquiry(effective_key(step.idempotency_key, run.path))
            &&& after.state.values == run.state.values
            &&& after.state.ledger == run.state.ledger
            &&& after.effects == run.effects
            &&& after.replayed == run.replayed
            &&& after.saved == run.saved
            &&& same_frame(after, run)
        }),
{
    let key = effective_key(step.idempotency_key, run.path);
    let made = run.invocation(step);
    assert(call.args =~= made.args);
    assert(crate::repetition::signature_of(call) == run.signature(step));
    let stand = match key {
        Some(k) => run.ask(RequestView::Lookup(k)),
        None => run,
    };
    assert(stand.asked =~= run.asked + inquiry(key));
    assert(stand.signature(step) == run.signature(step)) by {
        assert(stand.operands(step) =~= run.operands(step));
    }
    let after = step_run(world, run, step).0;
    assert(after.log.take(run.log.len() as int) =~= run.log);
}

/// What the world answered a step that reached it: the answer to its last
/// request.
pub open spec fn answer(world: Seq<ReplyView>, run: RunView, step: StepView) -> Result<
    ValueView,
    EnvErrorView,
> {
    let before = run.asked + inquiry(effective_key(step.idempotency_key, run.path));
    world[before.len() as int].outcome()
}

/// What comes back of an effect is bound to the results of the step, recorded
/// under its key and logged, and counts as one effect; then a checkpoint is
/// taken if one is due. A failure ends the run and is logged, and nothing is
/// bound or recorded.
pub proof fn what_comes_back_is_kept(world: Seq<ReplyView>, run: RunView, step: StepView)
    requires
        !(step.target is Builtin),
        is_new(world, run, step),
        is_allowed(run, run.invocation(step)),
        is_tidy(run),
    ensures
        ({
            let (after, flow) = step_run(world, run, step);
            let key = effective_key(step.idempotency_key, run.path);
            &&& same_frame(after, run)
            &&& after.replayed == run.replayed
            &&& match answer(world, run, step) {
                Ok(result) => {
                    &&& flow == Ok::<FlowView, RuntimeErrorView>(FlowView::Continue)
                    &&& results_take(after.state, run.state, step, result)
                    &&& records(after.state.ledger, run.state.ledger, key, result)
                    &&& run.effects < usize::MAX ==> after.effects == run.effects + 1
                    &&& one_entry(
                        after.log.take((run.log.len() + 1) as int),
                        run.log,
                        Some(step.op),
                        EventKindView::Effect {
                            target: run.invocation(step).target,
                            effect: step.effect.text(),
                            idempotency_key: key,
                            result,
                        },
                    )
                    &&& run.since_checkpoint < usize::MAX ==> is_saved_when_due(after, run)
                },
                Err(error) => {
                    &&& flow == Err::<FlowView, RuntimeErrorView>(
                        RuntimeErrorView::Environment(error),
                    )
                    &&& after.state.values == run.state.values
                    &&& after.state.ledger == run.state.ledger
                    &&& after.effects == run.effects
                    &&& after.saved == run.saved
                    &&& one_entry(
                        after.log,
                        run.log,
                        Some(step.op),
                        EventKindView::Failed {
                            target: run.invocation(step).target,
                            error: error.text(),
                        },
                    )
                },
            }
        }),
{
    let call = run.invocation(step);
    let key = effective_key(step.idempotency_key, run.path);
    let (after, flow) = step_run(world, run, step);
    let stand = match key {
        Some(k) => run.ask(RequestView::Lookup(k)),
        None => run,
    };
    assert(crate::repetition::signature_of(call) == run.signature(step));
    assert(stand.operands(step) =~= run.operands(step));
    assert(stand.invocation(step) == call);
    let asked = stand.counted(step).ask(crate::execution::request_of(step.target, call));
    match answer(world, run, step) {
        Ok(result) => {
            let kept = match key {
                Some(k) => asked.with_state(asked.state.record(k, result)),
                None => asked,
            };
            let noted = kept.note(
                Some(step.op),
                EventKindView::Effect {
                    target: call.target,
                    effect: step.effect.text(),
                    idempotency_key: key,
                    result,
                },
            );
            results_are_bound(noted, step, result);
            if let Some(k) = key {
                assert(after.state.ledger == crate::assoc::insert(run.state.ledger, k, result));
                insert_then_lookup(run.state.ledger, k, result);
                assert forall|other: Seq<char>| other != k implies #[trigger] lookup(
                    after.state.ledger,
                    other,
                ) == lookup(run.state.ledger, other) by {
                    insert_keeps_others(run.state.ledger, k, result, other);
                }
            }
            assert(after.log.take((run.log.len() + 1) as int) =~= noted.log);
            assert(noted.log.take(run.log.len() as int) =~= run.log);
            assert(after.saved.take(run.saved.len() as int) =~= run.saved);
        },
        Err(error) => {
            assert(after.log.take(run.log.len() as int) =~= run.log);
        },
    }
}

/// An effect that is known to have happened is not asked for again: the result
/// that the ledger holds, or else the world, is bound, and the replay is counted
/// and logged.
pub proof fn a_known_effect_is_replayed(
    world: Seq<ReplyView>,
    run: RunView,
    step: StepView,
    key: Seq<char>,
)
    requires
        !(step.target is Builtin),
        effective_key(step.idempotency_key, run.path) == Some(key),
        !is_new(world, run, step),
    ensures
        ({
            let (after, flow) = step_run(world, run, step);
            let result = match lookup(run.state.ledger, key) {
                Some(result) => result,
                None => world[run.asked.len() as int].known()->0,
            };
            &&& flow == Ok::<FlowView, RuntimeErrorView>(FlowView::Continue)
            &&& after.asked == if lookup(run.state.ledger, key) is Some {
                run.asked
            } else {
                run.asked.push(RequestView::Lookup(key))
            }
            &&& results_take(after.state, run.state, step, result)
            &&& after.state.ledger == run.state.ledger
            &&& after.state.repeats == run.state.repeats
            &&& after.effects == run.effects
            &&& run.replayed < usize::MAX ==> after.replayed == run.replayed + 1
            &&& after.saved == run.saved
            &&& same_frame(after, run)
            &&& one_entry(
                after.log,
                run.log,
                Some(step.op),
                EventKindView::EffectReplayed {
                    target: run.invocation(step).target,
                    idempotency_key: key,
                    result,
                },
            )
        }),
{
    let (after, flow) = step_run(world, run, step);
    let (stand, result) = match lookup(run.state.ledger, key) {
        Some(result) => (run, result),
        None => (run.ask(RequestView::Lookup(key)), world[run.asked.len() as int].known()->0),
    };
    let noted = stand.note(
        Some(step.op),
        EventKindView::EffectReplayed {
            target: run.invocation(step).target,
            idempotency_key: key,
            result,
        },
    );
    results_are_bound(noted, step, result);
    assert(noted.log.take(run.log.len() as int) =~= run.log);
}

// --------------------------------------------------------------- evaluation

/// Whether a run gave its results a value and did nothing else.
pub open spec fn gives(ran: Ran, run: RunView, step: StepView, value: ValueView) -> bool {
    &&& ran.1 == Ok::<FlowView, RuntimeErrorView>(FlowView::Continue)
    &&& results_take(ran.0.state, run.state, step, value)
    &&& same_but_values(ran.0, run)
}

/// A constant gives the value it states, or nothing meaningful where it states
/// none.
pub proof fn a_constant_gives_its_value(world: Seq<ReplyView>, run: RunView, step: StepView)
    requires
        step.target == TargetView::Builtin(Builtin::Constant),
    ensures
        gives(
            step_run(world, run, step),
            run,
            step,
            match setting(step, "value"@) {
                Some(value) => value,
                None => ValueView::Null,
            },
        ),
{
    results_are_bound(
        run,
        step,
        match setting(step, "value"@) {
            Some(value) => value,
            None => ValueView::Null,
        },
    );
}

/// A cast, an observation and an input give the value they are given.
pub proof fn a_value_passes_through(world: Seq<ReplyView>, run: RunView, step: StepView)
    requires
        step.target == TargetView::Builtin(Builtin::Cast) || step.target == TargetView::Builtin(
            Builtin::Observe,
        ) || step.target == TargetView::Builtin(Builtin::Input),
    ensures
        gives(step_run(world, run, step), run, step, argument(run, step, 0)),
{
    results_are_bound(run, step, argument(run, step, 0));
}

/// A metric gives the field of a record that its literal names, and fails where
/// there is none.
pub proof fn a_metric_is_a_field(world: Seq<ReplyView>, run: RunView, step: StepView)
    requires
        step.target == TargetView::Builtin(Builtin::Metric),
    ensures
        ({
            let ran = step_run(world, run, step);
            let name = match step.literal {
                Some(name) => name,
                None => Seq::empty(),
            };
            match argument(run, step, 0) {
                ValueView::Record(fields) => match lookup(fields, name) {
                    Some(value) => gives(ran, run, step, value),
                    None => ran.0 == run && ran.1 matches Err(RuntimeErrorView::Type(_)),
                },
                _ => ran.0 == run && ran.1 matches Err(RuntimeErrorView::Type(_)),
            }
        }),
{
    let name = match step.literal {
        Some(name) => name,
        None => Seq::empty(),
    };
    if let ValueView::Record(fields) = argument(run, step, 0) {
        if let Some(value) = lookup(fields, name) {
            results_are_bound(run, step, value);
        }
    }
}

/// A projection gives the field of a record that its attribute names, and
/// nothing meaningful where there is none.
pub proof fn a_projection_is_a_field(world: Seq<ReplyView>, run: RunView, step: StepView)
    requires
        step.target == TargetView::Builtin(Builtin::Project),
    ensures
        gives(
            step_run(world, run, step),
            run,
            step,
            match argument(run, step, 0) {
                ValueView::Record(fields) => match lookup(
                    fields,
                    wording(step, "field"@, Seq::empty()),
                ) {
                    Some(value) => value,
                    None => ValueView::Null,
                },
                _ => ValueView::Null,
            },
        ),
{
    results_are_bound(
        run,
        step,
        match argument(run, step, 0) {
            ValueView::Record(fields) => match lookup(
                fields,
                wording(step, "field"@, Seq::empty()),
            ) {
                Some(value) => value,
                None => ValueView::Null,
            },
            _ => ValueView::Null,
        },
    );
}

/// A capability operation gives the name of the capability it states.
pub proof fn a_capability_gives_its_name(world: Seq<ReplyView>, run: RunView, step: StepView)
    requires
        step.target == TargetView::Builtin(Builtin::Capability),
    ensures
        gives(
            step_run(world, run, step),
            run,
            step,
            ValueView::Str(wording(step, "capability"@, Seq::empty())),
        ),
{
    results_are_bound(run, step, ValueView::Str(wording(step, "capability"@, Seq::empty())));
}

/// The name under which a context holds an operand.
pub open spec fn operand_name(i: int) -> Seq<char> {
    "operand_"@ + crate::text::nat_text(i as nat)
}

/// Whether a record holds the operands of a step by their positions, and beside
/// them its attributes.
pub open spec fn is_context(
    run: RunView,
    step: StepView,
    fields: Seq<(Seq<char>, ValueView)>,
) -> bool {
    &&& forall|i: int|
        0 <= i < step.operands.len() ==> lookup(fields, #[trigger] operand_name(i)) == Some(
            argument(run, step, i),
        )
    &&& forall|name: Seq<char>|
        (forall|i: int| 0 <= i < step.operands.len() ==> name != #[trigger] operand_name(i))
            ==> #[trigger] lookup(fields, name) == setting(step, name)
}

proof fn attributes_are_looked_up(step: StepView, name: Seq<char>)
    requires
        sorted(keys(step.attributes)),
    ensures
        lookup(crate::value::record_of(step.attributes), name) == setting(step, name),
        keys(crate::value::record_of(step.attributes)) == keys(step.attributes),
{
    assert(keys(crate::value::record_of(step.attributes)) =~= keys(step.attributes));
}

proof fn operands_are_added(run: RunView, step: StepView, n: int)
    requires
        0 <= n <= step.operands.len(),
        sorted(keys(step.attributes)),
    ensures
        ({
            let fields = crate::execution::with_operands(
                crate::value::record_of(step.attributes),
                run.operands(step),
                n,
            );
            &&& sorted(keys(fields))
            &&& forall|i: int|
                0 <= i < n ==> lookup(fields, #[trigger] operand_name(i)) == Some(
                    argument(run, step, i),
                )
            &&& forall|name: Seq<char>|
                (forall|i: int| 0 <= i < n ==> name != #[trigger] operand_name(i))
                    ==> #[trigger] lookup(fields, name) == setting(step, name)
        }),
    decreases n,
{
    let start = crate::value::record_of(step.attributes);
    let fields = crate::execution::with_operands(start, run.operands(step), n);
    if n > 0 {
        operands_are_added(run, step, n - 1);
        let before = crate::execution::with_operands(start, run.operands(step), n - 1);
        let key = operand_name(n - 1);
        let value = argument(run, step, n - 1);
        assert(run.operands(step)[n - 1] == value);
        assert(fields == crate::assoc::insert(before, key, value));
        insert_then_lookup(before, key, value);
        crate::assoc::insert_keeps_sorted(before, key, value);
        assert forall|i: int| 0 <= i < n implies lookup(fields, #[trigger] operand_name(i)) == Some(
            argument(run, step, i),
        ) by {
            if i < n - 1 {
                names_differ(i, n - 1);
                insert_keeps_others(before, key, value, operand_name(i));
            }
        }
        assert forall|name: Seq<char>|
            (forall|i: int| 0 <= i < n ==> name != #[trigger] operand_name(i)) implies #[trigger]
            lookup(fields, name) == setting(step, name) by {
            assert(name != operand_name(n - 1));
            insert_keeps_others(before, key, value, name);
        }
    } else {
        assert forall|name: Seq<char>| #[trigger] lookup(fields, name) == setting(step, name) by {
            attributes_are_looked_up(step, name);
        }
        attributes_are_looked_up(step, Seq::empty());
    }
}

proof fn names_differ(i: int, j: int)
    requires
        0 <= i,
        0 <= j,
        i != j,
    ensures
        operand_name(i) != operand_name(j),
{
    let lead = "operand_"@;
    if operand_name(i) == operand_name(j) {
        assert(operand_name(i).skip(lead.len() as int) =~= crate::text::nat_text(i as nat));
        assert(operand_name(j).skip(lead.len() as int) =~= crate::text::nat_text(j as nat));
        crate::text::nat_text_injective(i as nat, j as nat);
    }
}

/// A context gives a record of its operands and its attributes.
pub proof fn a_context_holds_its_operands(world: Seq<ReplyView>, run: RunView, step: StepView)
    requires
        step.target == TargetView::Builtin(Builtin::Context),
        sorted(keys(step.attributes)),
    ensures
        exists|fields: Seq<(Seq<char>, ValueView)>|
            is_context(run, step, fields) && #[trigger] gives(
                step_run(world, run, step),
                run,
                step,
                ValueView::Record(fields),
            ),
{
    let n = step.operands.len() as int;
    operands_are_added(run, step, n);
    let fields = crate::execution::with_operands(
        crate::value::record_of(step.attributes),
        run.operands(step),
        n,
    );
    results_are_bound(run, step, ValueView::Record(fields));
    assert(gives(step_run(world, run, step), run, step, ValueView::Record(fields)));
}

/// An error that is recorded is logged with its message, and the run goes on.
pub proof fn a_recorded_error_is_logged(world: Seq<ReplyView>, run: RunView, step: StepView)
    requires
        step.target == TargetView::Builtin(Builtin::RecordError),
    ensures
        ({
            let (after, flow) = step_run(world, run, step);
            &&& flow == Ok::<FlowView, RuntimeErrorView>(FlowView::Continue)
            &&& after == (RunView { log: after.log, ..run })
            &&& one_entry(
                after.log,
                run.log,
                Some(step.op),
                EventKindView::Failed {
                    target: "observation.error"@,
                    error: wording(step, "message"@, "unspecified"@),
                },
            )
        }),
{
    let after = step_run(world, run, step).0;
    assert(after.log.take(run.log.len() as int) =~= run.log);
}

/// A rejected candidate is added to those that were rejected.
pub proof fn a_rejected_candidate_is_remembered(
    world: Seq<ReplyView>,
    run: RunView,
    step: StepView,
)
    requires
        step.target == TargetView::Builtin(Builtin::Reject),
    ensures
        ({
            let (after, flow) = step_run(world, run, step);
            let rejected = after.state.rejected;
            &&& flow == Ok::<FlowView, RuntimeErrorView>(FlowView::Continue)
            &&& after == (RunView { state: StateView { rejected, ..run.state }, ..run })
            &&& rejected.len() == run.state.rejected.len() + 1
            &&& rejected.take(run.state.rejected.len() as int) == run.state.rejected
            &&& rejected.last() == argument(run, step, 0)
        }),
{
    let rejected = step_run(world, run, step).0.state.rejected;
    assert(rejected.take(run.state.rejected.len() as int) =~= run.state.rejected);
}

/// A terminator hands its operands, in order, to what it leaves, and does
/// nothing else: a return leaves the function, a yield the region.
pub proof fn a_terminator_hands_over_its_operands(
    world: Seq<ReplyView>,
    run: RunView,
    step: StepView,
)
    requires
        step.target == TargetView::Builtin(Builtin::Return) || step.target == TargetView::Builtin(
            Builtin::Yield,
        ),
    ensures
        step_run(world, run, step).0 == run,
        step.target == TargetView::Builtin(Builtin::Return) ==> (step_run(world, run, step).1
            matches Ok(FlowView::Return(values)) && are_arguments(run, step, values)),
        step.target == TargetView::Builtin(Builtin::Yield) ==> (step_run(world, run, step).1
            matches Ok(FlowView::Yield(values)) && are_arguments(run, step, values)),
{
}

/// A budget and a check do nothing when they are run.
pub proof fn declarations_do_nothing(world: Seq<ReplyView>, run: RunView, step: StepView)
    requires
        step.target == TargetView::Builtin(Builtin::Budget) || step.target == TargetView::Builtin(
            Builtin::Verify,
        ),
    ensures
        step_run(world, run, step) == (run, Ok::<FlowView, RuntimeErrorView>(FlowView::Continue)),
{
}

// ---------------------------------------------------------------- functions

/// What several values are as one: nothing meaningful where there are none, the
/// one where there is one, and otherwise a list of them.
pub open spec fn is_one_value(values: Seq<ValueView>, value: ValueView) -> bool {
    if values.len() == 0 {
        value == ValueView::Null
    } else if values.len() == 1 {
        value == values[0]
    } else {
        value == ValueView::List(values)
    }
}

/// A function runs its plan with its parameters bound to the arguments, by
/// position, and gives what the plan returned; a failure of the plan is its own.
/// The log says that it started, and, where it did not fail, what it gave.
pub proof fn a_function_runs_its_plan(
    world: Seq<ReplyView>,
    run: RunView,
    plan: ExecutionPlanView,
    arguments: Seq<ValueView>,
)
    ensures
        exists|began: RunView|
            {
                &&& binds(
                    began.state,
                    run.state,
                    plan.parameters.take(crate::control::pairs(plan.parameters, arguments)),
                    arguments,
                )
                &&& began == (RunView {
                    version: plan.version,
                    log: began.log,
                    state: StateView { values: began.state.values, ..run.state },
                    ..run
                })
                &&& one_entry(
                    began.log,
                    run.log,
                    None,
                    EventKindView::Started { function: plan.function, version: plan.version },
                )
                &&& ({
                    let (ended, flow) = #[trigger] plan_run(world, began, plan.plan);
                    let (after, outcome) = function_run(world, run, plan, arguments);
                    match flow {
                        Err(error) => after == ended && (outcome matches Err(e) && e == error),
                        Ok(flow) => {
                            &&& outcome matches Ok(o) && {
                                &&& o.state == ended.state
                                &&& o.effects == ended.effects
                                &&& o.replayed == ended.replayed
                                &&& match flow {
                                    FlowView::Return(values) => is_one_value(values, o.result),
                                    FlowView::Yield(values) => is_one_value(values, o.result),
                                    FlowView::Continue => o.result == ValueView::Null,
                                }
                                &&& after == (RunView { log: after.log, ..ended })
                                &&& one_entry(
                                    after.log,
                                    ended.log,
                                    None,
                                    EventKindView::Finished { result: o.result },
                                )
                            }
                        },
                    }
                })
            },
{
    let began = crate::execution::started(run, plan, arguments);
    all_are_bound(
        run.state,
        plan.parameters,
        arguments,
        crate::control::pairs(plan.parameters, arguments),
    );
    assert(began.log.take(run.log.len() as int) =~= run.log);
    let (ended, flow) = plan_run(world, began, plan.plan);
    let after = function_run(world, run, plan, arguments).0;
    if flow is Ok {
        assert(after.log.take(ended.log.len() as int) =~= ended.log);
    }
}

} // verus!
