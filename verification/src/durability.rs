//! What a run keeps, whatever the world answers and wherever it stops.
//!
//! The log, the checkpoints and the record of requests only grow; a recorded
//! effect stays recorded and is never performed again; and what a crash leaves
//! behind is enough to rebuild the ledger.

use vstd::prelude::*;

use crate::assoc::{
    insert, insert_keeps_others, insert_keeps_sorted, insert_then_lookup, keys, lookup, sorted,
};
use crate::env::{Dealings, ReplyView, RequestView};
use crate::event::{appended, dense, EventKindView, EventView};
use crate::execution::{
    batch_run, batches_run, body_stops, computed, effective_key, external_run, function_run,
    invocation_key, is_control, items_of, loop_run, path_text, perform, plan_run, region_done,
    request_of, simple_run, started, step_run, while_ends, while_run, FlowView, Ran, RunView,
};
use crate::ids::{OperationId, ValueId};
use crate::plan::{ControlView, ExecutionPlanView, PlanView, StepView, TargetView};
use crate::recovery::{folded, resumed_from};
use crate::relex::decimals;
use crate::state::StateView;
use crate::text::{nat_text, nat_text_injective, nat_text_length};
use crate::value::ValueView;
use crate::world::{told, told_in_order};

verus! {

/// Whether `longer` begins with `shorter`.
pub open spec fn extends<A>(longer: Seq<A>, shorter: Seq<A>) -> bool {
    &&& shorter.len() <= longer.len()
    &&& forall|i: int| 0 <= i < shorter.len() ==> #[trigger] longer[i] == shorter[i]
}

/// Whether folding the log from a position on into a ledger gives back every
/// result in `ledger`.
pub open spec fn covers(
    log: Seq<EventView>,
    position: u64,
    base: Seq<(Seq<char>, ValueView)>,
    ledger: Seq<(Seq<char>, ValueView)>,
) -> bool {
    &&& sorted(keys(base))
    &&& position <= log.len()
    &&& forall|key: Seq<char>|
        #[trigger] lookup(ledger, key) is Some ==> lookup(
            folded(log, position, base, log.len() as int),
            key,
        ) == lookup(ledger, key)
}

/// Whether every result of a ledger is in a later one.
pub open spec fn remembers(
    later: Seq<(Seq<char>, ValueView)>,
    earlier: Seq<(Seq<char>, ValueView)>,
) -> bool {
    forall|key: Seq<char>|
        #[trigger] lookup(earlier, key) is Some ==> lookup(later, key) == lookup(earlier, key)
}

/// What holds between two moments of a run.
pub open spec fn advances(world: Seq<ReplyView>, before: RunView, after: RunView) -> bool {
    &&& extends(after.log, before.log)
    &&& extends(after.saved, before.saved)
    &&& extends(after.asked, before.asked)
    &&& after.policy == before.policy
    &&& is_sound(before) && after.log.len() <= u64::MAX ==> keeps_faith(world, before, after)
}

/// Whether the ledger of a run is in order and its log is numbered by position.
pub open spec fn is_sound(run: RunView) -> bool {
    sorted(keys(run.state.ledger)) && dense(run.log)
}

/// What holds between two moments of a run that began sound.
pub open spec fn keeps_faith(world: Seq<ReplyView>, before: RunView, after: RunView) -> bool {
    &&& is_sound(after)
    &&& remembers(after.state.ledger, before.state.ledger)
    // What is recorded is not asked for again.
    &&& forall|i: int|
        before.asked.len() <= i < after.asked.len() && (#[trigger] after.asked[i]).call_key()
            is Some ==> lookup(before.state.ledger, after.asked[i].call_key()->0)
            is None
    // What came back under a key is recorded.
    &&& forall|i: int|
        before.asked.len() <= i < after.asked.len() && (#[trigger] after.asked[i]).call_key()
            is Some && world[i].outcome() is Ok ==> lookup(
            after.state.ledger,
            after.asked[i].call_key()->0,
        ) is Some
    // Nothing that came back is asked for twice.
    &&& forall|i: int, j: int|
        before.asked.len() <= i < j < after.asked.len() && (
        #[trigger] after.asked[i]).call_key() is Some && (#[trigger] after.asked[j]).call_key()
            == after.asked[i].call_key() ==> world[i].outcome()
            is Err
    // What could be rebuilt can still be rebuilt.
    &&& forall|position: u64, base: Seq<(Seq<char>, ValueView)>| #[trigger]
        covers(before.log, position, base, before.state.ledger) ==> covers(
            after.log,
            position,
            base,
            after.state.ledger,
        )
    // Every new checkpoint is enough to rebuild the ledger.
    &&& forall|c: int|
        before.saved.len() <= c < after.saved.len() ==> covers(
            after.log,
            (#[trigger] after.saved[c]).log_position,
            after.saved[c].state.ledger,
            after.state.ledger,
        )
}

/// A moment follows on from itself.
proof fn advances_reflexive(world: Seq<ReplyView>, run: RunView)
    ensures
        advances(world, run, run),
{
}

/// Following on is transitive.
proof fn advances_transitive(world: Seq<ReplyView>, a: RunView, b: RunView, c: RunView)
    requires
        advances(world, a, b),
        advances(world, b, c),
    ensures
        advances(world, a, c),
{
    if is_sound(a) && c.log.len() <= u64::MAX {
        assert(keeps_faith(world, a, b));
        assert(keeps_faith(world, b, c));
        assert forall|key: Seq<char>| #[trigger] lookup(a.state.ledger, key) is Some implies lookup(
            c.state.ledger,
            key,
        ) == lookup(a.state.ledger, key) by {
            assert(lookup(b.state.ledger, key) is Some);
        }
        assert forall|i: int|
            a.asked.len() <= i < c.asked.len() && (#[trigger] c.asked[i]).call_key()
                is Some implies lookup(a.state.ledger, c.asked[i].call_key()->0) is None by {
            let key = c.asked[i].call_key()->0;
            if i < b.asked.len() {
                assert(c.asked[i] == b.asked[i]);
            } else if lookup(a.state.ledger, key) is Some {
                assert(lookup(b.state.ledger, key) is Some);
            }
        }
        assert forall|i: int|
            a.asked.len() <= i < c.asked.len() && (#[trigger] c.asked[i]).call_key() is Some
                && world[i].outcome() is Ok implies lookup(
            c.state.ledger,
            c.asked[i].call_key()->0,
        ) is Some by {
            if i < b.asked.len() {
                assert(c.asked[i] == b.asked[i]);
                assert(lookup(b.state.ledger, c.asked[i].call_key()->0) is Some);
            }
        }
        assert forall|i: int, j: int|
            a.asked.len() <= i < j < c.asked.len() && (#[trigger] c.asked[i]).call_key() is Some
                && (#[trigger] c.asked[j]).call_key()
                == c.asked[i].call_key() implies world[i].outcome() is Err by {
            let key = c.asked[i].call_key()->0;
            if j < b.asked.len() {
                assert(c.asked[i] == b.asked[i] && c.asked[j] == b.asked[j]);
            } else if i < b.asked.len() {
                assert(c.asked[i] == b.asked[i]);
                if world[i].outcome() is Ok {
                    assert(lookup(b.state.ledger, key) is Some);
                    assert(lookup(b.state.ledger, c.asked[j].call_key()->0) is None);
                }
            }
        }
        assert forall|n: int| a.saved.len() <= n < c.saved.len() implies covers(
            c.log,
            (#[trigger] c.saved[n]).log_position,
            c.saved[n].state.ledger,
            c.state.ledger,
        ) by {
            if n < b.saved.len() {
                assert(c.saved[n] == b.saved[n]);
                assert(covers(
                    b.log,
                    b.saved[n].log_position,
                    b.saved[n].state.ledger,
                    b.state.ledger,
                ));
            }
        }
        assert(keeps_faith(world, a, c));
    }
}

/// Folding reads only the entries it is given.
proof fn folding_is_local(
    log: Seq<EventView>,
    longer: Seq<EventView>,
    position: u64,
    base: Seq<(Seq<char>, ValueView)>,
    n: int,
)
    requires
        extends(longer, log),
        0 <= n <= log.len(),
    ensures
        folded(longer, position, base, n) == folded(log, position, base, n),
    decreases n,
{
    if n > 0 {
        folding_is_local(log, longer, position, base, n - 1);
        assert(longer[n - 1] == log[n - 1]);
    }
}

/// What leaves the log, the checkpoints, the requests and the ledger alone
/// breaks nothing.
proof fn quiet_advances(world: Seq<ReplyView>, before: RunView, after: RunView)
    requires
        after.log == before.log,
        after.saved == before.saved,
        after.asked == before.asked,
        after.policy == before.policy,
        after.state.ledger == before.state.ledger,
    ensures
        advances(world, before, after),
{
}

/// A log entry that completes no effect breaks nothing.
proof fn note_advances(
    world: Seq<ReplyView>,
    run: RunView,
    op: Option<OperationId>,
    kind: EventKindView,
)
    requires
        kind.completed() is None,
    ensures
        advances(world, run, run.note(op, kind)),
{
    let after = run.note(op, kind);
    let n = run.log.len() as int;
    assert forall|position: u64, base: Seq<(Seq<char>, ValueView)>| #[trigger]
        covers(run.log, position, base, run.state.ledger) implies covers(
        after.log,
        position,
        base,
        after.state.ledger,
    ) by {
        folding_is_local(run.log, after.log, position, base, n);
        assert(folded(after.log, position, base, n + 1) == folded(
            run.log,
            position,
            base,
            n,
        ));
    }
}

/// Recording a result under a new key and logging it, or logging the result
/// that is already recorded, or one that the ledger does not know of, breaks
/// nothing.
proof fn completion_advances(
    world: Seq<ReplyView>,
    before: RunView,
    after: RunView,
    op: Option<OperationId>,
    kind: EventKindView,
)
    requires
        kind.completed() is Some,
        after.log == appended(before.log, op, kind),
        after.saved == before.saved,
        after.asked == before.asked,
        after.policy == before.policy,
        ({
            let key = kind.completed_key();
            let result = kind.completed_result();
            ||| lookup(before.state.ledger, key) is None && after.state.ledger == insert(
                before.state.ledger,
                key,
                result,
            )
            ||| lookup(before.state.ledger, key) == Some(result) && after.state.ledger
                == before.state.ledger
            ||| lookup(before.state.ledger, key) is None && after.state.ledger
                == before.state.ledger
        }),
    ensures
        advances(world, before, after),
{
    let key = kind.completed_key();
    let result = kind.completed_result();
    let n = before.log.len() as int;
    if is_sound(before) && after.log.len() <= u64::MAX {
        insert_keeps_sorted(before.state.ledger, key, result);
        insert_then_lookup(before.state.ledger, key, result);
        assert forall|k: Seq<char>| #[trigger] lookup(before.state.ledger, k)
            is Some implies lookup(after.state.ledger, k) == lookup(before.state.ledger, k) by {
            if k != key {
                insert_keeps_others(before.state.ledger, key, result, k);
            }
        }
        assert forall|position: u64, base: Seq<(Seq<char>, ValueView)>| #[trigger]
            covers(before.log, position, base, before.state.ledger) implies covers(
            after.log,
            position,
            base,
            after.state.ledger,
        ) by {
            folding_is_local(before.log, after.log, position, base, n);
            let was = folded(before.log, position, base, n);
            let now = folded(after.log, position, base, n + 1);
            assert(after.log[n].sequence >= position);
            assert(now == insert(was, key, result));
            crate::recovery::folding_brings_in_every_effect(before.log, position, base, n);
            insert_then_lookup(was, key, result);
            assert forall|k: Seq<char>| #[trigger] lookup(after.state.ledger, k)
                is Some implies lookup(now, k) == lookup(after.state.ledger, k) by {
                if k != key {
                    insert_keeps_others(was, key, result, k);
                    insert_keeps_others(before.state.ledger, key, result, k);
                    assert(lookup(before.state.ledger, k) is Some);
                }
            }
        }
    }
}

/// Taking a checkpoint breaks nothing.
proof fn checkpoint_advances(world: Seq<ReplyView>, run: RunView)
    ensures
        advances(world, run, run.maybe_checkpoint()),
{
    let every = run.policy.checkpoint_every;
    let after = run.maybe_checkpoint();
    if every == 0 || crate::state::one_more(run.since_checkpoint) < every {
        quiet_advances(world, run, after);
    } else {
        let sequence = crate::execution::next_checkpoint(run.checkpoint_sequence);
        let kind = after.log.last().kind;
        note_advances(world, run, None, kind);
        if is_sound(run) && after.log.len() <= u64::MAX {
            let c = run.saved.len() as int;
            let n = run.log.len() as int;
            assert(after.saved[c].log_position == n);
            assert(after.saved[c].state.ledger == run.state.ledger);
            folding_is_local(run.log, after.log, n as u64, run.state.ledger, n);
            folding_from_the_end(run.log, n as u64, run.state.ledger, n);
            assert(run.note(None, kind).log == after.log);
            assert(keeps_faith(world, run, run.note(None, kind)));
        }
    }
}

/// Entries numbered below the position are left out.
proof fn folding_from_the_end(
    log: Seq<EventView>,
    position: u64,
    base: Seq<(Seq<char>, ValueView)>,
    n: int,
)
    requires
        0 <= n <= log.len(),
        position == log.len(),
        dense(log),
    ensures
        folded(log, position, base, n) == base,
    decreases n,
{
    if n > 0 {
        folding_from_the_end(log, position, base, n - 1);
        assert(log[n - 1].sequence == n - 1);
    }
}

/// Binding values leaves the ledger alone.
proof fn binding_keeps_the_ledger(
    state: StateView,
    ids: Seq<ValueId>,
    values: Seq<ValueView>,
    n: int,
)
    ensures
        state.bind_all(ids, values, n).ledger == state.ledger,
    decreases n,
{
    if n > 0 {
        binding_keeps_the_ledger(state, ids, values, n - 1);
    }
}

/// Binding the results of a step breaks nothing.
proof fn binding_advances(world: Seq<ReplyView>, run: RunView, step: StepView, result: ValueView)
    ensures
        advances(world, run, run.bind_results(step, result)),
        run.bind_results(step, result).state.ledger == run.state.ledger,
{
    let ids = step.results;
    let n = ids.len() as int;
    let nulls = Seq::new(ids.len(), |i: int| ValueView::Null);
    binding_keeps_the_ledger(run.state, ids, nulls, n);
    if let ValueView::List(items) = result {
        binding_keeps_the_ledger(run.state, ids, items, n);
    }
    quiet_advances(world, run, run.bind_results(step, result));
}

/// A request whose key the ledger does not know, and whose result is recorded
/// where one came back, breaks nothing.
proof fn asking_advances(
    world: Seq<ReplyView>,
    before: RunView,
    after: RunView,
    request: RequestView,
)
    requires
        advances(world, before, after),
        after.asked == before.asked,
        request.call_key() matches Some(key) ==> lookup(before.state.ledger, key) is None && (
        world[before.asked.len() as int].outcome() is Ok && is_sound(before)
            && after.log.len() <= u64::MAX ==> lookup(after.state.ledger, key) is Some),
    ensures
        advances(world, before, after.ask(request)),
{
    let asked = after.ask(request);
    if is_sound(before) && asked.log.len() <= u64::MAX {
        assert(keeps_faith(world, before, after));
        assert(keeps_faith(world, before, asked));
    }
}

/// Calling the world breaks nothing where the ledger does not know the key.
proof fn performing_advances(world: Seq<ReplyView>, run: RunView, step: StepView)
    requires
        effective_key(step.idempotency_key, run.path) matches Some(key) ==> lookup(
            run.state.ledger,
            key,
        ) is None,
        !(step.target is Builtin),
    ensures
        advances(world, run, perform(world, run, step).0),
{
    let counted = run.counted(step);
    quiet_advances(world, run, counted);
    if run.is_stuck(step) {
        let kind = run.stopped(step).0.log.last().kind;
        note_advances(world, counted, Some(step.op), kind);
        advances_transitive(world, run, counted, run.stopped(step).0);
    } else {
        let call = run.invocation(step);
        let request = request_of(step.target, call);
        let key = call.idempotency_key;
        let asked = counted.ask(request);
        let reply = world[counted.asked.len() as int].outcome();
        assert(request.call_key() == key);
        match reply {
            Err(error) => {
                let noted = asked.settle(step, key, reply).0;
                let kind = noted.log.last().kind;
                let quiet = counted.note(Some(step.op), kind);
                note_advances(world, counted, Some(step.op), kind);
                asking_advances(world, counted, quiet, request);
                assert(noted == quiet.ask(request));
                advances_transitive(world, run, counted, noted);
            },
            Ok(result) => {
                let kind = EventKindView::Effect {
                    target: crate::execution::target_name(step.target),
                    effect: step.effect.text(),
                    idempotency_key: key,
                    result,
                };
                let recorded = match key {
                    Some(k) => counted.with_state(counted.state.record(k, result)),
                    None => counted,
                };
                let noted = recorded.note(Some(step.op), kind);
                match key {
                    Some(k) => {
                        completion_advances(world, counted, noted, Some(step.op), kind);
                        insert_then_lookup(counted.state.ledger, k, result);
                    },
                    None => {
                        note_advances(world, counted, Some(step.op), kind);
                    },
                }
                asking_advances(world, counted, noted, request);
                let settled = noted.ask(request);
                let bound = settled.bind_results(step, result);
                binding_advances(world, settled, step, result);
                let effected = RunView {
                    effects: crate::state::one_more(bound.effects),
                    ..bound
                };
                quiet_advances(world, bound, effected);
                checkpoint_advances(world, effected);
                advances_transitive(world, run, counted, settled);
                advances_transitive(world, run, settled, bound);
                advances_transitive(world, run, bound, effected);
                advances_transitive(world, run, effected, effected.maybe_checkpoint());
                assert(asked.settle(step, key, reply).0 == effected.maybe_checkpoint());
            },
        }
    }
}

/// Replaying an effect breaks nothing, whether the ledger knew the result or
/// the world did.
proof fn replaying_advances(
    world: Seq<ReplyView>,
    run: RunView,
    step: StepView,
    key: Seq<char>,
    result: ValueView,
)
    requires
        lookup(run.state.ledger, key) is None || lookup(run.state.ledger, key) == Some(result),
    ensures
        advances(world, run, run.replay(step, key, result)),
{
    let kind = EventKindView::EffectReplayed {
        target: crate::execution::target_name(step.target),
        idempotency_key: key,
        result,
    };
    let noted = run.note(Some(step.op), kind);
    completion_advances(world, run, noted, Some(step.op), kind);
    binding_advances(world, noted, step, result);
    advances_transitive(world, run, noted, noted.bind_results(step, result));
    let bound = noted.bind_results(step, result);
    quiet_advances(world, bound, run.replay(step, key, result));
    advances_transitive(world, run, bound, run.replay(step, key, result));
}

/// A step that reaches the world breaks nothing.
proof fn external_advances(world: Seq<ReplyView>, run: RunView, step: StepView)
    requires
        !(step.target is Builtin),
    ensures
        advances(world, run, external_run(world, run, step).0),
{
    match effective_key(step.idempotency_key, run.path) {
        Some(key) => match lookup(run.state.ledger, key) {
            Some(result) => {
                replaying_advances(world, run, step, key, result);
            },
            None => {
                let asked = run.ask(RequestView::Lookup(key));
                advances_reflexive(world, run);
                asking_advances(world, run, run, RequestView::Lookup(key));
                match world[run.asked.len() as int].known() {
                    Some(result) => {
                        replaying_advances(world, asked, step, key, result);
                        advances_transitive(
                            world,
                            run,
                            asked,
                            asked.replay(step, key, result),
                        );
                    },
                    None => {
                        performing_advances(world, asked, step);
                        advances_transitive(world, run, asked, perform(world, asked, step).0);
                    },
                }
            },
        },
        None => {
            performing_advances(world, run, step);
        },
    }
}

/// An operation of the runtime itself breaks nothing.
proof fn simple_advances(
    world: Seq<ReplyView>,
    run: RunView,
    step: StepView,
    builtin: crate::plan::Builtin,
)
    ensures
        advances(world, run, simple_run(run, step, builtin).0),
{
    let after = simple_run(run, step, builtin).0;
    match computed(run, step, builtin) {
        Some(Ok(value)) => {
            binding_advances(world, run, step, value);
        },
        Some(Err(_)) => {
            advances_reflexive(world, run);
        },
        None => {
            if builtin == crate::plan::Builtin::RecordError {
                note_advances(world, run, Some(step.op), after.log.last().kind);
            } else {
                quiet_advances(world, run, after);
            }
        },
    }
}

/// Binding what a region yields breaks nothing.
proof fn region_advances(world: Seq<ReplyView>, run: RunView, ran: Ran, step: StepView)
    requires
        advances(world, run, ran.0),
    ensures
        advances(world, run, region_done(ran, step).0),
{
    if let (ended, Ok(FlowView::Yield(values))) = ran {
        let n = if step.results.len() <= values.len() {
            step.results.len() as int
        } else {
            values.len() as int
        };
        binding_keeps_the_ledger(ended.state, step.results, values, n);
        quiet_advances(world, ended, region_done(ran, step).0);
        advances_transitive(world, run, ended, region_done(ran, step).0);
    }
}

/// Running a plan breaks nothing.
pub proof fn plan_advances(world: Seq<ReplyView>, run: RunView, plan: PlanView)
    ensures
        advances(world, run, plan_run(world, run, plan).0),
    decreases plan, 0int, 0int,
{
    batches_advance(world, run, plan.batches, 0);
}

proof fn batches_advance(
    world: Seq<ReplyView>,
    run: RunView,
    batches: Seq<Seq<StepView>>,
    i: int,
)
    ensures
        advances(world, run, batches_run(world, run, batches, i).0),
    decreases batches, 0int, batches.len() - i,
{
    if i < 0 || i >= batches.len() {
        advances_reflexive(world, run);
    } else {
        assert(decreases_to!(batches => batches[i]));
        batch_advances(world, run, batches[i], 0);
        let (next, flow) = batch_run(world, run, batches[i], 0);
        batches_advance(world, next, batches, i + 1);
        if flow == Ok::<FlowView, crate::execution::RuntimeErrorView>(FlowView::Continue) {
            advances_transitive(world, run, next, batches_run(world, next, batches, i + 1).0);
        }
    }
}

proof fn batch_advances(world: Seq<ReplyView>, run: RunView, steps: Seq<StepView>, j: int)
    ensures
        advances(world, run, batch_run(world, run, steps, j).0),
    decreases steps, 0int, steps.len() - j,
{
    if j < 0 || j >= steps.len() {
        advances_reflexive(world, run);
    } else {
        assert(decreases_to!(steps => steps[j]));
        step_advances(world, run, steps[j]);
        let (next, flow) = step_run(world, run, steps[j]);
        batch_advances(world, next, steps, j + 1);
        if flow == Ok::<FlowView, crate::execution::RuntimeErrorView>(FlowView::Continue) {
            advances_transitive(world, run, next, batch_run(world, next, steps, j + 1).0);
        }
    }
}

/// Running a step breaks nothing.
pub proof fn step_advances(world: Seq<ReplyView>, run: RunView, step: StepView)
    ensures
        advances(world, run, step_run(world, run, step).0),
    decreases step, 0int, 0int,
{
    advances_reflexive(world, run);
    match step.target {
        TargetView::Builtin(builtin) => {
            if is_control(builtin) {
                match step.control {
                    None => {},
                    Some(control) => match control {
                        ControlView::If { taken, otherwise } => {
                            plan_advances(world, run, taken);
                            region_advances(world, run, plan_run(world, run, taken), step);
                            if let Some(plan) = otherwise {
                                plan_advances(world, run, plan);
                                region_advances(world, run, plan_run(world, run, plan), step);
                            }
                        },
                        ControlView::Loop { binding, max_iterations, body } => {
                            loop_advances(
                                world,
                                run,
                                binding,
                                body,
                                items_of(run.operand(step, 0)),
                                0,
                            );
                        },
                        ControlView::While { .. } => {
                            while_advances(world, run, control, 0);
                        },
                        ControlView::Parallel { body } => {
                            plan_advances(world, run, body);
                            region_advances(world, run, plan_run(world, run, body), step);
                        },
                    },
                }
            } else {
                simple_advances(world, run, step, builtin);
            }
        },
        _ => {
            external_advances(world, run, step);
        },
    }
}

proof fn loop_advances(
    world: Seq<ReplyView>,
    run: RunView,
    binding: Option<ValueId>,
    body: PlanView,
    items: Seq<ValueView>,
    k: int,
)
    ensures
        advances(world, run, loop_run(world, run, binding, body, items, k).0),
    decreases body, 1int, items.len() - k,
{
    if k < 0 || k >= items.len() {
        advances_reflexive(world, run);
    } else {
        let bound = match binding {
            Some(id) => run.with_state(run.state.bind(id, items[k])),
            None => run,
        };
        let entered = bound.enter(k as u64);
        quiet_advances(world, run, entered);
        plan_advances(world, entered, body);
        let (ended, flow) = plan_run(world, entered, body);
        let next = ended.leave(run.path);
        quiet_advances(world, ended, next);
        advances_transitive(world, run, entered, ended);
        advances_transitive(world, run, ended, next);
        if !body_stops(flow) {
            loop_advances(world, next, binding, body, items, k + 1);
            advances_transitive(
                world,
                run,
                next,
                loop_run(world, next, binding, body, items, k + 1).0,
            );
        }
    }
}

proof fn while_advances(world: Seq<ReplyView>, run: RunView, control: ControlView, k: int)
    ensures
        advances(world, run, while_run(world, run, control, k).0),
    decreases control, 1int, control->While_max_iterations - k,
{
    advances_reflexive(world, run);
    if let ControlView::While { condition, max_iterations, body } = control {
        if 0 <= k < max_iterations {
            let opened = run.enter(k as u64);
            quiet_advances(world, run, opened);
            plan_advances(world, opened, condition);
            let (tested, verdict) = plan_run(world, opened, condition);
            let closed = tested.leave(run.path);
            quiet_advances(world, tested, closed);
            advances_transitive(world, run, opened, tested);
            advances_transitive(world, run, tested, closed);
            if while_ends(verdict) is None {
                let entered = closed.enter(k as u64);
                quiet_advances(world, closed, entered);
                plan_advances(world, entered, body);
                let (ended, flow) = plan_run(world, entered, body);
                let next = ended.leave(run.path);
                quiet_advances(world, ended, next);
                advances_transitive(world, run, closed, entered);
                advances_transitive(world, run, entered, ended);
                advances_transitive(world, run, ended, next);
                if !body_stops(flow) && k + 1 != max_iterations {
                    while_advances(world, next, control, k + 1);
                    advances_transitive(
                        world,
                        run,
                        next,
                        while_run(world, next, control, k + 1).0,
                    );
                }
            }
        }
    }
}

/// Running a function breaks nothing.
pub proof fn function_advances(
    world: Seq<ReplyView>,
    run: RunView,
    plan: ExecutionPlanView,
    arguments: Seq<ValueView>,
)
    ensures
        advances(world, run, function_run(world, run, plan, arguments).0),
{
    let begun = started(run, plan, arguments);
    let n = if plan.parameters.len() <= arguments.len() {
        plan.parameters.len() as int
    } else {
        arguments.len() as int
    };
    binding_keeps_the_ledger(run.state, plan.parameters, arguments, n);
    let bound = RunView {
        version: plan.version,
        state: run.state.bind_all(plan.parameters, arguments, n),
        ..run
    };
    quiet_advances(world, run, bound);
    note_advances(
        world,
        bound,
        None,
        EventKindView::Started { function: plan.function, version: plan.version },
    );
    advances_transitive(world, run, bound, begun);
    plan_advances(world, begun, plan.plan);
    let (ended, flow) = plan_run(world, begun, plan.plan);
    advances_transitive(world, run, begun, ended);
    if let Ok(f) = flow {
        let result = crate::execution::returned(f);
        note_advances(world, ended, None, EventKindView::Finished { result });
        advances_transitive(
            world,
            run,
            ended,
            ended.note(None, EventKindView::Finished { result }),
        );
    }
}

/// The log is append-only: whatever a run does, every earlier entry and every
/// earlier checkpoint stands as it was, and sequence numbers stay dense.
pub proof fn a_run_only_appends(
    world: Seq<ReplyView>,
    run: RunView,
    plan: ExecutionPlanView,
    arguments: Seq<ValueView>,
)
    ensures
        ({
            let after = function_run(world, run, plan, arguments).0;
            &&& extends(after.log, run.log)
            &&& extends(after.saved, run.saved)
            &&& extends(after.asked, run.asked)
            &&& is_sound(run) && after.log.len() <= u64::MAX ==> is_sound(after)
        }),
{
    function_advances(world, run, plan, arguments);
}

/// An effect that the ledger knows is not performed: no call of a run that
/// reaches the world carries a key that was recorded when it began, and what
/// was recorded stays recorded with the same result.
pub proof fn a_recorded_effect_is_not_repeated(
    world: Seq<ReplyView>,
    run: RunView,
    plan: ExecutionPlanView,
    arguments: Seq<ValueView>,
    before: Dealings,
    after: Dealings,
    key: Seq<char>,
)
    requires
        is_sound(run),
        function_run(world, run, plan, arguments).0.log.len() <= u64::MAX,
        told(before, after, world, run, function_run(world, run, plan, arguments).0),
        lookup(run.state.ledger, key) is Some,
    ensures
        forall|k: int|
            before.exchanges.len() <= k < after.exchanges.len() ==> (
            #[trigger] after.exchanges[k]).request.call_key() != Some(key),
        lookup(function_run(world, run, plan, arguments).0.state.ledger, key) == lookup(
            run.state.ledger,
            key,
        ),
{
    function_advances(world, run, plan, arguments);
    let ended = function_run(world, run, plan, arguments).0;
    assert(keeps_faith(world, run, ended));
    assert forall|k: int| before.exchanges.len() <= k < after.exchanges.len() implies (
    #[trigger] after.exchanges[k]).request.call_key() != Some(key) by {
        let (i, _) = told_in_order(before, after, world, run, ended, k, k);
        assert(after.exchanges[k].request == ended.asked[i]);
    }
}

/// No effect happens twice: of two calls of one run that reach the world under
/// the same key, the first did not come back.
pub proof fn no_effect_happens_twice(
    world: Seq<ReplyView>,
    run: RunView,
    plan: ExecutionPlanView,
    arguments: Seq<ValueView>,
    before: Dealings,
    after: Dealings,
    k: int,
    l: int,
)
    requires
        is_sound(run),
        function_run(world, run, plan, arguments).0.log.len() <= u64::MAX,
        told(before, after, world, run, function_run(world, run, plan, arguments).0),
        before.exchanges.len() <= k < l < after.exchanges.len(),
        after.exchanges[k].request.call_key() is Some,
        after.exchanges[l].request.call_key() == after.exchanges[k].request.call_key(),
    ensures
        after.exchanges[k].reply.outcome() is Err,
{
    function_advances(world, run, plan, arguments);
    let ended = function_run(world, run, plan, arguments).0;
    assert(keeps_faith(world, run, ended));
    let (i, j) = told_in_order(before, after, world, run, ended, k, l);
    assert(ended.asked[i].call_key() is Some);
    assert(ended.asked[j].call_key() == ended.asked[i].call_key());
}

/// A crash loses nothing: wherever a run stops, resuming from the last
/// checkpoint and the log tail gives back every result in its ledger — provided
/// the same was true when it began, as it is of a first run and of a resumed
/// one.
pub proof fn a_crash_loses_nothing(
    world: Seq<ReplyView>,
    run: RunView,
    plan: ExecutionPlanView,
    arguments: Seq<ValueView>,
)
    requires
        is_sound(run),
        function_run(world, run, plan, arguments).0.log.len() <= u64::MAX,
        recoverable(run),
    ensures
        recoverable(function_run(world, run, plan, arguments).0),
{
    function_advances(world, run, plan, arguments);
    let after = function_run(world, run, plan, arguments).0;
    assert(keeps_faith(world, run, after));
    let n = after.saved.len() as int;
    if n > run.saved.len() {
        assert(covers(
            after.log,
            after.saved[n - 1].log_position,
            after.saved[n - 1].state.ledger,
            after.state.ledger,
        ));
    } else {
        assert(after.saved =~= run.saved);
    }
}

/// No write is repeated after a crash: where a run stopped, and a second one
/// begins with the ledger rebuilt from what the first stored and logged, no
/// call that reached the world and came back in the first reaches it again in
/// the second. The second run may be of any plan, in any world.
pub proof fn a_resumed_run_repeats_nothing(
    world: Seq<ReplyView>,
    run: RunView,
    plan: ExecutionPlanView,
    arguments: Seq<ValueView>,
    before: Dealings,
    after: Dealings,
    k: int,
    world2: Seq<ReplyView>,
    run2: RunView,
    plan2: ExecutionPlanView,
    arguments2: Seq<ValueView>,
    before2: Dealings,
    after2: Dealings,
    l: int,
)
    requires
        is_sound(run),
        recoverable(run),
        is_sound(run2),
        function_run(world, run, plan, arguments).0.log.len() <= u64::MAX,
        function_run(world2, run2, plan2, arguments2).0.log.len() <= u64::MAX,
        ({
            let first = function_run(world, run, plan, arguments).0;
            let (state, position) = resumed_from(first.saved);
            run2.state.ledger == folded(
                first.log,
                position,
                state.ledger,
                first.log.len() as int,
            )
        }),
        told(before, after, world, run, function_run(world, run, plan, arguments).0),
        told(before2, after2, world2, run2, function_run(world2, run2, plan2, arguments2).0),
        before.exchanges.len() <= k < after.exchanges.len(),
        after.exchanges[k].request.call_key() is Some,
        after.exchanges[k].reply.outcome() is Ok,
        before2.exchanges.len() <= l < after2.exchanges.len(),
    ensures
        after2.exchanges[l].request.call_key() != after.exchanges[k].request.call_key(),
{
    function_advances(world, run, plan, arguments);
    a_crash_loses_nothing(world, run, plan, arguments);
    let first = function_run(world, run, plan, arguments).0;
    assert(keeps_faith(world, run, first));
    let (i, _) = told_in_order(before, after, world, run, first, k, k);
    let key = first.asked[i].call_key()->0;
    assert(lookup(first.state.ledger, key) is Some);
    assert(lookup(run2.state.ledger, key) is Some);
    a_recorded_effect_is_not_repeated(
        world2,
        run2,
        plan2,
        arguments2,
        before2,
        after2,
        key,
    );
}

/// Whether resuming from what a run has stored and logged gives back every
/// result in its ledger.
pub open spec fn recoverable(run: RunView) -> bool {
    let (state, position) = resumed_from(run.saved);
    covers(run.log, position, state.ledger, run.state.ledger)
}

/// A run that begins with an empty ledger and stores of its own can be
/// recovered.
pub proof fn a_first_run_is_recoverable(run: RunView)
    requires
        run.saved.len() == 0,
        run.state.ledger.len() == 0,
    ensures
        recoverable(run),
{
}

/// A run that begins with the ledger that a resume rebuilt can be recovered
/// again.
pub proof fn a_resumed_run_is_recoverable(run: RunView)
    requires
        ({
            let (state, position) = resumed_from(run.saved);
            &&& sorted(keys(state.ledger))
            &&& position <= run.log.len()
            &&& run.state.ledger == folded(
                run.log,
                position,
                state.ledger,
                run.log.len() as int,
            )
        }),
    ensures
        recoverable(run),
        sorted(keys(run.state.ledger)),
{
    let (state, position) = resumed_from(run.saved);
    crate::recovery::folding_brings_in_every_effect(
        run.log,
        position,
        state.ledger,
        run.log.len() as int,
    );
}

/// A character of an iteration path: a digit or the dot between two numbers.
spec fn is_path_char(c: char) -> bool {
    '0' <= c <= '9' || c == '.'
}

/// The text of a path holds digits and dots only, and past its start it is
/// empty or begins with a dot.
proof fn path_characters(path: Seq<u64>, i: int)
    requires
        0 <= i,
    ensures
        forall|k: int|
            0 <= k < path_text(path, i).len() ==> is_path_char(#[trigger] path_text(path, i)[k]),
        i > 0 && i < path.len() ==> path_text(path, i).len() > 0 && path_text(path, i)[0] == '.',
        i < path.len() ==> path_text(path, i).len() > 0,
    decreases path.len() - i,
{
    reveal_strlit(".");
    if i < path.len() {
        path_characters(path, i + 1);
        decimals(path[i] as nat);
        nat_text_length(path[i] as nat);
        let lead = if i > 0 {
            "."@
        } else {
            Seq::empty()
        };
        let digits = nat_text(path[i] as nat);
        let rest = path_text(path, i + 1);
        assert(path_text(path, i) == lead + digits + rest);
        assert forall|k: int| 0 <= k < path_text(path, i).len() implies is_path_char(
            #[trigger] path_text(path, i)[k],
        ) by {
            if k < lead.len() {
                assert(path_text(path, i)[k] == lead[k]);
            } else if k < lead.len() + digits.len() {
                assert(path_text(path, i)[k] == digits[k - lead.len()]);
            } else {
                assert(path_text(path, i)[k] == rest[k - lead.len() - digits.len()]);
            }
        }
    }
}

/// A number can be read off the front of a text that goes on with a dot or
/// ends.
proof fn numbers_split(a: nat, x: Seq<char>, b: nat, y: Seq<char>)
    requires
        nat_text(a) + x == nat_text(b) + y,
        x.len() > 0 ==> x[0] == '.',
        y.len() > 0 ==> y[0] == '.',
    ensures
        a == b,
        x == y,
{
    let s = nat_text(a);
    let t = nat_text(b);
    decimals(a);
    decimals(b);
    if s.len() < t.len() {
        assert((t + y)[s.len() as int] == t[s.len() as int]);
        assert((s + x).len() > s.len());
        assert((s + x)[s.len() as int] == x[0]);
    } else if t.len() < s.len() {
        assert((s + x)[t.len() as int] == s[t.len() as int]);
        assert((t + y)[t.len() as int] == y[0]);
    }
    assert(s =~= (s + x).take(s.len() as int));
    assert(t =~= (t + y).take(s.len() as int));
    assert(x =~= (s + x).skip(s.len() as int));
    assert(y =~= (t + y).skip(s.len() as int));
    nat_text_injective(a, b);
}

/// Two paths with the same text from a position on agree from there on.
proof fn path_text_injective(p: Seq<u64>, q: Seq<u64>, i: int)
    requires
        0 <= i <= p.len(),
        i <= q.len(),
        path_text(p, i) == path_text(q, i),
    ensures
        p.len() == q.len(),
        forall|k: int| i <= k < p.len() ==> p[k] == q[k],
    decreases p.len() - i,
{
    path_characters(p, i);
    path_characters(q, i);
    if i < p.len() {
        assert(i < q.len());
        let lead = if i > 0 {
            "."@
        } else {
            Seq::empty()
        };
        let x = path_text(p, i + 1);
        let y = path_text(q, i + 1);
        path_characters(p, i + 1);
        path_characters(q, i + 1);
        let s = nat_text(p[i] as nat);
        let t = nat_text(q[i] as nat);
        assert(path_text(p, i) == lead + s + x);
        assert(path_text(q, i) == lead + t + y);
        assert(s + x =~= (lead + s + x).skip(lead.len() as int));
        assert(t + y =~= (lead + t + y).skip(lead.len() as int));
        if i + 1 >= p.len() {
            assert(x.len() == 0);
        }
        if i + 1 >= q.len() {
            assert(y.len() == 0);
        }
        numbers_split(p[i] as nat, x, q[i] as nat, y);
        path_text_injective(p, q, i + 1);
    }
}

/// An idempotency key names an invocation: two invocations have the same key
/// only where it is the same operation's, in the same loop iterations.
pub proof fn keys_name_invocations(k: Seq<char>, p: Seq<u64>, l: Seq<char>, q: Seq<u64>)
    requires
        invocation_key(k, p) == invocation_key(l, q),
    ensures
        k == l,
        p == q,
{
    reveal_strlit("@");
    let s = path_text(p, 0);
    let t = path_text(q, 0);
    let a = invocation_key(k, p);
    let b = invocation_key(l, q);
    path_characters(p, 0);
    path_characters(q, 0);
    assert(a.len() == k.len() + 1 + s.len());
    assert(b.len() == l.len() + 1 + t.len());
    assert(a[k.len() as int] == '@');
    assert(b[l.len() as int] == '@');
    if k.len() < l.len() {
        assert(a[l.len() as int] == s[l.len() - k.len() - 1]);
        assert(is_path_char(s[l.len() - k.len() - 1]));
    } else if l.len() < k.len() {
        assert(b[k.len() as int] == t[k.len() - l.len() - 1]);
        assert(is_path_char(t[k.len() - l.len() - 1]));
    }
    assert(k =~= a.take(k.len() as int));
    assert(l =~= b.take(k.len() as int));
    assert(s =~= a.skip((k.len() + 1) as int));
    assert(t =~= b.skip((k.len() + 1) as int));
    path_text_injective(p, q, 0);
    assert(p =~= q);
}

} // verus!
