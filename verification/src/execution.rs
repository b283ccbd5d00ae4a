//! What running a lowered plan does.
//!
//! The runtime reaches the world only by asking it, and the world may answer
//! anything. What a run does is therefore stated as a function of the plan, of
//! where the run stands, and of the answers it gets: `world` holds one answer
//! per request, in the order the requests are made. The executor is proved to
//! do exactly this for the answers it was given.

use vstd::prelude::*;

use crate::assoc::{insert, lookup};
use crate::env::{EnvErrorView, InvocationView, ReplyView, RequestView};
use crate::event::{appended, EventKindView, EventView};
use crate::ids::{OperationId, ValueId};
use crate::number::{number_eq, number_lt};
use crate::plan::{
    Builtin, ControlView, ExecutionPlanView, MemoryOp, PlanView, StepView, TargetView,
};
use crate::state::{one_more, seen, CheckpointView, StateView};
use crate::text::{int_text, nat_text};
use crate::value::{record_of, value_of, values_equal, ValueView};

verus! {

/// What the runtime does when a loop guard fires.
#[derive(Clone, Copy, Debug, PartialEq, Eq, Structural)]
pub enum LoopGuardAction {
    /// Pause and try again. The reference executor has no scheduler to pause
    /// on, so it stops and reports; a production runtime would back off.
    RetryWithBackoff,
    /// Give up on this strategy and hand control back to the builder.
    ChangeStrategy,
    /// Stop and ask a person.
    HumanReview,
}

impl LoopGuardAction {
    /// The printed form of the action.
    pub open spec fn text(self) -> Seq<char> {
        match self {
            LoopGuardAction::RetryWithBackoff => "RETRY_WITH_BACKOFF"@,
            LoopGuardAction::ChangeStrategy => "CHANGE_STRATEGY"@,
            LoopGuardAction::HumanReview => "HUMAN_REVIEW"@,
        }
    }

    /// The printed form of the action.
    pub fn to_string(&self) -> (r: String)
        ensures
            r@ == self.text(),
    {
        match self {
            LoopGuardAction::RetryWithBackoff => "RETRY_WITH_BACKOFF".to_string(),
            LoopGuardAction::ChangeStrategy => "CHANGE_STRATEGY".to_string(),
            LoopGuardAction::HumanReview => "HUMAN_REVIEW".to_string(),
        }
    }
}

/// The durability knobs.
#[derive(Clone, Copy, Debug, PartialEq, Eq, Structural)]
pub struct RuntimePolicy {
    /// How many completed effects between checkpoints. Zero disables them.
    pub checkpoint_every: usize,
    /// How many identical repetitions of an action before the guard fires.
    pub repeat_threshold: usize,
    /// What the guard does when it fires.
    pub on_loop_guard: LoopGuardAction,
}

impl RuntimePolicy {
    /// The policy used where none is given.
    pub open spec fn usual() -> RuntimePolicy {
        RuntimePolicy {
            checkpoint_every: 8,
            repeat_threshold: 16,
            on_loop_guard: LoopGuardAction::HumanReview,
        }
    }
}

impl Default for RuntimePolicy {
    fn default() -> (r: RuntimePolicy)
        ensures
            r == RuntimePolicy::usual(),
    {
        RuntimePolicy {
            checkpoint_every: 8,
            repeat_threshold: 16,
            on_loop_guard: LoopGuardAction::HumanReview,
        }
    }
}

/// Why an execution stopped early.
#[verifier::ext_equal]
pub ghost enum RuntimeErrorView {
    Environment(EnvErrorView),
    LoopGuard { target: Seq<char>, repeats: usize, action: LoopGuardAction },
    IterationLimit { limit: i64 },
    Type(Seq<char>),
    Unsupported(Seq<char>),
}

impl RuntimeErrorView {
    /// The printed form of the failure.
    pub open spec fn text(self) -> Seq<char> {
        match self {
            RuntimeErrorView::Environment(error) => error.text(),
            RuntimeErrorView::LoopGuard { target, repeats, action } => "loop guard: `"@ + target
                + "` repeated identically "@ + nat_text(repeats as nat) + " times, taking "@
                + action.text(),
            RuntimeErrorView::IterationLimit { limit } =>
                "a loop exceeded its declared bound of "@ + int_text(limit as int)
                + " iterations"@,
            RuntimeErrorView::Type(message) => "type error at run time: "@ + message,
            RuntimeErrorView::Unsupported(what) => "unsupported: "@ + what,
        }
    }
}

/// Where control went after a step or a plan.
#[verifier::ext_equal]
pub ghost enum FlowView {
    Continue,
    Return(Seq<ValueView>),
    Yield(Seq<ValueView>),
}

/// Whether `world` begins with the answers in `heard`.
pub open spec fn begins_with(world: Seq<ReplyView>, heard: Seq<ReplyView>) -> bool {
    &&& heard.len() <= world.len()
    &&& forall|i: int| 0 <= i < heard.len() ==> #[trigger] world[i] == heard[i]
}

/// Where a run stands.
#[verifier::ext_equal]
pub ghost struct RunView {
    /// The operational state.
    pub state: StateView,
    /// What has been logged.
    pub log: Seq<EventView>,
    /// The checkpoints stored.
    pub saved: Seq<CheckpointView>,
    /// What the world has been asked.
    pub asked: Seq<RequestView>,
    /// The durability policy.
    pub policy: RuntimePolicy,
    /// The IR version being run.
    pub version: u64,
    /// How many effects reached the world.
    pub effects: usize,
    /// How many effects were skipped because their key was recorded.
    pub replayed: usize,
    /// How many effects completed since the last checkpoint.
    pub since_checkpoint: usize,
    /// How many checkpoints were taken.
    pub checkpoint_sequence: u64,
    /// The loop iterations currently open, outermost first.
    pub path: Seq<u64>,
}

/// Where a run stands once a step or a plan is done, and where control goes.
pub type Ran = (RunView, Result<FlowView, RuntimeErrorView>);

/// One more checkpoint, up to what its number can hold.
pub open spec fn next_checkpoint(sequence: u64) -> u64 {
    if sequence < u64::MAX {
        (sequence + 1) as u64
    } else {
        sequence
    }
}

impl RunView {
    /// The run with one more entry in the log.
    pub open spec fn note(self, op: Option<OperationId>, kind: EventKindView) -> RunView {
        RunView { log: appended(self.log, op, kind), ..self }
    }

    /// The run with another state.
    pub open spec fn with_state(self, state: StateView) -> RunView {
        RunView { state, ..self }
    }

    /// The run once the world was asked something.
    pub open spec fn ask(self, request: RequestView) -> RunView {
        RunView { asked: self.asked.push(request), ..self }
    }

    /// The run inside one more loop iteration.
    pub open spec fn enter(self, iteration: u64) -> RunView {
        RunView { path: self.path.push(iteration), ..self }
    }

    /// The run back at an enclosing path.
    pub open spec fn leave(self, path: Seq<u64>) -> RunView {
        RunView { path, ..self }
    }

    /// The run with the results of a step bound: one result takes the value,
    /// several take the items of a list of the same length, and are bound to
    /// nothing meaningful when the value has another shape.
    pub open spec fn bind_results(self, step: StepView, result: ValueView) -> RunView {
        let ids = step.results;
        self.with_state(
            if ids.len() == 0 {
                self.state
            } else if ids.len() == 1 {
                self.state.bind(ids[0], result)
            } else {
                match result {
                    ValueView::List(items) if items.len() == ids.len() => self.state.bind_all(
                        ids,
                        items,
                        ids.len() as int,
                    ),
                    _ => self.state.bind_all(
                        ids,
                        Seq::new(ids.len(), |i: int| ValueView::Null),
                        ids.len() as int,
                    ),
                }
            },
        )
    }

    /// The value of the operand at a position, or nothing meaningful where
    /// there is none.
    pub open spec fn operand(self, step: StepView, index: int) -> ValueView {
        if 0 <= index < step.operands.len() {
            self.state.get_or_null(step.operands[index])
        } else {
            ValueView::Null
        }
    }

    /// The values of all operands.
    pub open spec fn operands(self, step: StepView) -> Seq<ValueView> {
        Seq::new(step.operands.len(), |i: int| self.state.get_or_null(step.operands[i]))
    }

    /// The request a step makes, under the key of this invocation.
    pub open spec fn invocation(self, step: StepView) -> InvocationView {
        InvocationView {
            target: target_name(step.target),
            args: self.operands(step),
            attributes: record_of(step.attributes),
            effect: step.effect,
            idempotency_key: effective_key(step.idempotency_key, self.path),
        }
    }

    /// The run after a completed effect was counted, with a checkpoint taken
    /// when one is due. The snapshot is taken whole, then logged: a reader of
    /// the log never sees a checkpoint that does not exist in the store.
    pub open spec fn maybe_checkpoint(self) -> RunView {
        let every = self.policy.checkpoint_every;
        if every == 0 {
            self
        } else if one_more(self.since_checkpoint) < every {
            RunView { since_checkpoint: one_more(self.since_checkpoint), ..self }
        } else {
            let sequence = next_checkpoint(self.checkpoint_sequence);
            (RunView {
                since_checkpoint: 0,
                checkpoint_sequence: sequence,
                saved: self.saved.push(
                    CheckpointView {
                        sequence,
                        log_position: self.log.len() as u64,
                        version: self.version,
                        state: self.state,
                    },
                ),
                ..self
            }).note(
                None,
                EventKindView::Checkpoint { sequence, effects: self.state.ledger.len() as usize },
            )
        }
    }

    /// The run after an effect was skipped because its key is recorded.
    pub open spec fn replay(self, step: StepView, key: Seq<char>, result: ValueView) -> RunView {
        let logged = self.note(
            Some(step.op),
            EventKindView::EffectReplayed {
                target: target_name(step.target),
                idempotency_key: key,
                result,
            },
        ).bind_results(step, result);
        RunView { replayed: one_more(logged.replayed), ..logged }
    }

    /// The run after an effect came back from the world.
    pub open spec fn settle(
        self,
        step: StepView,
        key: Option<Seq<char>>,
        outcome: Result<ValueView, EnvErrorView>,
    ) -> Ran {
        match outcome {
            Err(error) => (
                self.note(
                    Some(step.op),
                    EventKindView::Failed {
                        target: target_name(step.target),
                        error: error.text(),
                    },
                ),
                Err(RuntimeErrorView::Environment(error)),
            ),
            Ok(result) => {
                let recorded = match key {
                    Some(key) => self.with_state(self.state.record(key, result)),
                    None => self,
                };
                let bound = recorded.note(
                    Some(step.op),
                    EventKindView::Effect {
                        target: target_name(step.target),
                        effect: step.effect.text(),
                        idempotency_key: key,
                        result,
                    },
                ).bind_results(step, result);
                (
                    (RunView { effects: one_more(bound.effects), ..bound }).maybe_checkpoint(),
                    Ok(FlowView::Continue),
                )
            },
        }
    }

    /// How often the action of a step has now been seen with these arguments.
    pub open spec fn repeats(self, step: StepView) -> usize {
        one_more(seen(self.state.repeats, self.signature(step)))
    }

    /// What identifies an action: its target and its arguments.
    pub open spec fn signature(self, step: StepView) -> Seq<char> {
        target_name(step.target) + "|"@ + prints(self.operands(step), 0)
    }

    /// The run after an action was counted.
    pub open spec fn counted(self, step: StepView) -> RunView {
        self.with_state(self.state.count_repeat(self.signature(step)))
    }

    /// Whether an action has repeated past the threshold.
    pub open spec fn is_stuck(self, step: StepView) -> bool {
        self.repeats(step) > self.policy.repeat_threshold
    }

    /// The run after the loop guard stopped an action.
    pub open spec fn stopped(self, step: StepView) -> Ran {
        (
            self.counted(step).note(
                Some(step.op),
                EventKindView::LoopGuard {
                    target: target_name(step.target),
                    repeats: self.repeats(step),
                    action: self.policy.on_loop_guard.text(),
                },
            ),
            Err(
                RuntimeErrorView::LoopGuard {
                    target: target_name(step.target),
                    repeats: self.repeats(step),
                    action: self.policy.on_loop_guard,
                },
            ),
        )
    }
}

/// The stable renderings of the values from position `i` on.
pub open spec fn prints(values: Seq<ValueView>, i: int) -> Seq<char>
    decreases values.len() - i,
{
    if i < 0 || i >= values.len() {
        Seq::empty()
    } else {
        (if i > 0 {
            ","@
        } else {
            Seq::empty()
        }) + values[i].print() + prints(values, i + 1)
    }
}

/// What a step addresses: a tool, a model, a memory key, or an operation of the
/// runtime itself.
pub open spec fn target_name(target: TargetView) -> Seq<char> {
    match target {
        TargetView::ToolCall { tool } => tool,
        TargetView::Inference { model, .. } => model,
        TargetView::Memory { key, .. } => match key {
            Some(key) => key,
            None => Seq::empty(),
        },
        TargetView::Builtin(builtin) => builtin.text(),
    }
}

/// The request that a step's target makes of the world.
pub open spec fn request_of(target: TargetView, call: InvocationView) -> RequestView {
    match target {
        TargetView::ToolCall { .. } => RequestView::Tool(call),
        TargetView::Inference { .. } => RequestView::Infer(call),
        TargetView::Memory { operation, .. } => match operation {
            MemoryOp::Read => RequestView::Read(call),
            MemoryOp::Write => RequestView::Write(call),
            MemoryOp::Search => RequestView::Search(call),
        },
        TargetView::Builtin(_) => arbitrary(),
    }
}

/// The open iterations from position `i` on, separated by dots.
pub open spec fn path_text(path: Seq<u64>, i: int) -> Seq<char>
    decreases path.len() - i,
{
    if i < 0 || i >= path.len() {
        Seq::empty()
    } else {
        (if i > 0 {
            "."@
        } else {
            Seq::empty()
        }) + nat_text(path[i] as nat) + path_text(path, i + 1)
    }
}

/// The key that identifies one invocation: the key of the operation, and the
/// loop iterations it runs in.
pub open spec fn invocation_key(key: Seq<char>, path: Seq<u64>) -> Seq<char> {
    key + "@"@ + path_text(path, 0)
}

/// The key that identifies this invocation, where the operation has one.
pub open spec fn effective_key(key: Option<Seq<char>>, path: Seq<u64>) -> Option<Seq<char>> {
    match key {
        Some(key) => Some(invocation_key(key, path)),
        None => None,
    }
}

/// Several values as one.
pub open spec fn single(values: Seq<ValueView>) -> ValueView {
    if values.len() == 0 {
        ValueView::Null
    } else if values.len() == 1 {
        values[0]
    } else {
        ValueView::List(values)
    }
}

/// What comparing two values gives.
pub open spec fn compared(predicate: Seq<char>, left: ValueView, right: ValueView) -> Result<
    ValueView,
    RuntimeErrorView,
> {
    if predicate == "eq"@ {
        Ok(ValueView::Bool(values_equal(left, right)))
    } else if predicate == "ne"@ {
        Ok(ValueView::Bool(!values_equal(left, right)))
    } else {
        match (left.number_payload(), right.number_payload()) {
            (Some(a), Some(b)) => if predicate == "lt"@ {
                Ok(ValueView::Bool(number_lt(a, b)))
            } else if predicate == "le"@ {
                Ok(ValueView::Bool(number_lt(a, b) || number_eq(a, b)))
            } else if predicate == "gt"@ {
                Ok(ValueView::Bool(number_lt(b, a)))
            } else if predicate == "ge"@ {
                Ok(ValueView::Bool(number_lt(b, a) || number_eq(a, b)))
            } else {
                Err(
                    RuntimeErrorView::Unsupported(
                        "comparison predicate `"@ + predicate + "`"@,
                    ),
                )
            },
            _ => Err(
                RuntimeErrorView::Type(
                    "`core.cmp \""@ + predicate + "\"` needs two numbers, got "@ + left.text()
                        + " and "@ + right.text(),
                ),
            ),
        }
    }
}

/// The string attribute of a step, or a fallback.
pub open spec fn text_attribute(step: StepView, name: Seq<char>, fallback: Seq<char>) -> Seq<char> {
    match lookup(step.attributes, name) {
        Some(attribute) => match attribute.str_payload() {
            Some(text) => text,
            None => fallback,
        },
        None => fallback,
    }
}

/// A record with the first `n` of some operands added by their positions.
pub open spec fn with_operands(
    record: Seq<(Seq<char>, ValueView)>,
    operands: Seq<ValueView>,
    n: int,
) -> Seq<(Seq<char>, ValueView)>
    decreases n,
{
    if n <= 0 {
        record
    } else {
        insert(
            with_operands(record, operands, n - 1),
            "operand_"@ + nat_text((n - 1) as nat),
            operands[n - 1],
        )
    }
}

/// The value that a computing operation of the runtime gives, `None` for the
/// operations that compute nothing.
pub open spec fn computed(run: RunView, step: StepView, builtin: Builtin) -> Option<
    Result<ValueView, RuntimeErrorView>,
> {
    match builtin {
        Builtin::Constant => Some(
            Ok(
                match lookup(step.attributes, "value"@) {
                    Some(attribute) => value_of(attribute),
                    None => ValueView::Null,
                },
            ),
        ),
        Builtin::Cast | Builtin::Observe | Builtin::Input => Some(Ok(run.operand(step, 0))),
        Builtin::Compare => Some(
            compared(
                match step.literal {
                    Some(predicate) => predicate,
                    None => "eq"@,
                },
                run.operand(step, 0),
                run.operand(step, 1),
            ),
        ),
        Builtin::Metric => {
            let name = match step.literal {
                Some(name) => name,
                None => Seq::empty(),
            };
            Some(
                match run.operand(step, 0).field(name) {
                    Some(value) => Ok(value),
                    None => Err(
                        RuntimeErrorView::Type(
                            "`observation.metric \""@ + name
                                + "\"` needs a record with that field, got "@ + run.operand(
                                step,
                                0,
                            ).text(),
                        ),
                    ),
                },
            )
        },
        Builtin::Project => Some(
            Ok(
                match run.operand(step, 0).field(text_attribute(step, "field"@, Seq::empty())) {
                    Some(value) => value,
                    None => ValueView::Null,
                },
            ),
        ),
        Builtin::Capability => Some(
            Ok(ValueView::Str(text_attribute(step, "capability"@, Seq::empty()))),
        ),
        Builtin::Context => Some(
            Ok(
                ValueView::Record(
                    with_operands(
                        record_of(step.attributes),
                        run.operands(step),
                        step.operands.len() as int,
                    ),
                ),
            ),
        ),
        _ => None,
    }
}

/// What an operation of the runtime that owns no nested plan does.
pub open spec fn simple_run(run: RunView, step: StepView, builtin: Builtin) -> Ran {
    match computed(run, step, builtin) {
        Some(Ok(value)) => (run.bind_results(step, value), Ok(FlowView::Continue)),
        Some(Err(error)) => (run, Err(error)),
        None => match builtin {
            Builtin::RecordError => (
                run.note(
                    Some(step.op),
                    EventKindView::Failed {
                        target: "observation.error"@,
                        error: text_attribute(step, "message"@, "unspecified"@),
                    },
                ),
                Ok(FlowView::Continue),
            ),
            Builtin::Reject => (
                run.with_state(run.state.reject(run.operand(step, 0))),
                Ok(FlowView::Continue),
            ),
            Builtin::Return => (run, Ok(FlowView::Return(run.operands(step)))),
            Builtin::Yield => (run, Ok(FlowView::Yield(run.operands(step)))),
            _ => (run, Ok(FlowView::Continue)),
        },
    }
}

/// Whether an operation of the runtime owns nested plans.
pub open spec fn is_control(builtin: Builtin) -> bool {
    builtin == Builtin::If || builtin == Builtin::Loop || builtin == Builtin::While || builtin
        == Builtin::Parallel
}

/// Calling the world for a step: the loop guard first, then the call, then
/// what came back.
pub open spec fn perform(world: Seq<ReplyView>, run: RunView, step: StepView) -> Ran {
    if run.is_stuck(step) {
        run.stopped(step)
    } else {
        let call = run.invocation(step);
        let counted = run.counted(step);
        counted.ask(request_of(step.target, call)).settle(
            step,
            call.idempotency_key,
            world[counted.asked.len() as int].outcome(),
        )
    }
}

/// A step that reaches the world. Where it has a key, the first question is
/// whether this already happened: the ledger knows, or the world does.
pub open spec fn external_run(world: Seq<ReplyView>, run: RunView, step: StepView) -> Ran {
    match effective_key(step.idempotency_key, run.path) {
        Some(key) => match lookup(run.state.ledger, key) {
            Some(result) => (run.replay(step, key, result), Ok(FlowView::Continue)),
            None => {
                let asked = run.ask(RequestView::Lookup(key));
                match world[run.asked.len() as int].known() {
                    Some(result) => (asked.replay(step, key, result), Ok(FlowView::Continue)),
                    None => perform(world, asked, step),
                }
            },
        },
        None => perform(world, run, step),
    }
}

/// The items a loop iterates: those of a list, none for nothing, and otherwise
/// the one value.
pub open spec fn items_of(value: ValueView) -> Seq<ValueView> {
    match value {
        ValueView::List(items) => items,
        ValueView::Null => Seq::empty(),
        other => seq![other],
    }
}

/// The run with a region's yielded values bound to the results of the step that
/// owns it.
pub open spec fn region_done(ran: Ran, step: StepView) -> Ran {
    match ran {
        (run, Ok(FlowView::Yield(values))) => (
            run.with_state(
                run.state.bind_all(
                    step.results,
                    values,
                    if step.results.len() <= values.len() {
                        step.results.len() as int
                    } else {
                        values.len() as int
                    },
                ),
            ),
            Ok(FlowView::Continue),
        ),
        other => other,
    }
}

/// Whether a `control.while` goes on, given how its condition region ended:
/// `Some` holds what the loop ends with instead.
pub open spec fn while_ends(flow: Result<FlowView, RuntimeErrorView>) -> Option<
    Result<FlowView, RuntimeErrorView>,
> {
    match flow {
        Err(error) => Some(Err(error)),
        Ok(FlowView::Return(values)) => Some(Ok(FlowView::Return(values))),
        Ok(FlowView::Continue) => Some(Ok(FlowView::Continue)),
        Ok(FlowView::Yield(values)) => match single(values).bool_payload() {
            None => Some(
                Err(
                    RuntimeErrorView::Type(
                        "`control.while` needs its condition region to yield a boolean"@,
                    ),
                ),
            ),
            Some(false) => Some(Ok(FlowView::Continue)),
            Some(true) => None,
        },
    }
}

/// Whether a loop stops after one iteration of its body: on a failure, and
/// when the function returned.
pub open spec fn body_stops(flow: Result<FlowView, RuntimeErrorView>) -> bool {
    flow is Err || flow->Ok_0 is Return
}

/// Running a plan: its batches in order, until control leaves.
pub open spec fn plan_run(world: Seq<ReplyView>, run: RunView, plan: PlanView) -> Ran
    decreases plan, 0int, 0int,
{
    batches_run(world, run, plan.batches, 0)
}

/// Running the batches from position `i` on.
pub open spec fn batches_run(
    world: Seq<ReplyView>,
    run: RunView,
    batches: Seq<Seq<StepView>>,
    i: int,
) -> Ran
    decreases batches, 0int, batches.len() - i,
    via batches_run_decreases
{
    if i < 0 || i >= batches.len() {
        (run, Ok(FlowView::Continue))
    } else {
        let (next, flow) = batch_run(world, run, batches[i], 0);
        match flow {
            Ok(FlowView::Continue) => batches_run(world, next, batches, i + 1),
            _ => (next, flow),
        }
    }
}

#[via_fn]
proof fn batches_run_decreases(
    world: Seq<ReplyView>,
    run: RunView,
    batches: Seq<Seq<StepView>>,
    i: int,
) {
    if 0 <= i < batches.len() {
        assert(decreases_to!(batches => batches[i]));
    }
}

/// Running the steps of a batch from position `j` on.
pub open spec fn batch_run(
    world: Seq<ReplyView>,
    run: RunView,
    steps: Seq<StepView>,
    j: int,
) -> Ran
    decreases steps, 0int, steps.len() - j,
    via batch_run_decreases
{
    if j < 0 || j >= steps.len() {
        (run, Ok(FlowView::Continue))
    } else {
        let (next, flow) = step_run(world, run, steps[j]);
        match flow {
            Ok(FlowView::Continue) => batch_run(world, next, steps, j + 1),
            _ => (next, flow),
        }
    }
}

#[via_fn]
proof fn batch_run_decreases(
    world: Seq<ReplyView>,
    run: RunView,
    steps: Seq<StepView>,
    j: int,
) {
    if 0 <= j < steps.len() {
        assert(decreases_to!(steps => steps[j]));
    }
}

/// Running one step.
pub open spec fn step_run(world: Seq<ReplyView>, run: RunView, step: StepView) -> Ran
    decreases step, 0int, 0int,
{
    match step.target {
        TargetView::Builtin(builtin) => if is_control(builtin) {
            match step.control {
                None => (
                    run,
                    Err(
                        RuntimeErrorView::Unsupported(
                            "`"@ + step.name + "` reached the runtime with no nested plan"@,
                        ),
                    ),
                ),
                Some(control) => match control {
                    ControlView::If { taken, otherwise } => {
                        let condition = run.operand(step, 0);
                        match condition.bool_payload() {
                            None => (
                                run,
                                Err(
                                    RuntimeErrorView::Type(
                                        "`control.if` needs a boolean condition, got "@
                                            + condition.text(),
                                    ),
                                ),
                            ),
                            Some(true) => region_done(plan_run(world, run, taken), step),
                            Some(false) => match otherwise {
                                Some(plan) => region_done(plan_run(world, run, plan), step),
                                None => (run, Ok(FlowView::Continue)),
                            },
                        }
                    },
                    ControlView::Loop { binding, max_iterations, body } => {
                        let items = items_of(run.operand(step, 0));
                        if items.len() > max_iterations {
                            (run, Err(RuntimeErrorView::IterationLimit { limit: max_iterations }))
                        } else {
                            loop_run(world, run, binding, body, items, 0)
                        }
                    },
                    ControlView::While { condition, max_iterations, body } => while_run(
                        world,
                        run,
                        control,
                        0,
                    ),
                    ControlView::Parallel { body } => region_done(plan_run(world, run, body), step),
                },
            }
        } else {
            simple_run(run, step, builtin)
        },
        _ => external_run(world, run, step),
    }
}

/// Running the iterations of a `control.loop` from number `k` on.
pub open spec fn loop_run(
    world: Seq<ReplyView>,
    run: RunView,
    binding: Option<ValueId>,
    body: PlanView,
    items: Seq<ValueView>,
    k: int,
) -> Ran
    decreases body, 1int, items.len() - k,
{
    if k < 0 || k >= items.len() {
        (run, Ok(FlowView::Continue))
    } else {
        let bound = match binding {
            Some(id) => run.with_state(run.state.bind(id, items[k])),
            None => run,
        };
        let (ended, flow) = plan_run(world, bound.enter(k as u64), body);
        let next = ended.leave(run.path);
        if body_stops(flow) {
            (next, flow)
        } else {
            loop_run(world, next, binding, body, items, k + 1)
        }
    }
}

/// Running the iterations of a `control.while` from number `k` on. Its
/// condition belongs to the iteration it opens.
pub open spec fn while_run(
    world: Seq<ReplyView>,
    run: RunView,
    control: ControlView,
    k: int,
) -> Ran
    decreases control, 1int, control->While_max_iterations - k,
{
    match control {
        ControlView::While { condition, max_iterations, body } => if k < 0 || k >= max_iterations {
            (run, Ok(FlowView::Continue))
        } else {
            let (tested, verdict) = plan_run(world, run.enter(k as u64), condition);
            match while_ends(verdict) {
                Some(flow) => (tested.leave(run.path), flow),
                None => {
                    let (ended, flow) = plan_run(
                        world,
                        tested.leave(run.path).enter(k as u64),
                        body,
                    );
                    let next = ended.leave(run.path);
                    if body_stops(flow) {
                        (next, flow)
                    } else if k + 1 == max_iterations {
                        (next, Err(RuntimeErrorView::IterationLimit { limit: max_iterations }))
                    } else {
                        while_run(world, next, control, k + 1)
                    }
                },
            }
        },
        _ => (run, Ok(FlowView::Continue)),
    }
}

/// What an execution produced.
#[verifier::ext_equal]
pub ghost struct OutcomeView {
    pub result: ValueView,
    pub state: StateView,
    pub effects: usize,
    pub replayed: usize,
}

/// The run of a function as it begins: its parameters bound to the arguments
/// and its start logged.
pub open spec fn started(
    run: RunView,
    plan: ExecutionPlanView,
    arguments: Seq<ValueView>,
) -> RunView {
    (RunView {
        version: plan.version,
        state: run.state.bind_all(
            plan.parameters,
            arguments,
            if plan.parameters.len() <= arguments.len() {
                plan.parameters.len() as int
            } else {
                arguments.len() as int
            },
        ),
        ..run
    }).note(
        None,
        EventKindView::Started { function: plan.function, version: plan.version },
    )
}

/// The value a function returns, given where control went.
pub open spec fn returned(flow: FlowView) -> ValueView {
    match flow {
        FlowView::Return(values) => single(values),
        FlowView::Yield(values) => single(values),
        FlowView::Continue => ValueView::Null,
    }
}

/// Running one lowered function.
pub open spec fn function_run(
    world: Seq<ReplyView>,
    run: RunView,
    plan: ExecutionPlanView,
    arguments: Seq<ValueView>,
) -> (RunView, Result<OutcomeView, RuntimeErrorView>) {
    let (ended, flow) = plan_run(world, started(run, plan, arguments), plan.plan);
    match flow {
        Err(error) => (ended, Err(error)),
        Ok(flow) => {
            let result = returned(flow);
            (
                ended.note(None, EventKindView::Finished { result }),
                Ok(
                    OutcomeView {
                        result,
                        state: ended.state,
                        effects: ended.effects,
                        replayed: ended.replayed,
                    },
                ),
            )
        },
    }
}

} // verus!
