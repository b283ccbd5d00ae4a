//! The executor: it runs a lowered plan and nothing else.
//!
//! The runtime executes the plan and does not reinterpret it. Everything it is
//! allowed to decide — batching, ordering, budgets — was already decided by the
//! scheduler; what is left here is evaluating the builtins, driving control
//! flow, dispatching effects through the [`Environment`], and the durability
//! machinery: idempotency keys, loop guards, checkpoints and an append-only log.
//!
//! ## Concurrency
//!
//! A batch is a set of steps the scheduler proved may run at the same time.
//! This reference executor runs them one after another anyway, single-threaded,
//! and says so rather than pretending otherwise: the concurrency lives in the
//! plan, and exploiting it is a backend's job. The latency figures in
//! [`crate::cost::Cost`] describe what a concurrent runtime would achieve.

use vstd::prelude::*;
use vstd::string::*;

use crate::assoc::lookup;
use crate::env::{known_view, reply_view, EnvError, Environment, Invocation, ReplyView};
use crate::event::{EventKind, EventLog};
use crate::execution::{
    begins_with, batch_run, batches_run, body_stops, compared, computed, effective_key,
    external_run, function_run, invocation_key, is_control, items_of, loop_run, path_text, perform,
    plan_run, prints, region_done, simple_run, started, step_run, target_name, text_attribute,
    while_ends, while_run, with_operands, FlowView, LoopGuardAction, OutcomeView, RunView,
    RuntimeErrorView, RuntimePolicy,
};
use crate::ids::ValueId;
use crate::plan::{
    batch_views, control_view, plan_view, step_view, step_views, Builtin, Control, ControlView,
    ExecutionPlan, Plan, RuntimeTarget, Step,
};
use crate::state::{next_count, Checkpoint, CheckpointStore, ExecutionState, StateView};
use crate::text::{copy_optional_text, int_string, nat_text, push_nat, same_text};
use crate::value::{record_of, value_view, value_views, Record, Value, ValueView};
use crate::world::{told, World};

verus! {

/// Why an execution stopped early.
#[derive(Debug, PartialEq)]
pub enum RuntimeError {
    /// The world failed, or vanished.
    Environment(EnvError),
    /// An action repeated identically past the threshold.
    LoopGuard {
        /// The repeated action.
        target: String,
        /// How many times it repeated.
        repeats: usize,
        /// What the policy decided.
        action: LoopGuardAction,
    },
    /// A loop ran past its declared `max_iterations`.
    IterationLimit {
        /// The declared bound.
        limit: i64,
    },
    /// A value was not the shape the operation needed.
    Type(String),
    /// The plan asked for something this executor does not implement.
    Unsupported(String),
}

impl View for RuntimeError {
    type V = RuntimeErrorView;

    open spec fn view(&self) -> RuntimeErrorView {
        match self {
            RuntimeError::Environment(error) => RuntimeErrorView::Environment(error@),
            RuntimeError::LoopGuard { target, repeats, action } => RuntimeErrorView::LoopGuard {
                target: target@,
                repeats: *repeats,
                action: *action,
            },
            RuntimeError::IterationLimit { limit } => RuntimeErrorView::IterationLimit {
                limit: *limit,
            },
            RuntimeError::Type(message) => RuntimeErrorView::Type(message@),
            RuntimeError::Unsupported(what) => RuntimeErrorView::Unsupported(what@),
        }
    }
}

impl Clone for RuntimeError {
    /// A copy of the failure.
    fn clone(&self) -> (r: RuntimeError)
        ensures
            r@ == self@,
    {
        match self {
            RuntimeError::Environment(error) => RuntimeError::Environment(error.clone()),
            RuntimeError::LoopGuard { target, repeats, action } => RuntimeError::LoopGuard {
                target: target.clone(),
                repeats: *repeats,
                action: *action,
            },
            RuntimeError::IterationLimit { limit } => RuntimeError::IterationLimit {
                limit: *limit,
            },
            RuntimeError::Type(message) => RuntimeError::Type(message.clone()),
            RuntimeError::Unsupported(what) => RuntimeError::Unsupported(what.clone()),
        }
    }
}

impl RuntimeError {
    /// The printed form of the failure.
    pub fn to_string(&self) -> (r: String)
        ensures
            r@ == self@.text(),
    {
        let mut out = String::new();
        match self {
            RuntimeError::Environment(error) => {
                out.append(error.to_string().as_str());
            },
            RuntimeError::LoopGuard { target, repeats, action } => {
                out.append("loop guard: `");
                out.append(target.as_str());
                out.append("` repeated identically ");
                push_nat(&mut out, *repeats as u64);
                out.append(" times, taking ");
                out.append(action.to_string().as_str());
            },
            RuntimeError::IterationLimit { limit } => {
                out.append("a loop exceeded its declared bound of ");
                out.append(int_string(*limit).as_str());
                out.append(" iterations");
            },
            RuntimeError::Type(message) => {
                out.append("type error at run time: ");
                out.append(message.as_str());
            },
            RuntimeError::Unsupported(what) => {
                out.append("unsupported: ");
                out.append(what.as_str());
            },
        }
        assert(out@ =~= self@.text());
        out
    }
}

/// What an execution produced.
#[derive(Debug, PartialEq)]
pub struct Outcome {
    /// What the function returned.
    pub result: Value,
    /// The state at the end, including the idempotency ledger.
    pub state: ExecutionState,
    /// How many effects actually reached the world.
    pub effects: usize,
    /// How many were skipped because their key was already recorded.
    pub replayed: usize,
}

impl View for Outcome {
    type V = OutcomeView;

    open spec fn view(&self) -> OutcomeView {
        OutcomeView {
            result: self.result@,
            state: self.state@,
            effects: self.effects,
            replayed: self.replayed,
        }
    }
}

impl Clone for Outcome {
    /// A copy of the outcome.
    fn clone(&self) -> (r: Outcome)
        ensures
            r@ == self@,
    {
        Outcome {
            result: self.result.clone(),
            state: self.state.clone(),
            effects: self.effects,
            replayed: self.replayed,
        }
    }
}

/// The content of what an execution came to.
pub open spec fn outcome_view(r: Result<Outcome, RuntimeError>) -> Result<
    OutcomeView,
    RuntimeErrorView,
> {
    match r {
        Ok(outcome) => Ok(outcome@),
        Err(error) => Err(error@),
    }
}

/// Where control went after a step or a plan.
#[derive(Debug)]
pub enum Flow {
    /// Keep going.
    Continue,
    /// The function returned.
    Return(Vec<Value>),
    /// A region yielded its results.
    Yield(Vec<Value>),
}

impl View for Flow {
    type V = FlowView;

    open spec fn view(&self) -> FlowView {
        match self {
            Flow::Continue => FlowView::Continue,
            Flow::Return(values) => FlowView::Return(value_views(values@)),
            Flow::Yield(values) => FlowView::Yield(value_views(values@)),
        }
    }
}

/// The content of where control went.
pub open spec fn flow_view(r: Result<Flow, RuntimeError>) -> Result<FlowView, RuntimeErrorView> {
    match r {
        Ok(flow) => Ok(flow@),
        Err(error) => Err(error@),
    }
}

/// The content of a computed value.
pub open spec fn value_result(r: Result<Value, RuntimeError>) -> Result<
    ValueView,
    RuntimeErrorView,
> {
    match r {
        Ok(value) => Ok(value@),
        Err(error) => Err(error@),
    }
}

/// Runs a lowered plan against an environment.
pub struct Executor<'a, E: Environment, L: EventLog, C: CheckpointStore> {
    /// What the plan may ask of the world, and the account of what it asked.
    pub world: World<'a, E>,
    /// Where what happens is recorded.
    pub log: &'a mut L,
    /// Where snapshots go.
    pub checkpoints: &'a mut C,
    /// The durability policy.
    pub policy: RuntimePolicy,
    /// The operational state.
    pub state: ExecutionState,
    /// The IR version being run.
    pub version: u64,
    /// How many effects reached the world.
    pub effects: usize,
    /// How many effects were skipped because their key was recorded.
    pub replayed: usize,
    /// How many effects completed since the last checkpoint.
    pub since_checkpoint: usize,
    /// How many checkpoints were taken.
    pub checkpoint_sequence: u64,
    /// The loop iterations currently open, outermost first.
    ///
    /// An idempotency key names an *invocation*, not an operation: the write
    /// inside a forty-iteration loop is forty different effects, and giving
    /// them one key would let recovery skip thirty-nine of them. The static
    /// half of the key comes from the compiler (module, version, operation);
    /// this is the dynamic half.
    ///
    /// It is stable across a replay because the plan is: the loop iterates the
    /// same list in the same order. That holds even when the list came from a
    /// model — a `#stochastic` call is non-replayable, so it carries a key of
    /// its own and is memoized rather than re-sampled.
    pub path: Vec<u64>,
}

impl<'a, E: Environment, L: EventLog, C: CheckpointStore> View for Executor<'a, E, L, C> {
    type V = RunView;

    open spec fn view(&self) -> RunView {
        RunView {
            state: self.state@,
            log: (*self.log).recorded(),
            saved: (*self.checkpoints).saved(),
            asked: self.world.asked(),
            policy: self.policy,
            version: self.version,
            effects: self.effects,
            replayed: self.replayed,
            since_checkpoint: self.since_checkpoint,
            checkpoint_sequence: self.checkpoint_sequence,
            path: self.path@,
        }
    }
}

impl<'a, E: Environment, L: EventLog, C: CheckpointStore> Executor<'a, E, L, C> {
    /// Whether the account of what was asked fits the environment.
    pub open spec fn is_consistent(&self) -> bool {
        self.world.is_in_order()
    }

    /// Whether this is where an executor can get to by running: the account of
    /// what was asked still fits the environment, nothing of the earlier one
    /// changed, and the open loop iterations are the same again.
    pub open spec fn continues(&self, earlier: Executor<'a, E, L, C>) -> bool {
        &&& self.world.continues(earlier.world)
        &&& self.path@ == earlier.path@
    }

    /// An executor with the default policy.
    pub fn new(env: &'a mut E, log: &'a mut L, checkpoints: &'a mut C) -> (r: Self)
        ensures
            r@ == (RunView {
                state: StateView::fresh(),
                log: old(log).recorded(),
                saved: old(checkpoints).saved(),
                asked: Seq::empty(),
                policy: RuntimePolicy::usual(),
                version: 0,
                effects: 0,
                replayed: 0,
                since_checkpoint: 0,
                checkpoint_sequence: 0,
                path: Seq::empty(),
            }),
            r.is_consistent(),
            r.world.heard() == Seq::<ReplyView>::empty(),
            *r.world.env == *old(env),
            *r.log == *old(log),
            *r.checkpoints == *old(checkpoints),
            *final(r.world.env) == *final(env),
            *final(r.log) == *final(log),
            *final(r.checkpoints) == *final(checkpoints),
    {
        Executor {
            world: World::new(env),
            log,
            checkpoints,
            policy: RuntimePolicy::default(),
            state: ExecutionState::new(),
            version: 0,
            effects: 0,
            replayed: 0,
            since_checkpoint: 0,
            checkpoint_sequence: 0,
            path: Vec::new(),
        }
    }

    /// Replaces the durability policy.
    pub fn with_policy(self, policy: RuntimePolicy) -> (r: Self)
        ensures
            r@ == (RunView { policy, ..self@ }),
            r.world == self.world,
            *final(r.log) == *final(self.log),
            *final(r.checkpoints) == *final(self.checkpoints),
    {
        let mut executor = self;
        executor.policy = policy;
        executor
    }

    /// Starts from an existing state — the ledger of a previous, crashed run.
    ///
    /// This is what makes recovery work: the plan is re-run from the top, and
    /// every effect whose key is already in the ledger is skipped rather than
    /// repeated. It is sound because the effect system guarantees that the
    /// steps *not* in the ledger are exactly the replayable ones.
    pub fn resuming_from(self, state: ExecutionState) -> (r: Self)
        ensures
            r@ == (RunView { state: state@, ..self@ }),
            r.world == self.world,
            *final(r.log) == *final(self.log),
            *final(r.checkpoints) == *final(self.checkpoints),
    {
        let mut executor = self;
        executor.state = state;
        executor
    }

    /// The state as it stands.
    pub fn state(&self) -> (r: &ExecutionState)
        ensures
            r@ == self@.state,
    {
        &self.state
    }

    /// The value of the operand at a position.
    fn operand(&self, step: &Step, index: usize) -> (r: Value)
        ensures
            r@ == self@.operand(step@, index as int),
    {
        broadcast use value_view;

        proof {
            step_view(*step);
        }
        if index < step.operands.len() {
            self.state.get_or_null(step.operands[index])
        } else {
            Value::Null
        }
    }

    /// The values of all operands.
    fn operands(&self, step: &Step) -> (r: Vec<Value>)
        ensures
            value_views(r@) == self@.operands(step@),
    {
        proof {
            step_view(*step);
        }
        let values = bound(&self.state, &step.operands);
        assert(value_views(values@) =~= self@.operands(step@));
        values
    }

    /// The key that identifies this invocation, static half plus loop path.
    fn effective_key(&self, step: &Step) -> (r: Option<String>)
        ensures
            crate::text::optional_text(r) == effective_key(step@.idempotency_key, self@.path),
    {
        proof {
            step_view(*step);
        }
        match &step.idempotency_key {
            Some(key) => {
                let mut out = String::new();
                out.append(key.as_str());
                out.append("@");
                let ghost path = self.path@;
                let ghost start = out@;
                let mut i: usize = 0;
                while i < self.path.len()
                    invariant
                        i <= self.path@.len(),
                        path == self.path@,
                        out@ + path_text(path, i as int) =~= start + path_text(path, 0),
                    decreases self.path@.len() - i,
                {
                    let ghost before = out@;
                    if i > 0 {
                        out.append(".");
                    }
                    push_nat(&mut out, self.path[i]);
                    assert(before + path_text(path, i as int) =~= out@ + path_text(path, i + 1));
                    i += 1;
                }
                assert(out@ =~= invocation_key(key@, path));
                Some(out)
            },
            None => None,
        }
    }

    /// The request a step makes, under the key of this invocation.
    fn invocation(&self, step: &Step) -> (r: Invocation)
        ensures
            r@ == self@.invocation(step@),
    {
        proof {
            step_view(*step);
        }
        let target = match &step.target {
            RuntimeTarget::ToolCall { tool } => tool.clone(),
            RuntimeTarget::Inference { model, .. } => model.clone(),
            RuntimeTarget::Memory { key, .. } => match key {
                Some(key) => key.clone(),
                None => String::new(),
            },
            RuntimeTarget::Builtin(builtin) => builtin.to_string(),
        };
        assert(target@ =~= target_name(step@.target));
        Invocation {
            target,
            args: self.operands(step),
            attributes: Record::from_attributes(&step.attributes),
            effect: step.effect.clone(),
            idempotency_key: self.effective_key(step),
        }
    }

    /// The same action, with the same arguments, past a threshold: counts one
    /// more occurrence and stops the run when there are too many.
    fn check_loop_guard(&mut self, step: &Step, call: &Invocation) -> (r: Result<(), RuntimeError>)
        requires
            call@ == old(self)@.invocation(step@),
        ensures
            final(self).world == old(self).world,
            *final(final(self).log) == *final(old(self).log),
            *final(final(self).checkpoints) == *final(old(self).checkpoints),
            *final(final(self).world.env) == *final(old(self).world.env),
            match r {
                Ok(_) => !old(self)@.is_stuck(step@) && final(self)@ == old(self)@.counted(step@),
                Err(error) => old(self)@.is_stuck(step@) && old(self)@.stopped(step@) == (
                    final(self)@,
                    Err::<FlowView, RuntimeErrorView>(error@),
                ),
            },
    {
        proof {
            step_view(*step);
        }
        let mut signature = String::new();
        signature.append(call.target.as_str());
        signature.append("|");
        let ghost args = value_views(call.args@);
        let ghost start = signature@;
        let mut i: usize = 0;
        while i < call.args.len()
            invariant
                i <= call.args@.len(),
                args == value_views(call.args@),
                signature@ + prints(args, i as int) =~= start + prints(args, 0),
            decreases call.args@.len() - i,
        {
            let ghost before = signature@;
            if i > 0 {
                signature.append(",");
            }
            call.args[i].push_fingerprint(&mut signature);
            assert(before + prints(args, i as int) =~= signature@ + prints(args, i + 1));
            i += 1;
        }
        assert(signature@ =~= old(self)@.signature(step@));
        let repeats: usize = self.state.count_repeat(signature);
        if repeats > self.policy.repeat_threshold {
            let action = self.policy.on_loop_guard;
            self.log.append(
                Some(step.op),
                EventKind::LoopGuard {
                    target: call.target.clone(),
                    repeats,
                    action: action.to_string(),
                },
            );
            return Err(
                RuntimeError::LoopGuard { target: call.target.clone(), repeats, action },
            );
        }
        Ok(())
    }

    /// Counts a completed effect and takes a checkpoint when one is due.
    fn maybe_checkpoint(&mut self)
        ensures
            final(self)@ == old(self)@.maybe_checkpoint(),
            final(self).world == old(self).world,
            *final(final(self).log) == *final(old(self).log),
            *final(final(self).checkpoints) == *final(old(self).checkpoints),
            *final(final(self).world.env) == *final(old(self).world.env),
    {
        if self.policy.checkpoint_every == 0 {
            return;
        }
        let since: usize = next_count(self.since_checkpoint);
        if since < self.policy.checkpoint_every {
            self.since_checkpoint = since;
            return;
        }
        self.since_checkpoint = 0;
        if self.checkpoint_sequence < u64::MAX {
            self.checkpoint_sequence = self.checkpoint_sequence + 1;
        }
        // The snapshot is taken whole, then logged: a reader of the log never
        // sees a checkpoint that does not exist in the store.
        let checkpoint = Checkpoint {
            sequence: self.checkpoint_sequence,
            log_position: self.log.len() as u64,
            version: self.version,
            state: self.state.clone(),
        };
        self.checkpoints.save(checkpoint);
        let effects: usize = self.state.ledger.len();
        self.log.append(
            None,
            EventKind::Checkpoint { sequence: self.checkpoint_sequence, effects },
        );
    }

    /// Binds the results of a step.
    fn bind_results(&mut self, step: &Step, result: Value)
        ensures
            final(self)@ == old(self)@.bind_results(step@, result@),
            final(self).world == old(self).world,
            *final(final(self).log) == *final(old(self).log),
            *final(final(self).checkpoints) == *final(old(self).checkpoints),
            *final(final(self).world.env) == *final(old(self).world.env),
    {
        proof {
            step_view(*step);
            value_view(result);
            value_view(Value::Null);
        }
        let n: usize = step.results.len();
        if n == 0 {
            return;
        }
        if n == 1 {
            self.state.bind(step.results[0], result);
            return;
        }
        let ghost ids = step.results@;
        match &result {
            Value::List(items) if items.len() == n => {
                let ghost values = value_views(items@);
                let mut i: usize = 0;
                while i < n
                    invariant
                        i <= n,
                        n == items@.len(),
                        ids == step.results@,
                        n == ids.len(),
                        values == value_views(items@),
                        self@ == old(self)@.with_state(
                            old(self)@.state.bind_all(ids, values, i as int),
                        ),
                        self.world == old(self).world,
                        *final(self.log) == *final(old(self).log),
                        *final(self.checkpoints) == *final(old(self).checkpoints),
                        *final(self.world.env) == *final(old(self).world.env),
                    decreases n - i,
                {
                    self.state.bind(step.results[i], items[i].clone());
                    i += 1;
                }
            },
            _ => {
                // Not the shape the operation promised. Binding null is better
                // than binding a lie; the type mismatch surfaces at the first
                // read.
                let ghost values = Seq::new(ids.len(), |i: int| ValueView::Null);
                let mut i: usize = 0;
                while i < n
                    invariant
                        i <= n,
                        ids == step.results@,
                        n == ids.len(),
                        values == Seq::new(ids.len(), |i: int| ValueView::Null),
                        self@ == old(self)@.with_state(
                            old(self)@.state.bind_all(ids, values, i as int),
                        ),
                        self.world == old(self).world,
                        *final(self.log) == *final(old(self).log),
                        *final(self.checkpoints) == *final(old(self).checkpoints),
                        *final(self.world.env) == *final(old(self).world.env),
                    decreases n - i,
                {
                    proof {
                        value_view(Value::Null);
                    }
                    self.state.bind(step.results[i], Value::Null);
                    i += 1;
                }
            },
        }
    }

    /// Skips an effect whose key is recorded, and reuses its result.
    pub fn replay(&mut self, step: &Step, key: &str, result: Value)
        ensures
            final(self)@ == old(self)@.replay(step@, key@, result@),
            final(self).world == old(self).world,
            *final(final(self).log) == *final(old(self).log),
            *final(final(self).checkpoints) == *final(old(self).checkpoints),
            *final(final(self).world.env) == *final(old(self).world.env),
    {
        let call = self.invocation(step);
        proof {
            step_view(*step);
        }
        self.log.append(
            Some(step.op),
            EventKind::EffectReplayed {
                target: call.target.clone(),
                idempotency_key: key.to_string(),
                result: result.clone(),
            },
        );
        self.bind_results(step, result);
        self.replayed = next_count(self.replayed);
    }

    /// Takes in what the world answered to a call: a failure is logged and
    /// stops the run; a result is recorded under its key, logged, bound and
    /// counted, and a checkpoint is taken when one is due.
    pub fn settle(
        &mut self,
        step: &Step,
        call: &Invocation,
        outcome: Result<Value, EnvError>,
    ) -> (r: Result<(), RuntimeError>)
        requires
            call@.target == target_name(step@.target),
        ensures
            old(self)@.settle(step@, call@.idempotency_key, reply_view(outcome)) == (
                final(self)@,
                done_view(r),
            ),
            final(self).world == old(self).world,
            *final(final(self).log) == *final(old(self).log),
            *final(final(self).checkpoints) == *final(old(self).checkpoints),
            *final(final(self).world.env) == *final(old(self).world.env),
    {
        proof {
            step_view(*step);
        }
        let result = match outcome {
            Ok(result) => result,
            Err(error) => {
                self.log.append(
                    Some(step.op),
                    EventKind::Failed { target: call.target.clone(), error: error.to_string() },
                );
                return Err(RuntimeError::Environment(error));
            },
        };
        if let Some(key) = &call.idempotency_key {
            self.state.ledger.record(key.as_str(), result.clone());
        }
        self.log.append(
            Some(step.op),
            EventKind::Effect {
                target: call.target.clone(),
                effect: step.effect.to_string(),
                idempotency_key: copy_optional_text(&call.idempotency_key),
                result: result.clone(),
            },
        );
        self.bind_results(step, result);
        self.effects = next_count(self.effects);
        self.maybe_checkpoint();
        Ok(())
    }

    /// Calls the world for a step: the loop guard first, then the call, then
    /// what came back.
    fn perform(&mut self, step: &Step, call: &Invocation) -> (r: Result<(), RuntimeError>)
        requires
            old(self).is_consistent(),
            !(step@.target is Builtin),
            call@ == old(self)@.invocation(step@),
        ensures
            final(self).continues(*old(self)),
            forall|world: Seq<ReplyView>|
                begins_with(world, final(self).world.heard()) ==> #[trigger] perform(
                    world,
                    old(self)@,
                    step@,
                ) == (final(self)@, done_view(r)),
            *final(final(self).log) == *final(old(self).log),
            *final(final(self).checkpoints) == *final(old(self).checkpoints),
            *final(final(self).world.env) == *final(old(self).world.env),
    {
        match self.check_loop_guard(step, call) {
            Ok(_) => {},
            Err(error) => {
                return Err(error);
            },
        }
        let ghost counted = self@;
        proof {
            step_view(*step);
        }
        let outcome = self.world.call(&step.target, call);
        let ghost reply = reply_view(outcome);
        let ghost heard = self.world.heard();
        let r = self.settle(step, call, outcome);
        proof {
            assert forall|world: Seq<ReplyView>| begins_with(world, self.world.heard()) implies
                #[trigger] perform(world, old(self)@, step@) == (self@, done_view(r)) by {
                let n = counted.asked.len() as int;
                assert(world[n] == heard[n]);
                assert(heard[n] == ReplyView::Outcome(reply));
            }
        }
        r
    }

    /// Runs a step that reaches the world.
    fn run_external(&mut self, step: &Step) -> (r: Result<(), RuntimeError>)
        requires
            old(self).is_consistent(),
            !(step@.target is Builtin),
        ensures
            final(self).continues(*old(self)),
            forall|world: Seq<ReplyView>|
                begins_with(world, final(self).world.heard()) ==> #[trigger] external_run(
                    world,
                    old(self)@,
                    step@,
                ) == (final(self)@, done_view(r)),
            effective_key(step@.idempotency_key, old(self)@.path) matches Some(key) ==> (lookup(
                old(self)@.state.ledger,
                key,
            ) is Some ==> final(self).world == old(self).world),
            *final(final(self).log) == *final(old(self).log),
            *final(final(self).checkpoints) == *final(old(self).checkpoints),
            *final(final(self).world.env) == *final(old(self).world.env),
    {
        let call = self.invocation(step);
        // The first question: did this already happen?
        if let Some(key) = &call.idempotency_key {
            let recorded = match self.state.ledger.get(key.as_str()) {
                Some(result) => Some(result.clone()),
                None => None,
            };
            if let Some(result) = recorded {
                self.replay(step, key.as_str(), result);
                return Ok(());
            }
            let known = self.world.known(key.as_str());
            let ghost asked = self@;
            let ghost heard = self.world.heard();
            let ghost n = old(self)@.asked.len() as int;
            assert(heard[n] == ReplyView::Known(known_view(known)));
            if let Some(result) = known {
                self.replay(step, key.as_str(), result);
                proof {
                    assert forall|world: Seq<ReplyView>| begins_with(world, self.world.heard()) implies
                        #[trigger] external_run(world, old(self)@, step@) == (
                        self@,
                        Ok::<FlowView, RuntimeErrorView>(FlowView::Continue),
                    ) by {
                        assert(world[n] == heard[n]);
                    }
                }
                return Ok(());
            }
            let r = self.perform(step, &call);
            proof {
                assert forall|world: Seq<ReplyView>| begins_with(world, self.world.heard()) implies
                    #[trigger] external_run(world, old(self)@, step@) == (
                    self@,
                    done_view(r),
                ) by {
                    assert(world[n] == self.world.heard()[n]);
                    assert(self.world.heard()[n] == heard[n]);
                    assert(perform(world, asked, step@) == (self@, done_view(r)));
                }
            }
            return r;
        }
        self.perform(step, &call)
    }

    /// The string attribute of a step, or a fallback.
    fn text_attribute(step: &Step, name: &str, fallback: &str) -> (r: String)
        ensures
            r@ == text_attribute(step@, name@, fallback@),
    {
        proof {
            step_view(*step);
        }
        match step.attributes.get(name) {
            Some(attribute) => match attribute.as_str() {
                Some(text) => text.to_string(),
                None => fallback.to_string(),
            },
            None => fallback.to_string(),
        }
    }

    /// The record an `agent.context` makes.
    fn context(&self, step: &Step) -> (r: Record)
        ensures
            r@ == with_operands(
                record_of(step@.attributes),
                self@.operands(step@),
                step@.operands.len() as int,
            ),
    {
        proof {
            step_view(*step);
        }
        let mut record = Record::from_attributes(&step.attributes);
        let ghost start = record@;
        let ghost values = self@.operands(step@);
        let mut i: usize = 0;
        while i < step.operands.len()
            invariant
                i <= step.operands@.len(),
                step@.operands == step.operands@,
                values == self@.operands(step@),
                record@ == with_operands(start, values, i as int),
            decreases step.operands@.len() - i,
        {
            let mut name = String::from_str("operand_");
            push_nat(&mut name, i as u64);
            assert(name@ =~= "operand_"@ + nat_text(i as nat));
            record.insert(name, self.state.get_or_null(step.operands[i]));
            i += 1;
        }
        record
    }

    /// Evaluates a computing operation of the runtime.
    fn compute(&self, step: &Step, builtin: Builtin) -> (r: Option<Result<Value, RuntimeError>>)
        ensures
            r is Some == computed(self@, step@, builtin) is Some,
            r matches Some(result) ==> computed(self@, step@, builtin) == Some(
                value_result(result),
            ),
    {
        broadcast use value_view;

        proof {
            step_view(*step);
            reveal_strlit("");
        }
        let ghost empty = Seq::<char>::empty();
        assert(""@ =~= empty);
        match builtin {
            Builtin::Constant => {
                let value = match step.attributes.get("value") {
                    Some(attribute) => Value::from_attribute(attribute),
                    None => Value::Null,
                };
                Some(Ok(value))
            },
            Builtin::Cast | Builtin::Observe | Builtin::Input => Some(Ok(self.operand(step, 0))),
            Builtin::Compare => {
                let predicate = match &step.literal {
                    Some(predicate) => predicate.clone(),
                    None => "eq".to_string(),
                };
                Some(
                    compare(
                        predicate.as_str(),
                        &self.operand(step, 0),
                        &self.operand(step, 1),
                    ),
                )
            },
            Builtin::Metric => {
                let name = match &step.literal {
                    Some(name) => name.clone(),
                    None => String::new(),
                };
                assert(step@.literal is None ==> name@ =~= empty);
                let operand = self.operand(step, 0);
                match operand.field(name.as_str()) {
                    Some(value) => Some(Ok(value.clone())),
                    None => {
                        let mut message = String::from_str("`observation.metric \"");
                        message.append(name.as_str());
                        message.append("\"` needs a record with that field, got ");
                        operand.push_text(&mut message);
                        assert(message@ =~= "`observation.metric \""@ + name@
                            + "\"` needs a record with that field, got "@ + operand@.text());
                        Some(Err(RuntimeError::Type(message)))
                    },
                }
            },
            Builtin::Project => {
                let field = Self::text_attribute(step, "field", "");
                let operand = self.operand(step, 0);
                match operand.field(field.as_str()) {
                    Some(value) => Some(Ok(value.clone())),
                    None => Some(Ok(Value::Null)),
                }
            },
            Builtin::Capability => Some(
                Ok(Value::Str(Self::text_attribute(step, "capability", ""))),
            ),
            Builtin::Context => Some(Ok(Value::Record(self.context(step)))),
            _ => None,
        }
    }

    /// Runs an operation of the runtime that owns no nested plan.
    fn run_simple(&mut self, step: &Step, builtin: Builtin) -> (r: Result<Flow, RuntimeError>)
        ensures
            simple_run(old(self)@, step@, builtin) == (final(self)@, flow_view(r)),
            final(self).world == old(self).world,
            *final(final(self).log) == *final(old(self).log),
            *final(final(self).checkpoints) == *final(old(self).checkpoints),
            *final(final(self).world.env) == *final(old(self).world.env),
    {
        proof {
            step_view(*step);
        }
        if let Some(computed) = self.compute(step, builtin) {
            match computed {
                Ok(value) => {
                    self.bind_results(step, value);
                    return Ok(Flow::Continue);
                },
                Err(error) => {
                    return Err(error);
                },
            }
        }
        match builtin {
            Builtin::RecordError => {
                let message = Self::text_attribute(step, "message", "unspecified");
                self.log.append(
                    Some(step.op),
                    EventKind::Failed {
                        target: "observation.error".to_string(),
                        error: message,
                    },
                );
                Ok(Flow::Continue)
            },
            Builtin::Reject => {
                let rejected = self.operand(step, 0);
                self.state.reject(rejected);
                Ok(Flow::Continue)
            },
            Builtin::Return => Ok(Flow::Return(self.operands(step))),
            Builtin::Yield => Ok(Flow::Yield(self.operands(step))),
            // A budget and a verification were both settled at compile time.
            // `agent.verify` in particular is not a runtime check: if the
            // program reached the runtime at all, the capability was there.
            _ => Ok(Flow::Continue),
        }
    }

    /// Runs a plan: its batches in order, until control leaves.
    ///
    /// The scheduler proved that the steps of a batch may run together; this
    /// executor runs them in order anyway, see the module note on concurrency.
    fn run_plan(&mut self, plan: &Plan) -> (r: Result<Flow, RuntimeError>)
        requires
            old(self).is_consistent(),
        ensures
            final(self).continues(*old(self)),
            forall|world: Seq<ReplyView>|
                begins_with(world, final(self).world.heard()) ==> #[trigger] plan_run(world, old(self)@, plan@) == (final(self)@, flow_view(r)),
            *final(final(self).log) == *final(old(self).log),
            *final(final(self).checkpoints) == *final(old(self).checkpoints),
            *final(final(self).world.env) == *final(old(self).world.env),
        decreases plan, 0int,
    {
        let ghost first = *self;
        let ghost batches = plan@.batches;
        proof {
            plan_view(*plan);
        }
        let mut i: usize = 0;
        while i < plan.batches.len()
            invariant
                i <= plan.batches@.len(),
                batches == batch_views(plan.batches@),
                batches == plan@.batches,
                first == *old(self),
                self.continues(first),
                forall|world: Seq<ReplyView>|
                    begins_with(world, self.world.heard()) ==> #[trigger] batches_run(
                        world,
                        first@,
                        batches,
                        0,
                    ) == batches_run(world, self@, batches, i as int),
                *final(self.log) == *final(first.log),
                *final(self.checkpoints) == *final(first.checkpoints),
                *final(self.world.env) == *final(first.world.env),
            decreases plan.batches@.len() - i,
        {
            let ghost middle = *self;
            let batch = &plan.batches[i];
            let ghost steps = step_views(batch@);
            assert(batches[i as int] == steps);
            let mut j: usize = 0;
            while j < batch.len()
                invariant
                    j <= batch@.len(),
                    i < plan.batches@.len(),
                    *batch == plan.batches@[i as int],
                    steps == step_views(batch@),
                    batches == batch_views(plan.batches@),
                    batches[i as int] == steps,
                    first == *old(self),
                    batches == plan@.batches,
                    middle.continues(first),
                    forall|world: Seq<ReplyView>|
                        begins_with(world, middle.world.heard()) ==> #[trigger] batches_run(
                            world,
                            first@,
                            batches,
                            0,
                        ) == batches_run(world, middle@, batches, i as int),
                    self.continues(middle),
                    self.continues(first),
                    forall|world: Seq<ReplyView>|
                        begins_with(world, self.world.heard()) ==> #[trigger] batch_run(
                            world,
                            middle@,
                            steps,
                            0,
                        ) == batch_run(world, self@, steps, j as int),
                    *final(self.log) == *final(first.log),
                    *final(self.checkpoints) == *final(first.checkpoints),
                    *final(self.world.env) == *final(first.world.env),
                decreases batch@.len() - j,
            {
                let ghost before = *self;
                let step = &batch[j];
                proof {
                    assert(decreases_to!(plan => plan.batches));
                    assert(decreases_to!(plan.batches => plan.batches[i as int]));
                    assert(decreases_to!(batch => batch[j as int]));
                    assert(steps[j as int] == step@);
                }
                let r = self.run_step(step);
                proof {
                    assert forall|world: Seq<ReplyView>| begins_with(world, self.world.heard()) implies
                        #[trigger] batch_run(world, middle@, steps, 0) == (if flow_view(r)
                        == Ok::<FlowView, RuntimeErrorView>(FlowView::Continue) {
                        batch_run(world, self@, steps, j + 1)
                    } else {
                        (self@, flow_view(r))
                    }) by {
                        assert(begins_with(world, before.world.heard()));
                        assert(step_run(world, before@, step@) == (self@, flow_view(r)));
                    }
                }
                match r {
                    Ok(Flow::Continue) => {},
                    other => {
                        proof {
                            assert forall|world: Seq<ReplyView>|
                                begins_with(world, self.world.heard()) implies #[trigger] plan_run(
                                world,
                                first@,
                                plan@,
                            ) == (self@, flow_view(other)) by {
                                assert(begins_with(world, middle.world.heard()));
                                assert(batch_run(world, middle@, steps, 0) == (
                                    self@,
                                    flow_view(other),
                                ));
                                assert(batches_run(world, first@, batches, 0) == batches_run(
                                    world,
                                    middle@,
                                    batches,
                                    i as int,
                                ));
                            }
                        }
                        return other;
                    },
                }
                j += 1;
            }
            proof {
                assert forall|world: Seq<ReplyView>| begins_with(world, self.world.heard()) implies
                    #[trigger] batches_run(world, first@, batches, 0) == batches_run(
                    world,
                    self@,
                    batches,
                    i + 1,
                ) by {
                    assert(begins_with(world, middle.world.heard()));
                    assert(batch_run(world, middle@, steps, 0) == batch_run(
                        world,
                        self@,
                        steps,
                        j as int,
                    ));
                }
            }
            i += 1;
        }
        proof {
            assert forall|world: Seq<ReplyView>| begins_with(world, self.world.heard()) implies
                #[trigger] plan_run(world, first@, plan@) == (
                self@,
                Ok::<FlowView, RuntimeErrorView>(FlowView::Continue),
            ) by {
                assert(batches_run(world, first@, batches, 0) == batches_run(
                    world,
                    self@,
                    batches,
                    i as int,
                ));
            }
        }
        Ok(Flow::Continue)
    }

    /// Runs one step.
    fn run_step(&mut self, step: &Step) -> (r: Result<Flow, RuntimeError>)
        requires
            old(self).is_consistent(),
        ensures
            final(self).continues(*old(self)),
            forall|world: Seq<ReplyView>|
                begins_with(world, final(self).world.heard()) ==> #[trigger] step_run(world, old(self)@, step@) == (final(self)@, flow_view(r)),
            *final(final(self).log) == *final(old(self).log),
            *final(final(self).checkpoints) == *final(old(self).checkpoints),
            *final(final(self).world.env) == *final(old(self).world.env),
        decreases step, 1int,
    {
        proof {
            step_view(*step);
        }
        match &step.target {
            RuntimeTarget::Builtin(builtin) => match *builtin {
                Builtin::If | Builtin::Loop | Builtin::While | Builtin::Parallel => {
                    self.run_control(step)
                },
                other => self.run_simple(step, other),
            },
            _ => {
                let ghost first = self@;
                let done = self.run_external(step);
                proof {
                    assert forall|world: Seq<ReplyView>| begins_with(world, self.world.heard()) implies
                        #[trigger] step_run(world, first, step@) == (self@, done_view(done)) by {
                        assert(external_run(world, first, step@) == (self@, done_view(done)));
                    }
                }
                match done {
                    Ok(_) => Ok(Flow::Continue),
                    Err(error) => Err(error),
                }
            },
        }
    }

    /// Runs an operation that owns nested plans.
    fn run_control(&mut self, step: &Step) -> (r: Result<Flow, RuntimeError>)
        requires
            old(self).is_consistent(),
            step@.target is Builtin,
            is_control(step@.target->Builtin_0),
        ensures
            final(self).continues(*old(self)),
            forall|world: Seq<ReplyView>|
                begins_with(world, final(self).world.heard()) ==> #[trigger] step_run(world, old(self)@, step@) == (final(self)@, flow_view(r)),
            *final(final(self).log) == *final(old(self).log),
            *final(final(self).checkpoints) == *final(old(self).checkpoints),
            *final(final(self).world.env) == *final(old(self).world.env),
        decreases step, 0int,
    {
        let ghost first = self@;
        proof {
            step_view(*step);
        }
        let control = match &step.control {
            Some(control) => &**control,
            None => {
                let mut what = String::from_str("`");
                what.append(step.name.as_str());
                what.append("` reached the runtime with no nested plan");
                assert(what@ =~= "`"@ + step@.name
                    + "` reached the runtime with no nested plan"@);
                return Err(RuntimeError::Unsupported(what));
            },
        };
        proof {
            control_view(*control);
            assert(step@.control == Some(control@));
        }
        match control {
            Control::If { taken, otherwise } => {
                let condition = self.operand(step, 0);
                match condition.is_true() {
                    None => {
                        let mut message = String::from_str(
                            "`control.if` needs a boolean condition, got ",
                        );
                        condition.push_text(&mut message);
                        assert(message@ =~= "`control.if` needs a boolean condition, got "@
                            + condition@.text());
                        Err(RuntimeError::Type(message))
                    },
                    Some(true) => {
                        let r = self.run_region(step, taken);
                        proof {
                            assert forall|world: Seq<ReplyView>|
                                begins_with(world, self.world.heard()) implies #[trigger] step_run(
                                world,
                                first,
                                step@,
                            ) == (self@, flow_view(r)) by {
                                assert(region_done(plan_run(world, first, taken@), step@) == (
                                    self@,
                                    flow_view(r),
                                ));
                            }
                        }
                        r
                    },
                    Some(false) => match otherwise {
                        Some(plan) => {
                            let r = self.run_region(step, plan);
                            proof {
                                assert forall|world: Seq<ReplyView>|
                                    begins_with(world, self.world.heard()) implies #[trigger] step_run(
                                    world,
                                    first,
                                    step@,
                                ) == (self@, flow_view(r)) by {
                                    assert(region_done(plan_run(world, first, plan@), step@) == (
                                        self@,
                                        flow_view(r),
                                    ));
                                }
                            }
                            r
                        },
                        None => Ok(Flow::Continue),
                    },
                }
            },
            Control::Loop { binding, max_iterations, body } => {
                let iterable = self.operand(step, 0);
                proof {
                    value_view(iterable);
                }
                let items: Vec<Value> = match iterable {
                    Value::List(items) => items,
                    Value::Null => Vec::new(),
                    other => {
                        let items = vec![other];
                        assert(value_views(items@) =~= seq![iterable@]);
                        items
                    },
                };
                assert(value_views(items@) =~= items_of(first.operand(step@, 0)));
                if *max_iterations < 0 || items.len() as u64 > *max_iterations as u64 {
                    // The bound is a promise the program made. Breaking it at
                    // run time is an error, not something to quietly truncate.
                    return Err(RuntimeError::IterationLimit { limit: *max_iterations });
                }
                let r = self.run_loop(*binding, body, &items);
                proof {
                    assert forall|world: Seq<ReplyView>| begins_with(world, self.world.heard()) implies
                        #[trigger] step_run(world, first, step@) == (self@, flow_view(r)) by {
                        assert(loop_run(world, first, *binding, body@, value_views(items@), 0) == (
                            self@,
                            flow_view(r),
                        ));
                    }
                }
                r
            },
            Control::While { .. } => {
                let r = self.run_while(control);
                proof {
                    assert forall|world: Seq<ReplyView>| begins_with(world, self.world.heard()) implies
                        #[trigger] step_run(world, first, step@) == (self@, flow_view(r)) by {
                        assert(while_run(world, first, control@, 0) == (self@, flow_view(r)));
                    }
                }
                r
            },
            Control::Parallel { body } => {
                let r = self.run_region(step, body);
                proof {
                    assert forall|world: Seq<ReplyView>| begins_with(world, self.world.heard()) implies
                        #[trigger] step_run(world, first, step@) == (self@, flow_view(r)) by {
                        assert(region_done(plan_run(world, first, body@), step@) == (
                            self@,
                            flow_view(r),
                        ));
                    }
                }
                r
            },
        }
    }

    /// Runs a region and binds whatever it yields to the owning step's results.
    fn run_region(&mut self, step: &Step, plan: &Plan) -> (r: Result<Flow, RuntimeError>)
        requires
            old(self).is_consistent(),
        ensures
            final(self).continues(*old(self)),
            forall|world: Seq<ReplyView>|
                begins_with(world, final(self).world.heard()) ==> region_done(
                    #[trigger] plan_run(world, old(self)@, plan@),
                    step@,
                ) == (final(self)@, flow_view(r)),
            *final(final(self).log) == *final(old(self).log),
            *final(final(self).checkpoints) == *final(old(self).checkpoints),
            *final(final(self).world.env) == *final(old(self).world.env),
        decreases plan, 1int,
    {
        proof {
            step_view(*step);
        }
        let r = self.run_plan(plan);
        match r {
            Ok(Flow::Yield(values)) => {
                let ghost start = self@;
                let ghost before = *self;
                let ghost views = value_views(values@);
                let n: usize = if step.results.len() <= values.len() {
                    step.results.len()
                } else {
                    values.len()
                };
                let mut i: usize = 0;
                while i < n
                    invariant
                        i <= n,
                        n <= step.results@.len(),
                        n <= values@.len(),
                        views == value_views(values@),
                        self@ == start.with_state(
                            start.state.bind_all(step.results@, views, i as int),
                        ),
                        self.world == before.world,
                        *final(self.log) == *final(before.log),
                        *final(self.checkpoints) == *final(before.checkpoints),
                        *final(self.world.env) == *final(before.world.env),
                    decreases n - i,
                {
                    self.state.bind(step.results[i], values[i].clone());
                    i += 1;
                }
                Ok(Flow::Continue)
            },
            other => other,
        }
    }

    /// Runs the iterations of a `control.loop`.
    fn run_loop(&mut self, binding: Option<ValueId>, body: &Plan, items: &Vec<Value>) -> (r: Result<
        Flow,
        RuntimeError,
    >)
        requires
            old(self).is_consistent(),
        ensures
            final(self).continues(*old(self)),
            forall|world: Seq<ReplyView>|
                begins_with(world, final(self).world.heard()) ==> #[trigger] loop_run(world, old(self)@, binding, body@, value_views(items@), 0) == (final(self)@, flow_view(r)),
            *final(final(self).log) == *final(old(self).log),
            *final(final(self).checkpoints) == *final(old(self).checkpoints),
            *final(final(self).world.env) == *final(old(self).world.env),
        decreases body, 1int,
    {
        let ghost first = *self;
        let ghost views = value_views(items@);
        let mut k: usize = 0;
        while k < items.len()
            invariant
                k <= items@.len(),
                views == value_views(items@),
                first == *old(self),
                self.continues(first),
                forall|world: Seq<ReplyView>|
                    begins_with(world, self.world.heard()) ==> #[trigger] loop_run(
                        world,
                        first@,
                        binding,
                        body@,
                        views,
                        0,
                    ) == loop_run(world, self@, binding, body@, views, k as int),
                *final(self.log) == *final(first.log),
                *final(self.checkpoints) == *final(first.checkpoints),
                *final(self.world.env) == *final(first.world.env),
            decreases items@.len() - k,
        {
            let ghost before = *self;
            if let Some(id) = binding {
                self.state.bind(id, items[k].clone());
            }
            let ghost bound = self@;
            self.path.push(k as u64);
            let ghost entered = *self;
            assert(entered@ == bound.enter(k as u64));
            let r = self.run_plan(body);
            let ghost ended = self@;
            self.path.pop();
            assert(self.path@ =~= before.path@);
            proof {
                assert forall|world: Seq<ReplyView>| begins_with(world, self.world.heard()) implies
                    #[trigger] loop_run(world, first@, binding, body@, views, 0) == (
                if body_stops(flow_view(r)) {
                    (self@, flow_view(r))
                } else {
                    loop_run(world, self@, binding, body@, views, k + 1)
                }) by {
                    assert(begins_with(world, before.world.heard()));
                    assert(plan_run(world, entered@, body@) == (ended, flow_view(r)));
                    assert(self@ == ended.leave(before@.path));
                }
            }
            match r {
                Ok(Flow::Return(values)) => {
                    return Ok(Flow::Return(values));
                },
                Err(error) => {
                    return Err(error);
                },
                _ => {},
            }
            k += 1;
        }
        Ok(Flow::Continue)
    }

    /// Runs the iterations of a `control.while`. The condition belongs to the
    /// iteration it opens, so that what it asks of the world in one iteration
    /// is not taken for what it asked in another.
    fn run_while(&mut self, control: &Control) -> (r: Result<Flow, RuntimeError>)
        requires
            old(self).is_consistent(),
            control is While,
        ensures
            final(self).continues(*old(self)),
            forall|world: Seq<ReplyView>|
                begins_with(world, final(self).world.heard()) ==> #[trigger] while_run(world, old(self)@, control@, 0) == (final(self)@, flow_view(r)),
            *final(final(self).log) == *final(old(self).log),
            *final(final(self).checkpoints) == *final(old(self).checkpoints),
            *final(final(self).world.env) == *final(old(self).world.env),
        decreases control, 0int,
    {
        let ghost first = *self;
        proof {
            control_view(*control);
        }
        if let Control::While { condition, max_iterations, body } = control {
            let limit: i64 = *max_iterations;
            let mut k: i64 = 0;
            while k < limit
                invariant
                    0 <= k,
                    k <= limit || k == 0,
                    control@ == (ControlView::While {
                        condition: condition@,
                        max_iterations: limit,
                        body: body@,
                    }),
                    decreases_to!(control => condition),
                    decreases_to!(control => body),
                    first == *old(self),
                    self.continues(first),
                    forall|world: Seq<ReplyView>|
                        begins_with(world, self.world.heard()) ==> #[trigger] while_run(
                            world,
                            first@,
                            control@,
                            0,
                        ) == while_run(world, self@, control@, k as int),
                    *final(self.log) == *final(first.log),
                    *final(self.checkpoints) == *final(first.checkpoints),
                    *final(self.world.env) == *final(first.world.env),
                decreases limit - k,
            {
                let ghost before = *self;
                self.path.push(k as u64);
                let ghost opened = *self;
                assert(opened@ == before@.enter(k as u64));
                let verdict = self.run_plan(condition);
                let ghost tested = *self;
                self.path.pop();
                assert(self.path@ =~= before.path@);
                assert(self@ == tested@.leave(before@.path));
                let ghost verdict_seen = flow_view(verdict);
                let ends = while_verdict(verdict);
                if let Some(flow) = ends {
                    proof {
                        assert forall|world: Seq<ReplyView>|
                            begins_with(world, self.world.heard()) implies #[trigger] while_run(
                            world,
                            first@,
                            control@,
                            0,
                        ) == (self@, flow_view(flow)) by {
                            assert(begins_with(world, before.world.heard()));
                            assert(plan_run(world, opened@, condition@) == (
                                tested@,
                                verdict_seen,
                            ));
                        }
                    }
                    return flow;
                }
                let ghost closed = self@;
                self.path.push(k as u64);
                let ghost entered = *self;
                assert(entered@ == closed.enter(k as u64));
                let r = self.run_plan(body);
                let ghost ended = self@;
                self.path.pop();
                assert(self.path@ =~= before.path@);
                proof {
                    assert forall|world: Seq<ReplyView>| begins_with(world, self.world.heard()) implies
                        #[trigger] while_run(world, first@, control@, 0) == (if body_stops(
                        flow_view(r),
                    ) {
                        (self@, flow_view(r))
                    } else if k + 1 == limit {
                        (self@, Err(RuntimeErrorView::IterationLimit { limit }))
                    } else {
                        while_run(world, self@, control@, k + 1)
                    }) by {
                        assert(begins_with(world, tested.world.heard()));
                        assert(begins_with(world, before.world.heard()));
                        assert(plan_run(world, opened@, condition@) == (tested@, verdict_seen));
                        assert(plan_run(world, entered@, body@) == (ended, flow_view(r)));
                        assert(self@ == ended.leave(before@.path));
                    }
                }
                match r {
                    Ok(Flow::Return(values)) => {
                        return Ok(Flow::Return(values));
                    },
                    Err(error) => {
                        return Err(error);
                    },
                    _ => {},
                }
                if k + 1 == limit {
                    return Err(RuntimeError::IterationLimit { limit });
                }
                k += 1;
            }
        }
        Ok(Flow::Continue)
    }

    /// Runs one lowered function.
    ///
    /// Whatever the world answers, the run is the one that the plan, the
    /// arguments and those answers determine: what is asked and in which
    /// order, what is logged and stored, the state at the end and the outcome.
    /// And what is asked is what reaches the environment: its dealings grow by
    /// these exchanges and no others.
    pub fn run(&mut self, plan: &ExecutionPlan, arguments: Vec<Value>) -> (r: Result<
        Outcome,
        RuntimeError,
    >)
        requires
            old(self).is_consistent(),
        ensures
            final(self).continues(*old(self)),
            forall|world: Seq<ReplyView>|
                begins_with(world, final(self).world.heard()) ==> #[trigger] function_run(
                    world,
                    old(self)@,
                    plan@,
                    value_views(arguments@),
                ) == (final(self)@, outcome_view(r)),
            told(
                old(self).world.dealings(),
                final(self).world.dealings(),
                final(self).world.heard(),
                old(self)@,
                final(self)@,
            ),
            old(self).world.is_faithful() ==> final(self).world.is_faithful(),
            *final(final(self).log) == *final(old(self).log),
            *final(final(self).checkpoints) == *final(old(self).checkpoints),
            *final(final(self).world.env) == *final(old(self).world.env),
    {
        let ghost first = *self;
        let ghost args = value_views(arguments@);
        self.version = plan.version;
        let ghost versioned = self@;
        let n: usize = if plan.parameters.len() <= arguments.len() {
            plan.parameters.len()
        } else {
            arguments.len()
        };
        let mut i: usize = 0;
        while i < n
            invariant
                i <= n,
                n <= plan.parameters@.len(),
                n <= arguments@.len(),
                args == value_views(arguments@),
                self@ == versioned.with_state(
                    first@.state.bind_all(plan.parameters@, args, i as int),
                ),
                versioned == (RunView { version: plan.version, ..first@ }),
                self.world == first.world,
                *final(self.log) == *final(first.log),
                *final(self.checkpoints) == *final(first.checkpoints),
                *final(self.world.env) == *final(first.world.env),
            decreases n - i,
        {
            self.state.bind(plan.parameters[i], arguments[i].clone());
            i += 1;
        }
        self.log.append(
            None,
            EventKind::Started { function: plan.function.clone(), version: plan.version },
        );
        let ghost begun = *self;
        assert(begun@ == started(first@, plan@, args));
        let r = self.run_plan(&plan.plan);
        let ghost ended = *self;
        let ghost flow = flow_view(r);
        let r = match r {
            Ok(flow) => {
                let result = match flow {
                    Flow::Return(values) => single(values),
                    Flow::Yield(values) => single(values),
                    Flow::Continue => Value::Null,
                };
                proof {
                    value_view(Value::Null);
                }
                self.log.append(None, EventKind::Finished { result: result.clone() });
                Ok(
                    Outcome {
                        result,
                        state: self.state.clone(),
                        effects: self.effects,
                        replayed: self.replayed,
                    },
                )
            },
            Err(error) => Err(error),
        };
        proof {
            assert forall|world: Seq<ReplyView>| begins_with(world, self.world.heard()) implies
                #[trigger] function_run(world, first@, plan@, args) == (
                self@,
                outcome_view(r),
            ) by {
                assert(plan_run(world, begun@, plan@.plan) == (ended@, flow));
            }
            self.world.growth(first.world);
        }
        r
    }
}

/// Whether a `control.while` ends, given how its condition region ended, and
/// with what.
fn while_verdict(verdict: Result<Flow, RuntimeError>) -> (r: Option<Result<Flow, RuntimeError>>)
    ensures
        r is Some == while_ends(flow_view(verdict)) is Some,
        r matches Some(flow) ==> while_ends(flow_view(verdict)) == Some(flow_view(flow)),
{
    match verdict {
        Err(error) => Some(Err(error)),
        Ok(Flow::Return(values)) => Some(Ok(Flow::Return(values))),
        Ok(Flow::Continue) => Some(Ok(Flow::Continue)),
        Ok(Flow::Yield(values)) => match single(values).is_true() {
            None => Some(
                Err(
                    RuntimeError::Type(
                        "`control.while` needs its condition region to yield a boolean".to_string(),
                    ),
                ),
            ),
            Some(true) => None,
            Some(false) => Some(Ok(Flow::Continue)),
        },
    }
}

/// Several values as one.
fn single(values: Vec<Value>) -> (r: Value)
    ensures
        r@ == crate::execution::single(value_views(values@)),
{
    broadcast use value_view;

    if values.len() == 0 {
        Value::Null
    } else if values.len() == 1 {
        values[0].clone()
    } else {
        Value::List(values)
    }
}

/// Compares two values.
pub fn compare(predicate: &str, left: &Value, right: &Value) -> (r: Result<Value, RuntimeError>)
    ensures
        value_result(r) == compared(predicate@, left@, right@),
{
    broadcast use value_view;

    if same_text(predicate, "eq") {
        return Ok(Value::Bool(left.same(right)));
    }
    if same_text(predicate, "ne") {
        return Ok(Value::Bool(!left.same(right)));
    }
    let (a, b) = match (left.as_float(), right.as_float()) {
        (Some(a), Some(b)) => (a, b),
        _ => {
            let mut message = String::from_str("`core.cmp \"");
            message.append(predicate);
            message.append("\"` needs two numbers, got ");
            left.push_text(&mut message);
            message.append(" and ");
            right.push_text(&mut message);
            assert(message@ =~= "`core.cmp \""@ + predicate@ + "\"` needs two numbers, got "@
                + left@.text() + " and "@ + right@.text());
            return Err(RuntimeError::Type(message));
        },
    };
    if same_text(predicate, "lt") {
        Ok(Value::Bool(a.less(b)))
    } else if same_text(predicate, "le") {
        Ok(Value::Bool(a.less(b) || a.same(b)))
    } else if same_text(predicate, "gt") {
        Ok(Value::Bool(b.less(a)))
    } else if same_text(predicate, "ge") {
        Ok(Value::Bool(b.less(a) || a.same(b)))
    } else {
        let mut what = String::from_str("comparison predicate `");
        what.append(predicate);
        what.append("`");
        assert(what@ =~= "comparison predicate `"@ + predicate@ + "`"@);
        Err(RuntimeError::Unsupported(what))
    }
}

/// The content of whether a step went through.
pub open spec fn done_view(r: Result<(), RuntimeError>) -> Result<FlowView, RuntimeErrorView> {
    match r {
        Ok(_) => Ok(FlowView::Continue),
        Err(error) => Err(error@),
    }
}

/// The values bound to some handles, for tests and the CLI.
pub fn bound(state: &ExecutionState, ids: &Vec<ValueId>) -> (r: Vec<Value>)
    ensures
        r@.len() == ids@.len(),
        forall|i: int|
            0 <= i < ids@.len() ==> (#[trigger] r@[i])@ == state@.get_or_null(ids@[i]),
{
    let mut values: Vec<Value> = Vec::new();
    let mut i: usize = 0;
    while i < ids.len()
        invariant
            i <= ids@.len(),
            values@.len() == i,
            forall|j: int|
                0 <= j < i ==> (#[trigger] values@[j])@ == state@.get_or_null(ids@[j]),
        decreases ids@.len() - i,
    {
        values.push(state.get_or_null(ids[i]));
        i += 1;
    }
    values
}

} // verus!
