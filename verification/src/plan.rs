//! Lowering, and the executable plan it produces.
//!
//! The compiler never knows the details of a specific backend. It knows that an
//! `agent.action` whose effect is `#stochastic` is a model call and that one
//! with an external effect is a tool call; which model, and which tool runtime,
//! is a [`Backend`]'s business.
//!
//! ```text
//! agent.action "search"(...)     →  runtime.tool_call(tool = "search")
//! agent.action "run_model"(...)  →  runtime.inference(model = ..., backend = "generic")
//! memory.read {key = "k"}        →  runtime.memory(read, key = "k")
//! ```

use vstd::prelude::*;
use vstd::string::*;

use crate::attribute::{AttributeView, Attributes};
use crate::copying::{clone_all, copy_all};
use crate::cost::Cost;
use crate::diagnostic::{Diagnostic, DiagnosticView, Severity};
use crate::effect::{Effect, EffectView};
use crate::ids::{OperationId, ValueId};
use crate::module::{capped, Module, ModuleView, OpName, OpNameView, OperationView};
use crate::pass::capped_sum;
use crate::text::{copy_optional_text, optional_text};

verus! {

/// What the runtime is asked to do for one operation.
#[derive(Debug, PartialEq)]
pub enum RuntimeTarget {
    /// `runtime.tool_call(tool = ...)`.
    ToolCall {
        /// The tool to invoke.
        tool: String,
    },
    /// `runtime.inference(model = ..., backend = ...)`.
    Inference {
        /// The model, or the action name when the program did not pick one.
        model: String,
        /// The serving backend this lowering targets.
        backend: String,
    },
    /// `runtime.memory(...)`.
    Memory {
        /// Which memory operation.
        operation: MemoryOp,
        /// The key, when the operation names one.
        key: Option<String>,
    },
    /// Evaluated by the runtime itself, with no external dispatch.
    Builtin(Builtin),
}

/// The mathematical content of a [`RuntimeTarget`].
#[verifier::ext_equal]
pub ghost enum TargetView {
    ToolCall { tool: Seq<char> },
    Inference { model: Seq<char>, backend: Seq<char> },
    Memory { operation: MemoryOp, key: Option<Seq<char>> },
    Builtin(Builtin),
}

impl View for RuntimeTarget {
    type V = TargetView;

    open spec fn view(&self) -> TargetView {
        match self {
            RuntimeTarget::ToolCall { tool } => TargetView::ToolCall { tool: tool@ },
            RuntimeTarget::Inference { model, backend } => TargetView::Inference {
                model: model@,
                backend: backend@,
            },
            RuntimeTarget::Memory { operation, key } => TargetView::Memory {
                operation: *operation,
                key: optional_text(*key),
            },
            RuntimeTarget::Builtin(b) => TargetView::Builtin(*b),
        }
    }
}

impl TargetView {
    /// The printed form of the target.
    pub open spec fn text(self) -> Seq<char> {
        match self {
            TargetView::ToolCall { tool } => "runtime.tool_call(tool = \""@ + tool + "\")"@,
            TargetView::Inference { model, backend } => "runtime.inference(model = \""@ + model
                + "\", backend = \""@ + backend + "\")"@,
            TargetView::Memory { operation, key } => match key {
                Some(k) => "runtime.memory("@ + operation.text() + ", key = \""@ + k + "\")"@,
                None => "runtime.memory("@ + operation.text() + ")"@,
            },
            TargetView::Builtin(b) => "runtime."@ + b.text(),
        }
    }
}

impl RuntimeTarget {
    /// The printed form of the target.
    pub fn to_string(&self) -> (r: String)
        ensures
            r@ == self@.text(),
    {
        match self {
            RuntimeTarget::ToolCall { tool } => {
                let mut out = String::from_str("runtime.tool_call(tool = \"");
                out.append(tool.as_str());
                out.append("\")");
                out
            },
            RuntimeTarget::Inference { model, backend } => {
                let mut out = String::from_str("runtime.inference(model = \"");
                out.append(model.as_str());
                out.append("\", backend = \"");
                out.append(backend.as_str());
                out.append("\")");
                out
            },
            RuntimeTarget::Memory { operation, key } => {
                let mut out = String::from_str("runtime.memory(");
                out.append(operation.as_word());
                match key {
                    Some(k) => {
                        out.append(", key = \"");
                        out.append(k.as_str());
                        out.append("\")");
                    },
                    None => {
                        out.append(")");
                    },
                }
                out
            },
            RuntimeTarget::Builtin(b) => {
                let mut out = String::from_str("runtime.");
                out.append(b.as_word());
                out
            },
        }
    }
}

impl Clone for RuntimeTarget {
    /// A copy of the target.
    fn clone(&self) -> (r: RuntimeTarget)
        ensures
            r@ == self@,
    {
        match self {
            RuntimeTarget::ToolCall { tool } => RuntimeTarget::ToolCall { tool: tool.clone() },
            RuntimeTarget::Inference { model, backend } => RuntimeTarget::Inference {
                model: model.clone(),
                backend: backend.clone(),
            },
            RuntimeTarget::Memory { operation, key } => RuntimeTarget::Memory {
                operation: *operation,
                key: copy_optional_text(key),
            },
            RuntimeTarget::Builtin(b) => RuntimeTarget::Builtin(*b),
        }
    }
}

/// Which memory operation a [`RuntimeTarget::Memory`] performs.
#[derive(Clone, Copy, Debug, PartialEq, Eq, Structural)]
pub enum MemoryOp {
    /// Read one entry.
    Read,
    /// Write one entry.
    Write,
    /// Search for relevant entries.
    Search,
}

impl MemoryOp {
    /// The printed form of the operation.
    pub open spec fn text(self) -> Seq<char> {
        match self {
            MemoryOp::Read => "read"@,
            MemoryOp::Write => "write"@,
            MemoryOp::Search => "search"@,
        }
    }

    /// The printed form of the operation.
    pub fn as_word(self) -> (r: &'static str)
        ensures
            r@ == self.text(),
    {
        match self {
            MemoryOp::Read => "read",
            MemoryOp::Write => "write",
            MemoryOp::Search => "search",
        }
    }

    /// The printed form of the operation.
    pub fn to_string(&self) -> (r: String)
        ensures
            r@ == self.text(),
    {
        String::from_str(self.as_word())
    }
}

/// The operations the runtime evaluates on its own.
#[derive(Clone, Copy, Debug, PartialEq, Eq, Structural)]
pub enum Builtin {
    /// `core.constant`.
    Constant,
    /// `core.cast`.
    Cast,
    /// A comparison of two values.
    Compare,
    /// `observation.metric`.
    Metric,
    /// `observation.create`.
    Observe,
    /// `observation.error`.
    RecordError,
    /// `tool.result`.
    Project,
    /// `tool.capability`.
    Capability,
    /// `agent.context`.
    Context,
    /// `agent.input`.
    Input,
    /// `agent.budget`.
    Budget,
    /// `agent.verify`.
    Verify,
    /// `agent.reject`.
    Reject,
    /// `agent.return`.
    Return,
    /// `control.yield`.
    Yield,
    /// `control.if`: the runtime drives the nested plans in [`Control::If`].
    If,
    /// `control.loop`.
    Loop,
    /// `control.while`.
    While,
    /// `control.parallel`.
    Parallel,
}

impl Builtin {
    /// The printed form of the operation.
    pub open spec fn text(self) -> Seq<char> {
        match self {
            Builtin::Constant => "constant"@,
            Builtin::Cast => "cast"@,
            Builtin::Compare => "compare"@,
            Builtin::Metric => "metric"@,
            Builtin::Observe => "observe"@,
            Builtin::RecordError => "record_error"@,
            Builtin::Project => "project"@,
            Builtin::Capability => "capability"@,
            Builtin::Context => "context"@,
            Builtin::Input => "input"@,
            Builtin::Budget => "budget"@,
            Builtin::Verify => "verify"@,
            Builtin::Reject => "reject"@,
            Builtin::Return => "return"@,
            Builtin::Yield => "yield"@,
            Builtin::If => "if"@,
            Builtin::Loop => "loop"@,
            Builtin::While => "while"@,
            Builtin::Parallel => "parallel"@,
        }
    }

    /// The printed form of the operation.
    pub fn as_word(self) -> (r: &'static str)
        ensures
            r@ == self.text(),
    {
        match self {
            Builtin::Constant => "constant",
            Builtin::Cast => "cast",
            Builtin::Compare => "compare",
            Builtin::Metric => "metric",
            Builtin::Observe => "observe",
            Builtin::RecordError => "record_error",
            Builtin::Project => "project",
            Builtin::Capability => "capability",
            Builtin::Context => "context",
            Builtin::Input => "input",
            Builtin::Budget => "budget",
            Builtin::Verify => "verify",
            Builtin::Reject => "reject",
            Builtin::Return => "return",
            Builtin::Yield => "yield",
            Builtin::If => "if",
            Builtin::Loop => "loop",
            Builtin::While => "while",
            Builtin::Parallel => "parallel",
        }
    }

    /// The printed form of the operation.
    pub fn to_string(&self) -> (r: String)
        ensures
            r@ == self.text(),
    {
        String::from_str(self.as_word())
    }
}

/// The operation of the runtime's own that a name stands for, if any. Control
/// flow is structure, not dispatch: the runtime walks the nested plans the
/// scheduler attached to the step.
pub open spec fn builtin_of(name: OpNameView) -> Option<Builtin> {
    if name.is("core"@, "constant"@) {
        Some(Builtin::Constant)
    } else if name.is("core"@, "cast"@) {
        Some(Builtin::Cast)
    } else if name.is("core"@, "cmp"@) {
        Some(Builtin::Compare)
    } else if name.is("observation"@, "metric"@) {
        Some(Builtin::Metric)
    } else if name.is("observation"@, "create"@) {
        Some(Builtin::Observe)
    } else if name.is("observation"@, "error"@) {
        Some(Builtin::RecordError)
    } else if name.is("tool"@, "result"@) {
        Some(Builtin::Project)
    } else if name.is("tool"@, "capability"@) {
        Some(Builtin::Capability)
    } else if name.is("agent"@, "context"@) {
        Some(Builtin::Context)
    } else if name.is("agent"@, "input"@) {
        Some(Builtin::Input)
    } else if name.is("agent"@, "budget"@) {
        Some(Builtin::Budget)
    } else if name.is("agent"@, "verify"@) {
        Some(Builtin::Verify)
    } else if name.is("agent"@, "reject"@) {
        Some(Builtin::Reject)
    } else if name.is("agent"@, "return"@) {
        Some(Builtin::Return)
    } else if name.is("control"@, "yield"@) {
        Some(Builtin::Yield)
    } else if name.is("control"@, "if"@) {
        Some(Builtin::If)
    } else if name.is("control"@, "loop"@) {
        Some(Builtin::Loop)
    } else if name.is("control"@, "while"@) {
        Some(Builtin::While)
    } else if name.is("control"@, "parallel"@) {
        Some(Builtin::Parallel)
    } else {
        None
    }
}

fn find_builtin(name: &OpName) -> (r: Option<Builtin>)
    ensures
        r == builtin_of(name@),
{
    if name.is("core", "constant") {
        Some(Builtin::Constant)
    } else if name.is("core", "cast") {
        Some(Builtin::Cast)
    } else if name.is("core", "cmp") {
        Some(Builtin::Compare)
    } else if name.is("observation", "metric") {
        Some(Builtin::Metric)
    } else if name.is("observation", "create") {
        Some(Builtin::Observe)
    } else if name.is("observation", "error") {
        Some(Builtin::RecordError)
    } else if name.is("tool", "result") {
        Some(Builtin::Project)
    } else if name.is("tool", "capability") {
        Some(Builtin::Capability)
    } else if name.is("agent", "context") {
        Some(Builtin::Context)
    } else if name.is("agent", "input") {
        Some(Builtin::Input)
    } else if name.is("agent", "budget") {
        Some(Builtin::Budget)
    } else if name.is("agent", "verify") {
        Some(Builtin::Verify)
    } else if name.is("agent", "reject") {
        Some(Builtin::Reject)
    } else if name.is("agent", "return") {
        Some(Builtin::Return)
    } else if name.is("control", "yield") {
        Some(Builtin::Yield)
    } else if name.is("control", "if") {
        Some(Builtin::If)
    } else if name.is("control", "loop") {
        Some(Builtin::Loop)
    } else if name.is("control", "while") {
        Some(Builtin::While)
    } else if name.is("control", "parallel") {
        Some(Builtin::Parallel)
    } else {
        None
    }
}

/// One lowered operation, ready to execute.
#[derive(Debug, PartialEq)]
pub struct Step {
    /// The IR operation this came from, so a runtime event can point back at
    /// the program.
    pub op: OperationId,
    /// The operation's name, for traces.
    pub name: String,
    /// The literal, when the operation had one.
    pub literal: Option<String>,
    /// What the runtime should do.
    pub target: RuntimeTarget,
    /// The values consumed.
    pub operands: Vec<ValueId>,
    /// The values produced.
    pub results: Vec<ValueId>,
    /// The compile-time attributes, which the runtime's own operations read.
    pub attributes: Attributes,
    /// The declared effect, carried through so the runtime can enforce the
    /// replay rules.
    pub effect: Effect,
    /// Present for every non-idempotent effect: the key the tool runtime checks
    /// before re-executing after a crash.
    pub idempotency_key: Option<String>,
    /// What this step is expected to cost.
    pub estimated: Cost,
    /// Nested structure, for the control operations.
    pub control: Option<Box<Control>>,
}

/// The nested plans a control operation owns.
#[derive(Debug, PartialEq)]
pub enum Control {
    /// `control.if`: run `taken` when the condition holds, else `otherwise`.
    If {
        /// The branch taken when the condition is true.
        taken: Plan,
        /// The branch taken otherwise, when the program supplied one.
        otherwise: Option<Plan>,
    },
    /// `control.loop`: run `body` once per element of the operand.
    Loop {
        /// The block argument each element is bound to.
        binding: Option<ValueId>,
        /// The termination guard.
        max_iterations: i64,
        /// The body.
        body: Plan,
    },
    /// `control.while`: run `body` while `condition` yields true.
    While {
        /// The region computing the condition.
        condition: Plan,
        /// The termination guard.
        max_iterations: i64,
        /// The body.
        body: Plan,
    },
    /// `control.parallel`: run everything in `body` concurrently.
    Parallel {
        /// The body, whose batches are the concurrency the scheduler found.
        body: Plan,
    },
}

/// A scheduled sequence of batches.
///
/// Steps inside one batch have no dependency and no effect conflict, so they
/// may run at the same time; the batches themselves run in order.
#[derive(Debug, PartialEq)]
pub struct Plan {
    /// The batches, in execution order.
    pub batches: Vec<Vec<Step>>,
}

/// The mathematical content of a [`Step`].
#[verifier::ext_equal]
pub ghost struct StepView {
    pub op: OperationId,
    pub name: Seq<char>,
    pub literal: Option<Seq<char>>,
    pub target: TargetView,
    pub operands: Seq<ValueId>,
    pub results: Seq<ValueId>,
    pub attributes: Seq<(Seq<char>, AttributeView)>,
    pub effect: EffectView,
    pub idempotency_key: Option<Seq<char>>,
    pub estimated: Cost,
    pub control: Option<ControlView>,
}

/// The mathematical content of a [`Control`].
#[verifier::ext_equal]
pub ghost enum ControlView {
    If { taken: PlanView, otherwise: Option<PlanView> },
    Loop { binding: Option<ValueId>, max_iterations: i64, body: PlanView },
    While { condition: PlanView, max_iterations: i64, body: PlanView },
    Parallel { body: PlanView },
}

/// The mathematical content of a [`Plan`].
#[verifier::ext_equal]
pub ghost struct PlanView {
    pub batches: Seq<Seq<StepView>>,
}

spec fn view_step(s: Step) -> StepView
    decreases s,
{
    StepView {
        op: s.op,
        name: s.name@,
        literal: optional_text(s.literal),
        target: s.target@,
        operands: s.operands@,
        results: s.results@,
        attributes: s.attributes@,
        effect: s.effect@,
        idempotency_key: optional_text(s.idempotency_key),
        estimated: s.estimated,
        control: match s.control {
            Some(c) => Some(view_control(*c)),
            None => None,
        },
    }
}

spec fn view_control(c: Control) -> ControlView
    decreases c,
{
    match c {
        Control::If { taken, otherwise } => ControlView::If {
            taken: view_plan(taken),
            otherwise: match otherwise {
                Some(p) => Some(view_plan(p)),
                None => None,
            },
        },
        Control::Loop { binding, max_iterations, body } => ControlView::Loop {
            binding,
            max_iterations,
            body: view_plan(body),
        },
        Control::While { condition, max_iterations, body } => ControlView::While {
            condition: view_plan(condition),
            max_iterations,
            body: view_plan(body),
        },
        Control::Parallel { body } => ControlView::Parallel { body: view_plan(body) },
    }
}

spec fn view_plan(p: Plan) -> PlanView
    decreases p,
{
    PlanView {
        batches: Seq::new(
            p.batches@.len(),
            |i: int|
                if 0 <= i < p.batches@.len() {
                    Seq::new(
                        p.batches@[i]@.len(),
                        |j: int|
                            if 0 <= j < p.batches@[i]@.len() {
                                view_step(p.batches@[i]@[j])
                            } else {
                                arbitrary()
                            },
                    )
                } else {
                    arbitrary()
                },
        ),
    }
}

impl View for Step {
    type V = StepView;

    closed spec fn view(&self) -> StepView {
        view_step(*self)
    }
}

impl View for Control {
    type V = ControlView;

    closed spec fn view(&self) -> ControlView {
        view_control(*self)
    }
}

impl View for Plan {
    type V = PlanView;

    closed spec fn view(&self) -> PlanView {
        view_plan(*self)
    }
}

impl Default for Plan {
    /// The plan that does nothing.
    fn default() -> (r: Plan)
        ensures
            r@ == (PlanView { batches: Seq::empty() }),
    {
        let r = Plan { batches: Vec::new() };
        proof {
            plan_view(r);
            assert(r@.batches =~= Seq::empty());
        }
        r
    }
}

/// The content of each step of a batch.
pub open spec fn step_views(steps: Seq<Step>) -> Seq<StepView> {
    Seq::new(steps.len(), |i: int| steps[i]@)
}

/// The content of each batch.
pub open spec fn batch_views(batches: Seq<Vec<Step>>) -> Seq<Seq<StepView>> {
    Seq::new(batches.len(), |i: int| step_views(batches[i]@))
}

/// What a step holds.
pub broadcast proof fn step_view(s: Step)
    ensures
        #[trigger] s@ == (StepView {
            op: s.op,
            name: s.name@,
            literal: optional_text(s.literal),
            target: s.target@,
            operands: s.operands@,
            results: s.results@,
            attributes: s.attributes@,
            effect: s.effect@,
            idempotency_key: optional_text(s.idempotency_key),
            estimated: s.estimated,
            control: match s.control {
                Some(c) => Some((*c)@),
                None => None,
            },
        }),
{
    reveal_with_fuel(view_step, 2);
    reveal_with_fuel(view_control, 2);
}

/// What each kind of control holds.
pub broadcast proof fn control_view(c: Control)
    ensures
        #[trigger] c@ == match c {
            Control::If { taken, otherwise } => ControlView::If {
                taken: taken@,
                otherwise: match otherwise {
                    Some(p) => Some(p@),
                    None => None,
                },
            },
            Control::Loop { binding, max_iterations, body } => ControlView::Loop {
                binding,
                max_iterations,
                body: body@,
            },
            Control::While { condition, max_iterations, body } => ControlView::While {
                condition: condition@,
                max_iterations,
                body: body@,
            },
            Control::Parallel { body } => ControlView::Parallel { body: body@ },
        },
{
    reveal_with_fuel(view_control, 2);
    reveal_with_fuel(view_plan, 2);
}

/// What a plan holds.
pub broadcast proof fn plan_view(p: Plan)
    ensures
        #[trigger] p@ == (PlanView { batches: batch_views(p.batches@) }),
{
    reveal_with_fuel(view_plan, 2);
    reveal_with_fuel(view_step, 2);
    assert forall|i: int| 0 <= i < p.batches@.len() implies p@.batches[i] == batch_views(
        p.batches@,
    )[i] by {
        assert(p@.batches[i] =~= step_views(p.batches@[i]@));
    }
    assert(p@.batches =~= batch_views(p.batches@));
}

impl Clone for Step {
    /// A copy of the step, nested plans included.
    fn clone(&self) -> (r: Step)
        ensures
            r@ == self@,
        decreases self, 0int,
    {
        let control = match &self.control {
            Some(control) => {
                assert(decreases_to!(self => self.control));
                Some(Box::new((&**control).clone()))
            },
            None => None,
        };
        let r = Step {
            op: self.op,
            name: self.name.clone(),
            literal: copy_optional_text(&self.literal),
            target: self.target.clone(),
            operands: copy_all(&self.operands),
            results: copy_all(&self.results),
            attributes: self.attributes.clone(),
            effect: self.effect.clone(),
            idempotency_key: copy_optional_text(&self.idempotency_key),
            estimated: self.estimated,
            control,
        };
        proof {
            step_view(*self);
            step_view(r);
        }
        r
    }
}

impl Clone for Control {
    /// A copy of the nested plans.
    fn clone(&self) -> (r: Control)
        ensures
            r@ == self@,
        decreases self, 0int,
    {
        let r = match self {
            Control::If { taken, otherwise } => Control::If {
                taken: taken.clone(),
                otherwise: match otherwise {
                    Some(plan) => Some(plan.clone()),
                    None => None,
                },
            },
            Control::Loop { binding, max_iterations, body } => Control::Loop {
                binding: *binding,
                max_iterations: *max_iterations,
                body: body.clone(),
            },
            Control::While { condition, max_iterations, body } => Control::While {
                condition: condition.clone(),
                max_iterations: *max_iterations,
                body: body.clone(),
            },
            Control::Parallel { body } => Control::Parallel { body: body.clone() },
        };
        proof {
            control_view(*self);
            control_view(r);
        }
        r
    }
}

impl Clone for Plan {
    /// A copy of the plan.
    fn clone(&self) -> (r: Plan)
        ensures
            r@ == self@,
        decreases self, 0int,
    {
        let mut batches: Vec<Vec<Step>> = Vec::new();
        let mut i: usize = 0;
        while i < self.batches.len()
            invariant
                i <= self.batches@.len(),
                decreases_to!(self => self.batches),
                batches@.len() == i,
                forall|k: int|
                    0 <= k < i ==> step_views((#[trigger] batches@[k])@) == step_views(
                        self.batches@[k]@,
                    ),
            decreases self.batches@.len() - i,
        {
            let steps = &self.batches[i];
            assert(decreases_to!(self.batches => self.batches[i as int]));
            let mut batch: Vec<Step> = Vec::new();
            let mut j: usize = 0;
            while j < steps.len()
                invariant
                    j <= steps@.len(),
                    decreases_to!(self => steps),
                    batch@.len() == j,
                    forall|k: int| 0 <= k < j ==> (#[trigger] batch@[k])@ == steps@[k]@,
                decreases steps@.len() - j,
            {
                assert(decreases_to!(steps => steps[j as int]));
                let step = steps[j].clone();
                batch.push(step);
                j += 1;
            }
            assert(step_views(batch@) =~= step_views(steps@));
            batches.push(batch);
            i += 1;
        }
        let r = Plan { batches };
        proof {
            plan_view(*self);
            plan_view(r);
            assert(batch_views(r.batches@) =~= batch_views(self.batches@));
        }
        r
    }
}

/// The steps of a plan in execution order, nested plans included.
pub open spec fn plan_steps(p: PlanView) -> Seq<StepView>
    decreases p, 0int,
{
    batches_steps(p.batches, 0)
}

/// The steps of the batches from position `i` on.
pub open spec fn batches_steps(batches: Seq<Seq<StepView>>, i: int) -> Seq<StepView>
    decreases batches, batches.len() - i,
    via batches_steps_decreases
{
    if i < 0 || i >= batches.len() {
        Seq::empty()
    } else {
        batch_steps(batches[i], 0) + batches_steps(batches, i + 1)
    }
}

#[via_fn]
proof fn batches_steps_decreases(batches: Seq<Seq<StepView>>, i: int) {
    if 0 <= i < batches.len() {
        assert(decreases_to!(batches => batches[i]));
    }
}

/// The steps of a batch from position `j` on, each with those nested in it.
pub open spec fn batch_steps(steps: Seq<StepView>, j: int) -> Seq<StepView>
    decreases steps, steps.len() - j,
    via batch_steps_decreases
{
    if j < 0 || j >= steps.len() {
        Seq::empty()
    } else {
        seq![steps[j]] + nested_steps(steps[j].control) + batch_steps(steps, j + 1)
    }
}

#[via_fn]
proof fn batch_steps_decreases(steps: Seq<StepView>, j: int) {
    if 0 <= j < steps.len() {
        assert(decreases_to!(steps => steps[j]));
        assert(decreases_to!(steps[j] => steps[j].control));
    }
}

/// The steps nested in a control operation.
pub open spec fn nested_steps(control: Option<ControlView>) -> Seq<StepView>
    decreases control, 0int,
{
    match control {
        None => Seq::empty(),
        Some(ControlView::If { taken, otherwise }) => plan_steps(taken) + match otherwise {
            Some(p) => plan_steps(p),
            None => Seq::empty(),
        },
        Some(ControlView::Loop { body, .. }) => plan_steps(body),
        Some(ControlView::While { condition, body, .. }) => plan_steps(condition) + plan_steps(body),
        Some(ControlView::Parallel { body }) => plan_steps(body),
    }
}

/// The content of a list of steps.
pub open spec fn steps_seen(steps: Seq<&Step>) -> Seq<StepView> {
    Seq::new(steps.len(), |i: int| steps[i]@)
}

/// How many steps the first `n` batches hold.
pub open spec fn step_count(batches: Seq<Seq<StepView>>, n: int) -> nat
    decreases n,
{
    if n <= 0 {
        0
    } else {
        step_count(batches, n - 1) + batches[n - 1].len()
    }
}

/// The width of the widest of the first `n` batches.
pub open spec fn widest(batches: Seq<Seq<StepView>>, n: int) -> nat
    decreases n,
{
    if n <= 0 {
        0
    } else if batches[n - 1].len() > widest(batches, n - 1) {
        batches[n - 1].len()
    } else {
        widest(batches, n - 1)
    }
}

impl Plan {
    fn push_steps<'a>(&'a self, out: &mut Vec<&'a Step>)
        ensures
            steps_seen(final(out)@) == steps_seen(old(out)@) + plan_steps(self@),
        decreases self, 1int,
    {
        proof {
            plan_view(*self);
        }
        let ghost start = steps_seen(out@);
        let ghost batches = self@.batches;
        let mut i: usize = 0;
        while i < self.batches.len()
            invariant
                i <= self.batches@.len(),
                batches == batch_views(self.batches@),
                steps_seen(out@) + batches_steps(batches, i as int) == start + batches_steps(
                    batches,
                    0,
                ),
            decreases self.batches@.len() - i,
        {
            let batch = &self.batches[i];
            let ghost steps = step_views(batch@);
            let ghost middle = steps_seen(out@);
            assert(batches[i as int] == steps);
            let mut j: usize = 0;
            while j < batch.len()
                invariant
                    j <= batch@.len(),
                    i < self.batches@.len(),
                    batch@ == self.batches@[i as int]@,
                    *batch == self.batches@[i as int],
                    steps == step_views(batch@),
                    steps_seen(out@) + batch_steps(steps, j as int) == middle + batch_steps(
                        steps,
                        0,
                    ),
                decreases batch@.len() - j,
            {
                let step = &batch[j];
                let ghost before = steps_seen(out@);
                proof {
                    step_view(*step);
                    assert(decreases_to!(self => self.batches));
                    assert(decreases_to!(self.batches => self.batches[i as int]));
                    assert(decreases_to!(batch => batch[j as int]));
                }
                out.push(step);
                assert(steps_seen(out@) =~= before + seq![step@]);
                let ghost pushed = steps_seen(out@);
                if let Some(control) = &step.control {
                    proof {
                        control_view(**control);
                    }
                    match &**control {
                        Control::If { taken, otherwise } => {
                            taken.push_steps(out);
                            if let Some(other) = otherwise {
                                other.push_steps(out);
                            }
                        },
                        Control::Loop { body, .. } => {
                            body.push_steps(out);
                        },
                        Control::While { condition, body, .. } => {
                            condition.push_steps(out);
                            body.push_steps(out);
                        },
                        Control::Parallel { body } => {
                            body.push_steps(out);
                        },
                    }
                }
                assert(steps_seen(out@) =~= pushed + nested_steps(step@.control));
                assert(before + batch_steps(steps, j as int) =~= steps_seen(out@) + batch_steps(
                    steps,
                    j + 1,
                ));
                j += 1;
            }
            assert(steps_seen(out@) =~= middle + batch_steps(steps, 0));
            assert(middle + batches_steps(batches, i as int) =~= steps_seen(out@) + batches_steps(
                batches,
                i + 1,
            ));
            i += 1;
        }
        assert(steps_seen(out@) =~= start + plan_steps(self@));
    }

    /// Every step, flattened into execution order, nested plans included.
    pub fn steps(&self) -> (r: Vec<&Step>)
        ensures
            steps_seen(r@) == plan_steps(self@),
    {
        let mut out: Vec<&Step> = Vec::new();
        self.push_steps(&mut out);
        assert(steps_seen(out@) =~= plan_steps(self@));
        out
    }

    /// How many steps the plan holds at this level. The count stops at the
    /// largest `usize`.
    pub fn len(&self) -> (r: usize)
        ensures
            r == capped(step_count(self@.batches, self@.batches.len() as int)),
    {
        proof {
            plan_view(*self);
        }
        let ghost batches = self@.batches;
        let mut total: usize = 0;
        let mut n: usize = 0;
        while n < self.batches.len()
            invariant
                n <= self.batches@.len(),
                batches == batch_views(self.batches@),
                total == capped(step_count(batches, n as int)),
            decreases self.batches@.len() - n,
        {
            assert(batches[n as int].len() == self.batches@[n as int]@.len());
            total = capped_sum(total, self.batches[n].len());
            n += 1;
        }
        total
    }

    /// Whether the plan does nothing.
    pub fn is_empty(&self) -> (r: bool)
        ensures
            r == (step_count(self@.batches, self@.batches.len() as int) == 0),
    {
        self.len() == 0
    }

    /// The widest batch: the most concurrency the schedule asks for.
    pub fn max_width(&self) -> (r: usize)
        ensures
            r == widest(self@.batches, self@.batches.len() as int),
    {
        proof {
            plan_view(*self);
        }
        let ghost batches = self@.batches;
        let mut width: usize = 0;
        let mut n: usize = 0;
        while n < self.batches.len()
            invariant
                n <= self.batches@.len(),
                batches == batch_views(self.batches@),
                width == widest(batches, n as int),
            decreases self.batches@.len() - n,
        {
            assert(batches[n as int].len() == self.batches@[n as int]@.len());
            if self.batches[n].len() > width {
                width = self.batches[n].len();
            }
            n += 1;
        }
        width
    }
}

/// A lowered program, ready for a runtime.
#[derive(Debug, PartialEq)]
pub struct ExecutionPlan {
    /// The module this came from.
    pub module: String,
    /// The IR version.
    pub version: u64,
    /// The function that was lowered.
    pub function: String,
    /// The backend the lowering targeted.
    pub backend: String,
    /// The function's parameters, in order.
    pub parameters: Vec<ValueId>,
    /// The scheduled body.
    pub plan: Plan,
    /// The whole plan's estimated cost, with parallel batches counted as
    /// concurrent.
    pub estimated: Cost,
    /// Anything the scheduler wants to report: a degraded strategy, a budget
    /// that could not be met.
    pub notes: Vec<Diagnostic>,
}

/// The mathematical content of an [`ExecutionPlan`].
#[verifier::ext_equal]
pub ghost struct ExecutionPlanView {
    pub module: Seq<char>,
    pub version: u64,
    pub function: Seq<char>,
    pub backend: Seq<char>,
    pub parameters: Seq<ValueId>,
    pub plan: PlanView,
    pub estimated: Cost,
    pub notes: Seq<DiagnosticView>,
}

impl View for ExecutionPlan {
    type V = ExecutionPlanView;

    open spec fn view(&self) -> ExecutionPlanView {
        ExecutionPlanView {
            module: self.module@,
            version: self.version,
            function: self.function@,
            backend: self.backend@,
            parameters: self.parameters@,
            plan: self.plan@,
            estimated: self.estimated,
            notes: Seq::new(self.notes@.len(), |i: int| self.notes@[i]@),
        }
    }
}

impl Clone for ExecutionPlan {
    /// A copy of the plan.
    fn clone(&self) -> (r: ExecutionPlan)
        ensures
            r@ == self@,
    {
        let r = ExecutionPlan {
            module: self.module.clone(),
            version: self.version,
            function: self.function.clone(),
            backend: self.backend.clone(),
            parameters: copy_all(&self.parameters),
            plan: self.plan.clone(),
            estimated: self.estimated,
            notes: clone_all(&self.notes),
        };
        assert(r@ =~= self@);
        r
    }
}

/// Maps IR operations onto runtime operations.
///
/// Implementing this is what it takes to run Agent IR on another agent
/// framework: the analyses, the passes and the verifier are untouched, only
/// this table changes.
pub trait Backend {
    /// The backend's name.
    spec fn label(&self) -> Seq<char>;

    /// What an operation is lowered to, or why it cannot be.
    spec fn lowered(&self, m: ModuleView, op: OperationId) -> Result<TargetView, DiagnosticView>;

    /// The backend's name, recorded in the plan and in the event log.
    fn name(&self) -> (r: &'static str)
        ensures
            r@ == self.label(),
    ;

    /// Lowers one operation, or explains why it cannot.
    fn lower(&self, module: &Module, op: OperationId) -> (r: Result<RuntimeTarget, Diagnostic>)
        requires
            module@.has_op(op),
        ensures
            match r {
                Ok(target) => self.lowered(module@, op) == Ok::<TargetView, DiagnosticView>(
                    target@,
                ),
                Err(d) => self.lowered(module@, op) == Err::<TargetView, DiagnosticView>(d@),
            },
    ;
}

/// A text, or another one where there is none.
pub open spec fn text_or(text: Option<Seq<char>>, fallback: Seq<char>) -> Seq<char> {
    match text {
        Some(t) => t,
        None => fallback,
    }
}

/// What the reference backend lowers an operation to. The rule for actions and
/// calls: a stochastic one is a model call, any other is a tool call.
pub open spec fn generic_target(o: OperationView) -> Result<TargetView, DiagnosticView> {
    let literal = text_or(o.literal, Seq::empty());
    match builtin_of(o.name) {
        Some(b) => Ok(TargetView::Builtin(b)),
        None => if o.name.is("memory"@, "read"@) {
            Ok(TargetView::Memory { operation: MemoryOp::Read, key: o.str_attr("key"@) })
        } else if o.name.is("memory"@, "write"@) {
            Ok(TargetView::Memory { operation: MemoryOp::Write, key: o.str_attr("key"@) })
        } else if o.name.is("memory"@, "search"@) {
            Ok(TargetView::Memory { operation: MemoryOp::Search, key: o.str_attr("key"@) })
        } else if o.name.is("agent"@, "plan"@) {
            Ok(
                TargetView::Inference {
                    model: text_or(o.str_attr("model"@), "default"@),
                    backend: "generic"@,
                },
            )
        } else if o.name.is("agent"@, "action"@) || o.name.is("tool"@, "call"@) {
            if o.effect is Stochastic {
                Ok(
                    TargetView::Inference {
                        model: text_or(o.str_attr("model"@), literal),
                        backend: "generic"@,
                    },
                )
            } else {
                Ok(TargetView::ToolCall { tool: text_or(o.str_attr("tool"@), literal) })
            }
        } else {
            Err(
                DiagnosticView::plain(
                    Severity::Error,
                    "lowering"@,
                    "the generic backend has no lowering for `"@ + o.name.text() + "`"@,
                ).at(o.id).suggest(
                    "implement `Backend::lower` for this operation, or remove it before lowering"@,
                ),
            )
        },
    }
}

/// The reference backend: dispatches by effect class, with no framework
/// assumptions beyond the dialects themselves.
#[derive(Clone, Copy, Debug)]
pub struct GenericRuntime;

impl Default for GenericRuntime {
    fn default() -> (r: GenericRuntime)
        ensures
            r == GenericRuntime,
    {
        GenericRuntime
    }
}

fn optional_string(text: Option<&str>) -> (r: Option<String>)
    ensures
        r is Some == text is Some,
        text matches Some(t) ==> optional_text(r) == Some(t@),
{
    match text {
        Some(t) => Some(String::from_str(t)),
        None => None,
    }
}

fn string_or(text: Option<&str>, fallback: &str) -> (r: String)
    ensures
        r@ == match text {
            Some(t) => t@,
            None => fallback@,
        },
{
    match text {
        Some(t) => String::from_str(t),
        None => String::from_str(fallback),
    }
}

impl Backend for GenericRuntime {
    open spec fn label(&self) -> Seq<char> {
        "generic"@
    }

    open spec fn lowered(&self, m: ModuleView, op: OperationId) -> Result<
        TargetView,
        DiagnosticView,
    > {
        generic_target(m.op(op))
    }

    fn name(&self) -> (r: &'static str) {
        "generic"
    }

    fn lower(&self, module: &Module, op: OperationId) -> (r: Result<RuntimeTarget, Diagnostic>) {
        let operation = module.op(op);
        let name = &operation.name;
        if let Some(builtin) = find_builtin(name) {
            return Ok(RuntimeTarget::Builtin(builtin));
        }
        if name.is("memory", "read") {
            return Ok(
                RuntimeTarget::Memory {
                    operation: MemoryOp::Read,
                    key: optional_string(operation.str_attr("key")),
                },
            );
        }
        if name.is("memory", "write") {
            return Ok(
                RuntimeTarget::Memory {
                    operation: MemoryOp::Write,
                    key: optional_string(operation.str_attr("key")),
                },
            );
        }
        if name.is("memory", "search") {
            return Ok(
                RuntimeTarget::Memory {
                    operation: MemoryOp::Search,
                    key: optional_string(operation.str_attr("key")),
                },
            );
        }
        if name.is("agent", "plan") {
            return Ok(
                RuntimeTarget::Inference {
                    model: string_or(operation.str_attr("model"), "default"),
                    backend: String::from_str(self.name()),
                },
            );
        }
        // A stochastic action is a model call, an effectful one is a tool call.
        if name.is("agent", "action") || name.is("tool", "call") {
            let literal: String = match &operation.literal {
                Some(l) => l.clone(),
                None => String::new(),
            };
            if matches!(operation.effect, Effect::Stochastic) {
                return Ok(
                    RuntimeTarget::Inference {
                        model: string_or(operation.str_attr("model"), literal.as_str()),
                        backend: String::from_str(self.name()),
                    },
                );
            }
            return Ok(
                RuntimeTarget::ToolCall {
                    tool: string_or(operation.str_attr("tool"), literal.as_str()),
                },
            );
        }
        let mut message = String::from_str("the generic backend has no lowering for `");
        name.push_text(&mut message);
        message.append("`");
        Err(
            Diagnostic::error("lowering", message).at(operation.id).suggest(
                "implement `Backend::lower` for this operation, or remove it before lowering",
            ),
        )
    }
}

} // verus!
