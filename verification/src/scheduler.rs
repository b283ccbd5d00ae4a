//! The scheduler.
//!
//! Takes the optimized module, orders it, batches what may run together,
//! estimates the cost, and degrades the strategy when the budget cannot be met.
//!
//! ```text
//! optimized plan → topological sort → batch independent nodes
//!                → estimate cost → budget sufficient? → execution plan
//!                                                     ↘ degraded strategy ↺
//! ```
//!
//! This is a greedy heuristic, not an optimizer. Batching independent nodes in
//! topological order and degrading on overrun is enough to close the loop, and
//! it is honest about being enough rather than optimal.
//!
//! Unlike parallelization, the scheduler may batch operations that are not
//! adjacent. It is allowed to, because it does not rewrite the program: every
//! dependency edge runs from a lower batch to a higher one, so batch order is a
//! valid topological order and nothing observable moves.

use vstd::prelude::*;
use vstd::string::*;

use crate::copying::copy_all;
use crate::cost::{count_attr, read_count, Budget, Cost, Overrun};
use crate::dependency::{graph_of, DependencyGraph, GraphView};
use crate::diagnostic::{rejects, Diagnostic, DiagnosticView, Diagnostics, Severity};
use crate::effect::EffectView;
use crate::effects::{effect_table, lists_conflict, recorded, EffectSummary};
use crate::ids::{BlockId, OperationId, RegionId, ValueId};
use crate::module::{Module, ModuleView, Operation, OperationView};
use crate::plan::{
    batch_views, control_view, plan_steps, plan_view, step_view, step_views, steps_seen, Backend,
    Builtin, Control, ControlView, ExecutionPlan, ExecutionPlanView, Plan, PlanView, RuntimeTarget,
    Step, StepView, TargetView,
};
use crate::text::{copy_optional_text, nat_text, push_nat};
use crate::traversal::all_live;

verus! {

/// How much one step is assumed to cost before anything has been measured.
///
/// Every field can be overridden per operation with `est_*` attributes, which
/// is how a benchmark run feeds real numbers back into the IR instead of
/// leaving them hard-coded here.
#[derive(Clone, Copy, Debug, PartialEq, Eq, Structural)]
pub struct Estimator {
    /// Assumed cost of one tool call.
    pub tool_call: Cost,
    /// Assumed cost of one model call.
    pub inference: Cost,
    /// Assumed cost of one memory operation.
    pub memory: Cost,
    /// Assumed cost of an operation the runtime evaluates itself.
    pub builtin: Cost,
}

impl Estimator {
    /// The assumptions made before anything has been measured.
    pub open spec fn standard() -> Estimator {
        Estimator {
            tool_call: Cost { tool_calls: 1, latency_ms: 250, ..Cost::nothing() },
            inference: Cost {
                llm_calls: 1,
                input_tokens: 1000,
                output_tokens: 250,
                latency_ms: 2000,
                ..Cost::nothing()
            },
            memory: Cost { tool_calls: 1, latency_ms: 20, ..Cost::nothing() },
            builtin: Cost { latency_ms: 1, ..Cost::nothing() },
        }
    }

    /// The assumed cost for a target, before per-operation overrides.
    pub open spec fn base(self, target: TargetView) -> Cost {
        match target {
            TargetView::ToolCall { .. } => self.tool_call,
            TargetView::Inference { .. } => self.inference,
            TargetView::Memory { .. } => self.memory,
            TargetView::Builtin(_) => self.builtin,
        }
    }

    /// The cost of one operation, with any `est_*` attribute applied.
    pub open spec fn estimated(self, o: OperationView, target: TargetView) -> Cost {
        let base = self.base(target);
        Cost {
            latency_ms: match count_attr(o, "est_latency_ms"@) {
                Some(v) => v,
                None => base.latency_ms,
            },
            input_tokens: match count_attr(o, "est_input_tokens"@) {
                Some(v) => v,
                None => base.input_tokens,
            },
            output_tokens: match count_attr(o, "est_output_tokens"@) {
                Some(v) => v,
                None => base.output_tokens,
            },
            ..base
        }
    }

    /// The assumed cost for a target, before per-operation overrides.
    pub fn for_target(&self, target: &RuntimeTarget) -> (r: Cost)
        ensures
            r == self.base(target@),
    {
        match target {
            RuntimeTarget::ToolCall { .. } => self.tool_call,
            RuntimeTarget::Inference { .. } => self.inference,
            RuntimeTarget::Memory { .. } => self.memory,
            RuntimeTarget::Builtin(_) => self.builtin,
        }
    }

    /// The cost of one operation, with any `est_*` attribute applied.
    pub fn for_operation(&self, module: &Module, op: OperationId, target: &RuntimeTarget) -> (r:
        Cost)
        requires
            module@.has_op(op),
        ensures
            r == self.estimated(module@.op(op), target@),
    {
        let mut cost = self.for_target(target);
        let operation = module.op(op);
        if let Some(v) = read_count(operation, "est_latency_ms") {
            cost.latency_ms = v;
        }
        if let Some(v) = read_count(operation, "est_input_tokens") {
            cost.input_tokens = v;
        }
        if let Some(v) = read_count(operation, "est_output_tokens") {
            cost.output_tokens = v;
        }
        cost
    }
}

impl Default for Estimator {
    fn default() -> (r: Estimator)
        ensures
            r == Estimator::standard(),
    {
        Estimator {
            tool_call: Cost { tool_calls: 1, latency_ms: 250, ..Cost::zero() },
            inference: Cost {
                llm_calls: 1,
                input_tokens: 1000,
                output_tokens: 250,
                latency_ms: 2000,
                ..Cost::zero()
            },
            memory: Cost { tool_calls: 1, latency_ms: 20, ..Cost::zero() },
            builtin: Cost { latency_ms: 1, ..Cost::zero() },
        }
    }
}

/// How the scheduler responded to a budget it could not meet.
#[derive(Clone, Copy, Debug, PartialEq, Eq, Structural)]
pub enum Degradation {
    /// The budget was met without changing anything.
    NotNeeded,
    /// Loop bounds were reduced so the plan fits.
    ReducedIterations,
    /// Nothing left to reduce; a human has to decide.
    HumanReview,
}

// -------------------------------------------------------------------- costs

/// The first `n` steps of a batch, side by side.
pub open spec fn batch_cost(steps: Seq<StepView>, n: int) -> Cost
    decreases n,
{
    if n <= 0 {
        Cost::nothing()
    } else {
        batch_cost(steps, n - 1).beside(steps[n - 1].estimated)
    }
}

/// The first `n` batches, one after the other.
pub open spec fn batches_cost(batches: Seq<Seq<StepView>>, n: int) -> Cost
    decreases n,
{
    if n <= 0 {
        Cost::nothing()
    } else {
        batches_cost(batches, n - 1).after(
            batch_cost(batches[n - 1], batches[n - 1].len() as int),
        )
    }
}

/// The cost of a whole plan: batches run in sequence, steps inside a batch run
/// alongside each other.
pub open spec fn plan_cost(p: PlanView) -> Cost {
    batches_cost(p.batches, p.batches.len() as int)
}

/// The cost of a control operation with its nested plans. Of two branches the
/// slower one counts, since which one runs is not known until the condition is
/// evaluated.
pub open spec fn control_cost(c: ControlView, own: Cost) -> Cost {
    match c {
        ControlView::If { taken, otherwise } => {
            let first = plan_cost(taken);
            let second = match otherwise {
                Some(p) => plan_cost(p),
                None => Cost::nothing(),
            };
            own.after(
                if first.latency_ms >= second.latency_ms {
                    first
                } else {
                    second
                },
            )
        },
        ControlView::Loop { body, max_iterations, .. } => own.after(
            plan_cost(body).times(max_iterations as int),
        ),
        ControlView::While { condition, body, max_iterations } => own.after(
            plan_cost(condition).after(plan_cost(body)).times(max_iterations as int),
        ),
        ControlView::Parallel { body } => own.after(plan_cost(body)),
    }
}

/// The cost of a whole plan: batches run in sequence, steps inside a batch run
/// alongside each other.
pub fn estimate(plan: &Plan) -> (r: Cost)
    ensures
        r == plan_cost(plan@),
{
    proof {
        plan_view(*plan);
    }
    let ghost batches = plan@.batches;
    let mut total = Cost::zero();
    let mut n: usize = 0;
    while n < plan.batches.len()
        invariant
            n <= plan.batches@.len(),
            batches == batch_views(plan.batches@),
            total == batches_cost(batches, n as int),
        decreases plan.batches@.len() - n,
    {
        let batch = &plan.batches[n];
        let ghost steps = step_views(batch@);
        assert(batches[n as int] == steps);
        let mut concurrent = Cost::zero();
        let mut k: usize = 0;
        while k < batch.len()
            invariant
                k <= batch@.len(),
                steps == step_views(batch@),
                concurrent == batch_cost(steps, k as int),
            decreases batch@.len() - k,
        {
            proof {
                step_view(batch@[k as int]);
            }
            concurrent = concurrent.alongside(batch[k].estimated);
            k += 1;
        }
        total = total.followed_by(concurrent);
        n += 1;
    }
    total
}

/// Folds a control operation's nested plans into its own cost.
fn fold_control(control: &Control, own: Cost) -> (r: Cost)
    ensures
        r == control_cost(control@, own),
{
    proof {
        control_view(*control);
    }
    match control {
        Control::If { taken, otherwise } => {
            let first = estimate(taken);
            let second = match otherwise {
                Some(p) => estimate(p),
                None => Cost::zero(),
            };
            own.followed_by(
                if first.latency_ms >= second.latency_ms {
                    first
                } else {
                    second
                },
            )
        },
        Control::Loop { body, max_iterations, .. } => own.followed_by(
            estimate(body).repeated(*max_iterations),
        ),
        Control::While { condition, body, max_iterations } => own.followed_by(
            estimate(condition).followed_by(estimate(body)).repeated(*max_iterations),
        ),
        Control::Parallel { body } => own.followed_by(estimate(body)),
    }
}

// -------------------------------------------------------------- degradation

/// A plan with every loop bound above one halved, and the steps that hold them
/// estimated again; and whether anything could still be reduced.
pub open spec fn reduced_plan(p: PlanView) -> (PlanView, bool)
    decreases p, 0int,
{
    (
        PlanView {
            batches: Seq::new(
                p.batches.len(),
                |i: int|
                    if 0 <= i < p.batches.len() {
                        Seq::new(
                            p.batches[i].len(),
                            |j: int|
                                if 0 <= j < p.batches[i].len() {
                                    reduced_step(p.batches[i][j]).0
                                } else {
                                    arbitrary()
                                },
                        )
                    } else {
                        arbitrary()
                    },
            ),
        },
        batches_reducible(p.batches, 0),
    )
}

/// Whether some step of the batches from position `i` on could be reduced.
pub open spec fn batches_reducible(batches: Seq<Seq<StepView>>, i: int) -> bool
    decreases batches, batches.len() - i,
    via batches_reducible_decreases
{
    0 <= i < batches.len() && (steps_reducible(batches[i], 0) || batches_reducible(batches, i + 1))
}

#[via_fn]
proof fn batches_reducible_decreases(batches: Seq<Seq<StepView>>, i: int) {
    if 0 <= i < batches.len() {
        assert(decreases_to!(batches => batches[i]));
    }
}

/// Whether some step of a batch from position `j` on could be reduced.
pub open spec fn steps_reducible(steps: Seq<StepView>, j: int) -> bool
    decreases steps, steps.len() - j,
    via steps_reducible_decreases
{
    0 <= j < steps.len() && (reduced_step(steps[j]).1 || steps_reducible(steps, j + 1))
}

#[via_fn]
proof fn steps_reducible_decreases(steps: Seq<StepView>, j: int) {
    if 0 <= j < steps.len() {
        assert(decreases_to!(steps => steps[j]));
    }
}

/// A step with its loop bounds halved, and whether there were any. What a step
/// costs beside its nested plans is at most a millisecond of its own.
pub open spec fn reduced_step(s: StepView) -> (StepView, bool)
    decreases s, 0int,
{
    match s.control {
        None => (s, false),
        Some(c) => {
            let (c2, reduced) = reduced_control(c);
            let own = Cost {
                latency_ms: if s.estimated.latency_ms < 1 {
                    s.estimated.latency_ms
                } else {
                    1
                },
                ..Cost::nothing()
            };
            (
                StepView { control: Some(c2), estimated: control_cost(c2, own), ..s },
                reduced,
            )
        },
    }
}

/// Half of a bound above one.
pub open spec fn halved(bound: i64) -> i64 {
    if bound > 1 {
        (bound as int / 2) as i64
    } else {
        bound
    }
}

/// A control operation with its loop bounds halved, and whether there were any.
pub open spec fn reduced_control(c: ControlView) -> (ControlView, bool)
    decreases c, 0int,
{
    match c {
        ControlView::Loop { binding, max_iterations, body } => {
            let (b, r) = reduced_plan(body);
            (
                ControlView::Loop { binding, max_iterations: halved(max_iterations), body: b },
                max_iterations > 1 || r,
            )
        },
        ControlView::While { condition, max_iterations, body } => {
            let (c, r1) = reduced_plan(condition);
            let (b, r2) = reduced_plan(body);
            (
                ControlView::While { condition: c, max_iterations: halved(max_iterations), body: b },
                max_iterations > 1 || r1 || r2,
            )
        },
        ControlView::If { taken, otherwise } => {
            let (t, r1) = reduced_plan(taken);
            match otherwise {
                Some(p) => {
                    let (o, r2) = reduced_plan(p);
                    (ControlView::If { taken: t, otherwise: Some(o) }, r1 || r2)
                },
                None => (ControlView::If { taken: t, otherwise: None }, r1),
            }
        },
        ControlView::Parallel { body } => {
            let (b, r) = reduced_plan(body);
            (ControlView::Parallel { body: b }, r)
        },
    }
}

/// What a reduced plan holds.
pub proof fn lemma_reduced_plan(p: PlanView)
    ensures
        reduced_plan(p).0.batches.len() == p.batches.len(),
        forall|i: int|
            0 <= i < p.batches.len() ==> (#[trigger] reduced_plan(p).0.batches[i]) == Seq::new(
                p.batches[i].len(),
                |j: int| reduced_step(p.batches[i][j]).0,
            ),
        reduced_plan(p).1 == batches_reducible(p.batches, 0),
{
    reveal_with_fuel(reduced_plan, 2);
    reveal_with_fuel(reduced_step, 2);
    assert forall|i: int| 0 <= i < p.batches.len() implies (
    #[trigger] reduced_plan(p).0.batches[i]) == Seq::new(
        p.batches[i].len(),
        |j: int| reduced_step(p.batches[i][j]).0,
    ) by {
        assert(reduced_plan(p).0.batches[i] =~= Seq::new(
            p.batches[i].len(),
            |j: int| reduced_step(p.batches[i][j]).0,
        ));
    }
}

/// Halves every loop bound above one, and re-estimates the steps that hold
/// them: fewer runs rather than none. Returns whether anything could still be
/// reduced.
fn reduce_iterations(plan: Plan) -> (r: (Plan, bool))
    ensures
        (r.0@, r.1) == reduced_plan(plan@),
    decreases plan, 2int,
{
    let ghost whole = plan;
    let ghost view = plan@;
    proof {
        plan_view(plan);
        lemma_reduced_plan(view);
    }
    let ghost source = plan.batches@;
    let mut batches: Vec<Vec<Step>> = Vec::new();
    let mut reduced = false;
    for batch in it: plan.batches
        invariant
            it.seq() == source,
            source == whole.batches@,
            view.batches == batch_views(source),
            batches@.len() == it.index(),
            forall|i: int|
                0 <= i < it.index() ==> step_views((#[trigger] batches@[i])@) == Seq::new(
                    view.batches[i].len(),
                    |j: int| reduced_step(view.batches[i][j]).0,
                ),
            (reduced || batches_reducible(view.batches, it.index())) == batches_reducible(
                view.batches,
                0,
            ),
            whole == plan,
    {
        let ghost at = it.index();
        let ghost steps_in = batch@;
        assert(batch == source[at]);
        assert(view.batches[at] == step_views(steps_in));
        let mut steps: Vec<Step> = Vec::new();
        let mut here = false;
        for step in jt: batch
            invariant
                jt.seq() == steps_in,
                0 <= at < source.len(),
                steps_in == source[at]@,
                source == whole.batches@,
                view.batches[at] == step_views(steps_in),
                steps@.len() == jt.index(),
                forall|j: int|
                    0 <= j < jt.index() ==> (#[trigger] steps@[j])@ == reduced_step(
                        view.batches[at][j],
                    ).0,
                (here || steps_reducible(view.batches[at], jt.index())) == steps_reducible(
                    view.batches[at],
                    0,
                ),
                whole == plan,
        {
            let ghost k = jt.index();
            proof {
                assert(step == steps_in[k]);
                assert(view.batches[at][k] == step@);
                assert(decreases_to!(whole => whole.batches));
                assert(decreases_to!(whole.batches => whole.batches[at]));
                assert(decreases_to!(whole.batches[at] => whole.batches[at][k]));
                assert(whole.batches[at][k] == step);
            }
            let (next, changed) = reduce_step(step);
            steps.push(next);
            if changed {
                here = true;
            }
            assert(reduced_step(view.batches[at][k]).1 == changed);
        }
        proof {
            assert(step_views(steps@) =~= Seq::new(
                view.batches[at].len(),
                |j: int| reduced_step(view.batches[at][j]).0,
            ));
        }
        if here {
            reduced = true;
        }
        batches.push(steps);
    }
    let result = Plan { batches };
    proof {
        plan_view(result);
        assert(result@.batches =~= reduced_plan(view).0.batches);
    }
    (result, reduced)
}

fn reduce_step(step: Step) -> (r: (Step, bool))
    ensures
        (r.0@, r.1) == reduced_step(step@),
    decreases step, 1int,
{
    proof {
        step_view(step);
    }
    let own: u64 = if step.estimated.latency_ms < 1 {
        step.estimated.latency_ms
    } else {
        1
    };
    match step.control {
        None => (step, false),
        Some(control) => {
            let (control, reduced) = reduce_control(*control);
            // Re-fold the nested cost with the step's own base cost, which the
            // builtin estimate supplies unchanged.
            let base = Cost { latency_ms: own, ..Cost::zero() };
            let estimated = fold_control(&control, base);
            let next = Step {
                op: step.op,
                name: step.name,
                literal: step.literal,
                target: step.target,
                operands: step.operands,
                results: step.results,
                attributes: step.attributes,
                effect: step.effect,
                idempotency_key: step.idempotency_key,
                estimated,
                control: Some(Box::new(control)),
            };
            proof {
                step_view(next);
            }
            (next, reduced)
        },
    }
}

fn reduce_control(control: Control) -> (r: (Control, bool))
    ensures
        (r.0@, r.1) == reduced_control(control@),
    decreases control, 0int,
{
    proof {
        control_view(control);
    }
    match control {
        Control::Loop { binding, max_iterations, body } => {
            let (body, reduced) = reduce_iterations(body);
            let bound: i64 = if max_iterations > 1 {
                max_iterations / 2
            } else {
                max_iterations
            };
            let next = Control::Loop { binding, max_iterations: bound, body };
            proof {
                control_view(next);
            }
            (next, max_iterations > 1 || reduced)
        },
        Control::While { condition, max_iterations, body } => {
            let (condition, first) = reduce_iterations(condition);
            let (body, second) = reduce_iterations(body);
            let bound: i64 = if max_iterations > 1 {
                max_iterations / 2
            } else {
                max_iterations
            };
            let next = Control::While { condition, max_iterations: bound, body };
            proof {
                control_view(next);
            }
            (next, max_iterations > 1 || first || second)
        },
        Control::If { taken, otherwise } => {
            let (taken, first) = reduce_iterations(taken);
            match otherwise {
                Some(p) => {
                    let (other, second) = reduce_iterations(p);
                    let next = Control::If { taken, otherwise: Some(other) };
                    proof {
                        control_view(next);
                    }
                    (next, first || second)
                },
                None => {
                    let next = Control::If { taken, otherwise: None };
                    proof {
                        control_view(next);
                    }
                    (next, first)
                },
            }
        },
        Control::Parallel { body } => {
            let (body, reduced) = reduce_iterations(body);
            let next = Control::Parallel { body };
            proof {
                control_view(next);
            }
            (next, reduced)
        },
    }
}

// -------------------------------------------------------------- scheduling

/// Whether an operation ends its block.
pub open spec fn is_terminator(o: OperationView) -> bool {
    o.name.is("agent"@, "return"@) || o.name.is("control"@, "yield"@)
}

/// How many regions of an operation the plan of it needs.
pub open spec fn planned_regions(o: OperationView) -> nat {
    if o.name.is("control"@, "if"@) {
        if o.regions.len() >= 2 {
            2
        } else {
            1
        }
    } else if o.name.is("control"@, "loop"@) {
        1
    } else if o.name.is("control"@, "while"@) {
        2
    } else if o.name.is("control"@, "parallel"@) {
        1
    } else {
        0
    }
}

/// Whether every control operation in a block, and in the blocks it nests, has
/// the regions its plan is made of, each with a first block.
pub open spec fn block_plannable(m: ModuleView, block: BlockId, fuel: nat) -> bool
    decreases fuel, 1int,
{
    forall|i: int|
        0 <= i < m.live(m.block(block).ops).len() ==> op_plannable(
            m,
            #[trigger] m.live(m.block(block).ops)[i],
            fuel,
        )
}

/// Whether an operation has the regions its plan is made of, each with a first
/// block that has them in turn.
pub open spec fn op_plannable(m: ModuleView, op: OperationId, fuel: nat) -> bool
    decreases fuel, 0int,
{
    let o = m.op(op);
    &&& planned_regions(o) <= o.regions.len()
    &&& forall|k: int|
        0 <= k < planned_regions(o) ==> m.region(#[trigger] o.regions[k]).blocks.len() > 0 && (fuel
            > 0 ==> block_plannable(m, m.region(o.regions[k]).blocks[0], (fuel - 1) as nat))
}

/// The key the tool runtime checks before it re-executes a step: the module,
/// its version, and the operation.
pub open spec fn idempotency_key(m: ModuleView, o: OperationView) -> Option<Seq<char>> {
    if o.effect.is_replayable() {
        None
    } else {
        Some(
            m.name + ":"@ + nat_text(m.version as nat) + ":"@ + nat_text(
                o.id.spec_index() as nat,
            ),
        )
    }
}

/// What planning depends on beside the module: the backend and the estimates.
pub ghost struct Planner<B> {
    pub backend: B,
    pub estimator: Estimator,
    pub table: Seq<Seq<EffectView>>,
}

/// The plan of the first block of a region, and the errors met.
pub open spec fn region_plan<B: Backend>(
    p: Planner<B>,
    m: ModuleView,
    region: RegionId,
    fuel: nat,
) -> (PlanView, Seq<DiagnosticView>)
    decreases fuel, 5int, 0int,
{
    block_plan(p, m, m.region(region).blocks[0], fuel)
}

/// The plan of a block, and the errors met: one batch for every level of the
/// dependency graph, and then one for every terminator. A terminator always
/// runs last, on its own, whatever level it landed in: batching it beside
/// another operation would let that operation run after the function has
/// returned.
pub open spec fn block_plan<B: Backend>(
    p: Planner<B>,
    m: ModuleView,
    block: BlockId,
    fuel: nat,
) -> (PlanView, Seq<DiagnosticView>)
    decreases fuel, 4int, 0int,
{
    let g = graph_of(m, block, p.table);
    let levels = g.levels();
    let ends = g.order.filter(|op: OperationId| is_terminator(m.op(op)));
    let (batches, e1) = level_batches(p, m, levels, levels.len() as int, fuel);
    let (last, e2) = end_batches(p, m, ends, ends.len() as int, fuel);
    (PlanView { batches: batches + last }, e1 + e2)
}

/// The batches of the first `n` levels; a level without steps has none.
pub open spec fn level_batches<B: Backend>(
    p: Planner<B>,
    m: ModuleView,
    levels: Seq<Seq<OperationId>>,
    n: int,
    fuel: nat,
) -> (Seq<Seq<StepView>>, Seq<DiagnosticView>)
    decreases fuel, 3int, n,
{
    if n <= 0 {
        (Seq::empty(), Seq::empty())
    } else {
        let (batches, e1) = level_batches(p, m, levels, n - 1, fuel);
        let ops = levels[n - 1];
        let (batch, e2) = level_batch(p, m, ops, ops.len() as int, fuel);
        (
            if batch.len() > 0 {
                batches.push(batch)
            } else {
                batches
            },
            e1 + e2,
        )
    }
}

/// The steps of the first `n` operations of a level, terminators aside.
pub open spec fn level_batch<B: Backend>(
    p: Planner<B>,
    m: ModuleView,
    ops: Seq<OperationId>,
    n: int,
    fuel: nat,
) -> (Seq<StepView>, Seq<DiagnosticView>)
    decreases fuel, 2int, n,
{
    if n <= 0 {
        (Seq::empty(), Seq::empty())
    } else {
        let (steps, e1) = level_batch(p, m, ops, n - 1, fuel);
        if is_terminator(m.op(ops[n - 1])) {
            (steps, e1)
        } else {
            let (step, e2) = step_plan(p, m, ops[n - 1], fuel);
            (
                match step {
                    Some(s) => steps.push(s),
                    None => steps,
                },
                e1 + e2,
            )
        }
    }
}

/// One batch for each of the first `n` terminators.
pub open spec fn end_batches<B: Backend>(
    p: Planner<B>,
    m: ModuleView,
    ops: Seq<OperationId>,
    n: int,
    fuel: nat,
) -> (Seq<Seq<StepView>>, Seq<DiagnosticView>)
    decreases fuel, 2int, n,
{
    if n <= 0 {
        (Seq::empty(), Seq::empty())
    } else {
        let (batches, e1) = end_batches(p, m, ops, n - 1, fuel);
        let (step, e2) = step_plan(p, m, ops[n - 1], fuel);
        (
            match step {
                Some(s) => batches.push(seq![s]),
                None => batches,
            },
            e1 + e2,
        )
    }
}

/// The step of an operation, if the backend can lower it, and the errors met.
pub open spec fn step_plan<B: Backend>(
    p: Planner<B>,
    m: ModuleView,
    op: OperationId,
    fuel: nat,
) -> (Option<StepView>, Seq<DiagnosticView>)
    decreases fuel, 1int, 0int,
{
    let o = m.op(op);
    match p.backend.lowered(m, op) {
        Err(d) => (None, seq![d]),
        Ok(target) => {
            let (control, errors) = control_plan(p, m, o, fuel);
            let own = p.estimator.estimated(o, target);
            (
                Some(
                    StepView {
                        op,
                        name: o.name.text(),
                        literal: o.literal,
                        target,
                        operands: o.operands,
                        results: o.results,
                        attributes: o.attributes,
                        effect: o.effect,
                        idempotency_key: idempotency_key(m, o),
                        estimated: match control {
                            Some(c) => control_cost(c, own),
                            None => own,
                        },
                        control,
                    },
                ),
                errors,
            )
        },
    }
}

/// The bound of a loop; once when none is stated.
pub open spec fn loop_bound(o: OperationView) -> i64 {
    match o.int_attr("max_iterations"@) {
        Some(v) => v,
        None => 1,
    }
}

/// The first argument of a block.
pub open spec fn first_arg(m: ModuleView, block: BlockId) -> Option<ValueId> {
    if m.block(block).args.len() > 0 {
        Some(m.block(block).args[0])
    } else {
        None
    }
}

/// The nested plans of a control operation, and the errors met.
pub open spec fn control_plan<B: Backend>(
    p: Planner<B>,
    m: ModuleView,
    o: OperationView,
    fuel: nat,
) -> (Option<ControlView>, Seq<DiagnosticView>)
    decreases fuel, 0int, 0int,
{
    if fuel == 0 {
        (None, Seq::empty())
    } else if o.name.is("control"@, "if"@) {
        let (taken, e1) = region_plan(p, m, o.regions[0], (fuel - 1) as nat);
        if o.regions.len() >= 2 {
            let (other, e2) = region_plan(p, m, o.regions[1], (fuel - 1) as nat);
            (Some(ControlView::If { taken, otherwise: Some(other) }), e1 + e2)
        } else {
            (Some(ControlView::If { taken, otherwise: None }), e1)
        }
    } else if o.name.is("control"@, "loop"@) {
        let (body, e1) = region_plan(p, m, o.regions[0], (fuel - 1) as nat);
        (
            Some(
                ControlView::Loop {
                    binding: first_arg(m, m.region(o.regions[0]).blocks[0]),
                    max_iterations: loop_bound(o),
                    body,
                },
            ),
            e1,
        )
    } else if o.name.is("control"@, "while"@) {
        let (condition, e1) = region_plan(p, m, o.regions[0], (fuel - 1) as nat);
        let (body, e2) = region_plan(p, m, o.regions[1], (fuel - 1) as nat);
        (
            Some(ControlView::While { condition, max_iterations: loop_bound(o), body }),
            e1 + e2,
        )
    } else if o.name.is("control"@, "parallel"@) {
        let (body, e1) = region_plan(p, m, o.regions[0], (fuel - 1) as nat);
        (Some(ControlView::Parallel { body }), e1)
    } else {
        (None, Seq::empty())
    }
}

/// The budget that the first `agent.budget` of some operations declares.
pub open spec fn declared_budget(m: ModuleView, ops: Seq<OperationId>, from: int) -> Option<Budget>
    decreases ops.len() - from,
{
    if from >= ops.len() {
        None
    } else if m.op(ops[from]).name.is("agent"@, "budget"@) {
        Some(Budget::declared(m.op(ops[from])))
    } else {
        declared_budget(m, ops, from + 1)
    }
}

/// A plan on its way to fit a budget.
#[verifier::ext_equal]
pub ghost struct Fitting {
    pub plan: PlanView,
    pub estimated: Cost,
    pub notes: Seq<DiagnosticView>,
    pub degradation: Degradation,
}

/// The note on loop bounds that were halved.
pub open spec fn degraded_note(overrun: Overrun) -> DiagnosticView {
    DiagnosticView::plain(
        Severity::Warning,
        "degraded"@,
        "the "@ + overrun.text()
            + " was exceeded; loop bounds were halved and the plan re-estimated"@,
    )
}

/// The note on a budget that cannot be met.
pub open spec fn budget_note(overrun: Overrun, estimated: Cost) -> DiagnosticView {
    DiagnosticView::plain(
        Severity::Error,
        "budget"@,
        "the "@ + overrun.text() + " cannot be met: the plan still costs "@ + estimated.text()
            + " after degrading"@,
    ).suggest(
        "raise the budget, simplify the program, or route the decision through HUMAN_REVIEW"@,
    )
}

/// Halves the loop bounds of a plan until it fits the budget, nothing is left
/// to halve, or it was done `times` times.
pub open spec fn degraded(s: Fitting, budget: Budget, times: nat) -> Fitting
    decreases times,
{
    if times == 0 {
        s
    } else {
        match budget.first_overrun(s.estimated) {
            None => s,
            Some(overrun) => {
                let (plan, reduced) = reduced_plan(s.plan);
                if reduced {
                    degraded(
                        Fitting {
                            plan,
                            estimated: plan_cost(plan),
                            notes: s.notes.push(degraded_note(overrun)),
                            degradation: Degradation::ReducedIterations,
                        },
                        budget,
                        (times - 1) as nat,
                    )
                } else {
                    // Nothing is left to halve, but what was halved before is
                    // estimated again.
                    Fitting { plan, degradation: Degradation::HumanReview, ..s }
                }
            },
        }
    }
}

/// A plan fitted to a budget as far as possible, with a note when it still
/// does not fit.
pub open spec fn fitted(plan: PlanView, budget: Budget, times: nat) -> Fitting {
    let s = degraded(
        Fitting {
            plan,
            estimated: plan_cost(plan),
            notes: Seq::empty(),
            degradation: Degradation::NotNeeded,
        },
        budget,
        times,
    );
    match budget.first_overrun(s.estimated) {
        None => s,
        Some(overrun) => Fitting {
            notes: s.notes.push(budget_note(overrun, s.estimated)),
            degradation: Degradation::HumanReview,
            ..s
        },
    }
}

/// The error for a function that is not there.
pub open spec fn no_function(function: Seq<char>) -> DiagnosticView {
    DiagnosticView::plain(
        Severity::Error,
        "schedule"@,
        "no `agent.func \""@ + function + "\"` in this module"@,
    ).suggest("check the function name, or list the module's functions first"@)
}

/// The schedule of one function: the errors when there is no such function or
/// an operation has no lowering, the plan fitted to the budget otherwise.
pub open spec fn scheduled<B: Backend>(
    p: Planner<B>,
    budget: Budget,
    times: nat,
    m: ModuleView,
    function: Seq<char>,
) -> Result<ExecutionPlanView, Seq<DiagnosticView>> {
    match m.function(function) {
        None => Err(seq![no_function(function)]),
        Some(func) => {
            let entry = m.region(m.op(func).regions[0]).blocks[0];
            let (plan, errors) = block_plan(p, m, entry, m.regions.len());
            let limits = match declared_budget(m, m.live(m.block(entry).ops), 0) {
                Some(b) => b,
                None => budget,
            };
            if rejects(errors) {
                Err(errors)
            } else {
                let s = fitted(plan, limits, times);
                Ok(
                    ExecutionPlanView {
                        module: m.name,
                        version: m.version,
                        function,
                        backend: p.backend.label(),
                        parameters: m.block(entry).args,
                        plan: s.plan,
                        estimated: s.estimated,
                        notes: s.notes,
                    },
                )
            }
        },
    }
}

/// Whether a function, if it is there, can be planned.
pub open spec fn function_plannable(m: ModuleView, function: Seq<char>) -> bool {
    m.function(function) matches Some(func) ==> {
        &&& m.op(func).regions.len() > 0
        &&& m.region(m.op(func).regions[0]).blocks.len() > 0
        &&& block_plannable(m, m.region(m.op(func).regions[0]).blocks[0], m.regions.len())
    }
}

/// Orders and batches a verified module into an [`ExecutionPlan`].
pub struct Scheduler<B: Backend> {
    backend: B,
    estimator: Estimator,
    budget: Budget,
    max_degradations: usize,
}

impl<B: Backend> Scheduler<B> {
    /// The backend.
    pub closed spec fn spec_backend(self) -> B {
        self.backend
    }

    /// The per-target cost assumptions.
    pub closed spec fn spec_estimator(self) -> Estimator {
        self.estimator
    }

    /// The budget that applies when the program declares none.
    pub closed spec fn spec_budget(self) -> Budget {
        self.budget
    }

    /// How often loop bounds may be halved.
    pub closed spec fn patience(self) -> nat {
        self.max_degradations as nat
    }

    /// What planning depends on beside the module.
    pub open spec fn planner(self, table: Seq<Seq<EffectView>>) -> Planner<B> {
        Planner { backend: self.spec_backend(), estimator: self.spec_estimator(), table }
    }

    /// A scheduler for one backend, with no budget constraint.
    pub fn new(backend: B) -> (r: Scheduler<B>)
        ensures
            r.spec_backend() == backend,
            r.spec_estimator() == Estimator::standard(),
            r.spec_budget() == Budget::open(),
            r.patience() == 6,
    {
        Scheduler {
            backend,
            estimator: Estimator::default(),
            budget: Budget::unlimited(),
            max_degradations: 6,
        }
    }

    /// Constrains the schedule to a budget.
    pub fn with_budget(self, budget: Budget) -> (r: Scheduler<B>)
        ensures
            r.spec_backend() == self.spec_backend(),
            r.spec_estimator() == self.spec_estimator(),
            r.spec_budget() == budget,
            r.patience() == self.patience(),
    {
        Scheduler {
            backend: self.backend,
            estimator: self.estimator,
            budget,
            max_degradations: self.max_degradations,
        }
    }

    /// Replaces the per-target cost assumptions.
    pub fn with_estimator(self, estimator: Estimator) -> (r: Scheduler<B>)
        ensures
            r.spec_backend() == self.spec_backend(),
            r.spec_estimator() == estimator,
            r.spec_budget() == self.spec_budget(),
            r.patience() == self.patience(),
    {
        Scheduler {
            backend: self.backend,
            estimator,
            budget: self.budget,
            max_degradations: self.max_degradations,
        }
    }

    /// The budget an `agent.budget` operation declares in the entry block.
    fn declared_budget(&self, module: &Module, entry: BlockId) -> (r: Option<Budget>)
        requires
            module@.in_bounds(),
            module@.has_block(entry),
        ensures
            r == declared_budget(module@, module@.live(module@.block(entry).ops), 0),
    {
        let ghost m = module@;
        proof {
            assert(m.block_in_bounds(m.blocks[entry.spec_index()]));
            crate::traversal::lemma_live(m, m.block(entry).ops);
        }
        let ops = module.live_ops_of(entry);
        let mut i: usize = 0;
        while i < ops.len()
            invariant
                i <= ops@.len(),
                m == module@,
                all_live(m, ops@),
                ops@ == m.live(m.block(entry).ops),
                declared_budget(m, ops@, 0) == declared_budget(m, ops@, i as int),
            decreases ops@.len() - i,
        {
            assert(m.has_op(ops@[i as int]));
            let operation = module.op(ops[i]);
            if operation.name.is("agent", "budget") {
                return Some(Budget::from_attributes(operation));
            }
            i += 1;
        }
        None
    }

    /// Halves loop bounds until the plan fits the budget, and notes it.
    fn degrade(&self, plan: Plan, budget: &Budget, notes: &mut Vec<Diagnostic>) -> (r: (
        Plan,
        Cost,
        Degradation,
    ))
        requires
            old(notes)@.len() == 0,
        ensures
            (Fitting {
                plan: r.0@,
                estimated: r.1,
                notes: Seq::new(final(notes)@.len(), |i: int| final(notes)@[i]@),
                degradation: r.2,
            }) == fitted(plan@, *budget, self.patience()),
    {
        let mut current = plan;
        let mut estimated = estimate(&current);
        let mut degradation = Degradation::NotNeeded;
        let ghost total = degraded(
            Fitting {
                plan: plan@,
                estimated,
                notes: Seq::empty(),
                degradation: Degradation::NotNeeded,
            },
            *budget,
            self.patience(),
        );
        let mut left: usize = self.max_degradations;
        let mut done = false;
        assert(Seq::new(notes@.len(), |i: int| notes@[i]@) =~= Seq::<DiagnosticView>::empty());
        while !done
            invariant
                !done ==> degraded(
                    Fitting {
                        plan: current@,
                        estimated,
                        notes: Seq::new(notes@.len(), |i: int| notes@[i]@),
                        degradation,
                    },
                    *budget,
                    left as nat,
                ) == total,
                done ==> (Fitting {
                    plan: current@,
                    estimated,
                    notes: Seq::new(notes@.len(), |i: int| notes@[i]@),
                    degradation,
                }) == total,
            decreases left, (if done { 0int } else { 1int }),
        {
            if left == 0 {
                done = true;
            } else {
                match budget.overrun(&estimated) {
                    None => {
                        done = true;
                    },
                    Some(overrun) => {
                        let (next, reduced) = reduce_iterations(current);
                        current = next;
                        if reduced {
                            degradation = Degradation::ReducedIterations;
                            estimated = estimate(&current);
                            let mut message = String::from_str("the ");
                            message.append(overrun.as_words());
                            message.append(
                                " was exceeded; loop bounds were halved and the plan re-estimated",
                            );
                            let ghost before = notes@;
                            let note = Diagnostic::warning("degraded", message);
                            let ghost nv = note@;
                            notes.push(note);
                            assert(Seq::new(notes@.len(), |i: int| notes@[i]@) =~= Seq::new(
                                before.len(),
                                |i: int| before[i]@,
                            ).push(nv));
                            left -= 1;
                        } else {
                            degradation = Degradation::HumanReview;
                            done = true;
                        }
                    },
                }
            }
        }
        if let Some(overrun) = budget.overrun(&estimated) {
            degradation = Degradation::HumanReview;
            let mut message = String::from_str("the ");
            message.append(overrun.as_words());
            message.append(" cannot be met: the plan still costs ");
            message.append(estimated.to_string().as_str());
            message.append(" after degrading");
            let ghost before = notes@;
            let note = Diagnostic::error("budget", message).suggest(
                "raise the budget, simplify the program, or route the decision through HUMAN_REVIEW",
            );
            let ghost nv = note@;
            notes.push(note);
            assert(Seq::new(notes@.len(), |i: int| notes@[i]@) =~= Seq::new(
                before.len(),
                |i: int| before[i]@,
            ).push(nv));
        }
        (current, estimated, degradation)
    }

    fn schedule_block(
        &self,
        module: &Module,
        block: BlockId,
        effects: &EffectSummary,
        errors: &mut Diagnostics,
        Ghost(levels): Ghost<Seq<nat>>,
        Ghost(region): Ghost<RegionId>,
        Ghost(fuel): Ghost<nat>,
    ) -> (r: Plan)
        requires
            module@.in_bounds(),
            module@.leveled(levels),
            module@.has_region(region),
            module@.region(region).blocks.len() > 0,
            module@.region(region).blocks[0] == block,
            fuel + levels[region.spec_index()] >= module@.regions.len(),
            block_plannable(module@, block, fuel),
        ensures
            ({
                let (plan, found) = block_plan(self.planner(effects@), module@, block, fuel);
                r@ == plan && final(errors)@ == old(errors)@ + found
            }),
        decreases fuel, 4int,
    {
        let ghost m = module@;
        let ghost p = self.planner(effects@);
        let ghost g = graph_of(m, block, effects@);
        proof {
            assert(m.region_in_bounds(m.regions[region.spec_index()]));
            assert(m.has_block(m.regions[region.spec_index()].blocks[0]));
            assert(m.leveled(levels));
            assert(m.block_in_bounds(m.blocks[block.spec_index()]));
            crate::traversal::lemma_live(m, m.block(block).ops);
        }
        let graph = DependencyGraph::of_block(module, block, effects);
        let batches_of = graph.levels();
        let ghost all_levels = g.levels();
        let ghost before = errors@;
        let mut batches: Vec<Vec<Step>> = Vec::new();
        let mut n: usize = 0;
        assert(errors@ =~= before + level_batches(p, m, all_levels, 0, fuel).1);
        assert(batch_views(batches@) =~= level_batches(p, m, all_levels, 0, fuel).0);
        while n < batches_of.len()
            invariant
                n <= batches_of@.len(),
                m == module@,
                p == self.planner(effects@),
                g == graph_of(m, block, effects@),
                g.well_formed(),
                all_levels == g.levels(),
                all_levels.len() == batches_of@.len(),
                forall|l: int| 0 <= l < all_levels.len() ==> #[trigger] all_levels[l] == batches_of@[l]@,
                m.in_bounds(),
                m.leveled(levels),
                m.has_region(region),
                m.region(region).blocks.len() > 0,
                m.region(region).blocks[0] == block,
                fuel + levels[region.spec_index()] >= m.regions.len(),
                block_plannable(m, block, fuel),
                batch_views(batches@) == level_batches(p, m, all_levels, n as int, fuel).0,
                errors@ == before + level_batches(p, m, all_levels, n as int, fuel).1,
            decreases batches_of@.len() - n,
        {
            let ops = &batches_of[n];
            let ghost found = errors@;
            let ghost listed = batch_views(batches@);
            proof {
                assert(all_levels[n as int] == ops@);
                lemma_level_members(g, n as nat);
            }
            let batch = self.schedule_level(
                module,
                block,
                ops,
                effects,
                errors,
                Ghost(levels),
                Ghost(region),
                Ghost(fuel),
            );
            if batch.len() > 0 {
                let ghost view = step_views(batch@);
                batches.push(batch);
                assert(batch_views(batches@) =~= listed.push(view));
            }
            n += 1;
            assert(errors@ =~= before + level_batches(p, m, all_levels, n as int, fuel).1);
        }
        let ghost body = batch_views(batches@);
        let ghost middle = errors@;
        let ghost is_end = |op: OperationId| is_terminator(m.op(op));
        let ghost ends = g.order.filter(is_end);
        let order = graph.operations();
        let mut i: usize = 0;
        proof {
            reveal(Seq::filter);
            assert(order@.take(0).filter(is_end) =~= Seq::empty());
            assert(batch_views(batches@) =~= body + end_batches(p, m, ends, 0, fuel).0);
            assert(errors@ =~= middle + end_batches(p, m, ends, 0, fuel).1);
        }
        while i < order.len()
            invariant
                i <= order@.len(),
                m == module@,
                p == self.planner(effects@),
                order@ == g.order,
                g == graph_of(m, block, effects@),
                all_live(m, g.order),
                is_end == |op: OperationId| is_terminator(m.op(op)),
                ends == g.order.filter(is_end),
                m.in_bounds(),
                m.leveled(levels),
                m.has_region(region),
                m.region(region).blocks.len() > 0,
                m.region(region).blocks[0] == block,
                fuel + levels[region.spec_index()] >= m.regions.len(),
                block_plannable(m, block, fuel),
                ({
                    let k = order@.take(i as int).filter(is_end).len() as int;
                    &&& batch_views(batches@) == body + end_batches(p, m, ends, k, fuel).0
                    &&& errors@ == middle + end_batches(p, m, ends, k, fuel).1
                }),
            decreases order@.len() - i,
        {
            let op = order[i];
            let ghost k = order@.take(i as int).filter(is_end).len() as int;
            let ghost listed = batch_views(batches@);
            let ghost found = errors@;
            proof {
                assert(m.has_op(g.order[i as int]));
                reveal(Seq::filter);
                assert(order@.take(i + 1).drop_last() =~= order@.take(i as int));
            }
            let name = &module.op(op).name;
            if name.is("agent", "return") || name.is("control", "yield") {
                proof {
                    crate::printer::lemma_filter_index(g.order, is_end, i as int);
                    assert(op_plannable(m, m.live(m.block(block).ops)[i as int], fuel));
                }
                let step = self.lower_step(
                    module,
                    op,
                    effects,
                    errors,
                    Ghost(levels),
                    Ghost(region),
                    Ghost(i as int),
                    Ghost(fuel),
                );
                if let Some(s) = step {
                    let ghost view = s@;
                    let mut batch: Vec<Step> = Vec::new();
                    batch.push(s);
                    assert(step_views(batch@) =~= seq![view]);
                    batches.push(batch);
                    assert(batch_views(batches@) =~= listed.push(seq![view]));
                }
                proof {
                    assert(batch_views(batches@) =~= body + end_batches(p, m, ends, k + 1, fuel).0);
                    assert(errors@ =~= middle + end_batches(p, m, ends, k + 1, fuel).1);
                }
            }
            i += 1;
        }
        assert(order@.take(i as int) =~= order@);
        let plan = Plan { batches };
        proof {
            plan_view(plan);
            assert(errors@ =~= before + block_plan(p, m, block, fuel).1);
        }
        plan
    }

    /// Lowers the operations of one level, terminators aside.
    fn schedule_level(
        &self,
        module: &Module,
        block: BlockId,
        ops: &Vec<OperationId>,
        effects: &EffectSummary,
        errors: &mut Diagnostics,
        Ghost(levels): Ghost<Seq<nat>>,
        Ghost(region): Ghost<RegionId>,
        Ghost(fuel): Ghost<nat>,
    ) -> (r: Vec<Step>)
        requires
            module@.in_bounds(),
            module@.leveled(levels),
            module@.has_region(region),
            module@.region(region).blocks.len() > 0,
            module@.region(region).blocks[0] == block,
            fuel + levels[region.spec_index()] >= module@.regions.len(),
            block_plannable(module@, block, fuel),
            forall|i: int|
                0 <= i < ops@.len() ==> module@.live(module@.block(block).ops).contains(
                    #[trigger] ops@[i],
                ),
        ensures
            ({
                let (steps, found) = level_batch(
                    self.planner(effects@),
                    module@,
                    ops@,
                    ops@.len() as int,
                    fuel,
                );
                step_views(r@) == steps && final(errors)@ == old(errors)@ + found
            }),
        decreases fuel, 3int,
    {
        let ghost m = module@;
        let ghost p = self.planner(effects@);
        let ghost live = m.live(m.block(block).ops);
        let ghost before = errors@;
        proof {
            assert(m.region_in_bounds(m.regions[region.spec_index()]));
            assert(m.has_block(m.regions[region.spec_index()].blocks[0]));
            assert(m.block_in_bounds(m.blocks[block.spec_index()]));
            crate::traversal::lemma_live(m, m.block(block).ops);
        }
        let mut steps: Vec<Step> = Vec::new();
        let mut n: usize = 0;
        assert(step_views(steps@) =~= level_batch(p, m, ops@, 0, fuel).0);
        assert(errors@ =~= before + level_batch(p, m, ops@, 0, fuel).1);
        while n < ops.len()
            invariant
                n <= ops@.len(),
                m == module@,
                p == self.planner(effects@),
                live == m.live(m.block(block).ops),
                all_live(m, live),
                m.in_bounds(),
                m.leveled(levels),
                m.has_region(region),
                m.region(region).blocks.len() > 0,
                m.region(region).blocks[0] == block,
                fuel + levels[region.spec_index()] >= m.regions.len(),
                block_plannable(m, block, fuel),
                forall|i: int| 0 <= i < ops@.len() ==> live.contains(#[trigger] ops@[i]),
                step_views(steps@) == level_batch(p, m, ops@, n as int, fuel).0,
                errors@ == before + level_batch(p, m, ops@, n as int, fuel).1,
            decreases ops@.len() - n,
        {
            let op = ops[n];
            assert(live.contains(ops@[n as int]));
            let ghost at = choose|at: int| 0 <= at < live.len() && live[at] == op;
            assert(m.has_op(live[at]));
            let name = &module.op(op).name;
            if !(name.is("agent", "return") || name.is("control", "yield")) {
                let ghost listed = step_views(steps@);
                let ghost found = errors@;
                proof {
                    assert(op_plannable(m, live[at], fuel));
                }
                let step = self.lower_step(
                    module,
                    op,
                    effects,
                    errors,
                    Ghost(levels),
                    Ghost(region),
                    Ghost(at),
                    Ghost(fuel),
                );
                if let Some(s) = step {
                    let ghost view = s@;
                    steps.push(s);
                    assert(step_views(steps@) =~= listed.push(view));
                }
            }
            n += 1;
            assert(errors@ =~= before + level_batch(p, m, ops@, n as int, fuel).1);
        }
        steps
    }

    fn lower_step(
        &self,
        module: &Module,
        op: OperationId,
        effects: &EffectSummary,
        errors: &mut Diagnostics,
        Ghost(levels): Ghost<Seq<nat>>,
        Ghost(region): Ghost<RegionId>,
        Ghost(at): Ghost<int>,
        Ghost(fuel): Ghost<nat>,
    ) -> (r: Option<Step>)
        requires
            module@.in_bounds(),
            module@.leveled(levels),
            module@.has_region(region),
            module@.region(region).blocks.len() > 0,
            0 <= at < module@.live(module@.block(module@.region(region).blocks[0]).ops).len(),
            module@.live(module@.block(module@.region(region).blocks[0]).ops)[at] == op,
            module@.has_op(op),
            fuel + levels[region.spec_index()] >= module@.regions.len(),
            op_plannable(module@, op, fuel),
        ensures
            ({
                let (step, found) = step_plan(self.planner(effects@), module@, op, fuel);
                (match r {
                    Some(s) => step == Some(s@),
                    None => step is None,
                }) && final(errors)@ == old(errors)@ + found
            }),
        decreases fuel, 2int,
    {
        let ghost m = module@;
        let operation = module.op(op);
        let ghost o = m.op(op);
        proof {
            assert(m.op_in_bounds(m.ops[op.spec_index()]));
        }
        let target = match self.backend.lower(module, op) {
            Ok(target) => target,
            Err(diagnostic) => {
                errors.push(diagnostic);
                assert(errors@ =~= old(errors)@ + seq![diagnostic@]);
                return None;
            },
        };
        let control = self.lower_control(
            module,
            op,
            effects,
            errors,
            Ghost(levels),
            Ghost(region),
            Ghost(at),
            Ghost(fuel),
        );
        // Anything that is not safely repeatable carries a key the tool runtime
        // checks before re-executing it after a crash.
        let key: Option<String> = if operation.effect.is_replayable() {
            None
        } else {
            let mut key = module.name.clone();
            key.append(":");
            push_nat(&mut key, module.version);
            key.append(":");
            push_nat(&mut key, operation.id.number() as u64);
            Some(key)
        };
        let mut estimated = self.estimator.for_operation(module, op, &target);
        if let Some(c) = &control {
            estimated = fold_control(c, estimated);
        }
        let step = Step {
            op,
            name: operation.name.to_string(),
            literal: copy_optional_text(&operation.literal),
            target,
            operands: copy_all(&operation.operands),
            results: copy_all(&operation.results),
            attributes: operation.attributes.clone(),
            effect: operation.effect.clone(),
            idempotency_key: key,
            estimated,
            control: match control {
                Some(c) => Some(Box::new(c)),
                None => None,
            },
        };
        proof {
            step_view(step);
        }
        Some(step)
    }

    fn lower_control(
        &self,
        module: &Module,
        op: OperationId,
        effects: &EffectSummary,
        errors: &mut Diagnostics,
        Ghost(levels): Ghost<Seq<nat>>,
        Ghost(region): Ghost<RegionId>,
        Ghost(at): Ghost<int>,
        Ghost(fuel): Ghost<nat>,
    ) -> (r: Option<Control>)
        requires
            module@.in_bounds(),
            module@.leveled(levels),
            module@.has_region(region),
            module@.region(region).blocks.len() > 0,
            0 <= at < module@.live(module@.block(module@.region(region).blocks[0]).ops).len(),
            module@.live(module@.block(module@.region(region).blocks[0]).ops)[at] == op,
            module@.has_op(op),
            fuel + levels[region.spec_index()] >= module@.regions.len(),
            op_plannable(module@, op, fuel),
        ensures
            ({
                let (control, found) = control_plan(
                    self.planner(effects@),
                    module@,
                    module@.op(op),
                    fuel,
                );
                (match r {
                    Some(c) => control == Some(c@),
                    None => control is None,
                }) && final(errors)@ == old(errors)@ + found
            }),
        decreases fuel, 1int,
    {
        let ghost m = module@;
        let operation = module.op(op);
        let ghost o = m.op(op);
        proof {
            assert(m.op_in_bounds(m.ops[op.spec_index()]));
            lemma_nested_levels(m, levels, region, at);
            assert(errors@ =~= errors@ + Seq::<DiagnosticView>::empty());
        }
        let ghost inner = (fuel - 1) as nat;
        if operation.name.is("control", "if") {
            let taken = self.schedule_region(
                module,
                op,
                0,
                effects,
                errors,
                Ghost(levels),
                Ghost(region),
                Ghost(fuel),
            );
            let mut otherwise: Option<Plan> = None;
            let ghost middle = errors@;
            if operation.regions.len() >= 2 {
                let other = self.schedule_region(
                    module,
                    op,
                    1,
                    effects,
                    errors,
                    Ghost(levels),
                    Ghost(region),
                    Ghost(fuel),
                );
                otherwise = Some(other);
            }
            let control = Control::If { taken, otherwise };
            proof {
                control_view(control);
                assert(errors@ =~= old(errors)@ + control_plan(
                    self.planner(effects@),
                    m,
                    o,
                    fuel,
                ).1);
            }
            return Some(control);
        }
        if operation.name.is("control", "loop") {
            proof {
                assert(m.has_region(o.regions[0]));
                assert(m.region_in_bounds(m.regions[o.regions[0].spec_index()]));
                assert(m.has_block(m.region(o.regions[0]).blocks[0]));
            }
            let entry = module.region(operation.regions[0]).blocks[0];
            let args = &module.block(entry).args;
            let binding: Option<ValueId> = if args.len() > 0 {
                Some(args[0])
            } else {
                None
            };
            let body = self.schedule_region(
                module,
                op,
                0,
                effects,
                errors,
                Ghost(levels),
                Ghost(region),
                Ghost(fuel),
            );
            let control = Control::Loop { binding, max_iterations: read_bound(operation), body };
            proof {
                control_view(control);
            }
            return Some(control);
        }
        if operation.name.is("control", "while") {
            let condition = self.schedule_region(
                module,
                op,
                0,
                effects,
                errors,
                Ghost(levels),
                Ghost(region),
                Ghost(fuel),
            );
            let body = self.schedule_region(
                module,
                op,
                1,
                effects,
                errors,
                Ghost(levels),
                Ghost(region),
                Ghost(fuel),
            );
            let control = Control::While {
                condition,
                max_iterations: read_bound(operation),
                body,
            };
            proof {
                control_view(control);
                assert(errors@ =~= old(errors)@ + control_plan(
                    self.planner(effects@),
                    m,
                    o,
                    fuel,
                ).1);
            }
            return Some(control);
        }
        if operation.name.is("control", "parallel") {
            let body = self.schedule_region(
                module,
                op,
                0,
                effects,
                errors,
                Ghost(levels),
                Ghost(region),
                Ghost(fuel),
            );
            let control = Control::Parallel { body };
            proof {
                control_view(control);
            }
            return Some(control);
        }
        None
    }

    /// Schedules the first block of one of the regions an operation owns.
    fn schedule_region(
        &self,
        module: &Module,
        op: OperationId,
        k: usize,
        effects: &EffectSummary,
        errors: &mut Diagnostics,
        Ghost(levels): Ghost<Seq<nat>>,
        Ghost(outer): Ghost<RegionId>,
        Ghost(fuel): Ghost<nat>,
    ) -> (r: Plan)
        requires
            module@.in_bounds(),
            module@.leveled(levels),
            module@.has_region(outer),
            module@.has_op(op),
            k < planned_regions(module@.op(op)),
            fuel + levels[outer.spec_index()] >= module@.regions.len(),
            forall|n: int|
                0 <= n < module@.op(op).regions.len() ==> levels[(
                #[trigger] module@.op(op).regions[n]).spec_index()] > levels[outer.spec_index()],
            op_plannable(module@, op, fuel),
        ensures
            fuel > 0,
            ({
                let (plan, found) = region_plan(
                    self.planner(effects@),
                    module@,
                    module@.op(op).regions[k as int],
                    (fuel - 1) as nat,
                );
                r@ == plan && final(errors)@ == old(errors)@ + found
            }),
        decreases fuel, 0int,
    {
        let ghost m = module@;
        let ghost o = m.op(op);
        proof {
            assert(m.op_in_bounds(m.ops[op.spec_index()]));
            assert(m.has_region(o.regions[k as int]));
            assert(levels[o.regions[k as int].spec_index()] > levels[outer.spec_index()]);
            assert(levels[o.regions[k as int].spec_index()] < m.regions.len());
            assert(m.region(o.regions[k as int]).blocks.len() > 0);
        }
        let region = module.op(op).regions[k];
        let block = module.region(region).blocks[0];
        self.schedule_block(
            module,
            block,
            effects,
            errors,
            Ghost(levels),
            Ghost(region),
            Ghost((fuel - 1) as nat),
        )
    }

    /// Schedules one function.
    ///
    /// Fails only when the function is missing or an operation has no lowering;
    /// a budget that cannot be met degrades the strategy and reports it rather
    /// than refusing.
    pub fn schedule(&self, module: &Module, function: &str) -> (r: Result<
        ExecutionPlan,
        Diagnostics,
    >)
        requires
            module@.well_formed(),
            function_plannable(module@, function@),
        ensures
            match r {
                Ok(plan) => scheduled(
                    self.planner(effect_table(module@)),
                    self.spec_budget(),
                    self.patience(),
                    module@,
                    function@,
                ) == Ok::<ExecutionPlanView, Seq<DiagnosticView>>(plan@),
                Err(errors) => scheduled(
                    self.planner(effect_table(module@)),
                    self.spec_budget(),
                    self.patience(),
                    module@,
                    function@,
                ) == Err::<ExecutionPlanView, Seq<DiagnosticView>>(errors@),
            },
    {
        let ghost m = module@;
        let ghost levels = choose|levels: Seq<nat>| m.leveled(levels);
        let mut errors = Diagnostics::new();
        let func = match module.function(function) {
            Some(func) => func,
            None => {
                let mut message = String::from_str("no `agent.func \"");
                message.append(function);
                message.append("\"` in this module");
                errors.push(
                    Diagnostic::error("schedule", message).suggest(
                        "check the function name, or list the module's functions first",
                    ),
                );
                assert(errors@ =~= seq![no_function(function@)]);
                return Err(errors);
            },
        };
        proof {
            assert(m.op_in_bounds(m.ops[func.spec_index()]));
            assert(m.has_region(m.op(func).regions[0]));
        }
        let region = module.op(func).regions[0];
        proof {
            assert(m.region_in_bounds(m.regions[region.spec_index()]));
            assert(m.has_block(m.region(region).blocks[0]));
        }
        let entry = module.region(region).blocks[0];
        let parameters = copy_all(&module.block(entry).args);
        let effects = EffectSummary::build(module);
        let budget = match self.declared_budget(module, entry) {
            Some(b) => b,
            None => self.budget,
        };
        let plan = self.schedule_block(
            module,
            entry,
            &effects,
            &mut errors,
            Ghost(levels),
            Ghost(region),
            Ghost(m.regions.len()),
        );
        proof {
            let found = block_plan(self.planner(effects@), m, entry, m.regions.len()).1;
            assert(errors@ =~= found);
        }
        if errors.has_errors() {
            return Err(errors);
        }
        let mut notes: Vec<Diagnostic> = Vec::new();
        let (plan, estimated, degradation) = self.degrade(plan, &budget, &mut notes);
        Ok(
            ExecutionPlan {
                module: module.name.clone(),
                version: module.version,
                function: String::from_str(function),
                backend: String::from_str(self.backend.name()),
                parameters,
                plan,
                estimated,
                notes,
            },
        )
    }
}

fn read_bound(operation: &Operation) -> (r: i64)
    ensures
        r == loop_bound(operation@),
{
    match operation.int_attr("max_iterations") {
        Some(v) => v,
        None => 1,
    }
}

/// Everything nested in an operation of the first block of a region lies
/// deeper than the region.
proof fn lemma_nested_levels(m: ModuleView, levels: Seq<nat>, region: RegionId, at: int)
    requires
        m.in_bounds(),
        m.leveled(levels),
        m.has_region(region),
        m.region(region).blocks.len() > 0,
        0 <= at < m.live(m.block(m.region(region).blocks[0]).ops).len(),
    ensures
        ({
            let op = m.live(m.block(m.region(region).blocks[0]).ops)[at];
            forall|n: int|
                0 <= n < m.op(op).regions.len() ==> levels[(
                #[trigger] m.op(op).regions[n]).spec_index()] > levels[region.spec_index()]
        }),
{
    let r = region.spec_index();
    let ops = m.block(m.region(region).blocks[0]).ops;
    let op = m.live(ops)[at];
    crate::printer::lemma_filter_member(ops, |op: OperationId| !m.op(op).erased, at);
    let k = choose|k: int| 0 <= k < ops.len() && ops[k] == op;
    assert forall|n: int| 0 <= n < m.op(op).regions.len() implies levels[(
    #[trigger] m.op(op).regions[n]).spec_index()] > levels[r] by {
        assert(m.has_child(r, 0, k, n));
        assert(m.child(r, 0, k, n) == m.op(op).regions[n]);
    }
}

proof fn lemma_level_members(g: GraphView, level: nat)
    requires
        g.well_formed(),
    ensures
        forall|i: int|
            0 <= i < g.level(level).len() ==> g.order.contains(#[trigger] g.level(level)[i]),
{
    assert forall|i: int| 0 <= i < g.level(level).len() implies g.order.contains(
        #[trigger] g.level(level)[i],
    ) by {
        crate::dependency::level_members(g, level, i);
    }
}

/// Convenience: the first overrun of a plan against a budget.
pub fn overrun_of(plan: &ExecutionPlan, budget: &Budget) -> (r: Option<Overrun>)
    ensures
        r == budget.first_overrun(plan@.estimated),
{
    budget.overrun(&plan.estimated)
}

/// The function's steps, flattened. Handy in tests and on the command line.
pub fn flatten(plan: &ExecutionPlan) -> (r: Vec<&Step>)
    ensures
        steps_seen(r@) == plan_steps(plan@.plan),
{
    plan.plan.steps()
}

/// Whether a step reaches outside the program.
pub fn is_external(step: &Step) -> (r: bool)
    ensures
        r == !(step@.target is Builtin),
{
    proof {
        step_view(*step);
    }
    !matches!(step.target, RuntimeTarget::Builtin(_))
}

/// Whether a step is the runtime's own evaluation of `builtin`.
pub fn is_builtin(step: &Step, builtin: Builtin) -> (r: bool)
    ensures
        r == (step@.target == TargetView::Builtin(builtin)),
{
    proof {
        step_view(*step);
    }
    match &step.target {
        RuntimeTarget::Builtin(b) => *b == builtin,
        _ => false,
    }
}

// -------------------------------------------------------------------- laws

/// A step carries an idempotency key exactly when re-running it is not free.
pub proof fn unrepeatable_steps_are_keyed<B: Backend>(
    p: Planner<B>,
    m: ModuleView,
    op: OperationId,
    fuel: nat,
)
    ensures
        step_plan(p, m, op, fuel).0 matches Some(s) ==> s.idempotency_key is Some
            == !s.effect.is_replayable() && s.op == op,
{
}

/// Two operations of a module never share an idempotency key.
pub proof fn keys_identify_operations(m: ModuleView, a: OperationView, b: OperationView)
    requires
        idempotency_key(m, a) is Some,
        idempotency_key(m, a) == idempotency_key(m, b),
    ensures
        a.id == b.id,
{
    let prefix = m.name + ":"@ + nat_text(m.version as nat) + ":"@;
    let x = nat_text(a.id.spec_index() as nat);
    let y = nat_text(b.id.spec_index() as nat);
    let n = prefix.len() as int;
    assert(x =~= (prefix + x).skip(n));
    assert(y =~= (prefix + y).skip(n));
    crate::text::nat_text_injective(a.id.spec_index() as nat, b.id.spec_index() as nat);
}

/// Degrading never raises a loop bound, and leaves a bound of at least one at
/// least one.
pub proof fn degrading_never_raises_a_bound(bound: i64)
    ensures
        halved(bound) <= bound,
        bound >= 1 ==> halved(bound) >= 1,
{
}

/// A budget that is not met is never passed over in silence: a fitted plan
/// either fits, or its last note says that it does not.
pub proof fn an_unmet_budget_is_reported(plan: PlanView, budget: Budget, times: nat)
    ensures
        ({
            let s = fitted(plan, budget, times);
            budget.first_overrun(s.estimated) matches Some(overrun) ==> s.notes.len() > 0
                && s.notes.last() == budget_note(overrun, s.estimated) && s.notes.last().is_error()
        }),
{
}

proof fn lemma_level_batch_ops<B: Backend>(
    p: Planner<B>,
    m: ModuleView,
    ops: Seq<OperationId>,
    n: int,
    fuel: nat,
)
    requires
        0 <= n <= ops.len(),
        ops.no_duplicates(),
    ensures
        ({
            let steps = level_batch(p, m, ops, n, fuel).0;
            &&& forall|i: int|
                0 <= i < steps.len() ==> ops.take(n).contains((#[trigger] steps[i]).op)
            &&& forall|i: int, j: int|
                0 <= i < j < steps.len() ==> (#[trigger] steps[i]).op != (#[trigger] steps[j]).op
        }),
    decreases n,
{
    if n > 0 {
        lemma_level_batch_ops(p, m, ops, n - 1, fuel);
        unrepeatable_steps_are_keyed(p, m, ops[n - 1], fuel);
        let before = level_batch(p, m, ops, n - 1, fuel).0;
        let after = level_batch(p, m, ops, n, fuel).0;
        let x = ops.take(n - 1);
        let y = ops.take(n);
        assert(!x.contains(ops[n - 1])) by {
            if x.contains(ops[n - 1]) {
                let k = choose|k: int| 0 <= k < x.len() && x[k] == ops[n - 1];
                assert(ops[k] == ops[n - 1]);
            }
        }
        assert forall|i: int| 0 <= i < after.len() implies y.contains((#[trigger] after[i]).op) by {
            if i < before.len() {
                assert(after[i] == before[i]);
                let k = choose|k: int| 0 <= k < x.len() && x[k] == before[i].op;
                assert(y[k] == before[i].op);
            } else {
                assert(y[n - 1] == ops[n - 1]);
            }
        }
        assert forall|i: int, j: int| 0 <= i < j < after.len() implies (#[trigger] after[i]).op != (
        #[trigger] after[j]).op by {
            assert(after[i] == before[i]);
            if j < before.len() {
                assert(after[j] == before[j]);
            } else {
                assert(x.contains(before[i].op));
            }
        }
    }
}

proof fn lemma_level_distinct(g: GraphView, level: nat, n: int)
    requires
        g.order.no_duplicates(),
        n <= g.order.len(),
    ensures
        g.level_within(level, n).no_duplicates(),
        forall|i: int|
            0 <= i < g.level_within(level, n).len() ==> g.order.take(
                if n < 0 {
                    0
                } else {
                    n
                },
            ).contains(#[trigger] g.level_within(level, n)[i]),
    decreases n,
{
    if n > 0 {
        lemma_level_distinct(g, level, n - 1);
        let before = g.level_within(level, n - 1);
        let after = g.level_within(level, n);
        let x = g.order.take(n - 1);
        let y = g.order.take(n);
        let op = g.order[n - 1];
        assert(!x.contains(op)) by {
            if x.contains(op) {
                let k = choose|k: int| 0 <= k < x.len() && x[k] == op;
                assert(g.order[k] == g.order[n - 1]);
            }
        }
        assert forall|i: int| 0 <= i < after.len() implies y.contains(#[trigger] after[i]) by {
            if i < before.len() {
                assert(after[i] == before[i]);
                let k = choose|k: int| 0 <= k < x.len() && x[k] == before[i];
                assert(y[k] == before[i]);
            } else {
                assert(y[n - 1] == op);
            }
        }
        assert forall|i: int, j: int|
            0 <= i < after.len() && 0 <= j < after.len() && i != j implies after[i] != after[j] by {
            if i < before.len() {
                assert(x.contains(before[i]));
            }
            if j < before.len() {
                assert(x.contains(before[j]));
            }
        }
    }
}

/// Two steps of one batch come from operations that do not conflict, and the
/// later of which reads nothing that the earlier produces: they may run at the
/// same time.
pub proof fn a_batch_is_independent<B: Backend>(
    p: Planner<B>,
    m: ModuleView,
    block: BlockId,
    level: nat,
    fuel: nat,
    s: int,
    t: int,
)
    requires
        m.in_bounds(),
        m.has_block(block),
        ({
            let ops = graph_of(m, block, p.table).level(level);
            0 <= s < t < level_batch(p, m, ops, ops.len() as int, fuel).0.len()
        }),
    ensures
        ({
            let g = graph_of(m, block, p.table);
            let ops = g.level(level);
            let steps = level_batch(p, m, ops, ops.len() as int, fuel).0;
            &&& steps[s].op != steps[t].op
            &&& !lists_conflict(recorded(p.table, steps[s].op), recorded(p.table, steps[t].op))
            &&& exists|i: int, j: int|
                #![trigger g.order[i], g.order[j]]
                0 <= i < g.order.len() && 0 <= j < g.order.len() && g.order[i] == steps[s].op
                    && g.order[j] == steps[t].op && (if i < j {
                    !m.data_edge(g.order, i, j)
                } else {
                    !m.data_edge(g.order, j, i)
                })
        }),
{
    let g = graph_of(m, block, p.table);
    crate::dependency::graphs_are_well_formed(m, block, p.table);
    let ops = g.level(level);
    lemma_level_distinct(g, level, g.order.len() as int);
    lemma_level_batch_ops(p, m, ops, ops.len() as int, fuel);
    assert(ops.take(ops.len() as int) =~= ops);
    let steps = level_batch(p, m, ops, ops.len() as int, fuel).0;
    assert(ops.contains(steps[s].op));
    assert(ops.contains(steps[t].op));
    let a = choose|a: int| 0 <= a < ops.len() && ops[a] == steps[s].op;
    let b = choose|b: int| 0 <= b < ops.len() && ops[b] == steps[t].op;
    crate::dependency::level_members(g, level, a);
    crate::dependency::level_members(g, level, b);
    let i = choose|i: int|
        0 <= i < g.order.len() && #[trigger] g.order[i] == ops[a] && g.depth(i) == level;
    let j = choose|j: int|
        0 <= j < g.order.len() && #[trigger] g.order[j] == ops[b] && g.depth(j) == level;
    assert(i != j);
    let (lo, hi) = if i < j {
        (i, j)
    } else {
        (j, i)
    };
    crate::dependency::a_level_is_independent(m, block, p.table, lo, hi);
    assert(lists_conflict(recorded(p.table, g.order[lo]), recorded(p.table, g.order[hi]))
        == lists_conflict(recorded(p.table, g.order[hi]), recorded(p.table, g.order[lo]))) by {
        lemma_lists_conflict_symmetric(
            recorded(p.table, g.order[lo]),
            recorded(p.table, g.order[hi]),
        );
    }
}

proof fn lemma_lists_conflict_symmetric(a: Seq<EffectView>, b: Seq<EffectView>)
    ensures
        lists_conflict(a, b) == lists_conflict(b, a),
{
    if lists_conflict(a, b) {
        let (i, j) = choose|i: int, j: int|
            0 <= i < a.len() && 0 <= j < b.len() && (#[trigger] a[i]).conflicts_with(
                #[trigger] b[j],
            );
        crate::effect::conflicts_are_symmetric(a[i], b[j]);
        assert(b[j].conflicts_with(a[i]));
    }
    if lists_conflict(b, a) {
        let (i, j) = choose|i: int, j: int|
            0 <= i < b.len() && 0 <= j < a.len() && (#[trigger] b[i]).conflicts_with(
                #[trigger] a[j],
            );
        crate::effect::conflicts_are_symmetric(b[i], a[j]);
        assert(a[j].conflicts_with(b[i]));
    }
}

} // verus!
