//! What an estimate promises.
//!
//! A cost counts five things, and an estimate adds up each of them over what
//! would run: one step after the other, every iteration of a loop. The calls
//! that a run makes are then no more than the calls its plan was estimated at,
//! whatever the world answers, so a plan that fits the calls it was given
//! stays within them.

use vstd::prelude::*;

use crate::assoc::lookup;
use crate::control::{both, only};
use crate::cost::{stopped, Budget, Cost};
use crate::dependency::graph_of;
use crate::durability::extends;
use crate::env::{ReplyView, RequestView};
use crate::execution::{
    batch_run, batches_run, body_stops, effective_key, external_run, function_run, is_control,
    items_of, loop_run, perform, plan_run, request_of, started, step_run, while_ends, while_run,
    FlowView, RunView, RuntimeErrorView,
};
use crate::guarantees::{
    all_allowed, batch_allowed, degrading_allows, parts_allowed, plan_allowed, step_allowed,
    survives_halving,
};
use crate::ids::{BlockId, OperationId, RegionId, ValueId};
use crate::module::ModuleView;
use crate::plan::{plan_steps, ControlView, GenericRuntime, PlanView, StepView, TargetView};
use crate::scheduler::{
    batch_cost, batches_cost, block_plan, control_cost, declared_budget, degraded, degraded_note,
    end_batches, is_terminator, level_batch, level_batches, plan_cost, reduced_plan, reduced_step,
    region_plan, scheduled, step_plan, Degradation, Estimator, Fitting, Planner,
};
use crate::value::ValueView;

verus! {

// ------------------------------------------------------------------ counting

/// The things a cost counts.
pub ghost enum Measure {
    /// Tokens sent to a model.
    Input,
    /// Tokens produced by a model.
    Output,
    /// Calls of a model.
    Models,
    /// Calls of a tool.
    Tools,
    /// Milliseconds.
    Latency,
}

/// How much of a measure a cost holds.
pub open spec fn amount(c: Cost, k: Measure) -> u64 {
    match k {
        Measure::Input => c.input_tokens,
        Measure::Output => c.output_tokens,
        Measure::Models => c.llm_calls,
        Measure::Tools => c.tool_calls,
        Measure::Latency => c.latency_ms,
    }
}

/// Whether a count is a number, or the largest count there is where the number
/// is too large.
pub open spec fn counts(count: u64, n: int) -> bool {
    if n <= u64::MAX {
        count == n
    } else {
        count == u64::MAX
    }
}

/// Of two costs one after the other every measure is the sum.
pub proof fn costs_in_sequence_add_up(a: Cost, b: Cost, k: Measure)
    ensures
        counts(amount(a.after(b), k), amount(a, k) + amount(b, k)),
{
}

/// Of two costs side by side the latency is the longer of the two, and every
/// other measure is the sum.
pub proof fn costs_side_by_side_share_the_time(a: Cost, b: Cost, k: Measure)
    ensures
        !(k is Latency) ==> counts(amount(a.beside(b), k), amount(a, k) + amount(b, k)),
        a.beside(b).latency_ms >= a.latency_ms,
        a.beside(b).latency_ms >= b.latency_ms,
        a.beside(b).latency_ms == a.latency_ms || a.beside(b).latency_ms == b.latency_ms,
        a.beside(b) == b.beside(a),
{
}

/// A cost that many times over holds every measure that many times, and once
/// more is one more of it.
pub proof fn repeated_costs_multiply(c: Cost, n: int, k: Measure)
    ensures
        n >= 0 ==> counts(amount(c.times(n), k), amount(c, k) * n),
        n >= 0 ==> c.times(n + 1) == c.times(n).after(c),
        n <= 0 ==> c.times(n) == Cost::nothing(),
        c.times(1) == c,
        amount(Cost::nothing(), k) == 0,
{
    assert(c.input_tokens * 1 == c.input_tokens);
    assert(c.output_tokens * 1 == c.output_tokens);
    assert(c.llm_calls * 1 == c.llm_calls);
    assert(c.tool_calls * 1 == c.tool_calls);
    assert(c.latency_ms * 1 == c.latency_ms);
    if n >= 0 {
        product_grows(c.input_tokens, n);
        product_grows(c.output_tokens, n);
        product_grows(c.llm_calls, n);
        product_grows(c.tool_calls, n);
        product_grows(c.latency_ms, n);
    }
}

proof fn product_grows(a: u64, n: int)
    requires
        n >= 0,
    ensures
        a * (n + 1) == a * n + a,
        a * n >= 0,
        stopped(a * (n + 1)) == stopped(stopped(a * n) + a),
{
    assert(a * (n + 1) == a * n + a) by (nonlinear_arith);
    assert(a * n >= 0) by (nonlinear_arith)
        requires
            n >= 0,
            a >= 0,
    ;
}

/// Nothing before or after a cost leaves it as it is, and the order in which
/// costs are put together makes no difference.
pub proof fn sequences_of_costs_regroup(a: Cost, b: Cost, c: Cost)
    ensures
        a.after(Cost::nothing()) == a,
        Cost::nothing().after(a) == a,
        a.beside(Cost::nothing()) == a,
        Cost::nothing().beside(a) == a,
        a.after(b) == b.after(a),
        a.after(b).after(c) == a.after(b.after(c)),
        a.beside(b).beside(c) == a.beside(b.beside(c)),
{
}

// --------------------------------------------------------------------- plans

/// A plan of one step costs what the step does, and one without steps nothing.
pub proof fn one_step_costs_itself(step: StepView)
    ensures
        plan_cost(only(step)) == step.estimated,
        plan_cost(PlanView { batches: Seq::empty() }) == Cost::nothing(),
{
    let p = only(step);
    reveal_with_fuel(batches_cost, 2);
    reveal_with_fuel(batch_cost, 2);
    sequences_of_costs_regroup(step.estimated, step.estimated, step.estimated);
}

proof fn batches_cost_splits(a: Seq<Seq<StepView>>, b: Seq<Seq<StepView>>, n: int)
    requires
        0 <= n <= b.len(),
    ensures
        batches_cost(a + b, a.len() + n) == batches_cost(a, a.len() as int).after(
            batches_cost(b, n),
        ),
    decreases n,
{
    let first = batches_cost(a, a.len() as int);
    if n == 0 {
        same_batches_cost_the_same(a, a + b, a.len() as int);
        sequences_of_costs_regroup(first, first, first);
    } else {
        batches_cost_splits(a, b, n - 1);
        assert((a + b)[a.len() + n - 1] == b[n - 1]);
        sequences_of_costs_regroup(
            first,
            batches_cost(b, n - 1),
            batch_cost(b[n - 1], b[n - 1].len() as int),
        );
    }
}

proof fn same_batches_cost_the_same(a: Seq<Seq<StepView>>, b: Seq<Seq<StepView>>, n: int)
    requires
        0 <= n <= a.len(),
        n <= b.len(),
        forall|i: int| 0 <= i < n ==> #[trigger] a[i] == b[i],
    ensures
        batches_cost(a, n) == batches_cost(b, n),
    decreases n,
{
    if n > 0 {
        same_batches_cost_the_same(a, b, n - 1);
        assert(a[n - 1] == b[n - 1]);
    }
}

proof fn same_steps_cost_the_same(a: Seq<StepView>, b: Seq<StepView>, n: int)
    requires
        0 <= n <= a.len(),
        n <= b.len(),
        forall|i: int| 0 <= i < n ==> #[trigger] a[i] == b[i],
    ensures
        batch_cost(a, n) == batch_cost(b, n),
    decreases n,
{
    if n > 0 {
        same_steps_cost_the_same(a, b, n - 1);
        assert(a[n - 1] == b[n - 1]);
    }
}

/// Two plans one after the other cost what they cost one after the other.
pub proof fn plans_in_sequence_add_up(p: PlanView, q: PlanView)
    ensures
        plan_cost(both(p, q)) == plan_cost(p).after(plan_cost(q)),
{
    batches_cost_splits(p.batches, q.batches, q.batches.len() as int);
}

/// The steps of a batch cost what they cost side by side, however they are
/// grouped.
pub proof fn a_batch_shares_the_time(a: Seq<StepView>, b: Seq<StepView>)
    ensures
        plan_cost(PlanView { batches: seq![a + b] }) == plan_cost(
            PlanView { batches: seq![a] },
        ).beside(plan_cost(PlanView { batches: seq![b] })),
{
    reveal_with_fuel(batches_cost, 2);
    batch_cost_splits(a, b, b.len() as int);
    let x = batch_cost(a, a.len() as int);
    let y = batch_cost(b, b.len() as int);
    sequences_of_costs_regroup(x, y, x);
    sequences_of_costs_regroup(y, x, y);
    sequences_of_costs_regroup(x.beside(y), x, y);
    assert((a + b).len() == a.len() + b.len());
}

proof fn batch_cost_splits(a: Seq<StepView>, b: Seq<StepView>, n: int)
    requires
        0 <= n <= b.len(),
    ensures
        batch_cost(a + b, a.len() + n) == batch_cost(a, a.len() as int).beside(batch_cost(b, n)),
    decreases n,
{
    let first = batch_cost(a, a.len() as int);
    if n == 0 {
        same_steps_cost_the_same(a, a + b, a.len() as int);
        sequences_of_costs_regroup(first, first, first);
    } else {
        batch_cost_splits(a, b, n - 1);
        assert((a + b)[a.len() + n - 1] == b[n - 1]);
        sequences_of_costs_regroup(first, batch_cost(b, n - 1), b[n - 1].estimated);
    }
}

// ------------------------------------------------------------------- control

/// A `control.while` costs, of every measure, what it costs itself and, for
/// each iteration it may make, its condition and its body once.
pub proof fn a_while_costs_every_iteration(
    condition: PlanView,
    body: PlanView,
    max_iterations: i64,
    own: Cost,
    k: Measure,
)
    requires
        max_iterations >= 0,
    ensures
        counts(
            amount(control_cost(ControlView::While { condition, max_iterations, body }, own), k),
            amount(own, k) + max_iterations * amount(plan_cost(condition), k) + max_iterations
                * amount(plan_cost(body), k),
        ),
{
    let c = amount(plan_cost(condition), k) as int;
    let b = amount(plan_cost(body), k) as int;
    let n = max_iterations as int;
    assert((c + b) * n == n * c + n * b) by (nonlinear_arith);
    assert(n * c >= 0 && n * b >= 0) by (nonlinear_arith)
        requires
            n >= 0,
            c >= 0,
            b >= 0,
    ;
    if n == 0 {
        assert(n * c == 0 && n * b == 0 && 0 * stopped(c + b) == 0);
        assert(stopped(c + b) * n == 0) by (nonlinear_arith)
            requires
                n == 0,
        ;
    } else if c + b > u64::MAX {
        assert(u64::MAX * n >= u64::MAX) by (nonlinear_arith)
            requires
                n >= 1,
        ;
        assert(n * (c + b) >= c + b) by (nonlinear_arith)
            requires
                n >= 1,
                c + b >= 0,
        ;
        assert((c + b) * n == n * (c + b)) by (nonlinear_arith);
    }
}

/// A `control.loop` costs, of every measure, what it costs itself and its body
/// once for each iteration it may make.
pub proof fn a_loop_costs_every_iteration(
    binding: Option<ValueId>,
    body: PlanView,
    max_iterations: i64,
    own: Cost,
    k: Measure,
)
    requires
        max_iterations >= 0,
    ensures
        counts(
            amount(control_cost(ControlView::Loop { binding, max_iterations, body }, own), k),
            amount(own, k) + max_iterations * amount(plan_cost(body), k),
        ),
{
    let b = amount(plan_cost(body), k) as int;
    let n = max_iterations as int;
    assert(b * n == n * b) by (nonlinear_arith);
    assert(n * b >= 0) by (nonlinear_arith)
        requires
            n >= 0,
            b >= 0,
    ;
}

/// A `control.parallel` costs what it costs itself and its body; a `control.if`
/// what it costs itself and the slower of its branches, or the first where they
/// take as long. A branch that is not there costs nothing.
pub proof fn other_control_costs_what_it_runs(
    taken: PlanView,
    otherwise: PlanView,
    own: Cost,
    k: Measure,
)
    ensures
        counts(
            amount(control_cost(ControlView::Parallel { body: taken }, own), k),
            amount(own, k) + amount(plan_cost(taken), k),
        ),
        ({
            let counted = if plan_cost(otherwise).latency_ms > plan_cost(taken).latency_ms {
                otherwise
            } else {
                taken
            };
            counts(
                amount(
                    control_cost(ControlView::If { taken, otherwise: Some(otherwise) }, own),
                    k,
                ),
                amount(own, k) + amount(plan_cost(counted), k),
            )
        }),
        counts(
            amount(control_cost(ControlView::If { taken, otherwise: None }, own), k),
            amount(own, k) + amount(plan_cost(taken), k),
        ),
{
}

// --------------------------------------------------------------------- calls

/// The calls an estimate counts.
pub ghost enum Service {
    /// A tool or the memory.
    Tool,
    /// A model.
    Model,
}

/// The measure that counts the calls of a service.
pub open spec fn measured_by(service: Service) -> Measure {
    match service {
        Service::Tool => Measure::Tools,
        Service::Model => Measure::Models,
    }
}

/// Whether a request is a call of a service.
pub open spec fn is_call_of(request: RequestView, service: Service) -> bool {
    match request {
        RequestView::Tool(_) | RequestView::Read(_) | RequestView::Write(_)
        | RequestView::Search(_) => service is Tool,
        RequestView::Infer(_) => service is Model,
        RequestView::Lookup(_) => false,
    }
}

/// How many of the requests from number `from` on are calls of a service.
pub open spec fn calls_made(asked: Seq<RequestView>, from: int, service: Service) -> nat
    decreases asked.len(),
{
    if asked.len() <= from || asked.len() == 0 {
        0
    } else {
        calls_made(asked.drop_last(), from, service) + if is_call_of(asked.last(), service) {
            1nat
        } else {
            0
        }
    }
}

/// The most calls of a service that a plan can make.
pub open spec fn plan_needs(plan: PlanView, service: Service) -> nat
    decreases plan, 0int, 0int,
{
    batches_need(plan.batches, 0, service)
}

/// The most calls that the batches from position `i` on can make.
pub open spec fn batches_need(batches: Seq<Seq<StepView>>, i: int, service: Service) -> nat
    decreases batches, 0int, batches.len() - i,
    via batches_need_decreases
{
    if i < 0 || i >= batches.len() {
        0
    } else {
        batch_needs(batches[i], 0, service) + batches_need(batches, i + 1, service)
    }
}

#[via_fn]
proof fn batches_need_decreases(batches: Seq<Seq<StepView>>, i: int, service: Service) {
    if 0 <= i < batches.len() {
        assert(decreases_to!(batches => batches[i]));
    }
}

/// The most calls that the steps of a batch from position `j` on can make.
pub open spec fn batch_needs(steps: Seq<StepView>, j: int, service: Service) -> nat
    decreases steps, 0int, steps.len() - j,
    via batch_needs_decreases
{
    if j < 0 || j >= steps.len() {
        0
    } else {
        step_needs(steps[j], service) + batch_needs(steps, j + 1, service)
    }
}

#[via_fn]
proof fn batch_needs_decreases(steps: Seq<StepView>, j: int, service: Service) {
    if 0 <= j < steps.len() {
        assert(decreases_to!(steps => steps[j]));
    }
}

/// The larger of two numbers.
pub open spec fn larger(a: nat, b: nat) -> nat {
    if a >= b {
        a
    } else {
        b
    }
}

/// A bound as a number of iterations.
pub open spec fn iterations(bound: i64) -> nat {
    if bound < 0 {
        0
    } else {
        bound as nat
    }
}

/// The most calls of a service that a step can make: one where it reaches that
/// service, and otherwise what its nested plans can make, whichever branch is
/// taken and in as many iterations as are allowed.
pub open spec fn step_needs(step: StepView, service: Service) -> nat
    decreases step, 0int, 0int,
{
    match step.target {
        TargetView::ToolCall { .. } | TargetView::Memory { .. } => if service is Tool {
            1
        } else {
            0
        },
        TargetView::Inference { .. } => if service is Model {
            1
        } else {
            0
        },
        TargetView::Builtin(_) => match step.control {
            None => 0,
            Some(ControlView::If { taken, otherwise }) => match otherwise {
                Some(plan) => larger(plan_needs(taken, service), plan_needs(plan, service)),
                None => plan_needs(taken, service),
            },
            Some(ControlView::Loop { max_iterations, body, .. }) => iterations(max_iterations)
                * plan_needs(body, service),
            Some(ControlView::While { condition, max_iterations, body }) => iterations(
                max_iterations,
            ) * (plan_needs(condition, service) + plan_needs(body, service)),
            Some(ControlView::Parallel { body }) => plan_needs(body, service),
        },
    }
}

// ---------------------------------------------------------------------- runs

/// Whether a run only added to what was asked, and at most so many calls of a
/// service.
pub open spec fn spends(before: RunView, after: RunView, service: Service, limit: int) -> bool {
    extends(after.asked, before.asked) && calls_made(
        after.asked,
        before.asked.len() as int,
        service,
    ) <= limit
}

proof fn made_split(
    a: Seq<RequestView>,
    b: Seq<RequestView>,
    c: Seq<RequestView>,
    service: Service,
)
    requires
        extends(b, a),
        extends(c, b),
    ensures
        extends(c, a),
        calls_made(c, a.len() as int, service) == calls_made(b, a.len() as int, service)
            + calls_made(c, b.len() as int, service),
    decreases c.len(),
{
    assert forall|i: int| 0 <= i < a.len() implies #[trigger] c[i] == a[i] by {
        assert(b[i] == a[i]);
    }
    if c.len() == b.len() {
        assert(c =~= b);
    } else {
        let rest = c.drop_last();
        assert(extends(rest, b)) by {
            assert forall|i: int| 0 <= i < b.len() implies #[trigger] rest[i] == b[i] by {
                assert(c[i] == b[i]);
            }
        }
        made_split(a, b, rest, service);
    }
}

proof fn spent_in_turn(a: RunView, b: RunView, c: RunView, service: Service, x: int, y: int)
    requires
        spends(a, b, service, x),
        spends(b, c, service, y),
    ensures
        spends(a, c, service, x + y),
{
    made_split(a.asked, b.asked, c.asked, service);
}

proof fn asks_nothing(a: RunView, b: RunView, service: Service, limit: int)
    requires
        b.asked == a.asked,
        limit >= 0,
    ensures
        spends(a, b, service, limit),
{
}

proof fn performing_spends_one(
    world: Seq<ReplyView>,
    run: RunView,
    s: StepView,
    service: Service,
)
    requires
        !(s.target is Builtin),
    ensures
        spends(run, perform(world, run, s).0, service, step_needs(s, service) as int),
{
    let after = perform(world, run, s).0;
    if run.is_stuck(s) {
        asks_nothing(run, after, service, step_needs(s, service) as int);
    } else {
        let request = request_of(s.target, run.invocation(s));
        let asked = run.asked.push(request);
        assert(after.asked == asked);
        assert(asked.drop_last() =~= run.asked);
        assert(calls_made(run.asked, run.asked.len() as int, service) == 0);
    }
}

proof fn external_spends_one(world: Seq<ReplyView>, run: RunView, s: StepView, service: Service)
    requires
        !(s.target is Builtin),
    ensures
        spends(run, external_run(world, run, s).0, service, step_needs(s, service) as int),
{
    let after = external_run(world, run, s).0;
    let limit = step_needs(s, service) as int;
    match effective_key(s.idempotency_key, run.path) {
        Some(key) => {
            let asked = run.ask(RequestView::Lookup(key));
            assert(asked.asked.drop_last() =~= run.asked);
            assert(calls_made(run.asked, run.asked.len() as int, service) == 0);
            assert(spends(run, asked, service, 0));
            if let Some(result) = lookup(run.state.ledger, key) {
                asks_nothing(run, after, service, limit);
            } else if let Some(result) = world[run.asked.len() as int].known() {
                asks_nothing(asked, after, service, limit);
                spent_in_turn(run, asked, after, service, 0, limit);
            } else {
                performing_spends_one(world, asked, s, service);
                spent_in_turn(run, asked, after, service, 0, limit);
            }
        },
        None => {
            performing_spends_one(world, run, s, service);
        },
    }
}

proof fn plan_spends(world: Seq<ReplyView>, run: RunView, plan: PlanView, service: Service)
    ensures
        spends(run, plan_run(world, run, plan).0, service, plan_needs(plan, service) as int),
    decreases plan, 0int, 0int,
{
    batches_spend(world, run, plan.batches, 0, service);
}

proof fn batches_spend(
    world: Seq<ReplyView>,
    run: RunView,
    batches: Seq<Seq<StepView>>,
    i: int,
    service: Service,
)
    ensures
        spends(
            run,
            batches_run(world, run, batches, i).0,
            service,
            batches_need(batches, i, service) as int,
        ),
    decreases batches, 0int, batches.len() - i,
{
    if 0 <= i < batches.len() {
        assert(decreases_to!(batches => batches[i]));
        batch_spends(world, run, batches[i], 0, service);
        let (next, flow) = batch_run(world, run, batches[i], 0);
        if flow == Ok::<FlowView, RuntimeErrorView>(FlowView::Continue) {
            batches_spend(world, next, batches, i + 1, service);
            spent_in_turn(
                run,
                next,
                batches_run(world, next, batches, i + 1).0,
                service,
                batch_needs(batches[i], 0, service) as int,
                batches_need(batches, i + 1, service) as int,
            );
        }
    } else {
        asks_nothing(run, run, service, 0);
    }
}

proof fn batch_spends(
    world: Seq<ReplyView>,
    run: RunView,
    batch: Seq<StepView>,
    j: int,
    service: Service,
)
    ensures
        spends(
            run,
            batch_run(world, run, batch, j).0,
            service,
            batch_needs(batch, j, service) as int,
        ),
    decreases batch, 0int, batch.len() - j,
{
    if 0 <= j < batch.len() {
        assert(decreases_to!(batch => batch[j]));
        step_spends(world, run, batch[j], service);
        let (next, flow) = step_run(world, run, batch[j]);
        if flow == Ok::<FlowView, RuntimeErrorView>(FlowView::Continue) {
            batch_spends(world, next, batch, j + 1, service);
            spent_in_turn(
                run,
                next,
                batch_run(world, next, batch, j + 1).0,
                service,
                step_needs(batch[j], service) as int,
                batch_needs(batch, j + 1, service) as int,
            );
        }
    } else {
        asks_nothing(run, run, service, 0);
    }
}

proof fn step_spends(world: Seq<ReplyView>, run: RunView, s: StepView, service: Service)
    ensures
        spends(run, step_run(world, run, s).0, service, step_needs(s, service) as int),
    decreases s, 0int, 0int,
{
    let after = step_run(world, run, s).0;
    let limit = step_needs(s, service) as int;
    match s.target {
        TargetView::Builtin(builtin) => {
            if !is_control(builtin) {
                asks_nothing(run, after, service, limit);
            } else if let Some(control) = s.control {
                assert(decreases_to!(s => s.control));
                match control {
                    ControlView::If { taken, otherwise } => {
                        plan_spends(world, run, taken, service);
                        if let Some(plan) = otherwise {
                            plan_spends(world, run, plan, service);
                        }
                        if after == run {
                            asks_nothing(run, after, service, limit);
                        }
                    },
                    ControlView::Loop { binding, max_iterations, body } => {
                        let items = items_of(run.operand(s, 0));
                        if items.len() > max_iterations {
                            asks_nothing(run, after, service, limit);
                        } else {
                            loop_spends(world, run, binding, body, items, 0, service);
                            let n = plan_needs(body, service) as int;
                            assert(items.len() * n <= iterations(max_iterations) * n)
                                by (nonlinear_arith)
                                requires
                                    items.len() <= iterations(max_iterations),
                                    n >= 0,
                            ;
                        }
                    },
                    ControlView::While { condition, max_iterations, body } => {
                        while_spends(world, run, control, 0, service);
                    },
                    ControlView::Parallel { body } => {
                        plan_spends(world, run, body, service);
                    },
                }
            } else {
                asks_nothing(run, after, service, limit);
            }
        },
        _ => {
            external_spends_one(world, run, s, service);
        },
    }
}

proof fn loop_spends(
    world: Seq<ReplyView>,
    run: RunView,
    binding: Option<ValueId>,
    body: PlanView,
    items: Seq<ValueView>,
    k: int,
    service: Service,
)
    requires
        0 <= k <= items.len(),
    ensures
        spends(
            run,
            loop_run(world, run, binding, body, items, k).0,
            service,
            (items.len() - k) * plan_needs(body, service),
        ),
    decreases body, 1int, items.len() - k,
{
    let n = plan_needs(body, service) as int;
    if k < items.len() {
        let bound = match binding {
            Some(id) => run.with_state(run.state.bind(id, items[k])),
            None => run,
        };
        let entered = bound.enter(k as u64);
        plan_spends(world, entered, body, service);
        let (ended, flow) = plan_run(world, entered, body);
        let next = ended.leave(run.path);
        assert(spends(run, next, service, n));
        let rest = items.len() - k - 1;
        assert((rest + 1) * n == n + rest * n) by (nonlinear_arith);
        assert(rest * n >= 0) by (nonlinear_arith)
            requires
                rest >= 0,
                n >= 0,
        ;
        if !body_stops(flow) {
            loop_spends(world, next, binding, body, items, k + 1, service);
            spent_in_turn(
                run,
                next,
                loop_run(world, next, binding, body, items, k + 1).0,
                service,
                n,
                rest * n,
            );
        }
    } else {
        assert(0 * n == 0);
        asks_nothing(run, run, service, 0);
    }
}

proof fn while_spends(
    world: Seq<ReplyView>,
    run: RunView,
    control: ControlView,
    k: int,
    service: Service,
)
    requires
        control is While,
        0 <= k,
        k <= iterations(control->While_max_iterations),
    ensures
        spends(
            run,
            while_run(world, run, control, k).0,
            service,
            (iterations(control->While_max_iterations) - k) * (plan_needs(
                control->While_condition,
                service,
            ) + plan_needs(control->While_body, service)),
        ),
    decreases control, 1int, control->While_max_iterations - k,
{
    if let ControlView::While { condition, max_iterations, body } = control {
        let c = plan_needs(condition, service) as int;
        let b = plan_needs(body, service) as int;
        if k < max_iterations {
            let rest = max_iterations - k - 1;
            assert((rest + 1) * (c + b) == c + b + rest * (c + b)) by (nonlinear_arith);
            assert(rest * (c + b) >= 0) by (nonlinear_arith)
                requires
                    rest >= 0,
                    c + b >= 0,
            ;
            let opened = run.enter(k as u64);
            plan_spends(world, opened, condition, service);
            let (tested, verdict) = plan_run(world, opened, condition);
            let closed = tested.leave(run.path);
            assert(spends(run, closed, service, c));
            if while_ends(verdict) is None {
                let entered = closed.enter(k as u64);
                plan_spends(world, entered, body, service);
                let (ended, flow) = plan_run(world, entered, body);
                let next = ended.leave(run.path);
                assert(spends(closed, next, service, b));
                spent_in_turn(run, closed, next, service, c, b);
                if !body_stops(flow) && k + 1 != max_iterations {
                    while_spends(world, next, control, k + 1, service);
                    spent_in_turn(
                        run,
                        next,
                        while_run(world, next, control, k + 1).0,
                        service,
                        c + b,
                        rest * (c + b),
                    );
                }
            }
        } else {
            assert(0 * (c + b) == 0);
            asks_nothing(run, run, service, 0);
        }
    }
}

/// A run of a plan makes no more calls of a service than the plan can make,
/// whatever the world answers.
pub proof fn a_run_calls_no_more_than_its_plan_can(
    world: Seq<ReplyView>,
    run: RunView,
    plan: PlanView,
    service: Service,
)
    ensures
        calls_made(
            plan_run(world, run, plan).0.asked,
            run.asked.len() as int,
            service,
        ) <= plan_needs(plan, service),
{
    plan_spends(world, run, plan, service);
}

// ----------------------------------------------------------------- estimates

/// Whether a step is estimated at no less than what it does: one that reaches
/// the world at its call, and one that owns nested plans, which the runtime
/// evaluates itself, at what its control costs.
pub open spec fn is_priced(s: StepView) -> bool {
    match s.control {
        Some(c) => s.target is Builtin && exists|own: Cost|
            s.estimated == #[trigger] control_cost(c, own),
        None => match s.target {
            TargetView::ToolCall { .. } | TargetView::Memory { .. } => s.estimated.tool_calls >= 1,
            TargetView::Inference { .. } => s.estimated.llm_calls >= 1,
            TargetView::Builtin(_) => true,
        },
    }
}

/// Whether the branch that the estimate of a `control.if` counts, the slower
/// one, makes no fewer calls than the other.
pub open spec fn counts_the_larger_branch(s: StepView) -> bool {
    match s.control {
        Some(ControlView::If { taken, otherwise: Some(other) }) => forall|service: Service|
            if plan_cost(taken).latency_ms >= plan_cost(other).latency_ms {
                #[trigger] plan_needs(taken, service) >= plan_needs(other, service)
            } else {
                plan_needs(other, service) >= plan_needs(taken, service)
            },
        _ => true,
    }
}

/// Whether every step of a plan, nested ones too, is estimated at no less than
/// what it does.
pub open spec fn plan_is_priced(plan: PlanView) -> bool {
    all_allowed(plan_steps(plan), |s: StepView| is_priced(s))
}

/// Whether every `control.if` of a plan counts the branch with more calls.
pub open spec fn branches_are_counted(plan: PlanView) -> bool {
    all_allowed(plan_steps(plan), |s: StepView| counts_the_larger_branch(s))
}

/// Whether a step, and those nested in it, is sound to estimate.
spec fn is_sound(s: StepView) -> bool {
    step_allowed(s, |s: StepView| is_priced(s)) && step_allowed(
        s,
        |s: StepView| counts_the_larger_branch(s),
    )
}

/// Whether a count covers a number of calls, as far as counts go.
pub open spec fn covers_calls(cost: Cost, calls: nat, service: Service) -> bool {
    amount(cost, measured_by(service)) >= calls || amount(cost, measured_by(service)) == u64::MAX
}

proof fn estimates_in_turn(a: Cost, b: Cost, x: nat, y: nat, service: Service)
    requires
        covers_calls(a, x, service),
        covers_calls(b, y, service),
    ensures
        covers_calls(a.after(b), x + y, service),
        covers_calls(a.beside(b), x + y, service),
        covers_calls(a.after(b), y, service),
{
}

proof fn estimates_repeated(a: Cost, x: nat, n: i64, service: Service)
    requires
        covers_calls(a, x, service),
    ensures
        covers_calls(a.times(n as int), iterations(n) * x, service),
{
    let c = amount(a, measured_by(service)) as int;
    if n > 0 {
        let k = n as int;
        if c == u64::MAX {
            assert(c * k >= c) by (nonlinear_arith)
                requires
                    k >= 1,
                    c >= 0,
            ;
        } else {
            assert(c * k >= k * x) by (nonlinear_arith)
                requires
                    k >= 1,
                    c >= x,
            ;
        }
    } else {
        assert(0 * x == 0);
    }
}

proof fn plan_is_covered(plan: PlanView, service: Service)
    requires
        plan_is_priced(plan),
        branches_are_counted(plan),
    ensures
        covers_calls(plan_cost(plan), plan_needs(plan, service), service),
    decreases plan, 0int, 0int,
{
    plan_allowed(plan, |s: StepView| is_priced(s));
    plan_allowed(plan, |s: StepView| counts_the_larger_branch(s));
    assert forall|b: int, j: int|
        0 <= b < plan.batches.len() && 0 <= j < plan.batches[b].len() implies is_sound(
        #[trigger] plan.batches[b][j],
    ) by {
        assert(batch_allowed(plan.batches[b], |s: StepView| is_priced(s)));
        assert(batch_allowed(plan.batches[b], |s: StepView| counts_the_larger_branch(s)));
    }
    batches_are_covered(plan.batches, plan.batches.len() as int, service);
}

proof fn batches_are_covered(batches: Seq<Seq<StepView>>, n: int, service: Service)
    requires
        0 <= n <= batches.len(),
        forall|b: int, j: int|
            0 <= b < batches.len() && 0 <= j < batches[b].len() ==> is_sound(
                #[trigger] batches[b][j],
            ),
    ensures
        covers_calls(
            batches_cost(batches, n),
            (batches_need(batches, 0, service) - batches_need(batches, n, service)) as nat,
            service,
        ),
        batches_need(batches, 0, service) >= batches_need(batches, n, service),
    decreases batches, 0int, n,
{
    if n > 0 {
        assert(decreases_to!(batches => batches[n - 1]));
        batches_are_covered(batches, n - 1, service);
        let batch = batches[n - 1];
        assert forall|j: int| 0 <= j < batch.len() implies is_sound(#[trigger] batch[j]) by {
            assert(is_sound(batches[n - 1][j]));
        }
        batch_is_covered(batch, batch.len() as int, service);
        assert(batch_needs(batch, batch.len() as int, service) == 0);
        estimates_in_turn(
            batches_cost(batches, n - 1),
            batch_cost(batch, batch.len() as int),
            (batches_need(batches, 0, service) - batches_need(batches, n - 1, service)) as nat,
            batch_needs(batch, 0, service),
            service,
        );
    }
    if n == batches.len() {
        assert(batches_need(batches, n, service) == 0);
    }
}

proof fn batch_is_covered(steps: Seq<StepView>, n: int, service: Service)
    requires
        0 <= n <= steps.len(),
        forall|j: int| 0 <= j < steps.len() ==> is_sound(#[trigger] steps[j]),
    ensures
        covers_calls(
            batch_cost(steps, n),
            (batch_needs(steps, 0, service) - batch_needs(steps, n, service)) as nat,
            service,
        ),
        batch_needs(steps, 0, service) >= batch_needs(steps, n, service),
    decreases steps, 0int, n,
{
    if n > 0 {
        assert(decreases_to!(steps => steps[n - 1]));
        batch_is_covered(steps, n - 1, service);
        assert(is_sound(steps[n - 1]));
        step_is_covered(steps[n - 1], service);
        estimates_in_turn(
            batch_cost(steps, n - 1),
            steps[n - 1].estimated,
            (batch_needs(steps, 0, service) - batch_needs(steps, n - 1, service)) as nat,
            step_needs(steps[n - 1], service),
            service,
        );
    }
}

proof fn step_is_covered(s: StepView, service: Service)
    requires
        is_sound(s),
    ensures
        covers_calls(s.estimated, step_needs(s, service), service),
    decreases s, 0int, 0int,
{
    let priced = |s: StepView| is_priced(s);
    let counted = |s: StepView| counts_the_larger_branch(s);
    assert(priced(s) && counted(s));
    if let Some(c) = s.control {
        assert(decreases_to!(s => s.control));
        let own = choose|own: Cost| s.estimated == #[trigger] control_cost(c, own);
        match c {
            ControlView::If { taken, otherwise } => {
                let other = match otherwise {
                    Some(p) => plan_steps(p),
                    None => Seq::empty(),
                };
                parts_allowed(plan_steps(taken), other, priced);
                parts_allowed(plan_steps(taken), other, counted);
                plan_is_covered(taken, service);
                estimates_in_turn(
                    own,
                    plan_cost(taken),
                    0,
                    plan_needs(taken, service),
                    service,
                );
                if let Some(p) = otherwise {
                    plan_is_covered(p, service);
                    estimates_in_turn(own, plan_cost(p), 0, plan_needs(p, service), service);
                }
            },
            ControlView::Loop { binding, max_iterations, body } => {
                plan_is_covered(body, service);
                estimates_repeated(
                    plan_cost(body),
                    plan_needs(body, service),
                    max_iterations,
                    service,
                );
            },
            ControlView::While { condition, max_iterations, body } => {
                parts_allowed(plan_steps(condition), plan_steps(body), priced);
                parts_allowed(plan_steps(condition), plan_steps(body), counted);
                plan_is_covered(condition, service);
                plan_is_covered(body, service);
                let x = plan_needs(condition, service);
                let y = plan_needs(body, service);
                estimates_in_turn(plan_cost(condition), plan_cost(body), x, y, service);
                estimates_repeated(
                    plan_cost(condition).after(plan_cost(body)),
                    x + y,
                    max_iterations,
                    service,
                );
            },
            ControlView::Parallel { body } => {
                plan_is_covered(body, service);
            },
        }
    }
}

/// A plan whose steps are estimated at no less than what they do, and whose
/// branches are counted at the one with more calls, is estimated at no less
/// than the calls that it can make.
pub proof fn an_estimate_covers_the_calls(plan: PlanView, service: Service)
    requires
        plan_is_priced(plan),
        branches_are_counted(plan),
    ensures
        covers_calls(plan_cost(plan), plan_needs(plan, service), service),
{
    plan_is_covered(plan, service);
}

// ---------------------------------------------------------------- scheduling

/// Whether an estimator counts a call of each service as one, at the least.
pub open spec fn counts_calls(e: Estimator) -> bool {
    e.tool_call.tool_calls >= 1 && e.memory.tool_calls >= 1 && e.inference.llm_calls >= 1
}

proof fn halving_keeps_prices()
    ensures
        survives_halving(|s: StepView| is_priced(s)),
{
    let priced = |s: StepView| is_priced(s);
    assert forall|s: StepView| priced(s) implies priced((#[trigger] reduced_step(s)).0) by {
        assert(is_priced(s));
    }
}

proof fn steps_are_priced(
    p: Planner<GenericRuntime>,
    m: ModuleView,
    op: OperationId,
    fuel: nat,
)
    requires
        counts_calls(p.estimator),
    ensures
        step_plan(p, m, op, fuel).0 matches Some(s) ==> step_allowed(
            s,
            |s: StepView| is_priced(s),
        ),
    decreases fuel, 1int, 0int,
{
    let priced = |s: StepView| is_priced(s);
    let o = m.op(op);
    if let Some(s) = step_plan(p, m, op, fuel).0 {
        if fuel > 0 {
            let less = (fuel - 1) as nat;
            let none = Seq::<StepView>::empty();
            if o.name.is("control"@, "if"@) {
                region_is_priced(p, m, o.regions[0], less);
                let taken = region_plan(p, m, o.regions[0], less).0;
                if o.regions.len() >= 2 {
                    region_is_priced(p, m, o.regions[1], less);
                    let other = region_plan(p, m, o.regions[1], less).0;
                    parts_allowed(plan_steps(taken), plan_steps(other), priced);
                } else {
                    parts_allowed(plan_steps(taken), none, priced);
                }
            } else if o.name.is("control"@, "loop"@) {
                region_is_priced(p, m, o.regions[0], less);
            } else if o.name.is("control"@, "while"@) {
                region_is_priced(p, m, o.regions[0], less);
                region_is_priced(p, m, o.regions[1], less);
                parts_allowed(
                    plan_steps(region_plan(p, m, o.regions[0], less).0),
                    plan_steps(region_plan(p, m, o.regions[1], less).0),
                    priced,
                );
            } else if o.name.is("control"@, "parallel"@) {
                region_is_priced(p, m, o.regions[0], less);
            }
        }
        assert(is_priced(s)) by {
            if let Some(c) = s.control {
                assert(s.estimated == control_cost(c, p.estimator.estimated(o, s.target)));
            }
        }
        assert(priced(s));
    }
}

proof fn level_is_priced(
    p: Planner<GenericRuntime>,
    m: ModuleView,
    ops: Seq<OperationId>,
    n: int,
    fuel: nat,
)
    requires
        counts_calls(p.estimator),
    ensures
        batch_allowed(level_batch(p, m, ops, n, fuel).0, |s: StepView| is_priced(s)),
        forall|b: int|
            0 <= b < end_batches(p, m, ops, n, fuel).0.len() ==> batch_allowed(
                #[trigger] end_batches(p, m, ops, n, fuel).0[b],
                |s: StepView| is_priced(s),
            ),
    decreases fuel, 2int, n,
{
    if n > 0 {
        level_is_priced(p, m, ops, n - 1, fuel);
        steps_are_priced(p, m, ops[n - 1], fuel);
        let before = end_batches(p, m, ops, n - 1, fuel).0;
        let all = end_batches(p, m, ops, n, fuel).0;
        assert forall|b: int| 0 <= b < all.len() implies batch_allowed(
            #[trigger] all[b],
            |s: StepView| is_priced(s),
        ) by {
            if b < before.len() {
                assert(all[b] == before[b]);
            } else {
                assert(all[b] =~= seq![step_plan(p, m, ops[n - 1], fuel).0->0]);
            }
        }
    }
}

proof fn levels_are_priced(
    p: Planner<GenericRuntime>,
    m: ModuleView,
    levels: Seq<Seq<OperationId>>,
    n: int,
    fuel: nat,
)
    requires
        counts_calls(p.estimator),
    ensures
        forall|b: int|
            0 <= b < level_batches(p, m, levels, n, fuel).0.len() ==> batch_allowed(
                #[trigger] level_batches(p, m, levels, n, fuel).0[b],
                |s: StepView| is_priced(s),
            ),
    decreases fuel, 3int, n,
{
    if n > 0 {
        levels_are_priced(p, m, levels, n - 1, fuel);
        let ops = levels[n - 1];
        level_is_priced(p, m, ops, ops.len() as int, fuel);
        let before = level_batches(p, m, levels, n - 1, fuel).0;
        let all = level_batches(p, m, levels, n, fuel).0;
        assert forall|b: int| 0 <= b < all.len() implies batch_allowed(
            #[trigger] all[b],
            |s: StepView| is_priced(s),
        ) by {
            if b < before.len() {
                assert(all[b] == before[b]);
            } else {
                assert(all[b] == level_batch(p, m, ops, ops.len() as int, fuel).0);
            }
        }
    }
}

proof fn block_is_priced(
    p: Planner<GenericRuntime>,
    m: ModuleView,
    block: BlockId,
    fuel: nat,
)
    requires
        counts_calls(p.estimator),
    ensures
        plan_is_priced(block_plan(p, m, block, fuel).0),
    decreases fuel, 4int, 0int,
{
    let priced = |s: StepView| is_priced(s);
    let g = graph_of(m, block, p.table);
    let levels = g.levels();
    let ends = g.order.filter(|op: OperationId| is_terminator(m.op(op)));
    levels_are_priced(p, m, levels, levels.len() as int, fuel);
    level_is_priced(p, m, ends, ends.len() as int, fuel);
    let plan = block_plan(p, m, block, fuel).0;
    let first = level_batches(p, m, levels, levels.len() as int, fuel).0;
    let last = end_batches(p, m, ends, ends.len() as int, fuel).0;
    assert(plan.batches == first + last);
    assert forall|b: int| 0 <= b < plan.batches.len() implies batch_allowed(
        #[trigger] plan.batches[b],
        priced,
    ) by {
        if b < first.len() {
            assert(plan.batches[b] == first[b]);
        } else {
            assert(plan.batches[b] == last[b - first.len()]);
        }
    }
    plan_allowed(plan, priced);
}

proof fn region_is_priced(
    p: Planner<GenericRuntime>,
    m: ModuleView,
    region: RegionId,
    fuel: nat,
)
    requires
        counts_calls(p.estimator),
    ensures
        plan_is_priced(region_plan(p, m, region, fuel).0),
    decreases fuel, 5int, 0int,
{
    block_is_priced(p, m, m.region(region).blocks[0], fuel);
}

proof fn a_fitting_plan_is_estimated(s: Fitting, budget: Budget, times: nat)
    requires
        s.estimated == plan_cost(s.plan),
        budget.first_overrun(degraded(s, budget, times).estimated) is None,
    ensures
        degraded(s, budget, times).estimated == plan_cost(degraded(s, budget, times).plan),
    decreases times,
{
    if times > 0 {
        if let Some(overrun) = budget.first_overrun(s.estimated) {
            let (plan, reduced) = reduced_plan(s.plan);
            if reduced {
                a_fitting_plan_is_estimated(
                    Fitting {
                        plan,
                        estimated: plan_cost(plan),
                        notes: s.notes.push(degraded_note(overrun)),
                        degradation: Degradation::ReducedIterations,
                    },
                    budget,
                    (times - 1) as nat,
                );
            }
        }
    }
}

/// The budget a function is planned for: what its entry block declares, or the
/// one that applies where it declares none.
pub open spec fn budget_for(m: ModuleView, function: Seq<char>, fallback: Budget) -> Budget {
    match m.function(function) {
        None => fallback,
        Some(func) => match declared_budget(
            m,
            m.live(m.block(m.region(m.op(func).regions[0]).blocks[0]).ops),
            0,
        ) {
            Some(declared) => declared,
            None => fallback,
        },
    }
}

/// A function that was planned within its budget stays within the calls it was
/// given, in every run and whatever the world answers: it asks for no more
/// calls of a service than it was estimated at, and so no more than its budget
/// allows.
pub proof fn planned_calls_are_not_exceeded(
    p: Planner<GenericRuntime>,
    budget: Budget,
    times: nat,
    m: ModuleView,
    function: Seq<char>,
    world: Seq<ReplyView>,
    run: RunView,
    arguments: Seq<ValueView>,
    service: Service,
)
    requires
        counts_calls(p.estimator),
        scheduled(p, budget, times, m, function) is Ok,
        budget_for(m, function, budget).first_overrun(
            scheduled(p, budget, times, m, function)->Ok_0.estimated,
        ) is None,
        branches_are_counted(scheduled(p, budget, times, m, function)->Ok_0.plan),
    ensures
        ({
            let plan = scheduled(p, budget, times, m, function)->Ok_0;
            let made = calls_made(
                function_run(world, run, plan, arguments).0.asked,
                run.asked.len() as int,
                service,
            );
            let limits = budget_for(m, function, budget);
            let limit = match service {
                Service::Tool => limits.tool_call_budget,
                Service::Model => limits.llm_call_budget,
            };
            &&& covers_calls(plan.estimated, made, service)
            &&& (limit matches Some(n) ==> (n < u64::MAX ==> made <= n))
        }),
{
    let priced = |s: StepView| is_priced(s);
    let out = scheduled(p, budget, times, m, function)->Ok_0;
    let func = m.function(function)->0;
    let entry = m.region(m.op(func).regions[0]).blocks[0];
    let limits = budget_for(m, function, budget);
    let plan = block_plan(p, m, entry, m.regions.len()).0;
    block_is_priced(p, m, entry, m.regions.len());
    halving_keeps_prices();
    let start = Fitting {
        plan,
        estimated: plan_cost(plan),
        notes: Seq::empty(),
        degradation: Degradation::NotNeeded,
    };
    degrading_allows(start, limits, times, priced);
    a_fitting_plan_is_estimated(start, limits, times);
    assert(out.plan == degraded(start, limits, times).plan);
    an_estimate_covers_the_calls(out.plan, service);
    let began = started(run, out, arguments);
    assert(began.asked == run.asked);
    a_run_calls_no_more_than_its_plan_can(world, began, out.plan, service);
}

} // verus!
