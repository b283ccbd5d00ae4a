//! What running a plan comes to.
//!
//! A plan is its steps, one after the other. What one step does is said here in
//! terms of what can be seen of a run: what was asked, what is bound, what is
//! recorded, and where control goes.

use vstd::prelude::*;

use crate::execution::{
    batch_run, batches_run, plan_run, step_run, FlowView, Ran, RunView, RuntimeErrorView,
};
use crate::env::ReplyView;
use crate::ids::ValueId;
use crate::plan::{Builtin, ControlView, PlanView, StepView, TargetView};
use crate::state::{binding_is_remembered, in_order, value_at, StateView};
use crate::value::ValueView;

verus! {

/// The plan of one step.
pub open spec fn only(step: StepView) -> PlanView {
    PlanView { batches: seq![seq![step]] }
}

/// One plan after another.
pub open spec fn both(first: PlanView, second: PlanView) -> PlanView {
    PlanView { batches: first.batches + second.batches }
}

/// Whether control goes on to what comes next.
pub open spec fn goes_on(flow: Result<FlowView, RuntimeErrorView>) -> bool {
    flow == Ok::<FlowView, RuntimeErrorView>(FlowView::Continue)
}

// ------------------------------------------------------------------- plans

/// A plan of one step runs that step.
pub proof fn one_step_is_run(world: Seq<ReplyView>, run: RunView, step: StepView)
    ensures
        plan_run(world, run, only(step)) == step_run(world, run, step),
{
    let batches = only(step).batches;
    let batch = batches[0];
    let (next, flow) = step_run(world, run, step);
    assert(batch_run(world, next, batch, 1) == (next, Ok::<FlowView, RuntimeErrorView>(
        FlowView::Continue,
    )));
    assert(batch_run(world, run, batch, 0) == (next, flow));
    assert(batches_run(world, next, batches, 1) == (next, Ok::<FlowView, RuntimeErrorView>(
        FlowView::Continue,
    )));
    assert(batches_run(world, run, batches, 0) == (next, flow));
}

proof fn later_batches(
    world: Seq<ReplyView>,
    run: RunView,
    a: Seq<Seq<StepView>>,
    b: Seq<Seq<StepView>>,
    i: int,
)
    requires
        0 <= i <= b.len(),
    ensures
        batches_run(world, run, a + b, a.len() + i) == batches_run(world, run, b, i),
    decreases b.len() - i,
{
    if i < b.len() {
        assert((a + b)[a.len() + i] == b[i]);
        let (next, flow) = batch_run(world, run, b[i], 0);
        later_batches(world, next, a, b, i + 1);
    }
}

proof fn batches_in_order(
    world: Seq<ReplyView>,
    run: RunView,
    a: Seq<Seq<StepView>>,
    b: Seq<Seq<StepView>>,
    i: int,
)
    requires
        0 <= i <= a.len(),
    ensures
        ({
            let (middle, flow) = batches_run(world, run, a, i);
            batches_run(world, run, a + b, i) == if goes_on(flow) {
                batches_run(world, middle, b, 0)
            } else {
                (middle, flow)
            }
        }),
    decreases a.len() - i,
{
    if i < a.len() {
        assert((a + b)[i] == a[i]);
        let (next, flow) = batch_run(world, run, a[i], 0);
        if goes_on(flow) {
            batches_in_order(world, next, a, b, i + 1);
        }
    } else {
        later_batches(world, run, a, b, 0);
    }
}

proof fn later_steps(
    world: Seq<ReplyView>,
    run: RunView,
    a: Seq<StepView>,
    b: Seq<StepView>,
    j: int,
)
    requires
        0 <= j <= b.len(),
    ensures
        batch_run(world, run, a + b, a.len() + j) == batch_run(world, run, b, j),
    decreases b.len() - j,
{
    if j < b.len() {
        assert((a + b)[a.len() + j] == b[j]);
        let (next, flow) = step_run(world, run, b[j]);
        later_steps(world, next, a, b, j + 1);
    }
}

proof fn steps_in_order(
    world: Seq<ReplyView>,
    run: RunView,
    a: Seq<StepView>,
    b: Seq<StepView>,
    j: int,
)
    requires
        0 <= j <= a.len(),
    ensures
        ({
            let (middle, flow) = batch_run(world, run, a, j);
            batch_run(world, run, a + b, j) == if goes_on(flow) {
                batch_run(world, middle, b, 0)
            } else {
                (middle, flow)
            }
        }),
    decreases a.len() - j,
{
    if j < a.len() {
        assert((a + b)[j] == a[j]);
        let (next, flow) = step_run(world, run, a[j]);
        if goes_on(flow) {
            steps_in_order(world, next, a, b, j + 1);
        }
    } else {
        later_steps(world, run, a, b, 0);
    }
}

/// Plans run one after the other: the second begins where the first ended, and
/// only where control came out of it.
pub proof fn plans_run_in_order(
    world: Seq<ReplyView>,
    run: RunView,
    first: PlanView,
    second: PlanView,
)
    ensures
        ({
            let (middle, flow) = plan_run(world, run, first);
            plan_run(world, run, both(first, second)) == if goes_on(flow) {
                plan_run(world, middle, second)
            } else {
                (middle, flow)
            }
        }),
{
    batches_in_order(world, run, first.batches, second.batches, 0);
}

/// How steps are batched makes no difference to what a run does: a batch runs as
/// its parts do, one after the other.
pub proof fn batching_changes_nothing(
    world: Seq<ReplyView>,
    run: RunView,
    a: Seq<StepView>,
    b: Seq<StepView>,
)
    ensures
        plan_run(world, run, PlanView { batches: seq![a + b] }) == plan_run(
            world,
            run,
            PlanView { batches: seq![a, b] },
        ),
{
    steps_in_order(world, run, a, b, 0);
    let one = seq![a + b];
    let two = seq![a, b];
    let (middle, flow) = batch_run(world, run, a, 0);
    let (ended, last) = batch_run(world, middle, b, 0);
    let (whole, out) = batch_run(world, run, a + b, 0);
    assert(batches_run(world, whole, one, 1) == (whole, Ok::<FlowView, RuntimeErrorView>(
        FlowView::Continue,
    )));
    assert(batches_run(world, ended, two, 2) == (ended, Ok::<FlowView, RuntimeErrorView>(
        FlowView::Continue,
    )));
    assert(batches_run(world, middle, two, 1) == (ended, last));
    assert(batches_run(world, run, two, 0) == if goes_on(flow) {
        (ended, last)
    } else {
        (middle, flow)
    });
    assert(batches_run(world, run, one, 0) == (whole, out));
}

/// A plan without steps does nothing.
pub proof fn an_empty_plan_does_nothing(world: Seq<ReplyView>, run: RunView)
    ensures
        plan_run(world, run, PlanView { batches: Seq::empty() }) == (run, Ok::<
            FlowView,
            RuntimeErrorView,
        >(FlowView::Continue)),
        plan_run(world, run, PlanView { batches: seq![Seq::empty()] }) == (run, Ok::<
            FlowView,
            RuntimeErrorView,
        >(FlowView::Continue)),
{
    let batches = seq![Seq::<StepView>::empty()];
    assert(batch_run(world, run, batches[0], 0) == (run, Ok::<FlowView, RuntimeErrorView>(
        FlowView::Continue,
    )));
    assert(batches_run(world, run, batches, 1) == (run, Ok::<FlowView, RuntimeErrorView>(
        FlowView::Continue,
    )));
}

// ---------------------------------------------------------------- bindings

/// Whether a run is another one but for the values that are bound.
pub open spec fn same_but_values(after: RunView, before: RunView) -> bool {
    after == (RunView {
        state: StateView { values: after.state.values, ..before.state },
        ..before
    })
}

/// Whether some handles were bound to the values at the same positions, and no
/// others were.
pub open spec fn binds(
    after: StateView,
    before: StateView,
    ids: Seq<ValueId>,
    values: Seq<ValueView>,
) -> bool {
    in_order(before.values) ==> {
        &&& in_order(after.values)
        &&& forall|id: ValueId| !ids.contains(id) ==> #[trigger] value_at(after.values, id)
            == value_at(before.values, id)
        &&& ids.no_duplicates() ==> forall|k: int|
            0 <= k < ids.len() ==> value_at(after.values, #[trigger] ids[k]) == Some(values[k])
    }
}

/// Binding several handles.
pub proof fn all_are_bound(s: StateView, ids: Seq<ValueId>, values: Seq<ValueView>, n: int)
    requires
        0 <= n <= ids.len(),
        n <= values.len(),
    ensures
        binds(s.bind_all(ids, values, n), s, ids.take(n), values),
        s.bind_all(ids, values, n) == (StateView {
            values: s.bind_all(ids, values, n).values,
            ..s
        }),
    decreases n,
{
    let t = s.bind_all(ids, values, n);
    if n > 0 {
        all_are_bound(s, ids, values, n - 1);
        let u = s.bind_all(ids, values, n - 1);
        let id = ids[n - 1];
        let before = ids.take(n - 1);
        let now = ids.take(n);
        assert(now =~= before.push(id));
        if in_order(s.values) {
            let other = ValueId::at(if id.spec_index() == 0 { 1int } else { 0int });
            binding_is_remembered(u.values, id, values[n - 1], other);
            assert forall|x: ValueId| !now.contains(x) implies #[trigger] value_at(t.values, x)
                == value_at(s.values, x) by {
                if x == id {
                    assert(now[n - 1] == id);
                }
                if before.contains(x) {
                    let k = choose|k: int| 0 <= k < before.len() && before[k] == x;
                    assert(now[k] == x);
                }
                binding_is_remembered(u.values, id, values[n - 1], x);
            }
            if now.no_duplicates() {
                assert forall|i: int, j: int|
                    0 <= i < before.len() && 0 <= j < before.len() && i != j implies before[i]
                    != before[j] by {
                    assert(now[i] != now[j]);
                }
                assert forall|k: int| 0 <= k < now.len() implies value_at(
                    t.values,
                    #[trigger] now[k],
                ) == Some(values[k]) by {
                    if k < n - 1 {
                        assert(now[k] != now[n - 1]);
                        assert(before[k] == now[k]);
                        binding_is_remembered(u.values, id, values[n - 1], now[k]);
                    }
                }
            }
        }
    } else {
        assert(ids.take(0) =~= Seq::empty());
    }
}

/// How many of some handles get one of some values.
pub open spec fn pairs(ids: Seq<ValueId>, values: Seq<ValueView>) -> int {
    if ids.len() <= values.len() {
        ids.len() as int
    } else {
        values.len() as int
    }
}

// ----------------------------------------------------------------- regions

/// Whether a step came to what one of its nested plans came to: the plan was run
/// from where the step began, and nothing else was; what it yields is bound to
/// the results of the step, and where it fails or returns the step does.
pub open spec fn is_region_of(
    world: Seq<ReplyView>,
    run: RunView,
    step: StepView,
    plan: PlanView,
    ran: Ran,
) -> bool {
    let (ended, flow) = plan_run(world, run, plan);
    match flow {
        Ok(FlowView::Yield(values)) => {
            &&& goes_on(ran.1)
            &&& same_but_values(ran.0, ended)
            &&& binds(
                ran.0.state,
                ended.state,
                step.results.take(pairs(step.results, values)),
                values,
            )
        },
        _ => ran == (ended, flow),
    }
}

proof fn region_is_done(world: Seq<ReplyView>, run: RunView, step: StepView, plan: PlanView)
    ensures
        is_region_of(
            world,
            run,
            step,
            plan,
            crate::execution::region_done(plan_run(world, run, plan), step),
        ),
{
    let (ended, flow) = plan_run(world, run, plan);
    if let Ok(FlowView::Yield(values)) = flow {
        all_are_bound(ended.state, step.results, values, pairs(step.results, values));
    }
}

/// The value bound to the first operand of a step.
pub open spec fn first_operand(run: RunView, step: StepView) -> Option<ValueView> {
    if step.operands.len() > 0 {
        value_at(run.state.values, step.operands[0])
    } else {
        None
    }
}

/// A `control.if` is the branch that its condition selects: the first plan where
/// it is true, the other one where it is false, and nothing where there is no
/// other one.
pub proof fn an_if_is_the_branch_it_selects(
    world: Seq<ReplyView>,
    run: RunView,
    step: StepView,
    taken: PlanView,
    otherwise: Option<PlanView>,
    condition: bool,
)
    requires
        step.target == TargetView::Builtin(Builtin::If),
        step.control == Some(ControlView::If { taken, otherwise }),
        first_operand(run, step) == Some(ValueView::Bool(condition)),
    ensures
        ({
            let branch = if condition {
                Some(taken)
            } else {
                otherwise
            };
            let ran = plan_run(world, run, only(step));
            match branch {
                Some(plan) => is_region_of(world, run, step, plan, ran),
                None => ran == (run, Ok::<FlowView, RuntimeErrorView>(FlowView::Continue)),
            }
        }),
{
    one_step_is_run(world, run, step);
    region_is_done(world, run, step, taken);
    if let Some(plan) = otherwise {
        region_is_done(world, run, step, plan);
    }
}

/// An `if` whose condition is no boolean runs neither branch.
pub proof fn an_if_needs_a_boolean(
    world: Seq<ReplyView>,
    run: RunView,
    step: StepView,
    taken: PlanView,
    otherwise: Option<PlanView>,
)
    requires
        step.target == TargetView::Builtin(Builtin::If),
        step.control == Some(ControlView::If { taken, otherwise }),
        !(first_operand(run, step) matches Some(ValueView::Bool(_))),
    ensures
        plan_run(world, run, only(step)).0 == run,
        plan_run(world, run, only(step)).1 matches Err(RuntimeErrorView::Type(_)),
{
    one_step_is_run(world, run, step);
}

/// A `control.parallel` is the plan it holds.
pub proof fn a_parallel_is_its_body(
    world: Seq<ReplyView>,
    run: RunView,
    step: StepView,
    body: PlanView,
)
    requires
        step.target == TargetView::Builtin(Builtin::Parallel),
        step.control == Some(ControlView::Parallel { body }),
    ensures
        is_region_of(world, run, step, body, plan_run(world, run, only(step))),
{
    one_step_is_run(world, run, step);
    region_is_done(world, run, step, body);
}

// ------------------------------------------------------------------- loops

/// What a plan comes to inside one more loop iteration, seen from outside it.
pub open spec fn inside(
    world: Seq<ReplyView>,
    run: RunView,
    iteration: int,
    plan: PlanView,
) -> Ran {
    let (ended, flow) = plan_run(
        world,
        RunView { path: run.path.push(iteration as u64), ..run },
        plan,
    );
    (RunView { path: run.path, ..ended }, flow)
}

/// Whether an iteration ends the loop: it failed, or the function returned.
pub open spec fn breaks(flow: Result<FlowView, RuntimeErrorView>) -> bool {
    flow is Err || (flow matches Ok(FlowView::Return(_)))
}

/// Whether a run is another one in which a handle, if there is one, was bound.
pub open spec fn with_item(
    after: RunView,
    before: RunView,
    binding: Option<ValueId>,
    item: ValueView,
) -> bool {
    match binding {
        Some(id) => same_but_values(after, before) && binds(
            after.state,
            before.state,
            seq![id],
            seq![item],
        ),
        None => after == before,
    }
}

/// Whether some moments are those between the iterations of a loop over some
/// items, and `ran` is what the loop came to: every item is bound in turn and
/// the body is run inside its own iteration, from where the one before ended,
/// until one breaks or there are no more items.
pub open spec fn iterates(
    world: Seq<ReplyView>,
    moments: Seq<RunView>,
    bound: Seq<RunView>,
    binding: Option<ValueId>,
    body: PlanView,
    items: Seq<ValueView>,
    from: int,
    ran: Ran,
) -> bool {
    let n = moments.len() - 1;
    &&& n >= 0
    &&& bound.len() == n
    &&& n <= items.len() - from
    &&& moments[n] == ran.0
    &&& forall|k: int| #![trigger bound[k]]
        0 <= k < n ==> {
            let (next, flow) = inside(world, bound[k], from + k, body);
            &&& with_item(bound[k], moments[k], binding, items[from + k])
            &&& moments[k + 1] == next
            &&& k + 1 < n ==> !breaks(flow)
            &&& k + 1 == n && breaks(flow) ==> ran.1 == flow
            &&& k + 1 == n && !breaks(flow) ==> n == items.len() - from && goes_on(ran.1)
        }
    &&& n == 0 ==> items.len() == from && goes_on(ran.1)
}

proof fn loop_iterates(
    world: Seq<ReplyView>,
    run: RunView,
    binding: Option<ValueId>,
    body: PlanView,
    items: Seq<ValueView>,
    k: int,
) -> (r: (Seq<RunView>, Seq<RunView>))
    requires
        0 <= k <= items.len(),
    ensures
        r.0.len() > 0,
        r.0[0] == run,
        iterates(
            world,
            r.0,
            r.1,
            binding,
            body,
            items,
            k,
            crate::execution::loop_run(world, run, binding, body, items, k),
        ),
    decreases items.len() - k,
{
    let ran = crate::execution::loop_run(world, run, binding, body, items, k);
    if k < items.len() {
        let begun = match binding {
            Some(id) => run.with_state(run.state.bind(id, items[k])),
            None => run,
        };
        if let Some(id) = binding {
            let ids = seq![id];
            let values = seq![items[k]];
            all_are_bound(run.state, ids, values, 1);
            assert(run.state.bind_all(ids, values, 0) == run.state);
            assert(ids.take(1) =~= ids);
        }
        assert(with_item(begun, run, binding, items[k]));
        let (next, flow) = inside(world, begun, k, body);
        if breaks(flow) {
            let r = (seq![run, next], seq![begun]);
            assert(ran == (next, flow));
            r
        } else {
            let (moments, bound) = loop_iterates(world, next, binding, body, items, k + 1);
            let m2 = seq![run] + moments;
            let b2 = seq![begun] + bound;
            let n = m2.len() - 1;
            assert forall|q: int| #![trigger b2[q]] 0 <= q < n implies {
                let (after, f) = inside(world, b2[q], k + q, body);
                &&& with_item(b2[q], m2[q], binding, items[k + q])
                &&& m2[q + 1] == after
                &&& q + 1 < n ==> !breaks(f)
                &&& q + 1 == n && breaks(f) ==> ran.1 == f
                &&& q + 1 == n && !breaks(f) ==> n == items.len() - k && goes_on(ran.1)
            } by {
                if q > 0 {
                    assert(b2[q] == bound[q - 1]);
                    assert(m2[q] == moments[q - 1]);
                    assert(m2[q + 1] == moments[q]);
                    assert(k + 1 + (q - 1) == k + q);
                } else {
                    assert(m2[1] == moments[0]);
                }
            }
            (m2, b2)
        }
    } else {
        (seq![run], Seq::empty())
    }
}

/// A `control.loop` runs its body once for every item of its operand, in order:
/// those of a list, none where there is nothing, and otherwise the one value.
/// Each item is bound before its iteration, which begins where the one before
/// ended. More items than the declared bound are refused before anything runs.
pub proof fn a_loop_runs_its_body_once_per_item(
    world: Seq<ReplyView>,
    run: RunView,
    step: StepView,
    binding: Option<ValueId>,
    max_iterations: i64,
    body: PlanView,
    items: Seq<ValueView>,
)
    requires
        step.target == TargetView::Builtin(Builtin::Loop),
        step.control == Some(ControlView::Loop { binding, max_iterations, body }),
        match first_operand(run, step) {
            Some(ValueView::List(list)) => items == list,
            Some(ValueView::Null) => items == Seq::<ValueView>::empty(),
            None => items == Seq::<ValueView>::empty(),
            Some(other) => items == seq![other],
        },
    ensures
        ({
            let ran = plan_run(world, run, only(step));
            if items.len() > max_iterations {
                ran == (run, Err::<FlowView, RuntimeErrorView>(
                    RuntimeErrorView::IterationLimit { limit: max_iterations },
                ))
            } else {
                exists|moments: Seq<RunView>, bound: Seq<RunView>|
                    #[trigger] iterates(world, moments, bound, binding, body, items, 0, ran)
                        && moments[0] == run
            }
        }),
{
    one_step_is_run(world, run, step);
    let operand = run.operand(step, 0);
    assert(crate::execution::items_of(operand) =~= items);
    if items.len() <= max_iterations {
        let (moments, bound) = loop_iterates(world, run, binding, body, items, 0);
        assert(moments[0] == run);
    }
}

/// What the condition of a `control.while` says.
pub open spec fn holds(verdict: Result<FlowView, RuntimeErrorView>) -> bool {
    verdict matches Ok(FlowView::Yield(values)) && values.len() == 1 && values[0]
        == ValueView::Bool(true)
}

/// What a `control.while` ends with where its condition does not hold: it fails
/// or returns where the condition does, is over where the condition says so or
/// says nothing, and fails where it is no boolean.
pub open spec fn ends_with(
    verdict: Result<FlowView, RuntimeErrorView>,
    flow: Result<FlowView, RuntimeErrorView>,
) -> bool {
    match verdict {
        Err(error) => flow == Err::<FlowView, RuntimeErrorView>(error),
        Ok(FlowView::Return(values)) => flow == Ok::<FlowView, RuntimeErrorView>(
            FlowView::Return(values),
        ),
        Ok(FlowView::Continue) => goes_on(flow),
        Ok(FlowView::Yield(values)) => if values.len() == 1 && values[0] == ValueView::Bool(
            false,
        ) {
            goes_on(flow)
        } else {
            flow matches Err(RuntimeErrorView::Type(_))
        },
    }
}

/// Whether some moments are those between the iterations of a `control.while`,
/// and `ran` is what it came to: every iteration asks the condition anew and runs
/// the body where it holds; the loop is over where the condition does not hold,
/// where an iteration breaks, or with a failure where the bound is used up.
pub open spec fn repeats(
    world: Seq<ReplyView>,
    moments: Seq<RunView>,
    condition: PlanView,
    max_iterations: i64,
    body: PlanView,
    from: int,
    ran: Ran,
) -> bool {
    let n = moments.len() - 1;
    &&& n >= 0
    &&& forall|k: int|
        0 <= k < n ==> #[trigger] repeats_at(
            world,
            moments,
            condition,
            max_iterations,
            body,
            from,
            ran,
            k,
        )
    &&& n == 0 && from < max_iterations ==> stops_at(world, moments[0], condition, from, ran)
    &&& n == 0 && from >= max_iterations ==> ran == (moments[0], Ok::<FlowView, RuntimeErrorView>(
        FlowView::Continue,
    ))
}

/// Whether one iteration of a `control.while` went as it should.
pub open spec fn repeats_at(
    world: Seq<ReplyView>,
    moments: Seq<RunView>,
    condition: PlanView,
    max_iterations: i64,
    body: PlanView,
    from: int,
    ran: Ran,
    k: int,
) -> bool {
    let n = moments.len() - 1;
    let (tested, verdict) = inside(world, moments[k], from + k, condition);
    let (next, flow) = inside(world, tested, from + k, body);
    &&& from + k < max_iterations
    &&& holds(verdict)
    &&& moments[k + 1] == next
    &&& k + 1 < n ==> !breaks(flow)
    &&& k + 1 == n && breaks(flow) ==> ran == (next, flow)
    &&& k + 1 == n && !breaks(flow) && from + n == max_iterations ==> ran == (
        next,
        Err::<FlowView, RuntimeErrorView>(
            RuntimeErrorView::IterationLimit { limit: max_iterations },
        ),
    )
    &&& k + 1 == n && !breaks(flow) && from + n < max_iterations ==> stops_at(
        world,
        moments[n],
        condition,
        from + n,
        ran,
    )
}

/// Whether the condition was asked once more and did not hold.
pub open spec fn stops_at(
    world: Seq<ReplyView>,
    at: RunView,
    condition: PlanView,
    iteration: int,
    ran: Ran,
) -> bool {
    let (tested, verdict) = inside(world, at, iteration, condition);
    !holds(verdict) && ran.0 == tested && ends_with(verdict, ran.1)
}

proof fn while_repeats(world: Seq<ReplyView>, run: RunView, control: ControlView, k: int) -> (r: Seq<
    RunView,
>)
    requires
        control is While,
        0 <= k,
    ensures
        r.len() > 0,
        r[0] == run,
        repeats(
            world,
            r,
            control->While_condition,
            control->While_max_iterations,
            control->While_body,
            k,
            crate::execution::while_run(world, run, control, k),
        ),
    decreases control->While_max_iterations - k,
{
    let condition = control->While_condition;
    let body = control->While_body;
    let max = control->While_max_iterations;
    let ran = crate::execution::while_run(world, run, control, k);
    if k < max {
        let (tested, verdict) = inside(world, run, k, condition);
        let (next, flow) = inside(world, tested, k, body);
        if !holds(verdict) {
            assert(stops_at(world, run, condition, k, ran));
            seq![run]
        } else if breaks(flow) || k + 1 == max {
            let moments = seq![run, next];
            assert(moments[0] == run && moments[1] == next);
            assert(repeats_at(world, moments, condition, max, body, k, ran, 0));
            moments
        } else {
            let rest = while_repeats(world, next, control, k + 1);
            let moments = seq![run] + rest;
            let n = moments.len() - 1;
            assert forall|q: int| 0 <= q < n implies #[trigger] repeats_at(
                world,
                moments,
                condition,
                max,
                body,
                k,
                ran,
                q,
            ) by {
                if q > 0 {
                    assert(repeats_at(world, rest, condition, max, body, k + 1, ran, q - 1));
                    assert(moments[q] == rest[q - 1]);
                    assert(moments[q + 1] == rest[q]);
                    assert(k + 1 + (q - 1) == k + q);
                    assert(moments[n] == rest[n - 1]);
                } else {
                    assert(moments[1] == rest[0]);
                    assert(moments[0] == run);
                }
            }
            moments
        }
    } else {
        seq![run]
    }
}

/// A `control.while` asks its condition anew before every iteration and runs its
/// body as long as it holds, each time from where the run stands, and no more
/// often than it declares.
pub proof fn a_while_repeats_its_body_while_its_condition_holds(
    world: Seq<ReplyView>,
    run: RunView,
    step: StepView,
    condition: PlanView,
    max_iterations: i64,
    body: PlanView,
)
    requires
        step.target == TargetView::Builtin(Builtin::While),
        step.control == Some(ControlView::While { condition, max_iterations, body }),
    ensures
        exists|moments: Seq<RunView>|
            #[trigger] repeats(
                world,
                moments,
                condition,
                max_iterations,
                body,
                0,
                plan_run(world, run, only(step)),
            ) && moments[0] == run,
{
    one_step_is_run(world, run, step);
    let control = ControlView::While { condition, max_iterations, body };
    let moments = while_repeats(world, run, control, 0);
    assert(moments[0] == run);
}

/// A control operation that owns no nested plan is refused.
pub proof fn control_needs_a_plan(
    world: Seq<ReplyView>,
    run: RunView,
    step: StepView,
    builtin: Builtin,
)
    requires
        step.target == TargetView::Builtin(builtin),
        builtin == Builtin::If || builtin == Builtin::Loop || builtin == Builtin::While || builtin
            == Builtin::Parallel,
        step.control is None,
    ensures
        plan_run(world, run, only(step)).0 == run,
        plan_run(world, run, only(step)).1 matches Err(RuntimeErrorView::Unsupported(_)),
{
    one_step_is_run(world, run, step);
}

} // verus!
