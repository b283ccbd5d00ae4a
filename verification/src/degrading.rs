//! What degrading a plan does to it.
//!
//! The steps stay what they are, and every loop bound above one is halved, in
//! bodies, branches and conditions alike.

use vstd::prelude::*;

use crate::plan::{
    batch_steps, batches_steps, nested_steps, plan_steps, ControlView, PlanView, StepView,
};
use crate::scheduler::{
    batches_reducible, halved, lemma_reduced_plan, reduced_plan, reduced_step, steps_reducible,
};

verus! {

/// The bound of a loop, where a step is one.
pub open spec fn bound_of(s: StepView) -> Option<i64> {
    match s.control {
        Some(ControlView::Loop { max_iterations, .. }) => Some(max_iterations),
        Some(ControlView::While { max_iterations, .. }) => Some(max_iterations),
        _ => None,
    }
}

/// Whether a step is another one with its bound halved.
pub open spec fn is_halved(s: StepView, t: StepView) -> bool {
    &&& t == (StepView { control: t.control, estimated: t.estimated, ..s })
    &&& bound_of(t) == match bound_of(s) {
        Some(bound) => Some(halved(bound)),
        None => None,
    }
}

/// Whether steps are other ones with their bounds halved, one for one.
pub open spec fn all_halved(a: Seq<StepView>, b: Seq<StepView>) -> bool {
    &&& a.len() == b.len()
    &&& forall|i: int| 0 <= i < a.len() ==> is_halved(#[trigger] a[i], b[i])
}

/// Whether some step is a loop with a bound above one.
pub open spec fn can_be_halved(steps: Seq<StepView>) -> bool {
    exists|i: int| 0 <= i < steps.len() && above_one(#[trigger] steps[i])
}

/// Whether a step is a loop with a bound above one.
pub open spec fn above_one(s: StepView) -> bool {
    match bound_of(s) {
        Some(bound) => bound > 1,
        None => false,
    }
}

proof fn halved_in_parts(a: Seq<StepView>, b: Seq<StepView>, c: Seq<StepView>, d: Seq<StepView>)
    requires
        all_halved(a, b),
        all_halved(c, d),
    ensures
        all_halved(a + c, b + d),
        can_be_halved(a + c) == (can_be_halved(a) || can_be_halved(c)),
{
    let x = a + c;
    let y = b + d;
    assert forall|i: int| 0 <= i < x.len() implies is_halved(#[trigger] x[i], y[i]) by {
        if i < a.len() {
            assert(x[i] == a[i] && y[i] == b[i]);
        } else {
            assert(x[i] == c[i - a.len()] && y[i] == d[i - a.len()]);
        }
    }
    if can_be_halved(a) {
        let i = choose|i: int| 0 <= i < a.len() && above_one(#[trigger] a[i]);
        assert(above_one(x[i]));
    }
    if can_be_halved(c) {
        let i = choose|i: int| 0 <= i < c.len() && above_one(#[trigger] c[i]);
        assert(above_one(x[a.len() + i]));
    }
    if can_be_halved(x) {
        let i = choose|i: int| 0 <= i < x.len() && above_one(#[trigger] x[i]);
        if i < a.len() {
            assert(above_one(a[i]));
        } else {
            assert(above_one(c[i - a.len()]));
        }
    }
}

/// Degrading halves every loop bound above one, wherever the loop stands, and
/// leaves everything else of the steps as it is but for their estimates; and it
/// says whether there was anything to halve.
pub proof fn every_bound_is_halved(p: PlanView)
    ensures
        all_halved(plan_steps(p), plan_steps(reduced_plan(p).0)),
        reduced_plan(p).1 == can_be_halved(plan_steps(p)),
    decreases p, 0int, 0int,
{
    lemma_reduced_plan(p);
    assert(decreases_to!(p => p.batches));
    batches_are_halved(p.batches, reduced_plan(p).0.batches, 0);
}

proof fn batches_are_halved(a: Seq<Seq<StepView>>, b: Seq<Seq<StepView>>, i: int)
    requires
        0 <= i <= a.len(),
        a.len() == b.len(),
        forall|k: int|
            0 <= k < a.len() ==> (#[trigger] b[k]) == Seq::new(
                a[k].len(),
                |j: int| reduced_step(a[k][j]).0,
            ),
    ensures
        all_halved(batches_steps(a, i), batches_steps(b, i)),
        batches_reducible(a, i) == can_be_halved(batches_steps(a, i)),
    decreases a, 0int, a.len() - i,
{
    if i < a.len() {
        assert(decreases_to!(a => a[i]));
        batch_is_halved(a[i], b[i], 0);
        batches_are_halved(a, b, i + 1);
        halved_in_parts(
            batch_steps(a[i], 0),
            batch_steps(b[i], 0),
            batches_steps(a, i + 1),
            batches_steps(b, i + 1),
        );
    }
}

proof fn batch_is_halved(a: Seq<StepView>, b: Seq<StepView>, j: int)
    requires
        0 <= j <= a.len(),
        b == Seq::new(a.len(), |k: int| reduced_step(a[k]).0),
    ensures
        all_halved(batch_steps(a, j), batch_steps(b, j)),
        steps_reducible(a, j) == can_be_halved(batch_steps(a, j)),
    decreases a, 0int, a.len() - j,
{
    if j < a.len() {
        assert(decreases_to!(a => a[j]));
        step_is_halved(a[j]);
        assert(b[j] == reduced_step(a[j]).0);
        batch_is_halved(a, b, j + 1);
        let one = seq![a[j]];
        let two = seq![b[j]];
        assert(all_halved(one, two)) by {
            assert(one[0] == a[j] && two[0] == b[j]);
        }
        assert(can_be_halved(one) == above_one(a[j])) by {
            if above_one(a[j]) {
                assert(above_one(one[0]));
            }
        }
        halved_in_parts(one, two, nested_steps(a[j].control), nested_steps(b[j].control));
        halved_in_parts(
            one + nested_steps(a[j].control),
            two + nested_steps(b[j].control),
            batch_steps(a, j + 1),
            batch_steps(b, j + 1),
        );
    }
}

proof fn step_is_halved(s: StepView)
    ensures
        is_halved(s, reduced_step(s).0),
        all_halved(nested_steps(s.control), nested_steps(reduced_step(s).0.control)),
        reduced_step(s).1 == (above_one(s) || can_be_halved(nested_steps(s.control))),
    decreases s, 0int, 0int,
{
    let none = Seq::<StepView>::empty();
    if let Some(c) = s.control {
        assert(decreases_to!(s => s.control));
        match c {
            ControlView::If { taken, otherwise } => {
                every_bound_is_halved(taken);
                if let Some(p) = otherwise {
                    every_bound_is_halved(p);
                    halved_in_parts(
                        plan_steps(taken),
                        plan_steps(reduced_plan(taken).0),
                        plan_steps(p),
                        plan_steps(reduced_plan(p).0),
                    );
                } else {
                    halved_in_parts(
                        plan_steps(taken),
                        plan_steps(reduced_plan(taken).0),
                        none,
                        none,
                    );
                }
            },
            ControlView::Loop { binding, max_iterations, body } => {
                every_bound_is_halved(body);
            },
            ControlView::While { condition, max_iterations, body } => {
                every_bound_is_halved(condition);
                every_bound_is_halved(body);
                halved_in_parts(
                    plan_steps(condition),
                    plan_steps(reduced_plan(condition).0),
                    plan_steps(body),
                    plan_steps(reduced_plan(body).0),
                );
            },
            ControlView::Parallel { body } => {
                every_bound_is_halved(body);
            },
        }
    } else {
        assert(!can_be_halved(none));
    }
}

} // verus!
