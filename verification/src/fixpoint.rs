//! What an optimized program holds no more.
//!
//! Once the default pipeline is done, nothing is left for any of its passes, and
//! so no action in it is dead.

use vstd::prelude::*;

use crate::acceptance::default_passes;
use crate::convergence::reports_tell_the_truth;
use crate::dead_action::DeadActionElimination;
use crate::dedup::ToolCallDeduplication;
use crate::ids::OperationId;
use crate::judgement::is_called;
use crate::manager::{
    a_pipeline_converges_or_says_so, any_changed, pass_round, pipeline, AnyPass, PipelineView,
};
use crate::module::ModuleView;
use crate::parallelize::Parallelization;
use crate::pass::Pass;
use crate::preservation::optimizing_keeps_effects;
use crate::removal::{dead_actions_are_removed, only_looks, reads};

verus! {

/// What the default pipeline makes of a module in at most so many rounds.
pub open spec fn optimized(m: ModuleView, max: nat) -> (ModuleView, PipelineView) {
    pipeline(default_passes(), m, PipelineView::empty(), 1, max)
}

/// Once the default pipeline converged, every pass of it leaves the module as it
/// is.
pub proof fn nothing_is_left_to_do(m: ModuleView, max: nat)
    requires
        m.well_formed(),
        !optimized(m, max).1.hit_iteration_cap,
    ensures
        ToolCallDeduplication.outcome(optimized(m, max).0).0 == optimized(m, max).0,
        !ToolCallDeduplication.outcome(optimized(m, max).0).1.changed,
        DeadActionElimination.outcome(optimized(m, max).0).0 == optimized(m, max).0,
        !DeadActionElimination.outcome(optimized(m, max).0).1.changed,
        Parallelization.outcome(optimized(m, max).0).0 == optimized(m, max).0,
        !Parallelization.outcome(optimized(m, max).0).1.changed,
        optimized(m, max).0.well_formed(),
{
    let passes = default_passes();
    let out = optimized(m, max).0;
    optimizing_keeps_effects(m, PipelineView::empty(), 1, max);
    a_pipeline_converges_or_says_so(passes, m, PipelineView::empty(), 1, max);
    let before = choose|before: ModuleView|
        #![trigger pass_round(passes, before, passes.len() as int)]
        pass_round(passes, before, passes.len() as int).0 == out && !any_changed(
            pass_round(passes, before, passes.len() as int).1,
        );
    reveal_with_fuel(pass_round, 4);
    assert(passes[0] == AnyPass::Deduplication(ToolCallDeduplication));
    assert(passes[1] == AnyPass::DeadAction(DeadActionElimination));
    assert(passes[2] == AnyPass::Parallel(Parallelization));
    let (m1, r1) = passes[0].outcome(before);
    let (m2, r2) = passes[1].outcome(m1);
    let (m3, r3) = passes[2].outcome(m2);
    let reports = pass_round(passes, before, 3).1;
    assert(reports =~= seq![r1, r2, r3]);
    assert(!reports[0].changed && !reports[1].changed && !reports[2].changed);
    reports_tell_the_truth(passes[0], before);
    reports_tell_the_truth(passes[1], m1);
    reports_tell_the_truth(passes[2], m2);
}

/// Once the default pipeline converged, no action is dead: whatever gives
/// something, is no function and only reads the world, is read.
pub proof fn no_dead_action_is_left(m: ModuleView, max: nat, op: OperationId)
    requires
        m.well_formed(),
        !optimized(m, max).1.hit_iteration_cap,
        optimized(m, max).0.has_op(op),
        optimized(m, max).0.program_order(optimized(m, max).0.body).contains(op),
        optimized(m, max).0.op(op).results.len() > 0,
        !is_called(optimized(m, max).0.op(op), "agent"@, "func"@),
        only_looks(optimized(m, max).0, op),
    ensures
        exists|q: int, reader: OperationId|
            0 <= q < optimized(m, max).0.op(op).results.len() && #[trigger] reads(
                optimized(m, max).0,
                reader,
                optimized(m, max).0.op(op).results[q],
            ),
{
    nothing_is_left_to_do(m, max);
    dead_actions_are_removed(optimized(m, max).0, op);
}

} // verus!
