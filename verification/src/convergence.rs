//! Reports tell the truth, and a pipeline that converged is done.

use vstd::prelude::*;

use crate::dead_action::{dead_ops, eliminated, live_count, remove_ops};
use crate::dedup::{blocks_of, cached, dedup_blocks, dedup_ops, is_cacheable, reuse, Dedup};
use crate::effect::EffectView;
use crate::effects::effect_table;
use crate::ids::{BlockId, OperationId, ValueId};
use crate::manager::{any_changed, pass_round, pipeline, AnyPass, PipelineView};
use crate::module::ModuleView;
use crate::parallelize::{
    escaping, group_block, group_blocks, has_room, move_group, next_group, route,
    schedulable_blocks, with_parallel, wrapped,
};
use crate::pass::{consistent, Pass, PassReportView};

verus! {

/// Whether a report is right to say that nothing changed: once it says that
/// something did, it goes on saying so.
spec fn truthful(
    before: ModuleView,
    report: PassReportView,
    after: (ModuleView, PassReportView),
) -> bool {
    &&& report.changed ==> after.1.changed
    &&& !after.1.changed ==> after.0 == before
    &&& consistent(report) ==> consistent(after.1)
    &&& after.1.pass == report.pass
}

proof fn removal_is_reported(
    m: ModuleView,
    report: PassReportView,
    table: Seq<Seq<EffectView>>,
    ops: Seq<OperationId>,
    n: int,
)
    ensures
        truthful(m, report, remove_ops(m, report, table, ops, n)),
        n > 0 ==> remove_ops(m, report, table, ops, n).1.changed,
    decreases n,
{
    if n > 0 {
        removal_is_reported(m, report, table, ops, n - 1);
    }
}

proof fn elimination_is_reported(m: ModuleView, report: PassReportView)
    ensures
        truthful(m, report, eliminated(m, report)),
    decreases live_count(m, m.ops.len() as int),
{
    let dead = dead_ops(m);
    if dead.len() > 0 {
        removal_is_reported(m, report, effect_table(m), dead, dead.len() as int);
        let (m2, r2) = remove_ops(m, report, effect_table(m), dead, dead.len() as int);
        if live_count(m2, m2.ops.len() as int) < live_count(m, m.ops.len() as int) {
            elimination_is_reported(m2, r2);
        }
    }
}

proof fn reuse_is_reported(
    m: ModuleView,
    report: PassReportView,
    from: Seq<ValueId>,
    to: Seq<ValueId>,
    n: int,
)
    ensures
        truthful(m, report, reuse(m, report, from, to, n)),
    decreases n,
{
    if n > 0 {
        reuse_is_reported(m, report, from, to, n - 1);
    }
}

proof fn dedup_ops_are_reported(
    s: Dedup,
    table: Seq<Seq<EffectView>>,
    ops: Seq<OperationId>,
    n: int,
)
    ensures
        ({
            let after = dedup_ops(s, table, ops, n);
            truthful(s.m, s.report, (after.m, after.report))
        }),
    decreases n,
{
    if n > 0 {
        dedup_ops_are_reported(s, table, ops, n - 1);
        let t = dedup_ops(s, table, ops, n - 1);
        let op = ops[n - 1];
        let o = t.m.op(op);
        if is_cacheable(t.m, table, op) {
            if let Some(earlier) = cached(t.seen, o.cache_key()) {
                reuse_is_reported(
                    t.m,
                    t.report,
                    o.results,
                    t.m.op(earlier).results,
                    o.results.len() as int,
                );
            }
        }
    }
}

proof fn dedup_blocks_are_reported(
    m: ModuleView,
    report: PassReportView,
    table: Seq<Seq<EffectView>>,
    blocks: Seq<BlockId>,
    n: int,
)
    ensures
        truthful(m, report, dedup_blocks(m, report, table, blocks, n)),
    decreases n,
{
    if n > 0 {
        dedup_blocks_are_reported(m, report, table, blocks, n - 1);
        let (m1, r1) = dedup_blocks(m, report, table, blocks, n - 1);
        let ops = m1.live(m1.block(blocks[n - 1]).ops);
        dedup_ops_are_reported(
            Dedup { m: m1, report: r1, seen: Seq::empty() },
            table,
            ops,
            ops.len() as int,
        );
    }
}

proof fn routing_is_reported(
    m: ModuleView,
    report: PassReportView,
    from: Seq<ValueId>,
    to: Seq<ValueId>,
    n: int,
)
    ensures
        report.changed ==> route(m, report, from, to, n).1.changed,
        consistent(report) ==> consistent(route(m, report, from, to, n).1),
        route(m, report, from, to, n).1.pass == report.pass,
    decreases n,
{
    if n > 0 {
        routing_is_reported(m, report, from, to, n - 1);
    }
}

proof fn wrapping_is_reported(
    m: ModuleView,
    report: PassReportView,
    block: BlockId,
    group: Seq<OperationId>,
)
    ensures
        wrapped(m, report, block, group).1.changed,
        consistent(report) ==> consistent(wrapped(m, report, block, group).1),
        wrapped(m, report, block, group).1.pass == report.pass,
{
    let parallel = m.next_op();
    let position = match m.position(group[0]) {
        Some(i) => i,
        None => 0,
    };
    let out = escaping(m, group, group.len() as int);
    let m1 = with_parallel(m, block, position, out);
    let m2 = move_group(m1, group, m.next_block(), group.len() as int);
    routing_is_reported(
        m2,
        report.with_created(parallel),
        out,
        m2.op(parallel).results,
        out.len() as int,
    );
}

proof fn grouping_is_reported(m: ModuleView, report: PassReportView, block: BlockId)
    ensures
        truthful(m, report, group_block(m, report, block)),
    decreases m.block(block).ops.len(),
{
    if let Some(group) = next_group(m, block) {
        if has_room(m, escaping(m, group, group.len() as int).len()) {
            wrapping_is_reported(m, report, block, group);
            let (m2, r2) = wrapped(m, report, block, group);
            if m2.block(block).ops.len() < m.block(block).ops.len() {
                grouping_is_reported(m2, r2, block);
            }
        }
    }
}

proof fn groups_are_reported(
    m: ModuleView,
    report: PassReportView,
    blocks: Seq<BlockId>,
    n: int,
)
    ensures
        truthful(m, report, group_blocks(m, report, blocks, n)),
    decreases n,
{
    if n > 0 {
        groups_are_reported(m, report, blocks, n - 1);
        let (m1, r1) = group_blocks(m, report, blocks, n - 1);
        grouping_is_reported(m1, r1, blocks[n - 1]);
    }
}

/// A report of one of the library's own passes tells the truth: it goes under
/// the name of the pass, it says that something changed exactly when it lists an edit, and where it says that
/// nothing did, the module is as it was.
pub proof fn reports_tell_the_truth(pass: AnyPass, m: ModuleView)
    requires
        !(pass is Other),
    ensures
        pass.outcome(m).1.pass == pass.title().name,
        consistent(pass.outcome(m).1),
        !pass.outcome(m).1.changed ==> pass.outcome(m).0 == m,
{
    match pass {
        AnyPass::Deduplication(_) => {
            let blocks = blocks_of(m, m.regions.len() as int);
            dedup_blocks_are_reported(
                m,
                PassReportView::empty("tool-call-deduplication"@),
                effect_table(m),
                blocks,
                blocks.len() as int,
            );
        },
        AnyPass::DeadAction(_) => {
            elimination_is_reported(m, PassReportView::empty("dead-action-elimination"@));
        },
        AnyPass::Parallel(_) => {
            let blocks = schedulable_blocks(m, m.regions.len() as int);
            groups_are_reported(
                m,
                PassReportView::empty("parallelization"@),
                blocks,
                blocks.len() as int,
            );
        },
        AnyPass::Other(_) => {},
    }
}

/// A round of the library's own passes that reports no change made none.
proof fn a_quiet_round_changes_nothing(passes: Seq<AnyPass>, m: ModuleView, n: int)
    requires
        forall|i: int| 0 <= i < passes.len() ==> !((#[trigger] passes[i]) is Other),
        0 <= n <= passes.len(),
        !any_changed(pass_round(passes, m, n).1),
    ensures
        pass_round(passes, m, n).0 == m,
    decreases n,
{
    if n > 0 {
        let (m1, reports) = pass_round(passes, m, n - 1);
        let all = pass_round(passes, m, n).1;
        assert(!any_changed(reports)) by {
            if any_changed(reports) {
                let i = choose|i: int| 0 <= i < reports.len() && (#[trigger] reports[i]).changed;
                assert(all[i].changed);
            }
        }
        a_quiet_round_changes_nothing(passes, m, n - 1);
        assert(!passes[n - 1].outcome(m1).1.changed) by {
            assert(all[all.len() - 1] == passes[n - 1].outcome(m1).1);
        }
        reports_tell_the_truth(passes[n - 1], m1);
    }
}

/// Running a pipeline of the library's own passes a second time changes
/// nothing, unless the first run hit its cap: the second run is one round that
/// reports no change and leaves the module as it is.
pub proof fn a_second_run_changes_nothing(
    passes: Seq<AnyPass>,
    m: ModuleView,
    so_far: PipelineView,
    round: nat,
    max: nat,
)
    requires
        forall|i: int| 0 <= i < passes.len() ==> !((#[trigger] passes[i]) is Other),
        max > 0,
        !pipeline(passes, m, so_far, round, max).1.hit_iteration_cap,
    ensures
        ({
            let m2 = pipeline(passes, m, so_far, round, max).0;
            let (m3, again) = pipeline(passes, m2, PipelineView::empty(), 1, max);
            &&& m3 == m2
            &&& !again.changed
            &&& !again.hit_iteration_cap
            &&& again.rounds == 1
        }),
    decreases max + 1 - round,
{
    if round <= max {
        let n = passes.len() as int;
        let (m1, reports) = pass_round(passes, m, n);
        if any_changed(reports) {
            let next = PipelineView {
                rounds: round,
                reports: so_far.reports + reports,
                changed: so_far.changed || any_changed(reports),
                ..so_far
            };
            a_second_run_changes_nothing(passes, m1, next, round + 1, max);
        } else {
            a_quiet_round_changes_nothing(passes, m, n);
            assert(m1 == m);
        }
    }
}

} // verus!
