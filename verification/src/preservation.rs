//! What optimizing leaves in place.
//!
//! The passes may drop what is free to drop and may put operations side by side.
//! What a program does to the outside, they leave alone: the operations that
//! write, that cannot be undone or that ask a model are the same ones
//! afterwards, in the same program order, and each does the same.

use vstd::prelude::*;

use crate::acceptance::default_passes;
use crate::dead_action::DeadActionElimination;
use crate::dedup::{
    blocks_of, deduplication_only_rewrites_operands, only_operands, ToolCallDeduplication,
};
use crate::effects::effect_table;
use crate::ids::{OperationId, RegionId};
use crate::manager::{any_changed, pass_round, pipeline, AnyPass, PipelineView};
use crate::module::ModuleView;
use crate::parallelize::{parallelization_never_reorders, Parallelization};
use crate::pass::{Pass, PassReportView};
use crate::regroup::{
    among_first, filtered_again, filtered_alike, none_kept, one_filtered, same_action, walk_of_live,
};

verus! {

/// Whether an operation does something that cannot be done over for free: it
/// neither computes nor reads only.
pub open spec fn lasts(m: ModuleView) -> spec_fn(OperationId) -> bool {
    |op: OperationId| !m.op(op).effect.is_replayable()
}

/// The live operations that do something that cannot be done over for free, in
/// program order.
pub open spec fn lasting_ops(m: ModuleView) -> Seq<OperationId> {
    m.program_order(m.body).filter(lasts(m))
}

/// Whether what a program does to the outside is what another one does: the
/// operations for which it counts are the same, in the same order, and every
/// operation does the same.
pub open spec fn keeps_effects(a: ModuleView, b: ModuleView) -> bool {
    &&& a.ops.len() <= b.ops.len()
    &&& lasting_ops(b) == lasting_ops(a)
    &&& forall|i: int| 0 <= i < a.ops.len() ==> same_action(a.ops[i], #[trigger] b.ops[i])
}

/// What is kept twice is kept.
pub proof fn effects_kept_on(a: ModuleView, b: ModuleView, c: ModuleView)
    requires
        keeps_effects(a, b),
        keeps_effects(b, c),
    ensures
        keeps_effects(a, c),
{
    assert forall|i: int| 0 <= i < a.ops.len() implies same_action(
        a.ops[i],
        #[trigger] c.ops[i],
    ) by {
        assert(same_action(a.ops[i], b.ops[i]));
    }
}

// ---------------------------------------------------------------- thinning

/// Whether nothing in an operation or nested in it lasts.
pub open spec fn is_free(m: ModuleView, op: OperationId) -> bool {
    forall|k: int|
        0 <= k < m.subtree(op).len() ==> m.op(#[trigger] m.subtree(op)[k]).effect.is_replayable()
}

/// Whether a module is another one without some operations that are free.
pub open spec fn thins(a: ModuleView, b: ModuleView) -> bool {
    &&& a.body == b.body
    &&& a.regions == b.regions
    &&& a.blocks.len() == b.blocks.len()
    &&& a.ops.len() == b.ops.len()
    &&& forall|i: int|
        0 <= i < a.ops.len() ==> same_action(a.ops[i], #[trigger] b.ops[i]) && b.ops[i].regions
            == a.ops[i].regions && (a.ops[i].erased ==> b.ops[i].erased) && (b.ops[i].erased
            && !a.ops[i].erased ==> is_free(a, OperationId::at(i)))
    &&& forall|i: int|
        0 <= i < a.blocks.len() ==> b.live((#[trigger] b.blocks[i]).ops) == b.live(a.blocks[i].ops)
}

/// Whether everything nested in an operation lies deeper than a level.
spec fn nests_deeper(m: ModuleView, levels: Seq<nat>, op: OperationId, level: nat) -> bool {
    forall|k: int|
        0 <= k < m.op(op).regions.len() ==> levels[(
        #[trigger] m.op(op).regions[k]).spec_index()] > level
}

proof fn ops_thinned(
    a: ModuleView,
    b: ModuleView,
    levels: Seq<nat>,
    ops: Seq<OperationId>,
    i: int,
    level: nat,
    fuel: nat,
)
    requires
        a.in_bounds(),
        a.leveled(levels),
        thins(a, b),
        0 <= i,
        fuel + level >= a.regions.len(),
        forall|k: int|
            0 <= k < ops.len() ==> a.has_op(#[trigger] ops[k]) && nests_deeper(
                a,
                levels,
                ops[k],
                level,
            ),
    ensures
        b.walk_ops(ops, i, fuel).filter(lasts(a)) == a.walk_ops(ops, i, fuel).filter(lasts(a)),
    decreases fuel, 1int, ops.len() - i,
{
    let keep = lasts(a);
    if i < ops.len() {
        let op = ops[i];
        assert(a.has_op(ops[i]));
        let regions = a.op(op).regions;
        assert(b.ops[op.spec_index()].regions == regions);
        assert(a.op_in_bounds(a.ops[op.spec_index()]));
        ops_thinned(a, b, levels, ops, i + 1, level, fuel);
        if !a.op(op).erased {
            let nested = a.walk_regions(regions, 0, fuel);
            let rest = a.walk_ops(ops, i + 1, fuel);
            Seq::filter_distributes_over_add(seq![op] + nested, rest, keep);
            Seq::filter_distributes_over_add(seq![op], nested, keep);
            if b.op(op).erased {
                assert(OperationId::at(op.spec_index()) == op);
                assert(is_free(a, op));
                assert(a.subtree(op)[0] == op);
                one_filtered(op, keep);
                crate::traversal::op_walks_agree(
                    a,
                    levels,
                    op,
                    level,
                    0,
                    fuel,
                    a.regions.len() + 1,
                );
                assert forall|k: int| 0 <= k < nested.len() implies !keep(#[trigger] nested[k]) by {
                    assert(a.subtree(op)[k + 1] == nested[k]);
                }
                none_kept(nested, keep);
                assert(seq![op].filter(keep) + nested.filter(keep) + rest.filter(keep)
                    =~= rest.filter(keep));
            } else {
                assert forall|k: int| 0 <= k < regions.len() implies a.has_region(
                    #[trigger] regions[k],
                ) && (fuel > 0 ==> fuel - 1 + levels[regions[k].spec_index()]
                    >= a.regions.len()) by {
                    assert(levels[a.op(op).regions[k].spec_index()] > level);
                }
                regions_thinned(a, b, levels, regions, 0, fuel);
                let nested2 = b.walk_regions(regions, 0, fuel);
                let rest2 = b.walk_ops(ops, i + 1, fuel);
                Seq::filter_distributes_over_add(seq![op] + nested2, rest2, keep);
                Seq::filter_distributes_over_add(seq![op], nested2, keep);
            }
        }
    }
}

proof fn regions_thinned(
    a: ModuleView,
    b: ModuleView,
    levels: Seq<nat>,
    regions: Seq<RegionId>,
    i: int,
    fuel: nat,
)
    requires
        a.in_bounds(),
        a.leveled(levels),
        thins(a, b),
        0 <= i,
        forall|k: int|
            0 <= k < regions.len() ==> a.has_region(#[trigger] regions[k]) && (fuel > 0 ==> fuel - 1
                + levels[regions[k].spec_index()] >= a.regions.len()),
    ensures
        b.walk_regions(regions, i, fuel).filter(lasts(a)) == a.walk_regions(
            regions,
            i,
            fuel,
        ).filter(lasts(a)),
    decreases fuel, 0int, regions.len() - i,
{
    let keep = lasts(a);
    if i < regions.len() && fuel > 0 {
        let r = regions[i];
        assert(a.has_region(regions[i]));
        let inner = (fuel - 1) as nat;
        blocks_thinned(a, b, levels, r, 0, inner);
        regions_thinned(a, b, levels, regions, i + 1, fuel);
        let blocks = a.region(r).blocks;
        Seq::filter_distributes_over_add(
            a.walk_blocks(blocks, 0, inner),
            a.walk_regions(regions, i + 1, fuel),
            keep,
        );
        Seq::filter_distributes_over_add(
            b.walk_blocks(blocks, 0, inner),
            b.walk_regions(regions, i + 1, fuel),
            keep,
        );
    }
}

proof fn blocks_thinned(
    a: ModuleView,
    b: ModuleView,
    levels: Seq<nat>,
    region: RegionId,
    i: int,
    fuel: nat,
)
    requires
        a.in_bounds(),
        a.leveled(levels),
        thins(a, b),
        0 <= i,
        a.has_region(region),
        fuel + levels[region.spec_index()] >= a.regions.len(),
    ensures
        b.walk_blocks(a.region(region).blocks, i, fuel).filter(lasts(a)) == a.walk_blocks(
            a.region(region).blocks,
            i,
            fuel,
        ).filter(lasts(a)),
    decreases fuel, 2int, a.region(region).blocks.len() - i,
{
    let keep = lasts(a);
    let blocks = a.region(region).blocks;
    let r = region.spec_index();
    if i < blocks.len() {
        let block = blocks[i];
        assert(a.region_in_bounds(a.regions[r]));
        assert(a.has_block(a.regions[r].blocks[i]));
        assert(a.block_in_bounds(a.blocks[block.spec_index()]));
        let ops = a.block(block).ops;
        let ops2 = b.block(block).ops;
        assert(b.live(b.blocks[block.spec_index()].ops) == b.live(ops));
        walk_of_live(b, ops2, fuel);
        walk_of_live(b, ops, fuel);
        assert forall|k: int| 0 <= k < ops.len() implies a.has_op(#[trigger] ops[k])
            && nests_deeper(a, levels, ops[k], levels[r]) by {
            let op = ops[k];
            assert(a.op_in_bounds(a.ops[op.spec_index()]));
            assert forall|n: int| 0 <= n < a.op(op).regions.len() implies levels[(
            #[trigger] a.op(op).regions[n]).spec_index()] > levels[r] by {
                assert(a.has_child(r, i, k, n));
                assert(a.child(r, i, k, n) == a.op(op).regions[n]);
            }
        }
        ops_thinned(a, b, levels, ops, 0, levels[r], fuel);
        blocks_thinned(a, b, levels, region, i + 1, fuel);
        Seq::filter_distributes_over_add(
            a.walk_ops(ops, 0, fuel),
            a.walk_blocks(blocks, i + 1, fuel),
            keep,
        );
        Seq::filter_distributes_over_add(
            b.walk_ops(ops2, 0, fuel),
            b.walk_blocks(blocks, i + 1, fuel),
            keep,
        );
    }
}

/// Taking out what is free leaves what lasts.
pub proof fn thinning_keeps_effects(a: ModuleView, b: ModuleView)
    requires
        a.well_formed(),
        b.in_bounds(),
        thins(a, b),
    ensures
        keeps_effects(a, b),
{
    let levels = choose|levels: Seq<nat>| a.leveled(levels);
    blocks_thinned(a, b, levels, a.body, 0, a.regions.len());
    crate::traversal::walks_are_live(b, b.body);
    same_kept(a, b, b.program_order(b.body));
}

/// Operations that are in both programs last in both or in neither.
proof fn same_kept(a: ModuleView, b: ModuleView, ops: Seq<OperationId>)
    requires
        a.ops.len() <= b.ops.len(),
        forall|i: int| 0 <= i < a.ops.len() ==> same_action(a.ops[i], #[trigger] b.ops[i]),
        forall|k: int| 0 <= k < ops.len() ==> (#[trigger] ops[k]).spec_index() < a.ops.len(),
    ensures
        ops.filter(lasts(a)) == ops.filter(lasts(b)),
{
    let x = lasts(a);
    let y = lasts(b);
    assert forall|k: int| 0 <= k < ops.len() implies (x(#[trigger] ops[k]) && x(ops[k])) == (y(
        ops[k],
    ) && y(ops[k])) by {
        assert(same_action(a.ops[ops[k].spec_index()], b.ops[ops[k].spec_index()]));
    }
    filtered_alike(ops, x, x, y, y);
    filtered_again(ops, x);
    filtered_again(ops, y);
}

// -------------------------------------------------------------- the passes

/// Deduplication leaves what a program does to the outside alone.
pub proof fn deduplication_keeps_effects(m: ModuleView)
    requires
        m.well_formed(),
    ensures
        keeps_effects(m, ToolCallDeduplication.outcome(m).0),
        ToolCallDeduplication.outcome(m).0.well_formed(),
{
    let blocks = blocks_of(m, m.regions.len() as int);
    let report = PassReportView::empty("tool-call-deduplication"@);
    let table = effect_table(m);
    deduplication_only_rewrites_operands(m, report, table, blocks, blocks.len() as int);
    let after = ToolCallDeduplication.outcome(m).0;
    assert(only_operands(m, after));
    crate::dedup::deduplication_keeps_structure(m);
    assert forall|i: int| 0 <= i < m.blocks.len() implies after.live(
        (#[trigger] after.blocks[i]).ops,
    ) == after.live(m.blocks[i].ops) by {}
    thinning_keeps_effects(m, after);
}

/// Parallelization leaves what a program does to the outside alone.
pub proof fn parallelization_keeps_effects(m: ModuleView)
    requires
        m.well_formed(),
    ensures
        keeps_effects(m, Parallelization.outcome(m).0),
        Parallelization.outcome(m).0.well_formed(),
{
    parallelization_never_reorders(m);
    let after = Parallelization.outcome(m).0;
    let order = after.program_order(after.body);
    let old_ones = among_first(m.ops.len());
    let keep = lasts(after);
    crate::traversal::walks_are_live(after, after.body);
    crate::traversal::walks_are_live(m, m.body);
    assert forall|k: int| 0 <= k < order.len() implies (old_ones(#[trigger] order[k]) && keep(
        order[k],
    )) == (keep(order[k]) && keep(order[k])) by {
        assert(after.has_op(order[k]));
        if keep(order[k]) && !old_ones(order[k]) {
            assert(after.ops[order[k].spec_index()].effect == crate::effect::EffectView::Pure);
        }
    }
    filtered_alike(order, old_ones, keep, keep, keep);
    filtered_again(order, keep);
    assert(order.filter(old_ones) == m.program_order(m.body));
    same_kept(m, after, m.program_order(m.body));
}

proof fn passes_keep_effects(m: ModuleView, n: int)
    requires
        m.well_formed(),
        0 <= n <= 3,
    ensures
        keeps_effects(m, pass_round(default_passes(), m, n).0),
        pass_round(default_passes(), m, n).0.well_formed(),
    decreases n,
{
    if n > 0 {
        passes_keep_effects(m, n - 1);
        let m1 = pass_round(default_passes(), m, n - 1).0;
        let m2 = pass_round(default_passes(), m, n).0;
        if n == 1 {
            assert(default_passes()[0] == AnyPass::Deduplication(ToolCallDeduplication));
            deduplication_keeps_effects(m1);
        } else if n == 2 {
            assert(default_passes()[1] == AnyPass::DeadAction(DeadActionElimination));
            crate::dead_action::elimination_keeps_effects(
                m1,
                PassReportView::empty("dead-action-elimination"@),
            );
        } else {
            assert(default_passes()[2] == AnyPass::Parallel(Parallelization));
            parallelization_keeps_effects(m1);
        }
        effects_kept_on(m, m1, m2);
    }
}

/// Optimizing a program does not change what it does to the outside: the
/// operations that write, that cannot be undone or that ask a model are the
/// same ones afterwards, in the same program order, and each has the same name,
/// literal, attributes, effect and results.
pub proof fn optimizing_keeps_effects(
    m: ModuleView,
    so_far: PipelineView,
    round: nat,
    max: nat,
)
    requires
        m.well_formed(),
    ensures
        keeps_effects(m, pipeline(default_passes(), m, so_far, round, max).0),
        pipeline(default_passes(), m, so_far, round, max).0.well_formed(),
    decreases max + 1 - round,
{
    if round <= max {
        passes_keep_effects(m, 3);
        let (m1, reports) = pass_round(default_passes(), m, 3);
        let next = PipelineView {
            rounds: round,
            reports: so_far.reports + reports,
            changed: so_far.changed || any_changed(reports),
            ..so_far
        };
        if any_changed(reports) {
            optimizing_keeps_effects(m1, next, round + 1, max);
            effects_kept_on(
                m,
                m1,
                pipeline(default_passes(), m1, next, round + 1, max).0,
            );
        }
    }
}

} // verus!
