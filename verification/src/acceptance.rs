//! What acceptance guarantees.
//!
//! A module that the verifier accepts, that was read from text and optimized by
//! the default pipeline, can be scheduled: every control operation has the
//! regions its plan is made of, and every region has a first block.

use vstd::prelude::*;

use crate::dead_action::{eliminated, live_count, remove_ops, DeadActionElimination};
use crate::dedup::{blocks_of, dedup_blocks, dedup_ops, reuse, Dedup, ToolCallDeduplication};
use crate::diagnostic::{rejects, DiagnosticView};
use crate::dialects::{catalogue, signature_of, Arity, SignatureView};
use crate::effect::EffectView;
use crate::effects::effect_table;
use crate::ids::{BlockId, OperationId, RegionId, ValueId};
use crate::manager::{any_changed, pass_round, pipeline, AnyPass, PipelineView};
use crate::module::{ModuleView, OperationView};
use crate::number::Number;
use crate::parallelize::{
    escaping, group_block, group_blocks, has_room, move_group, next_group, route,
    schedulable_blocks, with_parallel, wrapped, Parallelization,
};
use crate::pass::PassReportView;
use crate::printer::lemma_filter_member;
use crate::rules::{
    all_findings, count_findings, op_findings, ops_findings, signature_findings, static_findings,
};
use crate::scheduler::{block_plannable, function_plannable, op_plannable, planned_regions};

verus! {

// ------------------------------------------------- passes keep first blocks

proof fn reuse_keeps_regions(
    m: ModuleView,
    report: PassReportView,
    from: Seq<ValueId>,
    to: Seq<ValueId>,
    n: int,
)
    ensures
        reuse(m, report, from, to, n).0.regions == m.regions,
        reuse(m, report, from, to, n).0.capabilities == m.capabilities,
    decreases n,
{
    if n > 0 {
        reuse_keeps_regions(m, report, from, to, n - 1);
    }
}

proof fn dedup_ops_keeps_regions(
    s: Dedup,
    table: Seq<Seq<EffectView>>,
    ops: Seq<OperationId>,
    n: int,
)
    ensures
        dedup_ops(s, table, ops, n).m.regions == s.m.regions,
        dedup_ops(s, table, ops, n).m.capabilities == s.m.capabilities,
    decreases n,
{
    if n > 0 {
        dedup_ops_keeps_regions(s, table, ops, n - 1);
        let t = dedup_ops(s, table, ops, n - 1);
        let op = ops[n - 1];
        if let Some(earlier) = crate::dedup::cached(t.seen, t.m.op(op).cache_key()) {
            reuse_keeps_regions(
                t.m,
                t.report,
                t.m.op(op).results,
                t.m.op(earlier).results,
                t.m.op(op).results.len() as int,
            );
        }
    }
}

proof fn dedup_keeps_regions(
    m: ModuleView,
    report: PassReportView,
    table: Seq<Seq<EffectView>>,
    blocks: Seq<BlockId>,
    n: int,
)
    ensures
        dedup_blocks(m, report, table, blocks, n).0.regions == m.regions,
        dedup_blocks(m, report, table, blocks, n).0.capabilities == m.capabilities,
    decreases n,
{
    if n > 0 {
        dedup_keeps_regions(m, report, table, blocks, n - 1);
        let (m1, r1) = dedup_blocks(m, report, table, blocks, n - 1);
        let ops = m1.live(m1.block(blocks[n - 1]).ops);
        dedup_ops_keeps_regions(
            Dedup { m: m1, report: r1, seen: Seq::empty() },
            table,
            ops,
            ops.len() as int,
        );
    }
}

proof fn removal_keeps_regions(
    m: ModuleView,
    report: PassReportView,
    table: Seq<Seq<EffectView>>,
    ops: Seq<OperationId>,
    n: int,
)
    ensures
        remove_ops(m, report, table, ops, n).0.regions == m.regions,
        remove_ops(m, report, table, ops, n).0.capabilities == m.capabilities,
    decreases n,
{
    if n > 0 {
        removal_keeps_regions(m, report, table, ops, n - 1);
    }
}

proof fn elimination_keeps_regions(m: ModuleView, report: PassReportView)
    ensures
        eliminated(m, report).0.regions == m.regions,
        eliminated(m, report).0.capabilities == m.capabilities,
    decreases live_count(m, m.ops.len() as int),
{
    let dead = crate::dead_action::dead_ops(m);
    if dead.len() > 0 {
        let (m2, r2) = remove_ops(m, report, effect_table(m), dead, dead.len() as int);
        removal_keeps_regions(m, report, effect_table(m), dead, dead.len() as int);
        if live_count(m2, m2.ops.len() as int) < live_count(m, m.ops.len() as int) {
            elimination_keeps_regions(m2, r2);
        }
    }
}

proof fn moving_keeps_regions(m: ModuleView, group: Seq<OperationId>, block: BlockId, n: int)
    ensures
        move_group(m, group, block, n).regions == m.regions,
        move_group(m, group, block, n).capabilities == m.capabilities,
    decreases n,
{
    if n > 0 {
        moving_keeps_regions(m, group, block, n - 1);
    }
}

proof fn routing_keeps_regions(
    m: ModuleView,
    report: PassReportView,
    from: Seq<ValueId>,
    to: Seq<ValueId>,
    n: int,
)
    ensures
        route(m, report, from, to, n).0.regions == m.regions,
        route(m, report, from, to, n).0.capabilities == m.capabilities,
    decreases n,
{
    if n > 0 {
        routing_keeps_regions(m, report, from, to, n - 1);
    }
}

proof fn wrapping_keeps_complete(
    m: ModuleView,
    report: PassReportView,
    block: BlockId,
    group: Seq<OperationId>,
)
    requires
        m.complete(),
        has_room(m, escaping(m, group, group.len() as int).len()),
    ensures
        wrapped(m, report, block, group).0.complete(),
        wrapped(m, report, block, group).0.capabilities == m.capabilities,
{
    let parallel = m.next_op();
    let inner = m.next_block();
    let position = match m.position(group[0]) {
        Some(i) => i,
        None => 0,
    };
    let out = escaping(m, group, group.len() as int);
    let m1 = with_parallel(m, block, position, out);
    let m2 = move_group(m1, group, inner, group.len() as int);
    moving_keeps_regions(m1, group, inner, group.len() as int);
    routing_keeps_regions(
        m2,
        report.with_created(parallel),
        out,
        m2.op(parallel).results,
        out.len() as int,
    );
    assert(m1.regions.len() == m.regions.len() + 1);
    assert forall|i: int| 0 <= i < m1.regions.len() implies (
    #[trigger] m1.regions[i]).blocks.len() > 0 by {
        if i < m.regions.len() {
            assert(m1.regions[i] == m.regions[i]);
        }
    }
}

proof fn grouping_keeps_complete(m: ModuleView, report: PassReportView, block: BlockId)
    requires
        m.complete(),
    ensures
        group_block(m, report, block).0.complete(),
        group_block(m, report, block).0.capabilities == m.capabilities,
    decreases m.block(block).ops.len(),
{
    if let Some(group) = next_group(m, block) {
        if has_room(m, escaping(m, group, group.len() as int).len()) {
            wrapping_keeps_complete(m, report, block, group);
            let (m2, r2) = wrapped(m, report, block, group);
            if m2.block(block).ops.len() < m.block(block).ops.len() {
                grouping_keeps_complete(m2, r2, block);
            }
        }
    }
}

proof fn groups_keep_complete(
    m: ModuleView,
    report: PassReportView,
    blocks: Seq<BlockId>,
    n: int,
)
    requires
        m.complete(),
    ensures
        group_blocks(m, report, blocks, n).0.complete(),
        group_blocks(m, report, blocks, n).0.capabilities == m.capabilities,
    decreases n,
{
    if n > 0 {
        groups_keep_complete(m, report, blocks, n - 1);
        let (m1, r1) = group_blocks(m, report, blocks, n - 1);
        grouping_keeps_complete(m1, r1, blocks[n - 1]);
    }
}

/// The passes of the default pipeline.
pub open spec fn default_passes() -> Seq<AnyPass> {
    seq![
        AnyPass::Deduplication(ToolCallDeduplication),
        AnyPass::DeadAction(DeadActionElimination),
        AnyPass::Parallel(Parallelization),
    ]
}

proof fn passes_keep_complete(m: ModuleView, n: int)
    requires
        m.complete(),
        0 <= n <= 3,
    ensures
        pass_round(default_passes(), m, n).0.complete(),
        pass_round(default_passes(), m, n).0.capabilities == m.capabilities,
    decreases n,
{
    if n > 0 {
        passes_keep_complete(m, n - 1);
        let m1 = pass_round(default_passes(), m, n - 1).0;
        if n == 1 {
            let blocks = blocks_of(m1, m1.regions.len() as int);
            dedup_keeps_regions(
                m1,
                PassReportView::empty("tool-call-deduplication"@),
                effect_table(m1),
                blocks,
                blocks.len() as int,
            );
        } else if n == 2 {
            elimination_keeps_regions(m1, PassReportView::empty("dead-action-elimination"@));
        } else {
            let blocks = schedulable_blocks(m1, m1.regions.len() as int);
            groups_keep_complete(
                m1,
                PassReportView::empty("parallelization"@),
                blocks,
                blocks.len() as int,
            );
        }
    }
}

/// The default pipeline leaves every region with a first block, and the
/// capabilities as they are.
pub proof fn optimizing_keeps_first_blocks(
    m: ModuleView,
    so_far: PipelineView,
    round: nat,
    max: nat,
)
    requires
        m.complete(),
    ensures
        pipeline(default_passes(), m, so_far, round, max).0.complete(),
        pipeline(default_passes(), m, so_far, round, max).0.capabilities == m.capabilities,
    decreases max + 1 - round,
{
    if round <= max {
        passes_keep_complete(m, 3);
        let (m1, reports) = pass_round(default_passes(), m, 3);
        let next = PipelineView {
            rounds: round,
            reports: so_far.reports + reports,
            changed: so_far.changed || any_changed(reports),
            ..so_far
        };
        if any_changed(reports) {
            optimizing_keeps_first_blocks(m1, next, round + 1, max);
        }
    }
}

// -------------------------------------------------- accepted shapes suffice

/// A signature that is found is one of the list, under the name asked for.
proof fn found_signatures(s: Seq<SignatureView>, name: crate::module::OpNameView, i: int)
    requires
        0 <= i,
    ensures
        signature_of(s, name, i) matches Some(found) ==> found.name == name && exists|k: int|
            i <= k < s.len() && #[trigger] s[k] == found,
    decreases s.len() - i,
{
    if i < s.len() && s[i].name != name {
        found_signatures(s, name, i + 1);
    }
}

/// How many regions the dialects give the operations that own some.
proof fn owning_signatures(i: int)
    requires
        0 <= i < catalogue().len(),
    ensures
        catalogue()[i].name.is("agent"@, "func"@) ==> catalogue()[i].regions == Arity::Exact(1),
        catalogue()[i].name.is("control"@, "if"@) ==> catalogue()[i].regions == Arity::Between(
            1,
            2,
        ),
        catalogue()[i].name.is("control"@, "loop"@) ==> catalogue()[i].regions == Arity::Exact(1),
        catalogue()[i].name.is("control"@, "parallel"@) ==> catalogue()[i].regions
            == Arity::Exact(1),
        catalogue()[i].name.is("control"@, "while"@) ==> catalogue()[i].regions == Arity::Exact(2),
{
    reveal_strlit("agent");
    reveal_strlit("control");
    reveal_strlit("core");
    reveal_strlit("tool");
    reveal_strlit("memory");
    reveal_strlit("observation");
    reveal_strlit("func");
    reveal_strlit("if");
    reveal_strlit("loop");
    reveal_strlit("parallel");
    reveal_strlit("while");
    reveal_strlit("yield");
    reveal_strlit("action");
    reveal_strlit("budget");
    reveal_strlit("context");
    reveal_strlit("input");
    reveal_strlit("plan");
    reveal_strlit("reject");
    reveal_strlit("return");
    reveal_strlit("verify");
    assert("func"@[0] == 'f' && "plan"@[0] == 'p');
    assert("while"@[0] == 'w' && "yield"@[0] == 'y');
    assert("agent"@.len() == 5 && "control"@.len() == 7 && "core"@.len() == 4);
    assert("tool"@.len() == 4 && "memory"@.len() == 6 && "observation"@.len() == 11);
    assert("if"@.len() == 2 && "loop"@.len() == 4 && "parallel"@.len() == 8);
    assert("while"@.len() == 5 && "yield"@.len() == 5 && "func"@.len() == 4);
    let s = catalogue()[i];
    if s.name.dialect == "control"@ {
        assert(s.name.name == "if"@ || s.name.name == "loop"@ || s.name.name == "parallel"@
            || s.name.name == "while"@ || s.name.name == "yield"@);
    }
}

/// A finding of a part is a finding of the whole.
pub proof fn parts_reject(a: Seq<DiagnosticView>, b: Seq<DiagnosticView>)
    ensures
        rejects(a) ==> rejects(a + b),
        rejects(b) ==> rejects(a + b),
{
    if rejects(a) {
        let i = choose|i: int| 0 <= i < a.len() && (#[trigger] a[i]).is_error();
        assert((a + b)[i].is_error());
    }
    if rejects(b) {
        let i = choose|i: int| 0 <= i < b.len() && (#[trigger] b[i]).is_error();
        assert((a + b)[a.len() + i].is_error());
    }
}

/// An operation whose shape is accepted has the regions its plan is made of.
proof fn accepted_shapes(o: OperationView)
    requires
        !rejects(signature_findings(o, catalogue())),
    ensures
        planned_regions(o) <= o.regions.len(),
        o.name.is("agent"@, "func"@) ==> o.regions.len() == 1,
{
    found_signatures(catalogue(), o.name, 0);
    let findings = signature_findings(o, catalogue());
    match signature_of(catalogue(), o.name, 0) {
        None => {
            assert(findings[0].is_error());
        },
        Some(s) => {
            let k = choose|k: int| 0 <= k < catalogue().len() && #[trigger] catalogue()[k] == s;
            owning_signatures(k);
            let a = count_findings(
                o,
                s.operands,
                o.operands.len(),
                "` takes "@,
                " operand(s) but was given "@,
            );
            let b = count_findings(
                o,
                s.results,
                o.results.len(),
                "` produces "@,
                " result(s) but declares "@,
            );
            let c = count_findings(
                o,
                s.regions,
                o.regions.len(),
                "` owns "@,
                " region(s) but has "@,
            );
            let d = crate::rules::literal_findings(o, s);
            let e = crate::rules::attrs_findings(
                o,
                s.required_attrs,
                s.required_attrs.len() as int,
            );
            let f = crate::rules::effect_findings(o, s);
            assert(findings == a + b + c + d + e + f);
            parts_reject(a + b + c + d + e, f);
            parts_reject(a + b + c + d, e);
            parts_reject(a + b + c, d);
            parts_reject(a + b, c);
            if !s.regions.admits(o.regions.len()) {
                assert(c[0].is_error());
                assert(rejects(c));
            }
        },
    }
}

/// Whether an operation has the regions its plan is made of.
spec fn is_shaped(m: ModuleView, op: OperationId) -> bool {
    &&& planned_regions(m.op(op)) <= m.op(op).regions.len()
    &&& m.op(op).name.is("agent"@, "func"@) ==> m.op(op).regions.len() == 1
}

/// Whether something holds of every operation of a list.
pub open spec fn all_hold(ops: Seq<OperationId>, holds: spec_fn(OperationId) -> bool) -> bool {
    forall|i: int| 0 <= i < ops.len() ==> holds(#[trigger] ops[i])
}

/// A module the static rules accept has only operations of the right shape.
proof fn accepted_operations(
    m: ModuleView,
    table: Seq<Seq<EffectView>>,
    threshold: Number,
    ops: Seq<OperationId>,
    n: int,
)
    requires
        0 <= n <= ops.len(),
        !rejects(ops_findings(m, catalogue(), table, threshold, ops, n)),
    ensures
        forall|i: int| 0 <= i < n ==> is_shaped(m, #[trigger] ops[i]),
    decreases n,
{
    if n > 0 {
        let before = ops_findings(m, catalogue(), table, threshold, ops, n - 1);
        let last = op_findings(m, catalogue(), table, threshold, ops[n - 1]);
        parts_reject(before, last);
        accepted_operations(m, table, threshold, ops, n - 1);
        let o = m.op(ops[n - 1]);
        let a = signature_findings(o, catalogue());
        let b = crate::rules::dominance_findings(m, o, o.operands.len() as int);
        let c = crate::rules::type_findings(m, table, o);
        let d = crate::rules::guard_findings(m, o);
        let e = crate::rules::confidence_findings(m, table, threshold, o);
        let f = crate::rules::loop_findings(o);
        let g = crate::rules::parallel_findings(m, table, o);
        let h = crate::rules::terminator_findings(m, catalogue(), o, o.regions.len() as int);
        assert(last == a + b + c + d + e + f + g + h);
        parts_reject(a + b + c + d + e + f + g, h);
        parts_reject(a + b + c + d + e + f, g);
        parts_reject(a + b + c + d + e, f);
        parts_reject(a + b + c + d, e);
        parts_reject(a + b + c, d);
        parts_reject(a + b, c);
        parts_reject(a, b);
        accepted_shapes(o);
    }
}

/// What holds of a walk holds of each live operation and of what is nested in
/// it.
pub proof fn walked_operations(
    m: ModuleView,
    ops: Seq<OperationId>,
    i: int,
    fuel: nat,
    k: int,
    holds: spec_fn(OperationId) -> bool,
)
    requires
        all_hold(m.walk_ops(ops, i, fuel), holds),
        0 <= i <= k < ops.len(),
        !m.op(ops[k]).erased,
    ensures
        holds(ops[k]),
        all_hold(m.walk_regions(m.op(ops[k]).regions, 0, fuel), holds),
    decreases ops.len() - i,
{
    let whole = m.walk_ops(ops, i, fuel);
    let rest = m.walk_ops(ops, i + 1, fuel);
    if m.op(ops[i]).erased {
        walked_operations(m, ops, i + 1, fuel, k, holds);
    } else {
        let nested = m.walk_regions(m.op(ops[i]).regions, 0, fuel);
        assert(whole == seq![ops[i]] + nested + rest);
        if k == i {
            assert(whole[0] == ops[i]);
            assert forall|j: int| 0 <= j < nested.len() implies holds(
                #[trigger] nested[j],
            ) by {
                assert(whole[1 + j] == nested[j]);
            }
        } else {
            assert forall|j: int| 0 <= j < rest.len() implies holds(#[trigger] rest[j]) by {
                assert(whole[1 + nested.len() + j] == rest[j]);
            }
            walked_operations(m, ops, i + 1, fuel, k, holds);
        }
    }
}

pub proof fn walked_regions(
    m: ModuleView,
    regions: Seq<RegionId>,
    i: int,
    fuel: nat,
    k: int,
    holds: spec_fn(OperationId) -> bool,
)
    requires
        all_hold(m.walk_regions(regions, i, fuel), holds),
        0 <= i <= k < regions.len(),
        fuel > 0,
    ensures
        all_hold(m.walk_blocks(m.region(regions[k]).blocks, 0, (fuel - 1) as nat), holds),
    decreases regions.len() - i,
{
    let whole = m.walk_regions(regions, i, fuel);
    let first = m.walk_blocks(m.region(regions[i]).blocks, 0, (fuel - 1) as nat);
    let rest = m.walk_regions(regions, i + 1, fuel);
    assert(whole == first + rest);
    if k == i {
        assert forall|j: int| 0 <= j < first.len() implies holds(#[trigger] first[j]) by {
            assert(whole[j] == first[j]);
        }
    } else {
        assert forall|j: int| 0 <= j < rest.len() implies holds(#[trigger] rest[j]) by {
            assert(whole[first.len() + j] == rest[j]);
        }
        walked_regions(m, regions, i + 1, fuel, k, holds);
    }
}

pub proof fn walked_blocks(
    m: ModuleView,
    blocks: Seq<BlockId>,
    i: int,
    fuel: nat,
    k: int,
    holds: spec_fn(OperationId) -> bool,
)
    requires
        all_hold(m.walk_blocks(blocks, i, fuel), holds),
        0 <= i <= k < blocks.len(),
    ensures
        all_hold(m.walk_ops(m.block(blocks[k]).ops, 0, fuel), holds),
    decreases blocks.len() - i,
{
    let whole = m.walk_blocks(blocks, i, fuel);
    let first = m.walk_ops(m.block(blocks[i]).ops, 0, fuel);
    let rest = m.walk_blocks(blocks, i + 1, fuel);
    assert(whole == first + rest);
    if k == i {
        assert forall|j: int| 0 <= j < first.len() implies holds(#[trigger] first[j]) by {
            assert(whole[j] == first[j]);
        }
    } else {
        assert forall|j: int| 0 <= j < rest.len() implies holds(#[trigger] rest[j]) by {
            assert(whole[first.len() + j] == rest[j]);
        }
        walked_blocks(m, blocks, i + 1, fuel, k, holds);
    }
}

/// A block of a region whose operations all have the right shape can be
/// planned.
proof fn shaped_blocks(
    m: ModuleView,
    levels: Seq<nat>,
    region: RegionId,
    b: int,
    reach: nat,
    fuel: nat,
)
    requires
        m.in_bounds(),
        m.leveled(levels),
        m.complete(),
        m.has_region(region),
        0 <= b < m.region(region).blocks.len(),
        reach + levels[region.spec_index()] >= m.regions.len(),
        all_hold(
            m.walk_blocks(m.region(region).blocks, 0, reach),
            |op: OperationId| is_shaped(m, op),
        ),
    ensures
        block_plannable(m, m.region(region).blocks[b], fuel),
    decreases fuel,
{
    let r = region.spec_index();
    let block = m.region(region).blocks[b];
    let ops = m.block(block).ops;
    let live = m.live(ops);
    assert(m.region_in_bounds(m.regions[r]));
    assert(m.has_block(m.region(region).blocks[b]));
    assert(m.block_in_bounds(m.blocks[block.spec_index()]));
    let shaped = |op: OperationId| is_shaped(m, op);
    walked_blocks(m, m.region(region).blocks, 0, reach, b, shaped);
    assert forall|i: int| 0 <= i < live.len() implies op_plannable(
        m,
        #[trigger] live[i],
        fuel,
    ) by {
        lemma_filter_member(ops, |op: OperationId| !m.op(op).erased, i);
        let k = choose|k: int| 0 <= k < ops.len() && ops[k] == live[i] && !m.op(ops[k]).erased;
        let op = live[i];
        assert(m.has_op(ops[k]));
        walked_operations(m, ops, 0, reach, k, shaped);
        let regions = m.op(op).regions;
        assert(m.op_in_bounds(m.ops[op.spec_index()]));
        assert forall|n: int| 0 <= n < planned_regions(m.op(op)) implies m.region(
            #[trigger] regions[n],
        ).blocks.len() > 0 && (fuel > 0 ==> block_plannable(
            m,
            m.region(regions[n]).blocks[0],
            (fuel - 1) as nat,
        )) by {
            let child = regions[n];
            assert(m.has_region(child));
            assert(m.has_child(r, b, k, n));
            assert(m.child(r, b, k, n) == child);
            assert(levels[child.spec_index()] > levels[r]);
            assert(levels[child.spec_index()] < m.regions.len());
            assert(m.regions[child.spec_index()].blocks.len() > 0);
            if fuel > 0 {
                walked_regions(m, regions, 0, reach, n, shaped);
                shaped_blocks(m, levels, child, 0, (reach - 1) as nat, (fuel - 1) as nat);
            }
        }
    }
}

/// A live operation directly in a region is one of a block of it.
pub proof fn direct_operations(m: ModuleView, blocks: Seq<BlockId>, n: int, i: int)
    requires
        0 <= n <= blocks.len(),
        0 <= i < m.live_ops(blocks, n).len(),
    ensures
        exists|b: int, k: int|
            0 <= b < n && 0 <= k < m.block(blocks[b]).ops.len() && #[trigger] m.block(
                blocks[b],
            ).ops[k] == m.live_ops(blocks, n)[i] && !m.op(m.block(blocks[b]).ops[k]).erased,
    decreases n,
{
    let before = m.live_ops(blocks, n - 1);
    if i < before.len() {
        direct_operations(m, blocks, n - 1, i);
        let (b, k) = choose|b: int, k: int|
            0 <= b < n - 1 && 0 <= k < m.block(blocks[b]).ops.len() && #[trigger] m.block(
                blocks[b],
            ).ops[k] == before[i] && !m.op(m.block(blocks[b]).ops[k]).erased;
        assert(m.block(blocks[b]).ops[k] == m.live_ops(blocks, n)[i]);
    } else {
        let ops = m.block(blocks[n - 1]).ops;
        let j = i - before.len();
        lemma_filter_member(ops, |op: OperationId| !m.op(op).erased, j);
        let k = choose|k: int|
            0 <= k < ops.len() && ops[k] == m.live(ops)[j] && !m.op(ops[k]).erased;
        assert(m.block(blocks[n - 1]).ops[k] == m.live_ops(blocks, n)[i]);
    }
}

/// A function that is found is one of the operations searched.
pub proof fn found_functions(m: ModuleView, ops: Seq<OperationId>, from: int, name: Seq<char>)
    requires
        0 <= from,
    ensures
        m.find_function(ops, from, name) matches Some(func) ==> m.op(func).name.is(
            "agent"@,
            "func"@,
        ) && exists|i: int| from <= i < ops.len() && #[trigger] ops[i] == func,
    decreases ops.len() - from,
{
    if from < ops.len() && !(m.op(ops[from]).name.is("agent"@, "func"@) && m.op(ops[from]).literal
        == Some(name)) {
        found_functions(m, ops, from + 1, name);
    }
}

/// What the verifier accepts can be scheduled: in a module that the rules of
/// the dialects reject nothing of, and whose regions all have a first block,
/// every function has what its plan is made of.
pub proof fn accepted_modules_can_be_scheduled(
    m: ModuleView,
    table: Seq<Seq<EffectView>>,
    threshold: Number,
    function: Seq<char>,
)
    requires
        m.well_formed(),
        m.complete(),
        !rejects(all_findings(m, catalogue(), table, threshold)),
    ensures
        function_plannable(m, function),
{
    let levels = choose|levels: Seq<nat>| m.leveled(levels);
    let ops = m.program_order(m.body);
    let tops = m.ops_in_region(m.body);
    let found = static_findings(m, catalogue(), table, threshold);
    assert(!rejects(found)) by {
        if rejects(found) {
            assert(all_findings(m, catalogue(), table, threshold) == found);
        }
    }
    parts_reject(
        ops_findings(m, catalogue(), table, threshold, ops, ops.len() as int),
        crate::rules::top_level_findings(m, tops, tops.len() as int),
    );
    accepted_operations(m, table, threshold, ops, ops.len() as int);
    found_functions(m, tops, 0, function);
    if let Some(func) = m.function(function) {
        let i = choose|i: int| 0 <= i < tops.len() && #[trigger] tops[i] == func;
        let blocks = m.region(m.body).blocks;
        direct_operations(m, blocks, blocks.len() as int, i);
        let (b, k) = choose|b: int, k: int|
            0 <= b < blocks.len() && 0 <= k < m.block(blocks[b]).ops.len() && #[trigger] m.block(
                blocks[b],
            ).ops[k] == tops[i] && !m.op(m.block(blocks[b]).ops[k]).erased;
        let r = m.body.spec_index();
        let n = m.regions.len();
        assert(m.region_in_bounds(m.regions[r]));
        assert(m.has_block(blocks[b]));
        assert(m.block_in_bounds(m.blocks[blocks[b].spec_index()]));
        assert(m.has_op(m.block(blocks[b]).ops[k]));
        assert(m.op_in_bounds(m.ops[func.spec_index()]));
        let shaped = |op: OperationId| is_shaped(m, op);
        walked_blocks(m, blocks, 0, n, b, shaped);
        walked_operations(m, m.block(blocks[b]).ops, 0, n, k, shaped);
        let regions = m.op(func).regions;
        assert(is_shaped(m, func));
        let child = regions[0];
        assert(m.has_region(child));
        assert(m.has_child(r, b, k, 0));
        assert(m.child(r, b, k, 0) == child);
        assert(levels[child.spec_index()] > levels[r]);
        assert(m.regions[child.spec_index()].blocks.len() > 0);
        walked_regions(m, regions, 0, n, 0, shaped);
        shaped_blocks(m, levels, child, 0, (n - 1) as nat, n);
    }
}

} // verus!
