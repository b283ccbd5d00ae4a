//! The order of a plan.
//!
//! An operation runs after everything it depends on, and what ends a block
//! runs alone and last.

use vstd::prelude::*;

use crate::dependency::{
    dependents_come_later, graph_of, graphs_are_well_formed, level_members, GraphView,
};
use crate::ids::{BlockId, OperationId};
use crate::module::ModuleView;
use crate::plan::{Backend, StepView};
use crate::printer::lemma_filter_member;
use crate::scheduler::{
    block_plan, end_batches, is_terminator, level_batch, level_batches, step_plan,
    unrepeatable_steps_are_keyed, Planner,
};

verus! {

/// The level that a batch of the first `n` levels comes from.
spec fn rank<B: Backend>(
    p: Planner<B>,
    m: ModuleView,
    levels: Seq<Seq<OperationId>>,
    n: int,
    fuel: nat,
    b: int,
) -> int
    decreases n,
{
    if n <= 0 {
        0
    } else if b < level_batches(p, m, levels, n - 1, fuel).0.len() {
        rank(p, m, levels, n - 1, fuel, b)
    } else {
        n - 1
    }
}

/// The steps of a level come from its operations, terminators aside.
proof fn batch_members<B: Backend>(
    p: Planner<B>,
    m: ModuleView,
    ops: Seq<OperationId>,
    n: int,
    fuel: nat,
)
    requires
        0 <= n <= ops.len(),
    ensures
        forall|s: int|
            0 <= s < level_batch(p, m, ops, n, fuel).0.len() ==> ops.contains(
                (#[trigger] level_batch(p, m, ops, n, fuel).0[s]).op,
            ) && !is_terminator(m.op(level_batch(p, m, ops, n, fuel).0[s].op)),
    decreases n,
{
    if n > 0 {
        batch_members(p, m, ops, n - 1, fuel);
        unrepeatable_steps_are_keyed(p, m, ops[n - 1], fuel);
        let before = level_batch(p, m, ops, n - 1, fuel).0;
        let all = level_batch(p, m, ops, n, fuel).0;
        assert forall|s: int| 0 <= s < all.len() implies ops.contains((#[trigger] all[s]).op)
            && !is_terminator(m.op(all[s].op)) by {
            if s < before.len() {
                assert(all[s] == before[s]);
            } else {
                assert(all[s].op == ops[n - 1]);
            }
        }
    }
}

/// Batches come from levels, in the order of the levels.
proof fn batches_follow_levels<B: Backend>(
    p: Planner<B>,
    m: ModuleView,
    levels: Seq<Seq<OperationId>>,
    n: int,
    fuel: nat,
    b: int,
)
    requires
        0 <= n <= levels.len(),
        0 <= b < level_batches(p, m, levels, n, fuel).0.len(),
    ensures
        0 <= rank(p, m, levels, n, fuel, b) < n,
        ({
            let ops = levels[rank(p, m, levels, n, fuel, b)];
            level_batches(p, m, levels, n, fuel).0[b] == level_batch(
                p,
                m,
                ops,
                ops.len() as int,
                fuel,
            ).0
        }),
        forall|a: int|
            0 <= a < b ==> #[trigger] rank(p, m, levels, n, fuel, a) < rank(
                p,
                m,
                levels,
                n,
                fuel,
                b,
            ),
    decreases n,
{
    if n > 0 {
        let before = level_batches(p, m, levels, n - 1, fuel).0;
        if b < before.len() {
            batches_follow_levels(p, m, levels, n - 1, fuel, b);
            assert forall|a: int| 0 <= a < b implies #[trigger] rank(p, m, levels, n, fuel, a)
                < rank(p, m, levels, n, fuel, b) by {
                assert(rank(p, m, levels, n - 1, fuel, a) < rank(p, m, levels, n - 1, fuel, b));
            }
        } else {
            assert forall|a: int| 0 <= a < b implies #[trigger] rank(p, m, levels, n, fuel, a)
                < rank(p, m, levels, n, fuel, b) by {
                batches_follow_levels(p, m, levels, n - 1, fuel, a);
            }
        }
    }
}

/// What ends a block has batches of its own.
proof fn ends_stand_alone<B: Backend>(
    p: Planner<B>,
    m: ModuleView,
    ops: Seq<OperationId>,
    n: int,
    fuel: nat,
)
    requires
        0 <= n <= ops.len(),
        forall|i: int| 0 <= i < ops.len() ==> is_terminator(m.op(#[trigger] ops[i])),
    ensures
        forall|b: int|
            0 <= b < end_batches(p, m, ops, n, fuel).0.len() ==> stands_alone(
                m,
                #[trigger] end_batches(p, m, ops, n, fuel).0[b],
            ),
    decreases n,
{
    if n > 0 {
        ends_stand_alone(p, m, ops, n - 1, fuel);
        unrepeatable_steps_are_keyed(p, m, ops[n - 1], fuel);
        let before = end_batches(p, m, ops, n - 1, fuel).0;
        let all = end_batches(p, m, ops, n, fuel).0;
        assert forall|b: int| 0 <= b < all.len() implies stands_alone(m, #[trigger] all[b]) by {
            if b < before.len() {
                assert(all[b] == before[b]);
            } else {
                assert(is_terminator(m.op(ops[n - 1])));
                assert(all[b] =~= seq![step_plan(p, m, ops[n - 1], fuel).0->0]);
            }
        }
    }
}

/// Whether a batch is one terminator.
pub open spec fn stands_alone(m: ModuleView, batch: Seq<StepView>) -> bool {
    batch.len() == 1 && is_terminator(m.op(batch[0].op))
}

/// What ends a block runs alone and last: a batch with a terminator holds
/// nothing else, and so does every batch after it.
pub proof fn terminators_run_alone_and_last<B: Backend>(
    p: Planner<B>,
    m: ModuleView,
    block: BlockId,
    fuel: nat,
    b: int,
    s: int,
    c: int,
)
    requires
        m.in_bounds(),
        m.has_block(block),
        0 <= b <= c < block_plan(p, m, block, fuel).0.batches.len(),
        0 <= s < block_plan(p, m, block, fuel).0.batches[b].len(),
        is_terminator(m.op(block_plan(p, m, block, fuel).0.batches[b][s].op)),
    ensures
        stands_alone(m, block_plan(p, m, block, fuel).0.batches[c]),
{
    let g = graph_of(m, block, p.table);
    let levels = g.levels();
    let keep = |op: OperationId| is_terminator(m.op(op));
    let ends = g.order.filter(keep);
    let first = level_batches(p, m, levels, levels.len() as int, fuel).0;
    let last = end_batches(p, m, ends, ends.len() as int, fuel).0;
    let all = block_plan(p, m, block, fuel).0.batches;
    assert(all == first + last);
    if b < first.len() {
        batches_follow_levels(p, m, levels, levels.len() as int, fuel, b);
        let ops = levels[rank(p, m, levels, levels.len() as int, fuel, b)];
        batch_members(p, m, ops, ops.len() as int, fuel);
        assert(all[b] == first[b]);
        assert(!is_terminator(m.op(first[b][s].op)));
    }
    assert forall|i: int| 0 <= i < ends.len() implies is_terminator(m.op(#[trigger] ends[i])) by {
        lemma_filter_member(g.order, keep, i);
    }
    ends_stand_alone(p, m, ends, ends.len() as int, fuel);
    assert(all[c] == last[c - first.len()]);
}

/// An operation runs after everything it depends on: where one operation of a
/// block depends on another, directly or through others, its step lands in a
/// later batch.
pub proof fn dependents_run_later<B: Backend>(
    p: Planner<B>,
    m: ModuleView,
    block: BlockId,
    fuel: nat,
    earlier: int,
    later: int,
    a: int,
    s: int,
    b: int,
    t: int,
)
    requires
        m.in_bounds(),
        m.has_block(block),
        0 <= earlier < later < graph_of(m, block, p.table).order.len(),
        graph_of(m, block, p.table).follows(later, earlier),
        !is_terminator(m.op(graph_of(m, block, p.table).order[earlier])),
        0 <= a < block_plan(p, m, block, fuel).0.batches.len(),
        0 <= s < block_plan(p, m, block, fuel).0.batches[a].len(),
        0 <= b < block_plan(p, m, block, fuel).0.batches.len(),
        0 <= t < block_plan(p, m, block, fuel).0.batches[b].len(),
        block_plan(p, m, block, fuel).0.batches[a][s].op == graph_of(
            m,
            block,
            p.table,
        ).order[earlier],
        block_plan(p, m, block, fuel).0.batches[b][t].op == graph_of(
            m,
            block,
            p.table,
        ).order[later],
    ensures
        a < b,
{
    let g = graph_of(m, block, p.table);
    graphs_are_well_formed(m, block, p.table);
    let levels = g.levels();
    let n = levels.len() as int;
    let keep = |op: OperationId| is_terminator(m.op(op));
    let ends = g.order.filter(keep);
    let first = level_batches(p, m, levels, n, fuel).0;
    let last = end_batches(p, m, ends, ends.len() as int, fuel).0;
    let all = block_plan(p, m, block, fuel).0.batches;
    assert(all == first + last);
    dependents_come_later(g, later, earlier);
    if a >= first.len() {
        assert forall|i: int| 0 <= i < ends.len() implies is_terminator(
            m.op(#[trigger] ends[i]),
        ) by {
            lemma_filter_member(g.order, keep, i);
        }
        ends_stand_alone(p, m, ends, ends.len() as int, fuel);
        assert(all[a] == last[a - first.len()]);
        assert(stands_alone(m, last[a - first.len()]));
    } else if b < first.len() {
        assert(all[a] == first[a] && all[b] == first[b]);
        batches_follow_levels(p, m, levels, n, fuel, a);
        batches_follow_levels(p, m, levels, n, fuel, b);
        depth_of_a_step(g, p, m, fuel, a, s, earlier);
        depth_of_a_step(g, p, m, fuel, b, t, later);
        if b < a {
            assert(rank(p, m, levels, n, fuel, b) < rank(p, m, levels, n, fuel, a));
        }
    }
}

/// The batch of a step comes from the level of its operation.
proof fn depth_of_a_step<B: Backend>(
    g: GraphView,
    p: Planner<B>,
    m: ModuleView,
    fuel: nat,
    a: int,
    s: int,
    at: int,
)
    requires
        g.well_formed(),
        0 <= a < level_batches(p, m, g.levels(), g.levels().len() as int, fuel).0.len(),
        0 <= s < level_batches(p, m, g.levels(), g.levels().len() as int, fuel).0[a].len(),
        0 <= at < g.order.len(),
        level_batches(p, m, g.levels(), g.levels().len() as int, fuel).0[a][s].op == g.order[at],
    ensures
        rank(p, m, g.levels(), g.levels().len() as int, fuel, a) == g.depth(at),
{
    let levels = g.levels();
    let n = levels.len() as int;
    batches_follow_levels(p, m, levels, n, fuel, a);
    let l = rank(p, m, levels, n, fuel, a);
    let ops = levels[l];
    assert(ops == g.level(l as nat));
    batch_members(p, m, ops, ops.len() as int, fuel);
    let step = level_batch(p, m, ops, ops.len() as int, fuel).0[s];
    assert(ops.contains(step.op));
    let i = choose|i: int| 0 <= i < ops.len() && ops[i] == step.op;
    level_members(g, l as nat, i);
    let j = choose|j: int|
        0 <= j < g.order.len() && #[trigger] g.order[j] == ops[i] && g.depth(j) == l;
    assert(j == at);
}

// ------------------------------------------------------------- completeness

proof fn level_holds<B: Backend>(
    p: Planner<B>,
    m: ModuleView,
    ops: Seq<OperationId>,
    n: int,
    fuel: nat,
    k: int,
)
    requires
        0 <= k < n <= ops.len(),
        step_plan(p, m, ops[k], fuel).0 is Some,
    ensures
        !is_terminator(m.op(ops[k])) ==> exists|s: int|
            0 <= s < level_batch(p, m, ops, n, fuel).0.len() && #[trigger] level_batch(
                p,
                m,
                ops,
                n,
                fuel,
            ).0[s] == step_plan(p, m, ops[k], fuel).0->0,
        exists|b: int|
            0 <= b < end_batches(p, m, ops, n, fuel).0.len() && #[trigger] end_batches(
                p,
                m,
                ops,
                n,
                fuel,
            ).0[b] == seq![step_plan(p, m, ops[k], fuel).0->0],
    decreases n,
{
    let step = step_plan(p, m, ops[k], fuel).0->0;
    let before = level_batch(p, m, ops, n - 1, fuel).0;
    let all = level_batch(p, m, ops, n, fuel).0;
    let first = end_batches(p, m, ops, n - 1, fuel).0;
    let ends = end_batches(p, m, ops, n, fuel).0;
    if k < n - 1 {
        level_holds(p, m, ops, n - 1, fuel, k);
        if !is_terminator(m.op(ops[k])) {
            let s = choose|s: int| 0 <= s < before.len() && #[trigger] before[s] == step;
            assert(all[s] == step);
        }
        let b = choose|b: int| 0 <= b < first.len() && #[trigger] first[b] == seq![step];
        assert(ends[b] == seq![step]);
    } else {
        if !is_terminator(m.op(ops[k])) {
            assert(all[before.len() as int] == step);
        }
        assert(ends[first.len() as int] == seq![step]);
    }
}

proof fn levels_hold<B: Backend>(
    p: Planner<B>,
    m: ModuleView,
    levels: Seq<Seq<OperationId>>,
    n: int,
    fuel: nat,
    l: int,
    step: StepView,
)
    requires
        0 <= l < n <= levels.len(),
        level_batch(p, m, levels[l], levels[l].len() as int, fuel).0.contains(step),
    ensures
        exists|b: int|
            0 <= b < level_batches(p, m, levels, n, fuel).0.len() && (#[trigger] level_batches(
                p,
                m,
                levels,
                n,
                fuel,
            ).0[b]).contains(step),
    decreases n,
{
    let before = level_batches(p, m, levels, n - 1, fuel).0;
    let all = level_batches(p, m, levels, n, fuel).0;
    if l < n - 1 {
        levels_hold(p, m, levels, n - 1, fuel, l, step);
        let b = choose|b: int| 0 <= b < before.len() && (#[trigger] before[b]).contains(step);
        assert(all[b] == before[b]);
    } else {
        assert(all[before.len() as int].contains(step));
    }
}

/// Whether a step stands somewhere in the batches of a plan.
pub open spec fn is_planned(batches: Seq<Seq<StepView>>, step: StepView) -> bool {
    exists|b: int, s: int|
        0 <= b < batches.len() && 0 <= s < batches[b].len() && #[trigger] batches[b][s] == step
}

/// Every live operation of a block that the backend can lower has its step in
/// the plan of the block.
pub proof fn every_operation_is_planned<B: Backend>(
    p: Planner<B>,
    m: ModuleView,
    block: BlockId,
    fuel: nat,
    j: int,
)
    requires
        m.in_bounds(),
        m.has_block(block),
        0 <= j < m.live(m.block(block).ops).len(),
        p.backend.lowered(m, m.live(m.block(block).ops)[j]) is Ok,
    ensures
        step_plan(p, m, m.live(m.block(block).ops)[j], fuel).0 matches Some(step) && is_planned(
            block_plan(p, m, block, fuel).0.batches,
            step,
        ),
{
    let g = graph_of(m, block, p.table);
    graphs_are_well_formed(m, block, p.table);
    let levels = g.levels();
    let keep = |op: OperationId| is_terminator(m.op(op));
    let ends = g.order.filter(keep);
    let first = level_batches(p, m, levels, levels.len() as int, fuel).0;
    let last = end_batches(p, m, ends, ends.len() as int, fuel).0;
    let all = block_plan(p, m, block, fuel).0.batches;
    assert(all == first + last);
    let op = g.order[j];
    assert(op == m.live(m.block(block).ops)[j]);
    let step = step_plan(p, m, op, fuel).0->0;
    if is_terminator(m.op(op)) {
        crate::printer::lemma_filter_index(g.order, keep, j);
        let k = choose|k: int| 0 <= k < ends.len() && ends[k] == op;
        level_holds(p, m, ends, ends.len() as int, fuel, k);
        let b = choose|b: int| 0 <= b < last.len() && #[trigger] last[b] == seq![step];
        assert(all[first.len() + b][0] == step);
    } else {
        let l = g.depth(j);
        crate::dependency::levels_partition_the_block(g, j, l);
        let ops = levels[l as int];
        assert(ops == g.level(l));
        let k = choose|k: int| 0 <= k < ops.len() && ops[k] == op;
        level_holds(p, m, ops, ops.len() as int, fuel, k);
        levels_hold(p, m, levels, levels.len() as int, fuel, l as int, step);
        let b = choose|b: int| 0 <= b < first.len() && (#[trigger] first[b]).contains(step);
        let s = choose|s: int| 0 <= s < first[b].len() && first[b][s] == step;
        assert(all[b][s] == step);
    }
}

proof fn level_is_of<B: Backend>(
    p: Planner<B>,
    m: ModuleView,
    ops: Seq<OperationId>,
    n: int,
    fuel: nat,
)
    requires
        0 <= n <= ops.len(),
        ops.no_duplicates(),
    ensures
        forall|s: int|
            0 <= s < level_batch(p, m, ops, n, fuel).0.len() ==> exists|k: int|
                0 <= k < n && #[trigger] ops[k] == (#[trigger] level_batch(
                    p,
                    m,
                    ops,
                    n,
                    fuel,
                ).0[s]).op && step_plan(p, m, ops[k], fuel).0 == Some(
                    level_batch(p, m, ops, n, fuel).0[s],
                ),
        forall|s: int, t: int|
            0 <= s < t < level_batch(p, m, ops, n, fuel).0.len() ==> (#[trigger] level_batch(
                p,
                m,
                ops,
                n,
                fuel,
            ).0[s]).op != (#[trigger] level_batch(p, m, ops, n, fuel).0[t]).op,
        forall|b: int|
            0 <= b < end_batches(p, m, ops, n, fuel).0.len() ==> (#[trigger] end_batches(
                p,
                m,
                ops,
                n,
                fuel,
            ).0[b]).len() == 1 && exists|k: int|
                0 <= k < n && #[trigger] ops[k] == end_batches(p, m, ops, n, fuel).0[b][0].op
                    && step_plan(p, m, ops[k], fuel).0 == Some(
                    end_batches(p, m, ops, n, fuel).0[b][0],
                ),
        forall|b: int, c: int|
            0 <= b < c < end_batches(p, m, ops, n, fuel).0.len() ==> (#[trigger] end_batches(
                p,
                m,
                ops,
                n,
                fuel,
            ).0[b])[0].op != (#[trigger] end_batches(p, m, ops, n, fuel).0[c])[0].op,
    decreases n,
{
    if n > 0 {
        level_is_of(p, m, ops, n - 1, fuel);
        unrepeatable_steps_are_keyed(p, m, ops[n - 1], fuel);
        let before = level_batch(p, m, ops, n - 1, fuel).0;
        let all = level_batch(p, m, ops, n, fuel).0;
        assert forall|s: int| 0 <= s < all.len() implies exists|k: int|
            0 <= k < n && #[trigger] ops[k] == (#[trigger] all[s]).op && step_plan(
                p,
                m,
                ops[k],
                fuel,
            ).0 == Some(all[s]) by {
            if s < before.len() {
                assert(all[s] == before[s]);
                let k = choose|k: int|
                    0 <= k < n - 1 && #[trigger] ops[k] == before[s].op && step_plan(
                        p,
                        m,
                        ops[k],
                        fuel,
                    ).0 == Some(before[s]);
                assert(ops[k] == all[s].op);
            } else {
                assert(ops[n - 1] == all[s].op);
            }
        }
        assert forall|s: int, t: int| 0 <= s < t < all.len() implies (#[trigger] all[s]).op != (
        #[trigger] all[t]).op by {
            assert(all[s] == before[s]);
            if t < before.len() {
                assert(all[t] == before[t]);
            } else {
                let k = choose|k: int|
                    0 <= k < n - 1 && #[trigger] ops[k] == before[s].op && step_plan(
                        p,
                        m,
                        ops[k],
                        fuel,
                    ).0 == Some(before[s]);
                assert(ops[k] != ops[n - 1]);
            }
        }
        let first = end_batches(p, m, ops, n - 1, fuel).0;
        let ends = end_batches(p, m, ops, n, fuel).0;
        assert forall|b: int| 0 <= b < ends.len() implies (#[trigger] ends[b]).len() == 1 && exists|
            k: int,
        |
            0 <= k < n && #[trigger] ops[k] == ends[b][0].op && step_plan(p, m, ops[k], fuel).0
                == Some(ends[b][0]) by {
            if b < first.len() {
                assert(ends[b] == first[b]);
                let k = choose|k: int|
                    0 <= k < n - 1 && #[trigger] ops[k] == first[b][0].op && step_plan(
                        p,
                        m,
                        ops[k],
                        fuel,
                    ).0 == Some(first[b][0]);
                assert(ops[k] == ends[b][0].op);
            } else {
                assert(ops[n - 1] == ends[b][0].op);
            }
        }
        assert forall|b: int, c: int| 0 <= b < c < ends.len() implies (#[trigger] ends[b])[0].op
            != (#[trigger] ends[c])[0].op by {
            assert(ends[b] == first[b]);
            if c < first.len() {
                assert(ends[c] == first[c]);
            } else {
                let k = choose|k: int|
                    0 <= k < n - 1 && #[trigger] ops[k] == first[b][0].op && step_plan(
                        p,
                        m,
                        ops[k],
                        fuel,
                    ).0 == Some(first[b][0]);
                assert(ops[k] != ops[n - 1]);
            }
        }
    }
}

proof fn level_is_distinct(g: GraphView, level: nat, n: int)
    requires
        g.order.no_duplicates(),
        0 <= n <= g.order.len(),
    ensures
        g.level_within(level, n).no_duplicates(),
    decreases n,
{
    if n > 0 {
        level_is_distinct(g, level, n - 1);
        let before = g.level_within(level, n - 1);
        let all = g.level_within(level, n);
        assert forall|i: int, k: int| 0 <= i < all.len() && 0 <= k < all.len() && i != k implies all[i]
            != all[k] by {
            let low = if i < k {
                i
            } else {
                k
            };
            assert(all[low] == before[low]);
            assert(before.contains(before[low]));
            crate::dependency::lemma_level_within(g, level, n - 1, before[low]);
            let j = choose|j: int|
                0 <= j < n - 1 && #[trigger] g.order[j] == before[low] && g.depth(j) == level;
            assert(g.order[j] != g.order[n - 1]);
        }
    }
}

/// Every step of the plan of a block is that of a live operation of the block,
/// and no operation has two.
pub proof fn no_operation_is_planned_twice<B: Backend>(
    p: Planner<B>,
    m: ModuleView,
    block: BlockId,
    fuel: nat,
    a: int,
    s: int,
    b: int,
    t: int,
)
    requires
        m.in_bounds(),
        m.has_block(block),
        0 <= a < block_plan(p, m, block, fuel).0.batches.len(),
        0 <= s < block_plan(p, m, block, fuel).0.batches[a].len(),
        0 <= b < block_plan(p, m, block, fuel).0.batches.len(),
        0 <= t < block_plan(p, m, block, fuel).0.batches[b].len(),
    ensures
        ({
            let batches = block_plan(p, m, block, fuel).0.batches;
            let step = batches[a][s];
            &&& m.live(m.block(block).ops).contains(step.op)
            &&& step_plan(p, m, step.op, fuel).0 == Some(step)
            &&& step.op == batches[b][t].op ==> a == b && s == t
        }),
{
    let g = graph_of(m, block, p.table);
    graphs_are_well_formed(m, block, p.table);
    let levels = g.levels();
    let n = levels.len() as int;
    let keep = |op: OperationId| is_terminator(m.op(op));
    let ends = g.order.filter(keep);
    let first = level_batches(p, m, levels, n, fuel).0;
    let last = end_batches(p, m, ends, ends.len() as int, fuel).0;
    let all = block_plan(p, m, block, fuel).0.batches;
    assert(all == first + last);
    assert(m.block_in_bounds(m.blocks[block.spec_index() as int]));
    crate::dependency::lemma_live_distinct(m, m.block(block).ops);
    assert(g.order.no_duplicates());
    distinct_filter(g.order, keep);
    level_is_of(p, m, ends, ends.len() as int, fuel);
    let (u, v) = (where_planned(p, m, g, fuel, first, last, ends, a, s), where_planned(
        p,
        m,
        g,
        fuel,
        first,
        last,
        ends,
        b,
        t,
    ));
    if all[a][s].op == all[b][t].op {
        assert(g.order[u] == g.order[v]);
        assert(u == v);
        if a < first.len() && b < first.len() {
            assert(all[a] == first[a] && all[b] == first[b]);
            depth_of_a_step(g, p, m, fuel, a, s, u);
            depth_of_a_step(g, p, m, fuel, b, t, v);
            batches_follow_levels(p, m, levels, n, fuel, a);
            batches_follow_levels(p, m, levels, n, fuel, b);
            if a < b {
                assert(rank(p, m, levels, n, fuel, a) < rank(p, m, levels, n, fuel, b));
            } else if b < a {
                assert(rank(p, m, levels, n, fuel, b) < rank(p, m, levels, n, fuel, a));
            }
            let l = rank(p, m, levels, n, fuel, a);
            assert(levels[l] == g.level(l as nat));
            level_is_distinct(g, l as nat, g.order.len() as int);
            level_is_of(p, m, levels[l], levels[l].len() as int, fuel);
        } else if a >= first.len() && b >= first.len() {
            assert(all[a] == last[a - first.len()] && all[b] == last[b - first.len()]);
            if a < b {
                assert(last[a - first.len()][0].op != last[b - first.len()][0].op);
            } else if b < a {
                assert(last[b - first.len()][0].op != last[a - first.len()][0].op);
            }
        }
    }
}

proof fn distinct_filter(ops: Seq<OperationId>, keep: spec_fn(OperationId) -> bool)
    requires
        ops.no_duplicates(),
    ensures
        ops.filter(keep).no_duplicates(),
    decreases ops.len(),
{
    reveal(Seq::filter);
    if ops.len() > 0 {
        let rest = ops.drop_last();
        distinct_filter(rest, keep);
        if keep(ops.last()) {
            let all = ops.filter(keep);
            let before = rest.filter(keep);
            assert forall|i: int, j: int|
                0 <= i < all.len() && 0 <= j < all.len() && i != j implies all[i] != all[j] by {
                let low = if i < j {
                    i
                } else {
                    j
                };
                assert(all[low] == before[low]);
                lemma_filter_member(rest, keep, low);
                let k = choose|k: int| 0 <= k < rest.len() && rest[k] == before[low] && keep(rest[k]);
                assert(ops[k] != ops[ops.len() - 1]);
            }
        }
    }
}

/// Where the operation of a step stands in its block.
proof fn where_planned<B: Backend>(
    p: Planner<B>,
    m: ModuleView,
    g: GraphView,
    fuel: nat,
    first: Seq<Seq<StepView>>,
    last: Seq<Seq<StepView>>,
    ends: Seq<OperationId>,
    a: int,
    s: int,
) -> (at: int)
    requires
        g.well_formed(),
        g.order.no_duplicates(),
        first == level_batches(p, m, g.levels(), g.levels().len() as int, fuel).0,
        ends == g.order.filter(|op: OperationId| is_terminator(m.op(op))),
        ends.no_duplicates(),
        last == end_batches(p, m, ends, ends.len() as int, fuel).0,
        0 <= a < (first + last).len(),
        0 <= s < (first + last)[a].len(),
    ensures
        0 <= at < g.order.len(),
        g.order[at] == (first + last)[a][s].op,
        g.order.contains(g.order[at]),
        step_plan(p, m, g.order[at], fuel).0 == Some((first + last)[a][s]),
        is_terminator(m.op(g.order[at])) == (a >= first.len()),
        a >= first.len() ==> s == 0,
{
    let all = first + last;
    let levels = g.levels();
    let n = levels.len() as int;
    if a < first.len() {
        assert(all[a] == first[a]);
        batches_follow_levels(p, m, levels, n, fuel, a);
        let l = rank(p, m, levels, n, fuel, a);
        let ops = levels[l];
        assert(ops == g.level(l as nat));
        level_is_distinct(g, l as nat, g.order.len() as int);
        batch_members(p, m, ops, ops.len() as int, fuel);
        level_is_of(p, m, ops, ops.len() as int, fuel);
        let k = choose|k: int|
            0 <= k < ops.len() && #[trigger] ops[k] == all[a][s].op && step_plan(
                p,
                m,
                ops[k],
                fuel,
            ).0 == Some(all[a][s]);
        level_members(g, l as nat, k);
        let j = choose|j: int|
            0 <= j < g.order.len() && #[trigger] g.order[j] == ops[k] && g.depth(j) == l;
        j
    } else {
        let keep = |op: OperationId| is_terminator(m.op(op));
        assert(all[a] == last[a - first.len()]);
        level_is_of(p, m, ends, ends.len() as int, fuel);
        let k = choose|k: int|
            0 <= k < ends.len() && #[trigger] ends[k] == last[a - first.len()][0].op && step_plan(
                p,
                m,
                ends[k],
                fuel,
            ).0 == Some(last[a - first.len()][0]);
        lemma_filter_member(g.order, keep, k);
        let j = choose|j: int|
            0 <= j < g.order.len() && g.order[j] == g.order.filter(keep)[k] && keep(g.order[j]);
        j
    }
}

} // verus!
