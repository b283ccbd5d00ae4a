//! What grouping comes to.
//!
//! A group runs inside a region of its own, and whatever is read of it from
//! outside goes through the results of the operation that owns the region: each
//! stands for the value that the region yields at the same position. Every
//! reader therefore still reads what it read.

use vstd::prelude::*;

use crate::dependency::{graph_of, GraphView};
use crate::effects::{effect_table, lists_conflict, recorded};
use crate::ids::{BlockId, OperationId, ValueId};
use crate::judgement::{conflicts_are_races, is_called, race};
use crate::module::{replaced, ModuleView, OperationView};
use crate::parallelize::{
    deeper, escaping, escaping_exist, find_group, group_block, groups_are_independent, has_room,
    independent_of, inside_group, is_groupable, lemma_group_of, lemma_group_ready, lemma_listed,
    lemma_move_group, lemma_with_parallel, listed, move_group, next_group, route, run_end,
    run_position, with_parallel, wrapped, wrapping_keeps_order,
};
use crate::pass::PassReportView;
use crate::printer::{lemma_filter_index, lemma_filter_member};
use crate::removal::reads;
use crate::uses::uses_in;

verus! {

/// Whether a value is what another one reads as, once some values are read
/// through others: the one at the same position, or itself.
pub open spec fn reads_as(
    old: ValueId,
    new: ValueId,
    from: Seq<ValueId>,
    to: Seq<ValueId>,
) -> bool {
    if from.contains(old) {
        exists|k: int| 0 <= k < from.len() && #[trigger] from[k] == old && to[k] == new
    } else {
        new == old
    }
}

/// Moving operations leaves what they read alone.
proof fn moving_keeps_operands(m: ModuleView, group: Seq<OperationId>, block: BlockId, n: int)
    requires
        0 <= n <= group.len(),
        forall|j: int| 0 <= j < group.len() ==> m.has_op(#[trigger] group[j]),
    ensures
        ({
            let after = move_group(m, group, block, n);
            &&& after.ops.len() == m.ops.len()
            &&& after.values == m.values
            &&& forall|i: int|
                0 <= i < m.ops.len() ==> #[trigger] after.ops[i] == (OperationView {
                    parent: after.ops[i].parent,
                    ..m.ops[i]
                })
        }),
    decreases n,
{
    if n > 0 {
        moving_keeps_operands(m, group, block, n - 1);
        let before = move_group(m, group, block, n - 1);
        let after = move_group(m, group, block, n);
        assert(m.has_op(group[n - 1]));
        assert forall|i: int| 0 <= i < m.ops.len() implies #[trigger] after.ops[i] == (
        OperationView { parent: after.ops[i].parent, ..m.ops[i] }) by {
            assert(before.ops[i] == (OperationView { parent: before.ops[i].parent, ..m.ops[i] }));
        }
    }
}

/// What the operands of an operation are once values were routed.
proof fn routing_rewrites_operands(
    m: ModuleView,
    report: PassReportView,
    from: Seq<ValueId>,
    to: Seq<ValueId>,
    n: int,
)
    requires
        0 <= n <= from.len(),
        from.len() == to.len(),
        forall|k: int, l: int|
            0 <= k < from.len() && 0 <= l < to.len() ==> #[trigger] from[k] != #[trigger] to[l],
        forall|k: int| 0 <= k < from.len() ==> m.has_value(#[trigger] from[k]),
    ensures
        ({
            let after = route(m, report, from, to, n).0;
            &&& after.ops.len() == m.ops.len()
            &&& after.values.len() == m.values.len()
            &&& after.blocks == m.blocks
            &&& after.regions == m.regions
            &&& forall|i: int|
                0 <= i < m.values.len() ==> (#[trigger] after.values[i]).ty == m.values[i].ty
            &&& forall|i: int|
                0 <= i < m.ops.len() ==> #[trigger] after.ops[i] == (OperationView {
                    operands: after.ops[i].operands,
                    ..m.ops[i]
                }) && after.ops[i].operands.len() == m.ops[i].operands.len()
            &&& forall|i: int, q: int|
                0 <= i < m.ops.len() && !m.ops[i].erased && 0 <= q < m.ops[i].operands.len()
                    ==> reads_as(
                    m.ops[i].operands[q],
                    #[trigger] after.ops[i].operands[q],
                    from.take(n),
                    to.take(n),
                )
        }),
    decreases n,
{
    if n > 0 {
        routing_rewrites_operands(m, report, from, to, n - 1);
        let before = route(m, report, from, to, n - 1).0;
        let after = route(m, report, from, to, n).0;
        let a = from[n - 1];
        let b = to[n - 1];
        assert(m.has_value(from[n - 1]));
        let x = from.take(n - 1);
        let y = to.take(n - 1);
        let fx = from.take(n);
        let fy = to.take(n);
        assert forall|i: int| 0 <= i < m.ops.len() implies #[trigger] after.ops[i] == (
        OperationView { operands: after.ops[i].operands, ..m.ops[i] })
            && after.ops[i].operands.len() == m.ops[i].operands.len() by {
            assert(before.ops[i] == (OperationView {
                operands: before.ops[i].operands,
                ..m.ops[i]
            }));
        }
        assert forall|i: int| 0 <= i < m.values.len() implies (#[trigger] after.values[i]).ty
            == m.values[i].ty by {
            assert(before.values[i].ty == m.values[i].ty);
        }
        assert forall|i: int, q: int|
            0 <= i < m.ops.len() && !m.ops[i].erased && 0 <= q
                < m.ops[i].operands.len() implies reads_as(
            m.ops[i].operands[q],
            #[trigger] after.ops[i].operands[q],
            fx,
            fy,
        ) by {
            let old = m.ops[i].operands[q];
            let mid = before.ops[i].operands[q];
            let new = after.ops[i].operands[q];
            assert(before.ops[i] == (OperationView {
                operands: before.ops[i].operands,
                ..m.ops[i]
            }));
            assert(reads_as(old, mid, x, y));
            assert(after.ops[i].operands == replaced(before.ops[i].operands, a, b));
            assert(new == if mid == a {
                b
            } else {
                mid
            });
            if x.contains(old) {
                let k = choose|k: int| 0 <= k < x.len() && #[trigger] x[k] == old && y[k] == mid;
                assert(to[k] == mid);
                assert(from[n - 1] != to[k]);
                assert(fx[k] == old && fy[k] == new);
                assert(fx.contains(old));
            } else if old == a {
                assert(fx[n - 1] == old && fy[n - 1] == new);
                assert(fx.contains(old));
            } else {
                if fx.contains(old) {
                    let k = choose|k: int| 0 <= k < fx.len() && fx[k] == old;
                    if k < n - 1 {
                        assert(x[k] == old);
                    }
                }
            }
        }
    } else {
        assert(from.take(0) =~= Seq::empty());
    }
}

/// What escapes a group: what one of its operations gives and something outside
/// it reads.
pub proof fn what_escapes_is_read_outside(
    m: ModuleView,
    group: Seq<OperationId>,
    n: int,
    value: ValueId,
)
    requires
        0 <= n <= group.len(),
    ensures
        escaping(m, group, n).contains(value) <==> {
            &&& exists|i: int| 0 <= i < n && m.op(#[trigger] group[i]).results.contains(value)
            &&& exists|reader: OperationId| #[trigger]
                reads(m, reader, value) && !inside_group(m, reader, group)
        },
    decreases n,
{
    if n > 0 {
        what_escapes_is_read_outside(m, group, n - 1, value);
        let before = escaping(m, group, n - 1);
        let results = m.op(group[n - 1]).results;
        let keep = |v: ValueId| crate::parallelize::escapes(m, group, v);
        let last = results.filter(keep);
        let all = escaping(m, group, n);
        read_outside(m, group, value);
        if all.contains(value) {
            let k = choose|k: int| 0 <= k < all.len() && all[k] == value;
            if k < before.len() {
                assert(before.contains(before[k]));
                let i = choose|i: int|
                    0 <= i < n - 1 && m.op(#[trigger] group[i]).results.contains(value);
                assert(m.op(group[i]).results.contains(value));
            } else {
                lemma_filter_member(results, keep, k - before.len());
                let l = choose|l: int|
                    0 <= l < results.len() && results[l] == last[k - before.len()] && keep(
                        results[l],
                    );
                assert(m.op(group[n - 1]).results.contains(value));
            }
        }
        if (exists|i: int| 0 <= i < n && m.op(#[trigger] group[i]).results.contains(value))
            && crate::parallelize::escapes(m, group, value) {
            let i = choose|i: int|
                0 <= i < n && m.op(#[trigger] group[i]).results.contains(value);
            if i < n - 1 {
                assert(m.op(group[i]).results.contains(value));
                let k = choose|k: int| 0 <= k < before.len() && before[k] == value;
                assert(all[k] == value);
            } else {
                let l = choose|l: int| 0 <= l < results.len() && results[l] == value;
                assert(keep(results[l]));
                lemma_filter_index(results, keep, l);
                let k = choose|k: int| 0 <= k < last.len() && last[k] == value;
                assert(all[before.len() + k] == value);
            }
        }
    }
}

proof fn uses_name_readers(m: ModuleView, ops: Seq<OperationId>, n: int, value: ValueId, u: int)
    requires
        0 <= n <= ops.len(),
        0 <= u < crate::uses::uses_by(m, ops, n, value).len(),
    ensures
        exists|k: int|
            0 <= k < n && #[trigger] ops[k] == crate::uses::uses_by(m, ops, n, value)[u].op
                && m.op(ops[k]).operands.contains(value),
    decreases n,
{
    let before = crate::uses::uses_by(m, ops, n - 1, value);
    let operands = m.op(ops[n - 1]).operands;
    if u < before.len() {
        uses_name_readers(m, ops, n - 1, value, u);
        let k = choose|k: int|
            0 <= k < n - 1 && #[trigger] ops[k] == before[u].op && m.op(
                ops[k],
            ).operands.contains(value);
        assert(ops[k] == crate::uses::uses_by(m, ops, n, value)[u].op);
    } else {
        operand_use_is_of(
            ops[n - 1],
            operands,
            operands.len() as int,
            value,
            u - before.len(),
        );
        assert(ops[n - 1] == crate::uses::uses_by(m, ops, n, value)[u].op);
    }
}

proof fn operand_use_is_of(
    op: OperationId,
    operands: Seq<ValueId>,
    n: int,
    value: ValueId,
    u: int,
)
    requires
        0 <= n <= operands.len(),
        0 <= u < crate::uses::operand_uses(op, operands, n, value).len(),
    ensures
        crate::uses::operand_uses(op, operands, n, value)[u].op == op,
        operands.contains(value),
    decreases n,
{
    let before = crate::uses::operand_uses(op, operands, n - 1, value);
    if u < before.len() {
        operand_use_is_of(op, operands, n - 1, value, u);
    } else {
        assert(operands[n - 1] == value);
    }
}

proof fn readers_are_used(m: ModuleView, ops: Seq<OperationId>, n: int, value: ValueId, k: int)
    requires
        0 <= k < n <= ops.len(),
        m.op(ops[k]).operands.contains(value),
    ensures
        exists|u: int|
            0 <= u < crate::uses::uses_by(m, ops, n, value).len() && (
            #[trigger] crate::uses::uses_by(m, ops, n, value)[u]).op == ops[k],
    decreases n,
{
    let before = crate::uses::uses_by(m, ops, n - 1, value);
    let all = crate::uses::uses_by(m, ops, n, value);
    if k < n - 1 {
        readers_are_used(m, ops, n - 1, value, k);
        let u = choose|u: int| 0 <= u < before.len() && (#[trigger] before[u]).op == ops[k];
        assert(all[u].op == ops[k]);
    } else {
        let operands = m.op(ops[k]).operands;
        let p = choose|p: int| 0 <= p < operands.len() && operands[p] == value;
        let uses = crate::uses::operand_uses(ops[k], operands, operands.len() as int, value);
        some_operand_use(ops[k], operands, operands.len() as int, value, p);
        operand_use_is_of(ops[k], operands, operands.len() as int, value, 0);
        assert(all[before.len() as int] == uses[0]);
    }
}

proof fn some_operand_use(
    op: OperationId,
    operands: Seq<ValueId>,
    n: int,
    value: ValueId,
    p: int,
)
    requires
        0 <= p < n <= operands.len(),
        operands[p] == value,
    ensures
        crate::uses::operand_uses(op, operands, n, value).len() > 0,
    decreases n,
{
    if p < n - 1 {
        some_operand_use(op, operands, n - 1, value, p);
    }
}

proof fn read_outside(m: ModuleView, group: Seq<OperationId>, value: ValueId)
    ensures
        crate::parallelize::escapes(m, group, value) <==> exists|reader: OperationId| #[trigger]
            reads(m, reader, value) && !inside_group(m, reader, group),
{
    let order = m.program_order(m.body);
    let n = order.len() as int;
    if crate::parallelize::escapes(m, group, value) {
        let u = choose|u: int|
            0 <= u < uses_in(m, value).len() && !inside_group(
                m,
                (#[trigger] uses_in(m, value)[u]).op,
                group,
            );
        uses_name_readers(m, order, n, value, u);
        let k = choose|k: int|
            0 <= k < n && #[trigger] order[k] == uses_in(m, value)[u].op && m.op(
                order[k],
            ).operands.contains(value);
        assert(reads(m, order[k], value));
    }
    if exists|reader: OperationId| #[trigger]
        reads(m, reader, value) && !inside_group(m, reader, group) {
        let reader = choose|reader: OperationId| #[trigger]
            reads(m, reader, value) && !inside_group(m, reader, group);
        let k = choose|k: int| 0 <= k < order.len() && order[k] == reader;
        readers_are_used(m, order, n, value, k);
        let u = choose|u: int|
            0 <= u < uses_in(m, value).len() && (#[trigger] uses_in(m, value)[u]).op == order[k];
        assert(!inside_group(m, uses_in(m, value)[u].op, group));
    }
}

/// A group is put into the region of a new `control.parallel`, which gives a
/// result of the same type for every value that escapes; the region yields those
/// values in the same order; and every operation reads, in place of a value that
/// escapes, the result that stands for it, and otherwise what it read.
pub proof fn readers_still_read_the_same(
    m: ModuleView,
    report: PassReportView,
    block: BlockId,
    start: int,
    end: int,
)
    requires
        m.well_formed(),
        listed(m, block),
        0 <= start,
        start + 2 <= end <= m.live(m.block(block).ops).len(),
        ({
            let group = m.live(m.block(block).ops).subrange(start, end);
            has_room(m, escaping(m, group, group.len() as int).len())
        }),
    ensures
        ({
            let group = m.live(m.block(block).ops).subrange(start, end);
            let out = escaping(m, group, group.len() as int);
            let after = wrapped(m, report, block, group).0;
            let parallel = after.op(m.next_op());
            let closing = after.ops[m.ops.len() as int + 1];
            &&& is_called(parallel, "control"@, "parallel"@)
            &&& parallel.results.len() == out.len()
            &&& forall|k: int|
                0 <= k < out.len() ==> after.value(#[trigger] parallel.results[k]).ty == m.value(
                    out[k],
                ).ty && parallel.results[k].spec_index() >= m.values.len()
            &&& out.len() > 0 ==> is_called(closing, "control"@, "yield"@) && closing.operands
                == out && closing.parent == Some(m.next_block()) && after.block(
                m.next_block(),
            ).ops.last() == OperationId::at(m.ops.len() as int + 1)
            &&& forall|i: int|
                0 <= i < m.ops.len() ==> (#[trigger] after.ops[i]).operands.len()
                    == m.ops[i].operands.len()
            &&& forall|i: int, q: int|
                0 <= i < m.ops.len() && !m.ops[i].erased && 0 <= q < m.ops[i].operands.len()
                    ==> reads_as(
                    m.ops[i].operands[q],
                    #[trigger] after.ops[i].operands[q],
                    out,
                    parallel.results,
                )
        }),
{
    let order = m.live(m.block(block).ops);
    let group = order.subrange(start, end);
    let size = group.len() as int;
    let levels = choose|levels: Seq<nat>| m.leveled(levels);
    let out = escaping(m, group, size);
    let n = out.len() as int;
    let levels2 = deeper(levels, levels[m.block(block).parent.spec_index()]);
    let parallel = m.next_op();
    let inner = m.next_block();
    lemma_group_of(m, block, start, end);
    escaping_exist(m, group, size);
    assert(group[0] == order[start]);
    let position = run_position(m, block, start);
    assert(m.block_in_bounds(m.blocks[block.spec_index()]));
    let m1 = with_parallel(m, block, position, out);
    lemma_with_parallel(m, levels, block, position, out);
    lemma_group_ready(m, m1, levels, block, group, position, out);
    assert(m1.op(parallel).results =~= Seq::new(
        out.len(),
        |i: int| ValueId::at(m.values.len() + i),
    ));
    assert forall|k: int| 0 <= k < n implies (#[trigger] m1.values[m.values.len() + k]).ty
        == m.value(out[k]).ty by {}
    let m2 = move_group(m1, group, inner, size);
    lemma_move_group(m1, levels2, group, block, inner, size);
    moving_keeps_operands(m1, group, inner, size);
    let at = parallel.spec_index() as int;
    assert(m2.ops[at] == (OperationView { parent: m2.ops[at].parent, ..m1.ops[at] }));
    let to = m2.op(parallel).results;
    assert(to == m1.op(parallel).results);
    assert forall|k: int, l: int| 0 <= k < out.len() && 0 <= l < to.len() implies #[trigger] out[k]
        != #[trigger] to[l] by {
        assert(m.has_value(out[k]));
        assert(to[l] == ValueId::at(m.values.len() + l));
        assert(to[l].spec_index() == m.values.len() + l);
    }
    assert forall|k: int| 0 <= k < out.len() implies m2.has_value(#[trigger] out[k]) by {
        assert(m.has_value(out[k]));
    }
    let created = report.with_created(parallel);
    let m3 = route(m2, created, out, to, n).0;
    routing_rewrites_operands(m2, created, out, to, n);
    assert(out.take(n) =~= out);
    assert(to.take(n) =~= to);
    let after = wrapped(m, report, block, group).0;
    assert(m3.ops[at] == (OperationView { operands: m3.ops[at].operands, ..m2.ops[at] }));
    assert(after.ops[at] == m3.ops[at]);
    assert(after.op(parallel).results == to);
    assert(after.values == m3.values);
    assert forall|k: int| 0 <= k < out.len() implies after.value(#[trigger] to[k]).ty == m.value(
        out[k],
    ).ty && to[k].spec_index() >= m.values.len() by {
        assert(to[k] == ValueId::at(m.values.len() + k));
        assert(to[k].spec_index() == m.values.len() + k);
        assert(m1.values[m.values.len() + k].ty == m.value(out[k]).ty);
        assert(m2.values == m1.values);
        assert(m3.values[m.values.len() + k].ty == m2.values[m.values.len() + k].ty);
    }
    assert forall|i: int| 0 <= i < m.ops.len() implies #[trigger] after.ops[i] == m3.ops[i] by {}
    assert forall|i: int| 0 <= i < m.ops.len() implies (#[trigger] after.ops[i]).operands.len()
        == m.ops[i].operands.len() by {
        assert(m1.ops[i] == m.ops[i]);
        assert(m2.ops[i] == (OperationView { parent: m2.ops[i].parent, ..m1.ops[i] }));
        assert(m3.ops[i].operands.len() == m2.ops[i].operands.len());
    }
    assert forall|i: int, q: int|
        0 <= i < m.ops.len() && !m.ops[i].erased && 0 <= q < m.ops[i].operands.len() implies reads_as(
        m.ops[i].operands[q],
        #[trigger] after.ops[i].operands[q],
        out,
        to,
    ) by {
        assert(m1.ops[i] == m.ops[i]);
        assert(m2.ops[i] == (OperationView { parent: m2.ops[i].parent, ..m1.ops[i] }));
        assert(after.ops[i] == m3.ops[i]);
        assert(reads_as(m2.ops[i].operands[q], m3.ops[i].operands[q], out, to));
    }
}

/// Whether one operation reads no result of another.
pub open spec fn apart(m: ModuleView, earlier: OperationId, later: OperationId) -> bool {
    forall|q: int|
        0 <= q < m.op(earlier).results.len() ==> !m.op(later).operands.contains(
            #[trigger] m.op(earlier).results[q],
        )
}

/// No two operations of a group race or read one another's results, and none of
/// them is a function, a check, or something that ends a block or is parallel
/// already.
pub proof fn grouped_operations_may_run_together(m: ModuleView, block: BlockId, i: int, j: int)
    requires
        m.well_formed(),
        m.has_block(block),
        next_group(m, block) is Some,
        0 <= i < j < next_group(m, block)->0.len(),
        m.program_order(m.body).contains(next_group(m, block)->0[i]),
        m.program_order(m.body).contains(next_group(m, block)->0[j]),
    ensures
        ({
            let group = next_group(m, block)->0;
            &&& !race(m, group[i], group[j])
            &&& forall|x: int, y: int|
                0 <= x < m.subtree(group[i]).len() && 0 <= y < m.subtree(group[j]).len()
                    ==> apart(m, #[trigger] m.subtree(group[i])[x], #[trigger] m.subtree(
                    group[j],
                )[y])
            &&& forall|k: int|
                k == i || k == j ==> {
                    let o = m.op(#[trigger] group[k]);
                    &&& !is_called(o, "agent"@, "return"@)
                    &&& !is_called(o, "control"@, "yield"@)
                    &&& !is_called(o, "control"@, "parallel"@)
                    &&& !is_called(o, "agent"@, "func"@)
                    &&& !is_called(o, "agent"@, "verify"@)
                }
        }),
{
    let group = next_group(m, block)->0;
    groups_are_independent(m, block, i, j);
    conflicts_are_races(m, group[i], group[j]);
    let order = m.live(m.block(block).ops);
    let s = choose|s: int|
        #![trigger m.data_edge(order, s + i, s + j)]
        0 <= s && s + j < order.len() && group[i] == order[s + i] && group[j] == order[s + j]
            && !m.data_edge(order, s + i, s + j);
    let b = block.spec_index() as int;
    assert(m.block_in_bounds(m.blocks[b]));
    crate::dependency::lemma_live_distinct(m, m.block(block).ops);
    assert forall|k: int| 0 <= k < order.len() implies m.block(block).ops.contains(
        #[trigger] order[k],
    ) by {
        lemma_filter_member(m.block(block).ops, |op: OperationId| !m.op(op).erased, k);
    }
    assert forall|x: int, y: int|
        0 <= x < m.subtree(group[i]).len() && 0 <= y < m.subtree(group[j]).len() implies apart(
        m,
        #[trigger] m.subtree(group[i])[x],
        #[trigger] m.subtree(group[j])[y],
    ) by {
        let earlier = m.subtree(group[i])[x];
        let later = m.subtree(group[j])[y];
        assert forall|q: int| 0 <= q < m.op(earlier).results.len() implies !m.op(
            later,
        ).operands.contains(#[trigger] m.op(earlier).results[q]) by {
            let value = m.op(earlier).results[q];
            if m.op(later).operands.contains(value) {
                assert(m.reads(order[s + j], value));
                assert(m.op(earlier).results.contains(value));
                assert(m.produces(order[s + i], value));
                crate::dependency::lemma_one_producer(
                    m,
                    block,
                    order,
                    order.len() as int,
                    value,
                    s + i,
                );
                assert(m.data_edge(order, s + i, s + j));
            }
        }
    }
}

// ------------------------------------------------------------- completeness

/// Whether an operation is one that may be put into a group.
pub open spec fn may_be_grouped(o: OperationView) -> bool {
    &&& !is_called(o, "agent"@, "return"@)
    &&& !is_called(o, "control"@, "yield"@)
    &&& !is_called(o, "control"@, "parallel"@)
    &&& !is_called(o, "agent"@, "func"@)
    &&& !is_called(o, "agent"@, "verify"@)
}

proof fn no_group_is_left(m: ModuleView, g: GraphView, start: int, j: int)
    requires
        0 <= start <= j,
        j + 1 < g.order.len(),
        find_group(m, g, start) is None,
        may_be_grouped(m.op(g.order[j])),
        may_be_grouped(m.op(g.order[j + 1])),
    ensures
        g.reasons[j + 1][j] is Some,
    decreases j - start,
{
    if is_groupable(m.op(g.order[start])) {
        let end = run_end(m, g, start, start + 1);
        ends_after(m, g, start, start + 1);
        assert(end == start + 1);
        if start < j {
            no_group_is_left(m, g, start + 1, j);
        } else {
            assert(!independent_of(g, start, start + 1));
        }
    } else {
        assert(start < j);
        no_group_is_left(m, g, start + 1, j);
    }
}

proof fn ends_after(m: ModuleView, g: GraphView, start: int, end: int)
    ensures
        run_end(m, g, start, end) >= end,
        run_end(m, g, start, end) == end || run_end(m, g, start, end) >= end + 1,
        end < g.order.len() && is_groupable(m.op(g.order[end])) && independent_of(g, start, end)
            ==> run_end(m, g, start, end) >= end + 1,
    decreases g.order.len() - end,
{
    if end < g.order.len() && is_groupable(m.op(g.order[end])) && independent_of(g, start, end) {
        ends_after(m, g, start, end + 1);
    }
}

/// Where a block holds no group, two neighbours that could be grouped depend on
/// one another: the later one reads something of the earlier, or the two
/// conflict.
pub proof fn neighbours_left_apart_depend(m: ModuleView, block: BlockId, j: int)
    requires
        m.well_formed(),
        m.has_block(block),
        next_group(m, block) is None,
        0 <= j,
        j + 1 < m.live(m.block(block).ops).len(),
        may_be_grouped(m.op(m.live(m.block(block).ops)[j])),
        may_be_grouped(m.op(m.live(m.block(block).ops)[j + 1])),
    ensures
        ({
            let ops = m.live(m.block(block).ops);
            m.consumes(ops[j + 1], ops[j]) || lists_conflict(
                recorded(effect_table(m), ops[j]),
                recorded(effect_table(m), ops[j + 1]),
            )
        }),
{
    let g = graph_of(m, block, effect_table(m));
    no_group_is_left(m, g, 0, j);
    crate::dependency::reasons_are_what_they_say(m, block, effect_table(m), j, j + 1);
}

/// Grouping a block leaves no group in it, while there is room for one more.
pub proof fn grouping_leaves_no_group(m: ModuleView, report: PassReportView, block: BlockId)
    requires
        m.well_formed(),
        listed(m, block),
    ensures
        ({
            let after = group_block(m, report, block).0;
            match next_group(after, block) {
                None => true,
                Some(group) => !has_room(
                    after,
                    escaping(after, group, group.len() as int).len(),
                ),
            }
        }),
    decreases m.block(block).ops.len(),
{
    match next_group(m, block) {
        Some(group) if has_room(m, escaping(m, group, group.len() as int).len()) => {
            wrapping_keeps_order(m, report, block, group);
            let (m2, r2) = wrapped(m, report, block, group);
            lemma_listed(m, m2, block);
            grouping_leaves_no_group(m2, r2, block);
            assert(group_block(m, report, block) == group_block(m2, r2, block));
        },
        _ => {
            assert(group_block(m, report, block) == (m, report));
        },
    }
}

} // verus!
