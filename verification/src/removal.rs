//! What removing dead actions comes to.
//!
//! What was removed is read by nothing that is left, only read the world, and
//! was no function; nothing else changed. And nothing is left that could have
//! been removed: whatever is kept lasts, is a function, gives nothing, or is
//! read.

use vstd::prelude::*;

use crate::acceptance::{all_hold, walked_blocks, walked_operations, walked_regions};
use crate::dead_action::{
    dead_ops, elimination_is_complete, eliminated, is_dead, lemma_dead_ops_live, lemma_remove_ops,
    lemma_round_shrinks, live_count, removal_leaves_the_rest, remove_ops, DeadActionElimination,
};
use crate::effect::EffectView;
use crate::effects::{effect_table, recorded};
use crate::ids::{BlockId, OperationId, RegionId, ValueId};
use crate::judgement::{is_called, recorded_effects};
use crate::module::{ModuleView, OperationView};
use crate::pass::{Pass, PassReportView};
use crate::printer::{lemma_filter_index, lemma_filter_member};
use crate::uses::{operand_uses, uses_by, uses_in};

verus! {

/// Whether an operation of a program reads a value.
pub open spec fn reads(m: ModuleView, reader: OperationId, value: ValueId) -> bool {
    m.program_order(m.body).contains(reader) && m.op(reader).operands.contains(value)
}

/// Whether an operation, and what is nested in it, leaves the world as it is.
pub open spec fn only_looks(m: ModuleView, op: OperationId) -> bool {
    forall|i: int|
        0 <= i < m.subtree(op).len() ==> {
            let e = m.op(#[trigger] m.subtree(op)[i]).effect;
            e is Pure || e is ReadExternal
        }
}

proof fn operand_reads(op: OperationId, operands: Seq<ValueId>, n: int, value: ValueId)
    requires
        0 <= n <= operands.len(),
    ensures
        operand_uses(op, operands, n, value).len() > 0 <==> exists|p: int|
            0 <= p < n && #[trigger] operands[p] == value,
    decreases n,
{
    if n > 0 {
        operand_reads(op, operands, n - 1, value);
        if operands[n - 1] != value {
            if exists|p: int| 0 <= p < n && #[trigger] operands[p] == value {
                let p = choose|p: int| 0 <= p < n && #[trigger] operands[p] == value;
                assert(p < n - 1);
            }
        }
    }
}

proof fn reads_are_uses(m: ModuleView, ops: Seq<OperationId>, n: int, value: ValueId)
    requires
        0 <= n <= ops.len(),
    ensures
        uses_by(m, ops, n, value).len() > 0 <==> exists|k: int|
            0 <= k < n && m.op(#[trigger] ops[k]).operands.contains(value),
    decreases n,
{
    if n > 0 {
        reads_are_uses(m, ops, n - 1, value);
        let operands = m.op(ops[n - 1]).operands;
        operand_reads(ops[n - 1], operands, operands.len() as int, value);
        if operands.contains(value) {
            let p = choose|p: int| 0 <= p < operands.len() && operands[p] == value;
            assert(operands[p] == value);
        }
        if exists|k: int| 0 <= k < n && m.op(#[trigger] ops[k]).operands.contains(value) {
            let k = choose|k: int| 0 <= k < n && m.op(#[trigger] ops[k]).operands.contains(value);
            if k < n - 1 {
                assert(m.op(ops[k]).operands.contains(value));
            }
        }
    }
}

/// A value has a use in a program exactly when an operation of it reads it.
pub proof fn uses_are_reads(m: ModuleView, value: ValueId)
    ensures
        uses_in(m, value).len() > 0 <==> exists|reader: OperationId| #[trigger]
            reads(m, reader, value),
{
    let order = m.program_order(m.body);
    reads_are_uses(m, order, order.len() as int, value);
    if uses_in(m, value).len() > 0 {
        let k = choose|k: int|
            0 <= k < order.len() && m.op(#[trigger] order[k]).operands.contains(value);
        assert(reads(m, order[k], value));
    }
    if exists|reader: OperationId| #[trigger] reads(m, reader, value) {
        let reader = choose|reader: OperationId| #[trigger] reads(m, reader, value);
        let k = choose|k: int| 0 <= k < order.len() && order[k] == reader;
        assert(m.op(order[k]).operands.contains(value));
    }
}

proof fn dead_is_unread(m: ModuleView, op: OperationId)
    requires
        m.well_formed(),
        m.program_order(m.body).contains(op),
    ensures
        is_dead(m, op) <==> {
            &&& m.op(op).results.len() > 0
            &&& !is_called(m.op(op), "agent"@, "func"@)
            &&& only_looks(m, op)
            &&& forall|q: int, reader: OperationId|
                0 <= q < m.op(op).results.len() ==> !(#[trigger] reads(
                    m,
                    reader,
                    m.op(op).results[q],
                ))
        },
{
    let results = m.op(op).results;
    recorded_effects(m, op);
    let effects = recorded(effect_table(m), op);
    assert(crate::dead_action::replayable(m, op) == only_looks(m, op)) by {
        if crate::dead_action::replayable(m, op) {
            assert forall|i: int| 0 <= i < m.subtree(op).len() implies {
                let e = m.op(#[trigger] m.subtree(op)[i]).effect;
                e is Pure || e is ReadExternal
            } by {
                let e = m.op(m.subtree(op)[i]).effect;
                assert(effects.contains(e));
                let k = choose|k: int| 0 <= k < effects.len() && effects[k] == e;
                assert(effects[k].is_replayable());
            }
        }
        if only_looks(m, op) {
            assert forall|k: int| 0 <= k < effects.len() implies (
            #[trigger] effects[k]).is_replayable() by {
                assert(effects.contains(effects[k]));
                let i = choose|i: int|
                    0 <= i < m.subtree(op).len() && m.op(#[trigger] m.subtree(op)[i]).effect
                        == effects[k];
                let e = m.op(m.subtree(op)[i]).effect;
                assert(e is Pure || e is ReadExternal);
            }
        }
    }
    if crate::dead_action::results_unread(m, op) {
        assert forall|q: int, reader: OperationId| 0 <= q < results.len() implies !(
        #[trigger] reads(m, reader, results[q])) by {
            uses_are_reads(m, results[q]);
            assert(uses_in(m, m.op(op).results[q]).len() == 0);
        }
    }
    if forall|q: int, reader: OperationId|
        0 <= q < results.len() ==> !(#[trigger] reads(m, reader, results[q])) {
        assert forall|q: int| 0 <= q < m.op(op).results.len() implies uses_in(
            m,
            #[trigger] m.op(op).results[q],
        ).len() == 0 by {
            uses_are_reads(m, results[q]);
        }
    }
}

// ------------------------------------------------------------------ removal

/// Whether a module is another one with operations left out and nothing else
/// changed.
pub open spec fn leaves_out(a: ModuleView, b: ModuleView) -> bool {
    &&& b.body == a.body
    &&& b.regions == a.regions
    &&& b.values == a.values
    &&& b.blocks.len() == a.blocks.len()
    &&& b.ops.len() == a.ops.len()
    &&& b.capabilities == a.capabilities
    &&& b.name == a.name
    &&& b.version == a.version
    &&& forall|i: int|
        0 <= i < a.ops.len() ==> {
            &&& #[trigger] b.ops[i] == (OperationView {
                erased: b.ops[i].erased,
                parent: b.ops[i].parent,
                ..a.ops[i]
            })
            &&& a.ops[i].erased ==> b.ops[i].erased
            &&& !b.ops[i].erased ==> b.ops[i] == a.ops[i]
        }
    &&& forall|i: int|
        0 <= i < a.blocks.len() ==> b.live((#[trigger] b.blocks[i]).ops) == b.live(
            a.blocks[i].ops,
        ) && b.blocks[i].args == a.blocks[i].args
}

proof fn removal_leaves_out(
    m: ModuleView,
    report: PassReportView,
    table: Seq<Seq<EffectView>>,
    ops: Seq<OperationId>,
    n: int,
    levels: Seq<nat>,
)
    requires
        m.in_bounds(),
        m.leveled(levels),
        0 <= n <= ops.len(),
        forall|i: int| 0 <= i < ops.len() ==> m.has_op(#[trigger] ops[i]),
    ensures
        leaves_out(m, remove_ops(m, report, table, ops, n).0),
    decreases n,
{
    removal_leaves_the_rest(m, report, table, ops, n, levels);
    if n > 0 {
        removal_leaves_out(m, report, table, ops, n - 1, levels);
        lemma_remove_ops(m, report, table, ops, n - 1, levels);
        let b = remove_ops(m, report, table, ops, n - 1).0;
        let op = ops[n - 1];
        let c = b.erase(op);
        assert(m.has_op(ops[n - 1]));
        assert(b.op_in_bounds(b.ops[op.spec_index()]));
        assert forall|i: int| 0 <= i < m.ops.len() implies {
            &&& #[trigger] c.ops[i] == (OperationView {
                erased: c.ops[i].erased,
                parent: c.ops[i].parent,
                ..m.ops[i]
            })
            &&& m.ops[i].erased ==> c.ops[i].erased
            &&& !c.ops[i].erased ==> c.ops[i] == m.ops[i]
        } by {
            assert(b.ops[i] == (OperationView {
                erased: b.ops[i].erased,
                parent: b.ops[i].parent,
                ..m.ops[i]
            }));
        }
        assert forall|i: int| 0 <= i < m.blocks.len() implies (#[trigger] c.blocks[i]).args
            == m.blocks[i].args by {
            assert(b.blocks[i].args == m.blocks[i].args);
        }
    }
}

/// Leaving out twice is leaving out.
proof fn left_out_on(a: ModuleView, b: ModuleView, c: ModuleView)
    requires
        a.in_bounds(),
        b.in_bounds(),
        leaves_out(a, b),
        leaves_out(b, c),
    ensures
        leaves_out(a, c),
{
    assert forall|i: int| 0 <= i < a.ops.len() implies {
        &&& #[trigger] c.ops[i] == (OperationView {
            erased: c.ops[i].erased,
            parent: c.ops[i].parent,
            ..a.ops[i]
        })
        &&& a.ops[i].erased ==> c.ops[i].erased
        &&& !c.ops[i].erased ==> c.ops[i] == a.ops[i]
    } by {
        assert(b.ops[i] == (OperationView {
            erased: b.ops[i].erased,
            parent: b.ops[i].parent,
            ..a.ops[i]
        }));
        assert(c.ops[i] == (OperationView {
            erased: c.ops[i].erased,
            parent: c.ops[i].parent,
            ..b.ops[i]
        }));
    }
    assert forall|i: int| 0 <= i < a.blocks.len() implies c.live((#[trigger] c.blocks[i]).ops)
        == c.live(a.blocks[i].ops) && c.blocks[i].args == a.blocks[i].args by {
        assert(b.live(b.blocks[i].ops) == b.live(a.blocks[i].ops));
        assert(c.live(c.blocks[i].ops) == c.live(b.blocks[i].ops));
        assert(a.block_in_bounds(a.blocks[i]));
        assert(b.block_in_bounds(b.blocks[i]));
        thinner_filter(b, c, b.blocks[i].ops);
        thinner_filter(b, c, a.blocks[i].ops);
        assert(b.blocks[i].args == a.blocks[i].args);
    }
}

/// What is live in the thinner module is live in the other.
proof fn thinner_filter(b: ModuleView, c: ModuleView, ops: Seq<OperationId>)
    requires
        leaves_out(b, c),
        forall|k: int| 0 <= k < ops.len() ==> b.has_op(#[trigger] ops[k]),
    ensures
        c.live(b.live(ops)) == c.live(ops),
    decreases ops.len(),
{
    reveal(Seq::filter);
    if ops.len() > 0 {
        let rest = ops.drop_last();
        assert forall|k: int| 0 <= k < rest.len() implies b.has_op(#[trigger] rest[k]) by {
            assert(b.has_op(ops[k]));
        }
        thinner_filter(b, c, rest);
        let last = ops.last();
        assert(b.has_op(ops[ops.len() - 1]));
        let i = last.spec_index() as int;
        assert(b.ops[i].erased ==> c.ops[i].erased);
        if !b.op(last).erased {
            assert(b.live(ops) =~= b.live(rest).push(last));
            assert(b.live(ops).drop_last() =~= b.live(rest));
        }
    }
}

// ------------------------------------------------------------------ subsets

proof fn blocks_within(
    a: ModuleView,
    b: ModuleView,
    region: RegionId,
    i: int,
    fuel: nat,
    holds: spec_fn(OperationId) -> bool,
)
    requires
        a.in_bounds(),
        b.in_bounds(),
        leaves_out(a, b),
        a.has_region(region),
        0 <= i,
        all_hold(a.walk_blocks(a.region(region).blocks, 0, fuel), holds),
    ensures
        all_hold(b.walk_blocks(b.region(region).blocks, i, fuel), holds),
    decreases fuel, 2int, b.region(region).blocks.len() - i,
{
    let blocks = a.region(region).blocks;
    assert(a.region_in_bounds(a.regions[region.spec_index() as int]));
    if i < blocks.len() {
        assert(a.has_block(blocks[i]));
        walked_blocks(a, blocks, 0, fuel, i, holds);
        ops_within(a, b, blocks[i], 0, fuel, holds);
        blocks_within(a, b, region, i + 1, fuel, holds);
        held_together(
            b.walk_ops(b.block(blocks[i]).ops, 0, fuel),
            b.walk_blocks(blocks, i + 1, fuel),
            holds,
        );
    }
}

proof fn held_together(
    x: Seq<OperationId>,
    y: Seq<OperationId>,
    holds: spec_fn(OperationId) -> bool,
)
    requires
        all_hold(x, holds),
        all_hold(y, holds),
    ensures
        all_hold(x + y, holds),
{
    assert forall|k: int| 0 <= k < (x + y).len() implies holds(#[trigger] (x + y)[k]) by {
        if k < x.len() {
            assert(holds(x[k]));
        } else {
            assert(holds(y[k - x.len()]));
        }
    }
}

proof fn ops_within(
    a: ModuleView,
    b: ModuleView,
    block: BlockId,
    i: int,
    fuel: nat,
    holds: spec_fn(OperationId) -> bool,
)
    requires
        a.in_bounds(),
        b.in_bounds(),
        leaves_out(a, b),
        a.has_block(block),
        0 <= i,
        all_hold(a.walk_ops(a.block(block).ops, 0, fuel), holds),
    ensures
        all_hold(b.walk_ops(b.block(block).ops, i, fuel), holds),
    decreases fuel, 1int, b.block(block).ops.len() - i,
{
    let ops = b.block(block).ops;
    let all = a.block(block).ops;
    let k = block.spec_index() as int;
    assert(b.block_in_bounds(b.blocks[k]));
    assert(a.block_in_bounds(a.blocks[k]));
    if i < ops.len() {
        ops_within(a, b, block, i + 1, fuel, holds);
        let op = ops[i];
        assert(b.has_op(ops[i]));
        if !b.op(op).erased {
            let live = |x: OperationId| !b.op(x).erased;
            lemma_filter_index(ops, live, i);
            assert(b.live(ops).contains(op));
            assert(b.live(b.blocks[k].ops) == b.live(a.blocks[k].ops));
            let at = choose|at: int| 0 <= at < b.live(all).len() && b.live(all)[at] == op;
            lemma_filter_member(all, live, at);
            let j = choose|j: int|
                0 <= j < all.len() && all[j] == all.filter(live)[at] && live(all[j]);
            assert(b.ops[op.spec_index() as int] == a.ops[op.spec_index() as int]);
            walked_operations(a, all, 0, fuel, j, holds);
            regions_within(a, b, op, 0, fuel, holds);
            let own = seq![op];
            let nested = b.walk_regions(b.op(op).regions, 0, fuel);
            assert(all_hold(own, holds));
            held_together(own, nested, holds);
            held_together(own + nested, b.walk_ops(ops, i + 1, fuel), holds);
        }
    }
}

proof fn regions_within(
    a: ModuleView,
    b: ModuleView,
    op: OperationId,
    i: int,
    fuel: nat,
    holds: spec_fn(OperationId) -> bool,
)
    requires
        a.in_bounds(),
        b.in_bounds(),
        leaves_out(a, b),
        a.has_op(op),
        b.op(op).regions == a.op(op).regions,
        0 <= i,
        all_hold(a.walk_regions(a.op(op).regions, 0, fuel), holds),
    ensures
        all_hold(b.walk_regions(b.op(op).regions, i, fuel), holds),
    decreases fuel, 0int, b.op(op).regions.len() - i,
{
    let regions = a.op(op).regions;
    assert(a.op_in_bounds(a.ops[op.spec_index() as int]));
    if i < regions.len() && fuel > 0 {
        assert(a.has_region(regions[i]));
        let less = (fuel - 1) as nat;
        walked_regions(a, regions, 0, fuel, i, holds);
        blocks_within(a, b, regions[i], 0, less, holds);
        regions_within(a, b, op, i + 1, fuel, holds);
        held_together(
            b.walk_blocks(b.region(regions[i]).blocks, 0, less),
            b.walk_regions(regions, i + 1, fuel),
            holds,
        );
    }
}

/// What is left of a program was in it, and reads what it read.
proof fn what_is_left_was_there(a: ModuleView, b: ModuleView, op: OperationId)
    requires
        a.well_formed(),
        b.well_formed(),
        leaves_out(a, b),
        b.program_order(b.body).contains(op),
    ensures
        a.program_order(a.body).contains(op),
        b.op(op) == a.op(op),
{
    let order = a.program_order(a.body);
    let inside = |x: OperationId| order.contains(x);
    assert(all_hold(order, inside)) by {
        assert forall|k: int| 0 <= k < order.len() implies inside(#[trigger] order[k]) by {
            assert(order.contains(order[k]));
        }
    }
    blocks_within(a, b, a.body, 0, a.regions.len(), inside);
    let left = b.program_order(b.body);
    let k = choose|k: int| 0 <= k < left.len() && left[k] == op;
    assert(inside(left[k]));
    crate::traversal::walks_are_live(b, b.body);
    assert(b.has_op(left[k]) && !b.op(left[k]).erased);
    let i = op.spec_index() as int;
    assert(!b.ops[i].erased ==> b.ops[i] == a.ops[i]);
}

// --------------------------------------------------------------------- laws

/// Elimination leaves operations out and changes nothing else. What it leaves
/// out gave something that nothing left reads, was no function, and touched
/// nothing but to read it.
pub proof fn what_is_removed_is_not_missed(m: ModuleView, report: PassReportView, op: OperationId)
    requires
        m.well_formed(),
    ensures
        leaves_out(m, eliminated(m, report).0),
        eliminated(m, report).0.well_formed(),
        m.has_op(op) && !m.op(op).erased && eliminated(m, report).0.op(op).erased ==> {
            let out = eliminated(m, report).0;
            &&& m.op(op).results.len() > 0
            &&& !is_called(m.op(op), "agent"@, "func"@)
            &&& m.op(op).effect is Pure || m.op(op).effect is ReadExternal
            &&& forall|q: int, reader: OperationId|
                0 <= q < m.op(op).results.len() ==> !(#[trigger] reads(
                    out,
                    reader,
                    m.op(op).results[q],
                ))
        },
    decreases live_count(m, m.ops.len() as int),
{
    elimination_is_complete(m, report);
    let out = eliminated(m, report).0;
    let dead = dead_ops(m);
    if dead.len() > 0 {
        let levels = choose|levels: Seq<nat>| m.leveled(levels);
        let n = dead.len() as int;
        let table = effect_table(m);
        lemma_round_shrinks(m, report, levels);
        lemma_dead_ops_live(m);
        lemma_remove_ops(m, report, table, dead, n, levels);
        removal_leaves_out(m, report, table, dead, n, levels);
        let (m2, r2) = remove_ops(m, report, table, dead, n);
        assert(m2.leveled(levels));
        assert(dead.take(n) =~= dead);
        what_is_removed_is_not_missed(m2, r2, op);
        left_out_on(m, m2, out);
        if m.has_op(op) && !m.op(op).erased && out.op(op).erased {
            let i = op.spec_index() as int;
            assert(OperationId::at(i) == op);
            assert(m2.ops[i].erased == (m.ops[i].erased || dead.contains(op)));
            if m2.ops[i].erased {
                let k = choose|k: int| 0 <= k < dead.len() && dead[k] == op;
                assert(is_dead(m, dead[k]));
                assert(m.program_order(m.body).contains(dead[k]));
                dead_is_unread(m, op);
                assert(m.subtree(op)[0] == op);
                assert forall|q: int, reader: OperationId|
                    0 <= q < m.op(op).results.len() implies !(#[trigger] reads(
                    out,
                    reader,
                    m.op(op).results[q],
                )) by {
                    if reads(out, reader, m.op(op).results[q]) {
                        what_is_left_was_there(m, out, reader);
                        assert(reads(m, reader, m.op(op).results[q]));
                    }
                }
            } else {
                assert(m2.ops[i] == m.ops[i]);
            }
        }
    } else {
        assert(leaves_out(m, m));
    }
}

/// Nothing is left that could have been removed: what gives something, is no
/// function and only reads the world, is read by something.
pub proof fn what_is_left_is_needed(m: ModuleView, report: PassReportView, op: OperationId)
    requires
        m.well_formed(),
        eliminated(m, report).0.program_order(eliminated(m, report).0.body).contains(op),
        eliminated(m, report).0.op(op).results.len() > 0,
        !is_called(eliminated(m, report).0.op(op), "agent"@, "func"@),
        only_looks(eliminated(m, report).0, op),
    ensures
        exists|q: int, reader: OperationId|
            0 <= q < eliminated(m, report).0.op(op).results.len() && #[trigger] reads(
                eliminated(m, report).0,
                reader,
                eliminated(m, report).0.op(op).results[q],
            ),
{
    let out = eliminated(m, report).0;
    elimination_is_complete(m, report);
    dead_is_unread(out, op);
    if is_dead(out, op) {
        let order = out.program_order(out.body);
        let keep = |x: OperationId| is_dead(out, x);
        let k = choose|k: int| 0 <= k < order.len() && order[k] == op;
        lemma_filter_index(order, keep, k);
        assert(dead_ops(out).contains(op));
    }
}

/// The pass removes dead actions: it leaves operations out and changes nothing
/// else, nothing left reads what was left out, and whatever is left that only
/// reads the world is read in turn.
pub proof fn dead_actions_are_removed(m: ModuleView, op: OperationId)
    requires
        m.well_formed(),
        m.has_op(op),
    ensures
        ({
            let out = DeadActionElimination.outcome(m).0;
            &&& leaves_out(m, out)
            &&& !m.op(op).erased && out.op(op).erased ==> {
                &&& m.op(op).results.len() > 0
                &&& !is_called(m.op(op), "agent"@, "func"@)
                &&& m.op(op).effect is Pure || m.op(op).effect is ReadExternal
                &&& forall|q: int, reader: OperationId|
                    0 <= q < m.op(op).results.len() ==> !(#[trigger] reads(
                        out,
                        reader,
                        m.op(op).results[q],
                    ))
            }
            &&& out.program_order(out.body).contains(op) && out.op(op).results.len() > 0
                && !is_called(out.op(op), "agent"@, "func"@) && only_looks(out, op) ==> exists|
                q: int,
                reader: OperationId,
            |
                0 <= q < out.op(op).results.len() && #[trigger] reads(
                    out,
                    reader,
                    out.op(op).results[q],
                )
        }),
{
    let report = PassReportView::empty("dead-action-elimination"@);
    let out = eliminated(m, report).0;
    what_is_removed_is_not_missed(m, report, op);
    if out.program_order(out.body).contains(op) && out.op(op).results.len() > 0 && !is_called(
        out.op(op),
        "agent"@,
        "func"@,
    ) && only_looks(out, op) {
        what_is_left_is_needed(m, report, op);
    }
}

} // verus!
