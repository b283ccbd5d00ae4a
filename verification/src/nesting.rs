//! A program is a tree.
//!
//! Every operation sits in one place: going out from it, through the regions
//! that hold it, meets each region at most once. So a walk visits nothing
//! twice, and a value has one producer.

use vstd::prelude::*;

use crate::ids::{BlockId, OperationId, RegionId, ValueId};
use crate::module::ModuleView;

verus! {

/// How deep the region lies that an operation sits in.
pub open spec fn depth(m: ModuleView, levels: Seq<nat>, op: OperationId) -> nat {
    match m.region_of(op) {
        Some(r) => levels[r.spec_index()],
        None => 0,
    }
}

/// The operation directly in a region that is, or holds, an operation.
pub open spec fn holder(
    m: ModuleView,
    levels: Seq<nat>,
    op: OperationId,
    r: RegionId,
) -> Option<OperationId>
    decreases depth(m, levels, op),
{
    match m.region_of(op) {
        None => None,
        Some(x) => if x == r {
            Some(op)
        } else {
            match m.region(x).parent {
                None => None,
                Some(outer) => if depth(m, levels, outer) < depth(m, levels, op) {
                    holder(m, levels, outer, r)
                } else {
                    None
                },
            }
        },
    }
}

/// What is known of the region an operation sits in.
proof fn seat(m: ModuleView, levels: Seq<nat>, op: OperationId)
    requires
        m.in_bounds(),
        m.leveled(levels),
        m.has_op(op),
    ensures
        m.region_of(op) matches Some(x) ==> {
            &&& m.has_region(x)
            &&& m.region(x).parent matches Some(outer) ==> m.has_op(outer) && (m.region_of(
                outer,
            ) is Some ==> depth(m, levels, outer) < depth(m, levels, op))
        },
{
    assert(m.op_in_bounds(m.ops[op.spec_index()]));
    if let Some(b) = m.op(op).parent {
        assert(m.block_in_bounds(m.blocks[b.spec_index()]));
        let x = m.block(b).parent;
        assert(m.region_in_bounds(m.regions[x.spec_index()]));
        assert(m.inside_owner(levels, m.regions[x.spec_index()]));
    }
}

/// What a region holds lies at least as deep.
proof fn held_is_deep(m: ModuleView, levels: Seq<nat>, op: OperationId, r: RegionId)
    requires
        m.in_bounds(),
        m.leveled(levels),
        m.has_op(op),
        holder(m, levels, op, r) is Some,
    ensures
        m.region_of(op) is Some,
        depth(m, levels, op) >= levels[r.spec_index()],
    decreases depth(m, levels, op),
{
    seat(m, levels, op);
    let x = m.region_of(op)->0;
    if x != r {
        held_is_deep(m, levels, m.region(x).parent->0, r);
    }
}

/// What a region of an operation holds, the operation holds.
proof fn held_through(
    m: ModuleView,
    levels: Seq<nat>,
    op: OperationId,
    c: RegionId,
    owner: OperationId,
    r: RegionId,
)
    requires
        m.in_bounds(),
        m.leveled(levels),
        m.has_op(op),
        m.has_op(owner),
        m.has_region(c),
        holder(m, levels, op, c) is Some,
        m.region(c).parent == Some(owner),
        m.region_of(owner) == Some(r),
    ensures
        holder(m, levels, op, r) == Some(owner),
        levels[r.spec_index()] < levels[c.spec_index()],
    decreases depth(m, levels, op),
{
    assert(m.regions[c.spec_index()].id == RegionId::at(c.spec_index()));
    assert(m.inside_owner(levels, m.regions[c.spec_index()]));
    assert(m.regions[c.spec_index()].id.spec_index() == c.spec_index());
    seat(m, levels, op);
    held_is_deep(m, levels, op, c);
    let x = m.region_of(op)->0;
    if x == c {
        assert(holder(m, levels, owner, r) == Some(owner));
    } else {
        held_through(m, levels, m.region(x).parent->0, c, owner, r);
    }
}

/// Two regions of one operation hold nothing in common.
proof fn regions_hold_apart(
    m: ModuleView,
    levels: Seq<nat>,
    op: OperationId,
    c: RegionId,
    d: RegionId,
    owner: OperationId,
)
    requires
        m.in_bounds(),
        m.leveled(levels),
        m.has_op(op),
        m.has_op(owner),
        m.has_region(c),
        m.has_region(d),
        c != d,
        m.region(c).parent == Some(owner),
        m.region(d).parent == Some(owner),
        holder(m, levels, op, c) is Some,
    ensures
        holder(m, levels, op, d) is None,
    decreases depth(m, levels, op),
{
    seat(m, levels, op);
    let x = m.region_of(op)->0;
    if holder(m, levels, op, d) is Some {
        if x == c {
            held_is_deep(m, levels, owner, d);
            held_through(m, levels, op, c, owner, m.region_of(owner)->0);
            assert(m.regions[d.spec_index()].id.spec_index() == d.spec_index());
            assert(m.inside_owner(levels, m.regions[d.spec_index()]));
        } else if x == d {
            held_is_deep(m, levels, owner, c);
            assert(m.regions[c.spec_index()].id.spec_index() == c.spec_index());
            assert(m.inside_owner(levels, m.regions[c.spec_index()]));
        } else {
            regions_hold_apart(m, levels, m.region(x).parent->0, c, d, owner);
        }
    }
}

/// Lists without duplicates that share nothing make up one.
proof fn apart(a: Seq<OperationId>, b: Seq<OperationId>)
    requires
        a.no_duplicates(),
        b.no_duplicates(),
        forall|i: int, j: int|
            0 <= i < a.len() && 0 <= j < b.len() ==> #[trigger] a[i] != #[trigger] b[j],
    ensures
        (a + b).no_duplicates(),
{
    let all = a + b;
    assert forall|i: int, j: int|
        0 <= i < all.len() && 0 <= j < all.len() && i != j implies all[i] != all[j] by {
        if i < a.len() && j >= a.len() {
            assert(a[i] != b[j - a.len()]);
        } else if i >= a.len() && j < a.len() {
            assert(a[j] != b[i - a.len()]);
        } else if i >= a.len() {
            assert(b[i - a.len()] != b[j - a.len()]);
        }
    }
}

/// Whether one of the operations from a position on is, or holds, an operation.
spec fn held_by_op(
    m: ModuleView,
    levels: Seq<nat>,
    op: OperationId,
    r: RegionId,
    ops: Seq<OperationId>,
    i: int,
) -> bool {
    m.has_op(op) && exists|k: int|
        i <= k < ops.len() && holder(m, levels, op, r) == Some(#[trigger] ops[k])
}

/// Whether one of the regions from a position on holds an operation.
spec fn held_by_region(
    m: ModuleView,
    levels: Seq<nat>,
    op: OperationId,
    regions: Seq<RegionId>,
    i: int,
) -> bool {
    m.has_op(op) && exists|k: int|
        i <= k < regions.len() && holder(m, levels, op, #[trigger] regions[k]) is Some
}

/// Whether an operation directly in a block is, or holds, an operation.
spec fn in_block(
    m: ModuleView,
    levels: Seq<nat>,
    op: OperationId,
    r: RegionId,
    block: BlockId,
) -> bool {
    match holder(m, levels, op, r) {
        Some(x) => m.op(x).parent == Some(block),
        None => false,
    }
}

/// Whether one of the blocks from a position on holds an operation.
spec fn held_by_block(
    m: ModuleView,
    levels: Seq<nat>,
    op: OperationId,
    r: RegionId,
    blocks: Seq<BlockId>,
    i: int,
) -> bool {
    m.has_op(op) && exists|k: int|
        i <= k < blocks.len() && in_block(m, levels, op, r, #[trigger] blocks[k])
}

proof fn ops_once(m: ModuleView, levels: Seq<nat>, block: BlockId, i: int, fuel: nat)
    requires
        m.in_bounds(),
        m.leveled(levels),
        m.has_block(block),
        0 <= i,
    ensures
        ({
            let w = m.walk_ops(m.block(block).ops, i, fuel);
            &&& w.no_duplicates()
            &&& forall|j: int|
                0 <= j < w.len() ==> held_by_op(
                    m,
                    levels,
                    #[trigger] w[j],
                    m.block(block).parent,
                    m.block(block).ops,
                    i,
                )
        }),
    decreases fuel, 1int, m.block(block).ops.len() - i,
{
    let ops = m.block(block).ops;
    let r = m.block(block).parent;
    assert(m.block_in_bounds(m.blocks[block.spec_index()]));
    assert(m.blocks[block.spec_index()].id == block);
    if i < ops.len() {
        ops_once(m, levels, block, i + 1, fuel);
        let w = m.walk_ops(ops, i, fuel);
        let rest = m.walk_ops(ops, i + 1, fuel);
        let op = ops[i];
        assert(m.has_op(ops[i]));
        assert(m.op(ops[i]).parent == Some(block));
        if m.op(op).erased {
            assert forall|j: int| 0 <= j < w.len() implies held_by_op(
                m,
                levels,
                #[trigger] w[j],
                r,
                ops,
                i,
            ) by {
                assert(held_by_op(m, levels, rest[j], r, ops, i + 1));
            }
        } else {
            regions_once(m, levels, op, 0, fuel);
            let regions = m.op(op).regions;
            let nested = m.walk_regions(regions, 0, fuel);
            assert(m.op_in_bounds(m.ops[op.spec_index()]));
            assert(m.ops[op.spec_index()].id == op);
            assert forall|j: int| 0 <= j < nested.len() implies holder(
                m,
                levels,
                #[trigger] nested[j],
                r,
            ) == Some(op) && nested[j] != op && m.has_op(nested[j]) by {
                assert(held_by_region(m, levels, nested[j], regions, 0));
                let k = choose|k: int|
                    0 <= k < regions.len() && holder(m, levels, nested[j], #[trigger] regions[k])
                        is Some;
                assert(m.has_region(regions[k]));
                held_through(m, levels, nested[j], regions[k], op, r);
                if nested[j] == op {
                    held_is_deep(m, levels, op, regions[k]);
                }
            }
            let one = seq![op];
            apart(one, nested);
            let both = one + nested;
            assert forall|a: int, b: int|
                0 <= a < both.len() && 0 <= b < rest.len() implies #[trigger] both[a]
                != #[trigger] rest[b] by {
                assert(held_by_op(m, levels, rest[b], r, ops, i + 1));
                let k = choose|k: int|
                    i + 1 <= k < ops.len() && holder(m, levels, rest[b], r) == Some(
                        #[trigger] ops[k],
                    );
                assert(ops[k] != ops[i]);
                if a > 0 {
                    assert(both[a] == nested[a - 1]);
                }
            }
            apart(both, rest);
            assert(w == both + rest);
            assert forall|j: int| 0 <= j < w.len() implies held_by_op(
                m,
                levels,
                #[trigger] w[j],
                r,
                ops,
                i,
            ) by {
                if j == 0 {
                    assert(holder(m, levels, op, r) == Some(ops[i]));
                } else if j < both.len() {
                    assert(w[j] == nested[j - 1]);
                    assert(holder(m, levels, nested[j - 1], r) == Some(ops[i]));
                } else {
                    assert(w[j] == rest[j - both.len()]);
                    assert(held_by_op(m, levels, rest[j - both.len()], r, ops, i + 1));
                }
            }
        }
    }
}

proof fn regions_once(m: ModuleView, levels: Seq<nat>, op: OperationId, i: int, fuel: nat)
    requires
        m.in_bounds(),
        m.leveled(levels),
        m.has_op(op),
        0 <= i,
    ensures
        ({
            let w = m.walk_regions(m.op(op).regions, i, fuel);
            &&& w.no_duplicates()
            &&& forall|j: int|
                0 <= j < w.len() ==> held_by_region(
                    m,
                    levels,
                    #[trigger] w[j],
                    m.op(op).regions,
                    i,
                )
        }),
    decreases fuel, 0int, m.op(op).regions.len() - i,
{
    let regions = m.op(op).regions;
    if i < regions.len() && fuel > 0 {
        assert(m.op_in_bounds(m.ops[op.spec_index()]));
        assert(m.ops[op.spec_index()].id == op);
        let c = regions[i];
        assert(m.has_region(regions[i]));
        let blocks = m.region(c).blocks;
        blocks_once(m, levels, c, 0, (fuel - 1) as nat);
        regions_once(m, levels, op, i + 1, fuel);
        let first = m.walk_blocks(blocks, 0, (fuel - 1) as nat);
        let rest = m.walk_regions(regions, i + 1, fuel);
        let w = m.walk_regions(regions, i, fuel);
        assert(w == first + rest);
        assert forall|a: int| 0 <= a < first.len() implies m.has_op(#[trigger] first[a]) && holder(
            m,
            levels,
            first[a],
            regions[i],
        ) is Some by {
            assert(held_by_block(m, levels, first[a], c, blocks, 0));
        }
        assert forall|a: int, b: int|
            0 <= a < first.len() && 0 <= b < rest.len() implies #[trigger] first[a]
            != #[trigger] rest[b] by {
            assert(held_by_region(m, levels, rest[b], regions, i + 1));
            let k = choose|k: int|
                i + 1 <= k < regions.len() && holder(m, levels, rest[b], #[trigger] regions[k])
                    is Some;
            assert(m.has_region(regions[k]));
            assert(regions[i] != regions[k]);
            if first[a] == rest[b] {
                regions_hold_apart(m, levels, first[a], regions[i], regions[k], op);
            }
        }
        apart(first, rest);
        assert forall|j: int| 0 <= j < w.len() implies held_by_region(
            m,
            levels,
            #[trigger] w[j],
            regions,
            i,
        ) by {
            if j < first.len() {
                assert(w[j] == first[j]);
                assert(holder(m, levels, first[j], regions[i]) is Some);
            } else {
                assert(w[j] == rest[j - first.len()]);
                assert(held_by_region(m, levels, rest[j - first.len()], regions, i + 1));
            }
        }
    }
}

proof fn blocks_once(m: ModuleView, levels: Seq<nat>, r: RegionId, i: int, fuel: nat)
    requires
        m.in_bounds(),
        m.leveled(levels),
        m.has_region(r),
        0 <= i,
    ensures
        ({
            let w = m.walk_blocks(m.region(r).blocks, i, fuel);
            &&& w.no_duplicates()
            &&& forall|j: int|
                0 <= j < w.len() ==> held_by_block(
                    m,
                    levels,
                    #[trigger] w[j],
                    r,
                    m.region(r).blocks,
                    i,
                )
        }),
    decreases fuel, 2int, m.region(r).blocks.len() - i,
{
    let blocks = m.region(r).blocks;
    if i < blocks.len() {
        assert(m.region_in_bounds(m.regions[r.spec_index()]));
        assert(m.regions[r.spec_index()].id == r);
        let block = blocks[i];
        assert(m.has_block(blocks[i]));
        assert(m.block(blocks[i]).parent == r);
        assert(m.block_in_bounds(m.blocks[block.spec_index()]));
        assert(m.blocks[block.spec_index()].id == block);
        let ops = m.block(block).ops;
        ops_once(m, levels, block, 0, fuel);
        blocks_once(m, levels, r, i + 1, fuel);
        let first = m.walk_ops(ops, 0, fuel);
        let rest = m.walk_blocks(blocks, i + 1, fuel);
        let w = m.walk_blocks(blocks, i, fuel);
        assert(w == first + rest);
        assert forall|a: int| 0 <= a < first.len() implies m.has_op(#[trigger] first[a])
            && in_block(m, levels, first[a], r, blocks[i]) by {
            assert(held_by_op(m, levels, first[a], r, ops, 0));
            let k = choose|k: int|
                0 <= k < ops.len() && holder(m, levels, first[a], r) == Some(#[trigger] ops[k]);
            assert(m.has_op(ops[k]));
        }
        assert forall|a: int, b: int|
            0 <= a < first.len() && 0 <= b < rest.len() implies #[trigger] first[a]
            != #[trigger] rest[b] by {
            assert(held_by_block(m, levels, rest[b], r, blocks, i + 1));
            let k = choose|k: int|
                i + 1 <= k < blocks.len() && in_block(m, levels, rest[b], r, #[trigger] blocks[k]);
            assert(blocks[i] != blocks[k]);
            assert(in_block(m, levels, first[a], r, blocks[i]));
        }
        apart(first, rest);
        assert forall|j: int| 0 <= j < w.len() implies held_by_block(
            m,
            levels,
            #[trigger] w[j],
            r,
            blocks,
            i,
        ) by {
            if j < first.len() {
                assert(w[j] == first[j]);
                assert(in_block(m, levels, first[j], r, blocks[i]));
            } else {
                assert(w[j] == rest[j - first.len()]);
                assert(held_by_block(m, levels, rest[j - first.len()], r, blocks, i + 1));
            }
        }
    }
}

/// A program order visits nothing twice.
pub proof fn a_program_visits_nothing_twice(m: ModuleView, region: RegionId)
    requires
        m.well_formed(),
        m.has_region(region),
    ensures
        m.program_order(region).no_duplicates(),
{
    let levels = choose|levels: Seq<nat>| m.leveled(levels);
    blocks_once(m, levels, region, 0, m.regions.len());
}

/// What is nested in an operation of a block is held by it.
proof fn subtree_is_held(
    m: ModuleView,
    levels: Seq<nat>,
    block: BlockId,
    op: OperationId,
    k: int,
)
    requires
        m.in_bounds(),
        m.leveled(levels),
        m.has_block(block),
        m.has_op(op),
        m.op(op).parent == Some(block),
        0 <= k < m.subtree(op).len(),
    ensures
        m.has_op(m.subtree(op)[k]),
        holder(m, levels, m.subtree(op)[k], m.block(block).parent) == Some(op),
{
    let r = m.block(block).parent;
    let regions = m.op(op).regions;
    let fuel = m.regions.len() + 1;
    let nested = m.walk_regions(regions, 0, fuel);
    regions_once(m, levels, op, 0, fuel);
    assert(m.op_in_bounds(m.ops[op.spec_index()]));
    assert(m.ops[op.spec_index()].id == op);
    if k > 0 {
        let o = nested[k - 1];
        assert(m.subtree(op)[k] == o);
        assert(held_by_region(m, levels, nested[k - 1], regions, 0));
        let n = choose|n: int|
            0 <= n < regions.len() && holder(m, levels, o, #[trigger] regions[n]) is Some;
        assert(m.has_region(regions[n]));
        held_through(m, levels, o, regions[n], op, r);
    }
}

/// A value is introduced in one place.
proof fn introduced_once(m: ModuleView, a: OperationId, b: OperationId, value: ValueId)
    requires
        m.in_bounds(),
        m.has_op(a),
        m.has_op(b),
        m.introduces(a, value),
        m.introduces(b, value),
    ensures
        a == b,
{
    introduced_by(m, a, value);
    introduced_by(m, b, value);
}

/// The operation that introduces a value is the one that its definition leads
/// to.
proof fn introduced_by(m: ModuleView, op: OperationId, value: ValueId)
    requires
        m.in_bounds(),
        m.has_op(op),
        m.introduces(op, value),
    ensures
        match m.value(value).def {
            crate::module::ValueDef::OpResult { op: producer, .. } => producer == op,
            crate::module::ValueDef::BlockArg { block, .. } => m.region(
                m.block(block).parent,
            ).parent == Some(op),
        },
{
    let o = m.op(op);
    assert(m.op_in_bounds(m.ops[op.spec_index()]));
    assert(m.ops[op.spec_index()].id == op);
    if o.results.contains(value) {
        let i = choose|i: int| 0 <= i < o.results.len() && o.results[i] == value;
        assert(m.is_result(o.results[i], op));
    } else {
        let (n, b) = choose|n: int, b: int|
            0 <= n < o.regions.len() && 0 <= b < m.region(o.regions[n]).blocks.len()
                && #[trigger] m.block(m.region(o.regions[n]).blocks[b]).args.contains(value);
        let c = o.regions[n];
        assert(m.has_region(o.regions[n]));
        assert(m.region_in_bounds(m.regions[c.spec_index()]));
        assert(m.regions[c.spec_index()].id == c);
        let block = m.region(c).blocks[b];
        assert(m.has_block(m.region(c).blocks[b]));
        assert(m.block_in_bounds(m.blocks[block.spec_index()]));
        assert(m.blocks[block.spec_index()].id == block);
        let args = m.block(block).args;
        let i = choose|i: int| 0 <= i < args.len() && args[i] == value;
        assert(m.is_arg(args[i], block));
    }
}

/// A value has one producer in a block: two operations of a block that both
/// produce it are the same.
pub proof fn a_value_has_one_producer(
    m: ModuleView,
    block: BlockId,
    a: OperationId,
    b: OperationId,
    value: ValueId,
)
    requires
        m.well_formed(),
        m.has_block(block),
        m.block(block).ops.contains(a),
        m.block(block).ops.contains(b),
        m.produces(a, value),
        m.produces(b, value),
    ensures
        a == b,
{
    let levels = choose|levels: Seq<nat>| m.leveled(levels);
    assert(m.block_in_bounds(m.blocks[block.spec_index()]));
    assert(m.blocks[block.spec_index()].id == block);
    let ops = m.block(block).ops;
    let i = choose|i: int| 0 <= i < ops.len() && ops[i] == a;
    let j = choose|j: int| 0 <= j < ops.len() && ops[j] == b;
    assert(m.has_op(ops[i]) && m.has_op(ops[j]));
    let k = choose|k: int|
        0 <= k < m.subtree(a).len() && m.introduces(#[trigger] m.subtree(a)[k], value);
    let l = choose|l: int|
        0 <= l < m.subtree(b).len() && m.introduces(#[trigger] m.subtree(b)[l], value);
    subtree_is_held(m, levels, block, a, k);
    subtree_is_held(m, levels, block, b, l);
    introduced_once(m, m.subtree(a)[k], m.subtree(b)[l], value);
}

} // verus!
