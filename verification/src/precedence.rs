//! What certainly runs before an operation.
//!
//! Control enters a block from its start, so what stands earlier in a block that
//! encloses an operation ran before it; what stands in a sibling region may not
//! have, and what stands later has not. The guards of an accepted program are
//! therefore found by reading it from the top.

use vstd::prelude::*;

use crate::diagnostic::rejects;
use crate::dialects::SignatureView;
use crate::dominance::{frame_of, lemma_position_valid, Frame};
use crate::effect::EffectView;
use crate::guarantees::{accepted_programs_keep_the_invariants, keeps_the_invariants};
use crate::ids::{BlockId, OperationId, RegionId, ValueId};
use crate::module::{ModuleView, ValueDef};
use crate::number::Number;
use crate::printer::{lemma_filter_index, lemma_filter_member};
use crate::rules::{all_findings, is_pure, preceding, preceding_within};

verus! {

/// Whether an operation stands earlier than another one in the same block.
pub open spec fn stands_before(m: ModuleView, earlier: OperationId, later: OperationId) -> bool {
    &&& m.op(later).parent matches Some(block) && exists|i: int, j: int|
        0 <= i < j < m.block(block).ops.len() && #[trigger] m.block(block).ops[i] == earlier
            && #[trigger] m.block(block).ops[j] == later
}

/// Whether an operation is another one, or holds it at some depth.
pub open spec fn holds(m: ModuleView, outer: OperationId, op: OperationId, depth: nat) -> bool
    decreases depth,
{
    outer == op || (depth > 0 && (m.parent_op(op) matches Some(owner) && holds(
        m,
        outer,
        owner,
        (depth - 1) as nat,
    )))
}

/// Whether an operation certainly ran before another one: it is live, and stands
/// before that one or before an operation that holds it.
pub open spec fn ran_before(m: ModuleView, earlier: OperationId, op: OperationId) -> bool {
    !m.op(earlier).erased && exists|outer: OperationId, depth: nat|
        #[trigger] holds(m, outer, op, depth) && stands_before(m, earlier, outer)
}

/// Whether an operation comes before another one in a list.
pub open spec fn comes_before(
    order: Seq<OperationId>,
    earlier: OperationId,
    later: OperationId,
) -> bool {
    exists|i: int, j: int|
        0 <= i < j < order.len() && #[trigger] order[i] == earlier && #[trigger] order[j] == later
}

// ---------------------------------------------------------------- the order

/// Whether an operation is one of its block.
pub open spec fn is_placed(m: ModuleView, op: OperationId) -> bool {
    &&& m.has_op(op)
    &&& m.op(op).parent matches Some(block) && m.block(block).ops.contains(op)
}

/// What a walk visited before it came to a position: whatever stands earlier in
/// the same block, and the operation that holds what is there.
spec fn visited(m: ModuleView, w: Seq<OperationId>, j: int, region: RegionId) -> bool {
    &&& is_placed(m, w[j])
    &&& forall|p: OperationId|
        !m.op(p).erased && #[trigger] stands_before(m, p, w[j]) ==> exists|i: int|
            0 <= i < j && #[trigger] w[i] == p
    &&& m.region_of(w[j]) == Some(region) || (m.parent_op(w[j]) matches Some(owner) && exists|
        i: int,
    | 0 <= i < j && #[trigger] w[i] == owner)
}

proof fn visited_after(
    m: ModuleView,
    before: Seq<OperationId>,
    w: Seq<OperationId>,
    rest: Seq<OperationId>,
    j: int,
    region: RegionId,
)
    requires
        0 <= j < w.len(),
        visited(m, w, j, region),
    ensures
        visited(m, before + w + rest, before.len() + j, region),
{
    let all = before + w + rest;
    let n = before.len() as int;
    assert(all[n + j] == w[j]);
    assert forall|p: OperationId|
        !m.op(p).erased && #[trigger] stands_before(m, p, all[n + j]) implies exists|i: int|
        0 <= i < n + j && #[trigger] all[i] == p by {
        let i = choose|i: int| 0 <= i < j && #[trigger] w[i] == p;
        assert(all[n + i] == p);
    }
    if m.region_of(w[j]) != Some(region) {
        let owner = m.parent_op(w[j])->0;
        let i = choose|i: int| 0 <= i < j && #[trigger] w[i] == owner;
        assert(all[n + i] == owner);
    }
}

/// The operations of a block are visited in order. `done` is what was visited of
/// the block before.
proof fn ops_in_order(
    m: ModuleView,
    block: BlockId,
    i: int,
    fuel: nat,
    done: Seq<OperationId>,
    j: int,
)
    requires
        m.in_bounds(),
        m.has_block(block),
        0 <= i,
        0 <= j < m.walk_ops(m.block(block).ops, i, fuel).len(),
        forall|k: int|
            0 <= k < i && k < m.block(block).ops.len() && !m.op(#[trigger] m.block(block).ops[k]).erased
                ==> done.contains(m.block(block).ops[k]),
    ensures
        visited(
            m,
            done + m.walk_ops(m.block(block).ops, i, fuel),
            done.len() + j,
            m.block(block).parent,
        ),
    decreases fuel, 1int, m.block(block).ops.len() - i,
{
    let ops = m.block(block).ops;
    let w = m.walk_ops(ops, i, fuel);
    let op = ops[i];
    assert(m.block_in_bounds(m.blocks[block.spec_index()]));
    assert(m.blocks[block.spec_index()].id == BlockId::at(block.spec_index()));
    assert(m.has_op(ops[i]));
    assert(m.op(ops[i]).parent == Some(block));
    if m.op(op).erased {
        ops_in_order(m, block, i + 1, fuel, done, j);
    } else {
        assert(m.op_in_bounds(m.ops[op.spec_index()]));
        let regions = m.op(op).regions;
        let nested = m.walk_regions(regions, 0, fuel);
        let rest = m.walk_ops(ops, i + 1, fuel);
        let all = done + w;
        let n = done.len() as int;
        assert(w == seq![op] + nested + rest);
        if j == 0 {
            assert(all[n] == op);
            assert forall|p: OperationId| !m.op(p).erased && #[trigger] stands_before(
                m,
                p,
                all[n],
            ) implies exists|k: int| 0 <= k < n && #[trigger] all[k] == p by {
                let (a, b) = choose|a: int, b: int|
                    0 <= a < b < ops.len() && #[trigger] ops[a] == p && #[trigger] ops[b] == op;
                assert(b == i);
                assert(done.contains(ops[a]));
                let k = choose|k: int| 0 <= k < done.len() && done[k] == p;
                assert(all[k] == p);
            }
            assert(m.region_of(op) == Some(m.block(block).parent));
        } else if j < 1 + nested.len() {
            regions_in_order(m, op, 0, fuel, j - 1);
            let k = j - 1;
            let before = done + seq![op];
            assert(all =~= before + nested + rest);
            assert(all[n + j] == nested[k]);
            assert forall|p: OperationId| !m.op(p).erased && #[trigger] stands_before(
                m,
                p,
                all[n + j],
            ) implies exists|q: int| 0 <= q < n + j && #[trigger] all[q] == p by {
                let q = choose|q: int| 0 <= q < k && #[trigger] nested[q] == p;
                assert(all[n + 1 + q] == p);
            }
            let owner = m.parent_op(nested[k])->0;
            if owner == op {
                assert(all[n] == owner);
            } else {
                let q = choose|q: int| 0 <= q < k && #[trigger] nested[q] == owner;
                assert(all[n + 1 + q] == owner);
            }
        } else {
            let more = done + seq![op] + nested;
            assert forall|k: int|
                0 <= k < i + 1 && k < ops.len() && !m.op(#[trigger] ops[k]).erased implies more.contains(
                ops[k],
            ) by {
                if k < i {
                    assert(done.contains(ops[k]));
                    let q = choose|q: int| 0 <= q < done.len() && done[q] == ops[k];
                    assert(more[q] == ops[k]);
                } else {
                    assert(more[n] == op);
                }
            }
            ops_in_order(m, block, i + 1, fuel, more, j - 1 - nested.len());
            assert(all =~= more + rest);
            assert(more.len() + (j - 1 - nested.len()) == n + j);
        }
    }
}

/// What is nested in an operation is visited in order, and belongs to it.
proof fn regions_in_order(m: ModuleView, op: OperationId, i: int, fuel: nat, j: int)
    requires
        m.in_bounds(),
        m.has_op(op),
        0 <= i,
        0 <= j < m.walk_regions(m.op(op).regions, i, fuel).len(),
    ensures
        ({
            let w = m.walk_regions(m.op(op).regions, i, fuel);
            &&& forall|p: OperationId|
                !m.op(p).erased && #[trigger] stands_before(m, p, w[j]) ==> exists|k: int|
                    0 <= k < j && #[trigger] w[k] == p
            &&& m.parent_op(w[j]) matches Some(owner) && (owner == op || exists|k: int|
                0 <= k < j && #[trigger] w[k] == owner)
            &&& is_placed(m, w[j])
        }),
    decreases fuel, 0int, m.op(op).regions.len() - i,
{
    let regions = m.op(op).regions;
    let w = m.walk_regions(regions, i, fuel);
    let r = regions[i];
    assert(m.op_in_bounds(m.ops[op.spec_index()]));
    assert(m.ops[op.spec_index()].id == OperationId::at(op.spec_index()));
    assert(m.has_region(regions[i]));
    assert(m.region(r).parent == Some(m.op(op).id));
    let first = m.walk_blocks(m.region(r).blocks, 0, (fuel - 1) as nat);
    let rest = m.walk_regions(regions, i + 1, fuel);
    assert(w == first + rest);
    if j < first.len() {
        blocks_in_order(m, r, 0, (fuel - 1) as nat, j);
        assert(w[j] == first[j]);
        assert forall|p: OperationId| !m.op(p).erased && #[trigger] stands_before(
            m,
            p,
            w[j],
        ) implies exists|k: int| 0 <= k < j && #[trigger] w[k] == p by {
            let k = choose|k: int| 0 <= k < j && #[trigger] first[k] == p;
            assert(w[k] == p);
        }
        if m.region_of(first[j]) == Some(r) {
            assert(m.parent_op(w[j]) == Some(op));
        } else {
            let owner = m.parent_op(first[j])->0;
            let k = choose|k: int| 0 <= k < j && #[trigger] first[k] == owner;
            assert(w[k] == owner);
        }
    } else {
        let q = j - first.len();
        regions_in_order(m, op, i + 1, fuel, q);
        assert(w[j] == rest[q]);
        assert forall|p: OperationId| !m.op(p).erased && #[trigger] stands_before(
            m,
            p,
            w[j],
        ) implies exists|k: int| 0 <= k < j && #[trigger] w[k] == p by {
            let k = choose|k: int| 0 <= k < q && #[trigger] rest[k] == p;
            assert(w[first.len() + k] == p);
        }
        let owner = m.parent_op(rest[q])->0;
        if owner != op {
            let k = choose|k: int| 0 <= k < q && #[trigger] rest[k] == owner;
            assert(w[first.len() + k] == owner);
        }
    }
}

/// The blocks of a region are visited in order.
proof fn blocks_in_order(m: ModuleView, region: RegionId, i: int, fuel: nat, j: int)
    requires
        m.in_bounds(),
        m.has_region(region),
        0 <= i,
        0 <= j < m.walk_blocks(m.region(region).blocks, i, fuel).len(),
    ensures
        visited(m, m.walk_blocks(m.region(region).blocks, i, fuel), j, region),
    decreases fuel, 2int, m.region(region).blocks.len() - i,
{
    let blocks = m.region(region).blocks;
    let w = m.walk_blocks(blocks, i, fuel);
    let block = blocks[i];
    let r = region.spec_index();
    assert(m.region_in_bounds(m.regions[r]));
    assert(m.regions[r].id == RegionId::at(r));
    assert(m.has_block(blocks[i]));
    assert(m.block(block).parent == region);
    let none = Seq::<OperationId>::empty();
    let first = m.walk_ops(m.block(block).ops, 0, fuel);
    let rest = m.walk_blocks(blocks, i + 1, fuel);
    assert(w == first + rest);
    if j < first.len() {
        ops_in_order(m, block, 0, fuel, none, j);
        assert(none + first =~= first);
        visited_after(m, none, first, rest, j, region);
        assert(none + first + rest =~= w);
    } else {
        blocks_in_order(m, region, i + 1, fuel, j - first.len());
        visited_after(m, first, rest, none, j - first.len(), region);
        assert(first + rest + none =~= w);
    }
}

/// Whatever certainly ran before an operation of a program comes before it in
/// the program.
proof fn held_in_order(
    m: ModuleView,
    j: int,
    earlier: OperationId,
    outer: OperationId,
    depth: nat,
) -> (i: int)
    requires
        m.in_bounds(),
        0 <= j < m.program_order(m.body).len(),
        !m.op(earlier).erased,
        holds(m, outer, m.program_order(m.body)[j], depth),
        stands_before(m, earlier, outer),
    ensures
        0 <= i < j,
        m.program_order(m.body)[i] == earlier,
    decreases depth,
{
    let order = m.program_order(m.body);
    let op = order[j];
    blocks_in_order(m, m.body, 0, m.regions.len(), j);
    if outer == op {
        choose|i: int| 0 <= i < j && #[trigger] order[i] == earlier
    } else {
        let owner = m.parent_op(op)->0;
        if m.region_of(op) == Some(m.body) {
            assert(m.parent_op(op) is None);
        }
        let k = choose|k: int| 0 <= k < j && #[trigger] order[k] == owner;
        held_in_order(m, k, earlier, outer, (depth - 1) as nat)
    }
}

/// Every operation of a program stands in a block.
pub proof fn programs_are_placed(m: ModuleView, op: OperationId)
    requires
        m.in_bounds(),
        m.program_order(m.body).contains(op),
    ensures
        is_placed(m, op),
{
    let order = m.program_order(m.body);
    let at = choose|at: int| 0 <= at < order.len() && order[at] == op;
    blocks_in_order(m, m.body, 0, m.regions.len(), at);
}

/// Whatever certainly ran before an operation of a program comes before it in
/// the program.
pub proof fn what_ran_before_comes_before(m: ModuleView, earlier: OperationId, op: OperationId)
    requires
        m.in_bounds(),
        m.program_order(m.body).contains(op),
        ran_before(m, earlier, op),
    ensures
        comes_before(m.program_order(m.body), earlier, op),
{
    let order = m.program_order(m.body);
    let j = choose|j: int| 0 <= j < order.len() && order[j] == op;
    let (outer, depth) = choose|outer: OperationId, depth: nat|
        #[trigger] holds(m, outer, op, depth) && stands_before(m, earlier, outer);
    let i = held_in_order(m, j, earlier, outer, depth);
    assert(order[i] == earlier && order[j] == op);
}

// ------------------------------------------------------------ what precedes

/// The operations before a position of a block.
proof fn taken_stand_before(m: ModuleView, op: OperationId, p: OperationId)
    requires
        m.in_bounds(),
        m.has_op(op),
        m.op(op).parent is Some,
        m.position(op) is Some,
    ensures
        m.live(m.block(m.op(op).parent->0).ops.take(m.position(op)->0)).contains(p) <==> !m.op(
            p,
        ).erased && stands_before(m, p, op),
{
    let block = m.op(op).parent->0;
    let ops = m.block(block).ops;
    let at = m.position(op)->0;
    let head = ops.take(at);
    let live = |x: OperationId| !m.op(x).erased;
    lemma_position_valid(ops, op, 0);
    assert(m.op_in_bounds(m.ops[op.spec_index()]));
    assert(m.block_in_bounds(m.blocks[block.spec_index()]));
    if m.live(head).contains(p) {
        let k = choose|k: int| 0 <= k < m.live(head).len() && m.live(head)[k] == p;
        lemma_filter_member(head, live, k);
        let i = choose|i: int| 0 <= i < head.len() && head[i] == head.filter(live)[k] && live(
            head[i],
        );
        assert(ops[i] == p && ops[at] == op);
    }
    if !m.op(p).erased && stands_before(m, p, op) {
        let (i, j) = choose|i: int, j: int|
            0 <= i < j < ops.len() && #[trigger] ops[i] == p && #[trigger] ops[j] == op;
        assert(j == at);
        assert(head[i] == p);
        lemma_filter_index(head, live, i);
    }
}

/// What precedes an operation, block by block.
proof fn preceding_is_built(m: ModuleView, first: Frame, chain: Seq<Frame>, n: int)
    requires
        0 <= n <= chain.len(),
    ensures
        preceding_within(m, seq![first] + chain, n + 1) == preceding_within(m, seq![first], 1)
            + preceding_within(m, chain, n),
    decreases n,
{
    let all = seq![first] + chain;
    if n > 0 {
        preceding_is_built(m, first, chain, n - 1);
        assert(all[n] == chain[n - 1]);
        let a = preceding_within(m, seq![first], 1);
        let b = preceding_within(m, chain, n - 1);
        let c = m.live(m.block(chain[n - 1].block).ops.take(chain[n - 1].position as int));
        assert(a + b + c =~= a + (b + c));
    } else {
        assert(all[0] == seq![first][0]);
        assert(preceding_within(m, all, 0) == preceding_within(m, seq![first], 0));
        assert(preceding_within(m, seq![first], 1) + preceding_within(m, chain, 0)
            =~= preceding_within(m, seq![first], 1));
    }
}

/// An operation of a list has a position in it.
proof fn placed_has_position(ops: Seq<OperationId>, op: OperationId, from: int)
    requires
        0 <= from,
        exists|i: int| from <= i < ops.len() && ops[i] == op,
    ensures
        crate::dominance::position_from(ops, op, from) is Some,
    decreases ops.len() - from,
{
    let i = choose|i: int| from <= i < ops.len() && ops[i] == op;
    if ops[from] != op {
        assert(from + 1 <= i);
        placed_has_position(ops, op, from + 1);
    }
}

/// What precedes an operation in the blocks of a chain of a given length.
proof fn chain_precedes(m: ModuleView, levels: Seq<nat>, op: OperationId, fuel: nat, p: OperationId)
    requires
        m.in_bounds(),
        m.leveled(levels),
        m.program_order(m.body).contains(op),
        m.region_of(op) matches Some(r) ==> fuel > levels[r.spec_index()] + 1,
        fuel > 0,
    ensures
        preceding_within(m, m.chain(op, fuel), m.chain(op, fuel).len() as int).contains(p)
            ==> ran_before(m, p, op),
        forall|outer: OperationId, depth: nat|
            !m.op(p).erased && #[trigger] holds(m, outer, op, depth) && stands_before(m, p, outer)
                ==> preceding_within(m, m.chain(op, fuel), m.chain(op, fuel).len() as int).contains(
                p,
            ),
    decreases fuel,
{
    let chain = m.chain(op, fuel);
    let all = preceding_within(m, chain, chain.len() as int);
    let order = m.program_order(m.body);
    let at = choose|at: int| 0 <= at < order.len() && order[at] == op;
    blocks_in_order(m, m.body, 0, m.regions.len(), at);
    placed_has_position(m.block(m.op(op).parent->0).ops, op, 0);
    assert(m.op_in_bounds(m.ops[op.spec_index()]));
    match (m.op(op).parent, m.position(op)) {
        (Some(block), Some(position)) => {
            let ops = m.block(block).ops;
            assert(m.block_in_bounds(m.blocks[block.spec_index()]));
            lemma_position_valid(ops, op, 0);
            crate::dominance::lemma_distinct_bounded(m, ops);
            let first = Frame { block, position: position as usize };
            assert(first.position == position);
            let here = m.live(ops.take(position));
            taken_stand_before(m, op, p);
            assert(preceding_within(m, seq![first], 0) =~= Seq::empty());
            assert(preceding_within(m, seq![first], 1) =~= here);
            let outward = m.parent_op(op);
            let r = m.block(block).parent;
            assert(m.region_in_bounds(m.regions[r.spec_index()]));
            assert(m.inside_owner(levels, m.regions[r.spec_index()]));
            assert(m.regions[r.spec_index()].id == RegionId::at(r.spec_index()));
            match outward {
                Some(owner) => {
                    let rest = m.chain(owner, (fuel - 1) as nat);
                    assert(m.region_of(op) != Some(m.body));
                    let up = choose|up: int| 0 <= up < at && #[trigger] order[up] == owner;
                    assert(order.contains(owner));
                    blocks_in_order(m, m.body, 0, m.regions.len(), up);
                    chain_precedes(m, levels, owner, (fuel - 1) as nat, p);
                    preceding_is_built(m, first, rest, rest.len() as int);
                    let beyond = preceding_within(m, rest, rest.len() as int);
                    assert(all == here + beyond);
                    if all.contains(p) {
                        let k = choose|k: int| 0 <= k < all.len() && all[k] == p;
                        if k < here.len() {
                            assert(here.contains(here[k]));
                            assert(holds(m, op, op, 0));
                        } else {
                            assert(beyond.contains(beyond[k - here.len()]));
                            let (outer, depth) = choose|outer: OperationId, depth: nat|
                                #[trigger] holds(m, outer, owner, depth) && stands_before(
                                    m,
                                    p,
                                    outer,
                                );
                            assert(holds(m, outer, op, depth + 1));
                        }
                    }
                    assert forall|outer: OperationId, depth: nat|
                        !m.op(p).erased && #[trigger] holds(m, outer, op, depth) && stands_before(
                            m,
                            p,
                            outer,
                        ) implies all.contains(p) by {
                        if outer == op {
                            let k = choose|k: int| 0 <= k < here.len() && here[k] == p;
                            assert(all[k] == p);
                        } else {
                            assert(holds(m, outer, owner, (depth - 1) as nat));
                            let k = choose|k: int| 0 <= k < beyond.len() && beyond[k] == p;
                            assert(all[here.len() + k] == p);
                        }
                    }
                },
                None => {
                    assert(chain =~= seq![first]);
                    if all.contains(p) {
                        assert(holds(m, op, op, 0));
                    }
                    assert forall|outer: OperationId, depth: nat|
                        !m.op(p).erased && #[trigger] holds(m, outer, op, depth) && stands_before(
                            m,
                            p,
                            outer,
                        ) implies all.contains(p) by {
                        assert(outer == op);
                    }
                },
            }
        },
        _ => {},
    }
}

/// What counts as preceding an operation of a program is exactly what certainly
/// ran before it: the live operations that stand before it, or before an
/// operation that holds it, in the same block.
pub proof fn preceding_is_what_ran_before(m: ModuleView, p: OperationId, op: OperationId)
    requires
        m.well_formed(),
        m.program_order(m.body).contains(op),
    ensures
        preceding(m, op).contains(p) <==> ran_before(m, p, op),
{
    let levels = choose|levels: Seq<nat>| m.leveled(levels);
    let order = m.program_order(m.body);
    let at = choose|at: int| 0 <= at < order.len() && order[at] == op;
    crate::traversal::walks_are_live(m, m.body);
    assert(m.has_op(order[at]));
    assert(m.op_in_bounds(m.ops[op.spec_index()]));
    if let Some(block) = m.op(op).parent {
        assert(m.block_in_bounds(m.blocks[block.spec_index()]));
        assert(levels[m.block(block).parent.spec_index()] < m.regions.len());
    }
    chain_precedes(m, levels, op, m.regions.len() + 1, p);
}

/// Whatever counts as preceding an operation comes strictly before it in the
/// program.
pub proof fn preceding_comes_first(m: ModuleView, p: OperationId, op: OperationId)
    requires
        m.well_formed(),
        m.program_order(m.body).contains(op),
        preceding(m, op).contains(p),
    ensures
        comes_before(m.program_order(m.body), p, op),
{
    preceding_is_what_ran_before(m, p, op);
    what_ran_before_comes_before(m, p, op);
}

/// Whether an operation checks, by name, a capability of the agent that covers
/// an effect and is approved where it is gated.
pub open spec fn names_a_capability(m: ModuleView, checker: OperationId, effect: EffectView) -> bool {
    let o = m.op(checker);
    &&& o.name.dialect == "agent"@ && o.name.name == "verify"@
    &&& o.str_attr("capability"@) matches Some(name) && exists|i: int|
        0 <= i < m.capabilities.capabilities.len() && {
            let (held, c) = #[trigger] m.capabilities.capabilities[i];
            &&& held == name
            &&& c.covers(effect)
            &&& c.requires_approval ==> m.capabilities.approvals.contains(name)
        }
}

/// Every irreversible operation of an accepted program is guarded: an
/// `agent.verify` of a capability that covers its effect certainly ran before
/// it, and so comes before it in the program.
pub proof fn accepted_irreversible_operations_are_guarded(
    m: ModuleView,
    registry: Seq<SignatureView>,
    table: Seq<Seq<EffectView>>,
    threshold: Number,
    j: int,
)
    requires
        m.well_formed(),
        !rejects(all_findings(m, registry, table, threshold)),
        0 <= j < m.program_order(m.body).len(),
        m.op(m.program_order(m.body)[j]).effect is Irreversible,
    ensures
        exists|guard: OperationId|
            #[trigger] ran_before(m, guard, m.program_order(m.body)[j]) && names_a_capability(
                m,
                guard,
                m.op(m.program_order(m.body)[j]).effect,
            ) && comes_before(m.program_order(m.body), guard, m.program_order(m.body)[j]),
{
    let order = m.program_order(m.body);
    let op = order[j];
    accepted_programs_keep_the_invariants(m, registry, table, threshold, j);
    crate::traversal::walks_are_live(m, m.body);
    assert(m.has_op(order[j]));
    assert(m.ops[op.spec_index()].id == OperationId::at(op.spec_index()));
    assert(m.op(op).id == op);
    let before = preceding(m, op);
    let k = choose|k: int|
        0 <= k < before.len() && crate::rules::checks(m, #[trigger] before[k], m.op(op).effect);
    let guard = before[k];
    assert(order.contains(op));
    assert(before.contains(guard));
    preceding_is_what_ran_before(m, guard, op);
    what_ran_before_comes_before(m, guard, op);
    checking_names_a_capability(m, guard, m.op(op).effect);
}

/// A check is one that names a capability; where the capabilities are in the
/// order of their names, the two are the same.
pub proof fn checking_names_a_capability(m: ModuleView, checker: OperationId, effect: EffectView)
    ensures
        crate::rules::checks(m, checker, effect) ==> names_a_capability(m, checker, effect),
        m.capabilities.well_formed() && names_a_capability(m, checker, effect)
            ==> crate::rules::checks(m, checker, effect),
{
    let list = m.capabilities.capabilities;
    if let Some(name) = m.op(checker).str_attr("capability"@) {
        if crate::rules::checks(m, checker, effect) {
            let i = crate::assoc::slot(crate::assoc::keys(list), name) as int;
            assert(list[i].0 == name);
        }
        if m.capabilities.well_formed() && names_a_capability(m, checker, effect) {
            let i = choose|i: int|
                0 <= i < list.len() && {
                    let (held, c) = #[trigger] list[i];
                    &&& held == name
                    &&& c.covers(effect)
                    &&& c.requires_approval ==> m.capabilities.approvals.contains(name)
                };
            crate::assoc::sorted_lookup_finds(list, i);
        }
    }
}

/// Every guess of low confidence that an operation of an accepted program hands
/// to the outside was checked: an `agent.verify` of that very value certainly
/// ran before it, and so comes before it in the program.
pub proof fn accepted_guesses_are_checked(
    m: ModuleView,
    registry: Seq<SignatureView>,
    table: Seq<Seq<EffectView>>,
    threshold: Number,
    j: int,
    k: int,
)
    requires
        m.well_formed(),
        !rejects(all_findings(m, registry, table, threshold)),
        0 <= j < m.program_order(m.body).len(),
        !is_pure(table, m.program_order(m.body)[j]),
        0 <= k < m.op(m.program_order(m.body)[j]).operands.len(),
        m.value(m.op(m.program_order(m.body)[j]).operands[k]).provenance.unverified(threshold),
    ensures
        exists|check: OperationId|
            #[trigger] ran_before(m, check, m.program_order(m.body)[j]) && m.op(check).name.dialect
                == "agent"@ && m.op(check).name.name == "verify"@ && m.op(check).operands.contains(
                m.op(m.program_order(m.body)[j]).operands[k],
            ) && comes_before(m.program_order(m.body), check, m.program_order(m.body)[j]),
{
    let order = m.program_order(m.body);
    let op = order[j];
    accepted_programs_keep_the_invariants(m, registry, table, threshold, j);
    crate::traversal::walks_are_live(m, m.body);
    assert(m.has_op(order[j]));
    assert(m.ops[op.spec_index()].id == OperationId::at(op.spec_index()));
    let value = m.op(op).operands[k];
    assert(keeps_the_invariants(m, registry, table, threshold, m.op(op)));
    let before = preceding(m, op);
    let n = choose|n: int|
        0 <= n < before.len() && m.op(#[trigger] before[n]).name.is("agent"@, "verify"@) && m.op(
            before[n],
        ).operands.contains(value);
    let check = before[n];
    assert(order.contains(op));
    assert(before.contains(check));
    preceding_is_what_ran_before(m, check, op);
    what_ran_before_comes_before(m, check, op);
}

// ------------------------------------------------------------ what dominates

/// Whether an operation runs inside a block: it stands in it, or an operation
/// that holds it does.
pub open spec fn runs_inside(m: ModuleView, op: OperationId, block: BlockId) -> bool {
    exists|outer: OperationId, depth: nat|
        #[trigger] holds(m, outer, op, depth) && m.op(outer).parent == Some(block)
}

/// Whether a value certainly has been produced when an operation runs: the
/// argument of a block that the operation runs inside of, or the result of an
/// operation that ran before it.
pub open spec fn is_produced_before(m: ModuleView, value: ValueId, op: OperationId) -> bool {
    match m.value(value).def {
        ValueDef::BlockArg { block, .. } => runs_inside(m, op, block),
        ValueDef::OpResult { op: producer, .. } => ran_before(m, producer, op),
    }
}

/// The frame of a longer chain is that of the shorter one.
proof fn frame_further(first: Frame, rest: Seq<Frame>, block: BlockId, i: int)
    requires
        0 <= i <= rest.len(),
    ensures
        frame_of(seq![first] + rest, block, i + 1) == frame_of(rest, block, i),
    decreases rest.len() - i,
{
    let all = seq![first] + rest;
    if i < rest.len() {
        assert(all[i + 1] == rest[i]);
        frame_further(first, rest, block, i + 1);
    }
}

/// The frames of a chain are the places of the operations that hold the one it
/// is of.
proof fn chain_places(m: ModuleView, levels: Seq<nat>, op: OperationId, fuel: nat, block: BlockId)
    requires
        m.in_bounds(),
        m.leveled(levels),
        m.program_order(m.body).contains(op),
        m.region_of(op) matches Some(r) ==> fuel > levels[r.spec_index()] + 1,
        fuel > 0,
    ensures
        frame_of(m.chain(op, fuel), block, 0) matches Some(f) ==> exists|
            outer: OperationId,
            depth: nat,
        |
            #[trigger] holds(m, outer, op, depth) && m.op(outer).parent == Some(block)
                && m.position(outer) == Some(f.position as int) && m.program_order(
                m.body,
            ).contains(outer),
        forall|outer: OperationId, depth: nat| #[trigger]
            holds(m, outer, op, depth) ==> {
                &&& m.program_order(m.body).contains(outer)
                &&& m.op(outer).parent == Some(block) ==> (frame_of(
                    m.chain(op, fuel),
                    block,
                    0,
                ) matches Some(f) && m.position(outer) == Some(f.position as int))
                &&& outer != op && m.region_of(outer) is Some && m.region_of(op) is Some
                    ==> levels[m.region_of(outer)->0.spec_index()] < levels[m.region_of(
                    op,
                )->0.spec_index()]
            },
    decreases fuel,
{
    let chain = m.chain(op, fuel);
    let order = m.program_order(m.body);
    let at = choose|at: int| 0 <= at < order.len() && order[at] == op;
    blocks_in_order(m, m.body, 0, m.regions.len(), at);
    placed_has_position(m.block(m.op(op).parent->0).ops, op, 0);
    assert(m.op_in_bounds(m.ops[op.spec_index()]));
    let own = m.op(op).parent->0;
    let position = m.position(op)->0;
    let ops = m.block(own).ops;
    assert(m.block_in_bounds(m.blocks[own.spec_index()]));
    lemma_position_valid(ops, op, 0);
    crate::dominance::lemma_distinct_bounded(m, ops);
    let first = Frame { block: own, position: position as usize };
    assert(first.position == position);
    let r = m.block(own).parent;
    assert(m.region_in_bounds(m.regions[r.spec_index()]));
    assert(m.inside_owner(levels, m.regions[r.spec_index()]));
    assert(m.regions[r.spec_index()].id == RegionId::at(r.spec_index()));
    assert(m.region_of(op) == Some(r));
    match m.parent_op(op) {
        Some(owner) => {
            let rest = m.chain(owner, (fuel - 1) as nat);
            assert(m.region_of(op) != Some(m.body));
            let up = choose|up: int| 0 <= up < at && #[trigger] order[up] == owner;
            assert(order.contains(owner));
            blocks_in_order(m, m.body, 0, m.regions.len(), up);
            chain_places(m, levels, owner, (fuel - 1) as nat, block);
            assert(chain == seq![first] + rest);
            assert(chain[0] == first);
            frame_further(first, rest, block, 0);
            if let Some(f) = frame_of(chain, block, 0) {
                if own == block {
                    assert(holds(m, op, op, 0));
                } else {
                    let (outer, depth) = choose|outer: OperationId, depth: nat|
                        #[trigger] holds(m, outer, owner, depth) && m.op(outer).parent == Some(
                            block,
                        ) && m.position(outer) == Some(f.position as int) && order.contains(outer);
                    assert(holds(m, outer, op, depth + 1));
                }
            }
            assert forall|outer: OperationId, depth: nat| #[trigger]
                holds(m, outer, op, depth) implies {
                &&& order.contains(outer)
                &&& m.op(outer).parent == Some(block) ==> (frame_of(chain, block, 0) matches Some(f)
                    && m.position(outer) == Some(f.position as int))
                &&& outer != op && m.region_of(outer) is Some && m.region_of(op) is Some
                    ==> levels[m.region_of(outer)->0.spec_index()] < levels[m.region_of(
                    op,
                )->0.spec_index()]
            } by {
                if outer != op {
                    assert(holds(m, outer, owner, (depth - 1) as nat));
                    assert(m.region_of(owner) is Some);
                    if m.op(outer).parent == Some(block) && own == block {
                        assert(m.region_of(outer) == Some(r));
                        assert(false);
                    }
                }
            }
        },
        None => {
            assert(chain =~= seq![first]);
            assert(chain[0] == first);
            assert(frame_of(chain, block, 1) is None);
            assert(holds(m, op, op, 0));
        },
    }
}

/// A value dominates an operation of a program exactly when it certainly has
/// been produced by the time the operation runs.
pub proof fn dominating_is_produced_before(m: ModuleView, value: ValueId, op: OperationId)
    requires
        m.well_formed(),
        m.has_value(value),
        m.program_order(m.body).contains(op),
    ensures
        m.dominates(value, op) <==> is_produced_before(m, value, op),
{
    let levels = choose|levels: Seq<nat>| m.leveled(levels);
    let order = m.program_order(m.body);
    let at = choose|at: int| 0 <= at < order.len() && order[at] == op;
    crate::traversal::walks_are_live(m, m.body);
    assert(m.has_op(order[at]));
    assert(m.op_in_bounds(m.ops[op.spec_index()]));
    if let Some(block) = m.op(op).parent {
        assert(m.block_in_bounds(m.blocks[block.spec_index()]));
        assert(levels[m.block(block).parent.spec_index()] < m.regions.len());
    }
    let fuel = m.regions.len() + 1;
    let chain = m.enclosing(op);
    match m.value(value).def {
        ValueDef::BlockArg { block, .. } => {
            chain_places(m, levels, op, fuel, block);
        },
        ValueDef::OpResult { op: producer, .. } => {
            if m.dominates(value, op) {
                let block = m.op(producer).parent->0;
                let ops = m.block(block).ops;
                chain_places(m, levels, op, fuel, block);
                let f = frame_of(chain, block, 0)->0;
                let (outer, depth) = choose|outer: OperationId, depth: nat|
                    #[trigger] holds(m, outer, op, depth) && m.op(outer).parent == Some(block)
                        && m.position(outer) == Some(f.position as int) && order.contains(outer);
                lemma_position_valid(ops, producer, 0);
                lemma_position_valid(ops, outer, 0);
                let i = m.position(producer)->0;
                assert(ops[i] == producer && ops[f.position as int] == outer);
                assert(stands_before(m, producer, outer));
            }
            if ran_before(m, producer, op) {
                let (outer, depth) = choose|outer: OperationId, depth: nat|
                    #[trigger] holds(m, outer, op, depth) && stands_before(m, producer, outer);
                let block = m.op(outer).parent->0;
                chain_places(m, levels, op, fuel, block);
                let ops = m.block(block).ops;
                let k = choose|k: int| 0 <= k < order.len() && order[k] == outer;
                assert(m.has_op(order[k]));
                assert(m.op_in_bounds(m.ops[outer.spec_index()]));
                assert(m.block_in_bounds(m.blocks[block.spec_index()]));
                let (i, j) = choose|i: int, j: int|
                    0 <= i < j < ops.len() && #[trigger] ops[i] == producer && #[trigger] ops[j]
                        == outer;
                assert(m.has_op(ops[i]));
                assert(m.op(ops[i]).parent == Some(block));
                placed_has_position(ops, producer, 0);
                lemma_position_valid(ops, producer, 0);
                lemma_position_valid(ops, outer, 0);
                let f = frame_of(chain, block, 0)->0;
                assert(ops[m.position(producer)->0] == ops[i]);
                assert(ops[f.position as int] == ops[j]);
            }
        },
    }
}

} // verus!
