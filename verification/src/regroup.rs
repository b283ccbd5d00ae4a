//! Program order when adjacent operations get a region of their own.
//!
//! Putting a run of operations into the region of a new operation, at the place
//! where the run stood, leaves the order of every operation of the program as
//! it was: the new operation and what closes its region come in between.

use vstd::prelude::*;

use crate::effect::EffectView;
use crate::ids::{BlockId, OperationId, RegionId};
use crate::module::{ModuleView, OperationView};

verus! {

/// Whether an operation is one of the first `n` of a module.
pub open spec fn among_first(n: nat) -> spec_fn(OperationId) -> bool {
    |op: OperationId| op.spec_index() < n
}

/// Whether the live operations of a program are live in another one, in the same
/// program order. The other one may hold more.
pub open spec fn keeps_order(a: ModuleView, b: ModuleView) -> bool {
    &&& a.ops.len() <= b.ops.len()
    &&& b.program_order(b.body).filter(among_first(a.ops.len())) == a.program_order(a.body)
}

/// Whether two operations do the same, but for what they read and where they
/// stand.
pub open spec fn same_action(a: OperationView, b: OperationView) -> bool {
    &&& a.name == b.name
    &&& a.literal == b.literal
    &&& a.attributes == b.attributes
    &&& a.effect == b.effect
    &&& a.results == b.results
}

/// Whether a module holds the operations of another one, each doing the same,
/// and whatever is new in it is pure.
pub open spec fn carries(a: ModuleView, b: ModuleView) -> bool {
    &&& a.ops.len() <= b.ops.len()
    &&& forall|i: int| 0 <= i < a.ops.len() ==> same_action(a.ops[i], #[trigger] b.ops[i])
    &&& forall|i: int|
        a.ops.len() <= i < b.ops.len() ==> (#[trigger] b.ops[i]).effect == EffectView::Pure
}

/// What is carried twice is carried.
pub proof fn carried_on(a: ModuleView, b: ModuleView, c: ModuleView)
    requires
        carries(a, b),
        carries(b, c),
    ensures
        carries(a, c),
{
    assert forall|i: int| 0 <= i < a.ops.len() implies same_action(
        a.ops[i],
        #[trigger] c.ops[i],
    ) by {
        assert(same_action(a.ops[i], b.ops[i]));
    }
    assert forall|i: int| a.ops.len() <= i < c.ops.len() implies (#[trigger] c.ops[i]).effect
        == EffectView::Pure by {
        if i < b.ops.len() {
            assert(same_action(b.ops[i], c.ops[i]));
            assert(b.ops[i].effect == EffectView::Pure);
        }
    }
}

/// A run of operations of a block, between what stands before and after it, and
/// the operation whose region it was put into.
pub ghost struct Fusion {
    /// The block the run stood in.
    pub block: BlockId,
    /// The live operations before the run.
    pub before: Seq<OperationId>,
    /// The run.
    pub group: Seq<OperationId>,
    /// The live operations after the run.
    pub after: Seq<OperationId>,
    /// The operation in whose region the run is.
    pub owner: OperationId,
    /// That region.
    pub region: RegionId,
    /// The block of that region.
    pub inner: BlockId,
    /// What follows the run in that block.
    pub closing: Seq<OperationId>,
}

/// Whether a module is another one with a run of operations put into a region.
pub open spec fn fuses(a: ModuleView, b: ModuleView, f: Fusion) -> bool {
    &&& a.body == b.body
    &&& a.ops.len() <= b.ops.len()
    &&& a.regions.len() <= b.regions.len()
    &&& a.blocks.len() <= b.blocks.len()
    &&& forall|i: int|
        0 <= i < a.ops.len() ==> (#[trigger] b.ops[i]).erased == a.ops[i].erased
            && b.ops[i].regions == a.ops[i].regions
    &&& forall|i: int|
        0 <= i < a.regions.len() ==> (#[trigger] b.regions[i]).blocks == a.regions[i].blocks
    &&& forall|i: int|
        0 <= i < a.blocks.len() && i != f.block.spec_index() ==> (#[trigger] b.blocks[i]).ops
            == a.blocks[i].ops
    &&& a.has_block(f.block)
    &&& a.live(a.block(f.block).ops) == f.before + f.group + f.after
    &&& b.live(b.block(f.block).ops) == f.before + seq![f.owner] + f.after
    &&& b.has_op(f.owner)
    &&& f.owner.spec_index() >= a.ops.len()
    &&& !b.op(f.owner).erased
    &&& b.op(f.owner).regions == seq![f.region]
    &&& b.has_region(f.region)
    &&& b.region(f.region).blocks == seq![f.inner]
    &&& b.has_block(f.inner)
    &&& b.block(f.inner).ops == f.group + f.closing
    &&& forall|k: int|
        0 <= k < f.closing.len() ==> b.has_op(#[trigger] f.closing[k])
            && f.closing[k].spec_index() >= a.ops.len() && b.op(f.closing[k]).regions.len() == 0
}

/// A filter of one element.
pub proof fn one_filtered(x: OperationId, keep: spec_fn(OperationId) -> bool)
    ensures
        seq![x].filter(keep) == if keep(x) {
            seq![x]
        } else {
            Seq::empty()
        },
{
    reveal(Seq::filter);
    assert(seq![x].drop_last() =~= Seq::empty());
    assert(Seq::<OperationId>::empty().filter(keep) =~= Seq::empty());
    assert(seq![x].filter(keep) =~= if keep(x) {
        seq![x]
    } else {
        Seq::empty()
    });
}

/// A walk over the second of two lists.
proof fn walk_shifts(m: ModuleView, x: Seq<OperationId>, y: Seq<OperationId>, j: int, fuel: nat)
    requires
        0 <= j <= y.len(),
    ensures
        m.walk_ops(x + y, x.len() + j, fuel) == m.walk_ops(y, j, fuel),
    decreases y.len() - j,
{
    if j < y.len() {
        walk_shifts(m, x, y, j + 1, fuel);
        assert((x + y)[x.len() + j] == y[j]);
    }
}

/// A walk over two lists is a walk over the one and the other.
proof fn walk_splits(m: ModuleView, x: Seq<OperationId>, y: Seq<OperationId>, i: int, fuel: nat)
    requires
        0 <= i <= x.len(),
    ensures
        m.walk_ops(x + y, i, fuel) == m.walk_ops(x, i, fuel) + m.walk_ops(y, 0, fuel),
    decreases x.len() - i,
{
    let last = m.walk_ops(y, 0, fuel);
    if i < x.len() {
        walk_splits(m, x, y, i + 1, fuel);
        assert((x + y)[i] == x[i]);
        let rest = m.walk_ops(x, i + 1, fuel);
        let here = seq![x[i]] + m.walk_regions(m.op(x[i]).regions, 0, fuel);
        assert(here + (rest + last) =~= here + rest + last);
    } else {
        walk_shifts(m, x, y, 0, fuel);
        assert(m.walk_ops(x, i, fuel) + last =~= last);
    }
}

/// A walk visits the live operations of a list only.
pub proof fn walk_of_live(m: ModuleView, ops: Seq<OperationId>, fuel: nat)
    ensures
        m.walk_ops(ops, 0, fuel) == m.walk_ops(m.live(ops), 0, fuel),
    decreases ops.len(),
{
    reveal(Seq::filter);
    if ops.len() > 0 {
        let rest = ops.drop_last();
        let last = seq![ops.last()];
        walk_of_live(m, rest, fuel);
        assert(ops =~= rest + last);
        walk_splits(m, rest, last, 0, fuel);
        if m.op(ops.last()).erased {
            assert(m.walk_ops(last, 1, fuel) =~= Seq::empty());
            assert(m.walk_ops(last, 0, fuel) =~= Seq::empty());
            assert(m.walk_ops(rest, 0, fuel) + m.walk_ops(last, 0, fuel) =~= m.walk_ops(
                rest,
                0,
                fuel,
            ));
            assert(m.live(ops) =~= m.live(rest));
        } else {
            walk_splits(m, m.live(rest), last, 0, fuel);
            assert(m.live(ops) =~= m.live(rest) + last);
        }
    }
}

/// Whether a walk is deep enough for what is nested in an operation.
spec fn reaches(m: ModuleView, levels: Seq<nat>, op: OperationId, fuel: nat) -> bool {
    forall|k: int|
        0 <= k < m.op(op).regions.len() ==> fuel >= 1 && fuel - 1 + levels[(
        #[trigger] m.op(op).regions[k]).spec_index()] >= m.regions.len()
}

/// A walk that is deep enough for a region is so for what is nested in it.
proof fn region_reaches(m: ModuleView, levels: Seq<nat>, region: RegionId, fuel: nat)
    requires
        m.in_bounds(),
        m.leveled(levels),
        m.has_region(region),
        fuel + levels[region.spec_index()] >= m.regions.len(),
    ensures
        forall|b: int, o: int|
            0 <= b < m.region(region).blocks.len() && 0 <= o < m.block(
                m.region(region).blocks[b],
            ).ops.len() ==> reaches(
                m,
                levels,
                #[trigger] m.block(m.region(region).blocks[b]).ops[o],
                fuel,
            ),
{
    let r = region.spec_index();
    assert forall|b: int, o: int|
        0 <= b < m.region(region).blocks.len() && 0 <= o < m.block(
            m.region(region).blocks[b],
        ).ops.len() implies reaches(
        m,
        levels,
        #[trigger] m.block(m.region(region).blocks[b]).ops[o],
        fuel,
    ) by {
        let op = m.block(m.region(region).blocks[b]).ops[o];
        assert(m.region_in_bounds(m.regions[r]));
        let block = m.region(region).blocks[b];
        assert(m.has_block(m.regions[r].blocks[b]));
        assert(m.block_in_bounds(m.blocks[block.spec_index()]));
        assert(m.has_op(m.block(block).ops[o]));
        assert(m.op_in_bounds(m.ops[op.spec_index()]));
        assert forall|k: int| 0 <= k < m.op(op).regions.len() implies fuel >= 1 && fuel - 1
            + levels[(#[trigger] m.op(op).regions[k]).spec_index()] >= m.regions.len() by {
            assert(m.has_child(r, b, o, k));
            assert(m.child(r, b, o, k) == m.op(op).regions[k]);
            assert(m.has_region(m.op(op).regions[k]));
            assert(levels[m.op(op).regions[k].spec_index()] < m.regions.len());
        }
    }
}

/// What is in both modules, and deep enough a walk of each.
spec fn both(
    a: ModuleView,
    la: Seq<nat>,
    b: ModuleView,
    lb: Seq<nat>,
    f: Fusion,
) -> bool {
    &&& a.in_bounds()
    &&& a.leveled(la)
    &&& b.in_bounds()
    &&& b.leveled(lb)
    &&& fuses(a, b, f)
}

/// The operations of a list come in the same order, with all that is nested in
/// them.
proof fn ops_keep(
    a: ModuleView,
    la: Seq<nat>,
    b: ModuleView,
    lb: Seq<nat>,
    f: Fusion,
    ops: Seq<OperationId>,
    i: int,
    fa: nat,
    fb: nat,
)
    requires
        both(a, la, b, lb, f),
        0 <= i,
        forall|k: int|
            0 <= k < ops.len() ==> a.has_op(#[trigger] ops[k]) && reaches(a, la, ops[k], fa)
                && reaches(b, lb, ops[k], fb),
    ensures
        b.walk_ops(ops, i, fb).filter(among_first(a.ops.len())) == a.walk_ops(ops, i, fa),
    decreases fa, 1int, ops.len() - i,
{
    let keep = among_first(a.ops.len());
    if i < ops.len() {
        let op = ops[i];
        assert(a.has_op(ops[i]));
        assert(b.ops[op.spec_index()].erased == a.ops[op.spec_index()].erased);
        ops_keep(a, la, b, lb, f, ops, i + 1, fa, fb);
        if !a.op(op).erased {
            let regions = a.op(op).regions;
            assert(b.op(op).regions == regions);
            assert(a.op_in_bounds(a.ops[op.spec_index()]));
            regions_keep(a, la, b, lb, f, regions, 0, fa, fb);
            let nested = b.walk_regions(regions, 0, fb);
            let rest = b.walk_ops(ops, i + 1, fb);
            one_filtered(op, keep);
            Seq::filter_distributes_over_add(seq![op] + nested, rest, keep);
            Seq::filter_distributes_over_add(seq![op], nested, keep);
        }
    } else {
        reveal(Seq::filter);
        assert(b.walk_ops(ops, i, fb).filter(keep) =~= Seq::empty());
    }
}

proof fn regions_keep(
    a: ModuleView,
    la: Seq<nat>,
    b: ModuleView,
    lb: Seq<nat>,
    f: Fusion,
    regions: Seq<RegionId>,
    i: int,
    fa: nat,
    fb: nat,
)
    requires
        both(a, la, b, lb, f),
        0 <= i,
        forall|k: int|
            0 <= k < regions.len() ==> a.has_region(#[trigger] regions[k]) && fa >= 1 && fb >= 1
                && fa - 1 + la[regions[k].spec_index()] >= a.regions.len() && fb - 1
                + lb[regions[k].spec_index()] >= b.regions.len(),
    ensures
        b.walk_regions(regions, i, fb).filter(among_first(a.ops.len())) == a.walk_regions(
            regions,
            i,
            fa,
        ),
    decreases fa, 0int, regions.len() - i,
{
    let keep = among_first(a.ops.len());
    if i < regions.len() {
        let r = regions[i];
        assert(a.has_region(regions[i]));
        assert(b.regions[r.spec_index()].blocks == a.regions[r.spec_index()].blocks);
        blocks_keep(a, la, b, lb, f, r, 0, (fa - 1) as nat, (fb - 1) as nat);
        regions_keep(a, la, b, lb, f, regions, i + 1, fa, fb);
        Seq::filter_distributes_over_add(
            b.walk_blocks(b.region(r).blocks, 0, (fb - 1) as nat),
            b.walk_regions(regions, i + 1, fb),
            keep,
        );
    } else {
        reveal(Seq::filter);
        assert(b.walk_regions(regions, i, fb).filter(keep) =~= Seq::empty());
    }
}

proof fn blocks_keep(
    a: ModuleView,
    la: Seq<nat>,
    b: ModuleView,
    lb: Seq<nat>,
    f: Fusion,
    region: RegionId,
    i: int,
    fa: nat,
    fb: nat,
)
    requires
        both(a, la, b, lb, f),
        0 <= i,
        a.has_region(region),
        fa + la[region.spec_index()] >= a.regions.len(),
        fb + lb[region.spec_index()] >= b.regions.len(),
    ensures
        b.walk_blocks(b.region(region).blocks, i, fb).filter(among_first(a.ops.len()))
            == a.walk_blocks(a.region(region).blocks, i, fa),
    decreases fa, 2int, a.region(region).blocks.len() - i,
{
    let keep = among_first(a.ops.len());
    let blocks = a.region(region).blocks;
    let r = region.spec_index();
    assert(b.regions[r].blocks == a.regions[r].blocks);
    if i < blocks.len() {
        let block = blocks[i];
        assert(a.region_in_bounds(a.regions[r]));
        assert(a.has_block(a.regions[r].blocks[i]));
        assert(a.block_in_bounds(a.blocks[block.spec_index()]));
        region_reaches(a, la, region, fa);
        region_reaches(b, lb, region, fb);
        blocks_keep(a, la, b, lb, f, region, i + 1, fa, fb);
        let ops = a.block(block).ops;
        if block.spec_index() == f.block.spec_index() {
            run_keeps(a, la, b, lb, f, region, i, fa, fb);
        } else {
            assert(b.blocks[block.spec_index()].ops == ops);
            assert forall|k: int| 0 <= k < ops.len() implies a.has_op(#[trigger] ops[k])
                && reaches(a, la, ops[k], fa) && reaches(b, lb, ops[k], fb) by {
                assert(a.block(a.region(region).blocks[i]).ops[k] == ops[k]);
                assert(b.block(b.region(region).blocks[i]).ops[k] == ops[k]);
            }
            ops_keep(a, la, b, lb, f, ops, 0, fa, fb);
        }
        Seq::filter_distributes_over_add(
            b.walk_ops(b.block(block).ops, 0, fb),
            b.walk_blocks(blocks, i + 1, fb),
            keep,
        );
    } else {
        reveal(Seq::filter);
        assert(b.walk_blocks(blocks, i, fb).filter(keep) =~= Seq::empty());
    }
}

/// An operation that is live in a block is one of its operations.
proof fn live_is_listed(m: ModuleView, ops: Seq<OperationId>, k: int) -> (at: int)
    requires
        0 <= k < m.live(ops).len(),
    ensures
        0 <= at < ops.len(),
        ops[at] == m.live(ops)[k],
{
    let keep = |op: OperationId| !m.op(op).erased;
    crate::printer::lemma_filter_member(ops, keep, k);
    choose|at: int| 0 <= at < ops.len() && ops[at] == ops.filter(keep)[k] && keep(ops[at])
}

/// The block in which the run stood is walked in the same order.
proof fn run_keeps(
    a: ModuleView,
    la: Seq<nat>,
    b: ModuleView,
    lb: Seq<nat>,
    f: Fusion,
    region: RegionId,
    i: int,
    fa: nat,
    fb: nat,
)
    requires
        both(a, la, b, lb, f),
        a.has_region(region),
        fa + la[region.spec_index()] >= a.regions.len(),
        fb + lb[region.spec_index()] >= b.regions.len(),
        0 <= i < a.region(region).blocks.len(),
        a.region(region).blocks[i].spec_index() == f.block.spec_index(),
    ensures
        b.walk_ops(b.block(f.block).ops, 0, fb).filter(among_first(a.ops.len())) == a.walk_ops(
            a.block(f.block).ops,
            0,
            fa,
        ),
    decreases fa, 2int, 0int,
{
    let keep = among_first(a.ops.len());
    let n = a.ops.len();
    let r = region.spec_index();
    let block = f.block;
    let old_ops = a.block(block).ops;
    let new_ops = b.block(block).ops;
    assert(b.regions[r].blocks == a.regions[r].blocks);
    assert(a.block(a.region(region).blocks[i]).ops == old_ops);
    assert(b.block(b.region(region).blocks[i]).ops == new_ops);
    assert(a.block_in_bounds(a.blocks[block.spec_index()]));
    region_reaches(a, la, region, fa);
    region_reaches(b, lb, region, fb);
    let x = f.before;
    let g = f.group;
    let y = f.after;
    let p = seq![f.owner];
    // Every operation of the block is walked deep enough in the one module.
    assert forall|k: int| 0 <= k < (x + g + y).len() implies a.has_op(#[trigger] (x + g + y)[k])
        && reaches(a, la, (x + g + y)[k], fa) by {
        let at = live_is_listed(a, old_ops, k);
        assert(a.has_op(old_ops[at]));
        assert(reaches(a, la, a.block(a.region(region).blocks[i]).ops[at], fa));
    }
    // So are those outside the run in the other.
    assert forall|k: int| 0 <= k < (x + p + y).len() implies reaches(
        b,
        lb,
        #[trigger] (x + p + y)[k],
        fb,
    ) by {
        let at = live_is_listed(b, new_ops, k);
        assert(reaches(b, lb, b.block(b.region(region).blocks[i]).ops[at], fb));
    }
    assert((x + p + y)[x.len() as int] == f.owner);
    assert(reaches(b, lb, f.owner, fb));
    assert(b.op(f.owner).regions[0] == f.region);
    let inner = (fb - 1) as nat;
    region_reaches(b, lb, f.region, inner);
    let held = b.block(f.inner).ops;
    assert(b.region(f.region).blocks[0] == f.inner);
    assert forall|k: int| 0 <= k < x.len() implies a.has_op(#[trigger] x[k]) && reaches(
        a,
        la,
        x[k],
        fa,
    ) && reaches(b, lb, x[k], fb) by {
        assert((x + g + y)[k] == x[k]);
        assert((x + p + y)[k] == x[k]);
    }
    assert forall|k: int| 0 <= k < y.len() implies a.has_op(#[trigger] y[k]) && reaches(
        a,
        la,
        y[k],
        fa,
    ) && reaches(b, lb, y[k], fb) by {
        assert((x + g + y)[x.len() + g.len() + k] == y[k]);
        assert((x + p + y)[x.len() + 1 + k] == y[k]);
    }
    assert forall|k: int| 0 <= k < g.len() implies a.has_op(#[trigger] g[k]) && reaches(
        a,
        la,
        g[k],
        fa,
    ) && reaches(b, lb, g[k], inner) by {
        assert((x + g + y)[x.len() + k] == g[k]);
        assert(held[k] == g[k]);
        assert(reaches(b, lb, b.block(b.region(f.region).blocks[0]).ops[k], inner));
    }
    ops_keep(a, la, b, lb, f, x, 0, fa, fb);
    ops_keep(a, la, b, lb, f, g, 0, fa, inner);
    ops_keep(a, la, b, lb, f, y, 0, fa, fb);
    // The one walk.
    walk_of_live(a, old_ops, fa);
    walk_splits(a, x + g, y, 0, fa);
    walk_splits(a, x, g, 0, fa);
    // The other.
    walk_of_live(b, new_ops, fb);
    walk_splits(b, x + p, y, 0, fb);
    walk_splits(b, x, p, 0, fb);
    let nested = b.walk_regions(seq![f.region], 0, fb);
    assert(b.walk_ops(p, 1, fb) =~= Seq::empty());
    assert(b.walk_ops(p, 0, fb) =~= p + nested);
    assert(b.walk_regions(seq![f.region], 1, fb) =~= Seq::empty());
    assert(nested =~= b.walk_blocks(seq![f.inner], 0, inner));
    assert(b.walk_blocks(seq![f.inner], 1, inner) =~= Seq::empty());
    assert(nested =~= b.walk_ops(held, 0, inner));
    walk_splits(b, g, f.closing, 0, inner);
    closing_is_new(a, b, f, 0, inner);
    let wx = b.walk_ops(x, 0, fb);
    let wg = b.walk_ops(g, 0, inner);
    let wc = b.walk_ops(f.closing, 0, inner);
    let wy = b.walk_ops(y, 0, fb);
    assert(nested == wg + wc);
    assert(b.walk_ops(new_ops, 0, fb) == wx + (p + (wg + wc)) + wy);
    one_filtered(f.owner, keep);
    Seq::filter_distributes_over_add(wx + (p + (wg + wc)), wy, keep);
    Seq::filter_distributes_over_add(wx, p + (wg + wc), keep);
    Seq::filter_distributes_over_add(p, wg + wc, keep);
    Seq::filter_distributes_over_add(wg, wc, keep);
    assert(p.filter(keep) + (wg.filter(keep) + wc.filter(keep)) =~= wg.filter(keep));
    assert(a.walk_ops(old_ops, 0, fa) == a.walk_ops(x, 0, fa) + a.walk_ops(g, 0, fa) + a.walk_ops(
        y,
        0,
        fa,
    ));
}

/// What closes the region of the run is new.
proof fn closing_is_new(a: ModuleView, b: ModuleView, f: Fusion, i: int, fuel: nat)
    requires
        fuses(a, b, f),
        0 <= i,
    ensures
        b.walk_ops(f.closing, i, fuel).filter(among_first(a.ops.len())) == Seq::<
            OperationId,
        >::empty(),
    decreases f.closing.len() - i,
{
    let keep = among_first(a.ops.len());
    if i < f.closing.len() {
        closing_is_new(a, b, f, i + 1, fuel);
        let op = f.closing[i];
        let nested = b.walk_regions(b.op(op).regions, 0, fuel);
        let rest = b.walk_ops(f.closing, i + 1, fuel);
        if !b.op(op).erased {
            assert(nested =~= Seq::empty());
            one_filtered(op, keep);
            assert(seq![op] + nested =~= seq![op]);
            Seq::filter_distributes_over_add(seq![op], rest, keep);
        }
    } else {
        reveal(Seq::filter);
        assert(b.walk_ops(f.closing, i, fuel).filter(keep) =~= Seq::empty());
    }
}

/// Putting a run of operations into a region leaves the program order of the
/// operations as it was, and none is lost.
pub proof fn fusing_keeps_order(a: ModuleView, b: ModuleView, f: Fusion)
    requires
        a.well_formed(),
        b.well_formed(),
        fuses(a, b, f),
    ensures
        keeps_order(a, b),
{
    let la = choose|levels: Seq<nat>| a.leveled(levels);
    let lb = choose|levels: Seq<nat>| b.leveled(levels);
    blocks_keep(a, la, b, lb, f, a.body, 0, a.regions.len(), b.regions.len());
}

/// Two filters after one another keep what both keep, in whatever order.
pub proof fn filtered_alike(
    s: Seq<OperationId>,
    p1: spec_fn(OperationId) -> bool,
    p2: spec_fn(OperationId) -> bool,
    q1: spec_fn(OperationId) -> bool,
    q2: spec_fn(OperationId) -> bool,
)
    requires
        forall|i: int|
            0 <= i < s.len() ==> (p1(#[trigger] s[i]) && p2(s[i])) == (q1(s[i]) && q2(s[i])),
    ensures
        s.filter(p1).filter(p2) == s.filter(q1).filter(q2),
    decreases s.len(),
{
    reveal(Seq::filter);
    if s.len() > 0 {
        let rest = s.drop_last();
        let last = seq![s.last()];
        assert forall|i: int| 0 <= i < rest.len() implies (p1(#[trigger] rest[i]) && p2(rest[i]))
            == (q1(rest[i]) && q2(rest[i])) by {
            assert(s[i] == rest[i]);
        }
        filtered_alike(rest, p1, p2, q1, q2);
        assert(s[s.len() - 1] == s.last());
        assert(s =~= rest + last);
        Seq::filter_distributes_over_add(rest, last, p1);
        Seq::filter_distributes_over_add(rest, last, q1);
        Seq::filter_distributes_over_add(rest.filter(p1), last.filter(p1), p2);
        Seq::filter_distributes_over_add(rest.filter(q1), last.filter(q1), q2);
        one_filtered(s.last(), p1);
        one_filtered(s.last(), p2);
        one_filtered(s.last(), q1);
        one_filtered(s.last(), q2);
        assert(Seq::<OperationId>::empty().filter(p2) =~= Seq::empty());
        assert(Seq::<OperationId>::empty().filter(q2) =~= Seq::empty());
    } else {
        assert(s.filter(p1).filter(p2) =~= Seq::empty());
        assert(s.filter(q1).filter(q2) =~= Seq::empty());
    }
}

/// A program keeps its own order.
pub proof fn order_kept_by_itself(a: ModuleView)
    requires
        a.well_formed(),
    ensures
        keeps_order(a, a),
{
    let order = a.program_order(a.body);
    crate::traversal::walks_are_live(a, a.body);
    all_kept(order, among_first(a.ops.len()));
}

/// A filter that every element passes keeps them all.
pub proof fn all_kept(s: Seq<OperationId>, keep: spec_fn(OperationId) -> bool)
    requires
        forall|i: int| 0 <= i < s.len() ==> keep(#[trigger] s[i]),
    ensures
        s.filter(keep) == s,
    decreases s.len(),
{
    reveal(Seq::filter);
    if s.len() > 0 {
        let rest = s.drop_last();
        assert forall|i: int| 0 <= i < rest.len() implies keep(#[trigger] rest[i]) by {
            assert(keep(s[i]));
        }
        all_kept(rest, keep);
        assert(keep(s[s.len() - 1]));
        assert(s.filter(keep) =~= s);
    } else {
        assert(s.filter(keep) =~= s);
    }
}

/// A filter that no element passes keeps none.
pub proof fn none_kept(s: Seq<OperationId>, keep: spec_fn(OperationId) -> bool)
    requires
        forall|i: int| 0 <= i < s.len() ==> !keep(#[trigger] s[i]),
    ensures
        s.filter(keep) == Seq::<OperationId>::empty(),
    decreases s.len(),
{
    reveal(Seq::filter);
    if s.len() > 0 {
        let rest = s.drop_last();
        assert forall|i: int| 0 <= i < rest.len() implies !keep(#[trigger] rest[i]) by {
            assert(!keep(s[i]));
        }
        none_kept(rest, keep);
        assert(!keep(s[s.len() - 1]));
    }
    assert(s.filter(keep) =~= Seq::empty());
}

/// A filter passes what it kept.
pub proof fn filtered_again(s: Seq<OperationId>, keep: spec_fn(OperationId) -> bool)
    ensures
        s.filter(keep).filter(keep) == s.filter(keep),
{
    assert forall|i: int| 0 <= i < s.filter(keep).len() implies keep(
        #[trigger] s.filter(keep)[i],
    ) by {
        crate::printer::lemma_filter_member(s, keep, i);
    }
    all_kept(s.filter(keep), keep);
}

/// An order that is kept twice is kept.
pub proof fn order_kept_on(a: ModuleView, b: ModuleView, c: ModuleView)
    requires
        keeps_order(a, b),
        keeps_order(b, c),
    ensures
        keeps_order(a, c),
{
    let wide = among_first(b.ops.len());
    let narrow = among_first(a.ops.len());
    let order = c.program_order(c.body);
    filtered_alike(order, wide, narrow, narrow, narrow);
    filtered_again(order, narrow);
}

} // verus!
