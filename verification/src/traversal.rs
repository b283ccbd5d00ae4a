//! Walking a module.
//!
//! A walk enters nested regions, so it ends only when regions do not contain
//! themselves. A well-formed module assigns every region a level that grows
//! inward; the levels bound the depth of a walk and the length of the chain
//! from an operation out to the module body.

use vstd::prelude::*;

use crate::ids::{BlockId, OperationId, RegionId, ValueId};
use crate::module::{
    BlockView, Module, ModuleView, Operation, OperationView, RegionView, Value, ValueDef, ValueView,
};
use crate::text::same_text;

verus! {

impl ModuleView {
    /// Whether a value is a result of an operation.
    pub open spec fn is_result(self, value: ValueId, op: OperationId) -> bool {
        match self.value(value).def {
            ValueDef::OpResult { op: producer, .. } => producer == op,
            ValueDef::BlockArg { .. } => false,
        }
    }

    /// Whether a value is an argument of a block.
    pub open spec fn is_arg(self, value: ValueId, block: BlockId) -> bool {
        match self.value(value).def {
            ValueDef::OpResult { .. } => false,
            ValueDef::BlockArg { block: owner, .. } => owner == block,
        }
    }

    /// Whether every handle an operation holds refers to something, and its
    /// results and regions know whose they are.
    pub open spec fn op_in_bounds(self, op: OperationView) -> bool {
        &&& forall|i: int| 0 <= i < op.operands.len() ==> self.has_value(#[trigger] op.operands[i])
        &&& forall|i: int|
            0 <= i < op.results.len() ==> self.has_value(#[trigger] op.results[i])
                && self.is_result(op.results[i], op.id)
        &&& op.results.no_duplicates()
        &&& forall|i: int|
            0 <= i < op.regions.len() ==> self.has_region(#[trigger] op.regions[i])
                && self.region(op.regions[i]).parent == Some(op.id)
        &&& op.regions.no_duplicates()
        &&& op.parent matches Some(b) ==> self.has_block(b)
    }

    /// Whether every handle a block holds refers to something, and its arguments
    /// and the operations in it know that they are.
    pub open spec fn block_in_bounds(self, block: BlockView) -> bool {
        &&& forall|i: int|
            0 <= i < block.args.len() ==> self.has_value(#[trigger] block.args[i]) && self.is_arg(
                block.args[i],
                block.id,
            )
        &&& block.args.no_duplicates()
        &&& forall|i: int|
            0 <= i < block.ops.len() ==> self.has_op(#[trigger] block.ops[i]) && self.op(
                block.ops[i],
            ).parent == Some(block.id)
        &&& block.ops.no_duplicates()
        &&& self.has_region(block.parent)
    }

    /// Whether every handle a region holds refers to something, and the blocks
    /// in it know that they are.
    pub open spec fn region_in_bounds(self, region: RegionView) -> bool {
        &&& forall|i: int|
            0 <= i < region.blocks.len() ==> self.has_block(#[trigger] region.blocks[i])
                && self.block(region.blocks[i]).parent == region.id
        &&& region.blocks.no_duplicates()
        &&& region.parent matches Some(op) ==> self.has_op(op)
    }

    /// Whether what defines a value exists.
    pub open spec fn value_in_bounds(self, value: ValueView) -> bool {
        match value.def {
            ValueDef::OpResult { op, .. } => self.has_op(op),
            ValueDef::BlockArg { block, .. } => self.has_block(block),
        }
    }

    /// Whether every entity carries its own handle, and every handle in the
    /// module refers to something.
    pub open spec fn in_bounds(self) -> bool {
        &&& self.has_region(self.body)
        &&& self.region(self.body).blocks.len() > 0
        &&& self.region(self.body).parent is None
        &&& self.ops.len() <= u32::MAX + 1
        &&& self.values.len() <= u32::MAX + 1
        &&& self.blocks.len() <= u32::MAX + 1
        &&& self.regions.len() <= u32::MAX + 1
        &&& forall|i: int|
            0 <= i < self.ops.len() ==> (#[trigger] self.ops[i]).id == OperationId::at(i)
                && self.op_in_bounds(self.ops[i])
        &&& forall|i: int|
            0 <= i < self.blocks.len() ==> (#[trigger] self.blocks[i]).id == BlockId::at(i)
                && self.block_in_bounds(self.blocks[i])
        &&& forall|i: int|
            0 <= i < self.regions.len() ==> (#[trigger] self.regions[i]).id == RegionId::at(i)
                && self.region_in_bounds(self.regions[i])
        &&& forall|i: int|
            0 <= i < self.values.len() ==> (#[trigger] self.values[i]).id == ValueId::at(i)
                && self.value_in_bounds(self.values[i])
    }

    /// The `n`-th region of the `o`-th operation of the `b`-th block of a region.
    pub open spec fn child(self, region: int, b: int, o: int, n: int) -> RegionId {
        self.op(self.block(self.regions[region].blocks[b]).ops[o]).regions[n]
    }

    /// Whether there is such a region.
    pub open spec fn has_child(self, region: int, b: int, o: int, n: int) -> bool {
        &&& 0 <= region < self.regions.len()
        &&& 0 <= b < self.regions[region].blocks.len()
        &&& 0 <= o < self.block(self.regions[region].blocks[b]).ops.len()
        &&& 0 <= n < self.op(self.block(self.regions[region].blocks[b]).ops[o]).regions.len()
    }

    /// The region an operation sits in, if it sits in a block.
    pub open spec fn region_of(self, op: OperationId) -> Option<RegionId> {
        match self.op(op).parent {
            Some(block) => Some(self.block(block).parent),
            None => None,
        }
    }

    /// Whether the levels grow inward, both along the regions that operations
    /// own and along the way out from an operation to its enclosing one.
    pub open spec fn leveled(self, levels: Seq<nat>) -> bool {
        &&& levels.len() == self.regions.len()
        &&& forall|r: int|
            0 <= r < self.regions.len() ==> #[trigger] levels[r] < self.regions.len()
        &&& forall|r: int, b: int, o: int, n: int|
            self.has_child(r, b, o, n) ==> levels[(#[trigger] self.child(
                r,
                b,
                o,
                n,
            )).spec_index()] > levels[r]
        &&& forall|r: int|
            0 <= r < self.regions.len() ==> self.inside_owner(levels, #[trigger] self.regions[r])
    }

    /// Whether the operation that owns a region sits in a region of a lower
    /// level.
    pub open spec fn inside_owner(self, levels: Seq<nat>, region: RegionView) -> bool {
        match region.parent {
            Some(owner) => match self.region_of(owner) {
                Some(outer) => levels[outer.spec_index()] < levels[region.id.spec_index()],
                None => true,
            },
            None => true,
        }
    }

    /// Whether the module can be walked: every handle refers to something, and
    /// no region contains itself.
    pub open spec fn well_formed(self) -> bool {
        &&& self.in_bounds()
        &&& exists|levels: Seq<nat>| self.leveled(levels)
    }

    /// The live operations of the blocks from position `i` on, in program
    /// order, entering nested regions at most `fuel` deep.
    pub open spec fn walk_blocks(self, blocks: Seq<BlockId>, i: int, fuel: nat) -> Seq<OperationId>
        decreases fuel, 2int, blocks.len() - i,
    {
        if i < 0 || i >= blocks.len() {
            Seq::empty()
        } else {
            self.walk_ops(self.block(blocks[i]).ops, 0, fuel) + self.walk_blocks(
                blocks,
                i + 1,
                fuel,
            )
        }
    }

    /// The live operations among the operations from position `i` on, each
    /// followed by those nested in it.
    pub open spec fn walk_ops(self, ops: Seq<OperationId>, i: int, fuel: nat) -> Seq<OperationId>
        decreases fuel, 1int, ops.len() - i,
    {
        if i < 0 || i >= ops.len() {
            Seq::empty()
        } else if self.op(ops[i]).erased {
            self.walk_ops(ops, i + 1, fuel)
        } else {
            seq![ops[i]] + self.walk_regions(self.op(ops[i]).regions, 0, fuel) + self.walk_ops(
                ops,
                i + 1,
                fuel,
            )
        }
    }

    /// The live operations of the regions from position `i` on.
    pub open spec fn walk_regions(self, regions: Seq<RegionId>, i: int, fuel: nat) -> Seq<
        OperationId,
    >
        decreases fuel, 0int, regions.len() - i,
    {
        if i < 0 || i >= regions.len() || fuel == 0 {
            Seq::empty()
        } else {
            self.walk_blocks(self.region(regions[i]).blocks, 0, (fuel - 1) as nat)
                + self.walk_regions(regions, i + 1, fuel)
        }
    }

    /// The live operations of a region, in program order, nested ones included.
    pub open spec fn program_order(self, region: RegionId) -> Seq<OperationId> {
        self.walk_blocks(self.region(region).blocks, 0, self.regions.len())
    }

    /// The operations that enclose an operation, innermost first, at most
    /// `fuel` of them.
    pub open spec fn ancestors(self, op: OperationId, fuel: nat) -> Seq<OperationId>
        decreases fuel,
    {
        if fuel == 0 {
            Seq::empty()
        } else {
            match self.parent_op(op) {
                Some(parent) => seq![parent] + self.ancestors(parent, (fuel - 1) as nat),
                None => Seq::empty(),
            }
        }
    }
}

impl Module {
    /// Every operation ever created, erased ones included. Prefer
    /// [`Module::walk`] to visit the live program.
    pub fn all_ops(&self) -> (r: &Vec<Operation>)
        ensures
            r@.len() == self@.ops.len(),
            forall|i: int| 0 <= i < r@.len() ==> (#[trigger] r@[i])@ == self@.ops[i],
    {
        &self.ops
    }

    /// Every value ever created.
    pub fn all_values(&self) -> (r: &Vec<Value>)
        ensures
            r@.len() == self@.values.len(),
            forall|i: int| 0 <= i < r@.len() ==> (#[trigger] r@[i])@ == self@.values[i],
    {
        &self.values
    }

    /// How many operation slots exist, erased ones included. Analyses size
    /// their side tables with this.
    pub fn op_capacity(&self) -> (r: usize)
        ensures
            r == self@.ops.len(),
    {
        self.ops.len()
    }

    /// How many value slots exist.
    pub fn value_capacity(&self) -> (r: usize)
        ensures
            r == self@.values.len(),
    {
        self.values.len()
    }

    /// How many regions the module holds.
    pub fn region_count(&self) -> (r: usize)
        ensures
            r == self@.regions.len(),
    {
        self.regions.len()
    }

    /// A region by arena position, for traversals that need every region.
    pub fn region_by_index(&self, index: usize) -> (r: &crate::module::Region)
        requires
            index < self@.regions.len(),
        ensures
            r@ == self@.regions[index as int],
    {
        &self.regions[index]
    }

    /// How many blocks the module holds.
    pub fn block_count(&self) -> (r: usize)
        ensures
            r == self@.blocks.len(),
    {
        self.blocks.len()
    }

    fn walk_blocks_into(
        &self,
        region: RegionId,
        Ghost(levels): Ghost<Seq<nat>>,
        Ghost(fuel): Ghost<nat>,
        out: &mut Vec<OperationId>,
    )
        requires
            self@.in_bounds(),
            self@.leveled(levels),
            self@.has_region(region),
            fuel + levels[region.spec_index()] >= self@.regions.len(),
        ensures
            final(out)@ == old(out)@ + self@.walk_blocks(self@.region(region).blocks, 0, fuel),
        decreases fuel,
    {
        let blocks = &self.region(region).blocks;
        let ghost block_ids = self@.region(region).blocks;
        let ghost total = out@ + self@.walk_blocks(block_ids, 0, fuel);
        assert(self@.region_in_bounds(self@.regions[region.spec_index()]));
        let mut b: usize = 0;
        while b < blocks.len()
            invariant
                b <= blocks@.len(),
                blocks@ == block_ids,
                block_ids == self@.region(region).blocks,
                self@.in_bounds(),
                self@.leveled(levels),
                self@.has_region(region),
                self@.region_in_bounds(self@.region(region)),
                fuel + levels[region.spec_index()] >= self@.regions.len(),
                out@ + self@.walk_blocks(block_ids, b as int, fuel) == total,
            decreases blocks@.len() - b,
        {
            let block_id = blocks[b];
            assert(self@.has_block(block_ids[b as int]));
            let ops = &self.block(block_id).ops;
            let ghost op_ids = self@.block(block_id).ops;
            let ghost after = self@.walk_blocks(block_ids, b + 1, fuel);
            assert(self@.block_in_bounds(self@.blocks[block_id.spec_index()]));
            let mut o: usize = 0;
            assert(out@ + (self@.walk_ops(op_ids, 0, fuel) + after) == total);
            assert(out@ + self@.walk_ops(op_ids, 0, fuel) + after =~= total);
            while o < ops.len()
                invariant
                    o <= ops@.len(),
                    b < block_ids.len(),
                    ops@ == op_ids,
                    block_id == block_ids[b as int],
                    op_ids == self@.block(block_id).ops,
                    block_ids == self@.region(region).blocks,
                    self@.in_bounds(),
                    self@.leveled(levels),
                    self@.has_region(region),
                    self@.block_in_bounds(self@.block(block_id)),
                    fuel + levels[region.spec_index()] >= self@.regions.len(),
                    out@ + self@.walk_ops(op_ids, o as int, fuel) + after == total,
                decreases ops@.len() - o,
            {
                let op_id = ops[o];
                assert(self@.has_op(op_ids[o as int]));
                let op = self.op(op_id);
                let ghost rest = self@.walk_ops(op_ids, o + 1, fuel);
                if !op.erased {
                    let ghost nested = self@.op(op_id).regions;
                    assert(out@ + (seq![op_id] + self@.walk_regions(nested, 0, fuel) + rest) + after
                        == total);
                    out.push(op.id);
                    assert(self@.op_in_bounds(self@.ops[op_id.spec_index()]));
                    assert(op.id == op_id);
                    assert(out@ + self@.walk_regions(nested, 0, fuel) + rest + after =~= total);
                    let regions = &op.regions;
                    let mut n: usize = 0;
                    while n < regions.len()
                        invariant
                            n <= regions@.len(),
                            regions@ == nested,
                            nested == self@.op(op_id).regions,
                            b < block_ids.len(),
                            o < op_ids.len(),
                            block_id == block_ids[b as int],
                            op_id == op_ids[o as int],
                            op_ids == self@.block(block_id).ops,
                            block_ids == self@.region(region).blocks,
                            self@.in_bounds(),
                            self@.leveled(levels),
                            self@.has_region(region),
                            self@.op_in_bounds(self@.op(op_id)),
                            fuel + levels[region.spec_index()] >= self@.regions.len(),
                            out@ + self@.walk_regions(nested, n as int, fuel) + rest + after
                                == total,
                        decreases regions@.len() - n,
                    {
                        let inner = regions[n];
                        let ghost r = region.spec_index();
                        assert(self@.has_region(nested[n as int]));
                        assert(self@.has_child(r, b as int, o as int, n as int));
                        assert(self@.child(r, b as int, o as int, n as int) == inner);
                        assert(levels[inner.spec_index()] > levels[r]);
                        assert(levels[inner.spec_index()] < self@.regions.len());
                        let ghost before = out@;
                        self.walk_blocks_into(
                            inner,
                            Ghost(levels),
                            Ghost((fuel - 1) as nat),
                            out,
                        );
                        assert(before + self@.walk_regions(nested, n as int, fuel) + rest + after
                            =~= out@ + self@.walk_regions(nested, n + 1, fuel) + rest + after);
                        n += 1;
                    }
                    assert(out@ + rest + after =~= total);
                }
                o += 1;
            }
            assert(out@ + after =~= total);
            b += 1;
        }
        assert(out@ =~= total);
    }

    /// The handles of every live operation, in program order.
    pub fn op_ids(&self) -> (r: Vec<OperationId>)
        requires
            self@.well_formed(),
        ensures
            r@ == self@.program_order(self@.body),
    {
        let mut ids: Vec<OperationId> = Vec::new();
        let ghost levels = choose|levels: Seq<nat>| self@.leveled(levels);
        self.walk_blocks_into(self.body, Ghost(levels), Ghost(self@.regions.len()), &mut ids);
        assert(ids@ =~= self@.program_order(self@.body));
        ids
    }
}

/// Whether every operation of a list exists and is live.
pub open spec fn all_live(m: ModuleView, ops: Seq<OperationId>) -> bool {
    forall|i: int| 0 <= i < ops.len() ==> m.has_op(#[trigger] ops[i]) && !m.op(ops[i]).erased
}

proof fn lemma_walk_blocks_live(m: ModuleView, region: RegionId, i: int, fuel: nat)
    requires
        m.in_bounds(),
        m.has_region(region),
    ensures
        all_live(m, m.walk_blocks(m.region(region).blocks, i, fuel)),
    decreases fuel, 2int, m.region(region).blocks.len() - i,
{
    let blocks = m.region(region).blocks;
    if 0 <= i < blocks.len() {
        assert(m.region_in_bounds(m.regions[region.spec_index()]));
        assert(m.has_block(blocks[i]));
        lemma_walk_ops_live(m, blocks[i], 0, fuel);
        lemma_walk_blocks_live(m, region, i + 1, fuel);
    }
}

proof fn lemma_walk_ops_live(m: ModuleView, block: BlockId, i: int, fuel: nat)
    requires
        m.in_bounds(),
        m.has_block(block),
    ensures
        all_live(m, m.walk_ops(m.block(block).ops, i, fuel)),
    decreases fuel, 1int, m.block(block).ops.len() - i,
{
    let ops = m.block(block).ops;
    if 0 <= i < ops.len() {
        assert(m.block_in_bounds(m.blocks[block.spec_index()]));
        assert(m.has_op(ops[i]));
        lemma_walk_ops_live(m, block, i + 1, fuel);
        if !m.op(ops[i]).erased {
            lemma_walk_regions_live(m, ops[i], 0, fuel);
        }
    }
}

proof fn lemma_walk_regions_live(m: ModuleView, op: OperationId, i: int, fuel: nat)
    requires
        m.in_bounds(),
        m.has_op(op),
    ensures
        all_live(m, m.walk_regions(m.op(op).regions, i, fuel)),
    decreases fuel, 0int, m.op(op).regions.len() - i,
{
    let regions = m.op(op).regions;
    if 0 <= i < regions.len() && fuel > 0 {
        assert(m.op_in_bounds(m.ops[op.spec_index()]));
        assert(m.has_region(regions[i]));
        lemma_walk_blocks_live(m, regions[i], 0, (fuel - 1) as nat);
        lemma_walk_regions_live(m, op, i + 1, fuel);
    }
}

/// A walk yields live operations of the module only.
pub proof fn walks_are_live(m: ModuleView, region: RegionId)
    requires
        m.in_bounds(),
        m.has_region(region),
    ensures
        all_live(m, m.program_order(region)),
{
    lemma_walk_blocks_live(m, region, 0, m.regions.len());
}

/// The operations directly inside a region are live operations of the module.
pub proof fn region_ops_are_live(m: ModuleView, region: RegionId)
    requires
        m.in_bounds(),
        m.has_region(region),
    ensures
        all_live(m, m.ops_in_region(region)),
{
    lemma_live_ops(m, region, m.region(region).blocks.len() as int);
}

/// Filtering a list keeps live operations only.
pub proof fn lemma_live(m: ModuleView, ops: Seq<OperationId>)
    requires
        forall|i: int| 0 <= i < ops.len() ==> m.has_op(#[trigger] ops[i]),
    ensures
        all_live(m, m.live(ops)),
    decreases ops.len(),
{
    reveal(Seq::filter);
    if ops.len() > 0 {
        assert forall|i: int| 0 <= i < ops.drop_last().len() implies m.has_op(
            #[trigger] ops.drop_last()[i],
        ) by {
            assert(m.has_op(ops[i]));
        }
        lemma_live(m, ops.drop_last());
        assert(m.has_op(ops[ops.len() - 1]));
    }
}

proof fn lemma_live_ops(m: ModuleView, region: RegionId, n: int)
    requires
        m.in_bounds(),
        m.has_region(region),
        n <= m.region(region).blocks.len(),
    ensures
        all_live(m, m.live_ops(m.region(region).blocks, n)),
    decreases n,
{
    let blocks = m.region(region).blocks;
    if n > 0 {
        lemma_live_ops(m, region, n - 1);
        assert(m.region_in_bounds(m.regions[region.spec_index()]));
        let block = blocks[n - 1];
        assert(m.has_block(block));
        assert(m.block_in_bounds(m.blocks[block.spec_index()]));
        lemma_live(m, m.block(block).ops);
    }
}

impl Module {
    /// Every live operation in program order, entering nested regions.
    pub fn walk(&self) -> (r: Vec<&Operation>)
        requires
            self@.well_formed(),
        ensures
            r@.len() == self@.program_order(self@.body).len(),
            forall|i: int|
                0 <= i < r@.len() ==> (#[trigger] r@[i])@ == self@.op(
                    self@.program_order(self@.body)[i],
                ),
    {
        let ids = self.op_ids();
        proof {
            walks_are_live(self@, self@.body);
        }
        let mut r: Vec<&Operation> = Vec::new();
        let mut i: usize = 0;
        while i < ids.len()
            invariant
                i <= ids@.len(),
                ids@ == self@.program_order(self@.body),
                all_live(self@, ids@),
                r@.len() == i,
                forall|j: int| 0 <= j < i ==> (#[trigger] r@[j])@ == self@.op(ids@[j]),
            decreases ids@.len() - i,
        {
            assert(self@.has_op(ids@[i as int]));
            r.push(self.op(ids[i]));
            i += 1;
        }
        r
    }

    /// The live operations of a block, in order.
    pub fn live_ops_of(&self, block: BlockId) -> (r: Vec<OperationId>)
        requires
            self@.has_block(block),
            self@.block_in_bounds(self@.block(block)),
        ensures
            r@ == self@.live(self@.block(block).ops),
    {
        let ops = &self.block(block).ops;
        let mut r: Vec<OperationId> = Vec::new();
        let mut i: usize = 0;
        proof {
            reveal(Seq::filter);
            assert(self@.live(ops@.take(0)) =~= Seq::empty());
        }
        while i < ops.len()
            invariant
                i <= ops@.len(),
                ops@ == self@.block(block).ops,
                self@.block_in_bounds(self@.block(block)),
                r@ == self@.live(ops@.take(i as int)),
            decreases ops@.len() - i,
        {
            let op = ops[i];
            assert(self@.has_op(ops@[i as int]));
            proof {
                reveal(Seq::filter);
                assert(ops@.take(i + 1).drop_last() =~= ops@.take(i as int));
            }
            if !self.op(op).erased {
                r.push(op);
            }
            i += 1;
        }
        assert(ops@.take(i as int) =~= ops@);
        r
    }

    /// The handles of the live operations directly inside a region, in order.
    pub fn ops_in_region(&self, region: RegionId) -> (r: Vec<OperationId>)
        requires
            self@.in_bounds(),
            self@.has_region(region),
        ensures
            r@ == self@.ops_in_region(region),
    {
        let blocks = &self.region(region).blocks;
        let mut r: Vec<OperationId> = Vec::new();
        let mut i: usize = 0;
        assert(self@.region_in_bounds(self@.regions[region.spec_index()]));
        while i < blocks.len()
            invariant
                i <= blocks@.len(),
                blocks@ == self@.region(region).blocks,
                self@.in_bounds(),
                self@.region_in_bounds(self@.region(region)),
                r@ == self@.live_ops(blocks@, i as int),
            decreases blocks@.len() - i,
        {
            let block = blocks[i];
            assert(self@.has_block(blocks@[i as int]));
            assert(self@.block_in_bounds(self@.blocks[block.spec_index()]));
            let mut ops = self.live_ops_of(block);
            r.append(&mut ops);
            i += 1;
        }
        r
    }

    /// The operation owning the region a given operation sits in, if any.
    pub fn parent_op(&self, op: OperationId) -> (r: Option<OperationId>)
        requires
            self@.in_bounds(),
            self@.has_op(op),
        ensures
            r == self@.parent_op(op),
            r matches Some(parent) ==> self@.has_op(parent),
    {
        assert(self@.op_in_bounds(self@.ops[op.spec_index()]));
        match self.op(op).parent {
            None => None,
            Some(block) => {
                assert(self@.block_in_bounds(self@.blocks[block.spec_index()]));
                let region = self.block(block).parent;
                assert(self@.region_in_bounds(self@.regions[region.spec_index()]));
                self.region(region).parent
            },
        }
    }

    /// Walks outward from an operation through its enclosing operations.
    pub fn ancestors(&self, op: OperationId) -> (r: Vec<OperationId>)
        requires
            self@.well_formed(),
            self@.has_op(op),
        ensures
            r@ == self@.ancestors(op, self@.regions.len() + 1),
    {
        let ghost levels = choose|levels: Seq<nat>| self@.leveled(levels);
        let ghost mut fuel: nat = self@.regions.len() + 1;
        let ghost total = self@.ancestors(op, fuel);
        let mut chain: Vec<OperationId> = Vec::new();
        let mut current = op;
        let mut done = false;
        assert(chain@ + self@.ancestors(current, fuel) =~= total);
        while !done
            invariant
                self@.in_bounds(),
                self@.leveled(levels),
                self@.has_op(current),
                !done ==> chain@ + self@.ancestors(current, fuel) == total,
                done ==> chain@ == total,
                self@.region_of(current) matches Some(r) ==> fuel > levels[r.spec_index()] + 1,
                self@.region_of(current) is None ==> fuel > 0,
            decreases fuel, (if done { 0int } else { 1int }),
        {
            proof {
                let i = current.spec_index();
                assert(self@.op_in_bounds(self@.ops[i]));
                if let Some(b) = self@.op(current).parent {
                    assert(self@.block_in_bounds(self@.blocks[b.spec_index()]));
                    let r = self@.block(b).parent;
                    assert(self@.inside_owner(levels, self@.regions[r.spec_index()]));
                }
            }
            match self.parent_op(current) {
                Some(parent) => {
                    let ghost before = chain@;
                    chain.push(parent);
                    proof {
                        assert(before + self@.ancestors(current, fuel) =~= chain@
                            + self@.ancestors(parent, (fuel - 1) as nat));
                        fuel = (fuel - 1) as nat;
                    }
                    current = parent;
                },
                None => {
                    done = true;
                    assert(chain@ + self@.ancestors(current, fuel) =~= chain@);
                },
            }
        }
        chain
    }

    /// The top-level operations of the module body (the functions).
    pub fn top_level(&self) -> (r: Vec<OperationId>)
        requires
            self@.in_bounds(),
        ensures
            r@ == self@.ops_in_region(self@.body),
    {
        self.ops_in_region(self.body)
    }

    /// Looks up a top-level `agent.func` by name.
    ///
    /// The name is the operation literal, rather than a separate attribute, so
    /// there is only one place for it to be wrong.
    pub fn function(&self, name: &str) -> (r: Option<OperationId>)
        requires
            self@.in_bounds(),
        ensures
            r == self@.function(name@),
            r matches Some(op) ==> self@.has_op(op),
    {
        let ops = self.top_level();
        proof {
            region_ops_are_live(self@, self@.body);
        }
        let mut i: usize = 0;
        while i < ops.len()
            invariant
                i <= ops@.len(),
                ops@ == self@.ops_in_region(self@.body),
                all_live(self@, ops@),
                self@.find_function(ops@, 0, name@) == self@.find_function(ops@, i as int, name@),
            decreases ops@.len() - i,
        {
            assert(self@.has_op(ops@[i as int]));
            let op = self.op(ops[i]);
            if op.name.is("agent", "func") {
                if let Some(literal) = &op.literal {
                    if same_text(literal.as_str(), name) {
                        return Some(ops[i]);
                    }
                }
            }
            i += 1;
        }
        None
    }
}

/// Any two bounds that reach deep enough yield the same walk.
pub proof fn walks_agree(m: ModuleView, levels: Seq<nat>, region: RegionId, i: int, f1: nat, f2: nat)
    requires
        m.in_bounds(),
        m.leveled(levels),
        m.has_region(region),
        f1 + levels[region.spec_index()] >= m.regions.len(),
        f2 + levels[region.spec_index()] >= m.regions.len(),
    ensures
        m.walk_blocks(m.region(region).blocks, i, f1) == m.walk_blocks(
            m.region(region).blocks,
            i,
            f2,
        ),
    decreases f1, 2int, m.region(region).blocks.len() - i,
{
    let blocks = m.region(region).blocks;
    if 0 <= i < blocks.len() {
        lemma_walk_ops_agree(m, levels, region, i, 0, f1, f2);
        walks_agree(m, levels, region, i + 1, f1, f2);
    }
}

proof fn lemma_walk_ops_agree(
    m: ModuleView,
    levels: Seq<nat>,
    region: RegionId,
    b: int,
    i: int,
    f1: nat,
    f2: nat,
)
    requires
        m.in_bounds(),
        m.leveled(levels),
        m.has_region(region),
        0 <= b < m.region(region).blocks.len(),
        f1 + levels[region.spec_index()] >= m.regions.len(),
        f2 + levels[region.spec_index()] >= m.regions.len(),
    ensures
        m.walk_ops(m.block(m.region(region).blocks[b]).ops, i, f1) == m.walk_ops(
            m.block(m.region(region).blocks[b]).ops,
            i,
            f2,
        ),
    decreases f1, 1int, m.block(m.region(region).blocks[b]).ops.len() - i,
{
    let ops = m.block(m.region(region).blocks[b]).ops;
    if 0 <= i < ops.len() {
        lemma_walk_ops_agree(m, levels, region, b, i + 1, f1, f2);
        let r = region.spec_index();
        let op = ops[i];
        assert(m.region_in_bounds(m.regions[r]));
        assert(m.has_block(m.regions[r].blocks[b]));
        assert(m.block_in_bounds(m.blocks[m.regions[r].blocks[b].spec_index()]));
        assert(m.has_op(ops[i]));
        assert forall|n: int| 0 <= n < m.op(op).regions.len() implies levels[(
        #[trigger] m.op(op).regions[n]).spec_index()] > levels[r] by {
            assert(m.has_child(r, b, i, n));
            assert(m.child(r, b, i, n) == m.op(op).regions[n]);
        }
        op_walks_agree(m, levels, op, levels[r], 0, f1, f2);
    }
}

/// Any two bounds that reach deep enough yield the same walk of the regions of
/// an operation.
pub proof fn op_walks_agree(
    m: ModuleView,
    levels: Seq<nat>,
    op: OperationId,
    level: nat,
    i: int,
    f1: nat,
    f2: nat,
)
    requires
        m.in_bounds(),
        m.leveled(levels),
        m.has_op(op),
        forall|n: int|
            0 <= n < m.op(op).regions.len() ==> levels[(
            #[trigger] m.op(op).regions[n]).spec_index()] > level,
        f1 + level >= m.regions.len(),
        f2 + level >= m.regions.len(),
    ensures
        m.walk_regions(m.op(op).regions, i, f1) == m.walk_regions(m.op(op).regions, i, f2),
    decreases f1, 0int, m.op(op).regions.len() - i,
{
    let regions = m.op(op).regions;
    if 0 <= i < regions.len() {
        assert(m.op_in_bounds(m.ops[op.spec_index()]));
        assert(m.has_region(regions[i]));
        assert(levels[regions[i].spec_index()] > level);
        assert(levels[regions[i].spec_index()] < m.regions.len());
        assert(f1 > 0 && f2 > 0);
        walks_agree(m, levels, regions[i], 0, (f1 - 1) as nat, (f2 - 1) as nat);
        op_walks_agree(m, levels, op, level, i + 1, f1, f2);
    }
}

impl ModuleView {
    /// An operation and everything live that is nested in it.
    pub open spec fn subtree(self, op: OperationId) -> Seq<OperationId> {
        seq![op] + self.walk_regions(self.op(op).regions, 0, self.regions.len() + 1)
    }
}

/// A live operation and what is nested in it are live operations of the module.
pub proof fn subtrees_are_live(m: ModuleView, op: OperationId)
    requires
        m.in_bounds(),
        m.has_op(op),
        !m.op(op).erased,
    ensures
        all_live(m, m.subtree(op)),
{
    lemma_walk_regions_live(m, op, 0, m.regions.len() + 1);
}

impl Module {
    /// An operation and everything live that is nested in it.
    pub fn subtree(&self, op: OperationId) -> (r: Vec<OperationId>)
        requires
            self@.well_formed(),
            self@.has_op(op),
        ensures
            r@ == self@.subtree(op),
    {
        let ghost m = self@;
        let ghost levels = choose|levels: Seq<nat>| m.leveled(levels);
        let ghost fuel = m.regions.len() + 1;
        let mut out: Vec<OperationId> = Vec::new();
        out.push(op);
        let regions = &self.op(op).regions;
        proof {
            assert(m.op_in_bounds(m.ops[op.spec_index()]));
            assert(out@ =~= seq![op]);
        }
        let mut n: usize = 0;
        while n < regions.len()
            invariant
                n <= regions@.len(),
                m == self@,
                m.in_bounds(),
                m.leveled(levels),
                m.has_op(op),
                m.op_in_bounds(m.op(op)),
                regions@ == m.op(op).regions,
                fuel == m.regions.len() + 1,
                out@ + m.walk_regions(regions@, n as int, fuel) == m.subtree(op),
            decreases regions@.len() - n,
        {
            let ghost before = out@;
            assert(m.has_region(regions@[n as int]));
            self.walk_blocks_into(regions[n], Ghost(levels), Ghost(m.regions.len()), &mut out);
            assert(before + m.walk_regions(regions@, n as int, fuel) =~= out@ + m.walk_regions(
                regions@,
                n + 1,
                fuel,
            ));
            n += 1;
        }
        assert(out@ =~= m.subtree(op));
        out
    }
}

} // verus!
