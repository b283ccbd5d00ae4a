//! What building a module keeps: every handle stays in bounds, and the levels
//! keep growing inward.

use vstd::prelude::*;

use crate::attribute::AttributeView;
use crate::effect::EffectView;
use crate::ids::{BlockId, OperationId, RegionId, ValueId};
use crate::module::{without, ModuleView, OpNameView, OperationView, ResultView};
use crate::provenance::Provenance;
use crate::types::TypeView;

verus! {

/// Whether two modules nest in the same way: they differ at most in what their
/// operations and values say of themselves.
pub open spec fn same_structure(a: ModuleView, b: ModuleView) -> bool {
    &&& a.blocks == b.blocks
    &&& a.regions == b.regions
    &&& a.body == b.body
    &&& a.ops.len() == b.ops.len()
    &&& a.values.len() == b.values.len()
    &&& forall|i: int|
        0 <= i < a.ops.len() ==> (#[trigger] b.ops[i]).id == a.ops[i].id && b.ops[i].operands
            == a.ops[i].operands && b.ops[i].results == a.ops[i].results && b.ops[i].regions
            == a.ops[i].regions && b.ops[i].parent == a.ops[i].parent
    &&& forall|i: int|
        0 <= i < a.values.len() ==> (#[trigger] b.values[i]).id == a.values[i].id
            && b.values[i].def == a.values[i].def
}

/// Modules of the same structure are in bounds together, and the same levels
/// fit them.
pub proof fn same_structure_keeps(a: ModuleView, b: ModuleView, levels: Seq<nat>)
    requires
        same_structure(a, b),
        a.in_bounds(),
        a.leveled(levels),
    ensures
        b.in_bounds(),
        b.leveled(levels),
{
    assert forall|i: int| 0 <= i < b.ops.len() implies (#[trigger] b.ops[i]).id
        == OperationId::at(i) && b.op_in_bounds(b.ops[i]) by {
        assert(a.op_in_bounds(a.ops[i]));
    }
    assert forall|i: int| 0 <= i < b.blocks.len() implies (#[trigger] b.blocks[i]).id
        == BlockId::at(i) && b.block_in_bounds(b.blocks[i]) by {
        assert(a.block_in_bounds(a.blocks[i]));
    }
    assert forall|i: int| 0 <= i < b.regions.len() implies (#[trigger] b.regions[i]).id
        == RegionId::at(i) && b.region_in_bounds(b.regions[i]) by {
        assert(a.region_in_bounds(a.regions[i]));
    }
    assert forall|i: int| 0 <= i < b.values.len() implies (#[trigger] b.values[i]).id
        == ValueId::at(i) && b.value_in_bounds(b.values[i]) by {
        assert(a.value_in_bounds(a.values[i]));
    }
    assert forall|r: int, x: int, o: int, n: int| b.has_child(r, x, o, n) implies levels[(
    #[trigger] b.child(r, x, o, n)).spec_index()] > levels[r] by {
        assert(a.region_in_bounds(a.regions[r]));
        let block = a.regions[r].blocks[x];
        assert(a.block_in_bounds(a.blocks[block.spec_index()]));
        assert(a.has_op(a.block(block).ops[o]));
        assert(a.has_child(r, x, o, n));
        assert(a.child(r, x, o, n) == b.child(r, x, o, n));
    }
    assert forall|r: int| 0 <= r < b.regions.len() implies b.inside_owner(
        levels,
        #[trigger] b.regions[r],
    ) by {
        assert(a.inside_owner(levels, a.regions[r]));
        assert(a.region_in_bounds(a.regions[r]));
    }
}

/// A new operation without regions, appended to a block, keeps the module in
/// bounds and the levels as they were.
pub proof fn append_new_op_keeps(
    m: ModuleView,
    levels: Seq<nat>,
    block: BlockId,
    name: OpNameView,
    literal: Option<Seq<char>>,
    operands: Seq<ValueId>,
    results: Seq<ResultView>,
    attributes: Seq<(Seq<char>, AttributeView)>,
    effect: EffectView,
)
    requires
        m.in_bounds(),
        m.leveled(levels),
        m.has_block(block),
        m.ops.len() <= u32::MAX,
        m.values.len() + results.len() <= u32::MAX + 1,
        forall|i: int| 0 <= i < operands.len() ==> m.has_value(#[trigger] operands[i]),
    ensures
        ({
            let m2 = m.create_op(
                name,
                literal,
                operands,
                results,
                attributes,
                effect,
            ).append_to_block(block, m.next_op());
            m2.in_bounds() && m2.leveled(levels)
        }),
{
    let m1 = m.create_op(name, literal, operands, results, attributes, effect);
    let op = m.next_op();
    let m2 = m1.append_to_block(block, op);
    let created = m.result_values(results);
    assert(m2.ops.len() == m.ops.len() + 1);
    assert(m2.values.len() == m.values.len() + results.len());
    assert forall|i: int| 0 <= i < m2.ops.len() implies (#[trigger] m2.ops[i]).id
        == OperationId::at(i) && m2.op_in_bounds(m2.ops[i]) by {
        if i < m.ops.len() {
            assert(m2.ops[i] == m.ops[i]);
            assert(m.op_in_bounds(m.ops[i]));
        }
    }
    assert forall|i: int| 0 <= i < m2.blocks.len() implies (#[trigger] m2.blocks[i]).id
        == BlockId::at(i) && m2.block_in_bounds(m2.blocks[i]) by {
        assert(m.block_in_bounds(m.blocks[i]));
        assert forall|k: int| 0 <= k < m2.blocks[i].ops.len() implies m2.has_op(
            #[trigger] m2.blocks[i].ops[k],
        ) && m2.op(m2.blocks[i].ops[k]).parent == Some(m2.blocks[i].id) by {
            if k < m.blocks[i].ops.len() {
                assert(m2.blocks[i].ops[k] == m.blocks[i].ops[k]);
                assert(m.has_op(m.blocks[i].ops[k]));
            }
        }
    }
    assert forall|i: int| 0 <= i < m2.regions.len() implies (#[trigger] m2.regions[i]).id
        == RegionId::at(i) && m2.region_in_bounds(m2.regions[i]) by {
        assert(m.region_in_bounds(m.regions[i]));
    }
    assert forall|i: int| 0 <= i < m2.values.len() implies (#[trigger] m2.values[i]).id
        == ValueId::at(i) && m2.value_in_bounds(m2.values[i]) by {
        if i < m.values.len() {
            assert(m2.values[i] == m.values[i]);
            assert(m.value_in_bounds(m.values[i]));
        } else {
            assert(m2.values[i] == created[i - m.values.len()]);
        }
    }
    assert forall|r: int, x: int, o: int, n: int| m2.has_child(r, x, o, n) implies levels[(
    #[trigger] m2.child(r, x, o, n)).spec_index()] > levels[r] by {
        assert(m.region_in_bounds(m.regions[r]));
        let b = m.regions[r].blocks[x];
        assert(m.has_block(b));
        assert(m.block_in_bounds(m.blocks[b.spec_index()]));
        if o < m.block(b).ops.len() {
            assert(m2.block(b).ops[o] == m.block(b).ops[o]);
            assert(m.has_op(m.block(b).ops[o]));
            assert(m.has_child(r, x, o, n));
            assert(m.child(r, x, o, n) == m2.child(r, x, o, n));
        }
    }
    assert forall|r: int| 0 <= r < m2.regions.len() implies m2.inside_owner(
        levels,
        #[trigger] m2.regions[r],
    ) by {
        assert(m.inside_owner(levels, m.regions[r]));
        assert(m.region_in_bounds(m.regions[r]));
        if let Some(owner) = m.regions[r].parent {
            assert(m2.op(owner) == m.op(owner));
            assert(m.op_in_bounds(m.ops[owner.spec_index()]));
        }
    }
}

/// The levels after a region was added to an operation: it lies one deeper
/// than the region the operation sits in.
pub open spec fn levels_with_region(m: ModuleView, levels: Seq<nat>, op: OperationId) -> Seq<nat> {
    levels.push(
        match m.region_of(op) {
            Some(r) => levels[r.spec_index()] + 1,
            None => 0,
        },
    )
}

/// A new region of an operation keeps the module in bounds, with the new
/// region one level deeper than the operation.
pub proof fn create_op_region_keeps(m: ModuleView, levels: Seq<nat>, op: OperationId)
    requires
        m.in_bounds(),
        m.leveled(levels),
        m.has_op(op),
        m.regions.len() <= u32::MAX,
    ensures
        m.create_op_region(op).in_bounds(),
        m.create_op_region(op).leveled(levels_with_region(m, levels, op)),
{
    let m2 = m.create_op_region(op);
    let levels2 = levels_with_region(m, levels, op);
    assert(m.op_in_bounds(m.ops[op.spec_index()]));
    assert forall|i: int| 0 <= i < m2.ops.len() implies (#[trigger] m2.ops[i]).id
        == OperationId::at(i) && m2.op_in_bounds(m2.ops[i]) by {
        assert(m.op_in_bounds(m.ops[i]));
    }
    assert forall|i: int| 0 <= i < m2.blocks.len() implies (#[trigger] m2.blocks[i]).id
        == BlockId::at(i) && m2.block_in_bounds(m2.blocks[i]) by {
        assert(m.block_in_bounds(m.blocks[i]));
    }
    assert forall|i: int| 0 <= i < m2.regions.len() implies (#[trigger] m2.regions[i]).id
        == RegionId::at(i) && m2.region_in_bounds(m2.regions[i]) by {
        if i < m.regions.len() {
            assert(m.region_in_bounds(m.regions[i]));
            assert(m2.regions[i] == m.regions[i]);
        }
    }
    assert forall|i: int| 0 <= i < m2.values.len() implies (#[trigger] m2.values[i]).id
        == ValueId::at(i) && m2.value_in_bounds(m2.values[i]) by {
        assert(m.value_in_bounds(m.values[i]));
    }
    assert(m2.region(m2.body) == m.region(m.body));
    assert(m.region_of(op) matches Some(r) ==> m.has_region(r)) by {
        if let Some(b) = m.op(op).parent {
            assert(m.block_in_bounds(m.blocks[b.spec_index()]));
        }
    }
    assert forall|r: int, x: int, o: int, n: int| m2.has_child(r, x, o, n) implies levels2[(
    #[trigger] m2.child(r, x, o, n)).spec_index()] > levels2[r] by {
        assert(r < m.regions.len());
        assert(m2.regions[r] == m.regions[r]);
        assert(m.region_in_bounds(m.regions[r]));
        let b = m.regions[r].blocks[x];
        assert(m.has_block(b));
        assert(m.block_in_bounds(m.blocks[b.spec_index()]));
        let inner = m.block(b).ops[o];
        assert(m.has_op(inner));
        if inner == op && n == m.op(op).regions.len() {
            assert(m.region_of(op) == Some(RegionId::at(r)));
        } else {
            assert(m.has_child(r, x, o, n));
            assert(m.child(r, x, o, n) == m2.child(r, x, o, n));
            assert(m.op_in_bounds(m.ops[inner.spec_index()]));
            assert(m.has_region(m.op(inner).regions[n]));
        }
    }
    assert forall|r: int| 0 <= r < m2.regions.len() implies m2.inside_owner(
        levels2,
        #[trigger] m2.regions[r],
    ) by {
        if r < m.regions.len() {
            assert(m.inside_owner(levels, m.regions[r]));
            assert(m.region_in_bounds(m.regions[r]));
            if let Some(owner) = m.regions[r].parent {
                assert(m.op_in_bounds(m.ops[owner.spec_index()]));
                if let Some(b) = m.op(owner).parent {
                    assert(m.block_in_bounds(m.blocks[b.spec_index()]));
                }
            }
        }
    }
}

/// A new empty block keeps the module in bounds and the levels as they were.
pub proof fn create_block_keeps(m: ModuleView, levels: Seq<nat>, region: RegionId)
    requires
        m.in_bounds(),
        m.leveled(levels),
        m.has_region(region),
        m.blocks.len() <= u32::MAX,
    ensures
        m.create_block(region).in_bounds(),
        m.create_block(region).leveled(levels),
{
    let m2 = m.create_block(region);
    assert forall|i: int| 0 <= i < m2.ops.len() implies (#[trigger] m2.ops[i]).id
        == OperationId::at(i) && m2.op_in_bounds(m2.ops[i]) by {
        assert(m.op_in_bounds(m.ops[i]));
    }
    assert forall|i: int| 0 <= i < m2.blocks.len() implies (#[trigger] m2.blocks[i]).id
        == BlockId::at(i) && m2.block_in_bounds(m2.blocks[i]) by {
        if i < m.blocks.len() {
            assert(m.block_in_bounds(m.blocks[i]));
            assert(m2.blocks[i] == m.blocks[i]);
        }
    }
    assert forall|i: int| 0 <= i < m2.regions.len() implies (#[trigger] m2.regions[i]).id
        == RegionId::at(i) && m2.region_in_bounds(m2.regions[i]) by {
        assert(m.region_in_bounds(m.regions[i]));
        assert forall|k: int| 0 <= k < m2.regions[i].blocks.len() implies m2.has_block(
            #[trigger] m2.regions[i].blocks[k],
        ) && m2.block(m2.regions[i].blocks[k]).parent == m2.regions[i].id by {
            if k < m.regions[i].blocks.len() {
                assert(m2.regions[i].blocks[k] == m.regions[i].blocks[k]);
                assert(m.has_block(m.regions[i].blocks[k]));
            }
        }
    }
    assert forall|i: int| 0 <= i < m2.values.len() implies (#[trigger] m2.values[i]).id
        == ValueId::at(i) && m2.value_in_bounds(m2.values[i]) by {
        assert(m.value_in_bounds(m.values[i]));
    }
    assert forall|r: int, x: int, o: int, n: int| m2.has_child(r, x, o, n) implies levels[(
    #[trigger] m2.child(r, x, o, n)).spec_index()] > levels[r] by {
        assert(m.region_in_bounds(m.regions[r]));
        let b = m2.regions[r].blocks[x];
        if x < m.regions[r].blocks.len() {
            assert(b == m.regions[r].blocks[x]);
            assert(m.has_block(m.regions[r].blocks[x]));
            assert(m2.block(b) == m.block(b));
            assert(m.has_child(r, x, o, n));
            assert(m.child(r, x, o, n) == m2.child(r, x, o, n));
        } else {
            assert(b == m.next_block());
            assert(m2.block(b).ops.len() == 0);
        }
    }
    assert forall|r: int| 0 <= r < m2.regions.len() implies m2.inside_owner(
        levels,
        #[trigger] m2.regions[r],
    ) by {
        assert(m.inside_owner(levels, m.regions[r]));
        assert(m.region_in_bounds(m.regions[r]));
        if let Some(owner) = m.regions[r].parent {
            assert(m.op_in_bounds(m.ops[owner.spec_index()]));
        }
    }
}

/// A new block argument keeps the module in bounds and the levels as they were.
pub proof fn add_block_arg_keeps(
    m: ModuleView,
    levels: Seq<nat>,
    block: BlockId,
    name: Option<Seq<char>>,
    ty: TypeView,
    provenance: Provenance,
)
    requires
        m.in_bounds(),
        m.leveled(levels),
        m.has_block(block),
        m.values.len() <= u32::MAX,
    ensures
        m.add_block_arg(block, name, ty, provenance).in_bounds(),
        m.add_block_arg(block, name, ty, provenance).leveled(levels),
{
    let m2 = m.add_block_arg(block, name, ty, provenance);
    assert forall|i: int| 0 <= i < m2.ops.len() implies (#[trigger] m2.ops[i]).id
        == OperationId::at(i) && m2.op_in_bounds(m2.ops[i]) by {
        assert(m.op_in_bounds(m.ops[i]));
    }
    assert forall|i: int| 0 <= i < m2.blocks.len() implies (#[trigger] m2.blocks[i]).id
        == BlockId::at(i) && m2.block_in_bounds(m2.blocks[i]) by {
        assert(m.block_in_bounds(m.blocks[i]));
    }
    assert forall|i: int| 0 <= i < m2.regions.len() implies (#[trigger] m2.regions[i]).id
        == RegionId::at(i) && m2.region_in_bounds(m2.regions[i]) by {
        assert(m.region_in_bounds(m.regions[i]));
    }
    assert forall|i: int| 0 <= i < m2.values.len() implies (#[trigger] m2.values[i]).id
        == ValueId::at(i) && m2.value_in_bounds(m2.values[i]) by {
        if i < m.values.len() {
            assert(m2.values[i] == m.values[i]);
            assert(m.value_in_bounds(m.values[i]));
        }
    }
    assert forall|r: int, x: int, o: int, n: int| m2.has_child(r, x, o, n) implies levels[(
    #[trigger] m2.child(r, x, o, n)).spec_index()] > levels[r] by {
        assert(m.region_in_bounds(m.regions[r]));
        assert(m.has_block(m.regions[r].blocks[x]));
        assert(m.has_child(r, x, o, n));
        assert(m.child(r, x, o, n) == m2.child(r, x, o, n));
    }
    assert forall|r: int| 0 <= r < m2.regions.len() implies m2.inside_owner(
        levels,
        #[trigger] m2.regions[r],
    ) by {
        assert(m.inside_owner(levels, m.regions[r]));
        assert(m.region_in_bounds(m.regions[r]));
        if let Some(owner) = m.regions[r].parent {
            assert(m.op_in_bounds(m.ops[owner.spec_index()]));
        }
    }
}

/// The empty module is well formed.
pub proof fn empty_is_well_formed(name: Seq<char>)
    ensures
        ModuleView::empty(name).in_bounds(),
        ModuleView::empty(name).leveled(seq![0nat]),
        ModuleView::empty(name).well_formed(),
{
    let m = ModuleView::empty(name);
    let levels = seq![0nat];
    assert(m.leveled(levels));
}

/// Rewriting the uses of one value into uses of another keeps the module in
/// bounds and the levels as they were.
pub proof fn replace_all_uses_keeps(m: ModuleView, levels: Seq<nat>, from: ValueId, to: ValueId)
    requires
        m.in_bounds(),
        m.leveled(levels),
        m.has_value(to),
    ensures
        m.replace_all_uses(from, to).in_bounds(),
        m.replace_all_uses(from, to).leveled(levels),
{
    let b = m.replace_all_uses(from, to);
    assert forall|i: int| 0 <= i < b.ops.len() implies (#[trigger] b.ops[i]).id
        == OperationId::at(i) && b.op_in_bounds(b.ops[i]) by {
        assert(m.op_in_bounds(m.ops[i]));
        assert forall|k: int| 0 <= k < b.ops[i].operands.len() implies b.has_value(
            #[trigger] b.ops[i].operands[k],
        ) by {
            assert(m.has_value(m.ops[i].operands[k]));
        }
    }
    assert forall|i: int| 0 <= i < b.blocks.len() implies (#[trigger] b.blocks[i]).id
        == BlockId::at(i) && b.block_in_bounds(b.blocks[i]) by {
        assert(m.block_in_bounds(m.blocks[i]));
    }
    assert forall|i: int| 0 <= i < b.regions.len() implies (#[trigger] b.regions[i]).id
        == RegionId::at(i) && b.region_in_bounds(b.regions[i]) by {
        assert(m.region_in_bounds(m.regions[i]));
    }
    assert forall|i: int| 0 <= i < b.values.len() implies (#[trigger] b.values[i]).id
        == ValueId::at(i) && b.value_in_bounds(b.values[i]) by {
        assert(m.value_in_bounds(m.values[i]));
    }
    assert forall|r: int, x: int, o: int, n: int| b.has_child(r, x, o, n) implies levels[(
    #[trigger] b.child(r, x, o, n)).spec_index()] > levels[r] by {
        assert(m.region_in_bounds(m.regions[r]));
        let block = m.regions[r].blocks[x];
        assert(m.has_block(block));
        assert(m.block_in_bounds(m.blocks[block.spec_index()]));
        assert(m.has_op(m.block(block).ops[o]));
        assert(m.has_child(r, x, o, n));
        assert(m.child(r, x, o, n) == b.child(r, x, o, n));
    }
    assert forall|r: int| 0 <= r < b.regions.len() implies b.inside_owner(
        levels,
        #[trigger] b.regions[r],
    ) by {
        assert(m.inside_owner(levels, m.regions[r]));
        assert(m.region_in_bounds(m.regions[r]));
    }
}

/// Taking an operation out of a list keeps the others, and only those.
proof fn lemma_without(ops: Seq<OperationId>, op: OperationId)
    ensures
        forall|i: int|
            0 <= i < without(ops, op).len() ==> #[trigger] without(ops, op)[i] != op && exists|
                k: int,
            |
                0 <= k < ops.len() && ops[k] == without(ops, op)[i],
        ops.no_duplicates() ==> without(ops, op).no_duplicates(),
    decreases ops.len(),
{
    reveal(Seq::filter);
    let keep = |o: OperationId| o != op;
    if ops.len() > 0 {
        let rest = ops.drop_last();
        lemma_without(rest, op);
        let kept = without(rest, op);
        assert forall|i: int| 0 <= i < without(ops, op).len() implies #[trigger] without(ops, op)[i]
            != op && exists|k: int| 0 <= k < ops.len() && ops[k] == without(ops, op)[i] by {
            if i < kept.len() {
                assert(without(ops, op)[i] == kept[i]);
                let k = choose|k: int| 0 <= k < rest.len() && rest[k] == kept[i];
                assert(ops[k] == without(ops, op)[i]);
            } else {
                assert(ops[ops.len() - 1] == without(ops, op)[i]);
            }
        }
        if ops.no_duplicates() {
            assert(rest.no_duplicates()) by {
                assert forall|i: int, j: int|
                    0 <= i < rest.len() && 0 <= j < rest.len() && i != j implies rest[i]
                    != rest[j] by {
                    assert(ops[i] != ops[j]);
                }
            }
            if ops.last() != op {
                assert forall|i: int| 0 <= i < kept.len() implies kept[i] != ops.last() by {
                    let k = choose|k: int| 0 <= k < rest.len() && rest[k] == kept[i];
                    assert(ops[k] != ops[ops.len() - 1]);
                }
            }
        }
    }
}

/// Taking an operation out of its block keeps the module in bounds and the
/// levels as they were.
pub proof fn detach_keeps(m: ModuleView, levels: Seq<nat>, op: OperationId)
    requires
        m.in_bounds(),
        m.leveled(levels),
        m.has_op(op),
    ensures
        m.detach(op).in_bounds(),
        m.detach(op).leveled(levels),
{
    let b = m.detach(op);
    assert(m.op_in_bounds(m.ops[op.spec_index()]));
    if let Some(block) = m.op(op).parent {
        let ops = m.block(block).ops;
        lemma_without(ops, op);
        assert(m.block_in_bounds(m.blocks[block.spec_index()]));
        assert forall|i: int| 0 <= i < b.ops.len() implies (#[trigger] b.ops[i]).id
            == OperationId::at(i) && b.op_in_bounds(b.ops[i]) by {
            assert(m.op_in_bounds(m.ops[i]));
        }
        assert forall|i: int| 0 <= i < b.blocks.len() implies (#[trigger] b.blocks[i]).id
            == BlockId::at(i) && b.block_in_bounds(b.blocks[i]) by {
            assert(m.block_in_bounds(m.blocks[i]));
            assert forall|k: int| 0 <= k < b.blocks[i].ops.len() implies b.has_op(
                #[trigger] b.blocks[i].ops[k],
            ) && b.op(b.blocks[i].ops[k]).parent == Some(b.blocks[i].id) by {
                if i == block.spec_index() {
                    let o = without(ops, op)[k];
                    assert(b.blocks[i].ops[k] == o);
                    let j = choose|j: int| 0 <= j < ops.len() && ops[j] == o;
                    assert(m.has_op(ops[j]));
                } else {
                    assert(m.has_op(m.blocks[i].ops[k]));
                    assert(m.op(m.blocks[i].ops[k]).parent == Some(m.blocks[i].id));
                    assert(m.blocks[block.spec_index()].id == BlockId::at(block.spec_index()));
                    assert(m.blocks[i].ops[k] != op);
                }
            }
        }
        assert forall|i: int| 0 <= i < b.regions.len() implies (#[trigger] b.regions[i]).id
            == RegionId::at(i) && b.region_in_bounds(b.regions[i]) by {
            assert(m.region_in_bounds(m.regions[i]));
        }
        assert forall|i: int| 0 <= i < b.values.len() implies (#[trigger] b.values[i]).id
            == ValueId::at(i) && b.value_in_bounds(b.values[i]) by {
            assert(m.value_in_bounds(m.values[i]));
        }
        assert forall|r: int, x: int, o: int, n: int| b.has_child(r, x, o, n) implies levels[(
        #[trigger] b.child(r, x, o, n)).spec_index()] > levels[r] by {
            assert(m.region_in_bounds(m.regions[r]));
            let block2 = m.regions[r].blocks[x];
            assert(m.has_block(block2));
            assert(m.block_in_bounds(m.blocks[block2.spec_index()]));
            let o2 = b.block(block2).ops[o];
            let j = if block2 == block {
                assert(o2 == without(ops, op)[o]);
                choose|j: int| 0 <= j < ops.len() && ops[j] == o2
            } else {
                o
            };
            assert(m.block(block2).ops[j] == o2);
            assert(m.has_op(m.block(block2).ops[j]));
            assert(m.has_child(r, x, j, n));
            assert(m.child(r, x, j, n) == b.child(r, x, o, n));
        }
        assert forall|r: int| 0 <= r < b.regions.len() implies b.inside_owner(
            levels,
            #[trigger] b.regions[r],
        ) by {
            assert(m.inside_owner(levels, m.regions[r]));
            assert(m.region_in_bounds(m.regions[r]));
            if let Some(owner) = m.regions[r].parent {
                assert(m.op_in_bounds(m.ops[owner.spec_index()]));
            }
        }
    }
}

/// Erasing an operation keeps the module in bounds and the levels as they were.
pub proof fn erase_keeps(m: ModuleView, levels: Seq<nat>, op: OperationId)
    requires
        m.in_bounds(),
        m.leveled(levels),
        m.has_op(op),
    ensures
        m.erase(op).in_bounds(),
        m.erase(op).leveled(levels),
{
    detach_keeps(m, levels, op);
    same_structure_keeps(m.detach(op), m.erase(op), levels);
}

/// The levels with room for one more below a level: everything deeper moves
/// one step inward.
pub open spec fn shifted(levels: Seq<nat>, level: nat) -> Seq<nat> {
    Seq::new(
        levels.len(),
        |i: int|
            if levels[i] > level {
                levels[i] + 1
            } else {
                levels[i]
            },
    )
}

/// A new region of an operation keeps the module in bounds, with the new region
/// one level deeper than the operation and strictly above everything that was
/// deeper.
pub proof fn create_op_region_shifts(m: ModuleView, levels: Seq<nat>, op: OperationId, outer: RegionId)
    requires
        m.in_bounds(),
        m.leveled(levels),
        m.has_op(op),
        m.regions.len() <= u32::MAX,
        m.region_of(op) == Some(outer),
    ensures
        m.has_region(outer),
        m.create_op_region(op).in_bounds(),
        m.create_op_region(op).leveled(
            shifted(levels, levels[outer.spec_index()]).push(levels[outer.spec_index()] + 1),
        ),
{
    create_op_region_keeps(m, levels, op);
    let m2 = m.create_op_region(op);
    let level = levels[outer.spec_index()];
    let old_levels = levels_with_region(m, levels, op);
    let new_levels = shifted(levels, level).push(level + 1);
    assert(m.op_in_bounds(m.ops[op.spec_index()]));
    let block = m.op(op).parent->0;
    assert(m.block_in_bounds(m.blocks[block.spec_index()]));
    assert(m.has_region(outer));
    let fresh = m.regions.len() as int;
    assert forall|r: int, x: int, o: int, n: int| m2.has_child(r, x, o, n) implies new_levels[(
    #[trigger] m2.child(r, x, o, n)).spec_index()] > new_levels[r] by {
        let c = m2.child(r, x, o, n).spec_index();
        assert(old_levels[c] > old_levels[r]);
        assert(r < fresh) by {
            assert(m2.regions[fresh].blocks.len() == 0);
        }
        assert(m2.region_in_bounds(m2.regions[r]));
        let b = m2.regions[r].blocks[x];
        assert(m2.has_block(b));
        assert(m2.block_in_bounds(m2.blocks[b.spec_index()]));
        let inner = m2.block(b).ops[o];
        assert(m2.has_op(inner));
        assert(m2.op_in_bounds(m2.ops[inner.spec_index()]));
        assert(m2.has_region(m2.op(inner).regions[n]));
        if c == fresh {
            // Only the operation that got the region owns it.
            if inner != op {
                assert(m.op_in_bounds(m.ops[inner.spec_index()]));
                assert(m.has_region(m.op(inner).regions[n]));
            } else {
                assert(m2.op(op).parent == Some(b));
                assert(m2.block(b).parent == outer);
            }
        }
    }
    assert forall|r: int| 0 <= r < m2.regions.len() implies m2.inside_owner(
        new_levels,
        #[trigger] m2.regions[r],
    ) by {
        assert(m2.inside_owner(old_levels, m2.regions[r]));
        assert(m2.region_in_bounds(m2.regions[r]));
        if let Some(owner) = m2.regions[r].parent {
            assert(m2.op_in_bounds(m2.ops[owner.spec_index()]));
            if let Some(b) = m2.op(owner).parent {
                assert(m2.block_in_bounds(m2.blocks[b.spec_index()]));
                let out = m2.block(b).parent;
                assert(m.op(owner).parent == m2.op(owner).parent);
                assert(m.block(b) == m2.block(b));
                assert(m.block_in_bounds(m.blocks[b.spec_index()]));
                assert(out.spec_index() < fresh);
            }
        }
    }
}

/// Moving an operation to the end of a block keeps the module in bounds, when
/// everything nested in it lies deeper than that block.
pub proof fn move_to_end_keeps(m: ModuleView, levels: Seq<nat>, op: OperationId, block: BlockId)
    requires
        m.in_bounds(),
        m.leveled(levels),
        m.has_op(op),
        m.has_block(block),
        forall|n: int|
            0 <= n < m.op(op).regions.len() ==> levels[(
            #[trigger] m.op(op).regions[n]).spec_index()] > levels[m.block(
                block,
            ).parent.spec_index()],
        forall|r: int|
            0 <= r < m.regions.len() && (#[trigger] m.regions[r]).parent == Some(op) ==> levels[r]
                > levels[m.block(block).parent.spec_index()],
    ensures
        m.detach(op).append_to_block(block, op).in_bounds(),
        m.detach(op).append_to_block(block, op).leveled(levels),
{
    detach_keeps(m, levels, op);
    lemma_detached(m, op);
    append_keeps(m.detach(op), levels, op, block);
}

proof fn lemma_detached(m: ModuleView, op: OperationId)
    requires
        m.in_bounds(),
        m.has_op(op),
    ensures
        m.detach(op).op(op) == (OperationView { parent: None, ..m.op(op) }),
        m.detach(op).regions == m.regions,
        forall|b: int|
            0 <= b < m.blocks.len() ==> (#[trigger] m.detach(op).blocks[b]).parent
                == m.blocks[b].parent,
{
    assert(m.op_in_bounds(m.ops[op.spec_index()]));
    if m.op(op).parent is None {
        assert(m.op(op) == (OperationView { parent: None, ..m.op(op) }));
    }
}

/// Appending an operation that is in no block keeps the module in bounds, when
/// everything nested in it lies deeper than the block.
pub proof fn append_keeps(m: ModuleView, levels: Seq<nat>, op: OperationId, block: BlockId)
    requires
        m.in_bounds(),
        m.leveled(levels),
        m.has_op(op),
        m.has_block(block),
        m.op(op).parent is None,
        forall|n: int|
            0 <= n < m.op(op).regions.len() ==> levels[(
            #[trigger] m.op(op).regions[n]).spec_index()] > levels[m.block(
                block,
            ).parent.spec_index()],
        forall|r: int|
            0 <= r < m.regions.len() && (#[trigger] m.regions[r]).parent == Some(op) ==> levels[r]
                > levels[m.block(block).parent.spec_index()],
    ensures
        m.append_to_block(block, op).in_bounds(),
        m.append_to_block(block, op).leveled(levels),
{
    assert(m.append_to_block(block, op) =~= m.insert_in_block(
        block,
        m.block(block).ops.len() as int,
        op,
    )) by {
        assert(m.block(block).ops.push(op) =~= m.block(block).ops.insert(
            m.block(block).ops.len() as int,
            op,
        ));
    }
    insert_keeps(m, levels, op, block, m.block(block).ops.len() as int);
}

/// Inserting an operation that is in no block keeps the module in bounds, when
/// everything nested in it lies deeper than the block.
pub proof fn insert_keeps(m: ModuleView, levels: Seq<nat>, op: OperationId, block: BlockId, at: int)
    requires
        m.in_bounds(),
        m.leveled(levels),
        m.has_op(op),
        m.has_block(block),
        m.op(op).parent is None,
        0 <= at <= m.block(block).ops.len(),
        forall|n: int|
            0 <= n < m.op(op).regions.len() ==> levels[(
            #[trigger] m.op(op).regions[n]).spec_index()] > levels[m.block(
                block,
            ).parent.spec_index()],
        forall|r: int|
            0 <= r < m.regions.len() && (#[trigger] m.regions[r]).parent == Some(op) ==> levels[r]
                > levels[m.block(block).parent.spec_index()],
    ensures
        m.insert_in_block(block, at, op).in_bounds(),
        m.insert_in_block(block, at, op).leveled(levels),
{
    let b = m.insert_in_block(block, at, op);
    let ops = m.block(block).ops;
    assert(m.op_in_bounds(m.ops[op.spec_index()]));
    assert(m.block_in_bounds(m.blocks[block.spec_index()]));
    assert(m.blocks[block.spec_index()].id == BlockId::at(block.spec_index()));
    assert(BlockId::at(block.spec_index()) == block);
    assert forall|i: int| 0 <= i < b.ops.len() implies (#[trigger] b.ops[i]).id
        == OperationId::at(i) && b.op_in_bounds(b.ops[i]) by {
        assert(m.op_in_bounds(m.ops[i]));
    }
    assert forall|i: int| 0 <= i < b.blocks.len() implies (#[trigger] b.blocks[i]).id
        == BlockId::at(i) && b.block_in_bounds(b.blocks[i]) by {
        assert(m.block_in_bounds(m.blocks[i]));
        assert forall|k: int| 0 <= k < b.blocks[i].ops.len() implies b.has_op(
            #[trigger] b.blocks[i].ops[k],
        ) && b.op(b.blocks[i].ops[k]).parent == Some(b.blocks[i].id) by {
            if i == block.spec_index() {
                if k != at {
                    let j = if k < at {
                        k
                    } else {
                        k - 1
                    };
                    assert(b.blocks[i].ops[k] == ops[j]);
                    assert(m.has_op(ops[j]));
                    assert(m.op(ops[j]).parent is Some);
                }
            } else {
                assert(m.has_op(m.blocks[i].ops[k]));
                assert(m.op(m.blocks[i].ops[k]).parent is Some);
            }
        }
        if i == block.spec_index() {
            assert forall|x: int, y: int|
                0 <= x < b.blocks[i].ops.len() && 0 <= y < b.blocks[i].ops.len() && x
                    != y implies b.blocks[i].ops[x] != b.blocks[i].ops[y] by {
                let jx = if x < at {
                    x
                } else {
                    x - 1
                };
                let jy = if y < at {
                    y
                } else {
                    y - 1
                };
                if x != at {
                    assert(b.blocks[i].ops[x] == ops[jx]);
                    assert(m.has_op(ops[jx]) && m.op(ops[jx]).parent is Some);
                }
                if y != at {
                    assert(b.blocks[i].ops[y] == ops[jy]);
                    assert(m.has_op(ops[jy]) && m.op(ops[jy]).parent is Some);
                }
            }
        }
    }
    assert forall|i: int| 0 <= i < b.regions.len() implies (#[trigger] b.regions[i]).id
        == RegionId::at(i) && b.region_in_bounds(b.regions[i]) by {
        assert(m.region_in_bounds(m.regions[i]));
    }
    assert forall|i: int| 0 <= i < b.values.len() implies (#[trigger] b.values[i]).id
        == ValueId::at(i) && b.value_in_bounds(b.values[i]) by {
        assert(m.value_in_bounds(m.values[i]));
    }
    assert forall|r: int, x: int, o: int, n: int| b.has_child(r, x, o, n) implies levels[(
    #[trigger] b.child(r, x, o, n)).spec_index()] > levels[r] by {
        assert(m.region_in_bounds(m.regions[r]));
        let block2 = m.regions[r].blocks[x];
        assert(m.has_block(block2));
        assert(m.block_in_bounds(m.blocks[block2.spec_index()]));
        let o2 = b.block(block2).ops[o];
        if block2 == block && o == at {
            assert(o2 == op);
            assert(m.block(block).parent == RegionId::at(r));
            assert(b.child(r, x, o, n) == m.op(op).regions[n]);
        } else {
            let j = if block2 == block && o > at {
                o - 1
            } else {
                o
            };
            assert(m.block(block2).ops[j] == o2);
            assert(m.has_op(m.block(block2).ops[j]));
            assert(m.op(o2).parent is Some);
            assert(m.has_child(r, x, j, n));
            assert(m.child(r, x, j, n) == b.child(r, x, o, n));
        }
    }
    assert forall|r: int| 0 <= r < b.regions.len() implies b.inside_owner(
        levels,
        #[trigger] b.regions[r],
    ) by {
        assert(m.inside_owner(levels, m.regions[r]));
        assert(m.region_in_bounds(m.regions[r]));
        assert(m.regions[r].id == RegionId::at(r));
        if let Some(owner) = m.regions[r].parent {
            assert(m.op_in_bounds(m.ops[owner.spec_index()]));
            if owner == op {
                assert(levels[r] > levels[m.block(block).parent.spec_index()]);
            }
        }
    }
}

/// A new operation in no block keeps the module in bounds and the levels as
/// they were.
pub proof fn create_op_keeps(
    m: ModuleView,
    levels: Seq<nat>,
    name: OpNameView,
    literal: Option<Seq<char>>,
    operands: Seq<ValueId>,
    results: Seq<ResultView>,
    attributes: Seq<(Seq<char>, AttributeView)>,
    effect: EffectView,
)
    requires
        m.in_bounds(),
        m.leveled(levels),
        m.ops.len() <= u32::MAX,
        m.values.len() + results.len() <= u32::MAX + 1,
        forall|i: int| 0 <= i < operands.len() ==> m.has_value(#[trigger] operands[i]),
    ensures
        m.create_op(name, literal, operands, results, attributes, effect).in_bounds(),
        m.create_op(name, literal, operands, results, attributes, effect).leveled(levels),
{
    let m2 = m.create_op(name, literal, operands, results, attributes, effect);
    let created = m.result_values(results);
    assert forall|i: int| 0 <= i < m2.ops.len() implies (#[trigger] m2.ops[i]).id
        == OperationId::at(i) && m2.op_in_bounds(m2.ops[i]) by {
        if i < m.ops.len() {
            assert(m2.ops[i] == m.ops[i]);
            assert(m.op_in_bounds(m.ops[i]));
        }
    }
    assert forall|i: int| 0 <= i < m2.blocks.len() implies (#[trigger] m2.blocks[i]).id
        == BlockId::at(i) && m2.block_in_bounds(m2.blocks[i]) by {
        assert(m.block_in_bounds(m.blocks[i]));
        assert forall|k: int| 0 <= k < m2.blocks[i].ops.len() implies m2.has_op(
            #[trigger] m2.blocks[i].ops[k],
        ) && m2.op(m2.blocks[i].ops[k]).parent == Some(m2.blocks[i].id) by {
            assert(m.has_op(m.blocks[i].ops[k]));
        }
    }
    assert forall|i: int| 0 <= i < m2.regions.len() implies (#[trigger] m2.regions[i]).id
        == RegionId::at(i) && m2.region_in_bounds(m2.regions[i]) by {
        assert(m.region_in_bounds(m.regions[i]));
    }
    assert forall|i: int| 0 <= i < m2.values.len() implies (#[trigger] m2.values[i]).id
        == ValueId::at(i) && m2.value_in_bounds(m2.values[i]) by {
        if i < m.values.len() {
            assert(m2.values[i] == m.values[i]);
            assert(m.value_in_bounds(m.values[i]));
        } else {
            assert(m2.values[i] == created[i - m.values.len()]);
        }
    }
    assert forall|r: int, x: int, o: int, n: int| m2.has_child(r, x, o, n) implies levels[(
    #[trigger] m2.child(r, x, o, n)).spec_index()] > levels[r] by {
        assert(m.region_in_bounds(m.regions[r]));
        let b = m.regions[r].blocks[x];
        assert(m.has_block(b));
        assert(m.block_in_bounds(m.blocks[b.spec_index()]));
        assert(m.has_op(m.block(b).ops[o]));
        assert(m.has_child(r, x, o, n));
        assert(m.child(r, x, o, n) == m2.child(r, x, o, n));
    }
    assert forall|r: int| 0 <= r < m2.regions.len() implies m2.inside_owner(
        levels,
        #[trigger] m2.regions[r],
    ) by {
        assert(m.inside_owner(levels, m.regions[r]));
        assert(m.region_in_bounds(m.regions[r]));
        if let Some(owner) = m.regions[r].parent {
            assert(m2.op(owner) == m.op(owner));
            assert(m.op_in_bounds(m.ops[owner.spec_index()]));
        }
    }
}

impl ModuleView {
    /// Whether every region has a first block.
    pub open spec fn complete(self) -> bool {
        forall|i: int| 0 <= i < self.regions.len() ==> (#[trigger] self.regions[i]).blocks.len() > 0
    }
}

/// Whether no region lost a block, and every new region has one.
pub open spec fn grows(a: ModuleView, b: ModuleView) -> bool {
    &&& a.regions.len() <= b.regions.len()
    &&& forall|i: int|
        0 <= i < a.regions.len() ==> a.regions[i].blocks.len() <= (
        #[trigger] b.regions[i]).blocks.len()
    &&& forall|i: int|
        a.regions.len() <= i < b.regions.len() ==> (#[trigger] b.regions[i]).blocks.len() > 0
}

} // verus!
