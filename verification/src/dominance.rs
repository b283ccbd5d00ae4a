//! Dominance over structured control flow.
//!
//! There is no arbitrary control-flow graph: control flow is `control.if`,
//! `control.while`, `control.loop` and `control.parallel`, each owning regions.
//! Dominance therefore collapses to a lexical question (is the definition in
//! an enclosing block, at an earlier position?), which is both cheaper and
//! easier to get right than a dominator tree.

use vstd::prelude::*;

use crate::ids::{BlockId, OperationId, ValueId};
use crate::module::{position_of, Module, ModuleView, ValueDef};

verus! {

/// One step of the chain from an operation out to the module body.
#[derive(Clone, Copy, Debug, PartialEq, Eq, Structural)]
pub struct Frame {
    /// A block enclosing the operation.
    pub block: BlockId,
    /// The position, inside that block, of the operation or of the enclosing
    /// operation that contains it.
    pub position: usize,
}

/// The first position of an operation in a list, from `i` on.
pub open spec fn position_from(ops: Seq<OperationId>, op: OperationId, i: int) -> Option<int>
    decreases ops.len() - i,
{
    if i < 0 || i >= ops.len() {
        None
    } else if ops[i] == op {
        Some(i)
    } else {
        position_from(ops, op, i + 1)
    }
}

impl ModuleView {
    /// The position of an operation inside its block.
    pub open spec fn position(self, op: OperationId) -> Option<int> {
        match self.op(op).parent {
            Some(block) => position_from(self.block(block).ops, op, 0),
            None => None,
        }
    }

    /// The blocks enclosing an operation, innermost first, at most `fuel` of
    /// them.
    pub open spec fn chain(self, op: OperationId, fuel: nat) -> Seq<Frame>
        decreases fuel,
    {
        if fuel == 0 {
            Seq::empty()
        } else {
            match (self.op(op).parent, self.position(op)) {
                (Some(block), Some(position)) => {
                    let frame = Frame { block, position: position as usize };
                    match self.parent_op(op) {
                        Some(parent) => seq![frame] + self.chain(parent, (fuel - 1) as nat),
                        None => seq![frame],
                    }
                },
                _ => Seq::empty(),
            }
        }
    }

    /// The blocks enclosing an operation, innermost first.
    pub open spec fn enclosing(self, op: OperationId) -> Seq<Frame> {
        self.chain(op, self.regions.len() + 1)
    }

    /// Whether a value is defined before an operation on every path that
    /// reaches it: a block argument when its block encloses the operation, a
    /// result when its producer stands earlier in an enclosing block.
    pub open spec fn dominates(self, value: ValueId, op: OperationId) -> bool {
        let chain = self.enclosing(op);
        match self.value(value).def {
            ValueDef::BlockArg { block, .. } => frame_of(chain, block, 0) is Some,
            ValueDef::OpResult { op: producer, .. } => {
                &&& !self.op(producer).erased
                &&& self.op(producer).parent matches Some(block) && self.position(
                    producer,
                ) matches Some(position) && frame_of(chain, block, 0) matches Some(frame)
                    && position < frame.position
            },
        }
    }
}

/// The first frame of a chain, from position `i` on, that passes through a
/// block.
pub open spec fn frame_of(chain: Seq<Frame>, block: BlockId, i: int) -> Option<Frame>
    decreases chain.len() - i,
{
    if i < 0 || i >= chain.len() {
        None
    } else if chain[i].block == block {
        Some(chain[i])
    } else {
        frame_of(chain, block, i + 1)
    }
}

/// A position that comes first is the one that is found.
pub proof fn lemma_position(ops: Seq<OperationId>, op: OperationId, i: int, from: int)
    requires
        position_of(ops, op, i),
        0 <= from <= i,
    ensures
        position_from(ops, op, from) == Some(i),
    decreases i - from,
{
    if from < i {
        lemma_position(ops, op, i, from + 1);
    }
}

/// An operation that is not in a list has no position in it.
pub proof fn lemma_no_position(ops: Seq<OperationId>, op: OperationId, from: int)
    requires
        !ops.contains(op),
        0 <= from,
    ensures
        position_from(ops, op, from) is None,
    decreases ops.len() - from,
{
    if from < ops.len() {
        assert(ops[from] != op);
        lemma_no_position(ops, op, from + 1);
    }
}

/// A position that is found is in range, and holds the operation.
pub proof fn lemma_position_valid(ops: Seq<OperationId>, op: OperationId, from: int)
    requires
        0 <= from,
    ensures
        position_from(ops, op, from) matches Some(i) ==> from <= i < ops.len() && ops[i] == op,
    decreases ops.len() - from,
{
    if from < ops.len() && ops[from] != op {
        lemma_position_valid(ops, op, from + 1);
    }
}

/// The position of an operation inside its block, as the model has it.
fn position(module: &Module, op: OperationId) -> (r: Option<usize>)
    requires
        module@.in_bounds(),
        module@.has_op(op),
    ensures
        match r {
            Some(i) => module@.position(op) == Some(i as int),
            None => module@.position(op) is None,
        },
{
    proof {
        assert(module@.op_in_bounds(module@.ops[op.spec_index()]));
    }
    let r = module.position_in_block(op);
    proof {
        if let Some(block) = module@.op(op).parent {
            let ops = module@.block(block).ops;
            match r {
                Some(i) => lemma_position(ops, op, i as int, 0),
                None => lemma_no_position(ops, op, 0),
            }
        }
    }
    r
}

/// The blocks enclosing an operation, innermost first.
///
/// Each frame records where the chain passes through that block, which is what
/// makes "defined earlier" answerable at every level at once.
pub fn enclosing_chain(module: &Module, op: OperationId) -> (r: Vec<Frame>)
    requires
        module@.well_formed(),
        module@.has_op(op),
    ensures
        r@ == module@.enclosing(op),
{
    let ghost m = module@;
    let ghost levels = choose|levels: Seq<nat>| m.leveled(levels);
    let ghost mut fuel: nat = m.regions.len() + 1;
    let ghost total = m.enclosing(op);
    let mut chain: Vec<Frame> = Vec::new();
    let mut current = op;
    let mut done = false;
    assert(chain@ + m.chain(current, fuel) =~= total);
    while !done
        invariant
            m == module@,
            m.in_bounds(),
            m.leveled(levels),
            m.has_op(current),
            !done ==> chain@ + m.chain(current, fuel) == total,
            done ==> chain@ == total,
            m.region_of(current) matches Some(r) ==> fuel > levels[r.spec_index()] + 1,
            m.region_of(current) is None ==> fuel > 0,
        decreases fuel, (if done { 0int } else { 1int }),
    {
        let ghost before = chain@;
        proof {
            assert(m.op_in_bounds(m.ops[current.spec_index()]));
            if let Some(b) = m.op(current).parent {
                assert(m.block_in_bounds(m.blocks[b.spec_index()]));
                let r = m.block(b).parent;
                assert(m.inside_owner(levels, m.regions[r.spec_index()]));
            }
        }
        match (module.op(current).parent, position(module, current)) {
            (Some(block), Some(position)) => {
                chain.push(Frame { block, position });
                match module.parent_op(current) {
                    Some(parent) => {
                        proof {
                            assert(before + m.chain(current, fuel) =~= chain@ + m.chain(
                                parent,
                                (fuel - 1) as nat,
                            ));
                            fuel = (fuel - 1) as nat;
                        }
                        current = parent;
                    },
                    None => {
                        done = true;
                        assert(before + m.chain(current, fuel) =~= chain@);
                    },
                }
            },
            _ => {
                done = true;
                assert(before + m.chain(current, fuel) =~= chain@);
            },
        }
    }
    chain
}

fn find_frame(chain: &Vec<Frame>, block: BlockId) -> (r: Option<Frame>)
    ensures
        r == frame_of(chain@, block, 0),
{
    let mut i: usize = 0;
    while i < chain.len()
        invariant
            i <= chain@.len(),
            frame_of(chain@, block, 0) == frame_of(chain@, block, i as int),
        decreases chain@.len() - i,
    {
        if chain[i].block == block {
            return Some(chain[i]);
        }
        i += 1;
    }
    None
}

/// Whether `value` is defined before `op` on every path that reaches it.
///
/// A block argument dominates everything in its block and in the regions
/// nested inside it. An operation result dominates an operation that appears
/// later in the same block, or anywhere inside a region that operation owns.
pub fn dominates(module: &Module, value: ValueId, op: OperationId) -> (r: bool)
    requires
        module@.well_formed(),
        module@.has_op(op),
        module@.has_value(value),
    ensures
        r == module@.dominates(value, op),
{
    let chain = enclosing_chain(module, op);
    proof {
        assert(module@.value_in_bounds(module@.values[value.spec_index()]));
    }
    match module.value(value).def {
        ValueDef::BlockArg { block, .. } => find_frame(&chain, block).is_some(),
        ValueDef::OpResult { op: producer, .. } => {
            if module.op(producer).erased {
                return false;
            }
            match (module.op(producer).parent, position(module, producer)) {
                (Some(block), Some(position)) => match find_frame(&chain, block) {
                    Some(frame) => position < frame.position,
                    None => false,
                },
                _ => false,
            }
        },
    }
}

/// No result dominates the operation that produces it.
pub proof fn no_result_dominates_its_producer(m: ModuleView, value: ValueId, op: OperationId)
    requires
        m.in_bounds(),
        m.has_op(op),
        m.value(value).producer() == Some(op),
    ensures
        !m.dominates(value, op),
{
    if m.dominates(value, op) {
        let block = m.op(op).parent->0;
        let position = m.position(op)->0;
        let chain = m.enclosing(op);
        lemma_position_valid(m.block(block).ops, op, 0);
        assert(m.op_in_bounds(m.ops[op.spec_index()]));
        assert(m.block_in_bounds(m.blocks[block.spec_index()]));
        assert(chain[0] == Frame { block, position: position as usize });
        assert(frame_of(chain, block, 0) == Some(chain[0]));
        assert(m.block(block).ops.len() <= m.ops.len()) by {
            lemma_distinct_bounded(m, m.block(block).ops);
        }
    }
}

pub proof fn lemma_distinct_bounded(m: ModuleView, ops: Seq<OperationId>)
    requires
        ops.no_duplicates(),
        forall|i: int| 0 <= i < ops.len() ==> m.has_op(#[trigger] ops[i]),
    ensures
        ops.len() <= m.ops.len(),
{
    let indices = Seq::new(ops.len(), |i: int| ops[i].spec_index());
    assert(indices.no_duplicates()) by {
        assert forall|i: int, j: int| 0 <= i < indices.len() && 0 <= j < indices.len() && i
            != j implies indices[i] != indices[j] by {
            assert(ops[i] != ops[j]);
        }
    }
    let bound = vstd::set_lib::set_int_range(0, m.ops.len() as int);
    vstd::set_lib::lemma_int_range(0, m.ops.len() as int);
    indices.unique_seq_to_set();
    assert(indices.to_set().subset_of(bound)) by {
        assert forall|x: int| indices.to_set().contains(x) implies bound.contains(x) by {
            let i = choose|i: int| 0 <= i < indices.len() && indices[i] == x;
            assert(m.has_op(ops[i]));
        }
    }
    vstd::set_lib::lemma_len_subset(indices.to_set(), bound);
}

} // verus!
