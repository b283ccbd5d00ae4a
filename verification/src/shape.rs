//! The tree of a module that was read.
//!
//! Its operations read only what is in scope where they stand, and what it
//! defines comes in the order of the values.

use vstd::prelude::*;

use crate::emit::result_names;
use crate::grammar::{
    begin_op, block_header, head, labelled_blocks, opens_dict, operation, operations, peek, region,
    regions, tail, Parsing,
};
use crate::ids::{BlockId, OperationId, RegionId, ValueId};
use crate::lexer::{TokView, TokenView};
use crate::module::ModuleView;
use crate::readable::{
    head_reads, ids_of, matched, module_read, op_read, tail_reads, toks_ok,
};
use crate::reading::{
    block_frame, blocks_frame, begun_is_read, created_region_is_read, extends, header_frame,
    op_frame, operation_frame, operations_frame, region_frame, regions_frame,
};
use crate::rebuild::{
    arg_names, beginning, blocks_defs, blocks_scoped, brought, fills, keeps, lines_up, marks_before,
    marks_of, nests, only_adds, op_defs, op_scoped, ops_defs, ops_scoped, region_scoped,
    regions_defs, sized, Marks,
};
use crate::reparse::consecutive;
use crate::roundtrip::all_kept;
use crate::tree::{
    block_tree, names_of, op_tree, region_tree, BlockTree, OpTree, RegionTree,
};

verus! {

// ------------------------------------------------------------- what is where

/// Whether all of an operation was created after some marks.
pub open spec fn op_within(m: ModuleView, id: OperationId, lo: Marks, fuel: nat) -> bool
    decreases fuel, 0int,
{
    let o = m.op(id);
    &&& lo.ops <= id.spec_index() < m.ops.len()
    &&& !o.erased
    &&& forall|k: int|
        0 <= k < o.results.len() ==> lo.values <= (#[trigger] o.results[k]).spec_index()
            < m.values.len()
    &&& fuel > 0 ==> forall|k: int|
        0 <= k < o.regions.len() ==> region_within(
            m,
            #[trigger] o.regions[k],
            lo,
            (fuel - 1) as nat,
        )
}

/// Whether all of a region was created after some marks, and there is a block in
/// it.
pub open spec fn region_within(m: ModuleView, id: RegionId, lo: Marks, fuel: nat) -> bool
    decreases fuel, 2int,
{
    let r = m.region(id);
    &&& lo.regions <= id.spec_index() < m.regions.len()
    &&& r.blocks.len() > 0
    &&& forall|k: int|
        0 <= k < r.blocks.len() ==> block_within(m, #[trigger] r.blocks[k], lo, fuel)
}

/// Whether all of a block was created after some marks.
pub open spec fn block_within(m: ModuleView, id: BlockId, lo: Marks, fuel: nat) -> bool
    decreases fuel, 1int,
{
    let b = m.block(id);
    &&& lo.blocks <= id.spec_index() < m.blocks.len()
    &&& forall|k: int|
        0 <= k < b.args.len() ==> lo.values <= (#[trigger] b.args[k]).spec_index()
            < m.values.len()
    &&& forall|k: int| 0 <= k < b.ops.len() ==> op_within(m, #[trigger] b.ops[k], lo, fuel)
}

/// Whether marks are marks.
pub open spec fn is_marks(lo: Marks) -> bool {
    0 <= lo.ops && 0 <= lo.values && 0 <= lo.blocks && 0 <= lo.regions
}

/// Operations that are not erased are all part of the tree.
proof fn all_live(m: ModuleView, ids: Seq<OperationId>)
    requires
        forall|k: int| 0 <= k < ids.len() ==> !m.op(#[trigger] ids[k]).erased,
    ensures
        m.live(ids) == ids,
{
    all_kept(ids, |op: OperationId| !m.op(op).erased);
}

/// What is kept keeps its tree.
pub proof fn op_is_unchanged(
    a: ModuleView,
    b: ModuleView,
    names: Seq<Seq<char>>,
    id: OperationId,
    lo: Marks,
    hi: Marks,
    fuel: nat,
)
    requires
        op_within(a, id, hi, fuel),
        marks_before(lo, hi),
        is_marks(lo),
        keeps(a, b, hi),
    ensures
        op_within(b, id, lo, fuel),
        op_tree(b, names, id, fuel) == op_tree(a, names, id, fuel),
    decreases fuel, 0int,
{
    let o = a.op(id);
    assert(b.ops[id.spec_index()] == a.ops[id.spec_index()]);
    let x = op_tree(a, names, id, fuel);
    let y = op_tree(b, names, id, fuel);
    assert forall|k: int| 0 <= k < o.results.len() implies x.results[k] == y.results[k] by {
        let v = o.results[k].spec_index();
        assert(b.values[v] == a.values[v]);
    }
    assert(x.results =~= y.results);
    if fuel > 0 {
        let f = (fuel - 1) as nat;
        assert forall|k: int| 0 <= k < o.regions.len() implies region_within(
            b,
            #[trigger] o.regions[k],
            lo,
            f,
        ) && x.regions[k] == y.regions[k] by {
            assert(region_within(a, o.regions[k], hi, f));
            region_is_unchanged(a, b, names, o.regions[k], lo, hi, f);
        }
        assert(x.regions =~= y.regions);
    }
}

/// What is kept keeps its tree.
pub proof fn region_is_unchanged(
    a: ModuleView,
    b: ModuleView,
    names: Seq<Seq<char>>,
    id: RegionId,
    lo: Marks,
    hi: Marks,
    fuel: nat,
)
    requires
        region_within(a, id, hi, fuel),
        marks_before(lo, hi),
        is_marks(lo),
        keeps(a, b, hi),
    ensures
        region_within(b, id, lo, fuel),
        region_tree(b, names, id, fuel) == region_tree(a, names, id, fuel),
    decreases fuel, 2int,
{
    let r = a.region(id);
    assert(b.regions[id.spec_index()] == a.regions[id.spec_index()]);
    let x = region_tree(a, names, id, fuel);
    let y = region_tree(b, names, id, fuel);
    assert forall|k: int| 0 <= k < r.blocks.len() implies block_within(
        b,
        #[trigger] r.blocks[k],
        lo,
        fuel,
    ) && x.blocks[k] == y.blocks[k] by {
        assert(block_within(a, r.blocks[k], hi, fuel));
        block_is_unchanged(a, b, names, r.blocks[k], lo, hi, fuel);
    }
    assert(x.blocks =~= y.blocks);
}

/// What is kept keeps its tree.
pub proof fn block_is_unchanged(
    a: ModuleView,
    b: ModuleView,
    names: Seq<Seq<char>>,
    id: BlockId,
    lo: Marks,
    hi: Marks,
    fuel: nat,
)
    requires
        block_within(a, id, hi, fuel),
        marks_before(lo, hi),
        is_marks(lo),
        keeps(a, b, hi),
    ensures
        block_within(b, id, lo, fuel),
        block_tree(b, names, id, fuel) == block_tree(a, names, id, fuel),
    decreases fuel, 1int,
{
    let o = a.block(id);
    assert(b.blocks[id.spec_index()] == a.blocks[id.spec_index()]);
    let x = block_tree(a, names, id, fuel);
    let y = block_tree(b, names, id, fuel);
    assert forall|k: int| 0 <= k < o.args.len() implies x.args[k] == y.args[k] by {
        let v = o.args[k].spec_index();
        assert(b.values[v] == a.values[v]);
    }
    assert(x.args =~= y.args);
    assert forall|k: int| 0 <= k < o.ops.len() implies op_within(b, #[trigger] o.ops[k], lo, fuel)
        && op_tree(b, names, o.ops[k], fuel) == op_tree(a, names, o.ops[k], fuel) && !a.op(
        o.ops[k],
    ).erased && !b.op(o.ops[k]).erased by {
        assert(op_within(a, o.ops[k], hi, fuel));
        op_is_unchanged(a, b, names, o.ops[k], lo, hi, fuel);
    }
    all_live(a, o.ops);
    all_live(b, o.ops);
    assert(x.ops =~= y.ops);
}

// ----------------------------------------------------------- lists of trees

/// The trees of some operations.
pub open spec fn op_trees(
    m: ModuleView,
    names: Seq<Seq<char>>,
    ids: Seq<OperationId>,
    fuel: nat,
) -> Seq<OpTree> {
    Seq::new(ids.len(), |k: int| op_tree(m, names, ids[k], fuel))
}

/// The trees of some regions.
pub open spec fn region_trees(
    m: ModuleView,
    names: Seq<Seq<char>>,
    ids: Seq<RegionId>,
    fuel: nat,
) -> Seq<RegionTree> {
    Seq::new(ids.len(), |k: int| region_tree(m, names, ids[k], fuel))
}

/// The trees of some blocks.
pub open spec fn block_trees(
    m: ModuleView,
    names: Seq<Seq<char>>,
    ids: Seq<BlockId>,
    fuel: nat,
) -> Seq<BlockTree> {
    Seq::new(ids.len(), |k: int| block_tree(m, names, ids[k], fuel))
}

/// The names of the values from one mark to another.
pub open spec fn between(names: Seq<Seq<char>>, lo: ModuleView, hi: ModuleView) -> Seq<Seq<char>> {
    names.subrange(lo.values.len() as int, hi.values.len() as int)
}

proof fn between_parts(names: Seq<Seq<char>>, a: ModuleView, b: ModuleView, c: ModuleView)
    requires
        a.values.len() <= b.values.len() <= c.values.len() <= names.len(),
    ensures
        between(names, a, c) == between(names, a, b) + between(names, b, c),
{
    assert(between(names, a, c) =~= between(names, a, b) + between(names, b, c));
}

proof fn names_of_parts(names: Seq<Seq<char>>, a: Seq<ValueId>, b: Seq<ValueId>)
    ensures
        names_of(names, a + b) == names_of(names, a) + names_of(names, b),
{
    assert(names_of(names, a + b) =~= names_of(names, a) + names_of(names, b));
}

/// What is known of the tree of an operation that was read.
pub open spec fn op_shaped(
    m: ModuleView,
    names: Seq<Seq<char>>,
    id: OperationId,
    fuel: nat,
    scope: Seq<ValueId>,
    lo: ModuleView,
) -> bool {
    let t = op_tree(m, names, id, fuel);
    &&& op_within(m, id, marks_of(lo), fuel)
    &&& op_defs(t) == between(names, lo, m)
    &&& op_scoped(t, names_of(names, scope))
    &&& result_names(t.results) == names_of(names, m.op(id).results)
}

/// What is known of the trees of operations that were read into a block.
pub open spec fn ops_shaped(
    m: ModuleView,
    names: Seq<Seq<char>>,
    block: BlockId,
    fuel: nat,
    scope: Seq<ValueId>,
    after: Seq<ValueId>,
    lo: ModuleView,
) -> bool {
    let ids = m.block(block).ops;
    let ts = op_trees(m, names, ids, fuel);
    let old = lo.block(block).ops.len() as int;
    &&& forall|k: int|
        old <= k < ids.len() ==> op_within(m, #[trigger] ids[k], marks_of(lo), fuel)
    &&& ops_defs(ts, old) == between(names, lo, m)
    &&& ops_scoped(ts, old, names_of(names, scope))
    &&& names_of(names, after) == names_of(names, scope) + brought(ts, old)
}

/// What is known of the tree of a region that was read.
pub open spec fn region_shaped(
    m: ModuleView,
    names: Seq<Seq<char>>,
    id: RegionId,
    fuel: nat,
    scope: Seq<ValueId>,
    lo: ModuleView,
) -> bool {
    let t = region_tree(m, names, id, fuel);
    &&& region_within(m, id, marks_of(lo), fuel)
    &&& blocks_defs(t.blocks, 0) == between(names, lo, m)
    &&& region_scoped(t, names_of(names, scope))
}

/// What is known of the trees of regions that were read into an operation.
pub open spec fn regions_shaped(
    m: ModuleView,
    names: Seq<Seq<char>>,
    op: OperationId,
    fuel: nat,
    scope: Seq<ValueId>,
    lo: ModuleView,
) -> bool {
    let ids = m.op(op).regions;
    let ts = region_trees(m, names, ids, fuel);
    let old = lo.op(op).regions.len() as int;
    &&& forall|k: int|
        old <= k < ids.len() ==> region_within(m, #[trigger] ids[k], marks_of(lo), fuel)
    &&& forall|k: int|
        old <= k < ts.len() ==> region_scoped(#[trigger] ts[k], names_of(names, scope))
    &&& regions_defs(ts, old) == between(names, lo, m)
}

/// What is known of the trees of blocks that were read into a region.
pub open spec fn blocks_shaped(
    m: ModuleView,
    names: Seq<Seq<char>>,
    r: RegionId,
    fuel: nat,
    scope: Seq<ValueId>,
    lo: ModuleView,
) -> bool {
    let ids = m.region(r).blocks;
    let ts = block_trees(m, names, ids, fuel);
    let old = lo.region(r).blocks.len() as int;
    &&& forall|k: int|
        old <= k < ids.len() ==> block_within(m, #[trigger] ids[k], marks_of(lo), fuel)
    &&& blocks_defs(ts, old) == between(names, lo, m)
    &&& blocks_scoped(ts, old, names_of(names, scope))
}

// ---------------------------------------------------------------- operations

/// What reading one operation and then the others comes to.
proof fn ops_follow(
    m0: ModuleView,
    m1: ModuleView,
    m2: ModuleView,
    names: Seq<Seq<char>>,
    block: BlockId,
    fuel: nat,
    scope: Seq<ValueId>,
    after: Seq<ValueId>,
)
    requires
        m0.has_block(block),
        fills(m0, m1, block),
        fills(m1, m2, block),
        m2.values.len() <= names.len(),
        m1.block(block).ops == m0.block(block).ops.push(m0.next_op()),
        op_shaped(m1, names, m0.next_op(), fuel, scope, m0),
        ops_shaped(
            m2,
            names,
            block,
            fuel,
            scope + m1.op(m0.next_op()).results,
            after,
            m1,
        ),
    ensures
        ops_shaped(m2, names, block, fuel, scope, after, m0),
{
    reveal(fills);
    let op = m0.next_op();
    let lo = marks_of(m0);
    let ids = m2.block(block).ops;
    let old = m0.block(block).ops.len() as int;
    let ts = op_trees(m2, names, ids, fuel);
    let x = op_tree(m1, names, op, fuel);
    assert(ids[old] == m1.block(block).ops[old]);
    assert(ids[old] == op);
    assert(keeps(m1, m2, lo));
    op_is_unchanged(m1, m2, names, op, lo, lo, fuel);
    assert(ts[old] == x);
    assert(keeps(m2, m2, marks_of(m1)));
    assert forall|k: int| old <= k < ids.len() implies op_within(
        m2,
        #[trigger] ids[k],
        lo,
        fuel,
    ) by {
        if k > old {
            assert(op_within(m2, ids[k], marks_of(m1), fuel));
            op_is_unchanged(m2, m2, names, ids[k], lo, marks_of(m1), fuel);
        }
    }
    between_parts(names, m0, m1, m2);
    let results = m1.op(op).results;
    names_of_parts(names, scope, results);
    assert(names_of(names, scope) + result_names(x.results) + brought(ts, old + 1) =~= names_of(
        names,
        scope,
    ) + (result_names(x.results) + brought(ts, old + 1)));
}

/// What beginning an operation, reading its regions and reading what stands
/// behind them comes to.
proof fn op_comes_together(
    m0: ModuleView,
    m1: ModuleView,
    m2: ModuleView,
    m3: ModuleView,
    names: Seq<Seq<char>>,
    fuel: nat,
    scope: Seq<ValueId>,
)
    requires
        m3.values.len() == m2.values.len() <= names.len(),
        m1.values.len() <= m2.values.len(),
        m0.values.len() <= m1.values.len(),
        m0.ops.len() <= m1.ops.len(),
        m0.blocks.len() <= m1.blocks.len(),
        m0.regions.len() <= m1.regions.len(),
        m0.next_op().spec_index() == m0.ops.len(),
        m3.has_op(m0.next_op()),
        !m3.op(m0.next_op()).erased,
        keeps(m2, m3, marks_of(m1)),
        m3.op(m0.next_op()).results == m1.op(m0.next_op()).results,
        m3.op(m0.next_op()).regions == m2.op(m0.next_op()).regions,
        crate::readable::all_in(m3.op(m0.next_op()).operands, scope),
        consecutive(
            m1.op(m0.next_op()).results,
            m0.values.len() as int,
            m1.values.len() - m0.values.len(),
        ),
        m1.op(m0.next_op()).regions.len() == 0,
        fuel == 0 ==> m2 == m1,
        fuel > 0 ==> regions_shaped(m2, names, m0.next_op(), (fuel - 1) as nat, scope, m1),
    ensures
        op_shaped(m3, names, m0.next_op(), fuel, scope, m0),
{
    let op = m0.next_op();
    let o = m3.op(op);
    let lo = marks_of(m0);
    let t = op_tree(m3, names, op, fuel);
    let around = names_of(names, scope);
    assert(result_names(t.results) =~= names_of(names, o.results));
    assert(result_names(t.results) =~= between(names, m0, m1)) by {
        assert forall|k: int| 0 <= k < o.results.len() implies result_names(t.results)[k]
            == between(names, m0, m1)[k] by {
            assert(o.results[k].spec_index() == m0.values.len() + k);
        }
    }
    assert forall|k: int| 0 <= k < t.operands.len() implies around.contains(
        #[trigger] t.operands[k],
    ) by {
        assert(scope.contains(o.operands[k]));
        let j = choose|j: int| 0 <= j < scope.len() && scope[j] == o.operands[k];
        assert(around[j] == t.operands[k]);
    }
    if fuel > 0 {
        let f = (fuel - 1) as nat;
        let ts = region_trees(m2, names, o.regions, f);
        assert forall|k: int| 0 <= k < o.regions.len() implies region_within(
            m3,
            #[trigger] o.regions[k],
            lo,
            f,
        ) && t.regions[k] == ts[k] by {
            assert(region_within(m2, o.regions[k], marks_of(m1), f));
            region_is_unchanged(m2, m3, names, o.regions[k], lo, marks_of(m1), f);
        }
        assert(t.regions =~= ts);
        assert(between(names, m1, m2) == between(names, m1, m3));
        assert(op_within(m3, op, lo, fuel));
    } else {
        assert(between(names, m1, m3) =~= Seq::empty());
        assert(op_within(m3, op, lo, fuel));
    }
    between_parts(names, m0, m1, m3);
}

/// The tree of an operation that was read.
pub proof fn operation_shape(
    toks: Seq<TokenView>,
    s: Parsing,
    block: BlockId,
    names: Seq<Seq<char>>,
    fuel: nat,
)
    requires
        toks_ok(toks),
        sized(toks, s),
        s.pos < toks.len(),
        s.module.has_block(block),
        module_read(s.module),
        operation(toks, s, block) is Ok,
        ({
            let m = operation(toks, s, block)->Ok_0.module;
            m.values.len() <= names.len() && m.regions.len() - s.module.regions.len() <= fuel
        }),
    ensures
        op_shaped(
            operation(toks, s, block)->Ok_0.module,
            names,
            s.module.next_op(),
            fuel,
            ids_of(s.bindings),
            s.module,
        ),
    decreases toks.len() - s.pos, 0int,
{
    operation_frame(toks, s, block);
    head_reads(toks, s.pos, s.bindings);
    let (h, p) = head(toks, s.pos, s.bindings)->Ok_0;
    let op = s.module.next_op();
    let m0 = s.module;
    let m1 = begin_op(m0, block, h);
    let s1 = Parsing { pos: p, module: m1, ..s };
    beginning(m0, block, h);
    begun_is_read(m0, block, h);
    regions_frame(toks, s1, op);
    let s2 = regions(toks, s1, op)->Ok_0;
    let lo = m0.values.len() as int;
    assert(s2.module.op(op).results == m1.op(op).results && s2.module.has_op(op)
        && m1.values.len() <= s2.module.values.len()) by {
        reveal(nests);
    }
    tail_reads(toks, s2, op, h.names, lo);
    let u = tail(toks, s2, op, h.names)->Ok_0;
    op_frame(m0, m1, s2.module, u.module, block, h);
    assert(op_read(u.module.ops[op.spec_index()]));
    if fuel > 0 {
        regions_shape(toks, s1, op, names, (fuel - 1) as nat);
    }
    op_comes_together(m0, m1, s2.module, u.module, names, fuel, ids_of(s.bindings));
}

/// The trees of operations that were read.
pub proof fn operations_shape(
    toks: Seq<TokenView>,
    s: Parsing,
    block: BlockId,
    labelled: bool,
    names: Seq<Seq<char>>,
    fuel: nat,
)
    requires
        toks_ok(toks),
        sized(toks, s),
        s.pos < toks.len(),
        s.module.has_block(block),
        module_read(s.module),
        operations(toks, s, block, labelled) is Ok,
        ({
            let m = operations(toks, s, block, labelled)->Ok_0.module;
            m.values.len() <= names.len() && m.regions.len() - s.module.regions.len() <= fuel
        }),
    ensures
        ({
            let u = operations(toks, s, block, labelled)->Ok_0;
            ops_shaped(
                u.module,
                names,
                block,
                fuel,
                ids_of(s.bindings),
                ids_of(u.bindings),
                s.module,
            )
        }),
    decreases toks.len() - s.pos, 1int,
{
    if peek(toks, s.pos) == TokView::Punct('}') || (labelled && peek(toks, s.pos) is Label) {
        let old = s.module.block(block).ops.len() as int;
        let ts = op_trees(s.module, names, s.module.block(block).ops, fuel);
        let scope = names_of(names, ids_of(s.bindings));
        assert(between(names, s.module, s.module) =~= ops_defs(ts, old));
        assert(scope + brought(ts, old) =~= scope);
    } else {
        operation_frame(toks, s, block);
        let t = operation(toks, s, block)->Ok_0;
        operations_frame(toks, t, block, labelled);
        let u = operations(toks, t, block, labelled)->Ok_0;
        assert(only_adds(t.module, u.module)) by {
            reveal(fills);
        }
        operation_shape(toks, s, block, names, fuel);
        operations_shape(toks, t, block, labelled, names, fuel);
        ops_follow(
            s.module,
            t.module,
            u.module,
            names,
            block,
            fuel,
            ids_of(s.bindings),
            ids_of(u.bindings),
        );
    }
}

// ------------------------------------------------------------------- regions

/// What reading one region and then the others comes to.
proof fn regions_follow(
    m0: ModuleView,
    m1: ModuleView,
    m2: ModuleView,
    names: Seq<Seq<char>>,
    op: OperationId,
    fuel: nat,
    scope: Seq<ValueId>,
)
    requires
        m0.has_op(op),
        nests(m0, m1, op),
        nests(m1, m2, op),
        m2.values.len() <= names.len(),
        m1.op(op).regions == m0.op(op).regions.push(m0.next_region()),
        region_shaped(m1, names, m0.next_region(), fuel, scope, m0),
        regions_shaped(m2, names, op, fuel, scope, m1),
    ensures
        regions_shaped(m2, names, op, fuel, scope, m0),
{
    reveal(nests);
    let id = m0.next_region();
    let lo = marks_of(m0);
    let ids = m2.op(op).regions;
    let old = m0.op(op).regions.len() as int;
    let ts = region_trees(m2, names, ids, fuel);
    let x = region_tree(m1, names, id, fuel);
    assert(ids[old] == m1.op(op).regions[old]);
    assert(keeps(m1, m2, lo));
    region_is_unchanged(m1, m2, names, id, lo, lo, fuel);
    assert(ts[old] == x);
    assert(keeps(m2, m2, marks_of(m1)));
    assert forall|k: int| old <= k < ids.len() implies region_within(
        m2,
        #[trigger] ids[k],
        lo,
        fuel,
    ) by {
        if k > old {
            assert(region_within(m2, ids[k], marks_of(m1), fuel));
            region_is_unchanged(m2, m2, names, ids[k], lo, marks_of(m1), fuel);
        }
    }
    between_parts(names, m0, m1, m2);
}

/// The trees of regions that were read.
proof fn regions_shape(
    toks: Seq<TokenView>,
    s: Parsing,
    op: OperationId,
    names: Seq<Seq<char>>,
    fuel: nat,
)
    requires
        toks_ok(toks),
        sized(toks, s),
        s.pos < toks.len(),
        s.module.has_op(op),
        module_read(s.module),
        regions(toks, s, op) is Ok,
        ({
            let m = regions(toks, s, op)->Ok_0.module;
            m.values.len() <= names.len() && m.regions.len() - s.module.regions.len() <= fuel + 1
        }),
    ensures
        regions_shaped(
            regions(toks, s, op)->Ok_0.module,
            names,
            op,
            fuel,
            ids_of(s.bindings),
            s.module,
        ),
    decreases toks.len() - s.pos, 2int,
{
    if peek(toks, s.pos) == TokView::Punct('{') && !opens_dict(toks, s.pos) {
        region_frame(toks, s, op);
        let t = region(toks, s, op)->Ok_0;
        assert(only_adds(s.module, t.module)) by {
            reveal(nests);
        }
        regions_frame(toks, t, op);
        let u = regions(toks, t, op)->Ok_0;
        assert(only_adds(t.module, u.module)) by {
            reveal(nests);
        }
        region_shape(toks, s, op, names, fuel);
        regions_shape(toks, t, op, names, fuel);
        regions_follow(s.module, t.module, u.module, names, op, fuel, ids_of(s.bindings));
    } else {
        let old = s.module.op(op).regions.len() as int;
        let ts = region_trees(s.module, names, s.module.op(op).regions, fuel);
        assert(between(names, s.module, s.module) =~= regions_defs(ts, old));
    }
}

/// The tree of a region that was read.
proof fn region_shape(
    toks: Seq<TokenView>,
    s: Parsing,
    op: OperationId,
    names: Seq<Seq<char>>,
    fuel: nat,
)
    requires
        toks_ok(toks),
        sized(toks, s),
        s.pos < toks.len(),
        peek(toks, s.pos) == TokView::Punct('{'),
        s.module.has_op(op),
        module_read(s.module),
        region(toks, s, op) is Ok,
        ({
            let m = region(toks, s, op)->Ok_0.module;
            m.values.len() <= names.len() && m.regions.len() - s.module.regions.len() <= fuel + 1
        }),
    ensures
        region_shaped(
            region(toks, s, op)->Ok_0.module,
            names,
            s.module.next_region(),
            fuel,
            ids_of(s.bindings),
            s.module,
        ),
    decreases toks.len() - s.pos, 1int,
{
    matched(toks, s.pos);
    let m0 = s.module;
    let m1 = m0.create_op_region(op);
    let id = m0.next_region();
    let inner = Parsing { pos: s.pos + 1, module: m1, bindings: s.bindings };
    created_region_is_read(m0, op);
    let u = region(toks, s, op)->Ok_0;
    if peek(toks, s.pos + 1) is Label {
        blocks_frame(toks, inner, id);
        blocks_shape(toks, inner, id, names, fuel);
    } else {
        single_shape(toks, inner, id, names, fuel);
        crate::reading::single_frame(toks, inner, id);
    }
    let m3 = u.module;
    let ids = m3.region(id).blocks;
    let t = region_tree(m3, names, id, fuel);
    assert(t.blocks =~= block_trees(m3, names, ids, fuel));
    let lo = marks_of(m0);
    assert(only_adds(m1, m3)) by {
        reveal(lines_up);
    }
    assert(keeps(m3, m3, marks_of(m1)));
    assert forall|k: int| 0 <= k < ids.len() implies block_within(
        m3,
        #[trigger] ids[k],
        lo,
        fuel,
    ) by {
        assert(block_within(m3, ids[k], marks_of(m1), fuel));
        block_is_unchanged(m3, m3, names, ids[k], lo, marks_of(m1), fuel);
    }
    assert(between(names, m0, m3) == between(names, m1, m3));
}

// -------------------------------------------------------------------- blocks

/// The tree of a block that was read.
proof fn block_comes_together(
    s: Parsing,
    t: Parsing,
    u: Parsing,
    m0: ModuleView,
    r: RegionId,
    names: Seq<Seq<char>>,
    fuel: nat,
)
    requires
        m0.has_region(r),
        m0.blocks.len() < u32::MAX,
        s.module == m0.create_block(r),
        extends(s, t, m0.next_block()),
        fills(t.module, u.module, m0.next_block()),
        u.module.values.len() <= names.len(),
        module_read(u.module),
        ops_shaped(
            u.module,
            names,
            m0.next_block(),
            fuel,
            ids_of(t.bindings),
            ids_of(u.bindings),
            t.module,
        ),
    ensures
        ({
            let b = block_tree(u.module, names, m0.next_block(), fuel);
            let scope = names_of(names, ids_of(s.bindings));
            let inner = scope + arg_names(b.args);
            &&& block_within(u.module, m0.next_block(), marks_of(m0), fuel)
            &&& arg_names(b.args) + ops_defs(b.ops, 0) == between(names, m0, u.module)
            &&& ops_scoped(b.ops, 0, inner)
            &&& names_of(names, ids_of(u.bindings)) == inner + brought(b.ops, 0)
        }),
{
    reveal(fills);
    let block = m0.next_block();
    let m1 = s.module;
    let m2 = t.module;
    let m3 = u.module;
    let x = m3.block(block);
    let b = block_tree(m3, names, block, fuel);
    let lo = marks_of(m0);
    assert(m1.block(block).args.len() == 0);
    assert(m1.block(block).ops.len() == 0);
    assert(x.args == m2.block(block).args);
    let args = x.args;
    assert(args.skip(0) =~= args);
    assert(arg_names(b.args) =~= names_of(names, args));
    names_of_parts(names, ids_of(s.bindings), args);
    assert(arg_names(b.args) =~= between(names, m0, m2)) by {
        assert forall|k: int| 0 <= k < args.len() implies arg_names(b.args)[k] == between(
            names,
            m0,
            m2,
        )[k] by {
            assert(args[k].spec_index() == m1.values.len() + k - 0);
        }
    }
    assert forall|k: int| 0 <= k < args.len() implies lo.values <= (
    #[trigger] args[k]).spec_index() < m3.values.len() by {
        assert(args[k].spec_index() == m1.values.len() + k - 0);
    }
    assert(keeps(m3, m3, marks_of(m2)));
    assert forall|k: int| 0 <= k < x.ops.len() implies op_within(m3, #[trigger] x.ops[k], lo, fuel)
        && !m3.op(x.ops[k]).erased by {
        assert(op_within(m3, x.ops[k], marks_of(m2), fuel));
        op_is_unchanged(m3, m3, names, x.ops[k], lo, marks_of(m2), fuel);
    }
    all_live(m3, x.ops);
    assert(b.ops =~= op_trees(m3, names, x.ops, fuel));
    between_parts(names, m0, m2, m3);
}

/// The tree of the one block of a region that was read.
proof fn single_shape(
    toks: Seq<TokenView>,
    s: Parsing,
    r: RegionId,
    names: Seq<Seq<char>>,
    fuel: nat,
)
    requires
        toks_ok(toks),
        sized(toks, s),
        s.pos < toks.len(),
        s.module.blocks.len() <= s.pos,
        s.module.has_region(r),
        s.module.region(r).blocks.len() == 0,
        module_read(s.module),
        ({
            let m1 = s.module;
            let w = operations(
                toks,
                Parsing { module: m1.create_block(r), ..s },
                m1.next_block(),
                false,
            );
            &&& w is Ok
            &&& w->Ok_0.module.values.len() <= names.len()
            &&& w->Ok_0.module.regions.len() - m1.regions.len() <= fuel
        }),
    ensures
        ({
            let m1 = s.module;
            let u = operations(
                toks,
                Parsing { module: m1.create_block(r), ..s },
                m1.next_block(),
                false,
            )->Ok_0;
            blocks_shaped(u.module, names, r, fuel, ids_of(s.bindings), m1)
        }),
    decreases toks.len() - s.pos, 2int,
{
    let m1 = s.module;
    let block = m1.next_block();
    let filled = Parsing { module: m1.create_block(r), ..s };
    assert(filled.module.has_block(block));
    crate::reading::single_frame(toks, s, r);
    operations_frame(toks, filled, block, false);
    operations_shape(toks, filled, block, false, names, fuel);
    let u = operations(toks, filled, block, false)->Ok_0;
    let a = filled.module.block(block).args;
    assert(ids_of(filled.bindings) + a.skip(a.len() as int) =~= ids_of(filled.bindings));
    assert(extends(filled, filled, block));
    block_comes_together(filled, filled, u, m1, r, names, fuel);
    let ids = u.module.region(r).blocks;
    assert(ids =~= seq![block]);
    let ts = block_trees(u.module, names, ids, fuel);
    assert(ts[0] == block_tree(u.module, names, block, fuel));
    assert(blocks_defs(ts, 1) =~= Seq::empty());
    assert(blocks_defs(ts, 0) =~= between(names, m1, u.module));
    assert(blocks_scoped(ts, 1, names_of(names, ids_of(u.bindings))));
}

/// The trees of labelled blocks that were read.
proof fn blocks_shape(
    toks: Seq<TokenView>,
    s: Parsing,
    r: RegionId,
    names: Seq<Seq<char>>,
    fuel: nat,
)
    requires
        toks_ok(toks),
        sized(toks, s),
        s.pos < toks.len(),
        s.module.has_region(r),
        module_read(s.module),
        labelled_blocks(toks, s, r) is Ok,
        ({
            let m = labelled_blocks(toks, s, r)->Ok_0.module;
            m.values.len() <= names.len() && m.regions.len() - s.module.regions.len() <= fuel
        }),
    ensures
        blocks_shaped(
            labelled_blocks(toks, s, r)->Ok_0.module,
            names,
            r,
            fuel,
            ids_of(s.bindings),
            s.module,
        ),
    decreases toks.len() - s.pos, 2int,
{
    matched(toks, s.pos);
    let m0 = s.module;
    if peek(toks, s.pos) is Label {
        let block = m0.next_block();
        let s1 = Parsing { pos: s.pos + 1, module: m0.create_block(r), ..s };
        assert(s1.module.has_block(block));
        header_frame(toks, s1, block);
        let t = block_header(toks, s1, block)->Ok_0;
        operations_frame(toks, t, block, true);
        let u = operations(toks, t, block, true)->Ok_0;
        block_frame(s1, t, m0, u.module, r);
        assert(only_adds(m0, u.module) && only_adds(t.module, u.module)) by {
            reveal(lines_up);
            reveal(fills);
        }
        blocks_frame(toks, u, r);
        let v = labelled_blocks(toks, u, r)->Ok_0;
        assert(only_adds(u.module, v.module)) by {
            reveal(lines_up);
        }
        operations_shape(toks, t, block, true, names, fuel);
        block_comes_together(s1, t, u, m0, r, names, fuel);
        blocks_shape(toks, u, r, names, fuel);
        assert(labelled_blocks(toks, s, r)->Ok_0 == v);
        blocks_follow(
            m0,
            u.module,
            v.module,
            names,
            r,
            fuel,
            ids_of(s.bindings),
            ids_of(u.bindings),
        );
    } else {
        let old = m0.region(r).blocks.len() as int;
        let ts = block_trees(m0, names, m0.region(r).blocks, fuel);
        assert(between(names, m0, m0) =~= blocks_defs(ts, old));
    }
}

/// What reading one block and then the others comes to.
proof fn blocks_follow(
    m0: ModuleView,
    m1: ModuleView,
    m2: ModuleView,
    names: Seq<Seq<char>>,
    r: RegionId,
    fuel: nat,
    scope: Seq<ValueId>,
    after: Seq<ValueId>,
)
    requires
        m0.has_region(r),
        lines_up(m0, m1, r),
        lines_up(m1, m2, r),
        m2.values.len() <= names.len(),
        m1.region(r).blocks == m0.region(r).blocks.push(m0.next_block()),
        ({
            let b = block_tree(m1, names, m0.next_block(), fuel);
            let inner = names_of(names, scope) + arg_names(b.args);
            &&& block_within(m1, m0.next_block(), marks_of(m0), fuel)
            &&& arg_names(b.args) + ops_defs(b.ops, 0) == between(names, m0, m1)
            &&& ops_scoped(b.ops, 0, inner)
            &&& names_of(names, after) == inner + brought(b.ops, 0)
        }),
        blocks_shaped(m2, names, r, fuel, after, m1),
    ensures
        blocks_shaped(m2, names, r, fuel, scope, m0),
{
    reveal(lines_up);
    let id = m0.next_block();
    let lo = marks_of(m0);
    let ids = m2.region(r).blocks;
    let old = m0.region(r).blocks.len() as int;
    let ts = block_trees(m2, names, ids, fuel);
    let x = block_tree(m1, names, id, fuel);
    assert(ids[old] == m1.region(r).blocks[old]);
    assert(keeps(m1, m2, lo));
    block_is_unchanged(m1, m2, names, id, lo, lo, fuel);
    assert(ts[old] == x);
    assert(keeps(m2, m2, marks_of(m1)));
    assert forall|k: int| old <= k < ids.len() implies block_within(
        m2,
        #[trigger] ids[k],
        lo,
        fuel,
    ) by {
        if k > old {
            assert(block_within(m2, ids[k], marks_of(m1), fuel));
            block_is_unchanged(m2, m2, names, ids[k], lo, marks_of(m1), fuel);
        }
    }
    between_parts(names, m0, m1, m2);
}

} // verus!
