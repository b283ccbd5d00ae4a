//! Rebuilding a module from the tokens of its tree.

use vstd::prelude::*;

use crate::emit::{
    block_ok, emit_args, emit_blocks, emit_head, emit_label, emit_op, emit_ops, emit_region,
    emit_regions, emit_tail, emit_type, op_ok, region_ok, result_names,
};
use crate::grammar::{
    begin_op, bind_results, block_args, block_header, bound, head, labelled_blocks, opens_dict,
    opens_provenance, operation, operations, peek, region, regions, tail, undeclared_results,
    Bindings, Head, Parsing,
};
use crate::ids::{BlockId, OperationId, RegionId, ValueId};
use crate::lexer::{ErrorView, TokView, TokenView};
use crate::module::{ModuleView, OperationView};
use crate::provenance::{Provenance, Source};
use crate::reparse::{
    all_bound, consecutive, finishes_op, has_no_origin, has_origin, head_parses, holds,
    holds_in_parts, named_results, names_differ, tail_parses, type_parses,
    values_bound,
};
use crate::tree::{is_labelled, BlockTree, OpTree, RegionTree, ResultTree};
use crate::types::TypeView;

verus! {

// ------------------------------------------------------------------- scopes

/// The names in scope.
pub open spec fn scope_of(bindings: Bindings) -> Seq<Seq<char>> {
    Seq::new(bindings.len(), |i: int| bindings[i].0)
}

/// The names of block arguments.
pub open spec fn arg_names(args: Seq<(Seq<char>, TypeView)>) -> Seq<Seq<char>> {
    Seq::new(args.len(), |i: int| args[i].0)
}

/// The names that the operations from position `i` on bring into scope.
pub open spec fn brought(ops: Seq<OpTree>, i: int) -> Seq<Seq<char>>
    decreases ops.len() - i,
{
    if i < 0 || i >= ops.len() {
        Seq::empty()
    } else {
        result_names(ops[i].results) + brought(ops, i + 1)
    }
}

/// Whether an operation reads only what is in scope.
pub open spec fn op_scoped(t: OpTree, scope: Seq<Seq<char>>) -> bool
    decreases t, 1int,
{
    &&& forall|i: int| 0 <= i < t.operands.len() ==> scope.contains(#[trigger] t.operands[i])
    &&& forall|i: int| 0 <= i < t.regions.len() ==> region_scoped(#[trigger] t.regions[i], scope)
}

/// Whether a region reads only what is in scope.
pub open spec fn region_scoped(t: RegionTree, scope: Seq<Seq<char>>) -> bool
    decreases t, 0int,
{
    blocks_scoped(t.blocks, 0, scope)
}

/// Whether the blocks from position `i` on read only what is in scope. What one
/// block defines is in scope in the next.
pub open spec fn blocks_scoped(blocks: Seq<BlockTree>, i: int, scope: Seq<Seq<char>>) -> bool
    decreases blocks, blocks.len() - i,
    via blocks_scoped_decreases
{
    i < 0 || i >= blocks.len() || {
        let inner = scope + arg_names(blocks[i].args);
        &&& ops_scoped(blocks[i].ops, 0, inner)
        &&& blocks_scoped(blocks, i + 1, inner + brought(blocks[i].ops, 0))
    }
}

#[via_fn]
proof fn blocks_scoped_decreases(blocks: Seq<BlockTree>, i: int, scope: Seq<Seq<char>>) {
    if 0 <= i < blocks.len() {
        assert(decreases_to!(blocks => blocks[i]));
        assert(decreases_to!(blocks[i] => blocks[i].ops));
    }
}

/// Whether the operations from position `i` on read only what is in scope.
pub open spec fn ops_scoped(ops: Seq<OpTree>, i: int, scope: Seq<Seq<char>>) -> bool
    decreases ops, ops.len() - i,
    via ops_scoped_decreases
{
    i < 0 || i >= ops.len() || (op_scoped(ops[i], scope) && ops_scoped(
        ops,
        i + 1,
        scope + result_names(ops[i].results),
    ))
}

#[via_fn]
proof fn ops_scoped_decreases(ops: Seq<OpTree>, i: int, scope: Seq<Seq<char>>) {
    if 0 <= i < ops.len() {
        assert(decreases_to!(ops => ops[i]));
    }
}

/// A name in scope is bound.
proof fn scoped_is_bound(bindings: Bindings, name: Seq<char>)
    ensures
        scope_of(bindings).contains(name) ==> bound(bindings, name) is Some,
        bound(bindings, name) matches Some(id) ==> exists|i: int|
            0 <= i < bindings.len() && #[trigger] bindings[i] == (name, id),
    decreases bindings.len(),
{
    if bindings.len() > 0 {
        let front = bindings.drop_last();
        let n = bindings.len() - 1;
        scoped_is_bound(front, name);
        if scope_of(bindings).contains(name) {
            let i = choose|i: int| 0 <= i < bindings.len() && scope_of(bindings)[i] == name;
            if i < n {
                assert(scope_of(front)[i] == name);
                assert(scope_of(front).contains(name));
            }
        }
        if bindings.last().0 == name {
            assert(bindings[n] == (name, bindings.last().1));
        } else if let Some(id) = bound(front, name) {
            let i = choose|i: int| 0 <= i < front.len() && #[trigger] front[i] == (name, id);
            assert(bindings[i] == (name, id));
        }
    }
}

/// Whether every name in scope is carried by the value it is bound to.
pub open spec fn names_carried(m: ModuleView, bindings: Bindings) -> bool {
    forall|i: int|
        0 <= i < bindings.len() ==> m.has_value((#[trigger] bindings[i]).1) && m.value(
            bindings[i].1,
        ).name == Some(bindings[i].0)
}

// -------------------------------------------------------- what trees define

/// The names an operation defines, in the order they are read.
pub open spec fn op_defs(t: OpTree) -> Seq<Seq<char>>
    decreases t, 1int,
{
    result_names(t.results) + regions_defs(t.regions, 0)
}

/// The names the regions from position `i` on define.
pub open spec fn regions_defs(regions: Seq<RegionTree>, i: int) -> Seq<Seq<char>>
    decreases regions, regions.len() - i,
    via regions_defs_decreases
{
    if i < 0 || i >= regions.len() {
        Seq::empty()
    } else {
        blocks_defs(regions[i].blocks, 0) + regions_defs(regions, i + 1)
    }
}

#[via_fn]
proof fn regions_defs_decreases(regions: Seq<RegionTree>, i: int) {
    if 0 <= i < regions.len() {
        assert(decreases_to!(regions => regions[i]));
        assert(decreases_to!(regions[i] => regions[i].blocks));
    }
}

/// The names the blocks from position `i` on define.
pub open spec fn blocks_defs(blocks: Seq<BlockTree>, i: int) -> Seq<Seq<char>>
    decreases blocks, blocks.len() - i,
    via blocks_defs_decreases
{
    if i < 0 || i >= blocks.len() {
        Seq::empty()
    } else {
        arg_names(blocks[i].args) + ops_defs(blocks[i].ops, 0) + blocks_defs(blocks, i + 1)
    }
}

#[via_fn]
proof fn blocks_defs_decreases(blocks: Seq<BlockTree>, i: int) {
    if 0 <= i < blocks.len() {
        assert(decreases_to!(blocks => blocks[i]));
        assert(decreases_to!(blocks[i] => blocks[i].ops));
    }
}

/// The names the operations from position `i` on define.
pub open spec fn ops_defs(ops: Seq<OpTree>, i: int) -> Seq<Seq<char>>
    decreases ops, ops.len() - i,
    via ops_defs_decreases
{
    if i < 0 || i >= ops.len() {
        Seq::empty()
    } else {
        op_defs(ops[i]) + ops_defs(ops, i + 1)
    }
}

#[via_fn]
proof fn ops_defs_decreases(ops: Seq<OpTree>, i: int) {
    if 0 <= i < ops.len() {
        assert(decreases_to!(ops => ops[i]));
    }
}

/// Whether the values from a position on carry some names, and no more follow.
pub open spec fn values_named(m: ModuleView, from: int, names: Seq<Seq<char>>) -> bool {
    &&& m.values.len() == from + names.len()
    &&& forall|i: int| 0 <= i < names.len() ==> m.values[from + i].name == Some(#[trigger] names[i])
}

/// Whether the results of every operation have different names.
pub open spec fn op_distinct(t: OpTree) -> bool
    decreases t, 1int,
{
    &&& names_differ(t.results)
    &&& forall|i: int| 0 <= i < t.regions.len() ==> region_distinct(#[trigger] t.regions[i])
}

/// Whether the results of every operation have different names.
pub open spec fn region_distinct(t: RegionTree) -> bool
    decreases t, 0int,
{
    forall|i: int, j: int|
        0 <= i < t.blocks.len() && 0 <= j < t.blocks[i].ops.len() ==> op_distinct(
            #[trigger] t.blocks[i].ops[j],
        )
}

/// How many regions are nested in an operation.
pub open spec fn op_regions(t: OpTree) -> nat
    decreases t, 1int,
{
    regions_count(t.regions, 0)
}

/// How many regions there are from position `i` on, nested ones included.
pub open spec fn regions_count(regions: Seq<RegionTree>, i: int) -> nat
    decreases regions, regions.len() - i,
    via regions_count_decreases
{
    if i < 0 || i >= regions.len() {
        0
    } else {
        1 + blocks_regions(regions[i].blocks, 0) + regions_count(regions, i + 1)
    }
}

#[via_fn]
proof fn regions_count_decreases(regions: Seq<RegionTree>, i: int) {
    if 0 <= i < regions.len() {
        assert(decreases_to!(regions => regions[i]));
        assert(decreases_to!(regions[i] => regions[i].blocks));
    }
}

/// How many regions are nested in the blocks from position `i` on.
pub open spec fn blocks_regions(blocks: Seq<BlockTree>, i: int) -> nat
    decreases blocks, blocks.len() - i,
    via blocks_regions_decreases
{
    if i < 0 || i >= blocks.len() {
        0
    } else {
        ops_regions(blocks[i].ops, 0) + blocks_regions(blocks, i + 1)
    }
}

#[via_fn]
proof fn blocks_regions_decreases(blocks: Seq<BlockTree>, i: int) {
    if 0 <= i < blocks.len() {
        assert(decreases_to!(blocks => blocks[i]));
        assert(decreases_to!(blocks[i] => blocks[i].ops));
    }
}

/// How many regions are nested in the operations from position `i` on.
pub open spec fn ops_regions(ops: Seq<OpTree>, i: int) -> nat
    decreases ops, ops.len() - i,
    via ops_regions_decreases
{
    if i < 0 || i >= ops.len() {
        0
    } else {
        op_regions(ops[i]) + ops_regions(ops, i + 1)
    }
}

#[via_fn]
proof fn ops_regions_decreases(ops: Seq<OpTree>, i: int) {
    if 0 <= i < ops.len() {
        assert(decreases_to!(ops => ops[i]));
    }
}

// ------------------------------------------------------- what a module holds

/// Where the entities of a part of a module begin.
pub ghost struct Marks {
    pub ops: int,
    pub values: int,
    pub blocks: int,
    pub regions: int,
}

/// Where the next entities of a module will be.
pub open spec fn marks_of(m: ModuleView) -> Marks {
    Marks {
        ops: m.ops.len() as int,
        values: m.values.len() as int,
        blocks: m.blocks.len() as int,
        regions: m.regions.len() as int,
    }
}

/// Whether marks come before other ones.
pub open spec fn marks_before(a: Marks, b: Marks) -> bool {
    a.ops <= b.ops && a.values <= b.values && a.blocks <= b.blocks && a.regions <= b.regions
}

/// Whether a value carries a name.
pub open spec fn operand_is(m: ModuleView, id: ValueId, name: Seq<char>) -> bool {
    m.has_value(id) && m.value(id).name == Some(name)
}

/// Whether a value is a result as a tree has it.
pub open spec fn result_is(m: ModuleView, id: ValueId, r: ResultTree, lo: Marks) -> bool {
    &&& lo.values <= id.spec_index() < m.values.len()
    &&& m.value(id).name == Some(r.name)
    &&& m.value(id).ty == r.ty
    &&& has_origin(m.value(id).provenance, r)
}

/// Whether an operation, created after the marks, is as a tree has it.
pub open spec fn op_is(m: ModuleView, id: OperationId, t: OpTree, lo: Marks) -> bool
    decreases t, 1int,
{
    let o = m.op(id);
    &&& lo.ops <= id.spec_index() < m.ops.len()
    &&& !o.erased
    &&& o.name == t.name
    &&& o.literal == t.literal
    &&& o.effect == t.effect
    &&& o.attributes == t.attributes
    &&& o.operands.len() == t.operands.len()
    &&& forall|k: int|
        0 <= k < t.operands.len() ==> operand_is(m, o.operands[k], #[trigger] t.operands[k])
    &&& o.results.len() == t.results.len()
    &&& forall|k: int|
        0 <= k < t.results.len() ==> result_is(m, o.results[k], #[trigger] t.results[k], lo)
    &&& o.regions.len() == t.regions.len()
    &&& forall|k: int|
        0 <= k < t.regions.len() ==> region_is(m, o.regions[k], #[trigger] t.regions[k], lo)
}

/// Whether a region is as a tree has it.
pub open spec fn region_is(m: ModuleView, id: RegionId, t: RegionTree, lo: Marks) -> bool
    decreases t, 0int,
{
    let r = m.region(id);
    &&& lo.regions <= id.spec_index() < m.regions.len()
    &&& r.blocks.len() == t.blocks.len()
    &&& forall|k: int|
        0 <= k < t.blocks.len() ==> block_is(m, r.blocks[k], #[trigger] t.blocks[k], lo)
}

/// Whether a block is as a tree has it.
pub open spec fn block_is(m: ModuleView, id: BlockId, t: BlockTree, lo: Marks) -> bool
    decreases t, 0int,
{
    let b = m.block(id);
    &&& lo.blocks <= id.spec_index() < m.blocks.len()
    &&& b.args.len() == t.args.len()
    &&& forall|k: int| 0 <= k < t.args.len() ==> arg_is(m, b.args[k], #[trigger] t.args[k], lo)
    &&& b.ops.len() == t.ops.len()
    &&& forall|k: int| 0 <= k < t.ops.len() ==> op_is(m, b.ops[k], #[trigger] t.ops[k], lo)
}

/// Whether a value is a block argument as a tree has it.
pub open spec fn arg_is(m: ModuleView, id: ValueId, a: (Seq<char>, TypeView), lo: Marks) -> bool {
    &&& lo.values <= id.spec_index() < m.values.len()
    &&& m.value(id).name == Some(a.0)
    &&& m.value(id).ty == a.1
}

/// Whether a module keeps what another one holds from some marks on, and every
/// name.
pub open spec fn keeps(a: ModuleView, b: ModuleView, lo: Marks) -> bool {
    &&& marks_before(marks_of(a), marks_of(b))
    &&& forall|i: int|
        0 <= i < a.values.len() ==> (#[trigger] b.values[i]).name == a.values[i].name
    &&& forall|i: int|
        lo.values <= i < a.values.len() ==> #[trigger] b.values[i] == a.values[i]
    &&& forall|i: int| lo.ops <= i < a.ops.len() ==> #[trigger] b.ops[i] == a.ops[i]
    &&& forall|i: int| lo.blocks <= i < a.blocks.len() ==> #[trigger] b.blocks[i] == a.blocks[i]
    &&& forall|i: int|
        lo.regions <= i < a.regions.len() ==> #[trigger] b.regions[i] == a.regions[i]
}

/// What is kept stays as the tree has it, and earlier marks do as well.
pub proof fn op_is_kept(a: ModuleView, b: ModuleView, id: OperationId, t: OpTree, lo: Marks, hi: Marks)
    requires
        op_is(a, id, t, hi),
        marks_before(lo, hi),
        keeps(a, b, hi),
        0 <= lo.values,
        0 <= lo.ops,
        0 <= lo.blocks,
        0 <= lo.regions,
    ensures
        op_is(b, id, t, lo),
    decreases t, 1int,
{
    let o = a.op(id);
    assert(b.op(id) == o);
    assert forall|k: int| 0 <= k < t.operands.len() implies operand_is(
        b,
        o.operands[k],
        #[trigger] t.operands[k],
    ) by {
        let i = o.operands[k].spec_index();
        assert(operand_is(a, o.operands[k], t.operands[k]));
        assert(b.values[i].name == a.values[i].name);
    }
    assert forall|k: int| 0 <= k < t.results.len() implies result_is(
        b,
        o.results[k],
        #[trigger] t.results[k],
        lo,
    ) by {
        assert(result_is(a, o.results[k], t.results[k], hi));
        let i = o.results[k].spec_index();
        assert(b.values[i] == a.values[i]);
    }
    assert forall|k: int| 0 <= k < t.regions.len() implies region_is(
        b,
        o.regions[k],
        #[trigger] t.regions[k],
        lo,
    ) by {
        assert(region_is(a, o.regions[k], t.regions[k], hi));
        region_is_kept(a, b, o.regions[k], t.regions[k], lo, hi);
    }
}

proof fn region_is_kept(
    a: ModuleView,
    b: ModuleView,
    id: RegionId,
    t: RegionTree,
    lo: Marks,
    hi: Marks,
)
    requires
        region_is(a, id, t, hi),
        marks_before(lo, hi),
        keeps(a, b, hi),
        0 <= lo.values,
        0 <= lo.ops,
        0 <= lo.blocks,
        0 <= lo.regions,
    ensures
        region_is(b, id, t, lo),
    decreases t, 0int,
{
    let r = a.region(id);
    assert(b.region(id) == r);
    assert forall|k: int| 0 <= k < t.blocks.len() implies block_is(
        b,
        r.blocks[k],
        #[trigger] t.blocks[k],
        lo,
    ) by {
        assert(block_is(a, r.blocks[k], t.blocks[k], hi));
        block_is_kept(a, b, r.blocks[k], t.blocks[k], lo, hi);
    }
}

proof fn block_is_kept(
    a: ModuleView,
    b: ModuleView,
    id: BlockId,
    t: BlockTree,
    lo: Marks,
    hi: Marks,
)
    requires
        block_is(a, id, t, hi),
        marks_before(lo, hi),
        keeps(a, b, hi),
        0 <= lo.values,
        0 <= lo.ops,
        0 <= lo.blocks,
        0 <= lo.regions,
    ensures
        block_is(b, id, t, lo),
    decreases t, 0int,
{
    let x = a.block(id);
    assert(b.block(id) == x);
    assert forall|k: int| 0 <= k < t.args.len() implies arg_is(
        b,
        x.args[k],
        #[trigger] t.args[k],
        lo,
    ) by {
        assert(arg_is(a, x.args[k], t.args[k], hi));
        let i = x.args[k].spec_index();
        assert(b.values[i] == a.values[i]);
    }
    assert forall|k: int| 0 <= k < t.ops.len() implies op_is(
        b,
        x.ops[k],
        #[trigger] t.ops[k],
        lo,
    ) by {
        assert(op_is(a, x.ops[k], t.ops[k], hi));
        op_is_kept(a, b, x.ops[k], t.ops[k], lo, hi);
    }
}

/// Whether a parser state is within what handles can refer to: it has created
/// no more than it has read.
pub open spec fn sized(toks: Seq<TokenView>, s: Parsing) -> bool {
    &&& 0 <= s.pos <= toks.len()
    &&& toks.len() < u32::MAX
    &&& s.module.ops.len() <= s.pos
    &&& s.module.values.len() <= s.pos
    &&& s.module.blocks.len() <= s.pos + 1
    &&& s.module.regions.len() <= s.pos + 1
}

/// Whether nothing of a module changed but what was added to it.
pub open spec fn only_adds(a: ModuleView, b: ModuleView) -> bool {
    &&& b.name == a.name
    &&& b.version == a.version
    &&& b.body == a.body
    &&& b.capabilities == a.capabilities
    &&& marks_before(marks_of(a), marks_of(b))
    &&& forall|i: int| 0 <= i < a.values.len() ==> #[trigger] b.values[i] == a.values[i]
}

/// Whether operations are as they were, but for one.
pub open spec fn same_ops_but(a: ModuleView, b: ModuleView, op: int) -> bool {
    forall|i: int| 0 <= i < a.ops.len() && i != op ==> #[trigger] b.ops[i] == a.ops[i]
}

/// Whether blocks are as they were, but for one.
pub open spec fn same_blocks_but(a: ModuleView, b: ModuleView, block: int) -> bool {
    forall|i: int| 0 <= i < a.blocks.len() && i != block ==> #[trigger] b.blocks[i] == a.blocks[i]
}

/// Whether regions are as they were, but for one.
pub open spec fn same_regions_but(a: ModuleView, b: ModuleView, region: int) -> bool {
    forall|i: int|
        0 <= i < a.regions.len() && i != region ==> #[trigger] b.regions[i] == a.regions[i]
}

/// Whether a list begins with another one.
pub open spec fn begins<A>(long: Seq<A>, short: Seq<A>) -> bool {
    short.len() <= long.len() && forall|i: int| 0 <= i < short.len() ==> #[trigger] long[i] == short[i]
}

/// What reading operations into a block changes: the block gets more of them.
#[verifier::opaque]
pub open spec fn fills(a: ModuleView, b: ModuleView, block: BlockId) -> bool {
    &&& only_adds(a, b)
    &&& same_ops_but(a, b, -1)
    &&& same_regions_but(a, b, -1)
    &&& same_blocks_but(a, b, block.spec_index())
    &&& b.block(block).args == a.block(block).args
    &&& begins(b.block(block).ops, a.block(block).ops)
}

/// What reading regions into an operation changes: it gets more of them.
#[verifier::opaque]
pub open spec fn nests(a: ModuleView, b: ModuleView, op: OperationId) -> bool {
    &&& only_adds(a, b)
    &&& same_ops_but(a, b, op.spec_index())
    &&& same_regions_but(a, b, -1)
    &&& same_blocks_but(a, b, -1)
    &&& b.op(op) == (OperationView { regions: b.op(op).regions, ..a.op(op) })
    &&& begins(b.op(op).regions, a.op(op).regions)
}

/// What reading blocks into a region changes: it gets more of them.
#[verifier::opaque]
pub open spec fn lines_up(a: ModuleView, b: ModuleView, r: RegionId) -> bool {
    &&& only_adds(a, b)
    &&& same_ops_but(a, b, -1)
    &&& same_regions_but(a, b, r.spec_index())
    &&& same_blocks_but(a, b, -1)
    &&& begins(b.region(r).blocks, a.region(r).blocks)
}

proof fn carried_on(a: ModuleView, b: ModuleView, bindings: Bindings)
    requires
        names_carried(a, bindings),
        only_adds(a, b),
    ensures
        names_carried(b, bindings),
{
    assert forall|i: int| 0 <= i < bindings.len() implies b.has_value((#[trigger] bindings[i]).1)
        && b.value(bindings[i].1).name == Some(bindings[i].0) by {
        let k = bindings[i].1.spec_index();
        assert(b.values[k] == a.values[k]);
    }
}

/// What an operation prints first.
pub proof fn op_starts(t: OpTree)
    ensures
        emit_op(t).len() >= 3,
        t.results.len() > 0 ==> emit_op(t)[0] is Value,
        t.results.len() == 0 ==> emit_op(t)[0] == TokView::Ident(t.name.dialect) && emit_op(t)[1]
            == TokView::Punct('.'),
{
    let names = result_names(t.results);
    let h = emit_head(t);
    assert(emit_op(t)[0] == h[0]);
    assert(emit_op(t)[1] == h[1]);
    let r = crate::emit::emit_results(t.results);
    let n = crate::emit::emit_op_name(t.name);
    if t.results.len() > 0 {
        assert(r[0] == crate::emit::emit_names(names, 0)[0]);
        assert(h[0] == r[0]);
    } else {
        assert(h[0] == n[0]);
        assert(h[1] == n[1]);
    }
}

// ------------------------------------------------------------------ reading

/// The block arguments from position `i` on are read back.
proof fn args_rebuild(
    toks: Seq<TokenView>,
    s: Parsing,
    block: BlockId,
    args: Seq<(Seq<char>, TypeView)>,
    i: int,
    lo: Marks,
)
    requires
        0 <= i < args.len(),
        holds(
            toks,
            s.pos,
            seq![TokView::Value(args[i].0), TokView::Punct(':')] + emit_type(args[i].1)
                + emit_args(args, i + 1),
        ),
        peek(
            toks,
            (s.pos + 2 + emit_type(args[i].1).len() + emit_args(args, i + 1).len()) as int,
        ) != TokView::Punct(','),
        sized(toks, s),
        s.module.has_block(block),
        names_carried(s.module, s.bindings),
        0 <= lo.values <= s.module.values.len(),
    ensures
        ({
            let r = block_args(toks, s, block);
            let u = r->Ok_0;
            let a = s.module.block(block);
            let b = u.module.block(block);
            let old = a.args.len();
            &&& r is Ok
            &&& u.pos == s.pos + 2 + emit_type(args[i].1).len() + emit_args(args, i + 1).len()
            &&& sized(toks, u)
            &&& scope_of(u.bindings) == scope_of(s.bindings) + arg_names(args).skip(i)
            &&& names_carried(u.module, u.bindings)
            &&& only_adds(s.module, u.module)
            &&& u.module.ops == s.module.ops
            &&& u.module.regions == s.module.regions
            &&& u.module.blocks.len() == s.module.blocks.len()
            &&& same_blocks_but(s.module, u.module, block.spec_index())
            &&& b.ops == a.ops
            &&& b.args.len() == old + args.len() - i
            &&& begins(b.args, a.args)
            &&& forall|k: int|
                i <= k < args.len() ==> arg_is(
                    u.module,
                    b.args[old + k - i],
                    #[trigger] args[k],
                    lo,
                )
            &&& values_named(
                u.module,
                s.module.values.len() as int,
                arg_names(args).skip(i),
            )
        }),
    decreases args.len() - i,
{
    let (name, ty) = args[i];
    let lead = seq![TokView::Value(name), TokView::Punct(':')];
    let x = emit_type(ty);
    let rest = emit_args(args, i + 1);
    holds_in_parts(toks, s.pos, lead + x, rest);
    holds_in_parts(toks, s.pos, lead, x);
    assert(toks[s.pos + 0].tok == lead[0]);
    assert(toks[s.pos + 1].tok == lead[1]);
    let p3 = s.pos + 2 + x.len();
    type_parses(toks, s.pos + 2, ty);
    let id = s.module.next_value();
    let prov = Provenance::trusted(Source::Tool);
    let m = s.module.add_block_arg(block, Some(name), ty, prov);
    let t = Parsing { pos: p3, module: m, bindings: s.bindings.push((name, id)) };
    let a = s.module.block(block);
    let old = a.args.len();
    let tail_names = arg_names(args).skip(i);
    assert(id.spec_index() == s.module.values.len());
    assert(m.block(block).args == a.args.push(id));
    assert forall|k: int| 0 <= k < t.bindings.len() implies m.has_value(
        (#[trigger] t.bindings[k]).1,
    ) && m.value(t.bindings[k].1).name == Some(t.bindings[k].0) by {
        if k < s.bindings.len() {
            assert(t.bindings[k] == s.bindings[k]);
            assert(s.module.has_value(s.bindings[k].1));
        }
    }
    assert(scope_of(t.bindings) =~= scope_of(s.bindings).push(name));
    if i + 1 < args.len() {
        let comma = seq![TokView::Punct(',')];
        let more = seq![TokView::Value(args[i + 1].0), TokView::Punct(':')] + emit_type(
            args[i + 1].1,
        ) + emit_args(args, i + 2);
        assert(rest =~= comma + more);
        holds_in_parts(toks, p3, comma, more);
        assert(toks[p3 + 0].tok == comma[0]);
        let s2 = Parsing { pos: p3 + 1, ..t };
        args_rebuild(toks, s2, block, args, i + 1, lo);
        let u = block_args(toks, s2, block)->Ok_0;
        let b = u.module.block(block);
        assert(scope_of(s.bindings).push(name) + arg_names(args).skip(i + 1) =~= scope_of(
            s.bindings,
        ) + tail_names);
        assert forall|k: int| i <= k < args.len() implies arg_is(
            u.module,
            b.args[old + k - i],
            #[trigger] args[k],
            lo,
        ) by {
            if k == i {
                assert(b.args[old as int] == m.block(block).args[old as int]);
                assert(u.module.values[id.spec_index()] == m.values[id.spec_index()]);
            }
        }
        let from = s.module.values.len() as int;
        assert forall|k: int| 0 <= k < tail_names.len() implies u.module.values[from + k].name
            == Some(#[trigger] tail_names[k]) by {
            if k == 0 {
                assert(u.module.values[from] == m.values[from]);
            } else {
                let more_names = arg_names(args).skip(i + 1);
                assert(tail_names[k] == more_names[k - 1]);
                assert(u.module.values[from + 1 + (k - 1)].name == Some(more_names[k - 1]));
            }
        }
        assert forall|k: int| 0 <= k < s.module.values.len() implies #[trigger] u.module.values[k]
            == s.module.values[k] by {
            assert(u.module.values[k] == m.values[k]);
        }
    } else {
        assert(tail_names =~= seq![name]);
        assert(scope_of(t.bindings) =~= scope_of(s.bindings) + tail_names);
        let b = m.block(block);
        assert forall|k: int| i <= k < args.len() implies arg_is(
            m,
            b.args[old + k - i],
            #[trigger] args[k],
            lo,
        ) by {
            assert(k == i);
        }
    }
}

/// What beginning an operation makes of a module.
pub proof fn beginning(m: ModuleView, block: BlockId, h: Head)
    requires
        m.has_block(block),
        m.ops.len() < u32::MAX,
        m.values.len() + h.names.len() < u32::MAX,
    ensures
        begun(m, begin_op(m, block, h), block, h),
{
    let declared = undeclared_results(h.names);
    let created = m.result_values(declared);
    let m0 = m.create_op(
        h.name,
        h.literal,
        h.operands,
        declared,
        Seq::empty(),
        crate::effect::EffectView::Pure,
    );
    let m1 = begin_op(m, block, h);
    let lo = m.values.len() as int;
    assert(m1.values == m.values + created);
    assert forall|k: int| 0 <= k < h.names.len() implies m1.values[lo + k].name == Some(
        #[trigger] h.names[k],
    ) && has_no_origin(m1.values[lo + k].provenance) by {
        assert(m1.values[lo + k] == created[k]);
    }
}

/// An operation is read back.
pub proof fn op_rebuilds(toks: Seq<TokenView>, s: Parsing, block: BlockId, t: OpTree)
    requires
        holds(toks, s.pos, emit_op(t)),
        op_ok(t),
        op_distinct(t),
        op_scoped(t, scope_of(s.bindings)),
        peek(toks, (s.pos + emit_op(t).len()) as int) != TokView::Punct(':'),
        !opens_provenance(toks, (s.pos + emit_op(t).len()) as int),
        sized(toks, s),
        s.module.has_block(block),
        names_carried(s.module, s.bindings),
    ensures
        ({
            let r = operation(toks, s, block);
            let u = r->Ok_0;
            let op = s.module.next_op();
            &&& r is Ok
            &&& u.pos == s.pos + emit_op(t).len()
            &&& sized(toks, u)
            &&& scope_of(u.bindings) == scope_of(s.bindings) + result_names(t.results)
            &&& names_carried(u.module, u.bindings)
            &&& fills(s.module, u.module, block)
            &&& u.module.block(block).ops == s.module.block(block).ops.push(op)
            &&& op_is(u.module, op, t, marks_of(s.module))
            &&& values_named(u.module, s.module.values.len() as int, op_defs(t))
            &&& u.module.regions.len() == s.module.regions.len() + op_regions(t)
        }),
    decreases t, 0int, 0int,
{
    reveal(nests);
    let h = emit_head(t);
    let r = emit_regions(t.regions, 0);
    let e = emit_tail(t);
    let p1 = s.pos + h.len();
    let p2 = p1 + r.len();
    let p3 = p2 + e.len();
    holds_in_parts(toks, s.pos, h + r, e);
    holds_in_parts(toks, s.pos, h, r);
    let scope = scope_of(s.bindings);
    assert forall|i: int| 0 <= i < t.operands.len() implies bound(
        s.bindings,
        #[trigger] t.operands[i],
    ) is Some by {
        assert(scope.contains(t.operands[i]));
        scoped_is_bound(s.bindings, t.operands[i]);
    }
    tail_starts(toks, p2, t);
    if t.regions.len() > 0 {
        assert(toks[p1 + 0].tok == r[0]);
    }
    head_parses(toks, s.pos, s.bindings, t);
    let hd = Head {
        names: result_names(t.results),
        name: t.name,
        literal: t.literal,
        operands: values_bound(s.bindings, t.operands),
    };
    let n = t.results.len() as int;
    let m0 = s.module;
    let lo = m0.values.len() as int;
    let op = m0.next_op();
    beginning(m0, block, hd);
    let m1 = begin_op(m0, block, hd);
    let s1 = Parsing { pos: p1, module: m1, ..s };
    carried_on(m0, m1, s.bindings);
    let lo1 = marks_of(m1);
    regions_rebuild(toks, s1, op, t.regions, 0, lo1);
    let s2 = regions(toks, s1, op)->Ok_0;
    let m2 = s2.module;
    let ids = m1.op(op).results;
    assert(m2.op(op).results == ids);
    assert forall|k: int| 0 <= k < n implies m2.value(ids[k]).name == Some(
        (#[trigger] t.results[k]).name,
    ) by {
        assert(ids[k].spec_index() == lo + k);
        assert(hd.names[k] == t.results[k].name);
        assert(m2.values[lo + k] == m1.values[lo + k]);
    }
    assert forall|k: int| 0 <= k < n implies has_no_origin(
        m2.value(#[trigger] m2.op(op).results[k]).provenance,
    ) by {
        assert(ids[k].spec_index() == lo + k);
        assert(hd.names[k] == t.results[k].name);
        assert(m2.values[lo + k] == m1.values[lo + k]);
    }
    tail_parses(toks, s2, op, t, lo);
    let u = tail(toks, s2, op, hd.names)->Ok_0;
    let m3 = u.module;
    assert(operation(toks, s, block) == Ok::<Parsing, ErrorView>(u));
    op_assembled(m0, m1, m2, m3, block, t, s.bindings);
    let bs = bind_results(hd.names, ids);
    assert(scope_of(u.bindings) =~= scope + result_names(t.results));
    results_carried(m0, m3, s.bindings, u.bindings, ids, t, lo);
}

/// Whether an operation of a head was begun in a block.
pub open spec fn begun(m: ModuleView, m1: ModuleView, block: BlockId, h: Head) -> bool {
    let op = m.next_op();
    let o = m1.op(op);
    let lo = m.values.len() as int;
    &&& op.spec_index() == m.ops.len()
    &&& m1.ops.len() == m.ops.len() + 1
    &&& m1.values.len() == m.values.len() + h.names.len()
    &&& m1.blocks.len() == m.blocks.len()
    &&& m1.regions == m.regions
    &&& only_adds(m, m1)
    &&& same_ops_but(m, m1, -1)
    &&& same_blocks_but(m, m1, block.spec_index())
    &&& m1.block(block).args == m.block(block).args
    &&& m1.block(block).ops == m.block(block).ops.push(op)
    &&& o.name == h.name
    &&& o.literal == h.literal
    &&& o.operands == h.operands
    &&& o.regions.len() == 0
    &&& !o.erased
    &&& consecutive(o.results, lo, h.names.len() as int)
    &&& forall|k: int|
        0 <= k < h.names.len() ==> m1.values[lo + k].name == Some(#[trigger] h.names[k])
            && has_no_origin(m1.values[lo + k].provenance)
}

/// The results of an operation come into scope under their names.
proof fn results_carried(
    m0: ModuleView,
    m3: ModuleView,
    before: Bindings,
    after: Bindings,
    ids: Seq<ValueId>,
    t: OpTree,
    lo: int,
)
    requires
        names_carried(m0, before),
        only_adds(m0, m3),
        consecutive(ids, lo, t.results.len() as int),
        lo + t.results.len() <= m3.values.len(),
        after == before + bind_results(result_names(t.results), ids),
        forall|k: int|
            0 <= k < t.results.len() ==> m3.value(ids[k]).name == Some(
                (#[trigger] t.results[k]).name,
            ),
    ensures
        names_carried(m3, after),
{
    let bs = bind_results(result_names(t.results), ids);
    assert forall|i: int| 0 <= i < after.len() implies m3.has_value((#[trigger] after[i]).1)
        && m3.value(after[i].1).name == Some(after[i].0) by {
        if i < before.len() {
            assert(after[i] == before[i]);
            assert(m0.has_value(before[i].1));
            let v = before[i].1.spec_index();
            assert(m3.values[v] == m0.values[v]);
        } else {
            let k = i - before.len();
            assert(after[i] == bs[k]);
            assert(ids[k].spec_index() == lo + k);
            assert(m3.value(ids[k]).name == Some(t.results[k].name));
        }
    }
}

/// What beginning an operation, reading its regions and reading what stands
/// behind them comes to.
proof fn op_assembled(
    m0: ModuleView,
    m1: ModuleView,
    m2: ModuleView,
    m3: ModuleView,
    block: BlockId,
    t: OpTree,
    bindings: Bindings,
)
    requires
        m0.has_block(block),
        names_carried(m0, bindings),
        all_bound(bindings, t.operands),
        begun(
            m0,
            m1,
            block,
            Head {
                names: result_names(t.results),
                name: t.name,
                literal: t.literal,
                operands: values_bound(bindings, t.operands),
            },
        ),
        nests(m1, m2, m0.next_op()),
        m2.op(m0.next_op()).regions.len() == t.regions.len(),
        forall|k: int|
            0 <= k < t.regions.len() ==> region_is(
                m2,
                m2.op(m0.next_op()).regions[k],
                #[trigger] t.regions[k],
                marks_of(m1),
            ),
        values_named(m2, m1.values.len() as int, regions_defs(t.regions, 0)),
        m2.regions.len() == m1.regions.len() + regions_count(t.regions, 0),
        named_results(m2, m1.op(m0.next_op()).results, t.results),
        finishes_op(m2, m3, m0.next_op(), t, m0.values.len() as int),
    ensures
        op_is(m3, m0.next_op(), t, marks_of(m0)),
        only_adds(m0, m3),
        fills(m0, m3, block),
        m3.block(block).ops == m0.block(block).ops.push(m0.next_op()),
        values_named(m3, m0.values.len() as int, op_defs(t)),
        m3.regions.len() == m0.regions.len() + op_regions(t),
{
    reveal(nests);
    reveal(fills);
    let op = m0.next_op();
    let lo = m0.values.len() as int;
    let n = t.results.len() as int;
    let ids = m1.op(op).results;
    let marks = marks_of(m0);
    let lo1 = marks_of(m1);
    assert(m2.op(op).results == ids);
    // What changed behind the regions leaves the regions alone.
    assert forall|i: int| 0 <= i < m2.values.len() implies (#[trigger] m3.values[i]).name
        == m2.values[i].name by {
        if lo <= i < lo + n {
            let k = i - lo;
            assert(ids[k].spec_index() == lo + k);
            assert(m3.value(ids[k]).name == Some(t.results[k].name));
            assert(m2.value(ids[k]).name == Some(t.results[k].name));
        }
    }
    assert(keeps(m2, m3, lo1));
    let o = m3.op(op);
    assert forall|k: int| 0 <= k < t.operands.len() implies operand_is(
        m3,
        o.operands[k],
        #[trigger] t.operands[k],
    ) by {
        let name = t.operands[k];
        assert(bound(bindings, t.operands[k]) is Some);
        let id = bound(bindings, name)->0;
        scoped_is_bound(bindings, name);
        let i = choose|i: int| 0 <= i < bindings.len() && #[trigger] bindings[i] == (name, id);
        assert(m0.has_value(bindings[i].1));
        assert(o.operands[k] == id);
        let v = id.spec_index();
        assert(m1.values[v] == m0.values[v]);
        assert(m2.values[v] == m1.values[v]);
        assert(m3.values[v] == m2.values[v]);
    }
    assert forall|k: int| 0 <= k < n implies result_is(
        m3,
        o.results[k],
        #[trigger] t.results[k],
        marks,
    ) by {
        assert(ids[k].spec_index() == lo + k);
    }
    assert forall|k: int| 0 <= k < t.regions.len() implies region_is(
        m3,
        o.regions[k],
        #[trigger] t.regions[k],
        marks,
    ) by {
        region_is_kept(m2, m3, m2.op(op).regions[k], t.regions[k], marks, lo1);
    }
    assert(op_is(m3, op, t, marks));
    // The frame.
    assert forall|i: int| 0 <= i < m0.values.len() implies #[trigger] m3.values[i]
        == m0.values[i] by {
        assert(m1.values[i] == m0.values[i]);
        assert(m2.values[i] == m1.values[i]);
    }
    assert forall|i: int| 0 <= i < m0.ops.len() implies #[trigger] m3.ops[i] == m0.ops[i] by {
        assert(m1.ops[i] == m0.ops[i]);
        assert(m2.ops[i] == m1.ops[i]);
    }
    assert forall|i: int| 0 <= i < m0.regions.len() implies #[trigger] m3.regions[i]
        == m0.regions[i] by {
        assert(m2.regions[i] == m1.regions[i]);
    }
    assert forall|i: int| 0 <= i < m0.blocks.len() && i != block.spec_index() implies
        #[trigger] m3.blocks[i] == m0.blocks[i] by {
        assert(m1.blocks[i] == m0.blocks[i]);
        assert(m2.blocks[i] == m1.blocks[i]);
    }
    assert(m2.blocks[block.spec_index()] == m1.blocks[block.spec_index()]);
    assert(m3.block(block).ops == m0.block(block).ops.push(op));
    assert(fills(m0, m3, block));
    // The names.
    let defs = op_defs(t);
    let nested = regions_defs(t.regions, 0);
    assert forall|k: int| 0 <= k < defs.len() implies m3.values[lo + k].name == Some(
        #[trigger] defs[k],
    ) by {
        if k < n {
            assert(defs[k] == t.results[k].name);
            assert(ids[k].spec_index() == lo + k);
        } else {
            assert(defs[k] == nested[k - n]);
            assert(m2.values[lo + n + (k - n)].name == Some(nested[k - n]));
            assert(m3.values[lo + k].name == m2.values[lo + k].name);
        }
    }
}

/// What stands behind the regions starts like a dictionary.
proof fn tail_starts(toks: Seq<TokenView>, pos: int, t: OpTree)
    requires
        holds(toks, pos, emit_tail(t)),
    ensures
        toks[pos].tok == TokView::Punct('{'),
        toks[pos + 1].tok == TokView::Ident("effect"@),
        toks[pos + 2].tok == TokView::Punct('='),
        opens_dict(toks, pos),
        emit_tail(t).len() >= 3,
{
    let e = emit_tail(t);
    let d = crate::emit::emit_dictionary(t);
    let lead = seq![TokView::Punct('{'), TokView::Ident("effect"@), TokView::Punct('=')];
    assert(d.len() >= 3);
    assert(d[0] == lead[0] && d[1] == lead[1] && d[2] == lead[2]);
    assert(e[0] == d[0] && e[1] == d[1] && e[2] == d[2]);
    assert(toks[pos + 0].tok == e[0]);
    assert(toks[pos + 1].tok == e[1]);
    assert(toks[pos + 2].tok == e[2]);
}

/// The regions from position `i` on are read back.
proof fn regions_rebuild(
    toks: Seq<TokenView>,
    s: Parsing,
    op: OperationId,
    ts: Seq<RegionTree>,
    i: int,
    lo: Marks,
)
    requires
        0 <= i <= ts.len(),
        holds(toks, s.pos, emit_regions(ts, i)),
        forall|k: int| 0 <= k < ts.len() ==> region_ok(#[trigger] ts[k]),
        forall|k: int| 0 <= k < ts.len() ==> region_distinct(#[trigger] ts[k]),
        forall|k: int|
            0 <= k < ts.len() ==> region_scoped(#[trigger] ts[k], scope_of(s.bindings)),
        peek(toks, (s.pos + emit_regions(ts, i).len()) as int) == TokView::Punct('{'),
        opens_dict(toks, (s.pos + emit_regions(ts, i).len()) as int),
        sized(toks, s),
        s.module.has_op(op),
        op.spec_index() < lo.ops,
        marks_before(lo, marks_of(s.module)),
        0 <= lo.values && 0 <= lo.blocks && 0 <= lo.regions,
        names_carried(s.module, s.bindings),
    ensures
        ({
            let r = regions(toks, s, op);
            let u = r->Ok_0;
            let old = s.module.op(op).regions.len();
            &&& r is Ok
            &&& u.pos == s.pos + emit_regions(ts, i).len()
            &&& sized(toks, u)
            &&& u.bindings == s.bindings
            &&& nests(s.module, u.module, op)
            &&& u.module.op(op).regions.len() == old + ts.len() - i
            &&& forall|k: int|
                i <= k < ts.len() ==> region_is(
                    u.module,
                    u.module.op(op).regions[old + k - i],
                    #[trigger] ts[k],
                    lo,
                )
            &&& values_named(u.module, s.module.values.len() as int, regions_defs(ts, i))
            &&& u.module.regions.len() == s.module.regions.len() + regions_count(ts, i)
        }),
    decreases ts, 0int, ts.len() - i,
{
    if i == ts.len() {
        reveal(nests);
        assert(s.module.op(op) == (OperationView {
            regions: s.module.op(op).regions,
            ..s.module.op(op)
        }));
    } else {
        assert(decreases_to!(ts => ts[i]));
        let open = seq![TokView::Punct('{')];
        let x = emit_region(ts[i]);
        let close = seq![TokView::Punct('}')];
        let first = open + x + close;
        let rest = emit_regions(ts, i + 1);
        holds_in_parts(toks, s.pos, first, rest);
        assert(toks[s.pos + 0].tok == first[0]);
        region_starts(ts[i]);
        assert(toks[s.pos + 1].tok == first[1]);
        assert(first[1] == x[0]);
        if !(x[0] is Label) {
            assert(toks[s.pos + 2].tok == first[2]);
            assert(first[2] == x[1]);
        }
        assert(!opens_dict(toks, s.pos));
        region_rebuilds(toks, s, op, ts[i], lo);
        let s1 = region(toks, s, op)->Ok_0;
        let m1 = s1.module;
        assert(s.pos < s1.pos <= toks.len());
        assert(only_adds(s.module, m1)) by {
            reveal(nests);
        }
        regions_rebuild(toks, s1, op, ts, i + 1, lo);
        let u = regions(toks, s1, op)->Ok_0;
        let m2 = u.module;
        assert(regions(toks, s, op) == Ok::<Parsing, ErrorView>(u));
        regions_joined(s.module, m1, m2, op, ts, i, lo);
    }
}

/// What reading one region and then the others comes to.
proof fn regions_joined(
    m0: ModuleView,
    m1: ModuleView,
    m2: ModuleView,
    op: OperationId,
    ts: Seq<RegionTree>,
    i: int,
    lo: Marks,
)
    requires
        0 <= i < ts.len(),
        m0.has_op(op),
        op.spec_index() < lo.ops,
        marks_before(lo, marks_of(m0)),
        0 <= lo.values && 0 <= lo.blocks && 0 <= lo.regions,
        nests(m0, m1, op),
        nests(m1, m2, op),
        m1.op(op).regions == m0.op(op).regions.push(m0.next_region()),
        region_is(m1, m0.next_region(), ts[i], lo),
        values_named(m1, m0.values.len() as int, blocks_defs(ts[i].blocks, 0)),
        m1.regions.len() == m0.regions.len() + 1 + blocks_regions(ts[i].blocks, 0),
        m2.op(op).regions.len() == m1.op(op).regions.len() + ts.len() - (i + 1),
        forall|k: int|
            i + 1 <= k < ts.len() ==> region_is(
                m2,
                m2.op(op).regions[m1.op(op).regions.len() + k - (i + 1)],
                #[trigger] ts[k],
                lo,
            ),
        values_named(m2, m1.values.len() as int, regions_defs(ts, i + 1)),
        m2.regions.len() == m1.regions.len() + regions_count(ts, i + 1),
    ensures
        nests(m0, m2, op),
        m2.op(op).regions.len() == m0.op(op).regions.len() + ts.len() - i,
        forall|k: int|
            i <= k < ts.len() ==> region_is(
                m2,
                m2.op(op).regions[m0.op(op).regions.len() + k - i],
                #[trigger] ts[k],
                lo,
            ),
        values_named(m2, m0.values.len() as int, regions_defs(ts, i)),
        m2.regions.len() == m0.regions.len() + regions_count(ts, i),
{
    reveal(nests);
    let old = m0.op(op).regions.len();
    assert(keeps(m1, m2, lo));
    assert forall|k: int| i <= k < ts.len() implies region_is(
        m2,
        m2.op(op).regions[old + k - i],
        #[trigger] ts[k],
        lo,
    ) by {
        if k == i {
            let id = m1.op(op).regions[old as int];
            assert(m2.op(op).regions[old as int] == id);
            region_is_kept(m1, m2, id, ts[i], lo, lo);
        }
    }
    let lo_v = m0.values.len() as int;
    let a = blocks_defs(ts[i].blocks, 0);
    let b = regions_defs(ts, i + 1);
    let defs = regions_defs(ts, i);
    assert(defs == a + b);
    assert forall|k: int| 0 <= k < defs.len() implies m2.values[lo_v + k].name == Some(
        #[trigger] defs[k],
    ) by {
        if k < a.len() {
            assert(defs[k] == a[k]);
            assert(m1.values[lo_v + k].name == Some(a[k]));
            assert(m2.values[lo_v + k] == m1.values[lo_v + k]);
        } else {
            assert(defs[k] == b[k - a.len()]);
            assert(m2.values[lo_v + a.len() + (k - a.len())].name == Some(b[k - a.len()]));
        }
    }
    assert forall|j: int| 0 <= j < m0.values.len() implies #[trigger] m2.values[j]
        == m0.values[j] by {
        assert(m1.values[j] == m0.values[j]);
    }
    assert forall|j: int| 0 <= j < m0.ops.len() && j != op.spec_index() implies
        #[trigger] m2.ops[j] == m0.ops[j] by {
        assert(m1.ops[j] == m0.ops[j]);
    }
    assert forall|j: int| 0 <= j < m0.blocks.len() implies #[trigger] m2.blocks[j]
        == m0.blocks[j] by {
        assert(m1.blocks[j] == m0.blocks[j]);
    }
    assert forall|j: int| 0 <= j < m0.regions.len() implies #[trigger] m2.regions[j]
        == m0.regions[j] by {
        assert(m1.regions[j] == m0.regions[j]);
    }
    assert forall|j: int| 0 <= j < m0.op(op).regions.len() implies #[trigger] m2.op(
        op,
    ).regions[j] == m0.op(op).regions[j] by {
        assert(m1.op(op).regions[j] == m0.op(op).regions[j]);
    }
}

/// What a region prints first.
proof fn region_starts(t: RegionTree)
    requires
        region_ok(t),
    ensures
        emit_region(t).len() >= 2,
        is_labelled(t) ==> emit_region(t)[0] is Label,
        !is_labelled(t) ==> emit_region(t)[0] is Value || (emit_region(t)[0] is Ident
            && emit_region(t)[1] == TokView::Punct('.')),
{
    let b = t.blocks[0];
    let rest = emit_blocks(t.blocks, 1, is_labelled(t));
    if is_labelled(t) {
        let l = emit_label(b, 0);
        assert(l.len() >= 2);
        assert(l[0] is Label);
        assert(emit_region(t)[0] == l[0]);
    } else {
        let ops = emit_ops(b.ops, 0);
        let none = Seq::<TokView>::empty();
        op_starts(b.ops[0]);
        let o = emit_op(b.ops[0]);
        assert(emit_region(t) =~= ops + rest);
        assert(ops =~= o + emit_ops(b.ops, 1));
        assert(emit_region(t)[0] == o[0]);
        assert(emit_region(t)[1] == o[1]);
    }
}

/// A region is read back.
proof fn region_rebuilds(
    toks: Seq<TokenView>,
    s: Parsing,
    op: OperationId,
    t: RegionTree,
    lo: Marks,
)
    requires
        holds(toks, s.pos, seq![TokView::Punct('{')] + emit_region(t) + seq![TokView::Punct('}')]),
        region_ok(t),
        region_distinct(t),
        region_scoped(t, scope_of(s.bindings)),
        sized(toks, s),
        s.module.has_op(op),
        op.spec_index() < lo.ops,
        marks_before(lo, marks_of(s.module)),
        0 <= lo.values && 0 <= lo.blocks && 0 <= lo.regions,
        names_carried(s.module, s.bindings),
    ensures
        ({
            let r = region(toks, s, op);
            let u = r->Ok_0;
            let id = s.module.next_region();
            &&& r is Ok
            &&& u.pos == s.pos + emit_region(t).len() + 2
            &&& sized(toks, u)
            &&& u.bindings == s.bindings
            &&& names_carried(u.module, u.bindings)
            &&& nests(s.module, u.module, op)
            &&& u.module.op(op).regions == s.module.op(op).regions.push(id)
            &&& region_is(u.module, id, t, lo)
            &&& values_named(u.module, s.module.values.len() as int, blocks_defs(t.blocks, 0))
            &&& u.module.regions.len() == s.module.regions.len() + 1 + blocks_regions(t.blocks, 0)
        }),
    decreases t, 1int, 0int,
{
    let open = seq![TokView::Punct('{')];
    let x = emit_region(t);
    let close = seq![TokView::Punct('}')];
    holds_in_parts(toks, s.pos, open + x, close);
    holds_in_parts(toks, s.pos, open, x);
    let end = s.pos + 1 + x.len();
    assert(toks[end + 0].tok == close[0]);
    region_starts(t);
    assert(toks[s.pos + 1 + 0].tok == x[0]);
    let m0 = s.module;
    let id = m0.next_region();
    let m1 = m0.create_op_region(op);
    assert(id.spec_index() == m0.regions.len());
    assert(m1.region(id).blocks.len() == 0);
    let inner = Parsing { pos: s.pos + 1, module: m1, bindings: s.bindings };
    assert(only_adds(m0, m1));
    carried_on(m0, m1, s.bindings);
    let lo1 = marks_of(m1);
    let scope = scope_of(s.bindings);
    if is_labelled(t) {
        blocks_rebuild(toks, inner, id, t.blocks, 0, lo1);
        let v = labelled_blocks(toks, inner, id)->Ok_0;
        let u = region(toks, s, op)->Ok_0;
        assert(u.module == v.module);
        blocks_lined_up(v.module, id, t, lo, lo1);
        nested_frame(m0, m1, v.module, op);
        carried_on(m0, v.module, s.bindings);
    } else {
        assert(x =~= emit_ops(t.blocks[0].ops, 0)) by {
            assert(t.blocks.len() == 1);
        }
        single_rebuilds(toks, inner, id, t, lo);
        let block = m1.next_block();
        let filled = Parsing { module: m1.create_block(id), ..inner };
        let v = operations(toks, filled, block, false)->Ok_0;
        let u = region(toks, s, op)->Ok_0;
        assert(u.module == v.module);
        nested_frame(m0, m1, v.module, op);
        carried_on(m0, v.module, s.bindings);
    }
}

/// Labelled blocks make up the region.
proof fn blocks_lined_up(m: ModuleView, id: RegionId, t: RegionTree, lo: Marks, hi: Marks)
    requires
        marks_before(lo, hi),
        0 <= lo.values && 0 <= lo.blocks && 0 <= lo.ops && 0 <= lo.regions,
        lo.regions <= id.spec_index() < m.regions.len(),
        m.region(id).blocks.len() == t.blocks.len(),
        forall|k: int|
            0 <= k < t.blocks.len() ==> block_is(
                m,
                m.region(id).blocks[0 + k - 0],
                #[trigger] t.blocks[k],
                hi,
            ),
    ensures
        region_is(m, id, t, lo),
{
    assert(keeps(m, m, hi));
    assert forall|k: int| 0 <= k < t.blocks.len() implies block_is(
        m,
        m.region(id).blocks[k],
        #[trigger] t.blocks[k],
        lo,
    ) by {
        block_is_kept(m, m, m.region(id).blocks[k], t.blocks[k], lo, hi);
    }
}

/// The one unlabelled block of a new region is read back.
proof fn single_rebuilds(
    toks: Seq<TokenView>,
    s: Parsing,
    id: RegionId,
    t: RegionTree,
    lo: Marks,
)
    requires
        holds(toks, s.pos, emit_ops(t.blocks[0].ops, 0)),
        peek(toks, (s.pos + emit_ops(t.blocks[0].ops, 0).len()) as int) == TokView::Punct('}'),
        region_ok(t),
        !is_labelled(t),
        region_distinct(t),
        region_scoped(t, scope_of(s.bindings)),
        sized(toks, s),
        s.module.blocks.len() <= s.pos,
        s.module.has_region(id),
        s.module.region(id).blocks.len() == 0,
        lo.regions <= id.spec_index(),
        marks_before(lo, marks_of(s.module)),
        0 <= lo.values && 0 <= lo.blocks && 0 <= lo.regions && 0 <= lo.ops,
        names_carried(s.module, s.bindings),
    ensures
        ({
            let m1 = s.module;
            let r = operations(
                toks,
                Parsing { module: m1.create_block(id), ..s },
                m1.next_block(),
                false,
            );
            let u = r->Ok_0;
            &&& r is Ok
            &&& u.pos == s.pos + emit_ops(t.blocks[0].ops, 0).len()
            &&& sized(toks, u)
            &&& lines_up(m1, u.module, id)
            &&& only_adds(m1, u.module)
            &&& region_is(u.module, id, t, lo)
            &&& values_named(u.module, m1.values.len() as int, blocks_defs(t.blocks, 0))
            &&& u.module.regions.len() == m1.regions.len() + blocks_regions(t.blocks, 0)
        }),
    decreases t, 0int, 0int,
{
    let b = t.blocks[0];
    let m1 = s.module;
    let scope = scope_of(s.bindings);
    let block = m1.next_block();
    let m2 = m1.create_block(id);
    assert(block.spec_index() == m1.blocks.len());
    assert(m2.block(block).args.len() == 0 && m2.block(block).ops.len() == 0);
    assert(only_adds(m1, m2));
    carried_on(m1, m2, s.bindings);
    let lo2 = marks_of(m2);
    let filled = Parsing { module: m2, ..s };
    assert(t.blocks.len() == 1);
    assert(block_ok(t.blocks[0]));
    assert(arg_names(b.args) =~= Seq::empty());
    assert(scope + arg_names(b.args) =~= scope);
    assert forall|j: int| 0 <= j < b.ops.len() implies op_distinct(#[trigger] b.ops[j]) by {
        assert(op_distinct(t.blocks[0].ops[j]));
    }
    ops_rebuild(toks, filled, block, b.ops, 0, false, lo2);
    let v = operations(toks, filled, block, false)->Ok_0;
    block_filled(m1, m2, v.module, id, t, lo);
    assert(only_adds(m1, v.module)) by {
        reveal(lines_up);
    }
}

/// What reading the one block of a new region comes to.
proof fn block_filled(
    m1: ModuleView,
    m2: ModuleView,
    m3: ModuleView,
    id: RegionId,
    t: RegionTree,
    lo: Marks,
)
    requires
        t.blocks.len() == 1,
        t.blocks[0].args.len() == 0,
        m1.has_region(id),
        m1.region(id).blocks.len() == 0,
        m1.blocks.len() < u32::MAX,
        m2 == m1.create_block(id),
        lo.regions <= id.spec_index(),
        marks_before(lo, marks_of(m1)),
        0 <= lo.values && 0 <= lo.blocks && 0 <= lo.ops && 0 <= lo.regions,
        fills(m2, m3, m1.next_block()),
        m3.block(m1.next_block()).ops.len() == t.blocks[0].ops.len(),
        forall|k: int|
            0 <= k < t.blocks[0].ops.len() ==> op_is(
                m3,
                m3.block(m1.next_block()).ops[k],
                #[trigger] t.blocks[0].ops[k],
                marks_of(m2),
            ),
        values_named(m3, m2.values.len() as int, ops_defs(t.blocks[0].ops, 0)),
        m3.regions.len() == m2.regions.len() + ops_regions(t.blocks[0].ops, 0),
    ensures
        lines_up(m1, m3, id),
        region_is(m3, id, t, lo),
        values_named(m3, m1.values.len() as int, blocks_defs(t.blocks, 0)),
        m3.regions.len() == m1.regions.len() + blocks_regions(t.blocks, 0),
{
    reveal(fills);
    reveal(lines_up);
    let b = t.blocks[0];
    let block = m1.next_block();
    let lo2 = marks_of(m2);
    assert(m3.regions[id.spec_index()] == m2.regions[id.spec_index()]);
    assert(m2.region(id).blocks =~= seq![block]);
    assert(keeps(m3, m3, lo2));
    assert forall|k: int| 0 <= k < b.ops.len() implies op_is(
        m3,
        m3.block(block).ops[k],
        #[trigger] b.ops[k],
        lo,
    ) by {
        assert(op_is(m3, m3.block(block).ops[k], t.blocks[0].ops[k], lo2));
        op_is_kept(m3, m3, m3.block(block).ops[k], b.ops[k], lo, lo2);
    }
    assert(block_is(m3, block, b, lo));
    assert(region_is(m3, id, t, lo));
    assert forall|i: int| 0 <= i < m1.values.len() implies #[trigger] m3.values[i]
        == m1.values[i] by {
        assert(m3.values[i] == m2.values[i]);
    }
    assert forall|i: int| 0 <= i < m1.ops.len() implies #[trigger] m3.ops[i] == m1.ops[i] by {
        assert(m3.ops[i] == m2.ops[i]);
    }
    assert forall|i: int| 0 <= i < m1.blocks.len() implies #[trigger] m3.blocks[i]
        == m1.blocks[i] by {
        assert(m3.blocks[i] == m2.blocks[i]);
    }
    assert forall|i: int| 0 <= i < m1.regions.len() && i != id.spec_index() implies
        #[trigger] m3.regions[i] == m1.regions[i] by {
        assert(m3.regions[i] == m2.regions[i]);
    }
    let a = ops_defs(b.ops, 0);
    assert(arg_names(b.args) =~= Seq::empty());
    assert(blocks_defs(t.blocks, 1) =~= Seq::empty());
    assert(blocks_defs(t.blocks, 0) =~= a);
    assert(blocks_regions(t.blocks, 1) == 0);
}

/// Filling a new region changes nothing else.
pub proof fn nested_frame(m0: ModuleView, m1: ModuleView, m2: ModuleView, op: OperationId)
    requires
        m0.has_op(op),
        m0.regions.len() < u32::MAX,
        m1 == m0.create_op_region(op),
        lines_up(m1, m2, m0.next_region()),
    ensures
        only_adds(m0, m2),
        nests(m0, m2, op),
        m2.op(op).regions == m0.op(op).regions.push(m0.next_region()),
{
    reveal(nests);
    reveal(lines_up);
    let id = m0.next_region();
    assert(m2.ops[op.spec_index()] == m1.ops[op.spec_index()]);
    assert forall|i: int| 0 <= i < m0.values.len() implies #[trigger] m2.values[i]
        == m0.values[i] by {
        assert(m2.values[i] == m1.values[i]);
    }
    assert forall|i: int| 0 <= i < m0.ops.len() && i != op.spec_index() implies
        #[trigger] m2.ops[i] == m0.ops[i] by {
        assert(m2.ops[i] == m1.ops[i]);
    }
    assert forall|i: int| 0 <= i < m0.blocks.len() implies #[trigger] m2.blocks[i]
        == m0.blocks[i] by {
        assert(m2.blocks[i] == m1.blocks[i]);
    }
    assert forall|i: int| 0 <= i < m0.regions.len() implies #[trigger] m2.regions[i]
        == m0.regions[i] by {
        assert(i != id.spec_index());
        assert(m2.regions[i] == m1.regions[i]);
    }
}

/// The header of a block is read back.
proof fn header_rebuilds(
    toks: Seq<TokenView>,
    s: Parsing,
    block: BlockId,
    args: Seq<(Seq<char>, TypeView)>,
    lo: Marks,
)
    requires
        holds(
            toks,
            s.pos,
            (if args.len() == 0 {
                Seq::empty()
            } else {
                seq![TokView::Punct('(')] + emit_args(args, 0) + seq![TokView::Punct(')')]
            }) + seq![TokView::Punct(':')],
        ),
        sized(toks, s),
        s.module.has_block(block),
        s.module.block(block).args.len() == 0,
        names_carried(s.module, s.bindings),
        0 <= lo.values <= s.module.values.len(),
    ensures
        ({
            let r = block_header(toks, s, block);
            let u = r->Ok_0;
            let a = s.module.block(block);
            let b = u.module.block(block);
            let len = if args.len() == 0 {
                1
            } else {
                emit_args(args, 0).len() + 3
            };
            &&& r is Ok
            &&& u.pos == s.pos + len
            &&& sized(toks, u)
            &&& scope_of(u.bindings) == scope_of(s.bindings) + arg_names(args)
            &&& names_carried(u.module, u.bindings)
            &&& only_adds(s.module, u.module)
            &&& u.module.ops == s.module.ops
            &&& u.module.regions == s.module.regions
            &&& u.module.blocks.len() == s.module.blocks.len()
            &&& same_blocks_but(s.module, u.module, block.spec_index())
            &&& b.ops == a.ops
            &&& b.args.len() == args.len()
            &&& forall|k: int|
                0 <= k < args.len() ==> arg_is(u.module, b.args[k], #[trigger] args[k], lo)
            &&& values_named(u.module, s.module.values.len() as int, arg_names(args))
        }),
{
    reveal(block_header);
    let colon = seq![TokView::Punct(':')];
    if args.len() == 0 {
        holds_in_parts(toks, s.pos, Seq::empty(), colon);
        assert(toks[s.pos + 0].tok == colon[0]);
        assert(scope_of(s.bindings) + arg_names(args) =~= scope_of(s.bindings));
    } else {
        let open = seq![TokView::Punct('(')];
        let x = emit_args(args, 0);
        let close = seq![TokView::Punct(')')];
        holds_in_parts(toks, s.pos, open + x + close, colon);
        holds_in_parts(toks, s.pos, open + x, close);
        holds_in_parts(toks, s.pos, open, x);
        assert(toks[s.pos + 0].tok == open[0]);
        let end = s.pos + 1 + x.len();
        assert(toks[end + 0].tok == close[0]);
        assert(toks[end + 1 + 0].tok == colon[0]);
        let first = seq![TokView::Value(args[0].0), TokView::Punct(':')] + emit_type(args[0].1)
            + emit_args(args, 1);
        assert(x =~= first);
        assert(toks[s.pos + 1 + 0].tok == x[0]);
        let s1 = Parsing { pos: s.pos + 1, ..s };
        args_rebuild(toks, s1, block, args, 0, lo);
        assert(arg_names(args).skip(0) =~= arg_names(args));
        let v = block_args(toks, s1, block)->Ok_0;
        assert forall|k: int| 0 <= k < args.len() implies arg_is(
            v.module,
            v.module.block(block).args[k],
            #[trigger] args[k],
            lo,
        ) by {
            assert(0 + k - 0 == k);
        }
    }
}

/// The labelled blocks from position `i` on are read back.
proof fn blocks_rebuild(
    toks: Seq<TokenView>,
    s: Parsing,
    r: RegionId,
    ts: Seq<BlockTree>,
    i: int,
    lo: Marks,
)
    requires
        0 <= i <= ts.len(),
        holds(toks, s.pos, emit_blocks(ts, i, true)),
        forall|k: int| 0 <= k < ts.len() ==> block_ok(#[trigger] ts[k]),
        forall|a: int, b: int|
            0 <= a < ts.len() && 0 <= b < ts[a].ops.len() ==> op_distinct(
                #[trigger] ts[a].ops[b],
            ),
        blocks_scoped(ts, i, scope_of(s.bindings)),
        peek(toks, (s.pos + emit_blocks(ts, i, true).len()) as int) == TokView::Punct('}'),
        sized(toks, s),
        s.module.has_region(r),
        r.spec_index() < lo.regions,
        marks_before(lo, marks_of(s.module)),
        0 <= lo.values && 0 <= lo.blocks && 0 <= lo.ops,
        names_carried(s.module, s.bindings),
    ensures
        ({
            let w = labelled_blocks(toks, s, r);
            let u = w->Ok_0;
            let old = s.module.region(r).blocks.len();
            &&& w is Ok
            &&& u.pos == s.pos + emit_blocks(ts, i, true).len()
            &&& sized(toks, u)
            &&& lines_up(s.module, u.module, r)
            &&& u.module.region(r).blocks.len() == old + ts.len() - i
            &&& forall|k: int|
                i <= k < ts.len() ==> block_is(
                    u.module,
                    u.module.region(r).blocks[old + k - i],
                    #[trigger] ts[k],
                    lo,
                )
            &&& values_named(u.module, s.module.values.len() as int, blocks_defs(ts, i))
            &&& u.module.regions.len() == s.module.regions.len() + blocks_regions(ts, i)
        }),
    decreases ts, 0int, ts.len() - i,
{
    reveal(fills);
    reveal(lines_up);
    if i < ts.len() {
        assert(decreases_to!(ts => ts[i]));
        assert(decreases_to!(ts[i] => ts[i].ops));
        let t = ts[i];
        assert(block_ok(ts[i]));
        let label = seq![TokView::Label("bb"@ + crate::text::nat_text(i as nat))];
        let head = (if t.args.len() == 0 {
            Seq::empty()
        } else {
            seq![TokView::Punct('(')] + emit_args(t.args, 0) + seq![TokView::Punct(')')]
        }) + seq![TokView::Punct(':')];
        let ops = emit_ops(t.ops, 0);
        let rest = emit_blocks(ts, i + 1, true);
        assert(emit_label(t, i) =~= label + head);
        assert(emit_blocks(ts, i, true) =~= label + head + ops + rest);
        holds_in_parts(toks, s.pos, label + head + ops, rest);
        holds_in_parts(toks, s.pos, label + head, ops);
        holds_in_parts(toks, s.pos, label, head);
        assert(toks[s.pos + 0].tok == label[0]);
        let m0 = s.module;
        let block = m0.next_block();
        let m1 = m0.create_block(r);
        assert(block.spec_index() == m0.blocks.len());
        assert(m1.region(r).blocks == m0.region(r).blocks.push(block));
        assert(only_adds(m0, m1));
        carried_on(m0, m1, s.bindings);
        let s1 = Parsing { pos: s.pos + 1, module: m1, ..s };
        header_rebuilds(toks, s1, block, t.args, lo);
        let s2 = block_header(toks, s1, block)->Ok_0;
        let m2 = s2.module;
        let lo2 = marks_of(m2);
        let p2 = s.pos + 1 + head.len();
        assert(s2.pos == p2);
        let p3 = p2 + ops.len();
        if i + 1 < ts.len() {
            let next = emit_label(ts[i + 1], i + 1);
            assert(next[0] is Label);
            assert(rest[0] == next[0]);
            assert(toks[p3 + 0].tok == rest[0]);
        }
        assert forall|j: int| 0 <= j < t.ops.len() implies op_distinct(#[trigger] t.ops[j]) by {
            assert(op_distinct(ts[i].ops[j]));
        }
        ops_rebuild(toks, s2, block, t.ops, 0, true, lo2);
        let s3 = operations(toks, s2, block, true)->Ok_0;
        let m3 = s3.module;
        assert(block_is(m3, block, t, lo)) by {
            assert(m3.block(block).args == m2.block(block).args);
            assert forall|k: int| 0 <= k < t.args.len() implies arg_is(
                m3,
                m3.block(block).args[k],
                #[trigger] t.args[k],
                lo,
            ) by {
                assert(arg_is(m2, m2.block(block).args[k], t.args[k], lo));
                let v = m2.block(block).args[k].spec_index();
                assert(m3.values[v] == m2.values[v]);
            }
            assert(keeps(m3, m3, lo2));
            assert forall|k: int| 0 <= k < t.ops.len() implies op_is(
                m3,
                m3.block(block).ops[k],
                #[trigger] t.ops[k],
                lo,
            ) by {
                op_is_kept(m3, m3, m3.block(block).ops[k], t.ops[k], lo, lo2);
            }
        }
        let old = m0.region(r).blocks.len();
        assert(m3.regions[r.spec_index()] == m2.regions[r.spec_index()]);
        assert(m3.region(r).blocks == m0.region(r).blocks.push(block));
        blocks_rebuild(toks, s3, r, ts, i + 1, lo);
        let u = labelled_blocks(toks, s3, r)->Ok_0;
        let m4 = u.module;
        assert(labelled_blocks(toks, s, r) == Ok::<Parsing, ErrorView>(u));
        assert(keeps(m3, m4, lo));
        assert forall|k: int| i <= k < ts.len() implies block_is(
            m4,
            m4.region(r).blocks[old + k - i],
            #[trigger] ts[k],
            lo,
        ) by {
            if k == i {
                assert(m4.region(r).blocks[old as int] == m3.region(r).blocks[old as int]);
                block_is_kept(m3, m4, block, t, lo, lo);
            }
        }
        // The frame.
        assert forall|j: int| 0 <= j < m0.values.len() implies #[trigger] m4.values[j]
            == m0.values[j] by {
            assert(m1.values[j] == m0.values[j]);
            assert(m2.values[j] == m1.values[j]);
            assert(m3.values[j] == m2.values[j]);
            assert(m4.values[j] == m3.values[j]);
        }
        assert forall|j: int| 0 <= j < m0.ops.len() implies #[trigger] m4.ops[j] == m0.ops[j] by {
            assert(m3.ops[j] == m2.ops[j]);
            assert(m4.ops[j] == m3.ops[j]);
        }
        assert forall|j: int| 0 <= j < m0.blocks.len() implies #[trigger] m4.blocks[j]
            == m0.blocks[j] by {
            assert(m1.blocks[j] == m0.blocks[j]);
            assert(m2.blocks[j] == m1.blocks[j]);
            assert(m3.blocks[j] == m2.blocks[j]);
            assert(m4.blocks[j] == m3.blocks[j]);
        }
        assert forall|j: int| 0 <= j < m0.regions.len() && j != r.spec_index() implies
            #[trigger] m4.regions[j] == m0.regions[j] by {
            assert(m1.regions[j] == m0.regions[j]);
            assert(m3.regions[j] == m2.regions[j]);
            assert(m4.regions[j] == m3.regions[j]);
        }
        assert forall|j: int| 0 <= j < m0.region(r).blocks.len() implies #[trigger] m4.region(
            r,
        ).blocks[j] == m0.region(r).blocks[j] by {
            assert(m4.region(r).blocks[j] == m3.region(r).blocks[j]);
        }
        // The names.
        let from = m0.values.len() as int;
        let a = arg_names(t.args);
        let b = ops_defs(t.ops, 0);
        let c = blocks_defs(ts, i + 1);
        let defs = blocks_defs(ts, i);
        assert(defs == a + b + c);
        assert forall|k: int| 0 <= k < defs.len() implies m4.values[from + k].name == Some(
            #[trigger] defs[k],
        ) by {
            if k < a.len() {
                assert(defs[k] == a[k]);
                assert(m2.values[from + k].name == Some(a[k]));
                assert(m3.values[from + k] == m2.values[from + k]);
                assert(m4.values[from + k] == m3.values[from + k]);
            } else if k < a.len() + b.len() {
                let q = k - a.len();
                assert(defs[k] == b[q]);
                assert(m3.values[from + a.len() + q].name == Some(b[q]));
                assert(m4.values[from + k] == m3.values[from + k]);
            } else {
                let q = k - a.len() - b.len();
                assert(defs[k] == c[q]);
                assert(m4.values[from + a.len() + b.len() + q].name == Some(c[q]));
            }
        }
    }
}

/// The operations from position `i` on are read back.
pub proof fn ops_rebuild(
    toks: Seq<TokenView>,
    s: Parsing,
    block: BlockId,
    ts: Seq<OpTree>,
    i: int,
    labelled: bool,
    lo: Marks,
)
    requires
        0 <= i <= ts.len(),
        holds(toks, s.pos, emit_ops(ts, i)),
        forall|k: int| 0 <= k < ts.len() ==> op_ok(#[trigger] ts[k]),
        forall|k: int| 0 <= k < ts.len() ==> op_distinct(#[trigger] ts[k]),
        ops_scoped(ts, i, scope_of(s.bindings)),
        ({
            let next = peek(toks, (s.pos + emit_ops(ts, i).len()) as int);
            next == TokView::Punct('}') || (labelled && next is Label)
        }),
        sized(toks, s),
        s.module.has_block(block),
        block.spec_index() < lo.blocks,
        marks_before(lo, marks_of(s.module)),
        0 <= lo.values && 0 <= lo.ops && 0 <= lo.regions,
        names_carried(s.module, s.bindings),
    ensures
        ({
            let r = operations(toks, s, block, labelled);
            let u = r->Ok_0;
            let old = s.module.block(block).ops.len();
            &&& r is Ok
            &&& u.pos == s.pos + emit_ops(ts, i).len()
            &&& sized(toks, u)
            &&& scope_of(u.bindings) == scope_of(s.bindings) + brought(ts, i)
            &&& names_carried(u.module, u.bindings)
            &&& fills(s.module, u.module, block)
            &&& u.module.block(block).ops.len() == old + ts.len() - i
            &&& forall|k: int|
                i <= k < ts.len() ==> op_is(
                    u.module,
                    u.module.block(block).ops[old + k - i],
                    #[trigger] ts[k],
                    lo,
                )
            &&& values_named(u.module, s.module.values.len() as int, ops_defs(ts, i))
            &&& u.module.regions.len() == s.module.regions.len() + ops_regions(ts, i)
        }),
    decreases ts, 0int, ts.len() - i,
{
    if i == ts.len() {
        reveal(fills);
        assert(scope_of(s.bindings) + brought(ts, i) =~= scope_of(s.bindings));
    } else {
        assert(decreases_to!(ts => ts[i]));
        let x = emit_op(ts[i]);
        let rest = emit_ops(ts, i + 1);
        holds_in_parts(toks, s.pos, x, rest);
        op_starts(ts[i]);
        assert(toks[s.pos + 0].tok == x[0]);
        let next = s.pos + x.len();
        if i + 1 < ts.len() {
            op_starts(ts[i + 1]);
            assert(rest[0] == emit_op(ts[i + 1])[0]);
            assert(rest[1] == emit_op(ts[i + 1])[1]);
            assert(toks[next + 0].tok == rest[0]);
            assert(toks[next + 1].tok == rest[1]);
        }
        op_rebuilds(toks, s, block, ts[i]);
        let s1 = operation(toks, s, block)->Ok_0;
        let m0 = s.module;
        let m1 = s1.module;
        assert(only_adds(m0, m1)) by {
            reveal(fills);
        }
        ops_rebuild(toks, s1, block, ts, i + 1, labelled, lo);
        let u = operations(toks, s1, block, labelled)->Ok_0;
        let m2 = u.module;
        assert(operations(toks, s, block, labelled) == Ok::<Parsing, ErrorView>(u));
        assert(scope_of(s.bindings) + result_names(ts[i].results) + brought(ts, i + 1)
            =~= scope_of(s.bindings) + brought(ts, i));
        ops_joined(m0, m1, m2, block, ts, i, lo);
    }
}

/// What reading one operation and then the others comes to.
proof fn ops_joined(
    m0: ModuleView,
    m1: ModuleView,
    m2: ModuleView,
    block: BlockId,
    ts: Seq<OpTree>,
    i: int,
    lo: Marks,
)
    requires
        0 <= i < ts.len(),
        m0.has_block(block),
        block.spec_index() < lo.blocks,
        marks_before(lo, marks_of(m0)),
        0 <= lo.values && 0 <= lo.ops && 0 <= lo.regions,
        fills(m0, m1, block),
        m1.block(block).ops == m0.block(block).ops.push(m0.next_op()),
        op_is(m1, m0.next_op(), ts[i], marks_of(m0)),
        values_named(m1, m0.values.len() as int, op_defs(ts[i])),
        fills(m1, m2, block),
        m2.block(block).ops.len() == m1.block(block).ops.len() + ts.len() - (i + 1),
        forall|k: int|
            i + 1 <= k < ts.len() ==> op_is(
                m2,
                m2.block(block).ops[m1.block(block).ops.len() + k - (i + 1)],
                #[trigger] ts[k],
                lo,
            ),
        values_named(m2, m1.values.len() as int, ops_defs(ts, i + 1)),
    ensures
        fills(m0, m2, block),
        m2.block(block).ops.len() == m0.block(block).ops.len() + ts.len() - i,
        forall|k: int|
            i <= k < ts.len() ==> op_is(
                m2,
                m2.block(block).ops[m0.block(block).ops.len() + k - i],
                #[trigger] ts[k],
                lo,
            ),
        values_named(m2, m0.values.len() as int, ops_defs(ts, i)),
{
    reveal(fills);
    let op = m0.next_op();
    let old = m0.block(block).ops.len();
    let marks = marks_of(m0);
    assert(keeps(m1, m2, marks));
    assert forall|k: int| i <= k < ts.len() implies op_is(
        m2,
        m2.block(block).ops[old + k - i],
        #[trigger] ts[k],
        lo,
    ) by {
        if k == i {
            assert(m2.block(block).ops[old as int] == m1.block(block).ops[old as int]);
            op_is_kept(m1, m2, op, ts[i], lo, marks);
        }
    }
    fills_both(m0, m1, m2, block);
    let from = m0.values.len() as int;
    let a = op_defs(ts[i]);
    let b = ops_defs(ts, i + 1);
    let defs = ops_defs(ts, i);
    assert(defs == a + b);
    assert forall|k: int| 0 <= k < defs.len() implies m2.values[from + k].name == Some(
        #[trigger] defs[k],
    ) by {
        if k < a.len() {
            assert(defs[k] == a[k]);
            assert(m1.values[from + k].name == Some(a[k]));
            assert(m2.values[from + k] == m1.values[from + k]);
        } else {
            assert(defs[k] == b[k - a.len()]);
            assert(m2.values[from + a.len() + (k - a.len())].name == Some(b[k - a.len()]));
        }
    }
}

/// Filling a block twice fills it.
pub proof fn fills_both(m0: ModuleView, m1: ModuleView, m2: ModuleView, block: BlockId)
    requires
        fills(m0, m1, block),
        fills(m1, m2, block),
        m0.has_block(block),
    ensures
        fills(m0, m2, block),
{
    reveal(fills);
    assert forall|j: int| 0 <= j < m0.values.len() implies #[trigger] m2.values[j]
        == m0.values[j] by {
        assert(m1.values[j] == m0.values[j]);
    }
    assert forall|j: int| 0 <= j < m0.ops.len() implies #[trigger] m2.ops[j] == m0.ops[j] by {
        assert(m1.ops[j] == m0.ops[j]);
    }
    assert forall|j: int| 0 <= j < m0.regions.len() implies #[trigger] m2.regions[j]
        == m0.regions[j] by {
        assert(m1.regions[j] == m0.regions[j]);
    }
    assert forall|j: int| 0 <= j < m0.blocks.len() && j != block.spec_index() implies
        #[trigger] m2.blocks[j] == m0.blocks[j] by {
        assert(m1.blocks[j] == m0.blocks[j]);
    }
    assert forall|j: int| 0 <= j < m0.block(block).ops.len() implies #[trigger] m2.block(
        block,
    ).ops[j] == m0.block(block).ops[j] by {
        assert(m1.block(block).ops[j] == m0.block(block).ops[j]);
    }
}

} // verus!
