//! What a module that was read looks like.
//!
//! Reading numbers everything in the order in which it is written, and an
//! operation reads only what is in scope where it stands.

use vstd::prelude::*;

use crate::emit::attributes_ok;
use crate::grammar::{
    begin_op, block_args, block_header, head, labelled_blocks, opens_dict, operation, operations,
    parse_type, peek, region, regions, tail, undeclared_results, Head, Parsing,
};
use crate::ids::{BlockId, OperationId, RegionId};
use crate::lexer::{TokView, TokenView};
use crate::module::{ModuleView, OperationView};
use crate::provenance::{Provenance, Source};
use crate::readable::{
    all_names, finished, head_reads, ids_of, matched, module_read, one_is_ok,
    op_read, tail_reads, toks_ok, type_reads, value_read,
};
use crate::rebuild::{
    begins, beginning, begun, fills, fills_both, keeps, lines_up, marks_of, nested_frame, nests,
    only_adds, same_blocks_but, sized,
};
use crate::relex::{is_name, is_word};
use crate::reparse::consecutive;

verus! {

// ----------------------------------------------------------- what is created

/// A head that was read begins an operation as it should be.
pub proof fn begun_is_read(m: ModuleView, block: BlockId, h: Head)
    requires
        module_read(m),
        all_names(h.names),
        is_word(h.name.dialect),
        is_word(h.name.name),
        m.has_block(block),
        m.ops.len() < u32::MAX,
        m.values.len() + h.names.len() < u32::MAX,
    ensures
        module_read(begin_op(m, block, h)),
{
    let m1 = begin_op(m, block, h);
    let declared = undeclared_results(h.names);
    let created = m.result_values(declared);
    assert(m1.values == m.values + created);
    one_is_ok();
    assert forall|i: int| 0 <= i < m1.values.len() implies value_read(#[trigger] m1.values[i]) by {
        if i < m.values.len() {
            assert(m1.values[i] == m.values[i]);
        } else {
            let k = i - m.values.len();
            assert(m1.values[i] == created[k]);
            assert(declared[k].name == Some(h.names[k]));
            assert(is_name(h.names[k]));
        }
    }
    assert forall|i: int| 0 <= i < m1.ops.len() implies op_read(#[trigger] m1.ops[i]) by {
        if i < m.ops.len() {
            assert(m1.ops[i] == m.ops[i]);
        } else {
            assert(m1.ops[i].attributes =~= Seq::empty());
            assert(attributes_ok(m1.ops[i].attributes));
        }
    }
}

/// A new region leaves everything as it should be.
pub proof fn created_region_is_read(m: ModuleView, op: OperationId)
    requires
        module_read(m),
        m.has_op(op),
    ensures
        module_read(m.create_op_region(op)),
{
    let m1 = m.create_op_region(op);
    assert(op_read(m.ops[op.spec_index()]));
    assert forall|i: int| 0 <= i < m1.ops.len() implies op_read(#[trigger] m1.ops[i]) by {
        if i != op.spec_index() {
            assert(m1.ops[i] == m.ops[i]);
        }
    }
}

/// What reading block arguments changes: the block gets more of them.
pub open spec fn extends(s: Parsing, u: Parsing, block: BlockId) -> bool {
    let a = s.module.block(block).args;
    let b = u.module.block(block).args;
    &&& only_adds(s.module, u.module)
    &&& u.module.ops == s.module.ops
    &&& u.module.regions == s.module.regions
    &&& u.module.blocks.len() == s.module.blocks.len()
    &&& same_blocks_but(s.module, u.module, block.spec_index())
    &&& u.module.block(block).ops == s.module.block(block).ops
    &&& begins(b, a)
    &&& u.module.values.len() == s.module.values.len() + b.len() - a.len()
    &&& forall|k: int|
        a.len() <= k < b.len() ==> (#[trigger] b[k]).spec_index() == s.module.values.len() + k
            - a.len()
    &&& ids_of(u.bindings) == ids_of(s.bindings) + b.skip(a.len() as int)
}

proof fn args_frame(toks: Seq<TokenView>, s: Parsing, block: BlockId)
    requires
        toks_ok(toks),
        sized(toks, s),
        s.pos < toks.len(),
        s.module.has_block(block),
        module_read(s.module),
    ensures
        block_args(toks, s, block) matches Ok(u) ==> {
            &&& s.pos < u.pos < toks.len()
            &&& sized(toks, u)
            &&& extends(s, u, block)
            &&& module_read(u.module)
        },
    decreases toks.len() - s.pos,
{
    matched(toks, s.pos);
    matched(toks, s.pos + 1);
    type_reads(toks, s.pos + 2);
    if let TokView::Value(name) = peek(toks, s.pos) {
        if let Ok((ty, p3)) = parse_type(toks, s.pos + 2) {
            matched(toks, p3);
            let id = s.module.next_value();
            let m = s.module.add_block_arg(
                block,
                Some(name),
                ty,
                Provenance::trusted(Source::Tool),
            );
            let t = Parsing { pos: p3, module: m, bindings: s.bindings.push((name, id)) };
            let a = s.module.block(block).args;
            assert(m.block(block).args == a.push(id));
            one_is_ok();
            assert forall|i: int| 0 <= i < m.values.len() implies value_read(
                #[trigger] m.values[i],
            ) by {
                if i < s.module.values.len() {
                    assert(m.values[i] == s.module.values[i]);
                }
            }
            assert(ids_of(t.bindings) =~= ids_of(s.bindings).push(id));
            assert(a.push(id).skip(a.len() as int) =~= seq![id]);
            assert(ids_of(t.bindings) =~= ids_of(s.bindings) + seq![id]);
            assert(extends(s, t, block));
            if peek(toks, p3) == TokView::Punct(',') {
                let s1 = Parsing { pos: p3 + 1, ..t };
                args_frame(toks, s1, block);
                if let Ok(u) = block_args(toks, s1, block) {
                    let b = u.module.block(block).args;
                    let n = a.len() as int;
                    assert(b[n] == a.push(id)[n]);
                    assert(b.skip(n) =~= seq![id] + b.skip(n + 1));
                    assert(ids_of(u.bindings) =~= ids_of(s.bindings) + b.skip(n));
                    assert forall|k: int| 0 <= k < a.len() implies #[trigger] b[k] == a[k] by {
                        assert(b[k] == a.push(id)[k]);
                    }
                    assert forall|k: int| 0 <= k < s.module.values.len() implies
                        #[trigger] u.module.values[k] == s.module.values[k] by {
                        assert(u.module.values[k] == m.values[k]);
                    }
                }
            }
        }
    }
}

pub proof fn header_frame(toks: Seq<TokenView>, s: Parsing, block: BlockId)
    requires
        toks_ok(toks),
        sized(toks, s),
        s.pos < toks.len(),
        s.module.has_block(block),
        module_read(s.module),
    ensures
        block_header(toks, s, block) matches Ok(u) ==> {
            &&& s.pos < u.pos < toks.len()
            &&& sized(toks, u)
            &&& extends(s, u, block)
            &&& module_read(u.module)
        },
{
    reveal(block_header);
    matched(toks, s.pos);
    matched(toks, s.pos + 1);
    let a = s.module.block(block).args;
    assert(ids_of(s.bindings) + a.skip(a.len() as int) =~= ids_of(s.bindings));
    assert(extends(s, s, block));
    if peek(toks, s.pos) == TokView::Punct('(') {
        if peek(toks, s.pos + 1) == TokView::Punct(')') {
            matched(toks, s.pos + 2);
        } else {
            let s1 = Parsing { pos: s.pos + 1, ..s };
            args_frame(toks, s1, block);
            if let Ok(t) = block_args(toks, s1, block) {
                matched(toks, t.pos);
                matched(toks, t.pos + 1);
            }
        }
    }
}

// ------------------------------------------------------------------- frames

/// What beginning an operation, reading its regions and reading what stands
/// behind them changes.
pub proof fn op_frame(
    m0: ModuleView,
    m1: ModuleView,
    m2: ModuleView,
    m3: ModuleView,
    block: BlockId,
    h: Head,
)
    requires
        m0.has_block(block),
        begun(m0, m1, block, h),
        nests(m1, m2, m0.next_op()),
        finished(m2, m3, m0.next_op(), m0.values.len() as int, h.names.len() as int),
    ensures
        fills(m0, m3, block),
        m3.block(block).ops == m0.block(block).ops.push(m0.next_op()),
        m3.op(m0.next_op()).results == m1.op(m0.next_op()).results,
        m3.op(m0.next_op()).operands == h.operands,
        m3.op(m0.next_op()).regions == m2.op(m0.next_op()).regions,
        keeps(m2, m3, marks_of(m1)),
{
    reveal(nests);
    reveal(fills);
    let op = m0.next_op();
    assert forall|i: int| 0 <= i < m0.values.len() implies #[trigger] m3.values[i]
        == m0.values[i] by {
        assert(m1.values[i] == m0.values[i]);
        assert(m2.values[i] == m1.values[i]);
    }
    assert forall|i: int| 0 <= i < m0.ops.len() implies #[trigger] m3.ops[i] == m0.ops[i] by {
        assert(m1.ops[i] == m0.ops[i]);
        assert(m2.ops[i] == m1.ops[i]);
    }
    assert forall|i: int| 0 <= i < m0.regions.len() implies #[trigger] m3.regions[i]
        == m0.regions[i] by {
        assert(m2.regions[i] == m1.regions[i]);
    }
    assert forall|i: int| 0 <= i < m0.blocks.len() && i != block.spec_index() implies
        #[trigger] m3.blocks[i] == m0.blocks[i] by {
        assert(m1.blocks[i] == m0.blocks[i]);
        assert(m2.blocks[i] == m1.blocks[i]);
    }
    assert(m2.blocks[block.spec_index()] == m1.blocks[block.spec_index()]);
}

/// Nesting twice nests.
proof fn nests_both(m0: ModuleView, m1: ModuleView, m2: ModuleView, op: OperationId)
    requires
        nests(m0, m1, op),
        nests(m1, m2, op),
        m0.has_op(op),
    ensures
        nests(m0, m2, op),
{
    reveal(nests);
    assert forall|j: int| 0 <= j < m0.values.len() implies #[trigger] m2.values[j]
        == m0.values[j] by {
        assert(m1.values[j] == m0.values[j]);
    }
    assert forall|j: int| 0 <= j < m0.ops.len() && j != op.spec_index() implies
        #[trigger] m2.ops[j] == m0.ops[j] by {
        assert(m1.ops[j] == m0.ops[j]);
    }
    assert forall|j: int| 0 <= j < m0.blocks.len() implies #[trigger] m2.blocks[j]
        == m0.blocks[j] by {
        assert(m1.blocks[j] == m0.blocks[j]);
    }
    assert forall|j: int| 0 <= j < m0.regions.len() implies #[trigger] m2.regions[j]
        == m0.regions[j] by {
        assert(m1.regions[j] == m0.regions[j]);
    }
    assert forall|j: int| 0 <= j < m0.op(op).regions.len() implies #[trigger] m2.op(
        op,
    ).regions[j] == m0.op(op).regions[j] by {
        assert(m1.op(op).regions[j] == m0.op(op).regions[j]);
    }
}

/// What creating a block in a region, reading its arguments and filling it
/// changes.
pub proof fn block_frame(s: Parsing, t: Parsing, m0: ModuleView, m3: ModuleView, r: RegionId)
    requires
        m0.has_region(r),
        m0.blocks.len() < u32::MAX,
        s.module == m0.create_block(r),
        extends(s, t, m0.next_block()),
        fills(t.module, m3, m0.next_block()),
    ensures
        lines_up(m0, m3, r),
        m3.region(r).blocks == m0.region(r).blocks.push(m0.next_block()),
        m3.block(m0.next_block()).args == t.module.block(m0.next_block()).args,
{
    reveal(fills);
    reveal(lines_up);
    let m1 = s.module;
    let m2 = t.module;
    assert forall|j: int| 0 <= j < m0.values.len() implies #[trigger] m3.values[j]
        == m0.values[j] by {
        assert(m1.values[j] == m0.values[j]);
        assert(m2.values[j] == m1.values[j]);
    }
    assert forall|j: int| 0 <= j < m0.ops.len() implies #[trigger] m3.ops[j] == m0.ops[j] by {
        assert(m3.ops[j] == m2.ops[j]);
    }
    assert forall|j: int| 0 <= j < m0.blocks.len() implies #[trigger] m3.blocks[j]
        == m0.blocks[j] by {
        assert(m1.blocks[j] == m0.blocks[j]);
        assert(m2.blocks[j] == m1.blocks[j]);
        assert(m3.blocks[j] == m2.blocks[j]);
    }
    assert forall|j: int| 0 <= j < m0.regions.len() && j != r.spec_index() implies
        #[trigger] m3.regions[j] == m0.regions[j] by {
        assert(m1.regions[j] == m0.regions[j]);
        assert(m3.regions[j] == m2.regions[j]);
    }
    assert(m3.regions[r.spec_index()] == m2.regions[r.spec_index()]);
}

/// Lining blocks up twice lines them up.
proof fn lines_up_both(m0: ModuleView, m1: ModuleView, m2: ModuleView, r: RegionId)
    requires
        lines_up(m0, m1, r),
        lines_up(m1, m2, r),
        m0.has_region(r),
    ensures
        lines_up(m0, m2, r),
{
    reveal(lines_up);
    assert forall|j: int| 0 <= j < m0.values.len() implies #[trigger] m2.values[j]
        == m0.values[j] by {
        assert(m1.values[j] == m0.values[j]);
    }
    assert forall|j: int| 0 <= j < m0.ops.len() implies #[trigger] m2.ops[j] == m0.ops[j] by {
        assert(m1.ops[j] == m0.ops[j]);
    }
    assert forall|j: int| 0 <= j < m0.blocks.len() implies #[trigger] m2.blocks[j]
        == m0.blocks[j] by {
        assert(m1.blocks[j] == m0.blocks[j]);
    }
    assert forall|j: int| 0 <= j < m0.regions.len() && j != r.spec_index() implies
        #[trigger] m2.regions[j] == m0.regions[j] by {
        assert(m1.regions[j] == m0.regions[j]);
    }
    assert forall|j: int| 0 <= j < m0.region(r).blocks.len() implies #[trigger] m2.region(
        r,
    ).blocks[j] == m0.region(r).blocks[j] by {
        assert(m1.region(r).blocks[j] == m0.region(r).blocks[j]);
    }
}

// ------------------------------------------------------------------ reading

/// What reading an operation changes.
pub proof fn operation_frame(toks: Seq<TokenView>, s: Parsing, block: BlockId)
    requires
        toks_ok(toks),
        sized(toks, s),
        s.pos < toks.len(),
        s.module.has_block(block),
        module_read(s.module),
    ensures
        operation(toks, s, block) matches Ok(u) ==> {
            let op = s.module.next_op();
            let ids = u.module.op(op).results;
            &&& s.pos < u.pos < toks.len()
            &&& sized(toks, u)
            &&& fills(s.module, u.module, block)
            &&& only_adds(s.module, u.module)
            &&& u.module.block(block).ops == s.module.block(block).ops.push(op)
            &&& consecutive(ids, s.module.values.len() as int, ids.len() as int)
            &&& ids_of(u.bindings) == ids_of(s.bindings) + ids
            &&& module_read(u.module)
        },
    decreases toks.len() - s.pos, 0int,
{
    head_reads(toks, s.pos, s.bindings);
    if let Ok((h, p)) = head(toks, s.pos, s.bindings) {
        let op = s.module.next_op();
        let m0 = s.module;
        let m1 = begin_op(m0, block, h);
        let s1 = Parsing { pos: p, module: m1, ..s };
        beginning(m0, block, h);
        begun_is_read(m0, block, h);
        regions_frame(toks, s1, op);
        if let Ok(s2) = regions(toks, s1, op) {
            let lo = m0.values.len() as int;
            assert(s2.module.op(op).results == m1.op(op).results && s2.module.has_op(op)
                && m1.values.len() <= s2.module.values.len()) by {
                reveal(nests);
            }
            tail_reads(toks, s2, op, h.names, lo);
            if let Ok(u) = tail(toks, s2, op, h.names) {
                op_frame(m0, m1, s2.module, u.module, block, h);
                assert(only_adds(m0, u.module)) by {
                    reveal(fills);
                }
            }
        }
    }
}

/// What reading regions changes.
pub proof fn regions_frame(toks: Seq<TokenView>, s: Parsing, op: OperationId)
    requires
        toks_ok(toks),
        sized(toks, s),
        s.pos < toks.len(),
        s.module.has_op(op),
        module_read(s.module),
    ensures
        regions(toks, s, op) matches Ok(u) ==> {
            &&& s.pos <= u.pos < toks.len()
            &&& sized(toks, u)
            &&& u.bindings == s.bindings
            &&& nests(s.module, u.module, op)
            &&& u == s || s.module.regions.len() < u.module.regions.len()
            &&& module_read(u.module)
        },
    decreases toks.len() - s.pos, 2int,
{
    if peek(toks, s.pos) == TokView::Punct('{') && !opens_dict(toks, s.pos) {
        region_frame(toks, s, op);
        if let Ok(t) = region(toks, s, op) {
            assert(t.module.has_op(op)) by {
                reveal(nests);
            }
            regions_frame(toks, t, op);
            if let Ok(u) = regions(toks, t, op) {
                nests_both(s.module, t.module, u.module, op);
            }
        }
    } else {
        reveal(nests);
        assert(s.module.op(op) == (OperationView {
            regions: s.module.op(op).regions,
            ..s.module.op(op)
        }));
    }
}

/// What reading a region changes.
pub proof fn region_frame(toks: Seq<TokenView>, s: Parsing, op: OperationId)
    requires
        toks_ok(toks),
        sized(toks, s),
        s.pos < toks.len(),
        peek(toks, s.pos) == TokView::Punct('{'),
        s.module.has_op(op),
        module_read(s.module),
    ensures
        region(toks, s, op) matches Ok(u) ==> {
            &&& s.pos < u.pos < toks.len()
            &&& sized(toks, u)
            &&& u.bindings == s.bindings
            &&& nests(s.module, u.module, op)
            &&& u.module.op(op).regions == s.module.op(op).regions.push(s.module.next_region())
            &&& s.module.regions.len() < u.module.regions.len()
            &&& module_read(u.module)
        },
    decreases toks.len() - s.pos, 1int,
{
    matched(toks, s.pos);
    let m0 = s.module;
    let m1 = m0.create_op_region(op);
    let id = m0.next_region();
    let inner = Parsing { pos: s.pos + 1, module: m1, bindings: s.bindings };
    created_region_is_read(m0, op);
    if peek(toks, s.pos + 1) is Label {
        blocks_frame(toks, inner, id);
        if let Ok(t) = labelled_blocks(toks, inner, id) {
            matched(toks, t.pos);
            nested_frame(m0, m1, t.module, op);
            assert(m1.regions.len() <= t.module.regions.len()) by {
                reveal(lines_up);
            }
        }
    } else {
        single_frame(toks, inner, id);
        let filled = Parsing { module: m1.create_block(id), ..inner };
        if let Ok(t) = operations(toks, filled, m1.next_block(), false) {
            matched(toks, t.pos);
            nested_frame(m0, m1, t.module, op);
            assert(m1.regions.len() <= t.module.regions.len()) by {
                reveal(lines_up);
            }
        }
    }
}

/// What reading the one block of a region changes.
pub proof fn single_frame(toks: Seq<TokenView>, s: Parsing, r: RegionId)
    requires
        toks_ok(toks),
        sized(toks, s),
        s.pos < toks.len(),
        s.module.blocks.len() <= s.pos,
        s.module.has_region(r),
        module_read(s.module),
    ensures
        ({
            let m1 = s.module;
            let block = m1.next_block();
            operations(
                toks,
                Parsing { module: m1.create_block(r), ..s },
                block,
                false,
            ) matches Ok(u) ==> {
                &&& s.pos <= u.pos < toks.len()
                &&& sized(toks, u)
                &&& lines_up(m1, u.module, r)
                &&& u.module.region(r).blocks == m1.region(r).blocks.push(block)
                &&& u.module.block(block).args.len() == 0
                &&& module_read(u.module)
            }
        }),
    decreases toks.len() - s.pos, 2int,
{
    let m1 = s.module;
    let block = m1.next_block();
    let filled = Parsing { module: m1.create_block(r), ..s };
    assert(filled.module.has_block(block));
    operations_frame(toks, filled, block, false);
    if let Ok(t) = operations(toks, filled, block, false) {
        let a = filled.module.block(block).args;
        assert(ids_of(filled.bindings) + a.skip(a.len() as int) =~= ids_of(filled.bindings));
        assert(extends(filled, filled, block));
        block_frame(filled, filled, m1, t.module, r);
    }
}

/// What reading labelled blocks changes.
pub proof fn blocks_frame(toks: Seq<TokenView>, s: Parsing, r: RegionId)
    requires
        toks_ok(toks),
        sized(toks, s),
        s.pos < toks.len(),
        s.module.has_region(r),
        module_read(s.module),
    ensures
        labelled_blocks(toks, s, r) matches Ok(u) ==> {
            &&& s.pos <= u.pos < toks.len()
            &&& sized(toks, u)
            &&& lines_up(s.module, u.module, r)
            &&& peek(toks, s.pos) is Label ==> u.module.region(r).blocks.len() > 0
            &&& module_read(u.module)
        },
    decreases toks.len() - s.pos, 2int,
{
    matched(toks, s.pos);
    if peek(toks, s.pos) is Label {
        let m0 = s.module;
        let block = m0.next_block();
        let s1 = Parsing { pos: s.pos + 1, module: m0.create_block(r), ..s };
        assert(s1.module.has_block(block));
        header_frame(toks, s1, block);
        if let Ok(t) = block_header(toks, s1, block) {
            operations_frame(toks, t, block, true);
            if let Ok(u) = operations(toks, t, block, true) {
                block_frame(s1, t, m0, u.module, r);
                assert(u.module.has_region(r)) by {
                    reveal(lines_up);
                }
                blocks_frame(toks, u, r);
                if let Ok(v) = labelled_blocks(toks, u, r) {
                    lines_up_both(m0, u.module, v.module, r);
                    assert(v.module.region(r).blocks.len() > 0) by {
                        reveal(lines_up);
                    }
                }
            }
        }
    } else {
        reveal(lines_up);
    }
}

/// What reading operations changes.
pub proof fn operations_frame(toks: Seq<TokenView>, s: Parsing, block: BlockId, labelled: bool)
    requires
        toks_ok(toks),
        sized(toks, s),
        s.pos < toks.len(),
        s.module.has_block(block),
        module_read(s.module),
    ensures
        operations(toks, s, block, labelled) matches Ok(u) ==> {
            &&& s.pos <= u.pos < toks.len()
            &&& sized(toks, u)
            &&& fills(s.module, u.module, block)
            &&& module_read(u.module)
        },
    decreases toks.len() - s.pos, 1int,
{
    if peek(toks, s.pos) == TokView::Punct('}') || (labelled && peek(toks, s.pos) is Label) {
        reveal(fills);
    } else if peek(toks, s.pos) != TokView::Eof {
        operation_frame(toks, s, block);
        if let Ok(t) = operation(toks, s, block) {
            assert(t.module.has_block(block));
            operations_frame(toks, t, block, labelled);
            if let Ok(u) = operations(toks, t, block, labelled) {
                fills_both(s.module, t.module, u.module, block);
            }
        }
    }
}

} // verus!
