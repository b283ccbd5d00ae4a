//! Parallelization.
//!
//! **Validity condition.** A run of operations may share a `control.parallel`
//! region when no two of them are connected in the dependency graph: neither
//! by data, nor by an effect conflict on an overlapping scope. The effect
//! summary supplies the second half, so an operation whose own line says
//! `#pure` while its region deletes rows is still ordered correctly.
//!
//! **Risk if violated.** A race on a shared external resource.
//!
//! ## Why only adjacent operations
//!
//! The pass fuses a run of operations that are *already adjacent* in the block.
//! It never reorders. That is a real limitation (a program written
//! `A, B(dep A), C, D(dep C)` has `A` and `C` independent, and a reordering
//! scheduler would batch them), and it is deliberate.
//!
//! Moving an operation across one it does not depend on is not safe in general
//! from the dependency graph alone: shifting an operation earlier can jump it
//! over one of its own transitive predecessors, and shifting it later can jump
//! it over one of its successors. Fusing adjacent runs needs no such proof: the
//! relative order of everything else is untouched.
//!
//! The scheduler recovers the rest of the parallelism at execution time, where
//! it can see the real dependency levels without rewriting the program.

use vstd::prelude::*;
use vstd::string::*;

use crate::attribute::Attributes;
use crate::copying::copy_all;
use crate::dependency::{graph_of, DependencyGraph, GraphView};
use crate::diagnostic::{Diagnostic, DiagnosticView, Severity};
use crate::effect::{Effect, EffectView};
use crate::effects::{effect_table, lists_conflict, recorded, EffectSummary};
use crate::ids::{BlockId, OperationId, RegionId, ValueId};
use crate::module::{
    result_views, without, Module, ModuleView, OpName, OpNameView, OperationView,
    ResultView, ValueView,
};
use crate::pass::{Pass, PassReport, PassReportView, PassTitle};
use crate::provenance::Provenance;
use crate::regroup::{
    all_kept, carried_on, carries, filtered_again, filtered_alike, fuses, fusing_keeps_order,
    keeps_order, none_kept, one_filtered, order_kept_by_itself, order_kept_on, same_action, Fusion,
};
use crate::text::{nat_text, push_nat};
use crate::traversal::all_live;
use crate::types::Type;
use crate::uses::{map_of, operand_uses, uses_by, uses_in, UseMap};

verus! {

/// Wraps adjacent independent operations in a `control.parallel` region.
#[derive(Clone, Copy, Debug)]
pub struct Parallelization;

impl Default for Parallelization {
    fn default() -> (r: Parallelization)
        ensures
            r == Parallelization,
    {
        Parallelization
    }
}

/// Whether an operation may be moved inside a `control.parallel` region: a
/// terminator ends its block and cannot be nested, wrapping a parallel region
/// in another gains nothing, a function body is not a schedulable action, and a
/// check must not run concurrently with the action it guards.
pub open spec fn is_groupable(o: OperationView) -> bool {
    !(o.name.is("agent"@, "return"@) || o.name.is("control"@, "yield"@) || o.name.is(
        "control"@,
        "parallel"@,
    ) || o.name.is("agent"@, "func"@) || o.name.is("agent"@, "verify"@))
}

/// Whether an operation depends on none of the operations from `start` up to
/// it.
pub open spec fn independent_of(g: GraphView, start: int, end: int) -> bool {
    forall|k: int| start <= k < end ==> (#[trigger] g.reasons[end][k]) is None
}

/// Where the run of independent operations that starts at `start` and reaches
/// at least to `end` ends.
pub open spec fn run_end(m: ModuleView, g: GraphView, start: int, end: int) -> int
    decreases g.order.len() - end,
{
    if end < g.order.len() && is_groupable(m.op(g.order[end])) && independent_of(g, start, end) {
        run_end(m, g, start, end + 1)
    } else {
        end
    }
}

/// The first run of at least two independent operations, from `start` on.
pub open spec fn find_group(m: ModuleView, g: GraphView, start: int) -> Option<(int, int)>
    decreases g.order.len() - start,
{
    if start >= g.order.len() {
        None
    } else if !is_groupable(m.op(g.order[start])) {
        find_group(m, g, start + 1)
    } else {
        let end = run_end(m, g, start, start + 1);
        if end - start >= 2 {
            Some((start, end))
        } else if end > start {
            find_group(m, g, end)
        } else {
            None
        }
    }
}

/// The next run of adjacent, mutually independent operations in a block.
pub open spec fn next_group(m: ModuleView, block: BlockId) -> Option<Seq<OperationId>> {
    let g = graph_of(m, block, effect_table(m));
    match find_group(m, g, 0) {
        Some((start, end)) => Some(g.order.subrange(start, end)),
        None => None,
    }
}

/// Whether an operation is one of a group, or nested inside one.
pub open spec fn inside_group(m: ModuleView, op: OperationId, group: Seq<OperationId>) -> bool {
    let outer = m.ancestors(op, m.regions.len() + 1);
    group.contains(op) || exists|i: int| 0 <= i < outer.len() && group.contains(#[trigger] outer[i])
}

/// Whether something outside a group reads a value.
pub open spec fn escapes(m: ModuleView, group: Seq<OperationId>, value: ValueId) -> bool {
    exists|i: int|
        0 <= i < uses_in(m, value).len() && !inside_group(
            m,
            (#[trigger] uses_in(m, value)[i]).op,
            group,
        )
}

/// The results of the first `n` operations of a group that are read outside.
pub open spec fn escaping(m: ModuleView, group: Seq<OperationId>, n: int) -> Seq<ValueId>
    decreases n,
{
    if n <= 0 {
        Seq::empty()
    } else {
        escaping(m, group, n - 1) + m.op(group[n - 1]).results.filter(
            |v: ValueId| escapes(m, group, v),
        )
    }
}

/// The declarations of results that stand for some values.
pub open spec fn like_values(m: ModuleView, values: Seq<ValueId>) -> Seq<ResultView> {
    Seq::new(
        values.len(),
        |i: int|
            ResultView {
                name: m.value(values[i]).name,
                ty: m.value(values[i]).ty,
                provenance: m.value(values[i]).provenance,
            },
    )
}

/// The module with the first `n` operations of a group moved to the end of a
/// block.
pub open spec fn move_group(m: ModuleView, group: Seq<OperationId>, block: BlockId, n: int) -> ModuleView
    decreases n,
{
    if n <= 0 {
        m
    } else {
        move_group(m, group, block, n - 1).detach(group[n - 1]).append_to_block(
            block,
            group[n - 1],
        )
    }
}

/// The name of a value that stays inside a region.
pub open spec fn local_name(name: Option<Seq<char>>) -> Option<Seq<char>> {
    match name {
        Some(n) => Some(n + "_local"@),
        None => None,
    }
}

/// The module and the report after the uses of the first `n` of some values
/// were rewritten into uses of the results that stand for them.
pub open spec fn route(
    m: ModuleView,
    report: PassReportView,
    from: Seq<ValueId>,
    to: Seq<ValueId>,
    n: int,
) -> (ModuleView, PassReportView)
    decreases n,
{
    if n <= 0 {
        (m, report)
    } else {
        let (m1, r1) = route(m, report, from, to, n - 1);
        let a = from[n - 1];
        let v = m1.value(a);
        (
            m1.set_value(a, ValueView { name: local_name(v.name), ..v }).replace_all_uses(
                a,
                to[n - 1],
            ),
            r1.with_rewrote(a, to[n - 1]),
        )
    }
}

/// The name of the operation that runs a region concurrently.
pub open spec fn parallel_name() -> OpNameView {
    OpNameView { dialect: "control"@, name: "parallel"@ }
}

/// The name of the operation that yields values out of a region.
pub open spec fn yield_name() -> OpNameView {
    OpNameView { dialect: "control"@, name: "yield"@ }
}

/// The module with an empty `control.parallel` at a position, that has results
/// for some values.
pub open spec fn with_parallel(
    m: ModuleView,
    block: BlockId,
    position: int,
    values: Seq<ValueId>,
) -> ModuleView {
    m.create_op(
        parallel_name(),
        None,
        Seq::empty(),
        like_values(m, values),
        Seq::empty(),
        EffectView::Pure,
    ).insert_in_block(block, position, m.next_op()).create_op_region(m.next_op()).create_block(
        m.next_region(),
    )
}

/// The note on a group.
pub open spec fn group_note(count: nat, parallel: OperationId) -> DiagnosticView {
    DiagnosticView::plain(
        Severity::Note,
        "parallelization"@,
        "grouped "@ + nat_text(count)
            + " adjacent operations with no dependency and no effect conflict"@,
    ).at(parallel)
}

/// The module and the report after a group was moved into a fresh
/// `control.parallel` at the position of its first member, with every value
/// that escapes routed through a `control.yield`.
///
/// The outside world is rewritten before the yield exists, or the yield would
/// be rewritten to read the very values it is supposed to produce.
pub open spec fn wrapped(
    m: ModuleView,
    report: PassReportView,
    block: BlockId,
    group: Seq<OperationId>,
) -> (ModuleView, PassReportView) {
    let parallel = m.next_op();
    let inner = m.next_block();
    let position = match m.position(group[0]) {
        Some(i) => i,
        None => 0,
    };
    let out = escaping(m, group, group.len() as int);
    let m1 = with_parallel(m, block, position, out);
    let m2 = move_group(m1, group, inner, group.len() as int);
    let (m3, r3) = route(
        m2,
        report.with_created(parallel),
        out,
        m2.op(parallel).results,
        out.len() as int,
    );
    let (m4, r4) = if out.len() == 0 {
        (m3, r3)
    } else {
        (
            m3.create_op(
                yield_name(),
                None,
                out,
                Seq::empty(),
                Seq::empty(),
                EffectView::Pure,
            ).append_to_block(inner, m3.next_op()),
            r3.with_created(m3.next_op()),
        )
    };
    (m4, r4.with_note(group_note(group.len(), parallel)))
}

/// Whether the arenas have room for one more group with some results.
pub open spec fn has_room(m: ModuleView, results: nat) -> bool {
    &&& m.ops.len() + 2 <= u32::MAX
    &&& m.values.len() + results <= u32::MAX
    &&& m.blocks.len() < u32::MAX
    &&& m.regions.len() < u32::MAX
}

/// The module and the report after every run of independent operations of a
/// block was wrapped. Wrapping changes the block, so the graph is rebuilt and
/// the block examined again until nothing more groups.
pub open spec fn group_block(m: ModuleView, report: PassReportView, block: BlockId) -> (
    ModuleView,
    PassReportView,
)
    decreases m.block(block).ops.len(),
{
    match next_group(m, block) {
        None => (m, report),
        Some(group) => if !has_room(m, escaping(m, group, group.len() as int).len()) {
            (m, report)
        } else {
            let (m2, r2) = wrapped(m, report, block, group);
            if m2.block(block).ops.len() < m.block(block).ops.len() {
                group_block(m2, r2, block)
            } else {
                (m2, r2)
            }
        },
    }
}

/// The module and the report after the first `n` of some blocks were grouped.
pub open spec fn group_blocks(
    m: ModuleView,
    report: PassReportView,
    blocks: Seq<BlockId>,
    n: int,
) -> (ModuleView, PassReportView)
    decreases n,
{
    if n <= 0 {
        (m, report)
    } else {
        let (m1, r1) = group_blocks(m, report, blocks, n - 1);
        group_block(m1, r1, blocks[n - 1])
    }
}

/// Whether a region is the body of a `control.parallel`: its operations already
/// run concurrently.
pub open spec fn already_parallel(m: ModuleView, region: int) -> bool {
    match m.regions[region].parent {
        Some(owner) => m.op(owner).name.is("control"@, "parallel"@),
        None => false,
    }
}

/// The blocks worth scheduling among those of the first `n` regions.
pub open spec fn schedulable_blocks(m: ModuleView, n: int) -> Seq<BlockId>
    decreases n,
{
    if n <= 0 {
        Seq::empty()
    } else if already_parallel(m, n - 1) {
        schedulable_blocks(m, n - 1)
    } else {
        schedulable_blocks(m, n - 1) + m.regions[n - 1].blocks
    }
}

fn groupable(operation: &crate::module::Operation) -> (r: bool)
    ensures
        r == is_groupable(operation@),
{
    !(operation.name.is("agent", "return") || operation.name.is("control", "yield")
        || operation.name.is("control", "parallel") || operation.name.is("agent", "func")
        || operation.name.is("agent", "verify"))
}

/// Whether a block is listed in the region it belongs to.
pub open spec fn listed(m: ModuleView, block: BlockId) -> bool {
    m.has_block(block) && m.region(m.block(block).parent).blocks.contains(block)
}

fn collect_blocks(module: &Module) -> (r: Vec<BlockId>)
    requires
        module@.in_bounds(),
    ensures
        r@ == schedulable_blocks(module@, module@.regions.len() as int),
        forall|i: int| 0 <= i < r@.len() ==> listed(module@, #[trigger] r@[i]),
{
    let ghost m = module@;
    let mut blocks: Vec<BlockId> = Vec::new();
    let mut n: usize = 0;
    while n < module.region_count()
        invariant
            n <= m.regions.len(),
            m == module@,
            m.in_bounds(),
            blocks@ == schedulable_blocks(m, n as int),
            forall|i: int| 0 <= i < blocks@.len() ==> listed(m, #[trigger] blocks@[i]),
        decreases m.regions.len() - n,
    {
        let region = module.region_by_index(n);
        assert(m.region_in_bounds(m.regions[n as int]));
        let skip = match region.parent {
            Some(owner) => module.op(owner).name.is("control", "parallel"),
            None => false,
        };
        if !skip {
            let ghost before = blocks@;
            let mut i: usize = 0;
            assert(before + region.blocks@.take(0) =~= before);
            while i < region.blocks.len()
                invariant
                    i <= region.blocks@.len(),
                    n < m.regions.len(),
                    m == module@,
                    m.in_bounds(),
                    region@ == m.regions[n as int],
                    m.region_in_bounds(region@),
                    blocks@ == before + region.blocks@.take(i as int),
                    forall|i: int| 0 <= i < blocks@.len() ==> listed(m, #[trigger] blocks@[i]),
                decreases region.blocks@.len() - i,
            {
                let block = region.blocks[i];
                assert(m.has_block(region.blocks@[i as int]));
                assert(m.regions[n as int].id == RegionId::at(n as int));
                assert(m.region(m.block(block).parent) == region@);
                assert(region@.blocks[i as int] == block);
                assert(listed(m, block));
                blocks.push(block);
                i += 1;
                assert(blocks@ =~= before + region.blocks@.take(i as int));
            }
            assert(region.blocks@.take(i as int) =~= region.blocks@);
        }
        n += 1;
    }
    blocks
}

/// The position of the first run of at least two independent operations.
fn find_run(module: &Module, graph: &DependencyGraph) -> (r: Option<(usize, usize)>)
    requires
        graph@.well_formed(),
        forall|i: int| 0 <= i < graph@.order.len() ==> module@.has_op(#[trigger] graph@.order[i]),
    ensures
        match r {
            Some((start, end)) => find_group(module@, graph@, 0) == Some(
                (start as int, end as int),
            ) && start + 2 <= end <= graph@.order.len(),
            None => find_group(module@, graph@, 0) is None,
        },
{
    let ghost m = module@;
    let ghost g = graph@;
    let ops = graph.operations();
    let mut start: usize = 0;
    while start < ops.len()
        invariant
            start <= ops@.len(),
            m == module@,
            g == graph@,
            g.well_formed(),
            ops@ == g.order,
            forall|i: int| 0 <= i < g.order.len() ==> m.has_op(#[trigger] g.order[i]),
            find_group(m, g, 0) == find_group(m, g, start as int),
        decreases ops@.len() - start,
    {
        assert(m.has_op(g.order[start as int]));
        if !groupable(module.op(ops[start])) {
            start += 1;
        } else {
            let mut end: usize = start + 1;
            let mut growing = true;
            while growing
                invariant
                    start < end <= ops@.len(),
                    m == module@,
                    g == graph@,
                    g.well_formed(),
                    ops@ == g.order,
                    forall|i: int| 0 <= i < g.order.len() ==> m.has_op(#[trigger] g.order[i]),
                    growing ==> run_end(m, g, start as int, start + 1) == run_end(
                        m,
                        g,
                        start as int,
                        end as int,
                    ),
                    !growing ==> run_end(m, g, start as int, start + 1) == end,
                decreases ops@.len() - end, (if growing { 1int } else { 0int }),
            {
                if end < ops.len() {
                    assert(m.has_op(g.order[end as int]));
                    if groupable(module.op(ops[end])) && graph.is_independent(start, end) {
                        end += 1;
                    } else {
                        growing = false;
                    }
                } else {
                    growing = false;
                }
            }
            if end - start >= 2 {
                return Some((start, end));
            }
            start = end;
        }
    }
    None
}

/// The next run of adjacent, mutually independent operations in the block.
fn find_next_group(module: &Module, block: BlockId) -> (r: Option<Vec<OperationId>>)
    requires
        module@.well_formed(),
        module@.has_block(block),
    ensures
        match r {
            Some(group) => next_group(module@, block) == Some(group@) && group@.len() >= 2
                && group_of(module@, block, group@),
            None => next_group(module@, block) is None,
        },
{
    let ghost m = module@;
    let effects = EffectSummary::build(module);
    let graph = DependencyGraph::of_block(module, block, &effects);
    proof {
        assert(m.block_in_bounds(m.blocks[block.spec_index()]));
        crate::traversal::lemma_live(m, m.block(block).ops);
    }
    match find_run(module, &graph) {
        None => None,
        Some((start, end)) => {
            let ops = graph.operations();
            let mut group: Vec<OperationId> = Vec::new();
            let mut i: usize = start;
            while i < end
                invariant
                    start <= i <= end <= ops@.len(),
                    group@ == ops@.subrange(start as int, i as int),
                decreases end - i,
            {
                group.push(ops[i]);
                i += 1;
                assert(group@ =~= ops@.subrange(start as int, i as int));
            }
            proof {
                lemma_group_of(m, block, start as int, end as int);
            }
            Some(group)
        },
    }
}

/// Whether a group is made of distinct live operations of a block.
pub open spec fn group_of(m: ModuleView, block: BlockId, group: Seq<OperationId>) -> bool {
    &&& group.no_duplicates()
    &&& all_live(m, group)
    &&& forall|i: int| 0 <= i < group.len() ==> m.block(block).ops.contains(#[trigger] group[i])
}

/// A run of the live operations of a block is a group of it.
pub proof fn lemma_group_of(m: ModuleView, block: BlockId, start: int, end: int)
    requires
        m.in_bounds(),
        m.has_block(block),
        0 <= start <= end <= m.live(m.block(block).ops).len(),
    ensures
        group_of(m, block, m.live(m.block(block).ops).subrange(start, end)),
{
    let ops = m.block(block).ops;
    let live = m.live(ops);
    let group = live.subrange(start, end);
    assert(m.block_in_bounds(m.blocks[block.spec_index()]));
    crate::traversal::lemma_live(m, ops);
    crate::dependency::lemma_live_distinct(m, ops);
    assert forall|i: int| 0 <= i < group.len() implies m.has_op(#[trigger] group[i]) && !m.op(
        group[i],
    ).erased && ops.contains(group[i]) by {
        assert(group[i] == live[start + i]);
        crate::printer::lemma_filter_member(
            ops,
            |op: OperationId| !m.op(op).erased,
            start + i,
        );
    }
}

/// Whether an operation is one of the group, or nested inside one.
fn is_inside_group(module: &Module, op: OperationId, group: &Vec<OperationId>) -> (r: bool)
    requires
        module@.well_formed(),
        module@.has_op(op),
    ensures
        r == inside_group(module@, op, group@),
{
    let ghost m = module@;
    if holds_op(group, op) {
        return true;
    }
    let outer = module.ancestors(op);
    let mut i: usize = 0;
    while i < outer.len()
        invariant
            i <= outer@.len(),
            m == module@,
            outer@ == m.ancestors(op, m.regions.len() + 1),
            !group@.contains(op),
            forall|j: int| 0 <= j < i ==> !group@.contains(#[trigger] outer@[j]),
        decreases outer@.len() - i,
    {
        if holds_op(group, outer[i]) {
            assert(group@.contains(outer@[i as int]));
            return true;
        }
        i += 1;
    }
    false
}

fn holds_op(ops: &Vec<OperationId>, op: OperationId) -> (r: bool)
    ensures
        r == ops@.contains(op),
{
    let mut i: usize = 0;
    while i < ops.len()
        invariant
            i <= ops@.len(),
            forall|j: int| 0 <= j < i ==> ops@[j] != op,
        decreases ops@.len() - i,
    {
        if ops[i] == op {
            return true;
        }
        i += 1;
    }
    false
}

proof fn lemma_uses_by(m: ModuleView, ops: Seq<OperationId>, n: int, value: ValueId)
    requires
        n <= ops.len(),
    ensures
        forall|i: int|
            0 <= i < uses_by(m, ops, n, value).len() ==> ops.contains(
                (#[trigger] uses_by(m, ops, n, value)[i]).op,
            ),
    decreases n,
{
    if n > 0 {
        lemma_uses_by(m, ops, n - 1, value);
        let before = uses_by(m, ops, n - 1, value);
        let op = ops[n - 1];
        let operands = m.op(op).operands;
        let more = operand_uses(op, operands, operands.len() as int, value);
        lemma_operand_uses(op, operands, operands.len() as int, value);
        assert forall|i: int| 0 <= i < uses_by(m, ops, n, value).len() implies ops.contains(
            (#[trigger] uses_by(m, ops, n, value)[i]).op,
        ) by {
            if i < before.len() {
                assert(uses_by(m, ops, n, value)[i] == before[i]);
            } else {
                assert(uses_by(m, ops, n, value)[i] == more[i - before.len()]);
                assert(more[i - before.len()].op == op);
                assert(ops[n - 1] == op);
            }
        }
    }
}

proof fn lemma_operand_uses(op: OperationId, operands: Seq<ValueId>, n: int, value: ValueId)
    ensures
        forall|i: int|
            0 <= i < operand_uses(op, operands, n, value).len() ==> (#[trigger] operand_uses(
                op,
                operands,
                n,
                value,
            )[i]).op == op,
    decreases n,
{
    if n > 0 {
        lemma_operand_uses(op, operands, n - 1, value);
        let before = operand_uses(op, operands, n - 1, value);
        let after = operand_uses(op, operands, n, value);
        assert forall|i: int| 0 <= i < after.len() implies (#[trigger] after[i]).op == op by {
            if i < before.len() {
                assert(after[i] == before[i]);
            }
        }
    }
}

/// Whether something outside the group reads a value.
fn value_escapes(module: &Module, group: &Vec<OperationId>, uses: &UseMap, value: ValueId) -> (r:
    bool)
    requires
        module@.well_formed(),
        module@.has_value(value),
        map_of(module@, uses@),
    ensures
        r == escapes(module@, group@, value),
{
    let ghost m = module@;
    let sites = uses.uses_of(value);
    proof {
        assert(uses@[value.spec_index()] == uses_in(m, ValueId::at(value.spec_index())));
        let order = m.program_order(m.body);
        lemma_uses_by(m, order, order.len() as int, value);
        crate::traversal::walks_are_live(m, m.body);
    }
    let mut i: usize = 0;
    while i < sites.len()
        invariant
            i <= sites@.len(),
            m == module@,
            m.well_formed(),
            sites@ == uses_in(m, value),
            all_live(m, m.program_order(m.body)),
            forall|j: int|
                0 <= j < sites@.len() ==> m.program_order(m.body).contains(
                    (#[trigger] sites@[j]).op,
                ),
            forall|j: int| 0 <= j < i ==> inside_group(m, (#[trigger] sites@[j]).op, group@),
        decreases sites@.len() - i,
    {
        proof {
            let order = m.program_order(m.body);
            assert(order.contains(sites@[i as int].op));
            let k = choose|k: int| 0 <= k < order.len() && order[k] == sites@[i as int].op;
            assert(m.has_op(order[k]));
        }
        if !is_inside_group(module, sites[i].op, group) {
            assert(!inside_group(m, sites@[i as int].op, group@));
            return true;
        }
        i += 1;
    }
    false
}

/// The results of a group that are read from outside it. Those, and only those,
/// have to leave the region.
fn find_escaping(module: &Module, group: &Vec<OperationId>) -> (r: Vec<ValueId>)
    requires
        module@.well_formed(),
        all_live(module@, group@),
    ensures
        r@ == escaping(module@, group@, group@.len() as int),
        forall|i: int| 0 <= i < r@.len() ==> module@.has_value(#[trigger] r@[i]),
{
    let ghost m = module@;
    let uses = UseMap::build(module);
    let mut out: Vec<ValueId> = Vec::new();
    let mut n: usize = 0;
    let ghost keep = |v: ValueId| escapes(m, group@, v);
    while n < group.len()
        invariant
            n <= group@.len(),
            m == module@,
            m.well_formed(),
            all_live(m, group@),
            map_of(m, uses@),
            keep == |v: ValueId| escapes(m, group@, v),
            out@ == escaping(m, group@, n as int),
            forall|i: int| 0 <= i < out@.len() ==> m.has_value(#[trigger] out@[i]),
        decreases group@.len() - n,
    {
        assert(m.has_op(group@[n as int]));
        let op = group[n];
        let results = &module.op(op).results;
        let ghost before = out@;
        proof {
            assert(m.op_in_bounds(m.ops[op.spec_index()]));
            reveal(Seq::filter);
            assert(results@.take(0).filter(keep) =~= Seq::empty());
        }
        let mut i: usize = 0;
        while i < results.len()
            invariant
                i <= results@.len(),
                m == module@,
                m.well_formed(),
                map_of(m, uses@),
                m.has_op(op),
                results@ == m.op(op).results,
                m.op_in_bounds(m.op(op)),
                keep == |v: ValueId| escapes(m, group@, v),
                out@ == before + results@.take(i as int).filter(keep),
                forall|i: int| 0 <= i < out@.len() ==> m.has_value(#[trigger] out@[i]),
            decreases results@.len() - i,
        {
            proof {
                assert(m.has_value(results@[i as int]));
                reveal(Seq::filter);
                assert(results@.take(i + 1).drop_last() =~= results@.take(i as int));
            }
            let value = results[i];
            if value_escapes(module, group, &uses, value) {
                let ghost current = out@;
                out.push(value);
                assert(out@ =~= before + results@.take(i as int).filter(keep).push(value));
            }
            i += 1;
        }
        assert(results@.take(i as int) =~= results@);
        n += 1;
    }
    out
}

/// Removing an operation that occurs once shortens a list by one.
proof fn lemma_without_len(ops: Seq<OperationId>, op: OperationId)
    requires
        ops.no_duplicates(),
        ops.contains(op),
    ensures
        without(ops, op).len() == ops.len() - 1,
        forall|x: OperationId| x != op && ops.contains(x) ==> #[trigger] without(ops, op).contains(x),
    decreases ops.len(),
{
    reveal(Seq::filter);
    let rest = ops.drop_last();
    assert(rest.no_duplicates()) by {
        assert forall|i: int, j: int|
            0 <= i < rest.len() && 0 <= j < rest.len() && i != j implies rest[i] != rest[j] by {
            assert(ops[i] != ops[j]);
        }
    }
    if ops.last() == op {
        assert(!rest.contains(op)) by {
            if rest.contains(op) {
                let k = choose|k: int| 0 <= k < rest.len() && rest[k] == op;
                assert(ops[k] != ops[ops.len() - 1]);
            }
        }
        lemma_without_absent(rest, op);
        assert forall|x: OperationId| x != op && ops.contains(x) implies #[trigger] without(
            ops,
            op,
        ).contains(x) by {
            let k = choose|k: int| 0 <= k < ops.len() && ops[k] == x;
            assert(rest[k] == x);
        }
    } else {
        assert(rest.contains(op)) by {
            let k = choose|k: int| 0 <= k < ops.len() && ops[k] == op;
            assert(rest[k] == op);
        }
        lemma_without_len(rest, op);
        let kept = without(rest, op);
        assert forall|x: OperationId| x != op && ops.contains(x) implies #[trigger] without(
            ops,
            op,
        ).contains(x) by {
            let k = choose|k: int| 0 <= k < ops.len() && ops[k] == x;
            if k < rest.len() {
                assert(rest[k] == x);
                assert(kept.contains(x));
                let j = choose|j: int| 0 <= j < kept.len() && kept[j] == x;
                assert(without(ops, op)[j] == x);
            } else {
                assert(without(ops, op)[kept.len() as int] == x);
            }
        }
    }
}

proof fn lemma_without_absent(ops: Seq<OperationId>, op: OperationId)
    requires
        !ops.contains(op),
    ensures
        without(ops, op) == ops,
    decreases ops.len(),
{
    reveal(Seq::filter);
    if ops.len() > 0 {
        let rest = ops.drop_last();
        assert(!rest.contains(op)) by {
            if rest.contains(op) {
                let k = choose|k: int| 0 <= k < rest.len() && rest[k] == op;
                assert(ops[k] == op);
            }
        }
        lemma_without_absent(rest, op);
        assert(ops[ops.len() - 1] != op);
        assert(without(ops, op) =~= ops);
    } else {
        assert(without(ops, op) =~= ops);
    }
}

/// Whether one module holds the regions of another as they were, and its blocks
/// in the same regions.
pub open spec fn keeps_nesting(a: ModuleView, b: ModuleView) -> bool {
    &&& a.regions.len() <= b.regions.len()
    &&& a.blocks.len() <= b.blocks.len()
    &&& forall|i: int| 0 <= i < a.regions.len() ==> #[trigger] b.regions[i] == a.regions[i]
    &&& forall|i: int|
        0 <= i < a.blocks.len() ==> (#[trigger] b.blocks[i]).parent == a.blocks[i].parent
}

/// A block stays listed.
pub proof fn lemma_listed(a: ModuleView, b: ModuleView, block: BlockId)
    requires
        a.in_bounds(),
        keeps_nesting(a, b),
        listed(a, block),
    ensures
        listed(b, block),
{
    assert(a.block_in_bounds(a.blocks[block.spec_index()]));
    let r = a.block(block).parent;
    assert(b.blocks[block.spec_index()].parent == r);
    assert(b.regions[r.spec_index()] == a.regions[r.spec_index()]);
}

/// The levels after a region was put around part of a block.
pub open spec fn deeper(levels: Seq<nat>, level: nat) -> Seq<nat> {
    crate::structure::shifted(levels, level).push(level + 1)
}

/// What adding an empty region leaves.
pub proof fn lemma_with_parallel(
    m: ModuleView,
    levels: Seq<nat>,
    block: BlockId,
    position: int,
    values: Seq<ValueId>,
)
    requires
        m.in_bounds(),
        m.leveled(levels),
        m.has_block(block),
        0 <= position <= m.block(block).ops.len(),
        has_room(m, values.len()),
    ensures
        ({
            let m1 = with_parallel(m, block, position, values);
            let outer = m.block(block).parent;
            let level = levels[outer.spec_index()];
            &&& m1.in_bounds()
            &&& m1.leveled(deeper(levels, level))
            &&& m1.ops.len() == m.ops.len() + 1
            &&& m1.values.len() == m.values.len() + values.len()
            &&& m1.regions.len() == m.regions.len() + 1
            &&& m1.blocks.len() == m.blocks.len() + 1
            &&& forall|i: int| 0 <= i < m.ops.len() ==> #[trigger] m1.ops[i] == m.ops[i]
            &&& keeps_nesting(m, m1)
            &&& m1.block(m.next_block()).parent == m.next_region()
            &&& m1.region(m.next_region()).parent == Some(m.next_op())
            &&& m1.block(block).ops == m.block(block).ops.insert(position, m.next_op())
            &&& m1.op(m.next_op()).results.len() == values.len()
            &&& m1.op(m.next_op()).parent == Some(block)
        }),
{
    let results = like_values(m, values);
    let parallel = m.next_op();
    let outer = m.block(block).parent;
    let a = m.create_op(parallel_name(), None, Seq::empty(), results, Seq::empty(), EffectView::Pure);
    crate::structure::create_op_keeps(
        m,
        levels,
        parallel_name(),
        None,
        Seq::empty(),
        results,
        Seq::empty(),
        EffectView::Pure,
    );
    assert(m.block_in_bounds(m.blocks[block.spec_index()]));
    assert forall|r: int| 0 <= r < a.regions.len() implies (#[trigger] a.regions[r]).parent != Some(
        parallel,
    ) by {
        assert(m.region_in_bounds(m.regions[r]));
    }
    crate::structure::insert_keeps(a, levels, parallel, block, position);
    let b = a.insert_in_block(block, position, parallel);
    assert(b.region_of(parallel) == Some(outer));
    crate::structure::create_op_region_shifts(b, levels, parallel, outer);
    let c = b.create_op_region(parallel);
    let levels2 = deeper(levels, levels[outer.spec_index()]);
    crate::structure::create_block_keeps(c, levels2, m.next_region());
    let d = c.create_block(m.next_region());
    assert(d == with_parallel(m, block, position, values));
    assert(d.regions[m.regions.len() as int].parent == Some(parallel));
}

/// What moving a group leaves.
pub proof fn lemma_move_group(
    m: ModuleView,
    levels: Seq<nat>,
    group: Seq<OperationId>,
    block: BlockId,
    inner: BlockId,
    n: int,
)
    requires
        m.in_bounds(),
        m.leveled(levels),
        m.has_block(block),
        m.has_block(inner),
        inner != block,
        group.no_duplicates(),
        0 <= n <= group.len(),
        forall|j: int|
            0 <= j < group.len() ==> m.has_op(#[trigger] group[j]) && m.op(group[j]).parent == Some(
                block,
            ) && m.block(block).ops.contains(group[j]) && nests_below(
                m,
                levels,
                group[j],
                levels[m.block(inner).parent.spec_index()],
            ),
    ensures
        ({
            let m2 = move_group(m, group, inner, n);
            &&& m2.in_bounds()
            &&& m2.leveled(levels)
            &&& m2.regions == m.regions
            &&& m2.values == m.values
            &&& m2.ops.len() == m.ops.len()
            &&& m2.blocks.len() == m.blocks.len()
            &&& keeps_nesting(m, m2)
            &&& m2.block(inner).parent == m.block(inner).parent
            &&& m2.block(block).ops.len() == m.block(block).ops.len() - n
            &&& forall|j: int|
                n <= j < group.len() ==> m2.block(block).ops.contains(#[trigger] group[j])
            &&& forall|i: int|
                0 <= i < m.ops.len() && !group.take(n).contains(OperationId::at(i))
                    ==> #[trigger] m2.ops[i] == m.ops[i]
        }),
    decreases n,
{
    if n > 0 {
        lemma_move_group(m, levels, group, block, inner, n - 1);
        let m1 = move_group(m, group, inner, n - 1);
        let op = group[n - 1];
        assert(m.has_op(op));
        let x = group.take(n - 1);
        assert(!x.contains(op)) by {
            if x.contains(op) {
                let k = choose|k: int| 0 <= k < x.len() && x[k] == op;
                assert(group[k] == group[n - 1]);
            }
        }
        let i = op.spec_index();
        assert(OperationId::at(i) == op);
        assert(m1.ops[i] == m.ops[i]);
        assert(m1.block(block).ops.contains(group[n - 1]));
        let target = m1.block(inner).parent;
        assert(nests_below(m, levels, op, levels[target.spec_index()]));
        assert forall|k: int| 0 <= k < m1.op(op).regions.len() implies levels[(
        #[trigger] m1.op(op).regions[k]).spec_index()] > levels[target.spec_index()] by {
            assert(levels[m.op(op).regions[k].spec_index()] > levels[target.spec_index()]);
        }
        crate::structure::move_to_end_keeps(m1, levels, op, inner);
        let m2 = m1.detach(op).append_to_block(inner, op);
        assert(m1.block_in_bounds(m1.blocks[block.spec_index()]));
        lemma_without_len(m1.block(block).ops, op);
        assert(m2.block(block).ops == without(m1.block(block).ops, op));
        assert forall|j: int| n <= j < group.len() implies m2.block(block).ops.contains(
            #[trigger] group[j],
        ) by {
            assert(m1.block(block).ops.contains(group[j]));
            assert(group[j] != op);
        }
        let y = group.take(n);
        assert(y =~= x.push(op));
        assert forall|k: int|
            0 <= k < m.ops.len() && !y.contains(OperationId::at(k)) implies #[trigger] m2.ops[k]
            == m.ops[k] by {
            let id = OperationId::at(k);
            if x.contains(id) {
                let q = choose|q: int| 0 <= q < x.len() && x[q] == id;
                assert(y[q] == id);
            }
            if id == op {
                assert(y[n - 1] == id);
            }
            assert(m1.ops[k] == m.ops[k]);
        }
    } else {
        assert(group.take(0) =~= Seq::empty());
    }
}

/// Whether everything nested in an operation lies strictly deeper than a level.
pub open spec fn nests_below(m: ModuleView, levels: Seq<nat>, op: OperationId, level: nat) -> bool {
    &&& forall|k: int|
        0 <= k < m.op(op).regions.len() ==> levels[(
        #[trigger] m.op(op).regions[k]).spec_index()] > level
    &&& forall|r: int|
        0 <= r < m.regions.len() && (#[trigger] m.regions[r]).parent == Some(op) ==> levels[r]
            > level
}

proof fn lemma_route(
    m: ModuleView,
    report: PassReportView,
    levels: Seq<nat>,
    from: Seq<ValueId>,
    to: Seq<ValueId>,
    n: int,
)
    requires
        m.in_bounds(),
        m.leveled(levels),
        n <= from.len(),
        n <= to.len(),
        forall|i: int| 0 <= i < from.len() ==> m.has_value(#[trigger] from[i]),
        forall|i: int| 0 <= i < to.len() ==> m.has_value(#[trigger] to[i]),
    ensures
        ({
            let m2 = route(m, report, from, to, n).0;
            &&& m2.in_bounds()
            &&& m2.leveled(levels)
            &&& m2.regions == m.regions
            &&& m2.blocks == m.blocks
            &&& m2.ops.len() == m.ops.len()
            &&& m2.values.len() == m.values.len()
        }),
    decreases n,
{
    if n > 0 {
        lemma_route(m, report, levels, from, to, n - 1);
        let m1 = route(m, report, from, to, n - 1).0;
        let a = from[n - 1];
        let b = to[n - 1];
        assert(m.has_value(from[n - 1]));
        assert(m.has_value(to[n - 1]));
        let v = m1.value(a);
        let renamed = m1.set_value(a, ValueView { name: local_name(v.name), ..v });
        crate::structure::same_structure_keeps(m1, renamed, levels);
        crate::structure::replace_all_uses_keeps(renamed, levels, a, b);
    }
}

/// Rewrites the outside world to read the results of a region.
fn route_values(
    module: &mut Module,
    from: &Vec<ValueId>,
    to: &Vec<ValueId>,
    report: &mut PassReport,
    Ghost(levels): Ghost<Seq<nat>>,
)
    requires
        old(module)@.in_bounds(),
        old(module)@.leveled(levels),
        from@.len() == to@.len(),
        forall|i: int| 0 <= i < from@.len() ==> old(module)@.has_value(#[trigger] from@[i]),
        forall|i: int| 0 <= i < to@.len() ==> old(module)@.has_value(#[trigger] to@[i]),
    ensures
        (final(module)@, final(report)@) == route(
            old(module)@,
            old(report)@,
            from@,
            to@,
            from@.len() as int,
        ),
{
    let ghost start = module@;
    let ghost before = report@;
    let mut n: usize = 0;
    while n < from.len()
        invariant
            n <= from@.len(),
            from@.len() == to@.len(),
            start.in_bounds(),
            start.leveled(levels),
            forall|i: int| 0 <= i < from@.len() ==> start.has_value(#[trigger] from@[i]),
            forall|i: int| 0 <= i < to@.len() ==> start.has_value(#[trigger] to@[i]),
            (module@, report@) == route(start, before, from@, to@, n as int),
        decreases from@.len() - n,
    {
        proof {
            lemma_route(start, before, levels, from@, to@, n as int);
            assert(start.has_value(from@[n as int]));
        }
        let a = from[n];
        let ghost current = module@;
        let ghost v = current.value(a);
        let renamed: Option<String> = match &module.value(a).name {
            Some(name) => {
                let mut out = name.clone();
                out.append("_local");
                Some(out)
            },
            None => None,
        };
        module.value_mut(a).name = renamed;
        proof {
            assert(module@ =~= current.set_value(a, ValueView { name: local_name(v.name), ..v }));
        }
        let _ = module.replace_all_uses(a, to[n]);
        report.rewrote(a, to[n]);
        n += 1;
    }
}

/// Moves the operations of a group to the end of a block.
fn move_ops(
    module: &mut Module,
    group: &Vec<OperationId>,
    block: BlockId,
    inner: BlockId,
    Ghost(levels): Ghost<Seq<nat>>,
)
    requires
        old(module)@.in_bounds(),
        old(module)@.leveled(levels),
        old(module)@.has_block(block),
        old(module)@.has_block(inner),
        inner != block,
        group@.no_duplicates(),
        forall|j: int|
            0 <= j < group@.len() ==> old(module)@.has_op(#[trigger] group@[j]) && old(module)@.op(
                group@[j],
            ).parent == Some(block) && old(module)@.block(block).ops.contains(group@[j])
                && nests_below(
                old(module)@,
                levels,
                group@[j],
                levels[old(module)@.block(inner).parent.spec_index()],
            ),
    ensures
        final(module)@ == move_group(old(module)@, group@, inner, group@.len() as int),
{
    let ghost start = module@;
    let mut n: usize = 0;
    while n < group.len()
        invariant
            n <= group@.len(),
            start.in_bounds(),
            start.leveled(levels),
            start.has_block(block),
            start.has_block(inner),
            inner != block,
            group@.no_duplicates(),
            forall|j: int|
                0 <= j < group@.len() ==> start.has_op(#[trigger] group@[j]) && start.op(
                    group@[j],
                ).parent == Some(block) && start.block(block).ops.contains(group@[j])
                    && nests_below(
                    start,
                    levels,
                    group@[j],
                    levels[start.block(inner).parent.spec_index()],
                ),
            module@ == move_group(start, group@, inner, n as int),
        decreases group@.len() - n,
    {
        let op = group[n];
        proof {
            lemma_move_group(start, levels, group@, block, inner, n as int);
            assert(start.has_op(group@[n as int]));
            assert(module@.op_in_bounds(module@.ops[op.spec_index()]));
        }
        module.move_to_end(op, inner);
        n += 1;
    }
}

/// Moves `group` into a fresh `control.parallel` at the position of its first
/// member, routing every value that escapes through a `control.yield`.
fn wrap(
    module: &mut Module,
    block: BlockId,
    group: &Vec<OperationId>,
    escaping_values: Vec<ValueId>,
    report: &mut PassReport,
)
    requires
        old(module)@.well_formed(),
        listed(old(module)@, block),
        group@.len() >= 2,
        group_of(old(module)@, block, group@),
        escaping_values@ == escaping(old(module)@, group@, group@.len() as int),
        forall|i: int|
            0 <= i < escaping_values@.len() ==> old(module)@.has_value(
                #[trigger] escaping_values@[i],
            ),
        has_room(old(module)@, escaping_values@.len()),
    ensures
        (final(module)@, final(report)@) == wrapped(
            old(module)@,
            old(report)@,
            block,
            group@,
        ),
        final(module)@.well_formed(),
        keeps_nesting(old(module)@, final(module)@),
        final(module)@.block(block).ops.len() < old(module)@.block(block).ops.len(),
{
    let ghost m = module@;
    let ghost levels = choose|levels: Seq<nat>| m.leveled(levels);
    let ghost out = escaping_values@;
    let ghost outer = m.block(block).parent;
    let ghost level = levels[outer.spec_index()];
    let ghost levels2 = deeper(levels, level);
    let ghost parallel_id = m.next_op();
    let ghost inner_id = m.next_block();
    proof {
        assert(m.block_in_bounds(m.blocks[block.spec_index()]));
        assert(m.has_op(group@[0]));
        assert(m.op_in_bounds(m.ops[group@[0].spec_index()]));
        assert(m.block(block).ops.contains(group@[0]));
        lemma_member_parent(m, block, group@[0]);
    }
    let position: usize = match module.position_in_block(group[0]) {
        Some(i) => i,
        None => 0,
    };
    proof {
        crate::dominance::lemma_position(m.block(block).ops, group@[0], position as int, 0);
    }
    let mut results: Vec<(Option<String>, Type, Provenance)> = Vec::new();
    let mut i: usize = 0;
    while i < escaping_values.len()
        invariant
            i <= escaping_values@.len(),
            m == module@,
            forall|j: int|
                0 <= j < escaping_values@.len() ==> m.has_value(#[trigger] escaping_values@[j]),
            results@.len() == i,
            forall|j: int|
                0 <= j < i ==> #[trigger] result_views(results@)[j] == like_values(
                    m,
                    escaping_values@,
                )[j],
        decreases escaping_values@.len() - i,
    {
        assert(m.has_value(escaping_values@[i as int]));
        let value = module.value(escaping_values[i]);
        let ghost before = results@;
        results.push(
            (crate::text::copy_optional_text(&value.name), value.ty.clone(), value.provenance),
        );
        assert forall|j: int| 0 <= j < i + 1 implies #[trigger] result_views(results@)[j]
            == like_values(m, escaping_values@)[j] by {
            if j < i {
                assert(results@[j] == before[j]);
                assert(result_views(before)[j] == like_values(m, escaping_values@)[j]);
            }
        }
        i += 1;
    }
    assert(result_views(results@) =~= like_values(m, out));
    let parallel = module.create_op(
        OpName::new("control", "parallel"),
        None,
        Vec::new(),
        results,
        Attributes::new(),
        Effect::Pure,
    );
    module.insert_in_block(block, position, parallel);
    report.created(parallel);
    let region = module.create_op_region(parallel);
    let inner = module.create_block(region);
    let ghost m1 = with_parallel(m, block, position as int, out);
    proof {
        assert(module@ =~= m1);
        lemma_with_parallel(m, levels, block, position as int, out);
        lemma_group_ready(m, m1, levels, block, group@, position as int, out);
    }
    move_ops(module, group, block, inner, Ghost(levels2));
    let ghost m2 = module@;
    proof {
        lemma_move_group(m1, levels2, group@, block, inner, group@.len() as int);
        assert(group@.take(group@.len() as int) =~= group@);
        assert(!group@.contains(parallel)) by {
            if group@.contains(parallel) {
                let k = choose|k: int| 0 <= k < group@.len() && group@[k] == parallel;
                assert(m.has_op(group@[k]));
            }
        }
        assert(OperationId::at(parallel.spec_index()) == parallel);
        assert(m2.ops[parallel.spec_index()] == m1.ops[parallel.spec_index()]);
        assert(m2.op_in_bounds(m2.ops[parallel.spec_index()]));
    }
    // Rewrite the outside world to read the region's results. This must happen
    // before the yield exists, or the yield would be rewritten to read the very
    // values it is supposed to produce.
    let outputs = copy_all(&module.op(parallel).results);
    proof {
        assert forall|k: int| 0 <= k < out.len() implies m2.has_value(#[trigger] out[k]) by {
            assert(m.has_value(out[k]));
        }
    }
    route_values(module, &escaping_values, &outputs, report, Ghost(levels2));
    let ghost m3 = module@;
    proof {
        lemma_route(m2, old(report)@.with_created(parallel), levels2, out, outputs@, out.len() as int);
    }
    if escaping_values.len() > 0 {
        let operands = copy_all(&escaping_values);
        proof {
            assert forall|k: int| 0 <= k < out.len() implies m3.has_value(#[trigger] out[k]) by {
                assert(m.has_value(out[k]));
            }
            crate::structure::append_new_op_keeps(
                m3,
                levels2,
                inner,
                yield_name(),
                None,
                out,
                Seq::empty(),
                Seq::empty(),
                EffectView::Pure,
            );
        }
        let none: Vec<(Option<String>, Type, Provenance)> = Vec::new();
        assert(result_views(none@) =~= Seq::empty());
        let yielded = module.create_op(
            OpName::new("control", "yield"),
            None,
            operands,
            none,
            Attributes::new(),
            Effect::Pure,
        );
        module.append_to_block(inner, yielded);
        report.created(yielded);
    }
    let mut message = String::from_str("grouped ");
    push_nat(&mut message, group.len() as u64);
    message.append(" adjacent operations with no dependency and no effect conflict");
    report.note(Diagnostic::note("parallelization", message).at(parallel));
    proof {
        assert(module@.leveled(levels2));
        assert(module@.block(block).ops == m2.block(block).ops);
        assert(keeps_nesting(m, module@));
    }
}

proof fn lemma_member_parent(m: ModuleView, block: BlockId, op: OperationId)
    requires
        m.in_bounds(),
        m.has_block(block),
        m.block(block).ops.contains(op),
    ensures
        m.has_op(op),
        m.op(op).parent == Some(block),
{
    assert(m.block_in_bounds(m.blocks[block.spec_index()]));
    let ops = m.block(block).ops;
    let k = choose|k: int| 0 <= k < ops.len() && ops[k] == op;
    assert(m.has_op(ops[k]));
    assert(m.blocks[block.spec_index()].id == BlockId::at(block.spec_index()));
}

/// After the parallel operation was put in place, the group is ready to be
/// moved into it.
pub proof fn lemma_group_ready(
    m: ModuleView,
    m1: ModuleView,
    levels: Seq<nat>,
    block: BlockId,
    group: Seq<OperationId>,
    position: int,
    values: Seq<ValueId>,
)
    requires
        m.in_bounds(),
        m.leveled(levels),
        listed(m, block),
        group_of(m, block, group),
        0 <= position <= m.block(block).ops.len(),
        has_room(m, values.len()),
        m1 == with_parallel(m, block, position, values),
    ensures
        ({
            let inner = m.next_block();
            let outer = m.block(block).parent;
            let levels2 = deeper(levels, levels[outer.spec_index()]);
            &&& inner != block
            &&& m1.has_block(inner)
            &&& m1.has_block(block)
            &&& forall|j: int|
                0 <= j < group.len() ==> m1.has_op(#[trigger] group[j]) && m1.op(group[j]).parent
                    == Some(block) && m1.block(block).ops.contains(group[j]) && nests_below(
                    m1,
                    levels2,
                    group[j],
                    levels2[m1.block(inner).parent.spec_index()],
                )
        }),
{
    lemma_with_parallel(m, levels, block, position, values);
    let inner = m.next_block();
    let outer = m.block(block).parent;
    let r = outer.spec_index();
    let level = levels[r];
    let levels2 = deeper(levels, level);
    let ops = m.block(block).ops;
    assert(m.block_in_bounds(m.blocks[block.spec_index()]));
    assert(m.region_in_bounds(m.regions[r]));
    let b = choose|b: int|
        0 <= b < m.regions[r].blocks.len() && m.regions[r].blocks[b] == block;
    assert(levels2[m1.block(inner).parent.spec_index()] == level + 1);
    assert forall|j: int| 0 <= j < group.len() implies m1.has_op(#[trigger] group[j]) && m1.op(
        group[j],
    ).parent == Some(block) && m1.block(block).ops.contains(group[j]) && nests_below(
        m1,
        levels2,
        group[j],
        level + 1,
    ) by {
        let op = group[j];
        assert(ops.contains(group[j]));
        lemma_member_parent(m, block, op);
        assert(m1.ops[op.spec_index()] == m.ops[op.spec_index()]);
        let o = choose|o: int| 0 <= o < ops.len() && ops[o] == op;
        let at = if o < position {
            o
        } else {
            o + 1
        };
        assert(m1.block(block).ops[at] == op);
        assert forall|k: int| 0 <= k < m1.op(op).regions.len() implies levels2[(
        #[trigger] m1.op(op).regions[k]).spec_index()] > level + 1 by {
            assert(m.has_child(r, b, o, k));
            assert(m.child(r, b, o, k) == m.op(op).regions[k]);
            assert(m.op_in_bounds(m.ops[op.spec_index()]));
            assert(m.has_region(m.op(op).regions[k]));
        }
        assert forall|q: int|
            0 <= q < m1.regions.len() && (#[trigger] m1.regions[q]).parent == Some(
                op,
            ) implies levels2[q] > level + 1 by {
            if q < m.regions.len() {
                assert(m1.regions[q] == m.regions[q]);
                assert(m.inside_owner(levels, m.regions[q]));
                assert(m.regions[q].id == RegionId::at(q));
            } else {
                assert(m1.region(m.next_region()).parent == Some(m.next_op()));
                assert(m.has_op(op));
            }
        }
    }
}

impl Parallelization {
    /// Wraps every run of independent operations of a block.
    fn group(&self, module: &mut Module, block: BlockId, report: &mut PassReport)
        requires
            old(module)@.well_formed(),
            listed(old(module)@, block),
        ensures
            (final(module)@, final(report)@) == group_block(old(module)@, old(report)@, block),
            final(module)@.well_formed(),
            keeps_nesting(old(module)@, final(module)@),
    {
        let ghost start = module@;
        let ghost total = group_block(module@, report@, block);
        let mut done = false;
        // One group per visit: wrapping changes the block, so the graph is
        // rebuilt and the block re-examined until nothing more groups.
        while !done
            invariant
                start.in_bounds(),
                module@.well_formed(),
                keeps_nesting(start, module@),
                listed(module@, block),
                !done ==> group_block(module@, report@, block) == total,
                done ==> (module@, report@) == total,
            decreases module@.block(block).ops.len(), (if done { 0int } else { 1int }),
        {
            match find_next_group(module, block) {
                None => {
                    done = true;
                },
                Some(group) => {
                    let escaping_values = find_escaping(module, &group);
                    if room_for(module, escaping_values.len()) {
                        let ghost before = module@;
                        wrap(module, block, &group, escaping_values, report);
                        proof {
                            lemma_listed(before, module@, block);
                        }
                    } else {
                        done = true;
                    }
                },
            }
        }
    }
}

fn room_for(module: &Module, results: usize) -> (r: bool)
    ensures
        r == has_room(module@, results as nat),
{
    let limit: u64 = u32::MAX as u64;
    (module.op_capacity() as u64) < limit - 1 && (module.value_capacity() as u64) <= limit && (
    results as u64) <= limit - (module.value_capacity() as u64) && (module.block_count() as u64)
        < limit && (module.region_count() as u64) < limit
}

impl Pass for Parallelization {
    open spec fn outcome(&self, m: ModuleView) -> (ModuleView, PassReportView) {
        let blocks = schedulable_blocks(m, m.regions.len() as int);
        group_blocks(
            m,
            PassReportView::empty("parallelization"@),
            blocks,
            blocks.len() as int,
        )
    }

    open spec fn title(&self) -> PassTitle {
        PassTitle {
            name: "parallelization"@,
            description: "Groups adjacent operations with no dependency and no effect conflict into control.parallel."@,
        }
    }

    fn name(&self) -> (r: &'static str)
        ensures
            r@ == "parallelization"@,
    {
        "parallelization"
    }

    fn description(&self) -> (r: &'static str)
        ensures
            r@
                == "Groups adjacent operations with no dependency and no effect conflict into control.parallel."@,
    {
        "Groups adjacent operations with no dependency and no effect conflict into control.parallel."
    }

    fn run(&self, module: &mut Module) -> (r: PassReport) {
        let mut report = PassReport::new(self.name());
        let ghost start = module@;
        let ghost before = report@;
        let blocks = collect_blocks(module);
        let mut n: usize = 0;
        while n < blocks.len()
            invariant
                n <= blocks@.len(),
                start.in_bounds(),
                module@.well_formed(),
                keeps_nesting(start, module@),
                forall|i: int| 0 <= i < blocks@.len() ==> listed(start, #[trigger] blocks@[i]),
                (module@, report@) == group_blocks(start, before, blocks@, n as int),
            decreases blocks@.len() - n,
        {
            proof {
                assert(listed(start, blocks@[n as int]));
                lemma_listed(start, module@, blocks@[n as int]);
            }
            let ghost middle = module@;
            self.group(module, blocks[n], &mut report);
            n += 1;
        }
        report
    }
}

// -------------------------------------------------------------------- laws

proof fn lemma_run_independent(m: ModuleView, g: GraphView, start: int, end: int)
    requires
        0 <= start < end <= g.order.len(),
        forall|i: int, j: int|
            start <= i < j < end ==> (#[trigger] g.reasons[j][i]) is None,
        forall|i: int| start <= i < end ==> is_groupable(m.op(#[trigger] g.order[i])),
    ensures
        ({
            let last = run_end(m, g, start, end);
            &&& end <= last <= g.order.len()
            &&& forall|i: int, j: int|
                start <= i < j < last ==> (#[trigger] g.reasons[j][i]) is None
            &&& forall|i: int| start <= i < last ==> is_groupable(m.op(#[trigger] g.order[i]))
        }),
    decreases g.order.len() - end,
{
    if end < g.order.len() && is_groupable(m.op(g.order[end])) && independent_of(g, start, end) {
        assert forall|i: int, j: int| start <= i < j < end + 1 implies (
        #[trigger] g.reasons[j][i]) is None by {
            if j == end {
                assert(g.reasons[end][i] is None);
            }
        }
        lemma_run_independent(m, g, start, end + 1);
    }
}

proof fn lemma_group_independent(m: ModuleView, g: GraphView, from: int)
    requires
        0 <= from,
    ensures
        find_group(m, g, from) matches Some((start, end)) ==> {
            &&& from <= start
            &&& start + 2 <= end <= g.order.len()
            &&& forall|i: int, j: int|
                start <= i < j < end ==> (#[trigger] g.reasons[j][i]) is None
            &&& forall|i: int| start <= i < end ==> is_groupable(m.op(#[trigger] g.order[i]))
        },
    decreases g.order.len() - from,
{
    if from < g.order.len() {
        if !is_groupable(m.op(g.order[from])) {
            lemma_group_independent(m, g, from + 1);
        } else {
            lemma_run_independent(m, g, from, from + 1);
            let end = run_end(m, g, from, from + 1);
            if end - from < 2 && end > from {
                lemma_group_independent(m, g, end);
            }
        }
    }
}

/// No two operations of a group are connected: neither reads what another
/// produces, and no effects of theirs conflict. All of them may be moved.
pub proof fn groups_are_independent(m: ModuleView, block: BlockId, i: int, j: int)
    requires
        next_group(m, block) is Some,
        0 <= i < j < next_group(m, block)->0.len(),
    ensures
        ({
            let group = next_group(m, block)->0;
            let table = effect_table(m);
            &&& !lists_conflict(recorded(table, group[i]), recorded(table, group[j]))
            &&& is_groupable(m.op(group[i])) && is_groupable(m.op(group[j]))
            &&& exists|s: int|
                #![trigger m.data_edge(m.live(m.block(block).ops), s + i, s + j)]
                0 <= s && s + j < m.live(m.block(block).ops).len() && group[i] == m.live(
                    m.block(block).ops,
                )[s + i] && group[j] == m.live(m.block(block).ops)[s + j] && !m.data_edge(
                    m.live(m.block(block).ops),
                    s + i,
                    s + j,
                )
        }),
{
    let table = effect_table(m);
    let g = graph_of(m, block, table);
    lemma_group_independent(m, g, 0);
    let (start, end) = find_group(m, g, 0)->0;
    let group = next_group(m, block)->0;
    assert(group[i] == g.order[start + i]);
    assert(group[j] == g.order[start + j]);
    assert(g.reasons[start + j][start + i] is None);
    assert(!m.data_edge(g.order, start + i, start + j));
}

/// Whether the operations of a module are the same in another one, but for what
/// they read and where they stand.
spec fn looks_alike(a: ModuleView, b: ModuleView) -> bool {
    &&& a.ops.len() <= b.ops.len()
    &&& a.body == b.body
    &&& forall|i: int|
        0 <= i < a.ops.len() ==> (#[trigger] b.ops[i]).erased == a.ops[i].erased
            && b.ops[i].regions == a.ops[i].regions && same_action(a.ops[i], b.ops[i])
}

/// Every value that leaves a group is a value of the module.
pub proof fn escaping_exist(m: ModuleView, group: Seq<OperationId>, n: int)
    requires
        m.in_bounds(),
        all_live(m, group),
        n <= group.len(),
    ensures
        forall|i: int|
            0 <= i < escaping(m, group, n).len() ==> m.has_value(
                #[trigger] escaping(m, group, n)[i],
            ),
    decreases n,
{
    if n > 0 {
        escaping_exist(m, group, n - 1);
        let before = escaping(m, group, n - 1);
        let results = m.op(group[n - 1]).results;
        let keep = |v: ValueId| escapes(m, group, v);
        assert(m.has_op(group[n - 1]));
        assert(m.op_in_bounds(m.ops[group[n - 1].spec_index()]));
        assert forall|i: int| 0 <= i < escaping(m, group, n).len() implies m.has_value(
            #[trigger] escaping(m, group, n)[i],
        ) by {
            if i < before.len() {
                assert(escaping(m, group, n)[i] == before[i]);
            } else {
                let k = i - before.len();
                assert(escaping(m, group, n)[i] == results.filter(keep)[k]);
                crate::printer::lemma_filter_member(results, keep, k);
            }
        }
    }
}

/// Where the operations of a group are once they were moved.
proof fn moved_group(
    m: ModuleView,
    levels: Seq<nat>,
    group: Seq<OperationId>,
    block: BlockId,
    inner: BlockId,
    n: int,
)
    requires
        m.in_bounds(),
        m.leveled(levels),
        m.has_block(block),
        m.has_block(inner),
        inner != block,
        group.no_duplicates(),
        0 <= n <= group.len(),
        forall|j: int|
            0 <= j < group.len() ==> m.has_op(#[trigger] group[j]) && m.op(group[j]).parent == Some(
                block,
            ) && m.block(block).ops.contains(group[j]) && nests_below(
                m,
                levels,
                group[j],
                levels[m.block(inner).parent.spec_index()],
            ),
    ensures
        ({
            let m2 = move_group(m, group, inner, n);
            &&& looks_alike(m, m2)
            &&& m2.block(inner).ops == m.block(inner).ops + group.take(n)
            &&& m2.block(block).ops == m.block(block).ops.filter(
                |op: OperationId| !group.take(n).contains(op),
            )
            &&& forall|i: int|
                0 <= i < m.blocks.len() && i != block.spec_index() && i != inner.spec_index()
                    ==> #[trigger] m2.blocks[i] == m.blocks[i]
        }),
    decreases n,
{
    let out = |op: OperationId| !group.take(n).contains(op);
    let ops = m.block(block).ops;
    if n > 0 {
        moved_group(m, levels, group, block, inner, n - 1);
        lemma_move_group(m, levels, group, block, inner, n - 1);
        let m1 = move_group(m, group, inner, n - 1);
        let op = group[n - 1];
        assert(m.has_op(group[n - 1]));
        let x = group.take(n - 1);
        assert(!x.contains(op)) by {
            if x.contains(op) {
                let k = choose|k: int| 0 <= k < x.len() && x[k] == op;
                assert(group[k] == group[n - 1]);
            }
        }
        assert(OperationId::at(op.spec_index()) == op);
        assert(m1.ops[op.spec_index()] == m.ops[op.spec_index()]);
        let d = m1.detach(op);
        let m2 = d.append_to_block(inner, op);
        assert(m2 == move_group(m, group, inner, n));
        assert(block.spec_index() != inner.spec_index());
        assert(m2.block(inner).ops == m1.block(inner).ops.push(op));
        assert(group.take(n) =~= x.push(op));
        assert(m2.block(inner).ops =~= m.block(inner).ops + group.take(n));
        let out1 = |o: OperationId| !group.take(n - 1).contains(o);
        assert(m1.block(block).ops == ops.filter(out1));
        assert(m2.block(block).ops == without(m1.block(block).ops, op));
        assert forall|i: int| 0 <= i < ops.len() implies out(#[trigger] ops[i]) == (out1(ops[i])
            && ops[i] != op) by {
            push_contains(x, op, ops[i]);
        }
        one_more_out(ops, out1, op, out);
    } else {
        assert(group.take(0) =~= Seq::empty());
        assert(m.block(inner).ops + group.take(0) =~= m.block(inner).ops);
        all_kept(ops, out);
    }
}

/// Taking one more operation out of what a filter keeps.
proof fn one_more_out(
    ops: Seq<OperationId>,
    kept: spec_fn(OperationId) -> bool,
    op: OperationId,
    fewer: spec_fn(OperationId) -> bool,
)
    requires
        forall|i: int|
            0 <= i < ops.len() ==> fewer(#[trigger] ops[i]) == (kept(ops[i]) && ops[i] != op),
    ensures
        without(ops.filter(kept), op) == ops.filter(fewer),
    decreases ops.len(),
{
    reveal(Seq::filter);
    if ops.len() > 0 {
        let rest = ops.drop_last();
        assert forall|i: int| 0 <= i < rest.len() implies fewer(#[trigger] rest[i]) == (kept(
            rest[i],
        ) && rest[i] != op) by {
            assert(ops[i] == rest[i]);
        }
        one_more_out(rest, kept, op, fewer);
        assert(ops[ops.len() - 1] == ops.last());
        if kept(ops.last()) {
            assert(ops.filter(kept).drop_last() =~= rest.filter(kept));
        }
    }
}

proof fn push_contains(s: Seq<OperationId>, x: OperationId, y: OperationId)
    ensures
        s.push(x).contains(y) == (s.contains(y) || y == x),
{
    if s.contains(y) {
        let k = choose|k: int| 0 <= k < s.len() && s[k] == y;
        assert(s.push(x)[k] == y);
    }
    if y == x {
        assert(s.push(x)[s.len() as int] == y);
    }
}

/// Rewriting the outside world changes no structure.
proof fn routing_looks_alike(
    m: ModuleView,
    report: PassReportView,
    from: Seq<ValueId>,
    to: Seq<ValueId>,
    n: int,
)
    ensures
        looks_alike(m, route(m, report, from, to, n).0),
        looks_alike(route(m, report, from, to, n).0, m),
    decreases n,
{
    if n > 0 {
        routing_looks_alike(m, report, from, to, n - 1);
    }
}

/// Where a group that starts at a live position of a block stands in it.
pub proof fn run_position(m: ModuleView, block: BlockId, start: int) -> (position: int)
    requires
        m.in_bounds(),
        m.has_block(block),
        0 <= start < m.live(m.block(block).ops).len(),
    ensures
        m.position(m.live(m.block(block).ops)[start]) == Some(position),
        0 <= position < m.block(block).ops.len(),
        m.live(m.block(block).ops.take(position)) == m.live(m.block(block).ops).take(start),
        m.live(m.block(block).ops.skip(position)) == m.live(m.block(block).ops).skip(start),
{
    let ops = m.block(block).ops;
    let live = |op: OperationId| !m.op(op).erased;
    let order = m.live(ops);
    let op = order[start];
    crate::printer::lemma_filter_member(ops, live, start);
    let position = choose|k: int| 0 <= k < ops.len() && ops[k] == ops.filter(live)[start] && live(
        ops[k],
    );
    assert(m.block_in_bounds(m.blocks[block.spec_index()]));
    assert(ops.contains(op));
    lemma_member_parent(m, block, op);
    assert(crate::module::position_of(ops, op, position));
    crate::dominance::lemma_position(ops, op, position, 0);
    crate::printer::lemma_filter_index(ops, live, position);
    crate::dependency::lemma_live_distinct(m, ops);
    let first = ops.take(position);
    let rest = ops.skip(position);
    let q = first.filter(live).len() as int;
    assert(order[q] == order[start]);
    assert(q == start);
    assert(ops =~= first + rest);
    Seq::filter_distributes_over_add(first, rest, live);
    assert(first.filter(live) =~= order.take(start));
    assert(rest.filter(live) =~= order.skip(start));
    position
}

/// Wrapping a run of operations puts it into a region of its own, and leaves
/// the module well-formed.
proof fn wrapping_fuses(
    m: ModuleView,
    report: PassReportView,
    block: BlockId,
    start: int,
    end: int,
)
    requires
        m.well_formed(),
        listed(m, block),
        0 <= start,
        start + 2 <= end <= m.live(m.block(block).ops).len(),
        ({
            let group = m.live(m.block(block).ops).subrange(start, end);
            has_room(m, escaping(m, group, group.len() as int).len())
        }),
    ensures
        ({
            let group = m.live(m.block(block).ops).subrange(start, end);
            let after = wrapped(m, report, block, group).0;
            &&& after.well_formed()
            &&& keeps_nesting(m, after)
            &&& after.block(block).ops.len() < m.block(block).ops.len()
            &&& carries(m, after)
            &&& exists|f: Fusion| #[trigger] fuses(m, after, f)
        }),
{
    let old_ops = m.block(block).ops;
    let order = m.live(old_ops);
    let group = order.subrange(start, end);
    let size = group.len() as int;
    let levels = choose|levels: Seq<nat>| m.leveled(levels);
    let out = escaping(m, group, size);
    let levels2 = deeper(levels, levels[m.block(block).parent.spec_index()]);
    let parallel = m.next_op();
    let inner = m.next_block();
    let region = m.next_region();
    lemma_group_of(m, block, start, end);
    escaping_exist(m, group, size);
    assert(group[0] == order[start]);
    let position = run_position(m, block, start);
    assert(m.block_in_bounds(m.blocks[block.spec_index()]));
    // The empty region.
    let m1 = with_parallel(m, block, position, out);
    lemma_with_parallel(m, levels, block, position, out);
    lemma_group_ready(m, m1, levels, block, group, position, out);
    assert(m1.op(parallel).regions =~= seq![region]);
    assert(m1.region(region).blocks =~= seq![inner]);
    assert(m1.block(inner).ops =~= Seq::empty());
    assert(!m1.op(parallel).erased);
    assert(looks_alike(m, m1));
    assert forall|i: int| 0 <= i < m.blocks.len() && i != block.spec_index() implies (
    #[trigger] m1.blocks[i]).ops == m.blocks[i].ops by {}
    // The operations moved into it.
    let m2 = move_group(m1, group, inner, size);
    lemma_move_group(m1, levels2, group, block, inner, size);
    moved_group(m1, levels2, group, block, inner, size);
    assert(group.take(size) =~= group);
    assert(m2.ops[parallel.spec_index()].regions == m1.ops[parallel.spec_index()].regions);
    assert(!group.contains(parallel)) by {
        if group.contains(parallel) {
            let k = choose|k: int| 0 <= k < group.len() && group[k] == parallel;
            assert(m.has_op(group[k]));
        }
    }
    assert(OperationId::at(parallel.spec_index()) == parallel);
    assert(m2.ops[parallel.spec_index()] == m1.ops[parallel.spec_index()]);
    assert(m2.op_in_bounds(m2.ops[parallel.spec_index()]));
    // The outside world rewritten.
    let to = m2.op(parallel).results;
    let created = report.with_created(parallel);
    assert forall|k: int| 0 <= k < out.len() implies m2.has_value(#[trigger] out[k]) by {
        assert(m.has_value(out[k]));
    }
    let m3 = route(m2, created, out, to, out.len() as int).0;
    lemma_route(m2, created, levels2, out, to, out.len() as int);
    routing_looks_alike(m2, created, out, to, out.len() as int);
    assert(m3.ops[parallel.spec_index()].regions == m2.ops[parallel.spec_index()].regions);
    // The yield.
    let after = wrapped(m, report, block, group).0;
    let closing = if out.len() == 0 {
        Seq::empty()
    } else {
        seq![m3.next_op()]
    };
    if out.len() > 0 {
        assert forall|k: int| 0 <= k < out.len() implies m3.has_value(#[trigger] out[k]) by {
            assert(m.has_value(out[k]));
        }
        crate::structure::append_new_op_keeps(
            m3,
            levels2,
            inner,
            yield_name(),
            None,
            out,
            Seq::empty(),
            Seq::empty(),
            EffectView::Pure,
        );
        assert(looks_alike(m3, after));
        assert(after.block(inner).ops =~= m3.block(inner).ops + closing);
        assert(after.op(m3.next_op()).regions.len() == 0);
    } else {
        assert(after == m3);
        assert(after.block(inner).ops =~= m3.block(inner).ops + closing);
    }
    assert(after.leveled(levels2));
    assert(after.block(block).ops == m2.block(block).ops);
    assert(keeps_nesting(m, after));
    // What is live around the run.
    let before = order.take(start);
    let behind = order.skip(end);
    let live = |op: OperationId| !m.op(op).erased;
    let live2 = |op: OperationId| !after.op(op).erased;
    let outside = |op: OperationId| !group.contains(op);
    let first = old_ops.take(position);
    let rest = old_ops.skip(position);
    assert(m1.block(block).ops =~= first + seq![parallel] + rest);
    assert(m2.block(block).ops == (first + seq![parallel] + rest).filter(outside)) by {
        let out1 = |op: OperationId| !group.take(size).contains(op);
        let all = first + seq![parallel] + rest;
        filtered_alike(all, out1, out1, outside, outside);
        filtered_again(all, out1);
        filtered_again(all, outside);
    }
    assert forall|k: int| 0 <= k < old_ops.len() implies live2(#[trigger] old_ops[k]) == live(
        old_ops[k],
    ) by {
        assert(m.has_op(old_ops[k]));
        let i = old_ops[k].spec_index();
        assert(m1.ops[i].erased == m.ops[i].erased);
        assert(m2.ops[i].erased == m1.ops[i].erased);
        assert(m3.ops[i].erased == m2.ops[i].erased);
        assert(after.ops[i].erased == m3.ops[i].erased);
    }
    assert(live2(parallel)) by {
        let i = parallel.spec_index();
        assert(m2.ops[i].erased == m1.ops[i].erased);
        assert(m3.ops[i].erased == m2.ops[i].erased);
        assert(after.ops[i].erased == m3.ops[i].erased);
    }
    crate::dependency::lemma_live_distinct(m, old_ops);
    around_the_run(order, group, start, end, outside);
    assert forall|k: int| 0 <= k < first.len() implies (outside(#[trigger] first[k]) && live2(
        first[k],
    )) == (live(first[k]) && outside(first[k])) by {
        assert(old_ops[k] == first[k]);
    }
    assert forall|k: int| 0 <= k < rest.len() implies (outside(#[trigger] rest[k]) && live2(
        rest[k],
    )) == (live(rest[k]) && outside(rest[k])) by {
        assert(old_ops[position + k] == rest[k]);
    }
    filtered_alike(first, outside, live2, live, outside);
    filtered_alike(rest, outside, live2, live, outside);
    one_filtered(parallel, outside);
    one_filtered(parallel, live2);
    let p = seq![parallel];
    Seq::filter_distributes_over_add(first + p, rest, outside);
    Seq::filter_distributes_over_add(first, p, outside);
    Seq::filter_distributes_over_add(
        first.filter(outside) + p.filter(outside),
        rest.filter(outside),
        live2,
    );
    Seq::filter_distributes_over_add(first.filter(outside), p.filter(outside), live2);
    assert(first.filter(live).filter(outside) == before);
    assert(rest.filter(live).filter(outside) == behind);
    assert(after.live(after.block(block).ops) == before + p + behind);
    assert(order =~= before + group + behind);
    let f = Fusion {
        block,
        before,
        group,
        after: behind,
        owner: parallel,
        region,
        inner,
        closing,
    };
    assert forall|i: int| 0 <= i < m.ops.len() implies (#[trigger] after.ops[i]).erased
        == m.ops[i].erased && after.ops[i].regions == m.ops[i].regions by {
        assert(m1.ops[i].regions == m.ops[i].regions);
        assert(m2.ops[i].regions == m1.ops[i].regions);
        assert(m3.ops[i].regions == m2.ops[i].regions);
    }
    assert forall|i: int| 0 <= i < m.blocks.len() && i != block.spec_index() implies (
    #[trigger] after.blocks[i]).ops == m.blocks[i].ops by {
        assert(m1.blocks[i].ops == m.blocks[i].ops);
        assert(m2.blocks[i] == m1.blocks[i]);
    }
    assert(after.block(inner).ops =~= group + closing);
    assert(fuses(m, after, f));
    assert forall|i: int| 0 <= i < m.ops.len() implies same_action(
        m.ops[i],
        #[trigger] after.ops[i],
    ) by {
        assert(same_action(m.ops[i], m1.ops[i]));
        assert(same_action(m1.ops[i], m2.ops[i]));
        assert(same_action(m2.ops[i], m3.ops[i]));
        assert(same_action(m3.ops[i], after.ops[i]));
    }
    assert forall|i: int| m.ops.len() <= i < after.ops.len() implies (
    #[trigger] after.ops[i]).effect == EffectView::Pure by {
        if i < m3.ops.len() {
            assert(i == parallel.spec_index());
            assert(m1.ops[i].effect == EffectView::Pure);
            assert(same_action(m1.ops[i], m2.ops[i]));
            assert(same_action(m2.ops[i], m3.ops[i]));
            assert(same_action(m3.ops[i], after.ops[i]));
        } else {
            assert(i == m3.next_op().spec_index());
        }
    }
}

/// What a run is taken out of.
proof fn around_the_run(
    order: Seq<OperationId>,
    group: Seq<OperationId>,
    start: int,
    end: int,
    outside: spec_fn(OperationId) -> bool,
)
    requires
        order.no_duplicates(),
        0 <= start <= end <= order.len(),
        group == order.subrange(start, end),
        forall|op: OperationId| #[trigger] outside(op) == !group.contains(op),
    ensures
        order.take(start).filter(outside) == order.take(start),
        order.skip(start).filter(outside) == order.skip(end),
{
    let before = order.take(start);
    let behind = order.skip(end);
    assert forall|i: int| 0 <= i < before.len() implies outside(#[trigger] before[i]) by {
        if group.contains(before[i]) {
            let k = choose|k: int| 0 <= k < group.len() && group[k] == before[i];
            assert(order[start + k] == order[i]);
        }
    }
    all_kept(before, outside);
    assert forall|i: int| 0 <= i < behind.len() implies outside(#[trigger] behind[i]) by {
        if group.contains(behind[i]) {
            let k = choose|k: int| 0 <= k < group.len() && group[k] == behind[i];
            assert(order[start + k] == order[end + i]);
        }
    }
    all_kept(behind, outside);
    assert forall|i: int| 0 <= i < group.len() implies !outside(#[trigger] group[i]) by {
        assert(group.contains(group[i]));
    }
    none_kept(group, outside);
    assert(order.skip(start) =~= group + behind);
    Seq::filter_distributes_over_add(group, behind, outside);
    assert(order.skip(start).filter(outside) =~= behind);
}

/// Wrapping the next group of a block keeps the program order.
pub proof fn wrapping_keeps_order(
    m: ModuleView,
    report: PassReportView,
    block: BlockId,
    group: Seq<OperationId>,
)
    requires
        m.well_formed(),
        listed(m, block),
        next_group(m, block) == Some(group),
        has_room(m, escaping(m, group, group.len() as int).len()),
    ensures
        ({
            let after = wrapped(m, report, block, group).0;
            &&& after.well_formed()
            &&& keeps_nesting(m, after)
            &&& after.block(block).ops.len() < m.block(block).ops.len()
            &&& keeps_order(m, after)
            &&& carries(m, after)
        }),
{
    let g = graph_of(m, block, effect_table(m));
    lemma_group_independent(m, g, 0);
    let (start, end) = find_group(m, g, 0)->0;
    wrapping_fuses(m, report, block, start, end);
    let after = wrapped(m, report, block, group).0;
    let f = choose|f: Fusion| #[trigger] fuses(m, after, f);
    fusing_keeps_order(m, after, f);
}

/// Nesting that is kept twice is kept.
proof fn nesting_kept_on(a: ModuleView, b: ModuleView, c: ModuleView)
    requires
        keeps_nesting(a, b),
        keeps_nesting(b, c),
    ensures
        keeps_nesting(a, c),
{
    assert forall|i: int| 0 <= i < a.regions.len() implies #[trigger] c.regions[i]
        == a.regions[i] by {
        assert(b.regions[i] == a.regions[i]);
    }
    assert forall|i: int| 0 <= i < a.blocks.len() implies (#[trigger] c.blocks[i]).parent
        == a.blocks[i].parent by {
        assert(b.blocks[i].parent == a.blocks[i].parent);
    }
}

/// Grouping a block keeps the program order.
proof fn grouping_keeps_order(m: ModuleView, report: PassReportView, block: BlockId)
    requires
        m.well_formed(),
        listed(m, block),
    ensures
        ({
            let after = group_block(m, report, block).0;
            &&& after.well_formed()
            &&& keeps_nesting(m, after)
            &&& keeps_order(m, after)
            &&& carries(m, after)
        }),
    decreases m.block(block).ops.len(),
{
    match next_group(m, block) {
        Some(group) if has_room(m, escaping(m, group, group.len() as int).len()) => {
            wrapping_keeps_order(m, report, block, group);
            let (m2, r2) = wrapped(m, report, block, group);
            lemma_listed(m, m2, block);
            grouping_keeps_order(m2, r2, block);
            let after = group_block(m2, r2, block).0;
            assert(group_block(m, report, block) == group_block(m2, r2, block));
            order_kept_on(m, m2, after);
            nesting_kept_on(m, m2, after);
            carried_on(m, m2, after);
        },
        _ => {
            order_kept_by_itself(m);
            assert(group_block(m, report, block) == (m, report));
        },
    }
}

proof fn grouping_all_keeps_order(
    m: ModuleView,
    report: PassReportView,
    blocks: Seq<BlockId>,
    n: int,
)
    requires
        m.well_formed(),
        n <= blocks.len(),
        forall|i: int| 0 <= i < blocks.len() ==> listed(m, #[trigger] blocks[i]),
    ensures
        ({
            let after = group_blocks(m, report, blocks, n).0;
            &&& after.well_formed()
            &&& keeps_nesting(m, after)
            &&& keeps_order(m, after)
            &&& carries(m, after)
        }),
    decreases n,
{
    if n <= 0 {
        order_kept_by_itself(m);
    } else {
        grouping_all_keeps_order(m, report, blocks, n - 1);
        let (m1, r1) = group_blocks(m, report, blocks, n - 1);
        assert(listed(m, blocks[n - 1]));
        lemma_listed(m, m1, blocks[n - 1]);
        grouping_keeps_order(m1, r1, blocks[n - 1]);
        let after = group_block(m1, r1, blocks[n - 1]).0;
        order_kept_on(m, m1, after);
        nesting_kept_on(m, m1, after);
        carried_on(m, m1, after);
    }
}

/// Every block worth scheduling is listed in its region.
proof fn schedulable_are_listed(m: ModuleView, n: int)
    requires
        m.in_bounds(),
        n <= m.regions.len(),
    ensures
        forall|i: int|
            0 <= i < schedulable_blocks(m, n).len() ==> listed(
                m,
                #[trigger] schedulable_blocks(m, n)[i],
            ),
    decreases n,
{
    if n > 0 {
        schedulable_are_listed(m, n - 1);
        let before = schedulable_blocks(m, n - 1);
        let blocks = m.regions[n - 1].blocks;
        assert(m.region_in_bounds(m.regions[n - 1]));
        assert(m.regions[n - 1].id == RegionId::at(n - 1));
        assert forall|i: int| 0 <= i < schedulable_blocks(m, n).len() implies listed(
            m,
            #[trigger] schedulable_blocks(m, n)[i],
        ) by {
            if i < before.len() {
                assert(schedulable_blocks(m, n)[i] == before[i]);
            } else {
                let k = i - before.len();
                assert(schedulable_blocks(m, n)[i] == blocks[k]);
                assert(m.has_block(blocks[k]));
            }
        }
    }
}

/// The pass never reorders: the live operations of a program come in the same
/// program order in what it makes of it, and none is missing. What is new comes
/// in between and is pure, and no operation does anything else than before.
pub proof fn parallelization_never_reorders(m: ModuleView)
    requires
        m.well_formed(),
    ensures
        keeps_order(m, Parallelization.outcome(m).0),
        carries(m, Parallelization.outcome(m).0),
        Parallelization.outcome(m).0.well_formed(),
{
    let blocks = schedulable_blocks(m, m.regions.len() as int);
    schedulable_are_listed(m, m.regions.len() as int);
    grouping_all_keeps_order(
        m,
        PassReportView::empty("parallelization"@),
        blocks,
        blocks.len() as int,
    );
}

} // verus!
