//! Tool-call deduplication and result reuse.
//!
//! **Validity condition.** A later operation may reuse an earlier one's results
//! when
//!
//! 1. both have the same cache key: name, literal, operands, effect scope and
//!    every other attribute,
//! 2. both effect summaries are replayable (`Pure` or `ReadExternal`), and
//! 3. nothing between them writes a scope either of them touches, and
//! 4. neither declares `no_cache = true`.
//!
//! **Risk if violated.** Reusing a stale result: a price, a system state, a
//! row that something wrote in between. A compiler has no clock, so instead of
//! guessing a freshness bound condition 3 proves that nothing observable
//! changed. An operation whose freshness depends on wall-clock time rather than
//! on writes this program makes must opt out with `no_cache = true`.
//!
//! The pass only considers operations in the same block, so a read inside a
//! loop body is never assumed to hold across iterations.

use vstd::prelude::*;
use vstd::string::*;

use crate::copying::copy_all;
use crate::dead_action::quoted_literal;
use crate::diagnostic::{Diagnostic, DiagnosticView, Severity};
use crate::dominance::position_from;
use crate::effect::EffectView;
use crate::effects::{all_effects, effect_table, lists_conflict, recorded, EffectSummary};
use crate::ids::{BlockId, OperationId, ValueId};
use crate::module::{CacheKey, CacheKeyView, Module, ModuleView, OperationView};
use crate::pass::{Pass, PassReport, PassReportView, PassTitle};
use crate::traversal::all_live;

verus! {

/// Replaces a repeated read with the result of the first one.
#[derive(Clone, Copy, Debug)]
pub struct ToolCallDeduplication;

impl Default for ToolCallDeduplication {
    fn default() -> (r: ToolCallDeduplication)
        ensures
            r == ToolCallDeduplication,
    {
        ToolCallDeduplication
    }
}

/// The computations met so far, each with the operation that holds its result;
/// the latest entry of a key counts.
pub type Seen = Seq<(CacheKeyView, OperationId)>;

/// The operation that holds the result of a computation.
pub open spec fn cached(seen: Seen, key: CacheKeyView) -> Option<OperationId>
    decreases seen.len(),
{
    if seen.len() == 0 {
        None
    } else if seen.last().0 == key {
        Some(seen.last().1)
    } else {
        cached(seen.drop_last(), key)
    }
}

/// Whether the result of an operation may be reused. An operation that owns
/// regions never is: two loops with the same operands are not the same
/// computation.
pub open spec fn is_cacheable(m: ModuleView, table: Seq<Seq<EffectView>>, op: OperationId) -> bool {
    &&& m.op(op).results.len() > 0
    &&& m.op(op).bool_attr("no_cache"@) != Some(true)
    &&& m.op(op).regions.len() == 0
    &&& all_effects(recorded(table, op), |e: EffectView| e.is_replayable())
}

/// The first of the operations from position `from` up to `to` that could have
/// changed what an operation reads.
pub open spec fn interferer(
    m: ModuleView,
    table: Seq<Seq<EffectView>>,
    ops: Seq<OperationId>,
    from: int,
    to: int,
    op: OperationId,
) -> Option<OperationId>
    decreases to - from,
{
    if from >= to {
        None
    } else if !m.op(ops[from]).erased && lists_conflict(
        recorded(table, ops[from]),
        recorded(table, op),
    ) {
        Some(ops[from])
    } else {
        interferer(m, table, ops, from + 1, to, op)
    }
}

/// The module and the report after the uses of the first `n` of some values
/// were rewritten into uses of their counterparts of the same type.
pub open spec fn reuse(
    m: ModuleView,
    report: PassReportView,
    from: Seq<ValueId>,
    to: Seq<ValueId>,
    n: int,
) -> (ModuleView, PassReportView)
    decreases n,
{
    if n <= 0 {
        (m, report)
    } else {
        let (m1, r1) = reuse(m, report, from, to, n - 1);
        let a = from[n - 1];
        let b = to[n - 1];
        if m1.value(a).ty != m1.value(b).ty {
            (m1, r1)
        } else {
            (m1.replace_all_uses(a, b), r1.with_rewrote(a, b))
        }
    }
}

/// The note on a reuse that was declined.
pub open spec fn declined_note(o: OperationView, interfering: OperationView) -> DiagnosticView {
    DiagnosticView::plain(
        Severity::Note,
        "reuse-declined"@,
        "`"@ + o.name.text() + "` repeats an earlier call, but `"@ + interfering.name.text()
            + "` may have changed the result in between"@,
    ).at(o.id)
}

/// The note on a reuse.
pub open spec fn reuse_note(o: OperationView) -> DiagnosticView {
    DiagnosticView::plain(
        Severity::Note,
        "result-reuse"@,
        "`"@ + o.name.text() + "`"@ + quoted_literal(o.literal)
            + " reuses the result of the identical earlier call"@,
    ).at(o.id)
}

/// A module being deduplicated.
#[verifier::ext_equal]
pub ghost struct Dedup {
    pub m: ModuleView,
    pub report: PassReportView,
    pub seen: Seen,
}

/// Where the operation that holds a result stands among the operations.
pub open spec fn earlier_position(ops: Seq<OperationId>, earlier: OperationId) -> int {
    match position_from(ops, earlier, 0) {
        Some(i) => i,
        None => 0,
    }
}

/// What one operation of a block does to the state.
pub open spec fn dedup_op(
    s: Dedup,
    table: Seq<Seq<EffectView>>,
    ops: Seq<OperationId>,
    position: int,
) -> Dedup {
    let op = ops[position];
    let o = s.m.op(op);
    if !is_cacheable(s.m, table, op) {
        s
    } else {
        match cached(s.seen, o.cache_key()) {
            None => Dedup { seen: s.seen.push((o.cache_key(), op)), ..s },
            Some(earlier) => match interferer(
                s.m,
                table,
                ops,
                earlier_position(ops, earlier) + 1,
                position,
                op,
            ) {
                // The later call becomes the fresh entry: anything after it may
                // reuse it rather than the stale one.
                Some(between) => Dedup {
                    report: s.report.with_note(declined_note(o, s.m.op(between))),
                    seen: s.seen.push((o.cache_key(), op)),
                    ..s
                },
                None => if s.m.op(earlier).results.len() != o.results.len() {
                    s
                } else {
                    let (m2, r2) = reuse(
                        s.m,
                        s.report,
                        o.results,
                        s.m.op(earlier).results,
                        o.results.len() as int,
                    );
                    Dedup { m: m2, report: r2.with_note(reuse_note(o)), ..s }
                },
            },
        }
    }
}

/// What the first `n` operations of a block do to the state.
pub open spec fn dedup_ops(
    s: Dedup,
    table: Seq<Seq<EffectView>>,
    ops: Seq<OperationId>,
    n: int,
) -> Dedup
    decreases n,
{
    if n <= 0 {
        s
    } else {
        dedup_op(dedup_ops(s, table, ops, n - 1), table, ops, n - 1)
    }
}

/// The module and the report after a block was deduplicated.
pub open spec fn dedup_block(
    m: ModuleView,
    report: PassReportView,
    table: Seq<Seq<EffectView>>,
    block: BlockId,
) -> (ModuleView, PassReportView) {
    let ops = m.live(m.block(block).ops);
    let s = dedup_ops(
        Dedup { m, report, seen: Seq::empty() },
        table,
        ops,
        ops.len() as int,
    );
    (s.m, s.report)
}

/// The module and the report after the first `n` of some blocks were
/// deduplicated.
pub open spec fn dedup_blocks(
    m: ModuleView,
    report: PassReportView,
    table: Seq<Seq<EffectView>>,
    blocks: Seq<BlockId>,
    n: int,
) -> (ModuleView, PassReportView)
    decreases n,
{
    if n <= 0 {
        (m, report)
    } else {
        let (m1, r1) = dedup_blocks(m, report, table, blocks, n - 1);
        dedup_block(m1, r1, table, blocks[n - 1])
    }
}

/// The blocks of the first `n` regions.
pub open spec fn blocks_of(m: ModuleView, n: int) -> Seq<BlockId>
    decreases n,
{
    if n <= 0 {
        Seq::empty()
    } else {
        blocks_of(m, n - 1) + m.regions[n - 1].blocks
    }
}

fn collect_blocks(module: &Module) -> (r: Vec<BlockId>)
    requires
        module@.in_bounds(),
    ensures
        r@ == blocks_of(module@, module@.regions.len() as int),
        forall|i: int| 0 <= i < r@.len() ==> module@.has_block(#[trigger] r@[i]),
{
    let ghost m = module@;
    let mut blocks: Vec<BlockId> = Vec::new();
    let mut n: usize = 0;
    while n < module.region_count()
        invariant
            n <= m.regions.len(),
            m == module@,
            m.in_bounds(),
            blocks@ == blocks_of(m, n as int),
            forall|i: int| 0 <= i < blocks@.len() ==> m.has_block(#[trigger] blocks@[i]),
        decreases m.regions.len() - n,
    {
        let region = module.region_by_index(n);
        let ghost before = blocks@;
        assert(m.region_in_bounds(m.regions[n as int]));
        let mut i: usize = 0;
        assert(before + region.blocks@.take(0) =~= before);
        while i < region.blocks.len()
            invariant
                i <= region.blocks@.len(),
                m == module@,
                region@ == m.regions[n as int],
                m.region_in_bounds(region@),
                blocks@ == before + region.blocks@.take(i as int),
                forall|i: int| 0 <= i < blocks@.len() ==> m.has_block(#[trigger] blocks@[i]),
            decreases region.blocks@.len() - i,
        {
            assert(m.has_block(region.blocks@[i as int]));
            blocks.push(region.blocks[i]);
            i += 1;
            assert(blocks@ =~= before + region.blocks@.take(i as int));
        }
        assert(region.blocks@.take(i as int) =~= region.blocks@);
        n += 1;
    }
    blocks
}

fn is_cacheable_op(module: &Module, op: OperationId, effects: &EffectSummary) -> (r: bool)
    requires
        module@.has_op(op),
    ensures
        r == is_cacheable(module@, effects@, op),
{
    let operation = module.op(op);
    if operation.results.len() == 0 {
        return false;
    }
    if let Some(no_cache) = operation.bool_attr("no_cache") {
        if no_cache {
            return false;
        }
    }
    if operation.regions.len() > 0 {
        return false;
    }
    effects.is_replayable(op)
}

/// The first operation between two positions that could have changed what `op`
/// reads.
fn interference(
    module: &Module,
    ops: &Vec<OperationId>,
    from: usize,
    to: usize,
    op: OperationId,
    effects: &EffectSummary,
) -> (r: Option<OperationId>)
    requires
        to <= ops@.len(),
        forall|i: int| 0 <= i < ops@.len() ==> module@.has_op(#[trigger] ops@[i]),
    ensures
        r == interferer(module@, effects@, ops@, from as int, to as int, op),
        r matches Some(x) ==> module@.has_op(x),
{
    let ghost m = module@;
    let mut i: usize = from;
    while i < to
        invariant
            from <= i,
            i <= to || i == from,
            to <= ops@.len(),
            m == module@,
            forall|i: int| 0 <= i < ops@.len() ==> m.has_op(#[trigger] ops@[i]),
            interferer(m, effects@, ops@, from as int, to as int, op) == interferer(
                m,
                effects@,
                ops@,
                i as int,
                to as int,
                op,
            ),
        decreases to - i,
    {
        assert(m.has_op(ops@[i as int]));
        if !module.op(ops[i]).erased && effects.conflict(ops[i], op) {
            return Some(ops[i]);
        }
        i += 1;
    }
    None
}

/// The content of the computations met so far.
spec fn seen_view(seen: Seq<(CacheKey, OperationId)>) -> Seen {
    Seq::new(seen.len(), |i: int| (seen[i].0@, seen[i].1))
}

fn find_cached(seen: &Vec<(CacheKey, OperationId)>, key: &CacheKey) -> (r: Option<OperationId>)
    ensures
        r == cached(seen_view(seen@), key@),
        r matches Some(op) ==> exists|i: int| 0 <= i < seen@.len() && (#[trigger] seen@[i]).1 == op,
{
    let ghost view = seen_view(seen@);
    let mut i: usize = seen.len();
    assert(view.take(i as int) =~= view);
    while i > 0
        invariant
            i <= seen@.len(),
            view == seen_view(seen@),
            cached(view, key@) == cached(view.take(i as int), key@),
        decreases i,
    {
        i -= 1;
        assert(view.take(i + 1).drop_last() =~= view.take(i as int));
        if seen[i].0.same(key) {
            return Some(seen[i].1);
        }
    }
    None
}

/// Rewrites the uses of some values into uses of their counterparts.
fn reuse_results(
    module: &mut Module,
    from: &Vec<ValueId>,
    to: &Vec<ValueId>,
    report: &mut PassReport,
    Ghost(levels): Ghost<Seq<nat>>,
)
    requires
        old(module)@.in_bounds(),
        old(module)@.leveled(levels),
        from@.len() == to@.len(),
        forall|i: int| 0 <= i < from@.len() ==> old(module)@.has_value(#[trigger] from@[i]),
        forall|i: int| 0 <= i < to@.len() ==> old(module)@.has_value(#[trigger] to@[i]),
    ensures
        (final(module)@, final(report)@) == reuse(
            old(module)@,
            old(report)@,
            from@,
            to@,
            from@.len() as int,
        ),
        final(module)@.in_bounds(),
        final(module)@.leveled(levels),
        only_operands(old(module)@, final(module)@),
{
    let ghost start = module@;
    let ghost before = report@;
    let mut n: usize = 0;
    assert(only_operands(start, start));
    while n < from.len()
        invariant
            n <= from@.len(),
            from@.len() == to@.len(),
            module@.in_bounds(),
            module@.leveled(levels),
            module@.values == start.values,
            only_operands(start, module@),
            forall|i: int| 0 <= i < from@.len() ==> start.has_value(#[trigger] from@[i]),
            forall|i: int| 0 <= i < to@.len() ==> start.has_value(#[trigger] to@[i]),
            (module@, report@) == reuse(start, before, from@, to@, n as int),
        decreases from@.len() - n,
    {
        assert(start.has_value(from@[n as int]));
        assert(start.has_value(to@[n as int]));
        let a = from[n];
        let b = to[n];
        if module.value(a).ty.same(&module.value(b).ty) {
            proof {
                crate::structure::replace_all_uses_keeps(module@, levels, a, b);
            }
            let _ = module.replace_all_uses(a, b);
            report.rewrote(a, b);
        }
        n += 1;
    }
}

/// Whether two modules differ in the operands of live operations at most.
pub open spec fn only_operands(a: ModuleView, b: ModuleView) -> bool {
    &&& b == (ModuleView { ops: b.ops, ..a })
    &&& a.ops.len() == b.ops.len()
    &&& forall|i: int|
        0 <= i < a.ops.len() ==> #[trigger] b.ops[i] == (OperationView {
            operands: b.ops[i].operands,
            ..a.ops[i]
        }) && (a.ops[i].erased ==> b.ops[i] == a.ops[i])
}

/// Differences in operands add up.
pub proof fn lemma_only_operands(a: ModuleView, b: ModuleView, c: ModuleView)
    requires
        only_operands(a, b),
        only_operands(b, c),
    ensures
        only_operands(a, c),
{
    assert forall|i: int| 0 <= i < a.ops.len() implies #[trigger] c.ops[i] == (OperationView {
        operands: c.ops[i].operands,
        ..a.ops[i]
    }) && (a.ops[i].erased ==> c.ops[i] == a.ops[i]) by {
        assert(b.ops[i] == (OperationView { operands: b.ops[i].operands, ..a.ops[i] }));
    }
}

fn deduplicate_block(
    module: &mut Module,
    block: BlockId,
    effects: &EffectSummary,
    report: &mut PassReport,
    Ghost(levels): Ghost<Seq<nat>>,
)
    requires
        old(module)@.in_bounds(),
        old(module)@.leveled(levels),
        old(module)@.has_block(block),
    ensures
        (final(module)@, final(report)@) == dedup_block(
            old(module)@,
            old(report)@,
            effects@,
            block,
        ),
        final(module)@.in_bounds(),
        final(module)@.leveled(levels),
        only_operands(old(module)@, final(module)@),
{
    let ghost start = module@;
    let ghost before = report@;
    let ghost table = effects@;
    proof {
        assert(start.block_in_bounds(start.blocks[block.spec_index()]));
        crate::traversal::lemma_live(start, start.block(block).ops);
    }
    let ops = module.live_ops_of(block);
    let mut seen: Vec<(CacheKey, OperationId)> = Vec::new();
    let ghost initial = Dedup { m: start, report: before, seen: Seq::empty() };
    let mut position: usize = 0;
    assert(seen_view(seen@) =~= Seq::empty());
    while position < ops.len()
        invariant
            position <= ops@.len(),
            table == effects@,
            initial == (Dedup { m: start, report: before, seen: Seq::empty() }),
            module@.in_bounds(),
            module@.leveled(levels),
            only_operands(start, module@),
            all_live(start, ops@),
            forall|i: int| 0 <= i < seen@.len() ==> start.has_op((#[trigger] seen@[i]).1),
            (Dedup { m: module@, report: report@, seen: seen_view(seen@) }) == dedup_ops(
                initial,
                table,
                ops@,
                position as int,
            ),
        decreases ops@.len() - position,
    {
        let op = ops[position];
        assert(start.has_op(ops@[position as int]));
        let ghost s = Dedup { m: module@, report: report@, seen: seen_view(seen@) };
        proof {
            assert(module@.op_in_bounds(module@.ops[op.spec_index()]));
        }
        if is_cacheable_op(module, op, effects) {
            let key = module.op(op).cache_key();
            match find_cached(&seen, &key) {
                None => {
                    let ghost old_seen = seen_view(seen@);
                    let ghost kv = key@;
                    seen.push((key, op));
                    assert(seen_view(seen@) =~= old_seen.push((kv, op)));
                },
                Some(earlier) => {
                    assert(module@.has_op(earlier));
                    let earlier_at: usize = place(&ops, earlier);
                    proof {
                        assert forall|i: int| 0 <= i < ops@.len() implies module@.has_op(
                            #[trigger] ops@[i],
                        ) by {
                            assert(start.has_op(ops@[i]));
                        }
                    }
                    match interference(module, &ops, earlier_at + 1, position, op, effects) {
                        Some(between) => {
                            let mut message = String::from_str("`");
                            module.op(op).name.push_text(&mut message);
                            message.append("` repeats an earlier call, but `");
                            module.op(between).name.push_text(&mut message);
                            message.append("` may have changed the result in between");
                            report.note(Diagnostic::note("reuse-declined", message).at(op));
                            let ghost old_seen = seen_view(seen@);
                            let ghost kv = key@;
                            seen.push((key, op));
                            assert(seen_view(seen@) =~= old_seen.push((kv, op)));
                        },
                        None => {
                            let earlier_results = copy_all(&module.op(earlier).results);
                            let later_results = copy_all(&module.op(op).results);
                            if earlier_results.len() == later_results.len() {
                                proof {
                                    let e = earlier.spec_index();
                                    assert(module@.op_in_bounds(module@.ops[e]));
                                    assert forall|i: int|
                                        0 <= i < earlier_results@.len() implies module@.has_value(
                                        #[trigger] earlier_results@[i],
                                    ) by {
                                        assert(module@.has_value(module@.op(earlier).results[i]));
                                    }
                                }
                                let ghost o = module@.op(op);
                                let ghost middle = module@;
                                reuse_results(
                                    module,
                                    &later_results,
                                    &earlier_results,
                                    report,
                                    Ghost(levels),
                                );
                                let mut message = String::from_str("`");
                                module.op(op).name.push_text(&mut message);
                                message.append("`");
                                let ghost named = message@;
                                if let Some(literal) = &module.op(op).literal {
                                    message.append(" \"");
                                    message.append(literal.as_str());
                                    message.append("\"");
                                }
                                proof {
                                    assert(module@.ops[op.spec_index()] == (OperationView {
                                        operands: module@.ops[op.spec_index()].operands,
                                        ..middle.ops[op.spec_index()]
                                    }));
                                    assert(message@ =~= named + quoted_literal(o.literal));
                                    lemma_only_operands(start, middle, module@);
                                }
                                message.append(
                                    " reuses the result of the identical earlier call",
                                );
                                report.note(Diagnostic::note("result-reuse", message).at(op));
                                // The duplicate is now unread. Dead-action
                                // elimination removes it on the next round of
                                // the pipeline, which keeps the two measurable
                                // apart.
                            }
                        },
                    }
                },
            }
        }
        proof {
            let t = Dedup { m: module@, report: report@, seen: seen_view(seen@) };
            assert(t =~= dedup_op(s, table, ops@, position as int));
        }
        position += 1;
    }
}

/// Where an operation stands in a list, or zero.
fn place(ops: &Vec<OperationId>, op: OperationId) -> (r: usize)
    ensures
        r == earlier_position(ops@, op),
        r < ops@.len() || r == 0,
{
    let mut i: usize = 0;
    while i < ops.len()
        invariant
            i <= ops@.len(),
            position_from(ops@, op, 0) == position_from(ops@, op, i as int),
        decreases ops@.len() - i,
    {
        if ops[i] == op {
            return i;
        }
        i += 1;
    }
    0
}

impl Pass for ToolCallDeduplication {
    open spec fn outcome(&self, m: ModuleView) -> (ModuleView, PassReportView) {
        let blocks = blocks_of(m, m.regions.len() as int);
        dedup_blocks(
            m,
            PassReportView::empty("tool-call-deduplication"@),
            effect_table(m),
            blocks,
            blocks.len() as int,
        )
    }

    open spec fn title(&self) -> PassTitle {
        PassTitle {
            name: "tool-call-deduplication"@,
            description: "Reuses an earlier replayable result when nothing in between could have invalidated it."@,
        }
    }

    fn name(&self) -> (r: &'static str)
        ensures
            r@ == "tool-call-deduplication"@,
    {
        "tool-call-deduplication"
    }

    fn description(&self) -> (r: &'static str)
        ensures
            r@
                == "Reuses an earlier replayable result when nothing in between could have invalidated it."@,
    {
        "Reuses an earlier replayable result when nothing in between could have invalidated it."
    }

    fn run(&self, module: &mut Module) -> (r: PassReport) {
        let mut report = PassReport::new(self.name());
        let ghost start = module@;
        let ghost before = report@;
        let ghost levels = choose|levels: Seq<nat>| module@.leveled(levels);
        let effects = EffectSummary::build(module);
        let blocks = collect_blocks(module);
        let mut n: usize = 0;
        assert(only_operands(start, start));
        while n < blocks.len()
            invariant
                n <= blocks@.len(),
                module@.in_bounds(),
                module@.leveled(levels),
                only_operands(start, module@),
                forall|i: int| 0 <= i < blocks@.len() ==> start.has_block(#[trigger] blocks@[i]),
                (module@, report@) == dedup_blocks(start, before, effects@, blocks@, n as int),
            decreases blocks@.len() - n,
        {
            assert(start.has_block(blocks@[n as int]));
            let ghost middle = module@;
            deduplicate_block(module, blocks[n], &effects, &mut report, Ghost(levels));
            proof {
                lemma_only_operands(start, middle, module@);
            }
            n += 1;
        }
        assert(module@.leveled(levels));
        report
    }
}

// -------------------------------------------------------------------- laws

/// A reuse never crosses a conflicting operation: when nothing interferes,
/// everything in between is erased or free of conflict.
pub proof fn reuse_is_not_stale(
    m: ModuleView,
    table: Seq<Seq<EffectView>>,
    ops: Seq<OperationId>,
    from: int,
    to: int,
    op: OperationId,
    k: int,
)
    requires
        interferer(m, table, ops, from, to, op) is None,
        from <= k < to,
    ensures
        m.op(ops[k]).erased || !lists_conflict(recorded(table, ops[k]), recorded(table, op)),
    decreases to - from,
{
    if k > from {
        reuse_is_not_stale(m, table, ops, from + 1, to, op, k);
    }
}

/// A reuse rewrites operands and nothing else.
pub proof fn lemma_reuse_only_operands(
    m: ModuleView,
    report: PassReportView,
    from: Seq<ValueId>,
    to: Seq<ValueId>,
    n: int,
)
    ensures
        only_operands(m, reuse(m, report, from, to, n).0),
    decreases n,
{
    if n > 0 {
        lemma_reuse_only_operands(m, report, from, to, n - 1);
        let m1 = reuse(m, report, from, to, n - 1).0;
        let m2 = reuse(m, report, from, to, n).0;
        assert(only_operands(m1, m2));
        lemma_only_operands(m, m1, m2);
    }
}

/// Deduplicating a block rewrites operands and nothing else.
pub proof fn lemma_dedup_ops_only_operands(
    s: Dedup,
    table: Seq<Seq<EffectView>>,
    ops: Seq<OperationId>,
    n: int,
)
    ensures
        only_operands(s.m, dedup_ops(s, table, ops, n).m),
    decreases n,
{
    if n > 0 {
        lemma_dedup_ops_only_operands(s, table, ops, n - 1);
        let t = dedup_ops(s, table, ops, n - 1);
        let u = dedup_op(t, table, ops, n - 1);
        let o = t.m.op(ops[n - 1]);
        if let Some(earlier) = cached(t.seen, o.cache_key()) {
            lemma_reuse_only_operands(
                t.m,
                t.report,
                o.results,
                t.m.op(earlier).results,
                o.results.len() as int,
            );
        }
        assert(only_operands(t.m, t.m));
        lemma_only_operands(s.m, t.m, u.m);
    }
}

/// Deduplication rewrites operands and nothing else: no operation, effect,
/// attribute or nesting changes.
pub proof fn deduplication_only_rewrites_operands(
    m: ModuleView,
    report: PassReportView,
    table: Seq<Seq<EffectView>>,
    blocks: Seq<BlockId>,
    n: int,
)
    ensures
        only_operands(m, dedup_blocks(m, report, table, blocks, n).0),
    decreases n,
{
    if n > 0 {
        deduplication_only_rewrites_operands(m, report, table, blocks, n - 1);
        let (m1, r1) = dedup_blocks(m, report, table, blocks, n - 1);
        let ops = m1.live(m1.block(blocks[n - 1]).ops);
        let s = Dedup { m: m1, report: r1, seen: Seq::empty() };
        lemma_dedup_ops_only_operands(s, table, ops, ops.len() as int);
        lemma_only_operands(m, m1, dedup_blocks(m, report, table, blocks, n).0);
    }
}

proof fn reuse_in_bounds(
    m: ModuleView,
    report: PassReportView,
    from: Seq<ValueId>,
    to: Seq<ValueId>,
    n: int,
    levels: Seq<nat>,
)
    requires
        m.in_bounds(),
        m.leveled(levels),
        n <= to.len(),
        forall|i: int| 0 <= i < to.len() ==> m.has_value(#[trigger] to[i]),
    ensures
        reuse(m, report, from, to, n).0.in_bounds(),
        reuse(m, report, from, to, n).0.leveled(levels),
    decreases n,
{
    if n > 0 {
        reuse_in_bounds(m, report, from, to, n - 1, levels);
        lemma_reuse_only_operands(m, report, from, to, n - 1);
        let m1 = reuse(m, report, from, to, n - 1).0;
        assert(m.has_value(to[n - 1]));
        crate::structure::replace_all_uses_keeps(m1, levels, from[n - 1], to[n - 1]);
    }
}

/// A computation that is found was met.
proof fn cached_was_seen(seen: Seen, key: CacheKeyView)
    ensures
        cached(seen, key) matches Some(op) ==> exists|i: int|
            0 <= i < seen.len() && (#[trigger] seen[i]).1 == op,
    decreases seen.len(),
{
    if seen.len() > 0 {
        if seen.last().0 == key {
            assert(seen[seen.len() - 1].1 == seen.last().1);
        } else {
            cached_was_seen(seen.drop_last(), key);
            if let Some(op) = cached(seen.drop_last(), key) {
                let rest = seen.drop_last();
                let i = choose|i: int| 0 <= i < rest.len() && (#[trigger] rest[i]).1 == op;
                assert(seen[i].1 == op);
            }
        }
    }
}

/// Deduplicating a block leaves a module well-formed.
pub proof fn dedup_ops_in_bounds(
    s: Dedup,
    table: Seq<Seq<EffectView>>,
    ops: Seq<OperationId>,
    n: int,
    levels: Seq<nat>,
)
    requires
        s.m.in_bounds(),
        s.m.leveled(levels),
        n <= ops.len(),
        forall|i: int| 0 <= i < ops.len() ==> s.m.has_op(#[trigger] ops[i]),
        forall|i: int| 0 <= i < s.seen.len() ==> s.m.has_op((#[trigger] s.seen[i]).1),
    ensures
        dedup_ops(s, table, ops, n).m.in_bounds(),
        dedup_ops(s, table, ops, n).m.leveled(levels),
        forall|i: int|
            0 <= i < dedup_ops(s, table, ops, n).seen.len() ==> s.m.has_op(
                (#[trigger] dedup_ops(s, table, ops, n).seen[i]).1,
            ),
    decreases n,
{
    if n > 0 {
        dedup_ops_in_bounds(s, table, ops, n - 1, levels);
        lemma_dedup_ops_only_operands(s, table, ops, n - 1);
        let t = dedup_ops(s, table, ops, n - 1);
        let op = ops[n - 1];
        let o = t.m.op(op);
        assert(s.m.has_op(ops[n - 1]));
        cached_was_seen(t.seen, o.cache_key());
        if let Some(earlier) = cached(t.seen, o.cache_key()) {
            let i = choose|i: int| 0 <= i < t.seen.len() && (#[trigger] t.seen[i]).1 == earlier;
            assert(s.m.has_op(t.seen[i].1));
            assert(t.m.op_in_bounds(t.m.ops[earlier.spec_index()]));
            if t.m.op(earlier).results.len() == o.results.len() {
                reuse_in_bounds(
                    t.m,
                    t.report,
                    o.results,
                    t.m.op(earlier).results,
                    o.results.len() as int,
                    levels,
                );
            }
        }
    }
}

proof fn dedup_blocks_in_bounds(
    m: ModuleView,
    report: PassReportView,
    table: Seq<Seq<EffectView>>,
    blocks: Seq<BlockId>,
    n: int,
    levels: Seq<nat>,
)
    requires
        m.in_bounds(),
        m.leveled(levels),
        n <= blocks.len(),
        forall|i: int| 0 <= i < blocks.len() ==> m.has_block(#[trigger] blocks[i]),
    ensures
        dedup_blocks(m, report, table, blocks, n).0.in_bounds(),
        dedup_blocks(m, report, table, blocks, n).0.leveled(levels),
    decreases n,
{
    if n > 0 {
        dedup_blocks_in_bounds(m, report, table, blocks, n - 1, levels);
        deduplication_only_rewrites_operands(m, report, table, blocks, n - 1);
        let (m1, r1) = dedup_blocks(m, report, table, blocks, n - 1);
        let block = blocks[n - 1];
        assert(m.has_block(blocks[n - 1]));
        assert(m1.block_in_bounds(m1.blocks[block.spec_index()]));
        let ops = m1.live(m1.block(block).ops);
        crate::traversal::lemma_live(m1, m1.block(block).ops);
        let s = Dedup { m: m1, report: r1, seen: Seq::empty() };
        dedup_ops_in_bounds(s, table, ops, ops.len() as int, levels);
    }
}

/// The blocks of the regions exist.
pub proof fn blocks_exist(m: ModuleView, n: int)
    requires
        m.in_bounds(),
        n <= m.regions.len(),
    ensures
        forall|i: int|
            0 <= i < blocks_of(m, n).len() ==> m.has_block(#[trigger] blocks_of(m, n)[i]),
    decreases n,
{
    if n > 0 {
        blocks_exist(m, n - 1);
        let before = blocks_of(m, n - 1);
        let blocks = m.regions[n - 1].blocks;
        assert(m.region_in_bounds(m.regions[n - 1]));
        assert forall|i: int| 0 <= i < blocks_of(m, n).len() implies m.has_block(
            #[trigger] blocks_of(m, n)[i],
        ) by {
            if i < before.len() {
                assert(blocks_of(m, n)[i] == before[i]);
            } else {
                assert(m.has_block(blocks[i - before.len()]));
            }
        }
    }
}

/// Deduplication leaves a module well-formed.
pub proof fn deduplication_keeps_structure(m: ModuleView)
    requires
        m.well_formed(),
    ensures
        ToolCallDeduplication.outcome(m).0.well_formed(),
{
    let levels = choose|levels: Seq<nat>| m.leveled(levels);
    let blocks = blocks_of(m, m.regions.len() as int);
    blocks_exist(m, m.regions.len() as int);
    dedup_blocks_in_bounds(
        m,
        PassReportView::empty("tool-call-deduplication"@),
        effect_table(m),
        blocks,
        blocks.len() as int,
        levels,
    );
}

} // verus!
