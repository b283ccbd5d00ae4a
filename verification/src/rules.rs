//! What each rule of the verifier reports.
//!
//! A rule maps an operation to the findings it gives rise to. The verifier
//! reports, for every operation of the program in order, the findings of every
//! rule in order.

use vstd::prelude::*;

use crate::attribute::AttributeView;
use crate::diagnostic::{rejects, DiagnosticView, Severity};
use crate::dialects::{signature_of, Arity, AttrKind, SignatureView};
use crate::dominance::Frame;
use crate::effect::{EffectClass, EffectView};
use crate::effects::{all_effects, lists_conflict, recorded};
use crate::ids::{BlockId, OperationId, RegionId, ValueId};
use crate::module::{ModuleView, OpNameView, OperationView};
use crate::number::Number;
use crate::text::{int_text, nat_text};
use crate::types::TypeView;

verus! {

/// An error of a rule at an operation.
pub open spec fn error_at(code: Seq<char>, message: Seq<char>, op: OperationId) -> DiagnosticView {
    DiagnosticView::plain(Severity::Error, code, message).at(op)
}

/// One finding, if a condition holds.
pub open spec fn report_if(condition: bool, finding: DiagnosticView) -> Seq<DiagnosticView> {
    if condition {
        seq![finding]
    } else {
        Seq::empty()
    }
}

// --------------------------------------------------------------- structure

/// Whether an attribute has the kind a signature asks for.
pub open spec fn has_kind(value: AttributeView, kind: AttrKind) -> bool {
    match kind {
        AttrKind::Any => true,
        AttrKind::Int => value is Int,
        AttrKind::Float => value is Float || value is Int,
        AttrKind::Bool => value is Bool,
        AttrKind::Str => value is Str,
        AttrKind::Dict => value is Dict,
    }
}

/// A count that an arity does not admit.
pub open spec fn count_findings(
    o: OperationView,
    arity: Arity,
    count: nat,
    verb: Seq<char>,
    contrast: Seq<char>,
) -> Seq<DiagnosticView> {
    report_if(
        !arity.admits(count),
        error_at(
            "S2"@,
            "`"@ + o.name.text() + verb + arity.text() + contrast + nat_text(count),
            o.id,
        ),
    )
}

/// A literal that is required and missing.
pub open spec fn literal_findings(o: OperationView, s: SignatureView) -> Seq<DiagnosticView> {
    report_if(
        s.requires_literal && o.literal is None,
        error_at(
            "S4"@,
            "`"@ + o.name.text() + "` needs a string literal naming what it does"@,
            o.id,
        ).suggest("write `"@ + o.name.text() + " \"...\"`"@),
    )
}

/// What is wrong with one required attribute.
pub open spec fn attr_findings(o: OperationView, key: Seq<char>, kind: AttrKind) -> Seq<
    DiagnosticView,
> {
    match o.attr(key) {
        None => seq![
            error_at(
                "S3"@,
                "`"@ + o.name.text() + "` requires the `"@ + key + "` attribute"@,
                o.id,
            ),
        ],
        Some(value) => report_if(
            !has_kind(value, kind),
            error_at(
                "S3"@,
                "`"@ + o.name.text() + "`'s `"@ + key + "` attribute should be "@ + kind.text()
                    + ", found `"@ + value.text() + "`"@,
                o.id,
            ),
        ),
    }
}

/// What is wrong with the first `n` required attributes.
pub open spec fn attrs_findings(
    o: OperationView,
    required: Seq<(Seq<char>, AttrKind)>,
    n: int,
) -> Seq<DiagnosticView>
    decreases n,
{
    if n <= 0 {
        Seq::empty()
    } else {
        attrs_findings(o, required, n - 1) + attr_findings(o, required[n - 1].0, required[n - 1].1)
    }
}

/// The first `n` effect classes, separated by commas.
pub open spec fn classes_text(classes: Seq<EffectClass>, n: int) -> Seq<char>
    decreases n,
{
    if n <= 0 {
        Seq::empty()
    } else if n == 1 {
        classes[0].text()
    } else {
        classes_text(classes, n - 1) + ", "@ + classes[n - 1].text()
    }
}

/// An effect that the operation is not allowed to declare.
pub open spec fn effect_findings(o: OperationView, s: SignatureView) -> Seq<DiagnosticView> {
    report_if(
        s.allowed_effects.len() > 0 && !s.allowed_effects.contains(o.effect.class()),
        error_at(
            "T2"@,
            "`"@ + o.name.text() + "` may not declare "@ + o.effect.text() + "; it is limited to "@
                + classes_text(s.allowed_effects, s.allowed_effects.len() as int),
            o.id,
        ).suggest(
            "an operation that really has this effect belongs in a dialect that allows it — relabelling is what the effect system exists to prevent"@,
        ),
    )
}

/// What is wrong with an operation that has a signature.
pub open spec fn shape_findings(o: OperationView, s: SignatureView) -> Seq<DiagnosticView> {
    count_findings(o, s.operands, o.operands.len(), "` takes "@, " operand(s) but was given "@)
        + count_findings(o, s.results, o.results.len(), "` produces "@, " result(s) but declares "@)
        + count_findings(o, s.regions, o.regions.len(), "` owns "@, " region(s) but has "@)
        + literal_findings(o, s) + attrs_findings(
        o,
        s.required_attrs,
        s.required_attrs.len() as int,
    ) + effect_findings(o, s)
}

/// Whether an operation is one of a dialect, and has the shape it should have.
pub open spec fn signature_findings(o: OperationView, registry: Seq<SignatureView>) -> Seq<
    DiagnosticView,
> {
    match signature_of(registry, o.name, 0) {
        None => seq![
            error_at(
                "S1"@,
                "`"@ + o.name.text() + "` is not an operation of any v0.1 dialect"@,
                o.id,
            ).suggest("check the dialect list in §3.2, or register a new dialect"@),
        ],
        Some(s) => shape_findings(o, s),
    }
}

/// An operation that is not a function, at the top of a module.
pub open spec fn top_level_findings(m: ModuleView, ops: Seq<OperationId>, n: int) -> Seq<
    DiagnosticView,
>
    decreases n,
{
    if n <= 0 {
        Seq::empty()
    } else {
        let o = m.op(ops[n - 1]);
        top_level_findings(m, ops, n - 1) + report_if(
            !o.name.is("agent"@, "func"@),
            error_at(
                "S1"@,
                "`"@ + o.name.text() + "` cannot sit at module level; only `agent.func` can"@,
                o.id,
            ),
        )
    }
}

/// Whether an operation ends its block.
pub open spec fn is_terminator(registry: Seq<SignatureView>, name: OpNameView) -> bool {
    match signature_of(registry, name, 0) {
        Some(s) => s.terminator,
        None => false,
    }
}

/// Terminators among the first `n` operations of a block that do not end it.
pub open spec fn early_end_findings(
    m: ModuleView,
    registry: Seq<SignatureView>,
    ops: Seq<OperationId>,
    n: int,
) -> Seq<DiagnosticView>
    decreases n,
{
    if n <= 0 {
        Seq::empty()
    } else {
        let o = m.op(ops[n - 1]);
        early_end_findings(m, registry, ops, n - 1) + report_if(
            is_terminator(registry, o.name) && n < ops.len(),
            error_at(
                "S5"@,
                "`"@ + o.name.text() + "` ends its block, so nothing may follow it"@,
                o.id,
            ),
        )
    }
}

/// A region of an operation with results that does not yield them.
pub open spec fn yield_findings(m: ModuleView, o: OperationView, ops: Seq<OperationId>) -> Seq<
    DiagnosticView,
> {
    if o.results.len() == 0 || o.name.is("agent"@, "func"@) {
        Seq::empty()
    } else if ops.len() > 0 && m.op(ops.last()).name.is("control"@, "yield"@) {
        let yielded = m.op(ops.last()).operands.len();
        report_if(
            yielded != o.results.len(),
            error_at(
                "S5"@,
                "`"@ + o.name.text() + "` declares "@ + nat_text(o.results.len())
                    + " result(s) but its region yields "@ + nat_text(yielded),
                ops.last(),
            ),
        )
    } else {
        seq![
            error_at(
                "S5"@,
                "`"@ + o.name.text()
                    + "` declares results, so its region must end with `control.yield`"@,
                o.id,
            ),
        ]
    }
}

/// How the first `n` blocks of a region of an operation end.
pub open spec fn block_end_findings(
    m: ModuleView,
    registry: Seq<SignatureView>,
    o: OperationView,
    blocks: Seq<BlockId>,
    n: int,
) -> Seq<DiagnosticView>
    decreases n,
{
    if n <= 0 {
        Seq::empty()
    } else {
        let ops = m.live(m.block(blocks[n - 1]).ops);
        block_end_findings(m, registry, o, blocks, n - 1) + early_end_findings(
            m,
            registry,
            ops,
            ops.len() as int,
        ) + yield_findings(m, o, ops)
    }
}

/// How the blocks of the first `n` regions of an operation end.
pub open spec fn terminator_findings(
    m: ModuleView,
    registry: Seq<SignatureView>,
    o: OperationView,
    n: int,
) -> Seq<DiagnosticView>
    decreases n,
{
    if n <= 0 {
        Seq::empty()
    } else {
        let blocks = m.region(o.regions[n - 1]).blocks;
        terminator_findings(m, registry, o, n - 1) + block_end_findings(
            m,
            registry,
            o,
            blocks,
            blocks.len() as int,
        )
    }
}

// --------------------------------------------------------------- dominance

/// Operands among the first `n` that nothing defines before.
pub open spec fn dominance_findings(m: ModuleView, o: OperationView, n: int) -> Seq<DiagnosticView>
    decreases n,
{
    if n <= 0 {
        Seq::empty()
    } else {
        dominance_findings(m, o, n - 1) + report_if(
            !m.dominates(o.operands[n - 1], o.id),
            error_at(
                "I1"@,
                "operand "@ + nat_text((n - 1) as nat) + " of `"@ + o.name.text()
                    + "` has no dominating producer"@,
                o.id,
            ).suggest(
                "move the producing operation before this one, or hoist it out of the region that hides it"@,
            ),
        )
    }
}

/// The effects that touch the world, separated by plus signs.
pub open spec fn plus_text(effects: Seq<EffectView>, n: int) -> Seq<char>
    decreases n,
{
    if n <= 0 {
        Seq::empty()
    } else if n == 1 {
        effects[0].text()
    } else {
        plus_text(effects, n - 1) + " + "@ + effects[n - 1].text()
    }
}

/// How the effects of an operation are described.
pub open spec fn described(effects: Seq<EffectView>) -> Seq<char> {
    let named = effects.filter(|e: EffectView| !(e is Pure));
    if named.len() == 0 {
        "#pure"@
    } else {
        plus_text(named, named.len() as int)
    }
}

/// Whether an operation touches nothing outside the program.
pub open spec fn is_pure(table: Seq<Seq<EffectView>>, op: OperationId) -> bool {
    all_effects(recorded(table, op), |e: EffectView| e is Pure)
}

/// Operands of unresolved type among the first `n`.
pub open spec fn unknown_findings(
    m: ModuleView,
    table: Seq<Seq<EffectView>>,
    o: OperationView,
    n: int,
) -> Seq<DiagnosticView>
    decreases n,
{
    if n <= 0 {
        Seq::empty()
    } else {
        unknown_findings(m, table, o, n - 1) + report_if(
            m.value(o.operands[n - 1]).ty == TypeView::Unknown,
            error_at(
                "I1"@,
                "`"@ + o.name.text() + "` performs "@ + described(recorded(table, o.id))
                    + " but consumes a value of unresolved type; an `Unknown` may not cross an effect boundary"@,
                o.id,
            ).suggest("resolve the value's type, or insert a `core.cast` that does"@),
        )
    }
}

/// Values of unresolved type that cross an effect boundary.
pub open spec fn type_findings(m: ModuleView, table: Seq<Seq<EffectView>>, o: OperationView) -> Seq<
    DiagnosticView,
> {
    if is_pure(table, o.id) {
        Seq::empty()
    } else {
        unknown_findings(m, table, o, o.operands.len() as int)
    }
}

// ------------------------------------------------------------------ guards

/// The operations that certainly run before one whose enclosing blocks the
/// first `n` frames are: earlier ones in the same block, and earlier ones in
/// every enclosing block.
pub open spec fn preceding_within(m: ModuleView, chain: Seq<Frame>, n: int) -> Seq<OperationId>
    decreases n,
{
    if n <= 0 {
        Seq::empty()
    } else {
        preceding_within(m, chain, n - 1) + m.live(
            m.block(chain[n - 1].block).ops.take(chain[n - 1].position as int),
        )
    }
}

/// Every operation that certainly runs before one.
pub open spec fn preceding(m: ModuleView, op: OperationId) -> Seq<OperationId> {
    let chain = m.enclosing(op);
    preceding_within(m, chain, chain.len() as int)
}

/// Whether an operation checks a capability that authorizes an effect.
pub open spec fn checks(m: ModuleView, checker: OperationId, effect: EffectView) -> bool {
    let o = m.op(checker);
    o.name.is("agent"@, "verify"@) && match o.str_attr("capability"@) {
        Some(name) => m.capabilities.authorizes(name, effect),
        None => false,
    }
}

/// Whether a check that authorizes the effect of an operation runs before it.
pub open spec fn is_guarded(m: ModuleView, o: OperationView) -> bool {
    exists|i: int|
        0 <= i < preceding(m, o.id).len() && checks(m, #[trigger] preceding(m, o.id)[i], o.effect)
}

/// An irreversible operation that nothing guards.
pub open spec fn guard_findings(m: ModuleView, o: OperationView) -> Seq<DiagnosticView> {
    report_if(
        o.effect is Irreversible && !is_guarded(m, o),
        error_at(
            "I2"@,
            "`"@ + o.name.text() + "` declares "@ + o.effect.text()
                + " without a preceding `agent.verify` naming a capability that covers it"@,
            o.id,
        ).suggest(
            "insert `agent.verify {capability = \"...\"}` before this operation, or route it through human approval"@,
        ),
    )
}

// ------------------------------------------------------------- concurrency

/// Conflicts of one operation with the operations after it, up to the `n`-th.
pub open spec fn pair_findings(
    m: ModuleView,
    table: Seq<Seq<EffectView>>,
    ops: Seq<OperationId>,
    i: int,
    n: int,
) -> Seq<DiagnosticView>
    decreases n - i,
{
    if n <= i + 1 {
        Seq::empty()
    } else {
        let left = ops[i];
        let right = ops[n - 1];
        pair_findings(m, table, ops, i, n - 1) + report_if(
            lists_conflict(recorded(table, left), recorded(table, right)),
            error_at(
                "I3"@,
                "`"@ + m.op(left).name.text() + "` and `"@ + m.op(right).name.text()
                    + "` conflict on an overlapping scope and cannot share a `control.parallel` region"@,
                right,
            ).suggest(
                "sequence the two conflicting operations, or narrow their effect scopes if they really touch different resources"@,
            ),
        )
    }
}

/// Conflicts of the first `n` operations with the operations after them.
pub open spec fn sibling_findings(
    m: ModuleView,
    table: Seq<Seq<EffectView>>,
    ops: Seq<OperationId>,
    n: int,
) -> Seq<DiagnosticView>
    decreases n,
{
    if n <= 0 {
        Seq::empty()
    } else {
        sibling_findings(m, table, ops, n - 1) + pair_findings(
            m,
            table,
            ops,
            n - 1,
            ops.len() as int,
        )
    }
}

/// Conflicts inside the first `n` regions.
pub open spec fn concurrency_findings(
    m: ModuleView,
    table: Seq<Seq<EffectView>>,
    regions: Seq<RegionId>,
    n: int,
) -> Seq<DiagnosticView>
    decreases n,
{
    if n <= 0 {
        Seq::empty()
    } else {
        let ops = m.ops_in_region(regions[n - 1]);
        concurrency_findings(m, table, regions, n - 1) + sibling_findings(
            m,
            table,
            ops,
            ops.len() as int,
        )
    }
}

/// Operations of a `control.parallel` region that conflict.
pub open spec fn parallel_findings(m: ModuleView, table: Seq<Seq<EffectView>>, o: OperationView) -> Seq<
    DiagnosticView,
> {
    if o.name.is("control"@, "parallel"@) {
        concurrency_findings(m, table, o.regions, o.regions.len() as int)
    } else {
        Seq::empty()
    }
}

// -------------------------------------------------------------- confidence

/// Whether a check of a value runs before an operation.
pub open spec fn is_verified(m: ModuleView, op: OperationId, value: ValueId) -> bool {
    exists|i: int|
        0 <= i < preceding(m, op).len() && m.op(#[trigger] preceding(m, op)[i]).name.is(
            "agent"@,
            "verify"@,
        ) && m.op(preceding(m, op)[i]).operands.contains(value)
}

/// Unchecked low-confidence operands among the first `n`.
pub open spec fn guess_findings(
    m: ModuleView,
    table: Seq<Seq<EffectView>>,
    threshold: Number,
    o: OperationView,
    n: int,
) -> Seq<DiagnosticView>
    decreases n,
{
    if n <= 0 {
        Seq::empty()
    } else {
        let v = m.value(o.operands[n - 1]);
        guess_findings(m, table, threshold, o, n - 1) + report_if(
            v.provenance.unverified(threshold) && !is_verified(m, o.id, o.operands[n - 1]),
            error_at(
                "I4"@,
                "`"@ + o.name.text() + "` performs "@ + described(recorded(table, o.id))
                    + " but consumes an LLM value with confidence "@
                    + v.provenance.confidence.fixed_text() + ", below the "@
                    + threshold.fixed_text() + " threshold, and nothing verified it first"@,
                o.id,
            ).suggest(
                "add an `agent.verify` on that value before this operation, or obtain it from a tool rather than from the model"@,
            ),
        )
    }
}

/// Low-confidence values that cross an effect boundary unchecked.
pub open spec fn confidence_findings(
    m: ModuleView,
    table: Seq<Seq<EffectView>>,
    threshold: Number,
    o: OperationView,
) -> Seq<DiagnosticView> {
    if is_pure(table, o.id) {
        Seq::empty()
    } else {
        guess_findings(m, table, threshold, o, o.operands.len() as int)
    }
}

// ------------------------------------------------------------- termination

/// Loops without a positive bound.
pub open spec fn loop_findings(o: OperationView) -> Seq<DiagnosticView> {
    if o.name.is("control"@, "loop"@) || o.name.is("control"@, "while"@) {
        match o.int_attr("max_iterations"@) {
            Some(bound) => report_if(
                bound <= 0,
                error_at(
                    "I5"@,
                    "`"@ + o.name.text() + "` declares max_iterations = "@ + int_text(bound as int),
                    o.id,
                ).suggest("a termination guard must be a positive number of iterations"@),
            ),
            None => seq![
                error_at(
                    "I5"@,
                    "`"@ + o.name.text() + "` has no termination guard"@,
                    o.id,
                ).suggest(
                    "add `max_iterations = N`, or prove progress another way and record it as an attribute"@,
                ),
            ],
        }
    } else {
        Seq::empty()
    }
}

// ------------------------------------------------------------------- whole

/// Everything the static rules report of one operation.
pub open spec fn op_findings(
    m: ModuleView,
    registry: Seq<SignatureView>,
    table: Seq<Seq<EffectView>>,
    threshold: Number,
    op: OperationId,
) -> Seq<DiagnosticView> {
    let o = m.op(op);
    signature_findings(o, registry) + dominance_findings(m, o, o.operands.len() as int)
        + type_findings(m, table, o) + guard_findings(m, o) + confidence_findings(
        m,
        table,
        threshold,
        o,
    ) + loop_findings(o) + parallel_findings(m, table, o) + terminator_findings(
        m,
        registry,
        o,
        o.regions.len() as int,
    )
}

/// Everything the static rules report of the first `n` operations.
pub open spec fn ops_findings(
    m: ModuleView,
    registry: Seq<SignatureView>,
    table: Seq<Seq<EffectView>>,
    threshold: Number,
    ops: Seq<OperationId>,
    n: int,
) -> Seq<DiagnosticView>
    decreases n,
{
    if n <= 0 {
        Seq::empty()
    } else {
        ops_findings(m, registry, table, threshold, ops, n - 1) + op_findings(
            m,
            registry,
            table,
            threshold,
            ops[n - 1],
        )
    }
}

/// Everything the static rules report of a module.
pub open spec fn static_findings(
    m: ModuleView,
    registry: Seq<SignatureView>,
    table: Seq<Seq<EffectView>>,
    threshold: Number,
) -> Seq<DiagnosticView> {
    let ops = m.program_order(m.body);
    let tops = m.ops_in_region(m.body);
    ops_findings(m, registry, table, threshold, ops, ops.len() as int) + top_level_findings(
        m,
        tops,
        tops.len() as int,
    )
}

/// The scope of an effect as a suggestion mentions it.
pub open spec fn on_scope(effect: EffectView) -> Seq<char> {
    match effect.scope() {
        Some(Some(name)) => " on scope `"@ + name + "`"@,
        _ => Seq::empty(),
    }
}

/// What the safety rules report of one operation: no capability covers its
/// effect, or the one that does awaits approval.
pub open spec fn safety_findings_of(m: ModuleView, op: OperationId) -> Seq<DiagnosticView> {
    let o = m.op(op);
    if o.effect is Pure {
        Seq::empty()
    } else {
        match m.capabilities.covering(o.effect) {
            None => seq![
                error_at(
                    "C1"@,
                    "`"@ + o.name.text() + "` declares "@ + o.effect.text()
                        + " but the agent holds no capability covering it"@,
                    op,
                ).suggest(
                    "grant a capability for `"@ + o.effect.class().text() + "`"@ + on_scope(
                        o.effect,
                    )
                        + ", or lower the operation's effect if it really does not touch the world"@,
                ),
            ],
            Some(c) => report_if(
                c.requires_approval && !m.capabilities.approvals.contains(c.name),
                error_at(
                    "C2"@,
                    "`"@ + o.name.text() + "` needs capability `"@ + c.name
                        + "`, which requires human approval that has not been recorded"@,
                    op,
                ).suggest(
                    "obtain approval for `"@ + c.name
                        + "` before compiling, or route the action through HUMAN_REVIEW"@,
                ),
            ),
        }
    }
}

/// What the safety rules report of the first `n` operations.
pub open spec fn safety_findings(m: ModuleView, ops: Seq<OperationId>, n: int) -> Seq<DiagnosticView>
    decreases n,
{
    if n <= 0 {
        Seq::empty()
    } else {
        safety_findings(m, ops, n - 1) + safety_findings_of(m, ops[n - 1])
    }
}

/// What both phases report of a module: the safety rules apply only where the
/// static ones reject nothing.
pub open spec fn all_findings(
    m: ModuleView,
    registry: Seq<SignatureView>,
    table: Seq<Seq<EffectView>>,
    threshold: Number,
) -> Seq<DiagnosticView> {
    let found = static_findings(m, registry, table, threshold);
    let ops = m.program_order(m.body);
    if rejects(found) {
        found
    } else {
        found + safety_findings(m, ops, ops.len() as int)
    }
}

} // verus!
