//! The two rejection points of the pipeline, as two passes over the module.
//!
//! * [`Verifier::verify`] is the static phase: is the program well formed, are
//!   its effect declarations legal, do its loops terminate, is every
//!   irreversible action guarded?
//! * [`Verifier::verify_safety`] is the second, distinct rejection point: does
//!   the agent actually *hold* the capabilities the program needs, and has a
//!   human approved the ones that are gated?
//!
//! The two are deliberately separate, because a program can be perfectly well
//! formed and still not be allowed to run.
//!
//! A rejected program is never executed. It comes back as [`Diagnostics`]
//! (which invariant broke, which operation broke it, and what to change), so
//! that the LLM builder gets a compiler error rather than a stack trace.

use vstd::prelude::*;
use vstd::string::*;

use crate::attribute::{attribute_view, Attribute};
use crate::diagnostic::{Diagnostic, Diagnostics};
use crate::dialects::{catalogue, Arity, AttrKind, OpSignature, Registry, SignatureView};
use crate::dominance::{dominates, enclosing_chain, Frame};
use crate::effect::{Effect, EffectView};
use crate::effects::{effect_views, effect_table, recorded, EffectSummary};
use crate::ids::{BlockId, OperationId, RegionId, ValueId};
use crate::module::{Module, ModuleView, OpName, Operation};
use crate::number::Number;
use crate::rules;
use crate::text::{push_int, push_nat};
use crate::traversal::all_live;

verus! {

/// The default confidence below which an LLM-produced value must be verified
/// before it may feed an effectful operation: eight tenths.
pub open spec fn spec_default_confidence_threshold() -> Number {
    Number::Finite { negative: false, mantissa: 8, exponent: (-1) as i32 }
}

/// The default confidence below which an LLM-produced value must be verified
/// before it may feed an effectful operation: eight tenths.
pub fn default_confidence_threshold() -> (r: Number)
    ensures
        r == spec_default_confidence_threshold(),
{
    Number::Finite { negative: false, mantissa: 8, exponent: -1 }
}

/// Checks a module against the invariants and the safety rules.
#[derive(Debug)]
pub struct Verifier {
    registry: Registry,
    confidence_threshold: Number,
}

/// Whether an attribute has the kind a signature asks for.
fn matches_kind(value: &Attribute, kind: AttrKind) -> (r: bool)
    ensures
        r == rules::has_kind(value@, kind),
{
    broadcast use attribute_view;

    match kind {
        AttrKind::Any => true,
        AttrKind::Int => matches!(value, Attribute::Int(_)),
        AttrKind::Float => matches!(value, Attribute::Float(_) | Attribute::Int(_)),
        AttrKind::Bool => matches!(value, Attribute::Bool(_)),
        AttrKind::Str => matches!(value, Attribute::Str(_)),
        AttrKind::Dict => matches!(value, Attribute::Dict(_)),
    }
}

/// A quoted operation name, between two texts.
fn about(name: &OpName, text: &str) -> (r: String)
    ensures
        r@ == "`"@ + name@.text() + text@,
{
    let mut out = String::from_str("`");
    name.push_text(&mut out);
    out.append(text);
    out
}

/// Formats the effects of an operation for a diagnostic.
fn describe_effects(effects: &[Effect]) -> (r: String)
    ensures
        r@ == rules::described(effect_views(effects@)),
{
    let ghost all = effect_views(effects@);
    let ghost keep = |e: EffectView| !(e is Pure);
    let ghost named = all.filter(keep);
    let mut out = String::new();
    let mut count: usize = 0;
    let mut i: usize = 0;
    proof {
        reveal(Seq::filter);
        assert(all.take(0).filter(keep) =~= Seq::empty());
    }
    while i < effects.len()
        invariant
            i <= effects@.len(),
            all == effect_views(effects@),
            keep == |e: EffectView| !(e is Pure),
            named == all.filter(keep),
            count <= i,
            count == all.take(i as int).filter(keep).len(),
            out@ == rules::plus_text(named, count as int),
        decreases effects@.len() - i,
    {
        proof {
            reveal(Seq::filter);
            assert(all.take(i + 1).drop_last() =~= all.take(i as int));
        }
        if !effects[i].is_pure() {
            proof {
                crate::printer::lemma_filter_index(all, keep, i as int);
            }
            if count > 0 {
                out.append(" + ");
            }
            effects[i].push_text(&mut out);
            count += 1;
            assert(out@ =~= rules::plus_text(named, count as int));
        }
        i += 1;
    }
    assert(all.take(i as int) =~= all);
    if count == 0 {
        String::from_str("#pure")
    } else {
        out
    }
}

/// Every operation that certainly runs before `op`.
///
/// That is: earlier operations in the same block, and earlier operations in
/// every enclosing block. Operations in a sibling region are excluded, because
/// nothing says they ran.
fn preceding_ops(module: &Module, op: OperationId) -> (r: Vec<OperationId>)
    requires
        module@.well_formed(),
        module@.has_op(op),
    ensures
        r@ == rules::preceding(module@, op),
        all_live(module@, r@),
{
    let ghost m = module@;
    let chain = enclosing_chain(module, op);
    proof {
        lemma_chain_valid(m, op, m.regions.len() + 1);
    }
    let mut out: Vec<OperationId> = Vec::new();
    let mut n: usize = 0;
    while n < chain.len()
        invariant
            n <= chain@.len(),
            m == module@,
            m.in_bounds(),
            frames_valid(m, chain@),
            out@ == rules::preceding_within(m, chain@, n as int),
            all_live(m, out@),
        decreases chain@.len() - n,
    {
        let frame = chain[n];
        assert(frame_valid(m, chain@[n as int]));
        let ops = &module.block(frame.block).ops;
        let ghost head = m.block(frame.block).ops.take(frame.position as int);
        let ghost before = out@;
        proof {
            assert(m.block_in_bounds(m.blocks[frame.block.spec_index()]));
            reveal(Seq::filter);
            assert(m.live(head.take(0)) =~= Seq::empty());
        }
        let mut i: usize = 0;
        while i < frame.position
            invariant
                i <= frame.position <= ops@.len(),
                m == module@,
                ops@ == m.block(frame.block).ops,
                m.block_in_bounds(m.block(frame.block)),
                head == ops@.take(frame.position as int),
                out@ == before + m.live(head.take(i as int)),
                all_live(m, out@),
            decreases frame.position - i,
        {
            let earlier = ops[i];
            assert(m.has_op(ops@[i as int]));
            proof {
                reveal(Seq::filter);
                assert(head.take(i + 1).drop_last() =~= head.take(i as int));
                assert(head.take(i + 1).last() == earlier);
            }
            if !module.op(earlier).erased {
                let ghost current = out@;
                out.push(earlier);
                assert(out@ =~= before + m.live(head.take(i as int)).push(earlier));
            }
            i += 1;
        }
        assert(head.take(i as int) =~= head);
        n += 1;
    }
    out
}

/// Whether a frame points into a block of the module.
spec fn frame_valid(m: ModuleView, frame: Frame) -> bool {
    m.has_block(frame.block) && frame.position <= m.block(frame.block).ops.len()
}

spec fn frames_valid(m: ModuleView, chain: Seq<Frame>) -> bool {
    forall|i: int| 0 <= i < chain.len() ==> frame_valid(m, #[trigger] chain[i])
}

proof fn lemma_chain_valid(m: ModuleView, op: OperationId, fuel: nat)
    requires
        m.in_bounds(),
        m.has_op(op),
    ensures
        frames_valid(m, m.chain(op, fuel)),
    decreases fuel,
{
    if fuel > 0 {
        assert(m.op_in_bounds(m.ops[op.spec_index()]));
        if let Some(block) = m.op(op).parent {
            assert(m.block_in_bounds(m.blocks[block.spec_index()]));
            crate::dominance::lemma_position_valid(m.block(block).ops, op, 0);
            let region = m.block(block).parent;
            assert(m.region_in_bounds(m.regions[region.spec_index()]));
            if let Some(parent) = m.parent_op(op) {
                lemma_chain_valid(m, parent, (fuel - 1) as nat);
            }
        }
    }
}

impl Verifier {
    /// The registry and the threshold the verifier checks against.
    pub closed spec fn spec_registry(self) -> Seq<SignatureView> {
        self.registry@
    }

    /// The confidence below which an LLM value must be verified.
    pub closed spec fn threshold(self) -> Number {
        self.confidence_threshold
    }

    /// A verifier over all dialects, at the default confidence threshold.
    pub fn new() -> (r: Verifier)
        ensures
            r.spec_registry() == catalogue(),
            r.threshold() == spec_default_confidence_threshold(),
    {
        Verifier {
            registry: Registry::v0_1(),
            confidence_threshold: default_confidence_threshold(),
        }
    }

    /// Sets the confidence threshold.
    pub fn with_confidence_threshold(self, threshold: Number) -> (r: Verifier)
        ensures
            r.spec_registry() == self.spec_registry(),
            r.threshold() == threshold,
    {
        Verifier { confidence_threshold: threshold, ..self }
    }

    /// The dialect registry this verifier checks against.
    pub fn registry(&self) -> (r: &Registry)
        ensures
            r@ == self.spec_registry(),
    {
        &self.registry
    }

    // ------------------------------------------------------------- structure

    fn check_count(
        operation: &Operation,
        arity: Arity,
        count: usize,
        verb: &str,
        contrast: &str,
        report: &mut Diagnostics,
    )
        ensures
            final(report)@ == old(report)@ + rules::count_findings(
                operation@,
                arity,
                count as nat,
                verb@,
                contrast@,
            ),
    {
        if !arity.accepts(count) {
            let mut message = about(&operation.name, verb);
            message.append(arity.describe().as_str());
            message.append(contrast);
            push_nat(&mut message, count as u64);
            report.push(Diagnostic::error("S2", message).at(operation.id));
        }
        assert(report@ =~= old(report)@ + rules::count_findings(
            operation@,
            arity,
            count as nat,
            verb@,
            contrast@,
        ));
    }

    fn check_attrs(operation: &Operation, signature: &OpSignature, report: &mut Diagnostics)
        ensures
            final(report)@ == old(report)@ + rules::attrs_findings(
                operation@,
                signature@.required_attrs,
                signature@.required_attrs.len() as int,
            ),
    {
        let required = &signature.required_attrs;
        let ghost views = signature@.required_attrs;
        let mut i: usize = 0;
        assert(report@ =~= old(report)@ + rules::attrs_findings(operation@, views, 0));
        while i < required.len()
            invariant
                i <= required@.len(),
                views == signature@.required_attrs,
                required@ == signature.required_attrs@,
                report@ == old(report)@ + rules::attrs_findings(operation@, views, i as int),
            decreases required@.len() - i,
        {
            let (key, kind) = required[i];
            let ghost before = report@;
            assert(views[i as int] == (key@, kind));
            match operation.attr(key) {
                None => {
                    let mut message = about(&operation.name, "` requires the `");
                    message.append(key);
                    message.append("` attribute");
                    report.push(Diagnostic::error("S3", message).at(operation.id));
                },
                Some(value) => {
                    if !matches_kind(value, kind) {
                        let mut message = about(&operation.name, "`'s `");
                        message.append(key);
                        message.append("` attribute should be ");
                        message.append(kind.as_word());
                        message.append(", found `");
                        value.push_text(&mut message);
                        message.append("`");
                        report.push(Diagnostic::error("S3", message).at(operation.id));
                    }
                },
            }
            assert(report@ =~= before + rules::attr_findings(operation@, key@, kind));
            i += 1;
            assert(report@ =~= old(report)@ + rules::attrs_findings(operation@, views, i as int));
        }
    }

    fn check_effect(operation: &Operation, signature: &OpSignature, report: &mut Diagnostics)
        ensures
            final(report)@ == old(report)@ + rules::effect_findings(operation@, signature@),
    {
        let class = operation.effect.class();
        let allowed = &signature.allowed_effects;
        let mut listed = false;
        let mut text = String::new();
        let mut i: usize = 0;
        while i < allowed.len()
            invariant
                i <= allowed@.len(),
                allowed@ == signature.allowed_effects@,
                listed == exists|j: int| 0 <= j < i && #[trigger] allowed@[j] == class,
                text@ == rules::classes_text(allowed@, i as int),
            decreases allowed@.len() - i,
        {
            if allowed[i] == class {
                listed = true;
            }
            if i > 0 {
                text.append(", ");
            }
            text.append(allowed[i].as_word());
            i += 1;
            assert(text@ =~= rules::classes_text(allowed@, i as int));
        }
        assert(listed == allowed@.contains(class));
        if allowed.len() > 0 && !listed {
            let mut message = about(&operation.name, "` may not declare ");
            operation.effect.push_text(&mut message);
            message.append("; it is limited to ");
            message.append(text.as_str());
            report.push(
                Diagnostic::error("T2", message).at(operation.id).suggest(
                    "an operation that really has this effect belongs in a dialect that allows it — relabelling is what the effect system exists to prevent",
                ),
            );
        }
        assert(report@ =~= old(report)@ + rules::effect_findings(operation@, signature@));
    }

    fn check_signature(&self, operation: &Operation, report: &mut Diagnostics)
        ensures
            final(report)@ == old(report)@ + rules::signature_findings(
                operation@,
                self.spec_registry(),
            ),
    {
        let signature = match self.registry.get(&operation.name) {
            Some(signature) => signature,
            None => {
                let message = about(
                    &operation.name,
                    "` is not an operation of any v0.1 dialect",
                );
                report.push(
                    Diagnostic::error("S1", message).at(operation.id).suggest(
                        "check the dialect list in §3.2, or register a new dialect",
                    ),
                );
                assert(report@ =~= old(report)@ + rules::signature_findings(
                    operation@,
                    self.spec_registry(),
                ));
                return;
            },
        };
        let ghost o = operation@;
        let ghost s = signature@;
        Verifier::check_count(
            operation,
            signature.operands,
            operation.operands.len(),
            "` takes ",
            " operand(s) but was given ",
            report,
        );
        Verifier::check_count(
            operation,
            signature.results,
            operation.results.len(),
            "` produces ",
            " result(s) but declares ",
            report,
        );
        Verifier::check_count(
            operation,
            signature.regions,
            operation.regions.len(),
            "` owns ",
            " region(s) but has ",
            report,
        );
        let ghost before = report@;
        if signature.requires_literal && operation.literal.is_none() {
            let message = about(
                &operation.name,
                "` needs a string literal naming what it does",
            );
            let mut suggestion = String::from_str("write `");
            operation.name.push_text(&mut suggestion);
            suggestion.append(" \"...\"`");
            report.push(
                Diagnostic::error("S4", message).at(operation.id).suggest(suggestion.as_str()),
            );
        }
        assert(report@ =~= before + rules::literal_findings(o, s));
        Verifier::check_attrs(operation, signature, report);
        Verifier::check_effect(operation, signature, report);
        assert(report@ =~= old(report)@ + rules::shape_findings(o, s));
    }

    fn check_top_level(&self, module: &Module, report: &mut Diagnostics)
        requires
            module@.in_bounds(),
        ensures
            ({
                let tops = module@.ops_in_region(module@.body);
                final(report)@ == old(report)@ + rules::top_level_findings(
                    module@,
                    tops,
                    tops.len() as int,
                )
            }),
    {
        let ghost m = module@;
        let ops = module.top_level();
        proof {
            crate::traversal::region_ops_are_live(m, m.body);
        }
        let mut n: usize = 0;
        assert(report@ =~= old(report)@ + rules::top_level_findings(m, ops@, 0));
        while n < ops.len()
            invariant
                n <= ops@.len(),
                m == module@,
                m.in_bounds(),
                all_live(m, ops@),
                report@ == old(report)@ + rules::top_level_findings(m, ops@, n as int),
            decreases ops@.len() - n,
        {
            assert(m.has_op(ops@[n as int]));
            let operation = module.op(ops[n]);
            if !operation.name.is("agent", "func") {
                let message = about(
                    &operation.name,
                    "` cannot sit at module level; only `agent.func` can",
                );
                report.push(Diagnostic::error("S1", message).at(operation.id));
            }
            n += 1;
            assert(report@ =~= old(report)@ + rules::top_level_findings(m, ops@, n as int));
        }
    }

    fn is_terminator(&self, name: &OpName) -> (r: bool)
        ensures
            r == rules::is_terminator(self.spec_registry(), name@),
    {
        match self.registry.get(name) {
            Some(s) => s.terminator,
            None => false,
        }
    }

    fn check_block_end(
        &self,
        module: &Module,
        operation: &Operation,
        block: BlockId,
        report: &mut Diagnostics,
    )
        requires
            module@.in_bounds(),
            module@.has_block(block),
        ensures
            ({
                let ops = module@.live(module@.block(block).ops);
                final(report)@ == old(report)@ + (rules::early_end_findings(
                    module@,
                    self.spec_registry(),
                    ops,
                    ops.len() as int,
                ) + rules::yield_findings(module@, operation@, ops))
            }),
    {
        let ghost m = module@;
        let ghost registry = self.spec_registry();
        proof {
            assert(m.block_in_bounds(m.blocks[block.spec_index()]));
            crate::traversal::lemma_live(m, m.block(block).ops);
        }
        let ops = module.live_ops_of(block);
        let mut n: usize = 0;
        assert(report@ =~= old(report)@ + rules::early_end_findings(m, registry, ops@, 0));
        while n < ops.len()
            invariant
                n <= ops@.len(),
                m == module@,
                m.in_bounds(),
                registry == self.spec_registry(),
                all_live(m, ops@),
                report@ == old(report)@ + rules::early_end_findings(m, registry, ops@, n as int),
            decreases ops@.len() - n,
        {
            assert(m.has_op(ops@[n as int]));
            let inner = module.op(ops[n]);
            n += 1;
            if self.is_terminator(&inner.name) && n < ops.len() {
                let message = about(&inner.name, "` ends its block, so nothing may follow it");
                report.push(Diagnostic::error("S5", message).at(inner.id));
            }
            assert(report@ =~= old(report)@ + rules::early_end_findings(
                m,
                registry,
                ops@,
                n as int,
            ));
        }
        let ghost before = report@;
        // A region that produces values has to say which ones.
        if operation.results.len() > 0 && !operation.name.is("agent", "func") {
            let mut yielded: Option<usize> = None;
            if ops.len() > 0 {
                assert(m.has_op(ops@[ops@.len() - 1]));
                let last = module.op(ops[ops.len() - 1]);
                if last.name.is("control", "yield") {
                    yielded = Some(last.operands.len());
                }
            }
            match yielded {
                Some(count) => {
                    if count != operation.results.len() {
                        let mut message = about(&operation.name, "` declares ");
                        push_nat(&mut message, operation.results.len() as u64);
                        message.append(" result(s) but its region yields ");
                        push_nat(&mut message, count as u64);
                        report.push(Diagnostic::error("S5", message).at(ops[ops.len() - 1]));
                    }
                },
                None => {
                    let message = about(
                        &operation.name,
                        "` declares results, so its region must end with `control.yield`",
                    );
                    report.push(Diagnostic::error("S5", message).at(operation.id));
                },
            }
        }
        assert(report@ =~= before + rules::yield_findings(m, operation@, ops@));
        assert(report@ =~= old(report)@ + (rules::early_end_findings(
            m,
            registry,
            ops@,
            ops@.len() as int,
        ) + rules::yield_findings(m, operation@, ops@)));
    }

    fn check_terminators(&self, module: &Module, operation: &Operation, report: &mut Diagnostics)
        requires
            module@.in_bounds(),
            module@.op_in_bounds(operation@),
        ensures
            final(report)@ == old(report)@ + rules::terminator_findings(
                module@,
                self.spec_registry(),
                operation@,
                operation@.regions.len() as int,
            ),
    {
        let ghost m = module@;
        let ghost registry = self.spec_registry();
        let ghost o = operation@;
        let regions = &operation.regions;
        let mut n: usize = 0;
        assert(report@ =~= old(report)@ + rules::terminator_findings(m, registry, o, 0));
        while n < regions.len()
            invariant
                n <= regions@.len(),
                m == module@,
                o == operation@,
                registry == self.spec_registry(),
                regions@ == o.regions,
                m.in_bounds(),
                m.op_in_bounds(o),
                report@ == old(report)@ + rules::terminator_findings(m, registry, o, n as int),
            decreases regions@.len() - n,
        {
            assert(m.has_region(regions@[n as int]));
            let region = regions[n];
            assert(m.region_in_bounds(m.regions[region.spec_index()]));
            let blocks = &module.region(region).blocks;
            let ghost before = report@;
            let mut b: usize = 0;
            assert(report@ =~= before + rules::block_end_findings(m, registry, o, blocks@, 0));
            while b < blocks.len()
                invariant
                    b <= blocks@.len(),
                    m == module@,
                    o == operation@,
                    registry == self.spec_registry(),
                    blocks@ == m.region(region).blocks,
                    m.in_bounds(),
                    m.region_in_bounds(m.region(region)),
                    report@ == before + rules::block_end_findings(
                        m,
                        registry,
                        o,
                        blocks@,
                        b as int,
                    ),
                decreases blocks@.len() - b,
            {
                assert(m.has_block(blocks@[b as int]));
                let ghost middle = report@;
                self.check_block_end(module, operation, blocks[b], report);
                b += 1;
                assert(report@ =~= before + rules::block_end_findings(
                    m,
                    registry,
                    o,
                    blocks@,
                    b as int,
                ));
            }
            n += 1;
            assert(report@ =~= old(report)@ + rules::terminator_findings(
                m,
                registry,
                o,
                n as int,
            ));
        }
    }

    // ------------------------------------------------------- values and effects

    fn check_operands_dominate(&self, module: &Module, op: OperationId, report: &mut Diagnostics)
        requires
            module@.well_formed(),
            module@.has_op(op),
        ensures
            final(report)@ == old(report)@ + rules::dominance_findings(
                module@,
                module@.op(op),
                module@.op(op).operands.len() as int,
            ),
    {
        let ghost m = module@;
        let operation = module.op(op);
        let ghost o = m.op(op);
        let operands = &operation.operands;
        proof {
            assert(m.op_in_bounds(m.ops[op.spec_index()]));
        }
        let mut n: usize = 0;
        assert(report@ =~= old(report)@ + rules::dominance_findings(m, o, 0));
        while n < operands.len()
            invariant
                n <= operands@.len(),
                m == module@,
                m.well_formed(),
                m.has_op(op),
                o == m.op(op),
                o == operation@,
                o.id == op,
                m.op_in_bounds(o),
                operands@ == o.operands,
                report@ == old(report)@ + rules::dominance_findings(m, o, n as int),
            decreases operands@.len() - n,
        {
            assert(m.has_value(operands@[n as int]));
            if !dominates(module, operands[n], op) {
                let mut message = String::from_str("operand ");
                push_nat(&mut message, n as u64);
                message.append(" of `");
                operation.name.push_text(&mut message);
                message.append("` has no dominating producer");
                report.push(
                    Diagnostic::error("I1", message).at(op).suggest(
                        "move the producing operation before this one, or hoist it out of the region that hides it",
                    ),
                );
            }
            n += 1;
            assert(report@ =~= old(report)@ + rules::dominance_findings(m, o, n as int));
        }
    }

    fn check_unknown_types(
        &self,
        module: &Module,
        op: OperationId,
        effects: &EffectSummary,
        report: &mut Diagnostics,
    )
        requires
            module@.in_bounds(),
            module@.has_op(op),
        ensures
            final(report)@ == old(report)@ + rules::type_findings(
                module@,
                effects@,
                module@.op(op),
            ),
    {
        let ghost m = module@;
        let ghost o = m.op(op);
        proof {
            assert(m.op_in_bounds(m.ops[op.spec_index()]));
        }
        // The summary, not the declaration: a `control.loop` is declared
        // `#pure` and may still hand the value to a tool forty times.
        if effects.is_pure(op) {
            assert(report@ =~= old(report)@ + rules::type_findings(m, effects@, o));
            return;
        }
        let operation = module.op(op);
        let operands = &operation.operands;
        let mut n: usize = 0;
        assert(report@ =~= old(report)@ + rules::unknown_findings(m, effects@, o, 0));
        while n < operands.len()
            invariant
                n <= operands@.len(),
                m == module@,
                m.in_bounds(),
                m.has_op(op),
                o == m.op(op),
                o == operation@,
                o.id == op,
                m.op_in_bounds(o),
                operands@ == o.operands,
                report@ == old(report)@ + rules::unknown_findings(m, effects@, o, n as int),
            decreases operands@.len() - n,
        {
            assert(m.has_value(operands@[n as int]));
            if module.value(operands[n]).ty.is_unknown() {
                let mut message = about(&operation.name, "` performs ");
                message.append(describe_effects(effects.of(op)).as_str());
                message.append(
                    " but consumes a value of unresolved type; an `Unknown` may not cross an effect boundary",
                );
                report.push(
                    Diagnostic::error("I1", message).at(op).suggest(
                        "resolve the value's type, or insert a `core.cast` that does",
                    ),
                );
            }
            n += 1;
            assert(report@ =~= old(report)@ + rules::unknown_findings(m, effects@, o, n as int));
        }
    }

    // ---------------------------------------------------------------- guards

    fn check_irreversible_is_guarded(
        &self,
        module: &Module,
        op: OperationId,
        report: &mut Diagnostics,
    )
        requires
            module@.well_formed(),
            module@.has_op(op),
        ensures
            final(report)@ == old(report)@ + rules::guard_findings(module@, module@.op(op)),
    {
        let ghost m = module@;
        let ghost o = m.op(op);
        let operation = module.op(op);
        proof {
            assert(m.op_in_bounds(m.ops[op.spec_index()]));
        }
        if !operation.effect.is_irreversible() {
            assert(report@ =~= old(report)@ + rules::guard_findings(m, o));
            return;
        }
        let earlier = preceding_ops(module, op);
        let mut guarded = false;
        let mut i: usize = 0;
        while i < earlier.len()
            invariant
                i <= earlier@.len(),
                m == module@,
                m.in_bounds(),
                o == operation@,
                earlier@ == rules::preceding(m, op),
                all_live(m, earlier@),
                guarded == exists|j: int|
                    0 <= j < i && rules::checks(m, #[trigger] earlier@[j], o.effect),
            decreases earlier@.len() - i,
        {
            assert(m.has_op(earlier@[i as int]));
            let candidate = module.op(earlier[i]);
            if candidate.name.is("agent", "verify") {
                if let Some(name) = candidate.str_attr("capability") {
                    if module.capabilities.authorizes(name, &operation.effect) {
                        assert(rules::checks(m, earlier@[i as int], o.effect));
                        guarded = true;
                    }
                }
            }
            i += 1;
        }
        assert(guarded == rules::is_guarded(m, o));
        if !guarded {
            let mut message = about(&operation.name, "` declares ");
            operation.effect.push_text(&mut message);
            message.append(
                " without a preceding `agent.verify` naming a capability that covers it",
            );
            report.push(
                Diagnostic::error("I2", message).at(op).suggest(
                    "insert `agent.verify {capability = \"...\"}` before this operation, or route it through human approval",
                ),
            );
        }
        assert(report@ =~= old(report)@ + rules::guard_findings(m, o));
    }

    // ----------------------------------------------------------- concurrency

    fn check_siblings(
        &self,
        module: &Module,
        region: RegionId,
        effects: &EffectSummary,
        report: &mut Diagnostics,
    )
        requires
            module@.in_bounds(),
            module@.has_region(region),
        ensures
            ({
                let ops = module@.ops_in_region(region);
                final(report)@ == old(report)@ + rules::sibling_findings(
                    module@,
                    effects@,
                    ops,
                    ops.len() as int,
                )
            }),
    {
        let ghost m = module@;
        let ghost table = effects@;
        proof {
            crate::traversal::region_ops_are_live(m, region);
        }
        let siblings = module.ops_in_region(region);
        let ghost ops = siblings@;
        let mut i: usize = 0;
        assert(report@ =~= old(report)@ + rules::sibling_findings(m, table, ops, 0));
        while i < siblings.len()
            invariant
                i <= siblings@.len(),
                m == module@,
                m.in_bounds(),
                table == effects@,
                ops == siblings@,
                all_live(m, ops),
                report@ == old(report)@ + rules::sibling_findings(m, table, ops, i as int),
            decreases siblings@.len() - i,
        {
            assert(m.has_op(ops[i as int]));
            let left = siblings[i];
            let ghost before = report@;
            let mut n: usize = i + 1;
            assert(report@ =~= before + rules::pair_findings(m, table, ops, i as int, n as int));
            while n < siblings.len()
                invariant
                    i < n <= siblings@.len(),
                    m == module@,
                    m.in_bounds(),
                    table == effects@,
                    ops == siblings@,
                    all_live(m, ops),
                    left == ops[i as int],
                    m.has_op(left),
                    report@ == before + rules::pair_findings(m, table, ops, i as int, n as int),
                decreases siblings@.len() - n,
            {
                assert(m.has_op(ops[n as int]));
                let right = siblings[n];
                if effects.conflict(left, right) {
                    let mut message = about(&module.op(left).name, "` and `");
                    module.op(right).name.push_text(&mut message);
                    message.append(
                        "` conflict on an overlapping scope and cannot share a `control.parallel` region",
                    );
                    report.push(
                        Diagnostic::error("I3", message).at(right).suggest(
                            "sequence the two conflicting operations, or narrow their effect scopes if they really touch different resources",
                        ),
                    );
                }
                n += 1;
                assert(report@ =~= before + rules::pair_findings(
                    m,
                    table,
                    ops,
                    i as int,
                    n as int,
                ));
            }
            i += 1;
            assert(report@ =~= old(report)@ + rules::sibling_findings(m, table, ops, i as int));
        }
    }

    fn check_parallel_region(
        &self,
        module: &Module,
        op: OperationId,
        effects: &EffectSummary,
        report: &mut Diagnostics,
    )
        requires
            module@.in_bounds(),
            module@.has_op(op),
        ensures
            final(report)@ == old(report)@ + rules::parallel_findings(
                module@,
                effects@,
                module@.op(op),
            ),
    {
        let ghost m = module@;
        let ghost o = m.op(op);
        let operation = module.op(op);
        proof {
            assert(m.op_in_bounds(m.ops[op.spec_index()]));
        }
        if !operation.name.is("control", "parallel") {
            assert(report@ =~= old(report)@ + rules::parallel_findings(m, effects@, o));
            return;
        }
        let regions = &operation.regions;
        let mut n: usize = 0;
        assert(report@ =~= old(report)@ + rules::concurrency_findings(m, effects@, regions@, 0));
        while n < regions.len()
            invariant
                n <= regions@.len(),
                m == module@,
                m.in_bounds(),
                o == operation@,
                m.op_in_bounds(o),
                regions@ == o.regions,
                report@ == old(report)@ + rules::concurrency_findings(
                    m,
                    effects@,
                    regions@,
                    n as int,
                ),
            decreases regions@.len() - n,
        {
            assert(m.has_region(regions@[n as int]));
            self.check_siblings(module, regions[n], effects, report);
            n += 1;
            assert(report@ =~= old(report)@ + rules::concurrency_findings(
                m,
                effects@,
                regions@,
                n as int,
            ));
        }
    }

    // ------------------------------------------------------------ confidence

    /// Whether a check of a value is among some operations.
    fn verified_by(module: &Module, earlier: &Vec<OperationId>, value: ValueId) -> (r: bool)
        requires
            all_live(module@, earlier@),
        ensures
            r == exists|i: int|
                0 <= i < earlier@.len() && module@.op(#[trigger] earlier@[i]).name.is(
                    "agent"@,
                    "verify"@,
                ) && module@.op(earlier@[i]).operands.contains(value),
    {
        let ghost m = module@;
        let mut i: usize = 0;
        while i < earlier.len()
            invariant
                i <= earlier@.len(),
                m == module@,
                all_live(m, earlier@),
                forall|j: int|
                    0 <= j < i ==> !(m.op(#[trigger] earlier@[j]).name.is("agent"@, "verify"@)
                        && m.op(earlier@[j]).operands.contains(value)),
            decreases earlier@.len() - i,
        {
            assert(m.has_op(earlier@[i as int]));
            let candidate = module.op(earlier[i]);
            if candidate.name.is("agent", "verify") {
                let mut k: usize = 0;
                while k < candidate.operands.len()
                    invariant
                        k <= candidate.operands@.len(),
                        i < earlier@.len(),
                        m == module@,
                        candidate@ == m.op(earlier@[i as int]),
                        candidate@.name.is("agent"@, "verify"@),
                        forall|j: int| 0 <= j < k ==> candidate.operands@[j] != value,
                    decreases candidate.operands@.len() - k,
                {
                    if candidate.operands[k] == value {
                        assert(m.op(earlier@[i as int]).operands.contains(value));
                        return true;
                    }
                    k += 1;
                }
                assert(!m.op(earlier@[i as int]).operands.contains(value));
            }
            i += 1;
        }
        false
    }

    fn check_llm_confidence(
        &self,
        module: &Module,
        op: OperationId,
        effects: &EffectSummary,
        report: &mut Diagnostics,
    )
        requires
            module@.well_formed(),
            module@.has_op(op),
        ensures
            final(report)@ == old(report)@ + rules::confidence_findings(
                module@,
                effects@,
                self.threshold(),
                module@.op(op),
            ),
    {
        let ghost m = module@;
        let ghost o = m.op(op);
        let ghost threshold = self.threshold();
        proof {
            assert(m.op_in_bounds(m.ops[op.spec_index()]));
        }
        // As with unresolved types, the question is what the operation really
        // does, not what its own line declares.
        if effects.is_pure(op) {
            assert(report@ =~= old(report)@ + rules::confidence_findings(
                m,
                effects@,
                threshold,
                o,
            ));
            return;
        }
        let operation = module.op(op);
        let operands = &operation.operands;
        let earlier = preceding_ops(module, op);
        let mut n: usize = 0;
        assert(report@ =~= old(report)@ + rules::guess_findings(m, effects@, threshold, o, 0));
        while n < operands.len()
            invariant
                n <= operands@.len(),
                m == module@,
                m.in_bounds(),
                m.has_op(op),
                o == m.op(op),
                o == operation@,
                o.id == op,
                m.op_in_bounds(o),
                operands@ == o.operands,
                threshold == self.threshold(),
                earlier@ == rules::preceding(m, op),
                all_live(m, earlier@),
                report@ == old(report)@ + rules::guess_findings(
                    m,
                    effects@,
                    threshold,
                    o,
                    n as int,
                ),
            decreases operands@.len() - n,
        {
            assert(m.has_value(operands@[n as int]));
            let provenance = &module.value(operands[n]).provenance;
            let verified = Verifier::verified_by(module, &earlier, operands[n]);
            assert(verified == rules::is_verified(m, op, operands@[n as int]));
            if provenance.needs_verification(self.confidence_threshold) && !verified {
                let mut message = about(&operation.name, "` performs ");
                message.append(describe_effects(effects.of(op)).as_str());
                message.append(" but consumes an LLM value with confidence ");
                provenance.confidence.push_fixed(&mut message);
                message.append(", below the ");
                self.confidence_threshold.push_fixed(&mut message);
                message.append(" threshold, and nothing verified it first");
                report.push(
                    Diagnostic::error("I4", message).at(op).suggest(
                        "add an `agent.verify` on that value before this operation, or obtain it from a tool rather than from the model",
                    ),
                );
            }
            n += 1;
            assert(report@ =~= old(report)@ + rules::guess_findings(
                m,
                effects@,
                threshold,
                o,
                n as int,
            ));
        }
    }

    // ----------------------------------------------------------- termination

    fn check_loop_guard(&self, operation: &Operation, report: &mut Diagnostics)
        ensures
            final(report)@ == old(report)@ + rules::loop_findings(operation@),
    {
        if operation.name.is("control", "loop") || operation.name.is("control", "while") {
            match operation.int_attr("max_iterations") {
                Some(bound) => {
                    if bound <= 0 {
                        let mut message = about(
                            &operation.name,
                            "` declares max_iterations = ",
                        );
                        push_int(&mut message, bound);
                        report.push(
                            Diagnostic::error("I5", message).at(operation.id).suggest(
                                "a termination guard must be a positive number of iterations",
                            ),
                        );
                    }
                },
                None => {
                    let message = about(&operation.name, "` has no termination guard");
                    report.push(
                        Diagnostic::error("I5", message).at(operation.id).suggest(
                            "add `max_iterations = N`, or prove progress another way and record it as an attribute",
                        ),
                    );
                },
            }
        }
        assert(report@ =~= old(report)@ + rules::loop_findings(operation@));
    }

    // ----------------------------------------------------------------- whole

    fn check_op(
        &self,
        module: &Module,
        op: OperationId,
        effects: &EffectSummary,
        report: &mut Diagnostics,
    )
        requires
            module@.well_formed(),
            module@.has_op(op),
        ensures
            final(report)@ == old(report)@ + rules::op_findings(
                module@,
                self.spec_registry(),
                effects@,
                self.threshold(),
                op,
            ),
    {
        let ghost m = module@;
        let ghost o = m.op(op);
        proof {
            assert(m.op_in_bounds(m.ops[op.spec_index()]));
        }
        let operation = module.op(op);
        self.check_signature(operation, report);
        self.check_operands_dominate(module, op, report);
        self.check_unknown_types(module, op, effects, report);
        self.check_irreversible_is_guarded(module, op, report);
        self.check_llm_confidence(module, op, effects, report);
        self.check_loop_guard(operation, report);
        self.check_parallel_region(module, op, effects, report);
        self.check_terminators(module, operation, report);
        assert(report@ =~= old(report)@ + rules::op_findings(
            m,
            self.spec_registry(),
            effects@,
            self.threshold(),
            op,
        ));
    }

    /// The static phase: well-formedness and the invariants.
    ///
    /// Runs every check rather than stopping at the first failure, so the LLM
    /// builder sees the whole repair list in one round trip.
    pub fn verify(&self, module: &Module) -> (r: Diagnostics)
        requires
            module@.well_formed(),
        ensures
            r@ == rules::static_findings(
                module@,
                self.spec_registry(),
                effect_table(module@),
                self.threshold(),
            ),
    {
        let ghost m = module@;
        let effects = EffectSummary::build(module);
        let mut report = Diagnostics::new();
        let ops = module.op_ids();
        proof {
            crate::traversal::walks_are_live(m, m.body);
        }
        let ghost registry = self.spec_registry();
        let ghost threshold = self.threshold();
        let mut n: usize = 0;
        assert(report@ =~= rules::ops_findings(m, registry, effects@, threshold, ops@, 0));
        while n < ops.len()
            invariant
                n <= ops@.len(),
                m == module@,
                m.well_formed(),
                registry == self.spec_registry(),
                threshold == self.threshold(),
                all_live(m, ops@),
                report@ == rules::ops_findings(
                    m,
                    registry,
                    effects@,
                    threshold,
                    ops@,
                    n as int,
                ),
            decreases ops@.len() - n,
        {
            assert(m.has_op(ops@[n as int]));
            self.check_op(module, ops[n], &effects, &mut report);
            n += 1;
        }
        self.check_top_level(module, &mut report);
        report
    }

    /// The safety phase: does the agent hold the capabilities the program
    /// needs?
    ///
    /// This is where a `tool.call "delete_database"` without a matching
    /// capability is refused: at compile time, before any network call.
    pub fn verify_safety(&self, module: &Module) -> (r: Diagnostics)
        requires
            module@.well_formed(),
        ensures
            ({
                let ops = module@.program_order(module@.body);
                r@ == rules::safety_findings(module@, ops, ops.len() as int)
            }),
    {
        let ghost m = module@;
        let mut report = Diagnostics::new();
        let ops = module.op_ids();
        proof {
            crate::traversal::walks_are_live(m, m.body);
        }
        let mut n: usize = 0;
        assert(report@ =~= rules::safety_findings(m, ops@, 0));
        while n < ops.len()
            invariant
                n <= ops@.len(),
                m == module@,
                m.in_bounds(),
                all_live(m, ops@),
                report@ == rules::safety_findings(m, ops@, n as int),
            decreases ops@.len() - n,
        {
            assert(m.has_op(ops@[n as int]));
            let ghost before = report@;
            self.check_capability(module, ops[n], &mut report);
            n += 1;
        }
        report
    }

    fn check_capability(&self, module: &Module, op: OperationId, report: &mut Diagnostics)
        requires
            module@.has_op(op),
        ensures
            final(report)@ == old(report)@ + rules::safety_findings_of(module@, op),
    {
        let ghost m = module@;
        let operation = module.op(op);
        let effect = &operation.effect;
        if effect.requires_capability() {
            match module.capabilities.covering(effect) {
                None => {
                    let mut message = about(&operation.name, "` declares ");
                    effect.push_text(&mut message);
                    message.append(" but the agent holds no capability covering it");
                    let mut suggestion = String::from_str("grant a capability for `");
                    suggestion.append(effect.class().as_word());
                    suggestion.append("`");
                    let mut place = String::new();
                    if let Some(scope) = effect.scope() {
                        if let Some(name) = scope.name() {
                            place = String::from_str(" on scope `");
                            place.append(name);
                            place.append("`");
                        }
                    }
                    assert(place@ =~= rules::on_scope(effect@));
                    suggestion.append(place.as_str());
                    suggestion.append(
                        ", or lower the operation's effect if it really does not touch the world",
                    );
                    report.push(
                        Diagnostic::error("C1", message).at(op).suggest(suggestion.as_str()),
                    );
                },
                Some(capability) => {
                    if capability.requires_approval && !module.capabilities.is_approved(
                        capability.name.as_str(),
                    ) {
                        let mut message = about(&operation.name, "` needs capability `");
                        message.append(capability.name.as_str());
                        message.append(
                            "`, which requires human approval that has not been recorded",
                        );
                        let mut suggestion = String::from_str("obtain approval for `");
                        suggestion.append(capability.name.as_str());
                        suggestion.append(
                            "` before compiling, or route the action through HUMAN_REVIEW",
                        );
                        report.push(
                            Diagnostic::error("C2", message).at(op).suggest(suggestion.as_str()),
                        );
                    }
                },
            }
        }
        assert(report@ =~= old(report)@ + rules::safety_findings_of(m, op));
    }

    /// Both phases, in pipeline order. The safety phase only runs on a program
    /// that is already well formed.
    pub fn verify_all(&self, module: &Module) -> (r: Diagnostics)
        requires
            module@.well_formed(),
        ensures
            r@ == rules::all_findings(
                module@,
                self.spec_registry(),
                effect_table(module@),
                self.threshold(),
            ),
    {
        let mut report = self.verify(module);
        if !report.has_errors() {
            report.extend(self.verify_safety(module));
        }
        report
    }
}

impl Clone for Verifier {
    /// A copy of the verifier.
    fn clone(&self) -> (r: Verifier)
        ensures
            r.spec_registry() == self.spec_registry(),
            r.threshold() == self.threshold(),
    {
        Verifier {
            registry: self.registry.clone(),
            confidence_threshold: self.confidence_threshold,
        }
    }
}

impl Default for Verifier {
    fn default() -> (r: Verifier)
        ensures
            r.spec_registry() == catalogue(),
            r.threshold() == spec_default_confidence_threshold(),
    {
        Verifier::new()
    }
}

} // verus!
