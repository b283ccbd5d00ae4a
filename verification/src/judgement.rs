//! What the verifier accepts.
//!
//! A program is accepted exactly when every operation of it keeps every rule:
//! it has the shape of its dialect, reads only what was produced, hands the
//! world nothing unresolved and no unchecked guess, guards what cannot be
//! undone, bounds its loops, races with nothing, ends its blocks as it should,
//! and has an effect that the agent may have. The rules are stated here of the
//! program itself.

use vstd::prelude::*;

use crate::assoc::lookup;
use crate::attribute::AttributeView;
use crate::capability::{CapabilitySetView, CapabilityView};
use crate::diagnostic::{rejects, DiagnosticView};
use crate::dialects::{signature_of, Arity, AttrKind, SignatureView};
use crate::effect::{EffectClass, EffectView};
use crate::effects::{effect_table, effect_table_exists, lists_conflict, recorded};
use crate::ids::{BlockId, OperationId, RegionId, ValueId};
use crate::module::{ModuleView, OpNameView, OperationView};
use crate::number::{number_lt, Number};
use crate::precedence::{
    dominating_is_produced_before, is_produced_before, names_a_capability,
    preceding_is_what_ran_before, ran_before,
};
use crate::provenance::Source;
use crate::rules::{
    all_findings, attrs_findings, block_end_findings, concurrency_findings, confidence_findings,
    count_findings, dominance_findings, early_end_findings, effect_findings, guard_findings,
    guess_findings, is_pure, literal_findings, loop_findings, op_findings, ops_findings,
    pair_findings, parallel_findings, preceding, report_if, safety_findings, safety_findings_of,
    shape_findings, sibling_findings, signature_findings, static_findings, terminator_findings,
    top_level_findings, type_findings, unknown_findings, yield_findings,
};
use crate::types::TypeView;

verus! {

// ------------------------------------------------------------------ effects

/// The resource an effect touches, if it touches one: a named one, or one that
/// is not known.
pub open spec fn touched(e: EffectView) -> Option<Option<Seq<char>>> {
    match e {
        EffectView::ReadExternal(scope) | EffectView::WriteExternal(scope)
        | EffectView::Irreversible(scope) => Some(scope),
        EffectView::Pure | EffectView::Stochastic => None,
    }
}

/// Whether an effect changes the resource it touches.
pub open spec fn changes(e: EffectView) -> bool {
    match e {
        EffectView::WriteExternal(_) | EffectView::Irreversible(_) => true,
        _ => false,
    }
}

/// Whether the order of two effects can be told: both touch a resource that may
/// be the same, and one of them changes it.
pub open spec fn collide(a: EffectView, b: EffectView) -> bool {
    match (touched(a), touched(b)) {
        (Some(x), Some(y)) => (changes(a) || changes(b)) && (x is None || y is None || x == y),
        _ => false,
    }
}

/// Effects conflict exactly when their order can be told.
pub proof fn conflicting_effects_collide(a: EffectView, b: EffectView)
    ensures
        a.conflicts_with(b) == collide(a, b),
{
}

/// Whether a capability allows an effect: it grants effects of that kind, and
/// its scope, where it has one, is the resource the effect touches, where it
/// touches one.
pub open spec fn allows(c: CapabilityView, e: EffectView) -> bool {
    let granted = match e {
        EffectView::Pure => c.grants.contains(EffectClass::Pure),
        EffectView::ReadExternal(_) => c.grants.contains(EffectClass::ReadExternal),
        EffectView::WriteExternal(_) => c.grants.contains(EffectClass::WriteExternal),
        EffectView::Irreversible(_) => c.grants.contains(EffectClass::Irreversible),
        EffectView::Stochastic => c.grants.contains(EffectClass::Stochastic),
    };
    granted && (touched(e) matches Some(scope) ==> (c.scope is None || c.scope == scope))
}

/// A capability covers exactly the effects it allows.
pub proof fn covered_effects_are_allowed(c: CapabilityView, e: EffectView)
    ensures
        c.covers(e) == allows(c, e),
{
}

/// Whether the agent may have an effect: it touches nothing, or the first
/// capability by name that allows it is approved, where it asks for that.
pub open spec fn may_have(caps: CapabilitySetView, e: EffectView) -> bool {
    e is Pure || exists|i: int|
        {
            &&& 0 <= i < caps.capabilities.len()
            &&& allows(#[trigger] caps.capabilities[i].1, e)
            &&& caps.capabilities[i].1.requires_approval ==> caps.approvals.contains(
                caps.capabilities[i].1.name,
            )
            &&& forall|k: int| 0 <= k < i ==> !allows(#[trigger] caps.capabilities[k].1, e)
        }
}

/// Whether an operation, or one nested in it, touches the world.
pub open spec fn touches_the_world(m: ModuleView, op: OperationId) -> bool {
    exists|i: int|
        0 <= i < m.subtree(op).len() && !(m.op(#[trigger] m.subtree(op)[i]).effect is Pure)
}

/// Whether two operations race: something that the one does, or that is nested
/// in it does, collides with something of the other.
pub open spec fn race(m: ModuleView, a: OperationId, b: OperationId) -> bool {
    exists|i: int, j: int|
        0 <= i < m.subtree(a).len() && 0 <= j < m.subtree(b).len() && collide(
            m.op(#[trigger] m.subtree(a)[i]).effect,
            m.op(#[trigger] m.subtree(b)[j]).effect,
        )
}

/// What is recorded of an operation of a program is what it, and what is nested
/// in it, declares.
pub proof fn recorded_effects(m: ModuleView, op: OperationId)
    requires
        m.well_formed(),
        m.program_order(m.body).contains(op),
    ensures
        forall|e: EffectView| #[trigger]
            recorded(effect_table(m), op).contains(e) <==> (exists|i: int|
                0 <= i < m.subtree(op).len() && m.op(#[trigger] m.subtree(op)[i]).effect == e),
{
    effect_table_exists(m);
    let table = effect_table(m);
    let order = m.program_order(m.body);
    crate::traversal::walks_are_live(m, m.body);
    let k = choose|k: int| 0 <= k < order.len() && order[k] == op;
    assert(m.has_op(order[k]));
    let at = op.spec_index() as int;
    assert(OperationId::at(at) == op);
    assert(crate::effects::summarizes(m, m.subtree(op), table[at]));
}

/// What is recorded as pure touches nothing, nested operations too.
pub proof fn purity_is_nested(m: ModuleView, op: OperationId)
    requires
        m.well_formed(),
        m.program_order(m.body).contains(op),
    ensures
        is_pure(effect_table(m), op) == !touches_the_world(m, op),
{
    recorded_effects(m, op);
    let effects = recorded(effect_table(m), op);
    if touches_the_world(m, op) {
        let i = choose|i: int|
            0 <= i < m.subtree(op).len() && !(m.op(#[trigger] m.subtree(op)[i]).effect is Pure);
        let e = m.op(m.subtree(op)[i]).effect;
        assert(effects.contains(e));
        let k = choose|k: int| 0 <= k < effects.len() && effects[k] == e;
        assert(!(effects[k] is Pure));
    }
    if !touches_the_world(m, op) {
        assert forall|k: int| 0 <= k < effects.len() implies (#[trigger] effects[k]) is Pure by {
            assert(effects.contains(effects[k]));
        }
    }
}

/// What is recorded as conflicting races, nested operations too.
pub proof fn conflicts_are_races(m: ModuleView, a: OperationId, b: OperationId)
    requires
        m.well_formed(),
        m.program_order(m.body).contains(a),
        m.program_order(m.body).contains(b),
    ensures
        lists_conflict(recorded(effect_table(m), a), recorded(effect_table(m), b)) == race(m, a, b),
{
    recorded_effects(m, a);
    recorded_effects(m, b);
    let x = recorded(effect_table(m), a);
    let y = recorded(effect_table(m), b);
    if lists_conflict(x, y) {
        let (i, j) = choose|i: int, j: int|
            0 <= i < x.len() && 0 <= j < y.len() && (#[trigger] x[i]).conflicts_with(#[trigger] y[j]);
        assert(x.contains(x[i]));
        assert(y.contains(y[j]));
        let k = choose|k: int|
            0 <= k < m.subtree(a).len() && m.op(#[trigger] m.subtree(a)[k]).effect == x[i];
        let l = choose|l: int|
            0 <= l < m.subtree(b).len() && m.op(#[trigger] m.subtree(b)[l]).effect == y[j];
        assert(collide(m.op(m.subtree(a)[k]).effect, m.op(m.subtree(b)[l]).effect));
    }
    if race(m, a, b) {
        let (k, l) = choose|k: int, l: int|
            0 <= k < m.subtree(a).len() && 0 <= l < m.subtree(b).len() && collide(
                m.op(#[trigger] m.subtree(a)[k]).effect,
                m.op(#[trigger] m.subtree(b)[l]).effect,
            );
        let e = m.op(m.subtree(a)[k]).effect;
        let f = m.op(m.subtree(b)[l]).effect;
        assert(x.contains(e) && y.contains(f));
        let i = choose|i: int| 0 <= i < x.len() && x[i] == e;
        let j = choose|j: int| 0 <= j < y.len() && y[j] == f;
        assert(x[i].conflicts_with(y[j]));
    }
}

// -------------------------------------------------------------------- rules

/// Whether an operation is the named one of a dialect.
pub open spec fn is_called(o: OperationView, dialect: Seq<char>, name: Seq<char>) -> bool {
    o.name.dialect == dialect && o.name.name == name
}

/// Whether a count is as an arity says.
pub open spec fn is_counted(arity: Arity, count: nat) -> bool {
    match arity {
        Arity::Exact(n) => count == n,
        Arity::AtLeast(n) => n <= count,
        Arity::Between(low, high) => low <= count && count <= high,
        Arity::Any => true,
    }
}

/// Whether an attribute is of a kind; an integer will do where a number is
/// asked for.
pub open spec fn is_of_kind(a: AttributeView, kind: AttrKind) -> bool {
    match a {
        AttributeView::Int(_) => kind is Any || kind is Int || kind is Float,
        AttributeView::Float(_) => kind is Any || kind is Float,
        AttributeView::Bool(_) => kind is Any || kind is Bool,
        AttributeView::Str(_) => kind is Any || kind is Str,
        AttributeView::Dict(_) => kind is Any || kind is Dict,
        AttributeView::Array(_) | AttributeView::Effect(_) => kind is Any,
    }
}

/// Whether a signature is the first of a registry that has a name.
pub open spec fn is_registered(
    registry: Seq<SignatureView>,
    name: OpNameView,
    s: SignatureView,
) -> bool {
    exists|i: int|
        0 <= i < registry.len() && #[trigger] registry[i] == s && s.name == name && forall|k: int|
            0 <= k < i ==> (#[trigger] registry[k]).name != name
}

/// Whether an operation has the shape that a signature asks for.
pub open spec fn has_shape(o: OperationView, s: SignatureView) -> bool {
    &&& is_counted(s.operands, o.operands.len())
    &&& is_counted(s.results, o.results.len())
    &&& is_counted(s.regions, o.regions.len())
    &&& s.requires_literal ==> o.literal is Some
    &&& forall|k: int|
        0 <= k < s.required_attrs.len() ==> (lookup(
            o.attributes,
            (#[trigger] s.required_attrs[k]).0,
        ) matches Some(a) && is_of_kind(a, s.required_attrs[k].1))
    &&& s.allowed_effects.len() > 0 ==> s.allowed_effects.contains(
        match o.effect {
            EffectView::Pure => EffectClass::Pure,
            EffectView::ReadExternal(_) => EffectClass::ReadExternal,
            EffectView::WriteExternal(_) => EffectClass::WriteExternal,
            EffectView::Irreversible(_) => EffectClass::Irreversible,
            EffectView::Stochastic => EffectClass::Stochastic,
        },
    )
}

/// Whether an operation is one of a dialect and has its shape.
pub open spec fn is_in_a_dialect(registry: Seq<SignatureView>, o: OperationView) -> bool {
    exists|s: SignatureView| #[trigger] is_registered(registry, o.name, s) && has_shape(o, s)
}

/// Whether operations of a name end their block.
pub open spec fn ends_a_block(registry: Seq<SignatureView>, name: OpNameView) -> bool {
    exists|s: SignatureView| #[trigger] is_registered(registry, name, s) && s.terminator
}

/// Whether nothing in a block follows what ends it, and the block yields as
/// many values as the operation that owns it gives.
pub open spec fn is_ended(
    m: ModuleView,
    registry: Seq<SignatureView>,
    o: OperationView,
    block: BlockId,
) -> bool {
    let ops = m.live(m.block(block).ops);
    &&& forall|i: int|
        0 <= i < ops.len() - 1 ==> !ends_a_block(registry, m.op(#[trigger] ops[i]).name)
    &&& o.results.len() > 0 && !is_called(o, "agent"@, "func"@) ==> {
        &&& ops.len() > 0
        &&& is_called(m.op(ops.last()), "control"@, "yield"@)
        &&& m.op(ops.last()).operands.len() == o.results.len()
    }
}

/// Whether a value is a guess: a model gave it, with less confidence than the
/// threshold asks for.
pub open spec fn is_a_guess(m: ModuleView, value: ValueId, threshold: Number) -> bool {
    let p = m.value(value).provenance;
    p.source == Source::Llm && number_lt(p.confidence, threshold)
}

/// Whether a value was checked before an operation.
pub open spec fn was_checked(m: ModuleView, value: ValueId, op: OperationId) -> bool {
    exists|check: OperationId| #[trigger]
        ran_before(m, check, op) && is_called(m.op(check), "agent"@, "verify"@) && m.op(
            check,
        ).operands.contains(value)
}

/// Whether an operation keeps every rule that can be told from the program.
pub open spec fn keeps_the_rules(
    m: ModuleView,
    registry: Seq<SignatureView>,
    threshold: Number,
    op: OperationId,
) -> bool {
    let o = m.op(op);
    &&& is_in_a_dialect(registry, o)
    &&& forall|k: int|
        0 <= k < o.operands.len() ==> is_produced_before(m, #[trigger] o.operands[k], op)
    &&& touches_the_world(m, op) ==> forall|k: int|
        0 <= k < o.operands.len() ==> m.value(#[trigger] o.operands[k]).ty != TypeView::Unknown && (
        is_a_guess(m, o.operands[k], threshold) ==> was_checked(m, o.operands[k], op))
    &&& o.effect is Irreversible ==> exists|guard: OperationId| #[trigger]
        ran_before(m, guard, op) && names_a_capability(m, guard, o.effect)
    &&& is_called(o, "control"@, "loop"@) || is_called(o, "control"@, "while"@) ==> (lookup(
        o.attributes,
        "max_iterations"@,
    ) matches Some(AttributeView::Int(bound)) && bound > 0)
    &&& is_called(o, "control"@, "parallel"@) ==> forall|r: int|
        0 <= r < o.regions.len() ==> nothing_races(m, m.ops_in_region(#[trigger] o.regions[r]))
    &&& forall|r: int, b: int|
        0 <= r < o.regions.len() && 0 <= b < m.region(o.regions[r]).blocks.len() ==> is_ended(
            m,
            registry,
            o,
            #[trigger] m.region(o.regions[r]).blocks[b],
        )
}

/// Whether no two of some operations race.
pub open spec fn nothing_races(m: ModuleView, ops: Seq<OperationId>) -> bool {
    forall|a: int, b: int|
        0 <= a < b < ops.len() ==> !race(m, #[trigger] ops[a], #[trigger] ops[b])
}

// ----------------------------------------------------------------- findings

proof fn together(a: Seq<DiagnosticView>, b: Seq<DiagnosticView>)
    ensures
        rejects(a + b) == (rejects(a) || rejects(b)),
{
    crate::acceptance::parts_reject(a, b);
    if rejects(a + b) {
        let i = choose|i: int| 0 <= i < (a + b).len() && (#[trigger] (a + b)[i]).is_error();
        if i < a.len() {
            assert(a[i].is_error());
        } else {
            assert(b[i - a.len()].is_error());
        }
    }
}

proof fn one_error(condition: bool, finding: DiagnosticView)
    requires
        finding.is_error(),
    ensures
        rejects(report_if(condition, finding)) == condition,
        rejects(seq![finding]),
        !rejects(Seq::<DiagnosticView>::empty()),
{
    assert(seq![finding][0].is_error());
}

proof fn registered_is_found(registry: Seq<SignatureView>, name: OpNameView, i: int)
    requires
        0 <= i <= registry.len(),
        forall|k: int| 0 <= k < i ==> (#[trigger] registry[k]).name != name,
    ensures
        forall|s: SignatureView| #[trigger]
            is_registered(registry, name, s) <==> signature_of(registry, name, i) == Some(s),
    decreases registry.len() - i,
{
    if i < registry.len() {
        if registry[i].name == name {
            assert(is_registered(registry, name, registry[i]));
            assert forall|s: SignatureView| #[trigger]
                is_registered(registry, name, s) implies s == registry[i] by {
                let k = choose|k: int|
                    0 <= k < registry.len() && #[trigger] registry[k] == s && s.name == name
                        && forall|l: int| 0 <= l < k ==> (#[trigger] registry[l]).name != name;
                if k < i {
                    assert(registry[k].name != name);
                }
            }
        } else {
            registered_is_found(registry, name, i + 1);
        }
    } else {
        assert forall|s: SignatureView| !(#[trigger] is_registered(registry, name, s)) by {
            if is_registered(registry, name, s) {
                let k = choose|k: int|
                    0 <= k < registry.len() && #[trigger] registry[k] == s && s.name == name
                        && forall|l: int| 0 <= l < k ==> (#[trigger] registry[l]).name != name;
                assert(registry[k].name != name);
            }
        }
    }
}

proof fn attributes_judged(o: OperationView, required: Seq<(Seq<char>, AttrKind)>, n: int)
    requires
        0 <= n <= required.len(),
    ensures
        !rejects(attrs_findings(o, required, n)) == (forall|k: int|
            0 <= k < n ==> (lookup(o.attributes, (#[trigger] required[k]).0) matches Some(a)
                && is_of_kind(a, required[k].1))),
    decreases n,
{
    if n > 0 {
        attributes_judged(o, required, n - 1);
        let last = crate::rules::attr_findings(o, required[n - 1].0, required[n - 1].1);
        together(attrs_findings(o, required, n - 1), last);
        if last.len() > 0 {
            assert(last[0].is_error());
        }
    }
}

proof fn shape_judged(o: OperationView, registry: Seq<SignatureView>)
    ensures
        !rejects(signature_findings(o, registry)) == is_in_a_dialect(registry, o),
{
    registered_is_found(registry, o.name, 0);
    match signature_of(registry, o.name, 0) {
        None => {
            assert(signature_findings(o, registry)[0].is_error());
            assert forall|s: SignatureView| !(#[trigger] is_registered(registry, o.name, s)) by {}
        },
        Some(s) => {
            assert(is_registered(registry, o.name, s));
            let a = count_findings(
                o,
                s.operands,
                o.operands.len(),
                "` takes "@,
                " operand(s) but was given "@,
            );
            let b = count_findings(
                o,
                s.results,
                o.results.len(),
                "` produces "@,
                " result(s) but declares "@,
            );
            let c = count_findings(
                o,
                s.regions,
                o.regions.len(),
                "` owns "@,
                " region(s) but has "@,
            );
            let d = literal_findings(o, s);
            let e = attrs_findings(o, s.required_attrs, s.required_attrs.len() as int);
            let f = effect_findings(o, s);
            together(a + b + c + d + e, f);
            together(a + b + c + d, e);
            together(a + b + c, d);
            together(a + b, c);
            together(a, b);
            attributes_judged(o, s.required_attrs, s.required_attrs.len() as int);
            if a.len() > 0 {
                assert(a[0].is_error());
            }
            if b.len() > 0 {
                assert(b[0].is_error());
            }
            if c.len() > 0 {
                assert(c[0].is_error());
            }
            if d.len() > 0 {
                assert(d[0].is_error());
            }
            if f.len() > 0 {
                assert(f[0].is_error());
            }
            assert(signature_findings(o, registry) == shape_findings(o, s));
            assert(!rejects(shape_findings(o, s)) == has_shape(o, s));
        },
    }
}

proof fn dominance_judged(m: ModuleView, o: OperationView, n: int)
    requires
        m.well_formed(),
        m.program_order(m.body).contains(o.id),
        0 <= n <= o.operands.len(),
        forall|k: int| 0 <= k < o.operands.len() ==> m.has_value(#[trigger] o.operands[k]),
    ensures
        !rejects(dominance_findings(m, o, n)) == (forall|k: int|
            0 <= k < n ==> is_produced_before(m, #[trigger] o.operands[k], o.id)),
    decreases n,
{
    if n > 0 {
        dominance_judged(m, o, n - 1);
        let before = dominance_findings(m, o, n - 1);
        let last = dominance_findings(m, o, n).skip(before.len() as int);
        assert(dominance_findings(m, o, n) =~= before + last);
        together(before, last);
        assert(m.has_value(o.operands[n - 1]));
        dominating_is_produced_before(m, o.operands[n - 1], o.id);
        if last.len() > 0 {
            assert(last[0].is_error());
        }
    }
}

proof fn types_judged(m: ModuleView, table: Seq<Seq<EffectView>>, o: OperationView, n: int)
    requires
        0 <= n <= o.operands.len(),
    ensures
        !rejects(unknown_findings(m, table, o, n)) == (forall|k: int|
            0 <= k < n ==> m.value(#[trigger] o.operands[k]).ty != TypeView::Unknown),
    decreases n,
{
    if n > 0 {
        types_judged(m, table, o, n - 1);
        let before = unknown_findings(m, table, o, n - 1);
        let last = unknown_findings(m, table, o, n).skip(before.len() as int);
        assert(unknown_findings(m, table, o, n) =~= before + last);
        together(before, last);
        if last.len() > 0 {
            assert(last[0].is_error());
        }
    }
}

proof fn checks_judged(m: ModuleView, op: OperationId, value: ValueId)
    requires
        m.well_formed(),
        m.program_order(m.body).contains(op),
    ensures
        crate::rules::is_verified(m, op, value) == was_checked(m, value, op),
{
    let all = preceding(m, op);
    if crate::rules::is_verified(m, op, value) {
        let i = choose|i: int|
            0 <= i < all.len() && m.op(#[trigger] all[i]).name.is("agent"@, "verify"@) && m.op(
                all[i],
            ).operands.contains(value);
        assert(all.contains(all[i]));
        preceding_is_what_ran_before(m, all[i], op);
    }
    if was_checked(m, value, op) {
        let check = choose|check: OperationId| #[trigger]
            ran_before(m, check, op) && is_called(m.op(check), "agent"@, "verify"@) && m.op(
                check,
            ).operands.contains(value);
        preceding_is_what_ran_before(m, check, op);
        let i = choose|i: int| 0 <= i < all.len() && all[i] == check;
        assert(m.op(all[i]).name.is("agent"@, "verify"@));
    }
}

proof fn guesses_judged(
    m: ModuleView,
    table: Seq<Seq<EffectView>>,
    threshold: Number,
    o: OperationView,
    n: int,
)
    requires
        m.well_formed(),
        m.program_order(m.body).contains(o.id),
        0 <= n <= o.operands.len(),
    ensures
        !rejects(guess_findings(m, table, threshold, o, n)) == (forall|k: int|
            0 <= k < n && is_a_guess(m, #[trigger] o.operands[k], threshold) ==> was_checked(
                m,
                o.operands[k],
                o.id,
            )),
    decreases n,
{
    if n > 0 {
        guesses_judged(m, table, threshold, o, n - 1);
        let before = guess_findings(m, table, threshold, o, n - 1);
        let last = guess_findings(m, table, threshold, o, n).skip(before.len() as int);
        assert(guess_findings(m, table, threshold, o, n) =~= before + last);
        together(before, last);
        checks_judged(m, o.id, o.operands[n - 1]);
        if last.len() > 0 {
            assert(last[0].is_error());
        }
    }
}

proof fn guards_judged(m: ModuleView, o: OperationView)
    requires
        m.well_formed(),
        m.capabilities.well_formed(),
        m.program_order(m.body).contains(o.id),
    ensures
        !rejects(guard_findings(m, o)) == (o.effect is Irreversible ==> exists|guard: OperationId|
         #[trigger]
            ran_before(m, guard, o.id) && names_a_capability(m, guard, o.effect)),
{
    let all = preceding(m, o.id);
    let found = guard_findings(m, o);
    if found.len() > 0 {
        assert(found[0].is_error());
    }
    if crate::rules::is_guarded(m, o) {
        let i = choose|i: int|
            0 <= i < all.len() && crate::rules::checks(m, #[trigger] all[i], o.effect);
        assert(all.contains(all[i]));
        preceding_is_what_ran_before(m, all[i], o.id);
        crate::precedence::checking_names_a_capability(m, all[i], o.effect);
        assert(ran_before(m, all[i], o.id));
    }
    if exists|guard: OperationId| #[trigger]
        ran_before(m, guard, o.id) && names_a_capability(m, guard, o.effect) {
        let guard = choose|guard: OperationId| #[trigger]
            ran_before(m, guard, o.id) && names_a_capability(m, guard, o.effect);
        preceding_is_what_ran_before(m, guard, o.id);
        crate::precedence::checking_names_a_capability(m, guard, o.effect);
        let i = choose|i: int| 0 <= i < all.len() && all[i] == guard;
        assert(crate::rules::checks(m, all[i], o.effect));
    }
}

proof fn loops_judged(o: OperationView)
    ensures
        !rejects(loop_findings(o)) == (is_called(o, "control"@, "loop"@) || is_called(
            o,
            "control"@,
            "while"@,
        ) ==> (lookup(o.attributes, "max_iterations"@) matches Some(AttributeView::Int(bound))
            && bound > 0)),
{
    let found = loop_findings(o);
    if found.len() > 0 {
        assert(found[0].is_error());
    }
}

proof fn pairs_judged(m: ModuleView, ops: Seq<OperationId>, i: int, n: int)
    requires
        m.well_formed(),
        0 <= i < ops.len(),
        n <= ops.len(),
        forall|k: int| 0 <= k < ops.len() ==> m.program_order(m.body).contains(#[trigger] ops[k]),
    ensures
        !rejects(pair_findings(m, effect_table(m), ops, i, n)) == (forall|k: int|
            i < k < n ==> !race(m, ops[i], #[trigger] ops[k])),
    decreases n - i,
{
    let table = effect_table(m);
    if n > i + 1 {
        pairs_judged(m, ops, i, n - 1);
        let before = pair_findings(m, table, ops, i, n - 1);
        let last = pair_findings(m, table, ops, i, n).skip(before.len() as int);
        assert(pair_findings(m, table, ops, i, n) =~= before + last);
        together(before, last);
        conflicts_are_races(m, ops[i], ops[n - 1]);
        if last.len() > 0 {
            assert(last[0].is_error());
        }
    }
}

proof fn siblings_judged(m: ModuleView, ops: Seq<OperationId>, n: int)
    requires
        m.well_formed(),
        0 <= n <= ops.len(),
        forall|k: int| 0 <= k < ops.len() ==> m.program_order(m.body).contains(#[trigger] ops[k]),
    ensures
        !rejects(sibling_findings(m, effect_table(m), ops, n)) == (forall|a: int, b: int|
            0 <= a < n && a < b < ops.len() ==> !race(m, #[trigger] ops[a], #[trigger] ops[b])),
    decreases n,
{
    let table = effect_table(m);
    if n > 0 {
        siblings_judged(m, ops, n - 1);
        pairs_judged(m, ops, n - 1, ops.len() as int);
        together(
            sibling_findings(m, table, ops, n - 1),
            pair_findings(m, table, ops, n - 1, ops.len() as int),
        );
    }
}

proof fn regions_judged(m: ModuleView, regions: Seq<RegionId>, n: int)
    requires
        m.well_formed(),
        0 <= n <= regions.len(),
        forall|r: int, k: int|
            0 <= r < regions.len() && 0 <= k < m.ops_in_region(regions[r]).len()
                ==> m.program_order(m.body).contains(#[trigger] m.ops_in_region(regions[r])[k]),
    ensures
        !rejects(concurrency_findings(m, effect_table(m), regions, n)) == (forall|r: int|
            0 <= r < n ==> nothing_races(m, m.ops_in_region(#[trigger] regions[r]))),
    decreases n,
{
    let table = effect_table(m);
    if n > 0 {
        regions_judged(m, regions, n - 1);
        let ops = m.ops_in_region(regions[n - 1]);
        assert forall|k: int| 0 <= k < ops.len() implies m.program_order(m.body).contains(
            #[trigger] ops[k],
        ) by {
            assert(m.program_order(m.body).contains(m.ops_in_region(regions[n - 1])[k]));
        }
        siblings_judged(m, ops, ops.len() as int);
        together(
            concurrency_findings(m, table, regions, n - 1),
            sibling_findings(m, table, ops, ops.len() as int),
        );
    }
}

proof fn ends_judged(m: ModuleView, registry: Seq<SignatureView>, ops: Seq<OperationId>, n: int)
    requires
        0 <= n <= ops.len(),
    ensures
        !rejects(early_end_findings(m, registry, ops, n)) == (forall|i: int|
            0 <= i < n && i < ops.len() - 1 ==> !ends_a_block(registry, m.op(#[trigger] ops[i]).name)),
    decreases n,
{
    if n > 0 {
        ends_judged(m, registry, ops, n - 1);
        let before = early_end_findings(m, registry, ops, n - 1);
        let last = early_end_findings(m, registry, ops, n).skip(before.len() as int);
        assert(early_end_findings(m, registry, ops, n) =~= before + last);
        together(before, last);
        let name = m.op(ops[n - 1]).name;
        registered_is_found(registry, name, 0);
        if let Some(s) = signature_of(registry, name, 0) {
            assert(is_registered(registry, name, s));
        }
        if last.len() > 0 {
            assert(last[0].is_error());
        }
    }
}

proof fn blocks_judged(
    m: ModuleView,
    registry: Seq<SignatureView>,
    o: OperationView,
    blocks: Seq<BlockId>,
    n: int,
)
    requires
        0 <= n <= blocks.len(),
    ensures
        !rejects(block_end_findings(m, registry, o, blocks, n)) == (forall|b: int|
            0 <= b < n ==> is_ended(m, registry, o, #[trigger] blocks[b])),
    decreases n,
{
    if n > 0 {
        blocks_judged(m, registry, o, blocks, n - 1);
        let ops = m.live(m.block(blocks[n - 1]).ops);
        let before = block_end_findings(m, registry, o, blocks, n - 1);
        let early = early_end_findings(m, registry, ops, ops.len() as int);
        let yields = yield_findings(m, o, ops);
        ends_judged(m, registry, ops, ops.len() as int);
        together(before + early, yields);
        together(before, early);
        if yields.len() > 0 {
            assert(yields[0].is_error());
        }
    }
}

proof fn terminators_judged(m: ModuleView, registry: Seq<SignatureView>, o: OperationView, n: int)
    requires
        0 <= n <= o.regions.len(),
    ensures
        !rejects(terminator_findings(m, registry, o, n)) == (forall|r: int, b: int|
            0 <= r < n && 0 <= b < m.region(o.regions[r]).blocks.len() ==> is_ended(
                m,
                registry,
                o,
                #[trigger] m.region(o.regions[r]).blocks[b],
            )),
    decreases n,
{
    if n > 0 {
        terminators_judged(m, registry, o, n - 1);
        let blocks = m.region(o.regions[n - 1]).blocks;
        blocks_judged(m, registry, o, blocks, blocks.len() as int);
        together(
            terminator_findings(m, registry, o, n - 1),
            block_end_findings(m, registry, o, blocks, blocks.len() as int),
        );
        if rejects(terminator_findings(m, registry, o, n)) {
            if !rejects(terminator_findings(m, registry, o, n - 1)) {
                let b = choose|b: int|
                    0 <= b < blocks.len() && !is_ended(m, registry, o, #[trigger] blocks[b]);
                assert(!is_ended(m, registry, o, m.region(o.regions[n - 1]).blocks[b]));
            }
        }
    }
}

// ------------------------------------------------------------------ nesting

/// Whether a live operation stands in a block of a region that another one owns.
pub open spec fn is_directly_inside(m: ModuleView, op: OperationId, owner: OperationId) -> bool {
    !m.op(op).erased && exists|r: int, b: int, k: int|
        0 <= r < m.op(owner).regions.len() && 0 <= b < m.region(
            m.op(owner).regions[r],
        ).blocks.len() && 0 <= k < m.block(m.region(m.op(owner).regions[r]).blocks[b]).ops.len()
            && #[trigger] m.block(m.region(m.op(owner).regions[r]).blocks[b]).ops[k] == op
}

/// Whether a list holds whatever stands in what it holds.
spec fn is_closed(m: ModuleView, w: Seq<OperationId>) -> bool {
    forall|j: int, op: OperationId|
        0 <= j < w.len() && #[trigger] is_directly_inside(m, op, w[j]) ==> w.contains(op)
}

proof fn closed_together(m: ModuleView, a: Seq<OperationId>, b: Seq<OperationId>)
    requires
        is_closed(m, a),
        is_closed(m, b),
    ensures
        is_closed(m, a + b),
{
    let w = a + b;
    assert forall|j: int, op: OperationId|
        0 <= j < w.len() && #[trigger] is_directly_inside(m, op, w[j]) implies w.contains(op) by {
        if j < a.len() {
            assert(is_directly_inside(m, op, a[j]));
            let i = choose|i: int| 0 <= i < a.len() && a[i] == op;
            assert(w[i] == op);
        } else {
            assert(is_directly_inside(m, op, b[j - a.len()]));
            let i = choose|i: int| 0 <= i < b.len() && b[i] == op;
            assert(w[a.len() + i] == op);
        }
    }
}

proof fn closed_blocks(m: ModuleView, levels: Seq<nat>, region: RegionId, i: int, fuel: nat)
    requires
        m.in_bounds(),
        m.leveled(levels),
        m.has_region(region),
        0 <= i,
        fuel + levels[region.spec_index()] >= m.regions.len(),
    ensures
        is_closed(m, m.walk_blocks(m.region(region).blocks, i, fuel)),
    decreases fuel, 2int, m.region(region).blocks.len() - i,
{
    let blocks = m.region(region).blocks;
    assert(m.region_in_bounds(m.regions[region.spec_index()]));
    if i < blocks.len() {
        assert(m.has_block(blocks[i]));
        closed_ops(m, levels, region, i, 0, fuel);
        closed_blocks(m, levels, region, i + 1, fuel);
        closed_together(
            m,
            m.walk_ops(m.block(blocks[i]).ops, 0, fuel),
            m.walk_blocks(blocks, i + 1, fuel),
        );
    }
}

proof fn closed_ops(m: ModuleView, levels: Seq<nat>, region: RegionId, b: int, i: int, fuel: nat)
    requires
        m.in_bounds(),
        m.leveled(levels),
        m.has_region(region),
        0 <= b < m.region(region).blocks.len(),
        0 <= i,
        fuel + levels[region.spec_index()] >= m.regions.len(),
    ensures
        is_closed(m, m.walk_ops(m.block(m.region(region).blocks[b]).ops, i, fuel)),
    decreases fuel, 1int, m.block(m.region(region).blocks[b]).ops.len() - i,
{
    let r = region.spec_index() as int;
    let block = m.region(region).blocks[b];
    let ops = m.block(block).ops;
    assert(m.region_in_bounds(m.regions[r]));
    assert(m.has_block(m.region(region).blocks[b]));
    assert(m.block_in_bounds(m.blocks[block.spec_index()]));
    if i < ops.len() {
        closed_ops(m, levels, region, b, i + 1, fuel);
        let op = ops[i];
        let rest = m.walk_ops(ops, i + 1, fuel);
        if !m.op(op).erased {
            assert(m.has_op(ops[i]));
            assert(m.op_in_bounds(m.ops[op.spec_index()]));
            let regions = m.op(op).regions;
            assert forall|n: int| 0 <= n < regions.len() implies levels[(
            #[trigger] regions[n]).spec_index()] > levels[r] && levels[regions[n].spec_index()]
                < m.regions.len() by {
                assert(m.has_region(regions[n]));
                assert(m.has_child(r, b, i, n));
                assert(m.child(r, b, i, n) == regions[n]);
            }
            closed_regions(m, levels, op, r, 0, fuel);
            let nested = m.walk_regions(regions, 0, fuel);
            let own = seq![op] + nested;
            let inside = |x: OperationId| nested.contains(x);
            assert(crate::acceptance::all_hold(nested, inside)) by {
                assert forall|k: int| 0 <= k < nested.len() implies inside(#[trigger] nested[k]) by {
                    assert(nested.contains(nested[k]));
                }
            }
            assert forall|j: int, x: OperationId|
                0 <= j < own.len() && #[trigger] is_directly_inside(
                    m,
                    x,
                    own[j],
                ) implies own.contains(x) by {
                if j == 0 {
                    let (n, c, k) = choose|n: int, c: int, k: int|
                        0 <= n < regions.len() && 0 <= c < m.region(regions[n]).blocks.len() && 0
                            <= k < m.block(m.region(regions[n]).blocks[c]).ops.len()
                            && #[trigger] m.block(m.region(regions[n]).blocks[c]).ops[k] == x;
                    assert(levels[regions[n].spec_index()] > levels[r]);
                    let less = (fuel - 1) as nat;
                    crate::acceptance::walked_regions(m, regions, 0, fuel, n, inside);
                    let blocks = m.region(regions[n]).blocks;
                    crate::acceptance::walked_blocks(m, blocks, 0, less, c, inside);
                    crate::acceptance::walked_operations(
                        m,
                        m.block(blocks[c]).ops,
                        0,
                        less,
                        k,
                        inside,
                    );
                    let at = choose|at: int| 0 <= at < nested.len() && nested[at] == x;
                    assert(own[at + 1] == x);
                } else {
                    assert(is_directly_inside(m, x, nested[j - 1]));
                    let at = choose|at: int| 0 <= at < nested.len() && nested[at] == x;
                    assert(own[at + 1] == x);
                }
            }
            closed_together(m, own, rest);
            assert(m.walk_ops(ops, i, fuel) =~= own + rest);
        }
    }
}

proof fn closed_regions(m: ModuleView, levels: Seq<nat>, op: OperationId, r: int, i: int, fuel: nat)
    requires
        m.in_bounds(),
        m.leveled(levels),
        m.has_op(op),
        0 <= r < m.regions.len(),
        0 <= i,
        fuel + levels[r] >= m.regions.len(),
        forall|n: int|
            0 <= n < m.op(op).regions.len() ==> levels[(
            #[trigger] m.op(op).regions[n]).spec_index()] > levels[r],
    ensures
        is_closed(m, m.walk_regions(m.op(op).regions, i, fuel)),
    decreases fuel, 0int, m.op(op).regions.len() - i,
{
    let regions = m.op(op).regions;
    assert(m.op_in_bounds(m.ops[op.spec_index()]));
    if i < regions.len() && fuel > 0 {
        assert(m.has_region(regions[i]));
        assert(levels[regions[i].spec_index()] > levels[r]);
        let less = (fuel - 1) as nat;
        closed_blocks(m, levels, regions[i], 0, less);
        closed_regions(m, levels, op, r, i + 1, fuel);
        closed_together(
            m,
            m.walk_blocks(m.region(regions[i]).blocks, 0, less),
            m.walk_regions(regions, i + 1, fuel),
        );
    }
}

/// A program holds whatever stands in what it holds.
pub proof fn programs_hold_what_is_nested(m: ModuleView, op: OperationId, owner: OperationId)
    requires
        m.well_formed(),
        m.program_order(m.body).contains(owner),
        is_directly_inside(m, op, owner),
    ensures
        m.program_order(m.body).contains(op),
{
    let levels = choose|levels: Seq<nat>| m.leveled(levels);
    closed_blocks(m, levels, m.body, 0, m.regions.len());
    let order = m.program_order(m.body);
    let j = choose|j: int| 0 <= j < order.len() && order[j] == owner;
    assert(is_directly_inside(m, op, order[j]));
}

/// What counts as nested in an operation of a program holds the operation and
/// whatever stands in what it holds.
pub proof fn subtrees_hold_what_is_nested(
    m: ModuleView,
    owner: OperationId,
    op: OperationId,
    inner: OperationId,
)
    requires
        m.well_formed(),
        m.program_order(m.body).contains(owner),
        m.subtree(owner).contains(op),
        is_directly_inside(m, inner, op),
    ensures
        m.subtree(owner).contains(owner),
        m.subtree(owner).contains(inner),
{
    let levels = choose|levels: Seq<nat>| m.leveled(levels);
    let order = m.program_order(m.body);
    let fuel = m.regions.len() + 1;
    let regions = m.op(owner).regions;
    let nested = m.walk_regions(regions, 0, fuel);
    let own = m.subtree(owner);
    crate::traversal::walks_are_live(m, m.body);
    let at = choose|at: int| 0 <= at < order.len() && order[at] == owner;
    assert(m.has_op(order[at]));
    let i = owner.spec_index() as int;
    assert(m.op_in_bounds(m.ops[i]));
    assert(m.ops[i].id == owner);
    assert(own[0] == owner);
    crate::precedence::programs_are_placed(m, owner);
    let outer = m.region_of(owner)->0;
    let r = outer.spec_index() as int;
    assert(m.block_in_bounds(m.blocks[m.op(owner).parent->0.spec_index() as int]));
    assert forall|n: int| 0 <= n < regions.len() implies levels[(
    #[trigger] regions[n]).spec_index()] > levels[r] by {
        assert(m.has_region(regions[n]));
        assert(m.region(regions[n]).parent == Some(owner));
        let k = regions[n].spec_index() as int;
        assert(m.inside_owner(levels, m.regions[k]));
        assert(m.regions[k].id.spec_index() == k);
    }
    closed_regions(m, levels, owner, r, 0, fuel);
    let inside = |x: OperationId| nested.contains(x);
    assert(crate::acceptance::all_hold(nested, inside)) by {
        assert forall|k: int| 0 <= k < nested.len() implies inside(#[trigger] nested[k]) by {
            assert(nested.contains(nested[k]));
        }
    }
    let j = choose|j: int| 0 <= j < own.len() && own[j] == op;
    if j == 0 {
        let (n, c, k) = choose|n: int, c: int, k: int|
            0 <= n < regions.len() && 0 <= c < m.region(regions[n]).blocks.len() && 0 <= k < m.block(
                m.region(regions[n]).blocks[c],
            ).ops.len() && #[trigger] m.block(m.region(regions[n]).blocks[c]).ops[k] == inner;
        let less = (fuel - 1) as nat;
        crate::acceptance::walked_regions(m, regions, 0, fuel, n, inside);
        let blocks = m.region(regions[n]).blocks;
        crate::acceptance::walked_blocks(m, blocks, 0, less, c, inside);
        crate::acceptance::walked_operations(m, m.block(blocks[c]).ops, 0, less, k, inside);
    } else {
        assert(is_directly_inside(m, inner, nested[j - 1]));
    }
    let k = choose|k: int| 0 <= k < nested.len() && nested[k] == inner;
    assert(own[k + 1] == inner);
}

/// A program holds every live operation that stands at the top.
pub proof fn programs_hold_the_top(m: ModuleView, b: int, k: int)
    requires
        0 <= b < m.region(m.body).blocks.len(),
        0 <= k < m.block(m.region(m.body).blocks[b]).ops.len(),
        !m.op(m.block(m.region(m.body).blocks[b]).ops[k]).erased,
    ensures
        m.program_order(m.body).contains(m.block(m.region(m.body).blocks[b]).ops[k]),
{
    let order = m.program_order(m.body);
    let blocks = m.region(m.body).blocks;
    let inside = |x: OperationId| order.contains(x);
    assert(crate::acceptance::all_hold(order, inside)) by {
        assert forall|i: int| 0 <= i < order.len() implies inside(#[trigger] order[i]) by {
            assert(order.contains(order[i]));
        }
    }
    crate::acceptance::walked_blocks(m, blocks, 0, m.regions.len(), b, inside);
    crate::acceptance::walked_operations(
        m,
        m.block(blocks[b]).ops,
        0,
        m.regions.len(),
        k,
        inside,
    );
}

// ------------------------------------------------------------------ verdict

proof fn operation_judged(
    m: ModuleView,
    registry: Seq<SignatureView>,
    threshold: Number,
    op: OperationId,
)
    requires
        m.well_formed(),
        m.capabilities.well_formed(),
        m.program_order(m.body).contains(op),
    ensures
        !rejects(op_findings(m, registry, effect_table(m), threshold, op)) == keeps_the_rules(
            m,
            registry,
            threshold,
            op,
        ),
{
    let table = effect_table(m);
    let o = m.op(op);
    let order = m.program_order(m.body);
    let n = o.operands.len() as int;
    crate::traversal::walks_are_live(m, m.body);
    let j = choose|j: int| 0 <= j < order.len() && order[j] == op;
    assert(m.has_op(order[j]));
    assert(m.ops[op.spec_index()].id == OperationId::at(op.spec_index()));
    assert(o.id == op);
    assert(m.op_in_bounds(m.ops[op.spec_index()]));
    assert forall|k: int| 0 <= k < o.operands.len() implies m.has_value(
        #[trigger] o.operands[k],
    ) by {}
    let a = signature_findings(o, registry);
    let b = dominance_findings(m, o, n);
    let c = type_findings(m, table, o);
    let d = guard_findings(m, o);
    let e = confidence_findings(m, table, threshold, o);
    let f = loop_findings(o);
    let g = parallel_findings(m, table, o);
    let h = terminator_findings(m, registry, o, o.regions.len() as int);
    together(a + b + c + d + e + f + g, h);
    together(a + b + c + d + e + f, g);
    together(a + b + c + d + e, f);
    together(a + b + c + d, e);
    together(a + b + c, d);
    together(a + b, c);
    together(a, b);
    shape_judged(o, registry);
    dominance_judged(m, o, n);
    purity_is_nested(m, op);
    types_judged(m, table, o, n);
    guesses_judged(m, table, threshold, o, n);
    guards_judged(m, o);
    loops_judged(o);
    assert forall|r: int, k: int|
        0 <= r < o.regions.len() && 0 <= k < m.ops_in_region(
            o.regions[r],
        ).len() implies order.contains(#[trigger] m.ops_in_region(o.regions[r])[k]) by {
        let blocks = m.region(o.regions[r]).blocks;
        crate::acceptance::direct_operations(m, blocks, blocks.len() as int, k);
        let (x, y) = choose|x: int, y: int|
            0 <= x < blocks.len() && 0 <= y < m.block(blocks[x]).ops.len() && #[trigger] m.block(
                blocks[x],
            ).ops[y] == m.live_ops(blocks, blocks.len() as int)[k] && !m.op(
                m.block(blocks[x]).ops[y],
            ).erased;
        let child = m.block(m.region(m.op(op).regions[r]).blocks[x]).ops[y];
        assert(is_directly_inside(m, child, op));
        programs_hold_what_is_nested(m, child, op);
    }
    regions_judged(m, o.regions, o.regions.len() as int);
    terminators_judged(m, registry, o, o.regions.len() as int);
}

proof fn operations_judged(
    m: ModuleView,
    registry: Seq<SignatureView>,
    threshold: Number,
    ops: Seq<OperationId>,
    n: int,
)
    requires
        m.well_formed(),
        m.capabilities.well_formed(),
        0 <= n <= ops.len(),
        forall|i: int| 0 <= i < ops.len() ==> m.program_order(m.body).contains(#[trigger] ops[i]),
    ensures
        !rejects(ops_findings(m, registry, effect_table(m), threshold, ops, n)) == (forall|i: int|
            0 <= i < n ==> keeps_the_rules(m, registry, threshold, #[trigger] ops[i])),
    decreases n,
{
    let table = effect_table(m);
    if n > 0 {
        operations_judged(m, registry, threshold, ops, n - 1);
        operation_judged(m, registry, threshold, ops[n - 1]);
        together(
            ops_findings(m, registry, table, threshold, ops, n - 1),
            op_findings(m, registry, table, threshold, ops[n - 1]),
        );
    }
}

proof fn tops_judged(m: ModuleView, ops: Seq<OperationId>, n: int)
    requires
        0 <= n <= ops.len(),
    ensures
        !rejects(top_level_findings(m, ops, n)) == (forall|i: int|
            0 <= i < n ==> is_called(m.op(#[trigger] ops[i]), "agent"@, "func"@)),
    decreases n,
{
    if n > 0 {
        tops_judged(m, ops, n - 1);
        let before = top_level_findings(m, ops, n - 1);
        let last = top_level_findings(m, ops, n).skip(before.len() as int);
        assert(top_level_findings(m, ops, n) =~= before + last);
        together(before, last);
        if last.len() > 0 {
            assert(last[0].is_error());
        }
    }
}

proof fn first_is_found(caps: CapabilitySetView, e: EffectView, from: int)
    requires
        0 <= from <= caps.capabilities.len(),
        forall|k: int| 0 <= k < from ==> !allows(#[trigger] caps.capabilities[k].1, e),
    ensures
        ({
            let i = caps.first_covering(e, from);
            &&& 0 <= i <= caps.capabilities.len()
            &&& forall|k: int| 0 <= k < i ==> !allows(#[trigger] caps.capabilities[k].1, e)
            &&& i < caps.capabilities.len() ==> allows(caps.capabilities[i].1, e)
        }),
    decreases caps.capabilities.len() - from,
{
    if from < caps.capabilities.len() && !caps.capabilities[from].1.covers(e) {
        first_is_found(caps, e, from + 1);
    }
}

proof fn safety_judged(m: ModuleView, ops: Seq<OperationId>, n: int)
    requires
        0 <= n <= ops.len(),
    ensures
        !rejects(safety_findings(m, ops, n)) == (forall|i: int|
            0 <= i < n ==> may_have(m.capabilities, m.op(#[trigger] ops[i]).effect)),
    decreases n,
{
    if n > 0 {
        safety_judged(m, ops, n - 1);
        let before = safety_findings(m, ops, n - 1);
        let last = safety_findings_of(m, ops[n - 1]);
        together(before, last);
        let caps = m.capabilities;
        let e = m.op(ops[n - 1]).effect;
        first_is_found(caps, e, 0);
        let i = caps.first_covering(e, 0);
        if last.len() > 0 {
            assert(last[0].is_error());
        }
        if may_have(caps, e) && !(e is Pure) {
            let k = choose|k: int|
                {
                    &&& 0 <= k < caps.capabilities.len()
                    &&& allows(#[trigger] caps.capabilities[k].1, e)
                    &&& caps.capabilities[k].1.requires_approval ==> caps.approvals.contains(
                        caps.capabilities[k].1.name,
                    )
                    &&& forall|l: int| 0 <= l < k ==> !allows(#[trigger] caps.capabilities[l].1, e)
                };
            if k < i {
                assert(!allows(caps.capabilities[k].1, e));
            } else if i < k {
                assert(!allows(caps.capabilities[i].1, e));
            }
        }
        if last.len() == 0 && !(e is Pure) {
            assert(allows(caps.capabilities[i].1, e));
        }
    }
}

/// A program is accepted exactly when every operation of it keeps the rules and
/// has an effect that the agent may have, and only functions stand at the top.
pub proof fn the_verdict_is_exact(
    m: ModuleView,
    registry: Seq<SignatureView>,
    threshold: Number,
)
    requires
        m.well_formed(),
        m.capabilities.well_formed(),
    ensures
        !rejects(all_findings(m, registry, effect_table(m), threshold)) <==> {
            &&& forall|i: int|
                0 <= i < m.program_order(m.body).len() ==> keeps_the_rules(
                    m,
                    registry,
                    threshold,
                    #[trigger] m.program_order(m.body)[i],
                )
            &&& forall|i: int|
                0 <= i < m.program_order(m.body).len() ==> may_have(
                    m.capabilities,
                    m.op(#[trigger] m.program_order(m.body)[i]).effect,
                )
            &&& forall|i: int|
                0 <= i < m.ops_in_region(m.body).len() ==> is_called(
                    m.op(#[trigger] m.ops_in_region(m.body)[i]),
                    "agent"@,
                    "func"@,
                )
        },
{
    let table = effect_table(m);
    let order = m.program_order(m.body);
    let tops = m.ops_in_region(m.body);
    assert forall|i: int| 0 <= i < order.len() implies order.contains(#[trigger] order[i]) by {}
    operations_judged(m, registry, threshold, order, order.len() as int);
    tops_judged(m, tops, tops.len() as int);
    safety_judged(m, order, order.len() as int);
    together(
        ops_findings(m, registry, table, threshold, order, order.len() as int),
        top_level_findings(m, tops, tops.len() as int),
    );
    together(
        static_findings(m, registry, table, threshold),
        safety_findings(m, order, order.len() as int),
    );
}

/// The static rules alone accept a program exactly when every operation keeps
/// them and only functions stand at the top, whatever the agent may do; the
/// safety rules alone, exactly when it may have every effect.
pub proof fn each_phase_is_exact(m: ModuleView, registry: Seq<SignatureView>, threshold: Number)
    requires
        m.well_formed(),
        m.capabilities.well_formed(),
    ensures
        !rejects(static_findings(m, registry, effect_table(m), threshold)) <==> {
            &&& forall|i: int|
                0 <= i < m.program_order(m.body).len() ==> keeps_the_rules(
                    m,
                    registry,
                    threshold,
                    #[trigger] m.program_order(m.body)[i],
                )
            &&& forall|i: int|
                0 <= i < m.ops_in_region(m.body).len() ==> is_called(
                    m.op(#[trigger] m.ops_in_region(m.body)[i]),
                    "agent"@,
                    "func"@,
                )
        },
        !rejects(
            safety_findings(m, m.program_order(m.body), m.program_order(m.body).len() as int),
        ) <==> forall|i: int|
            0 <= i < m.program_order(m.body).len() ==> may_have(
                m.capabilities,
                m.op(#[trigger] m.program_order(m.body)[i]).effect,
            ),
{
    let table = effect_table(m);
    let order = m.program_order(m.body);
    let tops = m.ops_in_region(m.body);
    assert forall|i: int| 0 <= i < order.len() implies order.contains(#[trigger] order[i]) by {}
    operations_judged(m, registry, threshold, order, order.len() as int);
    tops_judged(m, tops, tops.len() as int);
    safety_judged(m, order, order.len() as int);
    together(
        ops_findings(m, registry, table, threshold, order, order.len() as int),
        top_level_findings(m, tops, tops.len() as int),
    );
}

} // verus!
