//! What is read where the text says nothing.
//!
//! An operation that declares no effect is pure and one without a dictionary has
//! no attributes; a result without a type has none that is known, and without a
//! provenance is trusted; a module without a version has the first.

use vstd::prelude::*;

use crate::assoc::{insert_keeps_others, insert_then_lookup, keys, lookup, sorted};
use crate::attribute::AttributeView;
use crate::effect::EffectView;
use crate::grammar::{
    attr_dict, begin_op, confidence, op_attributes, peek, validity, version, with_entry, Dictionary,
    Head, Parsing,
};
use crate::ids::{BlockId, OperationId, ValueId};
use crate::lexer::{TokView, TokenView};
use crate::module::ModuleView;
use crate::number::Number;
use crate::provenance::{Source, Validity};
use crate::types::TypeView;

verus! {

/// An operation begins with what its head says: it is pure, has no attributes and
/// no regions, and stands last in its block; each result has the name that is
/// stated, no type yet, and is trusted as something derived.
pub proof fn an_operation_begins_pure(m: ModuleView, block: BlockId, h: Head)
    requires
        m.in_bounds(),
        m.has_block(block),
        m.ops.len() <= u32::MAX,
        m.values.len() + h.names.len() <= u32::MAX + 1,
    ensures
        ({
            let after = begin_op(m, block, h);
            let o = after.ops[m.ops.len() as int];
            &&& after.ops.len() == m.ops.len() + 1
            &&& o.name == h.name
            &&& o.literal == h.literal
            &&& o.operands == h.operands
            &&& o.effect == EffectView::Pure
            &&& o.attributes.len() == 0
            &&& o.regions.len() == 0
            &&& o.parent == Some(block)
            &&& !o.erased
            &&& after.block(block).ops.last() == o.id
            &&& after.block(block).ops.len() == m.block(block).ops.len() + 1
            &&& o.results.len() == h.names.len()
            &&& forall|k: int|
                0 <= k < h.names.len() ==> {
                    let v = #[trigger] after.values[m.values.len() + k];
                    &&& v.name == Some(h.names[k])
                    &&& v.ty == TypeView::Unknown
                    &&& v.provenance.source == Source::Derived
                    &&& v.provenance.confidence == Number::spec_one()
                    &&& v.provenance.validity == Validity::Valid
                    &&& v.provenance.producer == Some(o.id)
                    &&& o.results[k] == ValueId::at(m.values.len() + k)
                }
        }),
{
    assert(m.next_op().spec_index() == m.ops.len());
}

/// The attributes of an operation are those of its dictionary; its effect is the
/// one declared there, and stays what it was where none is. Without a dictionary
/// nothing changes.
pub proof fn a_dictionary_declares_the_effect(toks: Seq<TokenView>, s: Parsing, op: OperationId)
    requires
        s.module.has_op(op),
    ensures
        match op_attributes(toks, s, op) {
            Err(e) => peek(toks, s.pos) == TokView::Punct('{') && attr_dict(toks, s.pos) is Err,
            Ok(t) => if peek(toks, s.pos) != TokView::Punct('{') {
                t == s
            } else {
                let d = attr_dict(toks, s.pos)->Ok_0.0;
                let o = t.module.op(op);
                &&& attr_dict(toks, s.pos) is Ok
                &&& o.attributes == d.attributes
                &&& d.effect is Some ==> o.effect == d.effect->0
                &&& d.effect is None ==> o.effect == s.module.op(op).effect
                &&& o.operands == s.module.op(op).operands
                &&& o.results == s.module.op(op).results
                &&& o.name == s.module.op(op).name
                &&& t.bindings == s.bindings
                &&& t.pos == attr_dict(toks, s.pos)->Ok_0.1
            },
        },
{
}

/// An entry named `effect` declares the effect and must be one; any other is an
/// attribute, and a later one of the same name replaces an earlier one.
pub proof fn an_entry_is_an_attribute_or_the_effect(
    toks: Seq<TokenView>,
    pos: int,
    d: Dictionary,
    key: Seq<char>,
    value: AttributeView,
    other: Seq<char>,
)
    requires
        sorted(keys(d.attributes)),
        other != key,
    ensures
        match with_entry(toks, pos, d, key, value) {
            Ok(after) => if key == "effect"@ {
                &&& value matches AttributeView::Effect(e) && after.effect == Some(e)
                &&& after.attributes == d.attributes
            } else {
                &&& after.effect == d.effect
                &&& lookup(after.attributes, key) == Some(value)
                &&& lookup(after.attributes, other) == lookup(d.attributes, other)
            },
            Err(_) => key == "effect"@ && !(value is Effect),
        },
{
    insert_then_lookup(d.attributes, key, value);
    insert_keeps_others(d.attributes, key, value, other);
}

/// A confidence that is not stated is full, a validity that is not stated is
/// that of something valid, and a version that is not stated is zero.
pub proof fn what_is_not_stated_is_assumed(toks: Seq<TokenView>, pos: int)
    ensures
        peek(toks, pos) != TokView::Ident("confidence"@) ==> (confidence(toks, pos) matches Ok(r)
            && r == (Number::spec_one(), pos)),
        !(peek(toks, pos) is Ident) ==> validity(toks, pos) == (Validity::Valid, pos),
        peek(toks, pos) != TokView::Ident("version"@) ==> (version(toks, pos) matches Ok(r) && r == (
            0u64,
            pos,
        )),
        Number::spec_one() == (Number::Finite { negative: false, mantissa: 1, exponent: 0 }),
{
}

} // verus!
