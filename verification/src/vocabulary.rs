//! What the dialects say of their operations.
//!
//! The vocabulary fits the rest: what the runtime evaluates itself touches
//! nothing, what goes to a tool, a model or the memory says so in its effect, and
//! an operation has the operands, the regions and the attributes that running it
//! reads.

use vstd::prelude::*;

use crate::dialects::{catalogue, Arity, AttrKind, SignatureView};
use crate::effect::EffectClass;
use crate::module::OpNameView;
use crate::plan::builtin_of;
use crate::planning::words_differ;

verus! {

/// Whether a name is that of an operation of a dialect.
pub open spec fn names(n: OpNameView, dialect: Seq<char>, name: Seq<char>) -> bool {
    n.dialect == dialect && n.name == name
}

/// Whether a signature admits effects of a kind.
pub open spec fn admits_effect(s: SignatureView, class: EffectClass) -> bool {
    s.allowed_effects.len() == 0 || s.allowed_effects.contains(class)
}

/// Whether a signature admits effects of one kind alone.
pub open spec fn admits_only(s: SignatureView, class: EffectClass) -> bool {
    s.allowed_effects.len() == 1 && s.allowed_effects[0] == class
}

/// Whether a signature asks for one attribute, of a kind.
pub open spec fn asks_for(s: SignatureView, name: Seq<char>, kind: AttrKind) -> bool {
    s.required_attrs.len() == 1 && s.required_attrs[0] == (name, kind)
}

/// The signatures, by position.
proof fn rows(i: int)
    requires
        0 <= i < catalogue().len(),
    ensures
        catalogue().len() == 26,
        i == 0 ==> names(catalogue()[i].name, "agent"@, "action"@),
        i == 1 ==> names(catalogue()[i].name, "agent"@, "budget"@),
        i == 2 ==> names(catalogue()[i].name, "agent"@, "context"@),
        i == 3 ==> names(catalogue()[i].name, "agent"@, "func"@),
        i == 4 ==> names(catalogue()[i].name, "agent"@, "input"@),
        i == 5 ==> names(catalogue()[i].name, "agent"@, "plan"@),
        i == 6 ==> names(catalogue()[i].name, "agent"@, "reject"@),
        i == 7 ==> names(catalogue()[i].name, "agent"@, "return"@),
        i == 8 ==> names(catalogue()[i].name, "agent"@, "verify"@),
        i == 9 ==> names(catalogue()[i].name, "control"@, "if"@),
        i == 10 ==> names(catalogue()[i].name, "control"@, "loop"@),
        i == 11 ==> names(catalogue()[i].name, "control"@, "parallel"@),
        i == 12 ==> names(catalogue()[i].name, "control"@, "while"@),
        i == 13 ==> names(catalogue()[i].name, "control"@, "yield"@),
        i == 14 ==> names(catalogue()[i].name, "core"@, "cast"@),
        i == 15 ==> names(catalogue()[i].name, "core"@, "cmp"@),
        i == 16 ==> names(catalogue()[i].name, "core"@, "constant"@),
        i == 17 ==> names(catalogue()[i].name, "memory"@, "read"@),
        i == 18 ==> names(catalogue()[i].name, "memory"@, "search"@),
        i == 19 ==> names(catalogue()[i].name, "memory"@, "write"@),
        i == 20 ==> names(catalogue()[i].name, "observation"@, "create"@),
        i == 21 ==> names(catalogue()[i].name, "observation"@, "error"@),
        i == 22 ==> names(catalogue()[i].name, "observation"@, "metric"@),
        i == 23 ==> names(catalogue()[i].name, "tool"@, "call"@),
        i == 24 ==> names(catalogue()[i].name, "tool"@, "capability"@),
        i == 25 ==> names(catalogue()[i].name, "tool"@, "result"@),
{
    let all = catalogue();
    assert(all.len() == 26);
}

/// Exactly the returns and the yields end a block.
pub proof fn returns_and_yields_end_a_block(i: int)
    requires
        0 <= i < catalogue().len(),
    ensures
        catalogue()[i].terminator <==> names(catalogue()[i].name, "agent"@, "return"@) || names(
            catalogue()[i].name,
            "control"@,
            "yield"@,
        ),
{
    rows(i);
    words_differ();
}

/// What the runtime evaluates itself, and a function, touches nothing; the memory
/// is read where it is read or searched and written where it is written; planning
/// asks a model; a call may have any effect but that of a model, and an action
/// any effect.
pub proof fn effects_fit_what_is_run(i: int)
    requires
        0 <= i < catalogue().len(),
    ensures
        ({
            let s = catalogue()[i];
            &&& builtin_of(s.name) is Some || names(s.name, "agent"@, "func"@) ==> admits_only(
                s,
                EffectClass::Pure,
            )
            &&& names(s.name, "memory"@, "read"@) || names(s.name, "memory"@, "search"@)
                ==> admits_only(s, EffectClass::ReadExternal)
            &&& names(s.name, "memory"@, "write"@) ==> admits_only(s, EffectClass::WriteExternal)
            &&& names(s.name, "agent"@, "plan"@) ==> admits_only(s, EffectClass::Stochastic)
            &&& names(s.name, "tool"@, "call"@) ==> forall|class: EffectClass| #[trigger]
                admits_effect(s, class) <==> !(class is Stochastic)
            &&& names(s.name, "agent"@, "action"@) ==> forall|class: EffectClass| #[trigger]
                admits_effect(s, class)
        }),
{
    rows(i);
    words_differ();
    let s = catalogue()[i];
    if names(s.name, "tool"@, "call"@) {
        let list = s.allowed_effects;
        assert(list.len() == 4);
        assert(list[0] == EffectClass::Pure && list[1] == EffectClass::ReadExternal && list[2]
            == EffectClass::WriteExternal && list[3] == EffectClass::Irreversible);
        assert forall|class: EffectClass| #[trigger]
            admits_effect(s, class) <==> !(class is Stochastic) by {
            if !(class is Stochastic) {
                assert(list.contains(class));
            }
        }
    }
}

/// Every operation of the dialects but a function can be run: the runtime
/// evaluates it, or it goes to the memory, a model or a tool.
pub proof fn every_operation_can_be_run(i: int)
    requires
        0 <= i < catalogue().len(),
    ensures
        ({
            let n = catalogue()[i].name;
            names(n, "agent"@, "func"@) || builtin_of(n) is Some || n.dialect == "memory"@ || names(
                n,
                "agent"@,
                "plan"@,
            ) || names(n, "agent"@, "action"@) || names(n, "tool"@, "call"@)
        }),
{
    rows(i);
}

/// Only control operations, functions and plans own regions: an `if` one or two,
/// a `while` two, and the others one; a plan may do without.
pub proof fn regions_fit_what_is_run(i: int)
    requires
        0 <= i < catalogue().len(),
    ensures
        ({
            let s = catalogue()[i];
            if names(s.name, "control"@, "if"@) {
                s.regions == Arity::Between(1, 2)
            } else if names(s.name, "control"@, "while"@) {
                s.regions == Arity::Exact(2)
            } else if names(s.name, "control"@, "loop"@) || names(
                s.name,
                "control"@,
                "parallel"@,
            ) || names(s.name, "agent"@, "func"@) {
                s.regions == Arity::Exact(1)
            } else if names(s.name, "agent"@, "plan"@) {
                s.regions == Arity::Between(0, 1)
            } else {
                s.regions == Arity::Exact(0)
            }
        }),
{
    rows(i);
    words_differ();
}

/// An operation must have the attribute that running or checking it reads, and
/// no other is asked for.
pub proof fn attributes_fit_what_is_read(i: int)
    requires
        0 <= i < catalogue().len(),
    ensures
        ({
            let s = catalogue()[i];
            if names(s.name, "agent"@, "verify"@) || names(s.name, "tool"@, "capability"@) {
                asks_for(s, "capability"@, AttrKind::Str)
            } else if names(s.name, "control"@, "loop"@) || names(s.name, "control"@, "while"@) {
                asks_for(s, "max_iterations"@, AttrKind::Int)
            } else if names(s.name, "core"@, "constant"@) {
                asks_for(s, "value"@, AttrKind::Any)
            } else if names(s.name, "memory"@, "read"@) || names(s.name, "memory"@, "write"@) {
                asks_for(s, "key"@, AttrKind::Str)
            } else if names(s.name, "observation"@, "error"@) {
                asks_for(s, "message"@, AttrKind::Str)
            } else if names(s.name, "tool"@, "result"@) {
                asks_for(s, "field"@, AttrKind::Str)
            } else {
                s.required_attrs.len() == 0
            }
        }),
{
    rows(i);
    words_differ();
}

/// What is named by a literal must have one, and nothing else needs it: actions,
/// calls, comparisons, metrics and functions.
pub proof fn literals_name_what_is_run(i: int)
    requires
        0 <= i < catalogue().len(),
    ensures
        ({
            let s = catalogue()[i];
            s.requires_literal <==> names(s.name, "agent"@, "action"@) || names(
                s.name,
                "tool"@,
                "call"@,
            ) || names(s.name, "core"@, "cmp"@) || names(s.name, "observation"@, "metric"@)
                || names(s.name, "agent"@, "func"@)
        }),
{
    rows(i);
    words_differ();
}

/// An operation takes the operands that running it reads and gives what running
/// it binds.
pub proof fn operands_fit_what_is_read(i: int)
    requires
        0 <= i < catalogue().len(),
    ensures
        ({
            let s = catalogue()[i];
            &&& names(s.name, "core"@, "cmp"@) ==> s.operands == Arity::Exact(2) && s.results
                == Arity::Exact(1)
            &&& names(s.name, "core"@, "cast"@) || names(s.name, "observation"@, "create"@)
                || names(s.name, "observation"@, "metric"@) || names(s.name, "tool"@, "result"@)
                ==> s.operands == Arity::Exact(1) && s.results == Arity::Exact(1)
            &&& names(s.name, "core"@, "constant"@) || names(s.name, "tool"@, "capability"@)
                || names(s.name, "agent"@, "input"@) ==> s.operands == Arity::Exact(0) && s.results
                == Arity::Exact(1)
            &&& names(s.name, "agent"@, "reject"@) || names(s.name, "memory"@, "write"@)
                ==> s.operands == Arity::Exact(1) && s.results == Arity::Exact(0)
            &&& names(s.name, "control"@, "if"@) || names(s.name, "control"@, "loop"@)
                ==> s.operands == Arity::Exact(1) && s.results == Arity::Any
            &&& names(s.name, "control"@, "while"@) || names(s.name, "control"@, "parallel"@)
                || names(s.name, "agent"@, "action"@) || names(s.name, "tool"@, "call"@)
                ==> s.operands == Arity::Any && s.results == Arity::Any
            &&& names(s.name, "memory"@, "read"@) || names(s.name, "memory"@, "search"@) || names(
                s.name,
                "agent"@,
                "context"@,
            ) || names(s.name, "agent"@, "plan"@) ==> s.operands == Arity::Any && s.results
                == Arity::Exact(1)
            &&& names(s.name, "agent"@, "return"@) || names(s.name, "control"@, "yield"@) || names(
                s.name,
                "agent"@,
                "verify"@,
            ) || names(s.name, "observation"@, "error"@) ==> s.operands == Arity::Any && s.results
                == Arity::Exact(0)
            &&& names(s.name, "agent"@, "func"@) || names(s.name, "agent"@, "budget"@)
                ==> s.operands == Arity::Exact(0) && s.results == Arity::Exact(0)
        }),
{
    rows(i);
    words_differ();
}

} // verus!
