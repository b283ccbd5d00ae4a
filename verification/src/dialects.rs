//! The dialects, and the registry the verifier consults to decide whether an
//! operation is well formed.
//!
//! A dialect here is data, not code: each operation declares how many operands,
//! results and regions it takes, which attributes it needs, and which effect
//! classes it is allowed to declare. That last column is what stops a program
//! from labelling a payment `#pure` and slipping past every pass condition.

use vstd::prelude::*;
use vstd::string::*;

use crate::copying::{clone_all, copy_all};
use crate::effect::EffectClass;
use crate::module::{OpName, OpNameView};
use crate::text::{nat_text, push_nat, same_text};

verus! {

/// Module-level plumbing: constants, casts, comparisons.
pub const CORE: &'static str = "core";

/// The agent program itself: functions, context, actions, plans.
pub const AGENT: &'static str = "agent";

/// Structured control flow.
pub const CONTROL: &'static str = "control";

/// Tool invocation and capability checks.
pub const TOOL: &'static str = "tool";

/// The memory store.
pub const MEMORY: &'static str = "memory";

/// Observations and metrics fed back into the IR.
pub const OBSERVATION: &'static str = "observation";

/// The dialect names.
pub open spec fn dialect_names() -> Seq<Seq<char>> {
    seq!["core"@, "agent"@, "control"@, "tool"@, "memory"@, "observation"@]
}

/// Every dialect name.
pub fn all_dialects() -> (r: Vec<&'static str>)
    ensures
        Seq::new(r@.len(), |i: int| r@[i]@) == dialect_names(),
{
    let r: Vec<&'static str> = vec!["core", "agent", "control", "tool", "memory", "observation"];
    assert(Seq::new(r@.len(), |i: int| r@[i]@) =~= dialect_names());
    r
}

/// How many of something an operation accepts.
#[derive(Clone, Copy, Debug, PartialEq, Eq, Structural)]
pub enum Arity {
    /// Exactly this many.
    Exact(usize),
    /// This many or more.
    AtLeast(usize),
    /// Between the two bounds, inclusive.
    Between(usize, usize),
    /// Any number, including none.
    Any,
}

impl Arity {
    /// Whether a count satisfies this arity.
    pub open spec fn admits(self, count: nat) -> bool {
        match self {
            Arity::Exact(n) => count == n,
            Arity::AtLeast(n) => count >= n,
            Arity::Between(lo, hi) => lo <= count <= hi,
            Arity::Any => true,
        }
    }

    /// A human description, for diagnostics.
    pub open spec fn text(self) -> Seq<char> {
        match self {
            Arity::Exact(n) => "exactly "@ + nat_text(n as nat),
            Arity::AtLeast(n) => "at least "@ + nat_text(n as nat),
            Arity::Between(lo, hi) => "between "@ + nat_text(lo as nat) + " and "@ + nat_text(
                hi as nat,
            ),
            Arity::Any => "any number of"@,
        }
    }

    /// Whether `count` satisfies this arity.
    pub fn accepts(self, count: usize) -> (r: bool)
        ensures
            r == self.admits(count as nat),
    {
        match self {
            Arity::Exact(n) => count == n,
            Arity::AtLeast(n) => count >= n,
            Arity::Between(lo, hi) => lo <= count && count <= hi,
            Arity::Any => true,
        }
    }

    /// A human description, for diagnostics.
    pub fn describe(self) -> (r: String)
        ensures
            r@ == self.text(),
    {
        match self {
            Arity::Exact(n) => {
                let mut out = String::from_str("exactly ");
                push_nat(&mut out, n as u64);
                out
            },
            Arity::AtLeast(n) => {
                let mut out = String::from_str("at least ");
                push_nat(&mut out, n as u64);
                out
            },
            Arity::Between(lo, hi) => {
                let mut out = String::from_str("between ");
                push_nat(&mut out, lo as u64);
                out.append(" and ");
                push_nat(&mut out, hi as u64);
                out
            },
            Arity::Any => String::from_str("any number of"),
        }
    }
}

/// The kind an attribute must have.
#[derive(Clone, Copy, Debug, PartialEq, Eq, Structural)]
pub enum AttrKind {
    /// An integer.
    Int,
    /// A float, or an integer widened to one.
    Float,
    /// A boolean.
    Bool,
    /// A string.
    Str,
    /// A nested dictionary.
    Dict,
    /// Any kind.
    Any,
}

impl AttrKind {
    /// The name of the kind, for diagnostics.
    pub open spec fn text(self) -> Seq<char> {
        match self {
            AttrKind::Int => "Int"@,
            AttrKind::Float => "Float"@,
            AttrKind::Bool => "Bool"@,
            AttrKind::Str => "Str"@,
            AttrKind::Dict => "Dict"@,
            AttrKind::Any => "Any"@,
        }
    }

    /// The name of the kind, for diagnostics.
    pub fn as_word(self) -> (r: &'static str)
        ensures
            r@ == self.text(),
    {
        match self {
            AttrKind::Int => "Int",
            AttrKind::Float => "Float",
            AttrKind::Bool => "Bool",
            AttrKind::Str => "Str",
            AttrKind::Dict => "Dict",
            AttrKind::Any => "Any",
        }
    }
}

/// What an operation looks like when it is well formed.
#[derive(Debug)]
pub struct OpSignature {
    /// The operation this describes.
    pub name: OpName,
    /// One line on what the operation means.
    pub summary: &'static str,
    /// How many operands it takes.
    pub operands: Arity,
    /// How many results it produces.
    pub results: Arity,
    /// How many regions it owns.
    pub regions: Arity,
    /// Attributes that must be present, with the kind each must have.
    pub required_attrs: Vec<(&'static str, AttrKind)>,
    /// The effect classes the operation may declare. Empty means "any".
    ///
    /// This is the structural half of the safety argument: `agent.action` may
    /// declare anything, but `core.constant` may only be `#pure`, and no
    /// program can relabel a `tool.call` into something a pass would treat as
    /// replayable.
    pub allowed_effects: Vec<EffectClass>,
    /// Whether the operation needs its string literal, e.g. the tool name.
    pub requires_literal: bool,
    /// Whether the operation ends its block.
    pub terminator: bool,
}

/// The mathematical content of an [`OpSignature`].
#[verifier::ext_equal]
pub ghost struct SignatureView {
    pub name: OpNameView,
    pub summary: Seq<char>,
    pub operands: Arity,
    pub results: Arity,
    pub regions: Arity,
    pub required_attrs: Seq<(Seq<char>, AttrKind)>,
    pub allowed_effects: Seq<EffectClass>,
    pub requires_literal: bool,
    pub terminator: bool,
}

impl View for OpSignature {
    type V = SignatureView;

    open spec fn view(&self) -> SignatureView {
        SignatureView {
            name: self.name@,
            summary: self.summary@,
            operands: self.operands,
            results: self.results,
            regions: self.regions,
            required_attrs: Seq::new(
                self.required_attrs@.len(),
                |i: int| (self.required_attrs@[i].0@, self.required_attrs@[i].1),
            ),
            allowed_effects: self.allowed_effects@,
            requires_literal: self.requires_literal,
            terminator: self.terminator,
        }
    }
}

impl Clone for OpSignature {
    /// A copy of the signature.
    fn clone(&self) -> (r: OpSignature)
        ensures
            r@ == self@,
    {
        let r = OpSignature {
            name: self.name.clone(),
            summary: self.summary,
            operands: self.operands,
            results: self.results,
            regions: self.regions,
            required_attrs: copy_all(&self.required_attrs),
            allowed_effects: copy_all(&self.allowed_effects),
            requires_literal: self.requires_literal,
            terminator: self.terminator,
        };
        assert(r@ =~= self@);
        r
    }
}

/// Which effect classes an operation may declare.
#[derive(Clone, Copy, Debug, PartialEq, Eq, Structural)]
pub enum Allowed {
    /// Any of them.
    Any,
    /// Everything but a non-deterministic one.
    External,
    /// One class.
    Only(EffectClass),
}

impl Allowed {
    /// The list of classes; the empty one stands for any.
    pub open spec fn classes(self) -> Seq<EffectClass> {
        match self {
            Allowed::Any => Seq::empty(),
            Allowed::External => seq![
                EffectClass::Pure,
                EffectClass::ReadExternal,
                EffectClass::WriteExternal,
                EffectClass::Irreversible,
            ],
            Allowed::Only(class) => seq![class],
        }
    }

    fn list(self) -> (r: Vec<EffectClass>)
        ensures
            r@ == self.classes(),
    {
        let r: Vec<EffectClass> = match self {
            Allowed::Any => Vec::new(),
            Allowed::External => vec![
                EffectClass::Pure,
                EffectClass::ReadExternal,
                EffectClass::WriteExternal,
                EffectClass::Irreversible,
            ],
            Allowed::Only(class) => vec![class],
        };
        assert(r@ =~= self.classes());
        r
    }
}

/// A signature written as one row of a table.
pub open spec fn sig(
    dialect: Seq<char>,
    name: Seq<char>,
    summary: Seq<char>,
    operands: Arity,
    results: Arity,
    regions: Arity,
    required: Option<(Seq<char>, AttrKind)>,
    allowed: Allowed,
    requires_literal: bool,
    terminator: bool,
) -> SignatureView {
    SignatureView {
        name: OpNameView { dialect, name },
        summary,
        operands,
        results,
        regions,
        required_attrs: match required {
            Some(entry) => seq![entry],
            None => Seq::empty(),
        },
        allowed_effects: allowed.classes(),
        requires_literal,
        terminator,
    }
}

fn op(
    dialect: &str,
    name: &str,
    summary: &'static str,
    operands: Arity,
    results: Arity,
    regions: Arity,
    required: Option<(&'static str, AttrKind)>,
    allowed: Allowed,
    requires_literal: bool,
    terminator: bool,
) -> (r: OpSignature)
    ensures
        r@ == sig(
            dialect@,
            name@,
            summary@,
            operands,
            results,
            regions,
            match required {
                Some(entry) => Some((entry.0@, entry.1)),
                None => None,
            },
            allowed,
            requires_literal,
            terminator,
        ),
{
    let mut required_attrs: Vec<(&'static str, AttrKind)> = Vec::new();
    if let Some(entry) = required {
        required_attrs.push(entry);
    }
    let r = OpSignature {
        name: OpName::new(dialect, name),
        summary,
        operands,
        results,
        regions,
        required_attrs,
        allowed_effects: allowed.list(),
        requires_literal,
        terminator,
    };
    assert(r@.required_attrs =~= match required {
        Some(entry) => seq![(entry.0@, entry.1)],
        None => Seq::empty(),
    });
    r
}

/// Every operation of the dialects, in name order.
pub open spec fn catalogue() -> Seq<SignatureView> {
    seq![
        sig(
            "agent"@,
            "action"@,
            "An action the agent takes; the literal names it."@,
            Arity::Any,
            Arity::Any,
            Arity::Exact(0),
            None,
            Allowed::Any,
            true,
            false,
        ),
        sig(
            "agent"@,
            "budget"@,
            "Declares the execution budget of §9.1."@,
            Arity::Exact(0),
            Arity::Exact(0),
            Arity::Exact(0),
            None,
            Allowed::Only(EffectClass::Pure),
            false,
            false,
        ),
        sig(
            "agent"@,
            "context"@,
            "The working context: objective and constraints."@,
            Arity::Any,
            Arity::Exact(1),
            Arity::Exact(0),
            None,
            Allowed::Only(EffectClass::Pure),
            false,
            false,
        ),
        sig(
            "agent"@,
            "func"@,
            "An agent program entry point; the literal is its name."@,
            Arity::Exact(0),
            Arity::Exact(0),
            Arity::Exact(1),
            None,
            Allowed::Only(EffectClass::Pure),
            true,
            false,
        ),
        sig(
            "agent"@,
            "input"@,
            "A value supplied from outside the program."@,
            Arity::Exact(0),
            Arity::Exact(1),
            Arity::Exact(0),
            None,
            Allowed::Only(EffectClass::Pure),
            false,
            false,
        ),
        sig(
            "agent"@,
            "plan"@,
            "A plan proposed by the LLM builder."@,
            Arity::Any,
            Arity::Exact(1),
            Arity::Between(0, 1),
            None,
            Allowed::Only(EffectClass::Stochastic),
            false,
            false,
        ),
        sig(
            "agent"@,
            "reject"@,
            "Discards a candidate value."@,
            Arity::Exact(1),
            Arity::Exact(0),
            Arity::Exact(0),
            None,
            Allowed::Only(EffectClass::Pure),
            false,
            false,
        ),
        sig(
            "agent"@,
            "return"@,
            "Returns from the enclosing function."@,
            Arity::Any,
            Arity::Exact(0),
            Arity::Exact(0),
            None,
            Allowed::Only(EffectClass::Pure),
            false,
            true,
        ),
        sig(
            "agent"@,
            "verify"@,
            "Checks a capability before an effectful action (I2)."@,
            Arity::Any,
            Arity::Exact(0),
            Arity::Exact(0),
            Some(("capability"@, AttrKind::Str)),
            Allowed::Only(EffectClass::Pure),
            false,
            false,
        ),
        sig(
            "control"@,
            "if"@,
            "Executes its region when the operand holds."@,
            Arity::Exact(1),
            Arity::Any,
            Arity::Between(1, 2),
            None,
            Allowed::Only(EffectClass::Pure),
            false,
            false,
        ),
        sig(
            "control"@,
            "loop"@,
            "Iterates its body over the elements of the operand."@,
            Arity::Exact(1),
            Arity::Any,
            Arity::Exact(1),
            Some(("max_iterations"@, AttrKind::Int)),
            Allowed::Only(EffectClass::Pure),
            false,
            false,
        ),
        sig(
            "control"@,
            "parallel"@,
            "Executes its region's operations concurrently (I3)."@,
            Arity::Any,
            Arity::Any,
            Arity::Exact(1),
            None,
            Allowed::Only(EffectClass::Pure),
            false,
            false,
        ),
        sig(
            "control"@,
            "while"@,
            "Repeats its body while the condition region yields true."@,
            Arity::Any,
            Arity::Any,
            Arity::Exact(2),
            Some(("max_iterations"@, AttrKind::Int)),
            Allowed::Only(EffectClass::Pure),
            false,
            false,
        ),
        sig(
            "control"@,
            "yield"@,
            "Yields values out of the enclosing region."@,
            Arity::Any,
            Arity::Exact(0),
            Arity::Exact(0),
            None,
            Allowed::Only(EffectClass::Pure),
            false,
            true,
        ),
        sig(
            "core"@,
            "cast"@,
            "Reinterprets a value at another type."@,
            Arity::Exact(1),
            Arity::Exact(1),
            Arity::Exact(0),
            None,
            Allowed::Only(EffectClass::Pure),
            false,
            false,
        ),
        sig(
            "core"@,
            "cmp"@,
            "Compares two values; the literal is the predicate."@,
            Arity::Exact(2),
            Arity::Exact(1),
            Arity::Exact(0),
            None,
            Allowed::Only(EffectClass::Pure),
            true,
            false,
        ),
        sig(
            "core"@,
            "constant"@,
            "A compile-time constant value."@,
            Arity::Exact(0),
            Arity::Exact(1),
            Arity::Exact(0),
            Some(("value"@, AttrKind::Any)),
            Allowed::Only(EffectClass::Pure),
            false,
            false,
        ),
        sig(
            "memory"@,
            "read"@,
            "Reads an entry from the memory store."@,
            Arity::Any,
            Arity::Exact(1),
            Arity::Exact(0),
            Some(("key"@, AttrKind::Str)),
            Allowed::Only(EffectClass::ReadExternal),
            false,
            false,
        ),
        sig(
            "memory"@,
            "search"@,
            "Searches memory for entries relevant to the operand."@,
            Arity::Any,
            Arity::Exact(1),
            Arity::Exact(0),
            None,
            Allowed::Only(EffectClass::ReadExternal),
            false,
            false,
        ),
        sig(
            "memory"@,
            "write"@,
            "Writes an entry to the memory store."@,
            Arity::Exact(1),
            Arity::Exact(0),
            Arity::Exact(0),
            Some(("key"@, AttrKind::Str)),
            Allowed::Only(EffectClass::WriteExternal),
            false,
            false,
        ),
        sig(
            "observation"@,
            "create"@,
            "Turns a raw result into a typed observation."@,
            Arity::Exact(1),
            Arity::Exact(1),
            Arity::Exact(0),
            None,
            Allowed::Only(EffectClass::Pure),
            false,
            false,
        ),
        sig(
            "observation"@,
            "error"@,
            "Records that an operation failed."@,
            Arity::Any,
            Arity::Exact(0),
            Arity::Exact(0),
            Some(("message"@, AttrKind::Str)),
            Allowed::Only(EffectClass::Pure),
            false,
            false,
        ),
        sig(
            "observation"@,
            "metric"@,
            "Extracts a named metric from an observation."@,
            Arity::Exact(1),
            Arity::Exact(1),
            Arity::Exact(0),
            None,
            Allowed::Only(EffectClass::Pure),
            true,
            false,
        ),
        sig(
            "tool"@,
            "call"@,
            "Invokes a tool; the literal names it."@,
            Arity::Any,
            Arity::Any,
            Arity::Exact(0),
            None,
            Allowed::External,
            true,
            false,
        ),
        sig(
            "tool"@,
            "capability"@,
            "Materializes a held capability as a value."@,
            Arity::Exact(0),
            Arity::Exact(1),
            Arity::Exact(0),
            Some(("capability"@, AttrKind::Str)),
            Allowed::Only(EffectClass::Pure),
            false,
            false,
        ),
        sig(
            "tool"@,
            "result"@,
            "Projects one field out of a tool result."@,
            Arity::Exact(1),
            Arity::Exact(1),
            Arity::Exact(0),
            Some(("field"@, AttrKind::Str)),
            Allowed::Only(EffectClass::Pure),
            false,
            false,
        ),
    ]
}

fn signatures() -> (r: Vec<OpSignature>)
    ensures
        signature_views(r@) == catalogue(),
{
    let mut ops: Vec<OpSignature> = Vec::new();
    ops.push(
        op(
            "agent",
            "action",
            "An action the agent takes; the literal names it.",
            Arity::Any,
            Arity::Any,
            Arity::Exact(0),
            None,
            Allowed::Any,
            true,
            false,
        ),
    );
    ops.push(
        op(
            "agent",
            "budget",
            "Declares the execution budget of §9.1.",
            Arity::Exact(0),
            Arity::Exact(0),
            Arity::Exact(0),
            None,
            Allowed::Only(EffectClass::Pure),
            false,
            false,
        ),
    );
    ops.push(
        op(
            "agent",
            "context",
            "The working context: objective and constraints.",
            Arity::Any,
            Arity::Exact(1),
            Arity::Exact(0),
            None,
            Allowed::Only(EffectClass::Pure),
            false,
            false,
        ),
    );
    ops.push(
        op(
            "agent",
            "func",
            "An agent program entry point; the literal is its name.",
            Arity::Exact(0),
            Arity::Exact(0),
            Arity::Exact(1),
            None,
            Allowed::Only(EffectClass::Pure),
            true,
            false,
        ),
    );
    ops.push(
        op(
            "agent",
            "input",
            "A value supplied from outside the program.",
            Arity::Exact(0),
            Arity::Exact(1),
            Arity::Exact(0),
            None,
            Allowed::Only(EffectClass::Pure),
            false,
            false,
        ),
    );
    ops.push(
        op(
            "agent",
            "plan",
            "A plan proposed by the LLM builder.",
            Arity::Any,
            Arity::Exact(1),
            Arity::Between(0, 1),
            None,
            Allowed::Only(EffectClass::Stochastic),
            false,
            false,
        ),
    );
    ops.push(
        op(
            "agent",
            "reject",
            "Discards a candidate value.",
            Arity::Exact(1),
            Arity::Exact(0),
            Arity::Exact(0),
            None,
            Allowed::Only(EffectClass::Pure),
            false,
            false,
        ),
    );
    ops.push(
        op(
            "agent",
            "return",
            "Returns from the enclosing function.",
            Arity::Any,
            Arity::Exact(0),
            Arity::Exact(0),
            None,
            Allowed::Only(EffectClass::Pure),
            false,
            true,
        ),
    );
    ops.push(
        op(
            "agent",
            "verify",
            "Checks a capability before an effectful action (I2).",
            Arity::Any,
            Arity::Exact(0),
            Arity::Exact(0),
            Some(("capability", AttrKind::Str)),
            Allowed::Only(EffectClass::Pure),
            false,
            false,
        ),
    );
    ops.push(
        op(
            "control",
            "if",
            "Executes its region when the operand holds.",
            Arity::Exact(1),
            Arity::Any,
            Arity::Between(1, 2),
            None,
            Allowed::Only(EffectClass::Pure),
            false,
            false,
        ),
    );
    ops.push(
        op(
            "control",
            "loop",
            "Iterates its body over the elements of the operand.",
            Arity::Exact(1),
            Arity::Any,
            Arity::Exact(1),
            Some(("max_iterations", AttrKind::Int)),
            Allowed::Only(EffectClass::Pure),
            false,
            false,
        ),
    );
    ops.push(
        op(
            "control",
            "parallel",
            "Executes its region's operations concurrently (I3).",
            Arity::Any,
            Arity::Any,
            Arity::Exact(1),
            None,
            Allowed::Only(EffectClass::Pure),
            false,
            false,
        ),
    );
    ops.push(
        op(
            "control",
            "while",
            "Repeats its body while the condition region yields true.",
            Arity::Any,
            Arity::Any,
            Arity::Exact(2),
            Some(("max_iterations", AttrKind::Int)),
            Allowed::Only(EffectClass::Pure),
            false,
            false,
        ),
    );
    ops.push(
        op(
            "control",
            "yield",
            "Yields values out of the enclosing region.",
            Arity::Any,
            Arity::Exact(0),
            Arity::Exact(0),
            None,
            Allowed::Only(EffectClass::Pure),
            false,
            true,
        ),
    );
    ops.push(
        op(
            "core",
            "cast",
            "Reinterprets a value at another type.",
            Arity::Exact(1),
            Arity::Exact(1),
            Arity::Exact(0),
            None,
            Allowed::Only(EffectClass::Pure),
            false,
            false,
        ),
    );
    ops.push(
        op(
            "core",
            "cmp",
            "Compares two values; the literal is the predicate.",
            Arity::Exact(2),
            Arity::Exact(1),
            Arity::Exact(0),
            None,
            Allowed::Only(EffectClass::Pure),
            true,
            false,
        ),
    );
    ops.push(
        op(
            "core",
            "constant",
            "A compile-time constant value.",
            Arity::Exact(0),
            Arity::Exact(1),
            Arity::Exact(0),
            Some(("value", AttrKind::Any)),
            Allowed::Only(EffectClass::Pure),
            false,
            false,
        ),
    );
    ops.push(
        op(
            "memory",
            "read",
            "Reads an entry from the memory store.",
            Arity::Any,
            Arity::Exact(1),
            Arity::Exact(0),
            Some(("key", AttrKind::Str)),
            Allowed::Only(EffectClass::ReadExternal),
            false,
            false,
        ),
    );
    ops.push(
        op(
            "memory",
            "search",
            "Searches memory for entries relevant to the operand.",
            Arity::Any,
            Arity::Exact(1),
            Arity::Exact(0),
            None,
            Allowed::Only(EffectClass::ReadExternal),
            false,
            false,
        ),
    );
    ops.push(
        op(
            "memory",
            "write",
            "Writes an entry to the memory store.",
            Arity::Exact(1),
            Arity::Exact(0),
            Arity::Exact(0),
            Some(("key", AttrKind::Str)),
            Allowed::Only(EffectClass::WriteExternal),
            false,
            false,
        ),
    );
    ops.push(
        op(
            "observation",
            "create",
            "Turns a raw result into a typed observation.",
            Arity::Exact(1),
            Arity::Exact(1),
            Arity::Exact(0),
            None,
            Allowed::Only(EffectClass::Pure),
            false,
            false,
        ),
    );
    ops.push(
        op(
            "observation",
            "error",
            "Records that an operation failed.",
            Arity::Any,
            Arity::Exact(0),
            Arity::Exact(0),
            Some(("message", AttrKind::Str)),
            Allowed::Only(EffectClass::Pure),
            false,
            false,
        ),
    );
    ops.push(
        op(
            "observation",
            "metric",
            "Extracts a named metric from an observation.",
            Arity::Exact(1),
            Arity::Exact(1),
            Arity::Exact(0),
            None,
            Allowed::Only(EffectClass::Pure),
            true,
            false,
        ),
    );
    ops.push(
        op(
            "tool",
            "call",
            "Invokes a tool; the literal names it.",
            Arity::Any,
            Arity::Any,
            Arity::Exact(0),
            None,
            Allowed::External,
            true,
            false,
        ),
    );
    ops.push(
        op(
            "tool",
            "capability",
            "Materializes a held capability as a value.",
            Arity::Exact(0),
            Arity::Exact(1),
            Arity::Exact(0),
            Some(("capability", AttrKind::Str)),
            Allowed::Only(EffectClass::Pure),
            false,
            false,
        ),
    );
    ops.push(
        op(
            "tool",
            "result",
            "Projects one field out of a tool result.",
            Arity::Exact(1),
            Arity::Exact(1),
            Arity::Exact(0),
            Some(("field", AttrKind::Str)),
            Allowed::Only(EffectClass::Pure),
            false,
            false,
        ),
    );
    assert(signature_views(ops@) =~= catalogue());
    ops
}

/// The content of each signature of a list.
pub open spec fn signature_views(s: Seq<OpSignature>) -> Seq<SignatureView> {
    Seq::new(s.len(), |i: int| s[i]@)
}

/// The registry of every operation the dialects define, in name order.
#[derive(Debug)]
pub struct Registry {
    ops: Vec<OpSignature>,
}

impl View for Registry {
    type V = Seq<SignatureView>;

    closed spec fn view(&self) -> Seq<SignatureView> {
        signature_views(self.ops@)
    }
}

impl Clone for Registry {
    /// A copy of the registry.
    fn clone(&self) -> (r: Registry)
        ensures
            r@ == self@,
    {
        let r = Registry { ops: clone_all(&self.ops) };
        assert(r@ =~= self@);
        r
    }
}

/// The signature of an operation in a list, from position `i` on.
pub open spec fn signature_of(s: Seq<SignatureView>, name: OpNameView, i: int) -> Option<
    SignatureView,
>
    decreases s.len() - i,
{
    if i < 0 || i >= s.len() {
        None
    } else if s[i].name == name {
        Some(s[i])
    } else {
        signature_of(s, name, i + 1)
    }
}

impl Registry {
    /// The registry of all dialects.
    pub fn v0_1() -> (r: Registry)
        ensures
            r@ == catalogue(),
    {
        Registry { ops: signatures() }
    }

    /// The signature of an operation, if the registry knows it.
    pub fn get(&self, name: &OpName) -> (r: Option<&OpSignature>)
        ensures
            r is Some == signature_of(self@, name@, 0) is Some,
            r matches Some(s) ==> signature_of(self@, name@, 0) == Some(s@),
    {
        let mut i: usize = 0;
        while i < self.ops.len()
            invariant
                i <= self.ops@.len(),
                self@.len() == self.ops@.len(),
                signature_of(self@, name@, 0) == signature_of(self@, name@, i as int),
            decreases self.ops@.len() - i,
        {
            if self.ops[i].name.same(name) {
                return Some(&self.ops[i]);
            }
            i += 1;
        }
        None
    }

    /// Whether the registry knows the operation.
    pub fn contains(&self, name: &OpName) -> (r: bool)
        ensures
            r == signature_of(self@, name@, 0) is Some,
    {
        self.get(name).is_some()
    }

    /// Every known signature, in name order.
    pub fn iter(&self) -> (r: &Vec<OpSignature>)
        ensures
            signature_views(r@) == self@,
    {
        &self.ops
    }

    /// Every known signature in one dialect.
    pub fn dialect(&self, dialect: &str) -> (r: Vec<&OpSignature>)
        ensures
            Seq::new(r@.len(), |i: int| r@[i]@) == self@.filter(
                |s: SignatureView| s.name.dialect == dialect@,
            ),
    {
        let ghost keep = |s: SignatureView| s.name.dialect == dialect@;
        let mut r: Vec<&OpSignature> = Vec::new();
        let mut i: usize = 0;
        proof {
            reveal(Seq::filter);
            assert(self@.take(0).filter(keep) =~= Seq::empty());
        }
        while i < self.ops.len()
            invariant
                i <= self.ops@.len(),
                self.ops@.len() == self@.len(),
                keep == |s: SignatureView| s.name.dialect == dialect@,
                Seq::new(r@.len(), |i: int| r@[i]@) =~= self@.take(i as int).filter(keep),
            decreases self.ops@.len() - i,
        {
            let ghost before = r@;
            proof {
                reveal(Seq::filter);
                assert(self@.take(i + 1).drop_last() =~= self@.take(i as int));
            }
            if same_text(self.ops[i].name.dialect.as_str(), dialect) {
                r.push(&self.ops[i]);
                assert(Seq::new(r@.len(), |i: int| r@[i]@) =~= Seq::new(
                    before.len(),
                    |i: int| before[i]@,
                ).push(self@[i as int]));
            }
            i += 1;
        }
        assert(self@.take(i as int) =~= self@);
        r
    }

    /// How many operations are registered.
    pub fn len(&self) -> (r: usize)
        ensures
            r == self@.len(),
    {
        self.ops.len()
    }

    /// Whether the registry is empty.
    pub fn is_empty(&self) -> (r: bool)
        ensures
            r == (self@.len() == 0),
    {
        self.ops.len() == 0
    }
}

impl Default for Registry {
    fn default() -> (r: Registry)
        ensures
            r@ == catalogue(),
    {
        Registry::v0_1()
    }
}

} // verus!
