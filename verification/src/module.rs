//! The `Module → Region → Block → Operation → Value` hierarchy.
//!
//! Everything lives in arenas owned by the [`Module`]; entities refer to each
//! other by index. Erasing an operation leaves a tombstone rather than shifting
//! the arena, so handles stay valid for the whole compilation and analyses can
//! use dense side tables.

use vstd::prelude::*;
use vstd::string::*;

use crate::assoc::{insert, lookup};
use crate::attribute::{Attribute, AttributeView, Attributes};
use crate::capability::{CapabilitySet, CapabilitySetView};
use crate::copying::{clone_all, copy_all};
use crate::effect::{scope_text, Effect, EffectView};
use crate::ids::{BlockId, OperationId, RegionId, ValueId};
use crate::number::Number;
use crate::provenance::Provenance;
use crate::text::{
    chars_of, copy_optional_text, optional_text, same_optional_text, same_text, slice_text,
};
use crate::types::{Type, TypeView};

verus! {

/// A fully qualified operation name, `dialect.name`.
#[derive(Debug, PartialEq, Eq, Hash, PartialOrd, Ord)]
pub struct OpName {
    /// The dialect half, e.g. `agent`.
    pub dialect: String,
    /// The operation half, e.g. `action`.
    pub name: String,
}

/// The mathematical content of an [`OpName`].
#[verifier::ext_equal]
pub ghost struct OpNameView {
    pub dialect: Seq<char>,
    pub name: Seq<char>,
}

impl View for OpName {
    type V = OpNameView;

    open spec fn view(&self) -> OpNameView {
        OpNameView { dialect: self.dialect@, name: self.name@ }
    }
}

impl OpNameView {
    /// Whether this is the given `dialect.name`.
    pub open spec fn is(self, dialect: Seq<char>, name: Seq<char>) -> bool {
        self.dialect == dialect && self.name == name
    }

    /// The printed form of the name.
    pub open spec fn text(self) -> Seq<char> {
        self.dialect + "."@ + self.name
    }
}

/// The position of the first dot of a text, or its length when it has none.
pub open spec fn first_dot(s: Seq<char>, from: int) -> int
    decreases s.len() - from,
{
    if from >= s.len() {
        s.len() as int
    } else if s[from] == '.' {
        from
    } else {
        first_dot(s, from + 1)
    }
}

/// The operation name a text spells: the two non-empty parts around its first
/// dot.
pub open spec fn op_name_of(s: Seq<char>) -> Option<OpNameView> {
    let dot = first_dot(s, 0);
    if 0 < dot && dot + 1 < s.len() {
        Some(OpNameView { dialect: s.take(dot), name: s.skip(dot + 1) })
    } else {
        None
    }
}

impl OpName {
    /// Builds a name from its two halves.
    pub fn new(dialect: &str, name: &str) -> (r: OpName)
        ensures
            r@ == (OpNameView { dialect: dialect@, name: name@ }),
    {
        OpName { dialect: String::from_str(dialect), name: String::from_str(name) }
    }

    /// Whether this is the given `dialect.name`.
    pub fn is(&self, dialect: &str, name: &str) -> (r: bool)
        ensures
            r == self@.is(dialect@, name@),
    {
        same_text(self.dialect.as_str(), dialect) && same_text(self.name.as_str(), name)
    }

    /// Whether the operation belongs to the given dialect.
    pub fn in_dialect(&self, dialect: &str) -> (r: bool)
        ensures
            r == (self@.dialect == dialect@),
    {
        same_text(self.dialect.as_str(), dialect)
    }

    /// Whether two names are the same.
    pub fn same(&self, other: &OpName) -> (r: bool)
        ensures
            r == (self@ == other@),
    {
        same_text(self.dialect.as_str(), other.dialect.as_str()) && same_text(
            self.name.as_str(),
            other.name.as_str(),
        )
    }

    /// Reads a name from its printed form.
    pub fn from_str(s: &str) -> (r: Result<OpName, String>)
        ensures
            match r {
                Ok(name) => op_name_of(s@) == Some(name@),
                Err(message) => op_name_of(s@) is None && message@ == "`"@ + s@
                    + "` is not a `dialect.name` operation name"@,
            },
    {
        let chars = chars_of(s);
        let mut dot: usize = 0;
        while dot < chars.len() && chars[dot] != '.'
            invariant
                dot <= chars@.len(),
                chars@ == s@,
                first_dot(s@, 0) == first_dot(s@, dot as int),
            decreases chars@.len() - dot,
        {
            dot += 1;
        }
        if 0 < dot && dot < chars.len() && dot + 1 < chars.len() {
            let name = OpName {
                dialect: slice_text(&chars, 0, dot),
                name: slice_text(&chars, dot + 1, chars.len()),
            };
            assert(name@.dialect =~= s@.take(dot as int));
            assert(name@.name =~= s@.skip(dot + 1));
            Ok(name)
        } else {
            let mut message = String::from_str("`");
            message.append(s);
            message.append("` is not a `dialect.name` operation name");
            Err(message)
        }
    }

    /// Appends the printed form of the name.
    pub fn push_text(&self, out: &mut String)
        ensures
            final(out)@ == old(out)@ + self@.text(),
    {
        out.append(self.dialect.as_str());
        out.append(".");
        out.append(self.name.as_str());
        assert(out@ =~= old(out)@ + self@.text());
    }

    /// The printed form of the name.
    pub fn to_string(&self) -> (r: String)
        ensures
            r@ == self@.text(),
    {
        let mut out = String::new();
        self.push_text(&mut out);
        assert(out@ =~= self@.text());
        out
    }
}

impl Clone for OpName {
    /// A copy of the name.
    fn clone(&self) -> (r: OpName)
        ensures
            r@ == self@,
    {
        OpName { dialect: self.dialect.clone(), name: self.name.clone() }
    }
}

/// A name without a dot in its dialect reads back from its printed form.
pub proof fn op_names_round_trip(name: OpNameView)
    requires
        name.dialect.len() > 0,
        name.name.len() > 0,
        !name.dialect.contains('.'),
    ensures
        op_name_of(name.text()) == Some(name),
{
    let s = name.text();
    reveal_strlit(".");
    let d = name.dialect.len() as int;
    assert forall|i: int| 0 <= i < d implies s[i] != '.' by {
        assert(s[i] == name.dialect[i]);
        assert(name.dialect.contains(name.dialect[i]));
    }
    assert(s[d] == '.');
    lemma_first_dot(s, 0, d);
    assert(s.take(d) =~= name.dialect);
    assert(s.skip(d + 1) =~= name.name);
}

proof fn lemma_first_dot(s: Seq<char>, from: int, dot: int)
    requires
        0 <= from <= dot < s.len(),
        s[dot] == '.',
        forall|i: int| from <= i < dot ==> s[i] != '.',
    ensures
        first_dot(s, from) == dot,
    decreases dot - from,
{
    if from < dot {
        lemma_first_dot(s, from + 1, dot);
    }
}

/// What defines a value.
#[derive(Clone, Copy, Debug, PartialEq, Eq, Hash, Structural)]
pub enum ValueDef {
    /// The `index`-th result of an operation.
    OpResult {
        /// The producing operation.
        op: OperationId,
        /// Which of its results this is.
        index: usize,
    },
    /// The `index`-th argument of a block.
    BlockArg {
        /// The owning block.
        block: BlockId,
        /// Which of its arguments this is.
        index: usize,
    },
}

/// A single-assignment value.
#[derive(Debug, PartialEq)]
pub struct Value {
    /// This value's handle.
    pub id: ValueId,
    /// The name used in the textual syntax, without the leading `%`.
    pub name: Option<String>,
    /// The value's type.
    pub ty: Type,
    /// Where the value came from.
    pub provenance: Provenance,
    /// What defines it.
    pub def: ValueDef,
}

/// The mathematical content of a [`Value`].
#[verifier::ext_equal]
pub ghost struct ValueView {
    pub id: ValueId,
    pub name: Option<Seq<char>>,
    pub ty: TypeView,
    pub provenance: Provenance,
    pub def: ValueDef,
}

impl View for Value {
    type V = ValueView;

    open spec fn view(&self) -> ValueView {
        ValueView {
            id: self.id,
            name: optional_text(self.name),
            ty: self.ty@,
            provenance: self.provenance,
            def: self.def,
        }
    }
}

impl Clone for Value {
    /// A copy of the value.
    fn clone(&self) -> (r: Value)
        ensures
            r@ == self@,
    {
        Value {
            id: self.id,
            name: copy_optional_text(&self.name),
            ty: self.ty.clone(),
            provenance: self.provenance,
            def: self.def,
        }
    }
}

impl ValueView {
    /// The operation that produced this value, if it is an operation result.
    pub open spec fn producer(self) -> Option<OperationId> {
        match self.def {
            ValueDef::OpResult { op, .. } => Some(op),
            ValueDef::BlockArg { .. } => None,
        }
    }

    /// The block this value is an argument of, if it is a block argument.
    pub open spec fn owning_block(self) -> Option<BlockId> {
        match self.def {
            ValueDef::BlockArg { block, .. } => Some(block),
            ValueDef::OpResult { .. } => None,
        }
    }
}

impl Value {
    /// The operation that produced this value, if it is an operation result.
    pub fn producer(&self) -> (r: Option<OperationId>)
        ensures
            r == self@.producer(),
    {
        match self.def {
            ValueDef::OpResult { op, .. } => Some(op),
            ValueDef::BlockArg { .. } => None,
        }
    }

    /// The block this value is an argument of, if it is a block argument.
    pub fn owning_block(&self) -> (r: Option<BlockId>)
        ensures
            r == self@.owning_block(),
    {
        match self.def {
            ValueDef::BlockArg { block, .. } => Some(block),
            ValueDef::OpResult { .. } => None,
        }
    }
}

/// An operation.
#[derive(Debug, PartialEq)]
pub struct Operation {
    /// This operation's handle.
    pub id: OperationId,
    /// The fully qualified `dialect.name`.
    pub name: OpName,
    /// A literal that names what the operation does, e.g. the tool being
    /// called. Printed as `agent.action "inspect_model"(...)`.
    pub literal: Option<String>,
    /// The values consumed, in order.
    pub operands: Vec<ValueId>,
    /// The values produced, in order.
    pub results: Vec<ValueId>,
    /// Compile-time attributes, in name order.
    pub attributes: Attributes,
    /// The declared effect signature.
    pub effect: Effect,
    /// Nested regions, for `control.if`, `control.loop` and `control.parallel`.
    pub regions: Vec<RegionId>,
    /// The block this operation sits in; `None` for an erased operation or for
    /// one not yet inserted.
    pub parent: Option<BlockId>,
    /// Erased operations keep their arena slot so handles stay stable.
    pub erased: bool,
}

/// The mathematical content of an [`Operation`].
#[verifier::ext_equal]
pub ghost struct OperationView {
    pub id: OperationId,
    pub name: OpNameView,
    pub literal: Option<Seq<char>>,
    pub operands: Seq<ValueId>,
    pub results: Seq<ValueId>,
    pub attributes: Seq<(Seq<char>, AttributeView)>,
    pub effect: EffectView,
    pub regions: Seq<RegionId>,
    pub parent: Option<BlockId>,
    pub erased: bool,
}

impl View for Operation {
    type V = OperationView;

    open spec fn view(&self) -> OperationView {
        OperationView {
            id: self.id,
            name: self.name@,
            literal: optional_text(self.literal),
            operands: self.operands@,
            results: self.results@,
            attributes: self.attributes@,
            effect: self.effect@,
            regions: self.regions@,
            parent: self.parent,
            erased: self.erased,
        }
    }
}

impl Clone for Operation {
    /// A copy of the operation.
    fn clone(&self) -> (r: Operation)
        ensures
            r@ == self@,
    {
        Operation {
            id: self.id,
            name: self.name.clone(),
            literal: copy_optional_text(&self.literal),
            operands: copy_all(&self.operands),
            results: copy_all(&self.results),
            attributes: self.attributes.clone(),
            effect: self.effect.clone(),
            regions: copy_all(&self.regions),
            parent: self.parent,
            erased: self.erased,
        }
    }
}

impl OperationView {
    /// Reads an attribute by name.
    pub open spec fn attr(self, key: Seq<char>) -> Option<AttributeView> {
        lookup(self.attributes, key)
    }

    /// Reads a string attribute.
    pub open spec fn str_attr(self, key: Seq<char>) -> Option<Seq<char>> {
        match self.attr(key) {
            Some(a) => a.str_payload(),
            None => None,
        }
    }

    /// Reads an integer attribute.
    pub open spec fn int_attr(self, key: Seq<char>) -> Option<i64> {
        match self.attr(key) {
            Some(a) => a.int_payload(),
            None => None,
        }
    }

    /// Reads a numeric attribute, widening integers.
    pub open spec fn float_attr(self, key: Seq<char>) -> Option<Number> {
        match self.attr(key) {
            Some(a) => a.number_payload(),
            None => None,
        }
    }

    /// Reads a boolean attribute.
    pub open spec fn bool_attr(self, key: Seq<char>) -> Option<bool> {
        match self.attr(key) {
            Some(a) => a.bool_payload(),
            None => None,
        }
    }

    /// The identity of the computation: everything two operations must share
    /// to compute the same thing.
    pub open spec fn cache_key(self) -> CacheKeyView {
        CacheKeyView {
            name: self.name,
            literal: self.literal,
            operands: self.operands,
            scope: match self.effect.scope() {
                Some(s) => Some(scope_text(s)),
                None => None,
            },
            attributes: rendered_attributes(self.attributes, self.attributes.len() as int),
        }
    }
}

/// The first `n` attributes without the declared effect, each with its printed
/// form.
pub open spec fn rendered_attributes(
    attributes: Seq<(Seq<char>, AttributeView)>,
    n: int,
) -> Seq<(Seq<char>, Seq<char>)>
    decreases n,
{
    if n <= 0 {
        Seq::empty()
    } else if attributes[n - 1].0 == "effect"@ {
        rendered_attributes(attributes, n - 1)
    } else {
        rendered_attributes(attributes, n - 1).push(
            (attributes[n - 1].0, attributes[n - 1].1.text()),
        )
    }
}

/// The identity of a computation, for caching and deduplication.
#[derive(Debug, PartialEq, Eq, Hash)]
pub struct CacheKey {
    /// The operation name.
    pub name: OpName,
    /// The operation literal, e.g. the tool being called.
    pub literal: Option<String>,
    /// The operands, by identity.
    pub operands: Vec<ValueId>,
    /// The effect scope, if the effect has one.
    pub scope: Option<String>,
    /// Every attribute except `effect`, rendered for comparison.
    pub attributes: Vec<(String, String)>,
}

/// The mathematical content of a [`CacheKey`].
#[verifier::ext_equal]
pub ghost struct CacheKeyView {
    pub name: OpNameView,
    pub literal: Option<Seq<char>>,
    pub operands: Seq<ValueId>,
    pub scope: Option<Seq<char>>,
    pub attributes: Seq<(Seq<char>, Seq<char>)>,
}

impl View for CacheKey {
    type V = CacheKeyView;

    open spec fn view(&self) -> CacheKeyView {
        CacheKeyView {
            name: self.name@,
            literal: optional_text(self.literal),
            operands: self.operands@,
            scope: optional_text(self.scope),
            attributes: Seq::new(
                self.attributes@.len(),
                |i: int| (self.attributes@[i].0@, self.attributes@[i].1@),
            ),
        }
    }
}

impl Clone for CacheKey {
    /// A copy of the key.
    fn clone(&self) -> (r: CacheKey)
        ensures
            r@ == self@,
    {
        let mut attributes: Vec<(String, String)> = Vec::new();
        let mut i: usize = 0;
        while i < self.attributes.len()
            invariant
                i <= self.attributes@.len(),
                attributes@.len() == i,
                forall|j: int|
                    0 <= j < i ==> (#[trigger] attributes@[j]).0@ == self.attributes@[j].0@
                        && attributes@[j].1@ == self.attributes@[j].1@,
            decreases self.attributes@.len() - i,
        {
            let (name, text) = &self.attributes[i];
            attributes.push((name.clone(), text.clone()));
            i += 1;
        }
        let r = CacheKey {
            name: self.name.clone(),
            literal: copy_optional_text(&self.literal),
            operands: copy_all(&self.operands),
            scope: copy_optional_text(&self.scope),
            attributes,
        };
        assert(r@ =~= self@);
        r
    }
}

/// Whether two lists of handles are the same.
pub fn same_values(a: &Vec<ValueId>, b: &Vec<ValueId>) -> (r: bool)
    ensures
        r == (a@ == b@),
{
    if a.len() != b.len() {
        return false;
    }
    let mut i: usize = 0;
    while i < a.len()
        invariant
            i <= a@.len(),
            a@.len() == b@.len(),
            forall|j: int| 0 <= j < i ==> a@[j] == b@[j],
        decreases a@.len() - i,
    {
        if a[i] != b[i] {
            return false;
        }
        i += 1;
    }
    assert(a@ =~= b@);
    true
}

impl CacheKey {
    /// Whether two keys identify the same computation.
    pub fn same(&self, other: &CacheKey) -> (r: bool)
        ensures
            r == (self@ == other@),
    {
        if !self.name.same(&other.name) || !same_optional_text(&self.literal, &other.literal) {
            return false;
        }
        if !same_values(&self.operands, &other.operands) || !same_optional_text(
            &self.scope,
            &other.scope,
        ) {
            return false;
        }
        if self.attributes.len() != other.attributes.len() {
            assert(self@.attributes.len() != other@.attributes.len());
            return false;
        }
        let mut i: usize = 0;
        while i < self.attributes.len()
            invariant
                i <= self.attributes@.len(),
                self.attributes@.len() == other.attributes@.len(),
                forall|j: int| 0 <= j < i ==> self@.attributes[j] == other@.attributes[j],
            decreases self.attributes@.len() - i,
        {
            if !same_text(self.attributes[i].0.as_str(), other.attributes[i].0.as_str())
                || !same_text(self.attributes[i].1.as_str(), other.attributes[i].1.as_str()) {
                assert(self@.attributes[i as int] != other@.attributes[i as int]);
                return false;
            }
            i += 1;
        }
        assert(self@.attributes =~= other@.attributes);
        true
    }
}

impl Operation {
    /// Reads an attribute by name.
    pub fn attr(&self, key: &str) -> (r: Option<&Attribute>)
        ensures
            r is Some == self@.attr(key@) is Some,
            r matches Some(a) ==> self@.attr(key@) == Some(a@),
    {
        self.attributes.get(key)
    }

    /// Reads a string attribute.
    pub fn str_attr(&self, key: &str) -> (r: Option<&str>)
        ensures
            r is Some == self@.str_attr(key@) is Some,
            r matches Some(s) ==> self@.str_attr(key@) == Some(s@),
    {
        match self.attr(key) {
            Some(a) => a.as_str(),
            None => None,
        }
    }

    /// Reads an integer attribute.
    pub fn int_attr(&self, key: &str) -> (r: Option<i64>)
        ensures
            r == self@.int_attr(key@),
    {
        match self.attr(key) {
            Some(a) => a.as_int(),
            None => None,
        }
    }

    /// Reads a numeric attribute, widening integers.
    pub fn float_attr(&self, key: &str) -> (r: Option<Number>)
        ensures
            r == self@.float_attr(key@),
    {
        match self.attr(key) {
            Some(a) => a.as_float(),
            None => None,
        }
    }

    /// Reads a boolean attribute.
    pub fn bool_attr(&self, key: &str) -> (r: Option<bool>)
        ensures
            r == self@.bool_attr(key@),
    {
        match self.attr(key) {
            Some(a) => a.as_bool(),
            None => None,
        }
    }

    /// Sets an attribute, replacing any previous value.
    pub fn set_attr(&mut self, key: &str, value: Attribute)
        ensures
            final(self)@ == (OperationView {
                attributes: insert(old(self)@.attributes, key@, value@),
                ..old(self)@
            }),
    {
        self.attributes.insert(String::from_str(key), value);
    }

    /// The identity used by tool-call deduplication and result reuse: the
    /// operation name, its literal, its operands, its effect scope and its
    /// attributes.
    ///
    /// Two operations sharing a key compute the same thing, provided their
    /// effect is replayable, which the pass, not this function, must check.
    pub fn cache_key(&self) -> (r: CacheKey)
        ensures
            r@ == self@.cache_key(),
    {
        let mut attributes: Vec<(String, String)> = Vec::new();
        let mut i: usize = 0;
        while i < self.attributes.len()
            invariant
                i <= self.attributes@.len(),
                Seq::new(attributes@.len(), |j: int| (attributes@[j].0@, attributes@[j].1@))
                    == rendered_attributes(self.attributes@, i as int),
            decreases self.attributes@.len() - i,
        {
            let key = self.attributes.key_at(i);
            let ghost before = attributes@;
            if !same_text(key.as_str(), "effect") {
                attributes.push((key.clone(), self.attributes.value_at(i).to_string()));
            }
            i += 1;
            assert(Seq::new(attributes@.len(), |j: int| (attributes@[j].0@, attributes@[j].1@))
                =~= rendered_attributes(self.attributes@, i as int)) by {
                let old_seq = Seq::new(before.len(), |j: int| (before[j].0@, before[j].1@));
                if attributes@.len() > before.len() {
                    assert(Seq::new(
                        attributes@.len(),
                        |j: int| (attributes@[j].0@, attributes@[j].1@),
                    ) =~= old_seq.push((attributes@.last().0@, attributes@.last().1@)));
                }
            }
        }
        let scope: Option<String> = match self.effect.scope() {
            Some(s) => Some(s.to_string()),
            None => None,
        };
        CacheKey {
            name: self.name.clone(),
            literal: copy_optional_text(&self.literal),
            operands: copy_all(&self.operands),
            scope,
            attributes,
        }
    }
}

/// A block: an ordered list of operations, plus its arguments.
#[derive(Debug, PartialEq)]
pub struct Block {
    /// This block's handle.
    pub id: BlockId,
    /// The block arguments, in order.
    pub args: Vec<ValueId>,
    /// The operations it holds, in program order.
    pub ops: Vec<OperationId>,
    /// The region this block belongs to.
    pub parent: RegionId,
}

/// The mathematical content of a [`Block`].
#[verifier::ext_equal]
pub ghost struct BlockView {
    pub id: BlockId,
    pub args: Seq<ValueId>,
    pub ops: Seq<OperationId>,
    pub parent: RegionId,
}

impl View for Block {
    type V = BlockView;

    open spec fn view(&self) -> BlockView {
        BlockView { id: self.id, args: self.args@, ops: self.ops@, parent: self.parent }
    }
}

impl Clone for Block {
    /// A copy of the block.
    fn clone(&self) -> (r: Block)
        ensures
            r@ == self@,
    {
        Block {
            id: self.id,
            args: copy_all(&self.args),
            ops: copy_all(&self.ops),
            parent: self.parent,
        }
    }
}

/// A region: an ordered list of blocks owned by an operation.
#[derive(Debug, PartialEq)]
pub struct Region {
    /// This region's handle.
    pub id: RegionId,
    /// The blocks it holds, in order.
    pub blocks: Vec<BlockId>,
    /// The operation owning this region; `None` for the module body.
    pub parent: Option<OperationId>,
}

/// The mathematical content of a [`Region`].
#[verifier::ext_equal]
pub ghost struct RegionView {
    pub id: RegionId,
    pub blocks: Seq<BlockId>,
    pub parent: Option<OperationId>,
}

impl View for Region {
    type V = RegionView;

    open spec fn view(&self) -> RegionView {
        RegionView { id: self.id, blocks: self.blocks@, parent: self.parent }
    }
}

impl Clone for Region {
    /// A copy of the region.
    fn clone(&self) -> (r: Region)
        ensures
            r@ == self@,
    {
        Region { id: self.id, blocks: copy_all(&self.blocks), parent: self.parent }
    }
}

/// A complete IR module.
#[derive(Debug, PartialEq)]
pub struct Module {
    /// The module symbol name.
    pub name: String,
    /// The IR version. Bumped by the runtime each time an observation produces
    /// a new program.
    pub version: u64,
    /// The capabilities the agent holds while this module executes.
    pub capabilities: CapabilitySet,
    pub(crate) ops: Vec<Operation>,
    pub(crate) values: Vec<Value>,
    pub(crate) blocks: Vec<Block>,
    pub(crate) regions: Vec<Region>,
    pub(crate) body: RegionId,
}

/// The mathematical content of a [`Module`].
#[verifier::ext_equal]
pub ghost struct ModuleView {
    pub name: Seq<char>,
    pub version: u64,
    pub capabilities: CapabilitySetView,
    pub ops: Seq<OperationView>,
    pub values: Seq<ValueView>,
    pub blocks: Seq<BlockView>,
    pub regions: Seq<RegionView>,
    pub body: RegionId,
}

impl View for Module {
    type V = ModuleView;

    open(crate) spec fn view(&self) -> ModuleView {
        ModuleView {
            name: self.name@,
            version: self.version,
            capabilities: self.capabilities@,
            ops: Seq::new(self.ops@.len(), |i: int| self.ops@[i]@),
            values: Seq::new(self.values@.len(), |i: int| self.values@[i]@),
            blocks: Seq::new(self.blocks@.len(), |i: int| self.blocks@[i]@),
            regions: Seq::new(self.regions@.len(), |i: int| self.regions@[i]@),
            body: self.body,
        }
    }
}

impl Clone for Module {
    /// A copy of the module.
    fn clone(&self) -> (r: Module)
        ensures
            r@ == self@,
    {
        let r = Module {
            name: self.name.clone(),
            version: self.version,
            capabilities: self.capabilities.clone(),
            ops: clone_all(&self.ops),
            values: clone_all(&self.values),
            blocks: clone_all(&self.blocks),
            regions: clone_all(&self.regions),
            body: self.body,
        };
        assert(r@ =~= self@);
        r
    }
}

/// The declaration of one result of an operation: its name, type and origin.
pub ghost struct ResultView {
    pub name: Option<Seq<char>>,
    pub ty: TypeView,
    pub provenance: Provenance,
}

impl ModuleView {
    /// Whether a handle refers to an operation of the module.
    pub open spec fn has_op(self, id: OperationId) -> bool {
        id.spec_index() < self.ops.len()
    }

    /// Whether a handle refers to a value of the module.
    pub open spec fn has_value(self, id: ValueId) -> bool {
        id.spec_index() < self.values.len()
    }

    /// Whether a handle refers to a block of the module.
    pub open spec fn has_block(self, id: BlockId) -> bool {
        id.spec_index() < self.blocks.len()
    }

    /// Whether a handle refers to a region of the module.
    pub open spec fn has_region(self, id: RegionId) -> bool {
        id.spec_index() < self.regions.len()
    }

    /// An operation by handle.
    pub open spec fn op(self, id: OperationId) -> OperationView {
        self.ops[id.spec_index()]
    }

    /// A value by handle.
    pub open spec fn value(self, id: ValueId) -> ValueView {
        self.values[id.spec_index()]
    }

    /// A block by handle.
    pub open spec fn block(self, id: BlockId) -> BlockView {
        self.blocks[id.spec_index()]
    }

    /// A region by handle.
    pub open spec fn region(self, id: RegionId) -> RegionView {
        self.regions[id.spec_index()]
    }

    /// The module with one operation replaced.
    pub open spec fn set_op(self, id: OperationId, op: OperationView) -> ModuleView {
        ModuleView { ops: self.ops.update(id.spec_index(), op), ..self }
    }

    /// The module with one value replaced.
    pub open spec fn set_value(self, id: ValueId, value: ValueView) -> ModuleView {
        ModuleView { values: self.values.update(id.spec_index(), value), ..self }
    }

    /// The module with one block replaced.
    pub open spec fn set_block(self, id: BlockId, block: BlockView) -> ModuleView {
        ModuleView { blocks: self.blocks.update(id.spec_index(), block), ..self }
    }

    /// The module with one region replaced.
    pub open spec fn set_region(self, id: RegionId, region: RegionView) -> ModuleView {
        ModuleView { regions: self.regions.update(id.spec_index(), region), ..self }
    }

    /// The empty module of a name: one body region of one empty block.
    pub open spec fn empty(name: Seq<char>) -> ModuleView {
        ModuleView {
            name,
            version: 0,
            capabilities: CapabilitySetView::empty(),
            ops: Seq::empty(),
            values: Seq::empty(),
            blocks: seq![
                BlockView {
                    id: BlockId(0),
                    args: Seq::empty(),
                    ops: Seq::empty(),
                    parent: RegionId(0),
                },
            ],
            regions: seq![
                RegionView { id: RegionId(0), blocks: seq![BlockId(0)], parent: None },
            ],
            body: RegionId(0),
        }
    }

    /// The handle the next region gets.
    pub open spec fn next_region(self) -> RegionId {
        RegionId::at(self.regions.len() as int)
    }

    /// The handle the next block gets.
    pub open spec fn next_block(self) -> BlockId {
        BlockId::at(self.blocks.len() as int)
    }

    /// The handle the next operation gets.
    pub open spec fn next_op(self) -> OperationId {
        OperationId::at(self.ops.len() as int)
    }

    /// The handle the next value gets.
    pub open spec fn next_value(self) -> ValueId {
        ValueId::at(self.values.len() as int)
    }

    /// The module with an empty region added.
    pub open spec fn create_region(self, parent: Option<OperationId>) -> ModuleView {
        ModuleView {
            regions: self.regions.push(
                RegionView { id: self.next_region(), blocks: Seq::empty(), parent },
            ),
            ..self
        }
    }

    /// The module with an empty block added at the end of a region.
    pub open spec fn create_block(self, region: RegionId) -> ModuleView {
        let id = self.next_block();
        let r = self.region(region);
        ModuleView {
            blocks: self.blocks.push(
                BlockView { id, args: Seq::empty(), ops: Seq::empty(), parent: region },
            ),
            ..self
        }.set_region(region, RegionView { blocks: r.blocks.push(id), ..r })
    }

    /// The module with an argument appended to a block.
    pub open spec fn add_block_arg(
        self,
        block: BlockId,
        name: Option<Seq<char>>,
        ty: TypeView,
        provenance: Provenance,
    ) -> ModuleView {
        let id = self.next_value();
        let b = self.block(block);
        ModuleView {
            values: self.values.push(
                ValueView {
                    id,
                    name,
                    ty,
                    provenance,
                    def: ValueDef::BlockArg { block, index: b.args.len() as usize },
                },
            ),
            ..self
        }.set_block(block, BlockView { args: b.args.push(id), ..b })
    }

    /// The values that the results of the operation about to be created become.
    pub open spec fn result_values(self, results: Seq<ResultView>) -> Seq<ValueView> {
        let op = self.next_op();
        Seq::new(
            results.len(),
            |i: int|
                ValueView {
                    id: ValueId::at(self.values.len() + i),
                    name: results[i].name,
                    ty: results[i].ty,
                    provenance: Provenance { producer: Some(op), ..results[i].provenance },
                    def: ValueDef::OpResult { op, index: i as usize },
                },
        )
    }

    /// The module with an operation created, in no block yet.
    pub open spec fn create_op(
        self,
        name: OpNameView,
        literal: Option<Seq<char>>,
        operands: Seq<ValueId>,
        results: Seq<ResultView>,
        attributes: Seq<(Seq<char>, AttributeView)>,
        effect: EffectView,
    ) -> ModuleView {
        ModuleView {
            values: self.values + self.result_values(results),
            ops: self.ops.push(
                OperationView {
                    id: self.next_op(),
                    name,
                    literal,
                    operands,
                    results: Seq::new(
                        results.len(),
                        |i: int| ValueId::at(self.values.len() + i),
                    ),
                    attributes,
                    effect,
                    regions: Seq::empty(),
                    parent: None,
                    erased: false,
                },
            ),
            ..self
        }
    }

    /// The module with an empty region added to an operation.
    pub open spec fn create_op_region(self, op: OperationId) -> ModuleView {
        let o = self.op(op);
        self.create_region(Some(op)).set_op(
            op,
            OperationView { regions: o.regions.push(self.next_region()), ..o },
        )
    }

    /// The module with an operation inserted at a position of a block.
    pub open spec fn insert_in_block(self, block: BlockId, index: int, op: OperationId) -> ModuleView {
        let b = self.block(block);
        self.set_op(op, OperationView { parent: Some(block), ..self.op(op) }).set_block(
            block,
            BlockView { ops: b.ops.insert(index, op), ..b },
        )
    }

    /// The module with an operation appended to a block.
    pub open spec fn append_to_block(self, block: BlockId, op: OperationId) -> ModuleView {
        let b = self.block(block);
        self.set_op(op, OperationView { parent: Some(block), ..self.op(op) }).set_block(
            block,
            BlockView { ops: b.ops.push(op), ..b },
        )
    }

    /// The module with an operation taken out of its block.
    pub open spec fn detach(self, op: OperationId) -> ModuleView {
        match self.op(op).parent {
            Some(block) => {
                let b = self.block(block);
                self.set_block(block, BlockView { ops: without(b.ops, op), ..b }).set_op(
                    op,
                    OperationView { parent: None, ..self.op(op) },
                )
            },
            None => self,
        }
    }

    /// The module with an operation removed from the program.
    pub open spec fn erase(self, op: OperationId) -> ModuleView {
        let m = self.detach(op);
        m.set_op(op, OperationView { erased: true, ..m.op(op) })
    }

    /// The module with every use of a value in a live operation replaced.
    pub open spec fn replace_all_uses(self, from: ValueId, to: ValueId) -> ModuleView {
        ModuleView {
            ops: Seq::new(
                self.ops.len(),
                |i: int|
                    if self.ops[i].erased {
                        self.ops[i]
                    } else {
                        OperationView {
                            operands: replaced(self.ops[i].operands, from, to),
                            ..self.ops[i]
                        }
                    },
            ),
            ..self
        }
    }

    /// How many operand slots of the first `n` operations use a value, erased
    /// operations aside.
    pub open spec fn use_count(self, value: ValueId, n: int) -> nat
        decreases n,
    {
        if n <= 0 {
            0
        } else {
            self.use_count(value, n - 1) + if self.ops[n - 1].erased {
                0
            } else {
                occurrences(self.ops[n - 1].operands, value, self.ops[n - 1].operands.len() as int)
            }
        }
    }

    /// The live operations directly inside the first `n` blocks of a list.
    pub open spec fn live_ops(self, blocks: Seq<BlockId>, n: int) -> Seq<OperationId>
        decreases n,
    {
        if n <= 0 {
            Seq::empty()
        } else {
            self.live_ops(blocks, n - 1) + self.live(self.block(blocks[n - 1]).ops)
        }
    }

    /// The operations of a list that are not erased.
    pub open spec fn live(self, ops: Seq<OperationId>) -> Seq<OperationId> {
        ops.filter(|op: OperationId| !self.op(op).erased)
    }

    /// The live operations directly inside a region, in order.
    pub open spec fn ops_in_region(self, region: RegionId) -> Seq<OperationId> {
        let blocks = self.region(region).blocks;
        self.live_ops(blocks, blocks.len() as int)
    }

    /// The operation owning the region an operation sits in, if any.
    pub open spec fn parent_op(self, op: OperationId) -> Option<OperationId> {
        match self.op(op).parent {
            Some(block) => self.region(self.block(block).parent).parent,
            None => None,
        }
    }

    /// The first of the operations that is an `agent.func` of the given name.
    pub open spec fn find_function(
        self,
        ops: Seq<OperationId>,
        from: int,
        name: Seq<char>,
    ) -> Option<OperationId>
        decreases ops.len() - from,
    {
        if from >= ops.len() {
            None
        } else if self.op(ops[from]).name.is("agent"@, "func"@) && self.op(ops[from]).literal
            == Some(name) {
            Some(ops[from])
        } else {
            self.find_function(ops, from + 1, name)
        }
    }

    /// The top-level `agent.func` of a name.
    pub open spec fn function(self, name: Seq<char>) -> Option<OperationId> {
        self.find_function(self.ops_in_region(self.body), 0, name)
    }
}

/// A list without any occurrence of one operation.
pub open spec fn without(ops: Seq<OperationId>, op: OperationId) -> Seq<OperationId> {
    ops.filter(|o: OperationId| o != op)
}

/// A list of operands with every occurrence of one value replaced by another.
pub open spec fn replaced(operands: Seq<ValueId>, from: ValueId, to: ValueId) -> Seq<ValueId> {
    Seq::new(
        operands.len(),
        |i: int|
            if operands[i] == from {
                to
            } else {
                operands[i]
            },
    )
}

/// How often a value occurs among the first `n` operands.
pub open spec fn occurrences(operands: Seq<ValueId>, value: ValueId, n: int) -> nat
    decreases n,
{
    if n <= 0 {
        0
    } else {
        occurrences(operands, value, n - 1) + if operands[n - 1] == value {
            1nat
        } else {
            0
        }
    }
}

impl Module {
    /// An empty module with a single-block body region.
    pub fn new(name: &str) -> (r: Module)
        ensures
            r@ == ModuleView::empty(name@),
    {
        let mut module = Module {
            name: String::from_str(name),
            version: 0,
            capabilities: CapabilitySet::empty(),
            ops: Vec::new(),
            values: Vec::new(),
            blocks: Vec::new(),
            regions: Vec::new(),
            body: RegionId(0),
        };
        let body = module.create_region(None);
        module.create_block(body);
        module.body = body;
        assert(module@.regions[0].blocks =~= seq![BlockId(0)]);
        assert(module@ =~= ModuleView::empty(name@));
        module
    }

    /// The module body region, holding the top-level operations.
    pub fn body(&self) -> (r: RegionId)
        ensures
            r == self@.body,
    {
        self.body
    }

    /// The first block of the module body.
    pub fn body_block(&self) -> (r: BlockId)
        requires
            self@.has_region(self@.body),
            self@.region(self@.body).blocks.len() > 0,
        ensures
            r == self@.region(self@.body).blocks[0],
    {
        self.region(self.body).blocks[0]
    }

    /// An operation by handle.
    pub fn op(&self, id: OperationId) -> (r: &Operation)
        requires
            self@.has_op(id),
        ensures
            r@ == self@.op(id),
    {
        &self.ops[id.index()]
    }

    /// An operation by handle, mutably.
    pub fn op_mut(&mut self, id: OperationId) -> (r: &mut Operation)
        requires
            old(self)@.has_op(id),
        ensures
            r@ == old(self)@.op(id),
            final(self)@ == old(self)@.set_op(id, final(r)@),
    {
        let i: usize = id.index();
        let ghost before = self@;
        assert(forall|o: Operation|
            Seq::new(self.ops@.len(), |j: int| self.ops@.update(i as int, o)[j]@)
                =~= before.ops.update(i as int, o@));
        &mut self.ops[i]
    }

    /// A value by handle.
    pub fn value(&self, id: ValueId) -> (r: &Value)
        requires
            self@.has_value(id),
        ensures
            r@ == self@.value(id),
    {
        &self.values[id.index()]
    }

    /// A value by handle, mutably.
    pub fn value_mut(&mut self, id: ValueId) -> (r: &mut Value)
        requires
            old(self)@.has_value(id),
        ensures
            r@ == old(self)@.value(id),
            final(self)@ == old(self)@.set_value(id, final(r)@),
    {
        let i: usize = id.index();
        let ghost before = self@;
        assert(forall|v: Value|
            Seq::new(self.values@.len(), |j: int| self.values@.update(i as int, v)[j]@)
                =~= before.values.update(i as int, v@));
        &mut self.values[i]
    }

    /// A block by handle.
    pub fn block(&self, id: BlockId) -> (r: &Block)
        requires
            self@.has_block(id),
        ensures
            r@ == self@.block(id),
    {
        &self.blocks[id.index()]
    }

    /// A block by handle, mutably.
    pub fn block_mut(&mut self, id: BlockId) -> (r: &mut Block)
        requires
            old(self)@.has_block(id),
        ensures
            r@ == old(self)@.block(id),
            final(self)@ == old(self)@.set_block(id, final(r)@),
    {
        let i: usize = id.index();
        let ghost before = self@;
        assert(forall|b: Block|
            Seq::new(self.blocks@.len(), |j: int| self.blocks@.update(i as int, b)[j]@)
                =~= before.blocks.update(i as int, b@));
        &mut self.blocks[i]
    }

    /// A region by handle.
    pub fn region(&self, id: RegionId) -> (r: &Region)
        requires
            self@.has_region(id),
        ensures
            r@ == self@.region(id),
    {
        &self.regions[id.index()]
    }

    /// A region by handle, mutably.
    pub fn region_mut(&mut self, id: RegionId) -> (r: &mut Region)
        requires
            old(self)@.has_region(id),
        ensures
            r@ == old(self)@.region(id),
            final(self)@ == old(self)@.set_region(id, final(r)@),
    {
        let i: usize = id.index();
        let ghost before = self@;
        assert(forall|b: Region|
            Seq::new(self.regions@.len(), |j: int| self.regions@.update(i as int, b)[j]@)
                =~= before.regions.update(i as int, b@));
        &mut self.regions[i]
    }

    /// Creates a region, optionally owned by an operation.
    pub fn create_region(&mut self, parent: Option<OperationId>) -> (r: RegionId)
        requires
            old(self)@.regions.len() <= u32::MAX,
        ensures
            r == old(self)@.next_region(),
            final(self)@ == old(self)@.create_region(parent),
    {
        let id = RegionId::from_index(self.regions.len());
        self.regions.push(Region { id, blocks: Vec::new(), parent });
        assert(self@.regions.last().blocks =~= Seq::empty());
        assert(self@ =~= old(self)@.create_region(parent));
        id
    }

    /// Creates a block at the end of a region.
    pub fn create_block(&mut self, region: RegionId) -> (r: BlockId)
        requires
            old(self)@.has_region(region),
            old(self)@.blocks.len() <= u32::MAX,
        ensures
            r == old(self)@.next_block(),
            final(self)@ == old(self)@.create_block(region),
    {
        let id = BlockId::from_index(self.blocks.len());
        self.blocks.push(Block { id, args: Vec::new(), ops: Vec::new(), parent: region });
        assert(self@.blocks.last().args =~= Seq::empty());
        assert(self@.blocks.last().ops =~= Seq::empty());
        self.region_mut(region).blocks.push(id);
        assert(self@ =~= old(self)@.create_block(region));
        id
    }
}

/// The content of the declarations of some results.
pub open spec fn result_views(results: Seq<(Option<String>, Type, Provenance)>) -> Seq<ResultView> {
    Seq::new(
        results.len(),
        |i: int|
            ResultView {
                name: optional_text(results[i].0),
                ty: results[i].1@,
                provenance: results[i].2,
            },
    )
}

impl Module {
    /// Appends an argument to a block and returns the value that names it.
    pub fn add_block_arg(
        &mut self,
        block: BlockId,
        name: Option<String>,
        ty: Type,
        provenance: Provenance,
    ) -> (r: ValueId)
        requires
            old(self)@.has_block(block),
            old(self)@.values.len() <= u32::MAX,
        ensures
            r == old(self)@.next_value(),
            final(self)@ == old(self)@.add_block_arg(block, optional_text(name), ty@, provenance),
    {
        let index: usize = self.block(block).args.len();
        let id = ValueId::from_index(self.values.len());
        self.values.push(
            Value { id, name, ty, provenance, def: ValueDef::BlockArg { block, index } },
        );
        self.block_mut(block).args.push(id);
        assert(self@ =~= old(self)@.add_block_arg(block, optional_text(name), ty@, provenance));
        id
    }

    /// Creates an operation without inserting it into a block.
    ///
    /// Callers normally go through [`Builder`](crate::builder::Builder), which
    /// inserts as it builds; this is the primitive the builder and the parser
    /// share.
    pub fn create_op(
        &mut self,
        name: OpName,
        literal: Option<String>,
        operands: Vec<ValueId>,
        result_types: Vec<(Option<String>, Type, Provenance)>,
        attributes: Attributes,
        effect: Effect,
    ) -> (r: OperationId)
        requires
            old(self)@.ops.len() <= u32::MAX,
            old(self)@.values.len() + result_types@.len() <= u32::MAX + 1,
        ensures
            r == old(self)@.next_op(),
            final(self)@ == old(self)@.create_op(
                name@,
                optional_text(literal),
                operands@,
                result_views(result_types@),
                attributes@,
                effect@,
            ),
    {
        let ghost declared = result_views(result_types@);
        let ghost created = self@.result_values(declared);
        let ghost before = self@;
        let id = OperationId::from_index(self.ops.len());
        let total: usize = result_types.len();
        let mut results: Vec<ValueId> = Vec::new();
        let mut index: usize = 0;
        for entry in it: result_types
            invariant
                it.seq() == result_types@,
                index == it.index(),
                index <= total,
                total == result_types@.len(),
                results@.len() == index,
                id == before.next_op(),
                declared == result_views(result_types@),
                created == before.result_values(declared),
                before.values.len() + result_types@.len() <= u32::MAX + 1,
                forall|i: int|
                    0 <= i < index ==> #[trigger] results@[i] == ValueId::at(
                        before.values.len() + i,
                    ),
                self@ == (ModuleView { values: before.values + created.take(index as int), ..before }),
        {
            let (value_name, ty, mut provenance) = entry;
            assert(entry == result_types@[index as int]);
            assert(self@.values.len() == self.values@.len());
            assert(self@.values.len() == before.values.len() + index);
            let value_id = ValueId::from_index(self.values.len());
            provenance.producer = Some(id);
            let ghost previous = self@;
            self.values.push(
                Value {
                    id: value_id,
                    name: value_name,
                    ty,
                    provenance,
                    def: ValueDef::OpResult { op: id, index },
                },
            );
            results.push(value_id);
            assert(self@.values.last() =~= created[index as int]);
            assert(self@.values =~= previous.values.push(created[index as int]));
            assert(self@.values =~= before.values + created.take(index + 1));
            assert(self@ =~= (ModuleView {
                values: before.values + created.take(index + 1),
                ..before
            }));
            index += 1;
        }
        assert(created.take(created.len() as int) =~= created);
        let ghost result_ids = results@;
        self.ops.push(
            Operation {
                id,
                name,
                literal,
                operands,
                results,
                attributes,
                effect,
                regions: Vec::new(),
                parent: None,
                erased: false,
            },
        );
        let ghost expected = before.create_op(
            name@,
            optional_text(literal),
            operands@,
            declared,
            attributes@,
            effect@,
        );
        assert(self@.ops.last().results =~= expected.ops.last().results);
        assert(self@.ops.last().regions =~= Seq::empty());
        assert(self@.ops =~= expected.ops);
        assert(self@ =~= expected);
        id
    }

    /// Creates a region owned by `op` and records it on the operation.
    pub fn create_op_region(&mut self, op: OperationId) -> (r: RegionId)
        requires
            old(self)@.has_op(op),
            old(self)@.regions.len() <= u32::MAX,
        ensures
            r == old(self)@.next_region(),
            final(self)@ == old(self)@.create_op_region(op),
    {
        let region = self.create_region(Some(op));
        self.op_mut(op).regions.push(region);
        assert(self@ =~= old(self)@.create_op_region(op));
        region
    }

    /// Appends an operation to the end of a block.
    pub fn append_to_block(&mut self, block: BlockId, op: OperationId)
        requires
            old(self)@.has_block(block),
            old(self)@.has_op(op),
            old(self)@.op(op).parent is None,
        ensures
            final(self)@ == old(self)@.append_to_block(block, op),
    {
        self.op_mut(op).parent = Some(block);
        self.block_mut(block).ops.push(op);
        assert(self@ =~= old(self)@.append_to_block(block, op));
    }

    /// Inserts an operation at a position in a block.
    pub fn insert_in_block(&mut self, block: BlockId, index: usize, op: OperationId)
        requires
            old(self)@.has_block(block),
            old(self)@.has_op(op),
            old(self)@.op(op).parent is None,
            index <= old(self)@.block(block).ops.len(),
        ensures
            final(self)@ == old(self)@.insert_in_block(block, index as int, op),
    {
        self.op_mut(op).parent = Some(block);
        self.block_mut(block).ops.insert(index, op);
        assert(self@ =~= old(self)@.insert_in_block(block, index as int, op));
    }

    /// Detaches an operation from its block without erasing it.
    pub fn detach(&mut self, op: OperationId)
        requires
            old(self)@.has_op(op),
            old(self)@.op(op).parent matches Some(block) ==> old(self)@.has_block(block),
        ensures
            final(self)@ == old(self)@.detach(op),
    {
        let parent = self.op(op).parent;
        if let Some(block) = parent {
            let kept = drop_op(&self.block(block).ops, op);
            self.block_mut(block).ops = kept;
            self.op_mut(op).parent = None;
            assert(self@ =~= old(self)@.detach(op));
        }
    }

    /// Removes an operation from the program.
    ///
    /// The arena slot survives as a tombstone so that handles already given out
    /// stay meaningful in diagnostics and pass reports.
    pub fn erase(&mut self, op: OperationId)
        requires
            old(self)@.has_op(op),
            old(self)@.op(op).parent matches Some(block) ==> old(self)@.has_block(block),
        ensures
            final(self)@ == old(self)@.erase(op),
    {
        self.detach(op);
        self.op_mut(op).erased = true;
        assert(self@ =~= old(self)@.erase(op));
    }

    /// Moves an operation to the end of another block.
    pub fn move_to_end(&mut self, op: OperationId, block: BlockId)
        requires
            old(self)@.has_op(op),
            old(self)@.has_block(block),
            old(self)@.op(op).parent matches Some(b) ==> old(self)@.has_block(b),
        ensures
            final(self)@ == old(self)@.detach(op).append_to_block(block, op),
    {
        self.detach(op);
        self.append_to_block(block, op);
    }

    /// The position of an operation inside its block.
    pub fn position_in_block(&self, op: OperationId) -> (r: Option<usize>)
        requires
            self@.has_op(op),
            self@.op(op).parent matches Some(block) ==> self@.has_block(block),
        ensures
            match r {
                Some(i) => self@.op(op).parent matches Some(block) && position_of(
                    self@.block(block).ops,
                    op,
                    i as int,
                ),
                None => self@.op(op).parent matches Some(block) ==> !self@.block(
                    block,
                ).ops.contains(op),
            },
    {
        match self.op(op).parent {
            None => None,
            Some(block) => find_op(&self.block(block).ops, op),
        }
    }

    /// Rewrites every use of `from` into a use of `to`, and returns how many
    /// operand slots changed. The count stops at the largest `usize`.
    pub fn replace_all_uses(&mut self, from: ValueId, to: ValueId) -> (r: usize)
        ensures
            final(self)@ == old(self)@.replace_all_uses(from, to),
            r == capped(old(self)@.use_count(from, old(self)@.ops.len() as int)),
    {
        let mut count: usize = 0;
        let mut i: usize = 0;
        let ghost before = self@;
        let ghost after = self@.replace_all_uses(from, to);
        while i < self.ops.len()
            invariant
                i <= self.ops@.len(),
                self@.ops.len() == before.ops.len(),
                after == before.replace_all_uses(from, to),
                count == capped(before.use_count(from, i as int)),
                self@ == (ModuleView { ops: self@.ops, ..before }),
                forall|j: int| 0 <= j < i ==> self@.ops[j] == after.ops[j],
                forall|j: int| i <= j < self@.ops.len() ==> self@.ops[j] == before.ops[j],
            decreases self.ops@.len() - i,
        {
            let ghost current = self@;
            if !self.ops[i].erased {
                assert(self@.ops[i as int] == before.ops[i as int]);
                let (operands, changed) = replace_operands(&self.ops[i].operands, from, to, count);
                self.ops[i].operands = operands;
                count = changed;
            }
            assert(self@.ops =~= current.ops.update(i as int, after.ops[i as int]));
            assert(self@ =~= (ModuleView { ops: self@.ops, ..before }));
            i += 1;
        }
        assert(self@ =~= after);
        count
    }
}

/// A count that stops at the largest `usize`.
pub open spec fn capped(n: nat) -> nat {
    if n <= usize::MAX {
        n
    } else {
        usize::MAX as nat
    }
}

/// Whether `i` is the first position of an operation in a list.
pub open spec fn position_of(ops: Seq<OperationId>, op: OperationId, i: int) -> bool {
    0 <= i < ops.len() && ops[i] == op && forall|j: int| 0 <= j < i ==> ops[j] != op
}

fn find_op(ops: &Vec<OperationId>, op: OperationId) -> (r: Option<usize>)
    ensures
        match r {
            Some(i) => position_of(ops@, op, i as int),
            None => !ops@.contains(op),
        },
{
    let mut i: usize = 0;
    while i < ops.len()
        invariant
            i <= ops@.len(),
            forall|j: int| 0 <= j < i ==> ops@[j] != op,
        decreases ops@.len() - i,
    {
        if ops[i] == op {
            return Some(i);
        }
        i += 1;
    }
    None
}

fn drop_op(ops: &Vec<OperationId>, op: OperationId) -> (r: Vec<OperationId>)
    ensures
        r@ == without(ops@, op),
{
    let mut r: Vec<OperationId> = Vec::new();
    let mut i: usize = 0;
    proof {
        reveal(Seq::filter);
        assert(without(ops@.take(0), op) =~= Seq::empty());
    }
    while i < ops.len()
        invariant
            i <= ops@.len(),
            r@ == without(ops@.take(i as int), op),
        decreases ops@.len() - i,
    {
        proof {
            reveal(Seq::filter);
            assert(ops@.take(i + 1).drop_last() =~= ops@.take(i as int));
        }
        if ops[i] != op {
            r.push(ops[i]);
        }
        i += 1;
    }
    assert(ops@.take(i as int) =~= ops@);
    r
}

fn replace_operands(operands: &Vec<ValueId>, from: ValueId, to: ValueId, count: usize) -> (r: (
    Vec<ValueId>,
    usize,
))
    ensures
        r.0@ == replaced(operands@, from, to),
        r.1 == capped(count as nat + occurrences(operands@, from, operands@.len() as int)),
{
    let mut out: Vec<ValueId> = Vec::new();
    let mut total: usize = count;
    let mut i: usize = 0;
    while i < operands.len()
        invariant
            i <= operands@.len(),
            total == capped(count as nat + occurrences(operands@, from, i as int)),
            out@.len() == i,
            forall|j: int| 0 <= j < i ==> out@[j] == replaced(operands@, from, to)[j],
        decreases operands@.len() - i,
    {
        if operands[i] == from {
            out.push(to);
            if total < usize::MAX {
                total += 1;
            }
        } else {
            out.push(operands[i]);
        }
        i += 1;
    }
    assert(out@ =~= replaced(operands@, from, to));
    (out, total)
}

} // verus!
