//! Static operation attributes.
//!
//! Attributes are the compile-time half of an operation: everything the
//! compiler can read without running anything. Dynamic data travels as value
//! operands instead.

use vstd::prelude::*;
use vstd::string::*;

use crate::assoc::{entry_keys, insert, insert_replaces_one, keys, lookup, slot_of, sorted};
use crate::effect::{Effect, EffectView};
use crate::number::Number;
use crate::text::{chars_of, int_text, push_int, same_text};

verus! {

/// A compile-time constant attached to an operation.
#[derive(Debug, PartialEq)]
pub enum Attribute {
    /// An integer literal.
    Int(i64),
    /// A floating point literal.
    Float(Number),
    /// A boolean literal.
    Bool(bool),
    /// A string literal.
    Str(String),
    /// An effect literal, written `#pure`, `#read_external<web>`, ...
    Effect(Effect),
    /// An ordered list of attributes.
    Array(Vec<Attribute>),
    /// A nested dictionary, keyed in name order.
    Dict(Attributes),
}

/// An attribute dictionary, in key order.
#[derive(Debug, PartialEq)]
pub struct Attributes {
    entries: Vec<(String, Attribute)>,
}

/// The mathematical content of an [`Attribute`].
#[verifier::ext_equal]
pub ghost enum AttributeView {
    Int(i64),
    Float(Number),
    Bool(bool),
    Str(Seq<char>),
    Effect(EffectView),
    Array(Seq<AttributeView>),
    Dict(Seq<(Seq<char>, AttributeView)>),
}

impl View for Attribute {
    type V = AttributeView;

    closed spec fn view(&self) -> AttributeView
        decreases self,
    {
        match self {
            Attribute::Int(v) => AttributeView::Int(*v),
            Attribute::Float(v) => AttributeView::Float(*v),
            Attribute::Bool(v) => AttributeView::Bool(*v),
            Attribute::Str(v) => AttributeView::Str(v@),
            Attribute::Effect(e) => AttributeView::Effect(e@),
            Attribute::Array(items) => AttributeView::Array(
                Seq::new(
                    items@.len(),
                    |i: int|
                        if 0 <= i < items@.len() {
                            items@[i].view()
                        } else {
                            arbitrary()
                        },
                ),
            ),
            Attribute::Dict(d) => AttributeView::Dict(
                Seq::new(
                    d.entries@.len(),
                    |i: int|
                        if 0 <= i < d.entries@.len() {
                            (d.entries@[i].0@, d.entries@[i].1.view())
                        } else {
                            arbitrary()
                        },
                ),
            ),
        }
    }
}

/// The content of each attribute of a list.
pub open spec fn attribute_views(items: Seq<Attribute>) -> Seq<AttributeView> {
    Seq::new(items.len(), |i: int| items[i]@)
}

impl View for Attributes {
    type V = Seq<(Seq<char>, AttributeView)>;

    closed spec fn view(&self) -> Seq<(Seq<char>, AttributeView)> {
        pairs(self.entries@)
    }
}

/// What each kind of attribute holds.
pub broadcast proof fn attribute_view(a: Attribute)
    ensures
        #[trigger] a@ == match a {
            Attribute::Int(v) => AttributeView::Int(v),
            Attribute::Float(v) => AttributeView::Float(v),
            Attribute::Bool(v) => AttributeView::Bool(v),
            Attribute::Str(v) => AttributeView::Str(v@),
            Attribute::Effect(e) => AttributeView::Effect(e@),
            Attribute::Array(items) => AttributeView::Array(attribute_views(items@)),
            Attribute::Dict(d) => AttributeView::Dict(d@),
        },
{
    match a {
        Attribute::Array(items) => {
            reveal_with_fuel(<Attribute as View>::view, 2);
            assert(a@->Array_0 =~= attribute_views(items@));
        },
        Attribute::Dict(d) => {
            reveal_with_fuel(<Attribute as View>::view, 2);
            assert(a@->Dict_0 =~= d@);
        },
        _ => {},
    }
}

/// The two-character form of a character that cannot stand in a literal as it
/// is, or the character itself.
pub open spec fn escaped_char(c: char) -> Seq<char> {
    if c == '"' {
        seq!['\\', '"']
    } else if c == '\\' {
        seq!['\\', '\\']
    } else if c == '\n' {
        seq!['\\', 'n']
    } else if c == '\t' {
        seq!['\\', 't']
    } else if c == '\r' {
        seq!['\\', 'r']
    } else {
        seq![c]
    }
}

/// A string with every character in its escaped form.
pub open spec fn escaped(s: Seq<char>) -> Seq<char>
    decreases s.len(),
{
    if s.len() == 0 {
        Seq::empty()
    } else {
        escaped_char(s[0]) + escaped(s.drop_first())
    }
}

/// Appends the escaped form of a string.
pub fn push_escaped(out: &mut String, s: &str)
    ensures
        final(out)@ == old(out)@ + escaped(s@),
{
    let chars = chars_of(s);
    let mut i: usize = 0;
    assert(chars@.skip(0) =~= s@);
    while i < chars.len()
        invariant
            i <= chars@.len(),
            chars@ == s@,
            out@ + escaped(s@.skip(i as int)) == old(out)@ + escaped(s@),
        decreases chars@.len() - i,
    {
        let c = chars[i];
        let ghost before = out@;
        let ghost rest = s@.skip(i as int);
        assert(rest.drop_first() =~= s@.skip(i + 1));
        if c == '"' {
            out.push('\\');
            out.push('"');
        } else if c == '\\' {
            out.push('\\');
            out.push('\\');
        } else if c == '\n' {
            out.push('\\');
            out.push('n');
        } else if c == '\t' {
            out.push('\\');
            out.push('t');
        } else if c == '\r' {
            out.push('\\');
            out.push('r');
        } else {
            out.push(c);
        }
        assert(out@ =~= before + escaped_char(c));
        assert(out@ + escaped(s@.skip(i + 1)) =~= before + escaped(rest));
        i += 1;
    }
    assert(out@ =~= old(out)@ + escaped(s@));
}

/// Escapes a string for the textual syntax.
pub fn escape(s: &str) -> (r: String)
    ensures
        r@ == escaped(s@),
{
    let mut out = String::new();
    push_escaped(&mut out, s);
    assert(out@ =~= escaped(s@));
    out
}

/// The printed form of a boolean.
pub open spec fn bool_text(b: bool) -> Seq<char> {
    if b {
        "true"@
    } else {
        "false"@
    }
}

/// The items of a list from position `i` on, each but the first of the list
/// preceded by a comma and a space.
pub open spec fn items_text(items: Seq<AttributeView>, i: int) -> Seq<char>
    decreases items, items.len() - i,
    via items_text_decreases
{
    if i < 0 || i >= items.len() {
        Seq::empty()
    } else {
        (if i > 0 {
            ", "@
        } else {
            Seq::empty()
        }) + items[i].text() + items_text(items, i + 1)
    }
}

#[via_fn]
proof fn items_text_decreases(items: Seq<AttributeView>, i: int) {
}

/// The entries of a dictionary from position `i` on, each but the first of the
/// dictionary preceded by a comma and a space.
pub open spec fn entries_text(entries: Seq<(Seq<char>, AttributeView)>, i: int) -> Seq<char>
    decreases entries, entries.len() - i,
    via entries_text_decreases
{
    if i < 0 || i >= entries.len() {
        Seq::empty()
    } else {
        (if i > 0 {
            ", "@
        } else {
            Seq::empty()
        }) + entries[i].0 + " = "@ + entries[i].1.text() + entries_text(entries, i + 1)
    }
}

#[via_fn]
proof fn entries_text_decreases(entries: Seq<(Seq<char>, AttributeView)>, i: int) {
    if 0 <= i < entries.len() {
        assert(decreases_to!(entries => entries[i]));
        assert(decreases_to!(entries[i] => entries[i].1));
    }
}

impl AttributeView {
    /// The printed form of the attribute.
    pub open spec fn text(self) -> Seq<char>
        decreases self, 0int,
    {
        match self {
            AttributeView::Int(v) => int_text(v as int),
            AttributeView::Float(v) => v.literal_text(),
            AttributeView::Bool(v) => bool_text(v),
            AttributeView::Str(v) => "\""@ + escaped(v) + "\""@,
            AttributeView::Effect(e) => e.text(),
            AttributeView::Array(items) => "["@ + items_text(items, 0) + "]"@,
            AttributeView::Dict(entries) => "{"@ + entries_text(entries, 0) + "}"@,
        }
    }
}

/// The content of a list of entries.
spec fn pairs(entries: Seq<(String, Attribute)>) -> Seq<(Seq<char>, AttributeView)> {
    Seq::new(entries.len(), |i: int| (entries[i].0@, entries[i].1@))
}

impl Attributes {
    /// The entries are in the order of their keys.
    #[verifier::type_invariant]
    spec fn is_in_order(self) -> bool {
        sorted(keys(self@))
    }

    /// A dictionary without entries.
    pub fn new() -> (r: Attributes)
        ensures
            r@ == Seq::<(Seq<char>, AttributeView)>::empty(),
    {
        let entries: Vec<(String, Attribute)> = Vec::new();
        assert(pairs(entries@) =~= Seq::empty());
        Attributes { entries }
    }

    /// How many entries the dictionary has.
    pub fn len(&self) -> (r: usize)
        ensures
            r == self@.len(),
            sorted(keys(self@)),
    {
        proof {
            use_type_invariant(self);
        }
        self.entries.len()
    }

    /// Whether the dictionary has no entries.
    pub fn is_empty(&self) -> (r: bool)
        ensures
            r == (self@.len() == 0),
    {
        self.entries.len() == 0
    }

    /// The key of the entry at a position.
    pub fn key_at(&self, i: usize) -> (r: &String)
        requires
            i < self@.len(),
        ensures
            r@ == self@[i as int].0,
    {
        &self.entries[i].0
    }

    /// The value of the entry at a position.
    pub fn value_at(&self, i: usize) -> (r: &Attribute)
        requires
            i < self@.len(),
        ensures
            r@ == self@[i as int].1,
            decreases_to!(self => r),
    {
        proof {
            assert(decreases_to!(self => self.entries));
            assert(decreases_to!(self.entries => self.entries[i as int]));
            assert(decreases_to!(self.entries[i as int] => self.entries[i as int].1));
        }
        &self.entries[i].1
    }

    /// Reads the value stored under a key.
    pub fn get(&self, key: &str) -> (r: Option<&Attribute>)
        ensures
            r is Some == lookup(self@, key@) is Some,
            r matches Some(a) ==> lookup(self@, key@) == Some(a@),
    {
        let p: usize = slot_of(&self.entries, key);
        assert(entry_keys(self.entries@) =~= keys(self@));
        if p < self.entries.len() && same_text(self.entries[p].0.as_str(), key) {
            Some(&self.entries[p].1)
        } else {
            None
        }
    }

    /// Stores a value under a key, replacing what was there.
    pub fn insert(&mut self, key: String, value: Attribute)
        ensures
            final(self)@ == insert(old(self)@, key@, value@),
            sorted(keys(final(self)@)),
            lookup(final(self)@, key@) == Some(value@),
            forall|other: Seq<char>|
                other != key@ ==> #[trigger] lookup(final(self)@, other) == lookup(
                    old(self)@,
                    other,
                ),
    {
        proof {
            use_type_invariant(&*self);
            insert_replaces_one(self@, key@, value@);
        }
        let mut taken = Attributes::new();
        core::mem::swap(self, &mut taken);
        let ghost before = taken@;
        let Attributes { mut entries } = taken;
        let p: usize = slot_of(&entries, key.as_str());
        assert(entry_keys(entries@) =~= keys(before));
        if p < entries.len() && same_text(entries[p].0.as_str(), key.as_str()) {
            entries[p] = (key, value);
        } else {
            entries.insert(p, (key, value));
        }
        assert(pairs(entries@) =~= insert(before, key@, value@));
        *self = Attributes { entries };
    }
}

impl Clone for Attributes {
    /// A copy of the dictionary.
    fn clone(&self) -> (r: Attributes)
        ensures
            r@ == self@,
        decreases self, 1int,
    {
        proof {
            use_type_invariant(self);
        }
        let mut entries: Vec<(String, Attribute)> = Vec::new();
        let mut i: usize = 0;
        while i < self.entries.len()
            invariant
                i <= self.entries@.len(),
                entries@.len() == i,
                forall|j: int|
                    0 <= j < i ==> (#[trigger] entries@[j]).0@ == self.entries@[j].0@
                        && entries@[j].1@ == self.entries@[j].1@,
            decreases self.entries@.len() - i,
        {
            proof {
                assert(decreases_to!(self => self.entries));
                assert(decreases_to!(self.entries => self.entries[i as int]));
                assert(decreases_to!(self.entries[i as int] => self.entries[i as int].1));
            }
            let value = self.entries[i].1.clone();
            entries.push((self.entries[i].0.clone(), value));
            i += 1;
        }
        assert(pairs(entries@) =~= self@);
        Attributes { entries }
    }
}

impl Attribute {
    /// The integer payload, if this is an `Int`.
    pub fn as_int(&self) -> (r: Option<i64>)
        ensures
            r == self@.int_payload(),
    {
        broadcast use attribute_view;

        match self {
            Attribute::Int(v) => Some(*v),
            _ => None,
        }
    }

    /// The numeric payload, widening an `Int` when asked for a number.
    pub fn as_float(&self) -> (r: Option<Number>)
        ensures
            r == self@.number_payload(),
    {
        broadcast use attribute_view;

        match self {
            Attribute::Float(v) => Some(*v),
            Attribute::Int(v) => Some(Number::from_int(*v)),
            _ => None,
        }
    }

    /// The boolean payload, if this is a `Bool`.
    pub fn as_bool(&self) -> (r: Option<bool>)
        ensures
            r == self@.bool_payload(),
    {
        broadcast use attribute_view;

        match self {
            Attribute::Bool(v) => Some(*v),
            _ => None,
        }
    }

    /// The string payload, if this is a `Str`.
    pub fn as_str(&self) -> (r: Option<&str>)
        ensures
            r is Some == self@.str_payload() is Some,
            r matches Some(s) ==> self@.str_payload() == Some(s@),
    {
        broadcast use attribute_view;

        match self {
            Attribute::Str(v) => Some(v.as_str()),
            _ => None,
        }
    }

    /// The entries, if this is a `Dict`.
    pub fn as_dict(&self) -> (r: Option<&Attributes>)
        ensures
            r is Some == self@ is Dict,
            r matches Some(d) ==> self@ == AttributeView::Dict(d@),
    {
        broadcast use attribute_view;

        match self {
            Attribute::Dict(d) => Some(d),
            _ => None,
        }
    }

    /// The elements, if this is an `Array`.
    pub fn as_array(&self) -> (r: Option<&Vec<Attribute>>)
        ensures
            r is Some == self@ is Array,
            r matches Some(a) ==> self@ == AttributeView::Array(attribute_views(a@)),
    {
        broadcast use attribute_view;

        match self {
            Attribute::Array(a) => Some(a),
            _ => None,
        }
    }

    /// Appends the printed form of the attribute.
    pub fn push_text(&self, out: &mut String)
        ensures
            final(out)@ == old(out)@ + self@.text(),
        decreases self,
    {
        broadcast use attribute_view;

        match self {
            Attribute::Int(v) => {
                push_int(out, *v);
            },
            Attribute::Float(v) => {
                v.push_literal(out);
            },
            Attribute::Bool(v) => {
                if *v {
                    out.append("true");
                } else {
                    out.append("false");
                }
            },
            Attribute::Str(v) => {
                out.append("\"");
                push_escaped(out, v.as_str());
                out.append("\"");
                assert(out@ =~= old(out)@ + self@.text());
            },
            Attribute::Effect(e) => {
                e.push_text(out);
            },
            Attribute::Array(items) => {
                let ghost views = attribute_views(items@);
                out.append("[");
                let ghost start = out@;
                let mut i: usize = 0;
                while i < items.len()
                    invariant
                        i <= items@.len(),
                        decreases_to!(self => items),
                        views == attribute_views(items@),
                        out@ + items_text(views, i as int) =~= start + items_text(views, 0),
                    decreases items@.len() - i,
                {
                    assert(decreases_to!(items => items[i as int]));
                    let ghost before = out@;
                    if i > 0 {
                        out.append(", ");
                    }
                    items[i].push_text(out);
                    assert(before + items_text(views, i as int) =~= out@ + items_text(
                        views,
                        i + 1,
                    ));
                    i += 1;
                }
                out.append("]");
                assert(out@ =~= old(out)@ + self@.text());
            },
            Attribute::Dict(d) => {
                out.append("{");
                let ghost start = out@;
                let mut i: usize = 0;
                while i < d.len()
                    invariant
                        i <= d@.len(),
                        decreases_to!(self => d),
                        out@ + entries_text(d@, i as int) =~= start + entries_text(d@, 0),
                    decreases d@.len() - i,
                {
                    let ghost before = out@;
                    if i > 0 {
                        out.append(", ");
                    }
                    out.append(d.key_at(i).as_str());
                    out.append(" = ");
                    let value = d.value_at(i);
                    value.push_text(out);
                    assert(before + entries_text(d@, i as int) =~= out@ + entries_text(
                        d@,
                        i + 1,
                    ));
                    i += 1;
                }
                out.append("}");
                assert(out@ =~= old(out)@ + self@.text());
            },
        }
    }

    /// The printed form of the attribute.
    pub fn to_string(&self) -> (r: String)
        ensures
            r@ == self@.text(),
    {
        let mut out = String::new();
        self.push_text(&mut out);
        assert(out@ =~= self@.text());
        out
    }
}

impl Clone for Attribute {
    /// A copy of the attribute.
    fn clone(&self) -> (r: Attribute)
        ensures
            r@ == self@,
        decreases self, 0int,
    {
        broadcast use attribute_view;

        match self {
            Attribute::Int(v) => Attribute::Int(*v),
            Attribute::Float(v) => Attribute::Float(*v),
            Attribute::Bool(v) => Attribute::Bool(*v),
            Attribute::Str(v) => Attribute::Str(v.clone()),
            Attribute::Effect(e) => Attribute::Effect(e.clone()),
            Attribute::Array(items) => {
                let mut copy: Vec<Attribute> = Vec::new();
                let mut i: usize = 0;
                while i < items.len()
                    invariant
                        i <= items@.len(),
                        decreases_to!(self => items),
                        copy@.len() == i,
                        forall|j: int| 0 <= j < i ==> (#[trigger] copy@[j])@ == items@[j]@,
                    decreases items@.len() - i,
                {
                    assert(decreases_to!(items => items[i as int]));
                    let item = items[i].clone();
                    copy.push(item);
                    i += 1;
                }
                assert(attribute_views(copy@) =~= attribute_views(items@));
                Attribute::Array(copy)
            },
            Attribute::Dict(d) => Attribute::Dict(d.clone()),
        }
    }
}

impl AttributeView {
    /// The integer payload, if this is an `Int`.
    pub open spec fn int_payload(self) -> Option<i64> {
        match self {
            AttributeView::Int(v) => Some(v),
            _ => None,
        }
    }

    /// The numeric payload; an integer counts as a number.
    pub open spec fn number_payload(self) -> Option<Number> {
        match self {
            AttributeView::Float(v) => Some(v),
            AttributeView::Int(v) => Some(Number::spec_from_int(v as int)),
            _ => None,
        }
    }

    /// The boolean payload, if this is a `Bool`.
    pub open spec fn bool_payload(self) -> Option<bool> {
        match self {
            AttributeView::Bool(v) => Some(v),
            _ => None,
        }
    }

    /// The string payload, if this is a `Str`.
    pub open spec fn str_payload(self) -> Option<Seq<char>> {
        match self {
            AttributeView::Str(v) => Some(v),
            _ => None,
        }
    }
}

impl From<i64> for Attribute {
    fn from(v: i64) -> (r: Attribute)
        ensures
            r@ == AttributeView::Int(v),
    {
        broadcast use attribute_view;

        Attribute::Int(v)
    }
}

impl vstd::std_specs::convert::FromSpecImpl<i64> for Attribute {
    open spec fn obeys_from_spec() -> bool {
        true
    }

    open spec fn from_spec(v: i64) -> Attribute {
        Attribute::Int(v)
    }
}

impl From<Number> for Attribute {
    fn from(v: Number) -> Attribute {
        Attribute::Float(v)
    }
}

impl vstd::std_specs::convert::FromSpecImpl<Number> for Attribute {
    open spec fn obeys_from_spec() -> bool {
        true
    }

    open spec fn from_spec(v: Number) -> Attribute {
        Attribute::Float(v)
    }
}

impl From<bool> for Attribute {
    fn from(v: bool) -> Attribute {
        Attribute::Bool(v)
    }
}

impl vstd::std_specs::convert::FromSpecImpl<bool> for Attribute {
    open spec fn obeys_from_spec() -> bool {
        true
    }

    open spec fn from_spec(v: bool) -> Attribute {
        Attribute::Bool(v)
    }
}

impl From<String> for Attribute {
    fn from(v: String) -> Attribute {
        Attribute::Str(v)
    }
}

impl vstd::std_specs::convert::FromSpecImpl<String> for Attribute {
    open spec fn obeys_from_spec() -> bool {
        true
    }

    open spec fn from_spec(v: String) -> Attribute {
        Attribute::Str(v)
    }
}

impl From<&str> for Attribute {
    fn from(v: &str) -> (r: Attribute)
        ensures
            r@ == AttributeView::Str(v@),
    {
        broadcast use attribute_view;

        Attribute::Str(String::from_str(v))
    }
}

impl vstd::std_specs::convert::FromSpecImpl<&str> for Attribute {
    open spec fn obeys_from_spec() -> bool {
        false
    }

    open spec fn from_spec(v: &str) -> Attribute {
        arbitrary()
    }
}

impl From<Effect> for Attribute {
    fn from(v: Effect) -> Attribute {
        Attribute::Effect(v)
    }
}

impl vstd::std_specs::convert::FromSpecImpl<Effect> for Attribute {
    open spec fn obeys_from_spec() -> bool {
        true
    }

    open spec fn from_spec(v: Effect) -> Attribute {
        Attribute::Effect(v)
    }
}

} // verus!
