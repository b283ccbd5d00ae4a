//! Runtime values.
//!
//! The IR types describe what a value *is*; this is what one *holds* while the
//! program runs. The two are deliberately separate: the compiler reasons about
//! `!tool.result<benchmark>`, the runtime carries the record that came back.

use vstd::prelude::*;
use vstd::string::*;

use crate::assoc::{entry_keys, insert, insert_replaces_one, keys, lookup, slot_of, sorted};
use crate::attribute::{
    attribute_view, attribute_views, bool_text, Attribute, AttributeView, Attributes,
};
use crate::number::{number_eq, Number};
use crate::text::{int_text, push_int, same_text};

verus! {

/// A value produced or consumed while the program runs.
#[derive(Debug)]
pub enum Value {
    /// Absent, or an operation that produced nothing meaningful.
    Null,
    /// An integer.
    Int(i64),
    /// A float.
    Float(Number),
    /// A boolean.
    Bool(bool),
    /// A string.
    Str(String),
    /// An ordered list, e.g. the candidates a `control.loop` iterates.
    List(Vec<Value>),
    /// A record, e.g. a tool result with named fields.
    Record(Record),
}

/// Named values, in name order.
#[derive(Debug, PartialEq)]
pub struct Record {
    entries: Vec<(String, Value)>,
}

/// The mathematical content of a [`Value`].
#[verifier::ext_equal]
pub ghost enum ValueView {
    Null,
    Int(i64),
    Float(Number),
    Bool(bool),
    Str(Seq<char>),
    List(Seq<ValueView>),
    Record(Seq<(Seq<char>, ValueView)>),
}

impl View for Value {
    type V = ValueView;

    closed spec fn view(&self) -> ValueView
        decreases self,
    {
        match self {
            Value::Null => ValueView::Null,
            Value::Int(v) => ValueView::Int(*v),
            Value::Float(v) => ValueView::Float(*v),
            Value::Bool(v) => ValueView::Bool(*v),
            Value::Str(v) => ValueView::Str(v@),
            Value::List(items) => ValueView::List(
                Seq::new(
                    items@.len(),
                    |i: int|
                        if 0 <= i < items@.len() {
                            items@[i].view()
                        } else {
                            arbitrary()
                        },
                ),
            ),
            Value::Record(d) => ValueView::Record(
                Seq::new(
                    d.entries@.len(),
                    |i: int|
                        if 0 <= i < d.entries@.len() {
                            (d.entries@[i].0@, d.entries@[i].1.view())
                        } else {
                            arbitrary()
                        },
                ),
            ),
        }
    }
}

impl View for Record {
    type V = Seq<(Seq<char>, ValueView)>;

    closed spec fn view(&self) -> Seq<(Seq<char>, ValueView)> {
        pairs(self.entries@)
    }
}

/// The content of each value of a list.
pub open spec fn value_views(items: Seq<Value>) -> Seq<ValueView> {
    Seq::new(items.len(), |i: int| items[i]@)
}

/// What each kind of value holds.
pub broadcast proof fn value_view(a: Value)
    ensures
        #[trigger] a@ == match a {
            Value::Null => ValueView::Null,
            Value::Int(v) => ValueView::Int(v),
            Value::Float(v) => ValueView::Float(v),
            Value::Bool(v) => ValueView::Bool(v),
            Value::Str(v) => ValueView::Str(v@),
            Value::List(items) => ValueView::List(value_views(items@)),
            Value::Record(d) => ValueView::Record(d@),
        },
{
    reveal_with_fuel(<Value as View>::view, 2);
    match a {
        Value::List(items) => {
            assert(a@->List_0 =~= value_views(items@));
        },
        Value::Record(d) => {
            assert(a@->Record_0 =~= d@);
        },
        _ => {},
    }
}

/// Whether two values are equal: of the same kind and with equal contents.
/// Floats compare as numbers do, so one that is not a number equals nothing.
pub open spec fn values_equal(a: ValueView, b: ValueView) -> bool
    decreases a, 0int,
{
    match (a, b) {
        (ValueView::Null, ValueView::Null) => true,
        (ValueView::Int(x), ValueView::Int(y)) => x == y,
        (ValueView::Float(x), ValueView::Float(y)) => number_eq(x, y),
        (ValueView::Bool(x), ValueView::Bool(y)) => x == y,
        (ValueView::Str(x), ValueView::Str(y)) => x == y,
        (ValueView::List(x), ValueView::List(y)) => x.len() == y.len() && items_equal(x, y, 0),
        (ValueView::Record(x), ValueView::Record(y)) => x.len() == y.len() && fields_equal(
            x,
            y,
            0,
        ),
        _ => false,
    }
}

/// Whether two lists of the same length are equal from position `i` on.
pub open spec fn items_equal(a: Seq<ValueView>, b: Seq<ValueView>, i: int) -> bool
    decreases a, a.len() - i,
    via items_equal_decreases
{
    i < 0 || i >= a.len() || (values_equal(a[i], b[i]) && items_equal(a, b, i + 1))
}

#[via_fn]
proof fn items_equal_decreases(a: Seq<ValueView>, b: Seq<ValueView>, i: int) {
    if 0 <= i < a.len() {
        assert(decreases_to!(a => a[i]));
    }
}

/// Whether two records of the same size are equal from position `i` on.
pub open spec fn fields_equal(
    a: Seq<(Seq<char>, ValueView)>,
    b: Seq<(Seq<char>, ValueView)>,
    i: int,
) -> bool
    decreases a, a.len() - i,
    via fields_equal_decreases
{
    i < 0 || i >= a.len() || (a[i].0 == b[i].0 && values_equal(a[i].1, b[i].1) && fields_equal(
        a,
        b,
        i + 1,
    ))
}

#[via_fn]
proof fn fields_equal_decreases(
    a: Seq<(Seq<char>, ValueView)>,
    b: Seq<(Seq<char>, ValueView)>,
    i: int,
) {
    if 0 <= i < a.len() {
        assert(decreases_to!(a => a[i]));
        assert(decreases_to!(a[i] => a[i].1));
    }
}

/// The value an attribute becomes at run time; an effect becomes its text.
pub open spec fn value_of(a: AttributeView) -> ValueView
    decreases a,
{
    match a {
        AttributeView::Int(v) => ValueView::Int(v),
        AttributeView::Float(v) => ValueView::Float(v),
        AttributeView::Bool(v) => ValueView::Bool(v),
        AttributeView::Str(v) => ValueView::Str(v),
        AttributeView::Effect(e) => ValueView::Str(e.text()),
        AttributeView::Array(items) => ValueView::List(
            Seq::new(
                items.len(),
                |i: int|
                    if 0 <= i < items.len() {
                        value_of(items[i])
                    } else {
                        arbitrary()
                    },
            ),
        ),
        AttributeView::Dict(entries) => ValueView::Record(
            Seq::new(
                entries.len(),
                |i: int|
                    if 0 <= i < entries.len() {
                        (entries[i].0, value_of(entries[i].1))
                    } else {
                        arbitrary()
                    },
            ),
        ),
    }
}

/// The values of a list of attributes.
pub open spec fn values_of(items: Seq<AttributeView>) -> Seq<ValueView> {
    Seq::new(items.len(), |i: int| value_of(items[i]))
}

/// The record a dictionary becomes at run time.
pub open spec fn record_of(entries: Seq<(Seq<char>, AttributeView)>) -> Seq<
    (Seq<char>, ValueView),
> {
    Seq::new(entries.len(), |i: int| (entries[i].0, value_of(entries[i].1)))
}

/// What a list of attributes and a dictionary become.
pub proof fn value_of_nested(a: AttributeView)
    ensures
        a matches AttributeView::Array(items) ==> value_of(a) == ValueView::List(values_of(items)),
        a matches AttributeView::Dict(entries) ==> value_of(a) == ValueView::Record(
            record_of(entries),
        ),
{
    reveal_with_fuel(value_of, 2);
    match a {
        AttributeView::Array(items) => {
            assert(value_of(a)->List_0 =~= values_of(items));
        },
        AttributeView::Dict(entries) => {
            assert(value_of(a)->Record_0 =~= record_of(entries));
        },
        _ => {},
    }
}

impl ValueView {
    /// The numeric payload; an integer counts as a number.
    pub open spec fn number_payload(self) -> Option<Number> {
        match self {
            ValueView::Float(v) => Some(v),
            ValueView::Int(v) => Some(Number::spec_from_int(v as int)),
            _ => None,
        }
    }

    /// The boolean payload.
    pub open spec fn bool_payload(self) -> Option<bool> {
        match self {
            ValueView::Bool(v) => Some(v),
            _ => None,
        }
    }

    /// One named field of a record.
    pub open spec fn field(self, name: Seq<char>) -> Option<ValueView> {
        match self {
            ValueView::Record(entries) => lookup(entries, name),
            _ => None,
        }
    }

    /// The printed form of the value.
    pub open spec fn text(self) -> Seq<char>
        decreases self, 0int,
    {
        match self {
            ValueView::Null => "null"@,
            ValueView::Int(v) => int_text(v as int),
            ValueView::Float(v) => v.plain_text(),
            ValueView::Bool(v) => bool_text(v),
            ValueView::Str(v) => "\""@ + v + "\""@,
            ValueView::List(items) => "["@ + list_text(items, 0) + "]"@,
            ValueView::Record(entries) => "{"@ + record_text(entries, 0) + "}"@,
        }
    }

    /// A stable rendering, the identity half of a loop guard key.
    pub open spec fn print(self) -> Seq<char>
        decreases self, 0int,
    {
        match self {
            ValueView::Null => "null"@,
            ValueView::Int(v) => "i"@ + int_text(v as int),
            ValueView::Float(v) => "f"@ + v.plain_text(),
            ValueView::Bool(v) => "b"@ + bool_text(v),
            ValueView::Str(v) => "s"@ + v,
            ValueView::List(items) => "["@ + list_print(items, 0) + "]"@,
            ValueView::Record(entries) => "{"@ + record_print(entries, 0) + "}"@,
        }
    }
}

/// The printed items from position `i` on.
pub open spec fn list_text(items: Seq<ValueView>, i: int) -> Seq<char>
    decreases items, items.len() - i,
    via list_text_decreases
{
    if i < 0 || i >= items.len() {
        Seq::empty()
    } else {
        (if i > 0 {
            ", "@
        } else {
            Seq::empty()
        }) + items[i].text() + list_text(items, i + 1)
    }
}

#[via_fn]
proof fn list_text_decreases(items: Seq<ValueView>, i: int) {
    if 0 <= i < items.len() {
        assert(decreases_to!(items => items[i]));
    }
}

/// The printed fields from position `i` on.
pub open spec fn record_text(entries: Seq<(Seq<char>, ValueView)>, i: int) -> Seq<char>
    decreases entries, entries.len() - i,
    via record_text_decreases
{
    if i < 0 || i >= entries.len() {
        Seq::empty()
    } else {
        (if i > 0 {
            ", "@
        } else {
            Seq::empty()
        }) + entries[i].0 + ": "@ + entries[i].1.text() + record_text(entries, i + 1)
    }
}

#[via_fn]
proof fn record_text_decreases(entries: Seq<(Seq<char>, ValueView)>, i: int) {
    if 0 <= i < entries.len() {
        assert(decreases_to!(entries => entries[i]));
        assert(decreases_to!(entries[i] => entries[i].1));
    }
}

/// The stable renderings of the items from position `i` on.
pub open spec fn list_print(items: Seq<ValueView>, i: int) -> Seq<char>
    decreases items, items.len() - i,
    via list_print_decreases
{
    if i < 0 || i >= items.len() {
        Seq::empty()
    } else {
        (if i > 0 {
            ","@
        } else {
            Seq::empty()
        }) + items[i].print() + list_print(items, i + 1)
    }
}

#[via_fn]
proof fn list_print_decreases(items: Seq<ValueView>, i: int) {
    if 0 <= i < items.len() {
        assert(decreases_to!(items => items[i]));
    }
}

/// The stable renderings of the fields from position `i` on.
pub open spec fn record_print(entries: Seq<(Seq<char>, ValueView)>, i: int) -> Seq<char>
    decreases entries, entries.len() - i,
    via record_print_decreases
{
    if i < 0 || i >= entries.len() {
        Seq::empty()
    } else {
        (if i > 0 {
            ","@
        } else {
            Seq::empty()
        }) + entries[i].0 + "="@ + entries[i].1.print() + record_print(entries, i + 1)
    }
}

#[via_fn]
proof fn record_print_decreases(entries: Seq<(Seq<char>, ValueView)>, i: int) {
    if 0 <= i < entries.len() {
        assert(decreases_to!(entries => entries[i]));
        assert(decreases_to!(entries[i] => entries[i].1));
    }
}

/// The content of a list of fields.
spec fn pairs(entries: Seq<(String, Value)>) -> Seq<(Seq<char>, ValueView)> {
    Seq::new(entries.len(), |i: int| (entries[i].0@, entries[i].1@))
}

impl Record {
    /// The fields are in the order of their keys.
    #[verifier::type_invariant]
    spec fn is_in_order(self) -> bool {
        sorted(keys(self@))
    }

    /// A record without fields.
    pub fn new() -> (r: Record)
        ensures
            r@ == Seq::<(Seq<char>, ValueView)>::empty(),
    {
        let entries: Vec<(String, Value)> = Vec::new();
        assert(pairs(entries@) =~= Seq::empty());
        Record { entries }
    }

    /// How many fields the record has.
    pub fn len(&self) -> (r: usize)
        ensures
            r == self@.len(),
            sorted(keys(self@)),
    {
        proof {
            use_type_invariant(self);
        }
        self.entries.len()
    }

    /// The name of the field at a position.
    pub fn key_at(&self, i: usize) -> (r: &String)
        requires
            i < self@.len(),
        ensures
            r@ == self@[i as int].0,
    {
        &self.entries[i].0
    }

    /// The value of the field at a position.
    pub fn value_at(&self, i: usize) -> (r: &Value)
        requires
            i < self@.len(),
        ensures
            r@ == self@[i as int].1,
            decreases_to!(self => r),
    {
        proof {
            assert(decreases_to!(self => self.entries));
            assert(decreases_to!(self.entries => self.entries[i as int]));
            assert(decreases_to!(self.entries[i as int] => self.entries[i as int].1));
        }
        &self.entries[i].1
    }

    /// Reads the value stored under a name.
    pub fn get(&self, key: &str) -> (r: Option<&Value>)
        ensures
            r is Some == lookup(self@, key@) is Some,
            r matches Some(a) ==> lookup(self@, key@) == Some(a@),
    {
        let p: usize = slot_of(&self.entries, key);
        assert(entry_keys(self.entries@) =~= keys(self@));
        if p < self.entries.len() && same_text(self.entries[p].0.as_str(), key) {
            Some(&self.entries[p].1)
        } else {
            None
        }
    }

    /// Stores a value under a name, replacing what was there.
    pub fn insert(&mut self, key: String, value: Value)
        ensures
            final(self)@ == insert(old(self)@, key@, value@),
            sorted(keys(final(self)@)),
            lookup(final(self)@, key@) == Some(value@),
            forall|other: Seq<char>|
                other != key@ ==> #[trigger] lookup(final(self)@, other) == lookup(
                    old(self)@,
                    other,
                ),
    {
        proof {
            use_type_invariant(&*self);
            insert_replaces_one(self@, key@, value@);
        }
        let mut taken = Record::new();
        core::mem::swap(self, &mut taken);
        let ghost before = taken@;
        let Record { mut entries } = taken;
        let p: usize = slot_of(&entries, key.as_str());
        assert(entry_keys(entries@) =~= keys(before));
        if p < entries.len() && same_text(entries[p].0.as_str(), key.as_str()) {
            entries[p] = (key, value);
        } else {
            entries.insert(p, (key, value));
        }
        assert(pairs(entries@) =~= insert(before, key@, value@));
        *self = Record { entries };
    }

    /// The record a dictionary of attributes becomes at run time.
    pub fn from_attributes(attributes: &Attributes) -> (r: Record)
        ensures
            r@ == record_of(attributes@),
        decreases attributes, 1int,
    {
        let count: usize = attributes.len();
        let mut entries: Vec<(String, Value)> = Vec::new();
        let mut i: usize = 0;
        while i < count
            invariant
                i <= count,
                count == attributes@.len(),
                entries@.len() == i,
                forall|j: int|
                    0 <= j < i ==> (#[trigger] entries@[j]).0@ == attributes@[j].0
                        && entries@[j].1@ == value_of(attributes@[j].1),
            decreases count - i,
        {
            let value = Value::from_attribute(attributes.value_at(i));
            entries.push((attributes.key_at(i).clone(), value));
            i += 1;
        }
        assert(pairs(entries@) =~= record_of(attributes@));
        assert(keys(record_of(attributes@)) =~= keys(attributes@));
        Record { entries }
    }
}

impl Clone for Record {
    /// A copy of the record.
    fn clone(&self) -> (r: Record)
        ensures
            r@ == self@,
        decreases self, 1int,
    {
        proof {
            use_type_invariant(self);
        }
        let mut entries: Vec<(String, Value)> = Vec::new();
        let mut i: usize = 0;
        while i < self.entries.len()
            invariant
                i <= self.entries@.len(),
                entries@.len() == i,
                forall|j: int|
                    0 <= j < i ==> (#[trigger] entries@[j]).0@ == self.entries@[j].0@
                        && entries@[j].1@ == self.entries@[j].1@,
            decreases self.entries@.len() - i,
        {
            proof {
                assert(decreases_to!(self => self.entries));
                assert(decreases_to!(self.entries => self.entries[i as int]));
                assert(decreases_to!(self.entries[i as int] => self.entries[i as int].1));
            }
            let value = self.entries[i].1.clone();
            entries.push((self.entries[i].0.clone(), value));
            i += 1;
        }
        assert(pairs(entries@) =~= self@);
        Record { entries }
    }
}

impl Value {
    /// A record from pairs; a later pair replaces an earlier one of the same
    /// name.
    pub fn record(entries: Vec<(String, Value)>) -> (r: Value)
        ensures
            r@ == ValueView::Record(collected(entries@, entries@.len() as int)),
    {
        broadcast use value_view;

        let ghost all = entries@;
        let mut record = Record::new();
        for entry in it: entries
            invariant
                it.seq() == all,
                record@ == collected(all, it.index()),
        {
            let (key, value) = entry;
            record.insert(key, value);
        }
        Value::Record(record)
    }

    /// A list of values.
    pub fn list(items: Vec<Value>) -> (r: Value)
        ensures
            r@ == ValueView::List(value_views(items@)),
    {
        broadcast use value_view;

        Value::List(items)
    }

    /// The value an attribute becomes at run time.
    pub fn from_attribute(attribute: &Attribute) -> (r: Value)
        ensures
            r@ == value_of(attribute@),
        decreases attribute, 0int,
    {
        proof {
            attribute_view(*attribute);
            value_of_nested(attribute@);
        }
        broadcast use value_view;

        match attribute {
            Attribute::Int(v) => Value::Int(*v),
            Attribute::Float(v) => Value::Float(*v),
            Attribute::Bool(v) => Value::Bool(*v),
            Attribute::Str(v) => Value::Str(v.clone()),
            Attribute::Effect(e) => Value::Str(e.to_string()),
            Attribute::Array(items) => {
                let mut values: Vec<Value> = Vec::new();
                let mut i: usize = 0;
                while i < items.len()
                    invariant
                        i <= items@.len(),
                        decreases_to!(attribute => items),
                        values@.len() == i,
                        forall|j: int|
                            0 <= j < i ==> (#[trigger] values@[j])@ == value_of(items@[j]@),
                    decreases items@.len() - i,
                {
                    assert(decreases_to!(items => items[i as int]));
                    values.push(Value::from_attribute(&items[i]));
                    i += 1;
                }
                assert(value_views(values@) =~= values_of(attribute_views(items@)));
                Value::List(values)
            },
            Attribute::Dict(d) => Value::Record(Record::from_attributes(d)),
        }
    }

    /// The integer payload, if there is one.
    pub fn as_int(&self) -> (r: Option<i64>)
        ensures
            r == match self@ {
                ValueView::Int(v) => Some(v),
                _ => None,
            },
    {
        broadcast use value_view;

        match self {
            Value::Int(v) => Some(*v),
            _ => None,
        }
    }

    /// The numeric payload, widening an integer.
    pub fn as_float(&self) -> (r: Option<Number>)
        ensures
            r == self@.number_payload(),
    {
        broadcast use value_view;

        match self {
            Value::Float(v) => Some(*v),
            Value::Int(v) => Some(Number::from_int(*v)),
            _ => None,
        }
    }

    /// The boolean payload, if there is one.
    pub fn as_bool(&self) -> (r: Option<bool>)
        ensures
            r == self@.bool_payload(),
    {
        broadcast use value_view;

        match self {
            Value::Bool(v) => Some(*v),
            _ => None,
        }
    }

    /// The string payload, if there is one.
    pub fn as_str(&self) -> (r: Option<&str>)
        ensures
            r is Some == self@ is Str,
            r matches Some(s) ==> self@ == ValueView::Str(s@),
    {
        broadcast use value_view;

        match self {
            Value::Str(v) => Some(v.as_str()),
            _ => None,
        }
    }

    /// The elements, if this is a list.
    pub fn as_list(&self) -> (r: Option<&Vec<Value>>)
        ensures
            r is Some == self@ is List,
            r matches Some(items) ==> self@ == ValueView::List(value_views(items@)),
    {
        broadcast use value_view;

        match self {
            Value::List(items) => Some(items),
            _ => None,
        }
    }

    /// One named field of a record.
    pub fn field(&self, name: &str) -> (r: Option<&Value>)
        ensures
            r is Some == self@.field(name@) is Some,
            r matches Some(v) ==> self@.field(name@) == Some(v@),
    {
        broadcast use value_view;

        match self {
            Value::Record(entries) => entries.get(name),
            _ => None,
        }
    }

    /// Whether the value counts as true for `control.if`.
    ///
    /// Only a genuine boolean does. A truthiness rule that accepted numbers or
    /// non-empty strings would make a mis-typed condition silently take a
    /// branch, which is exactly the class of bug the type system exists to
    /// surface.
    pub fn is_true(&self) -> (r: Option<bool>)
        ensures
            r == self@.bool_payload(),
    {
        self.as_bool()
    }

    /// Whether two values are equal.
    pub fn same(&self, other: &Value) -> (r: bool)
        ensures
            r == values_equal(self@, other@),
        decreases self,
    {
        proof {
            value_view(*self);
            value_view(*other);
        }
        match (self, other) {
            (Value::Null, Value::Null) => true,
            (Value::Int(x), Value::Int(y)) => *x == *y,
            (Value::Float(x), Value::Float(y)) => x.same(*y),
            (Value::Bool(x), Value::Bool(y)) => *x == *y,
            (Value::Str(x), Value::Str(y)) => same_text(x.as_str(), y.as_str()),
            (Value::List(x), Value::List(y)) => {
                if x.len() != y.len() {
                    return false;
                }
                let ghost xs = value_views(x@);
                let ghost ys = value_views(y@);
                let mut i: usize = 0;
                let mut equal = true;
                while i < x.len() && equal
                    invariant
                        i <= x@.len(),
                        x@.len() == y@.len(),
                        decreases_to!(self => x),
                        xs == value_views(x@),
                        ys == value_views(y@),
                        (equal && items_equal(xs, ys, i as int)) == items_equal(xs, ys, 0),
                    decreases x@.len() - i,
                {
                    assert(decreases_to!(x => x[i as int]));
                    assert(xs[i as int] == x@[i as int]@ && ys[i as int] == y@[i as int]@);
                    equal = x[i].same(&y[i]);
                    i += 1;
                }
                equal
            },
            (Value::Record(x), Value::Record(y)) => {
                if x.len() != y.len() {
                    return false;
                }
                let mut i: usize = 0;
                let mut equal = true;
                while i < x.len() && equal
                    invariant
                        i <= x@.len(),
                        x@.len() == y@.len(),
                        decreases_to!(self => x),
                        (equal && fields_equal(x@, y@, i as int)) == fields_equal(x@, y@, 0),
                    decreases x@.len() - i,
                {
                    equal = same_text(x.key_at(i).as_str(), y.key_at(i).as_str());
                    if equal {
                        let left = x.value_at(i);
                        equal = left.same(y.value_at(i));
                    }
                    i += 1;
                }
                equal
            },
            _ => false,
        }
    }

    /// Appends the printed form of the value.
    pub fn push_text(&self, out: &mut String)
        ensures
            final(out)@ == old(out)@ + self@.text(),
        decreases self,
    {
        proof {
            value_view(*self);
        }
        match self {
            Value::Null => {
                out.append("null");
            },
            Value::Int(v) => {
                push_int(out, *v);
            },
            Value::Float(v) => {
                v.push_plain(out);
            },
            Value::Bool(v) => {
                if *v {
                    out.append("true");
                } else {
                    out.append("false");
                }
            },
            Value::Str(v) => {
                out.append("\"");
                out.append(v.as_str());
                out.append("\"");
                assert(out@ =~= old(out)@ + self@.text());
            },
            Value::List(items) => {
                let ghost views = value_views(items@);
                out.append("[");
                let ghost start = out@;
                let mut i: usize = 0;
                while i < items.len()
                    invariant
                        i <= items@.len(),
                        decreases_to!(self => items),
                        views == value_views(items@),
                        out@ + list_text(views, i as int) =~= start + list_text(views, 0),
                    decreases items@.len() - i,
                {
                    assert(decreases_to!(items => items[i as int]));
                    let ghost before = out@;
                    if i > 0 {
                        out.append(", ");
                    }
                    items[i].push_text(out);
                    assert(before + list_text(views, i as int) =~= out@ + list_text(
                        views,
                        i + 1,
                    ));
                    i += 1;
                }
                out.append("]");
                assert(out@ =~= old(out)@ + self@.text());
            },
            Value::Record(d) => {
                out.append("{");
                let ghost start = out@;
                let mut i: usize = 0;
                while i < d.len()
                    invariant
                        i <= d@.len(),
                        decreases_to!(self => d),
                        out@ + record_text(d@, i as int) =~= start + record_text(d@, 0),
                    decreases d@.len() - i,
                {
                    let ghost before = out@;
                    if i > 0 {
                        out.append(", ");
                    }
                    out.append(d.key_at(i).as_str());
                    out.append(": ");
                    let value = d.value_at(i);
                    value.push_text(out);
                    assert(before + record_text(d@, i as int) =~= out@ + record_text(
                        d@,
                        i + 1,
                    ));
                    i += 1;
                }
                out.append("}");
                assert(out@ =~= old(out)@ + self@.text());
            },
        }
    }

    /// The printed form of the value.
    pub fn to_string(&self) -> (r: String)
        ensures
            r@ == self@.text(),
    {
        let mut out = String::new();
        self.push_text(&mut out);
        assert(out@ =~= self@.text());
        out
    }

    /// Appends the stable rendering of the value.
    pub fn push_fingerprint(&self, out: &mut String)
        ensures
            final(out)@ == old(out)@ + self@.print(),
        decreases self,
    {
        proof {
            value_view(*self);
        }
        match self {
            Value::Null => {
                out.append("null");
            },
            Value::Int(v) => {
                out.append("i");
                push_int(out, *v);
                assert(out@ =~= old(out)@ + self@.print());
            },
            Value::Float(v) => {
                out.append("f");
                v.push_plain(out);
                assert(out@ =~= old(out)@ + self@.print());
            },
            Value::Bool(v) => {
                out.append("b");
                if *v {
                    out.append("true");
                } else {
                    out.append("false");
                }
                assert(out@ =~= old(out)@ + self@.print());
            },
            Value::Str(v) => {
                out.append("s");
                out.append(v.as_str());
                assert(out@ =~= old(out)@ + self@.print());
            },
            Value::List(items) => {
                let ghost views = value_views(items@);
                out.append("[");
                let ghost start = out@;
                let mut i: usize = 0;
                while i < items.len()
                    invariant
                        i <= items@.len(),
                        decreases_to!(self => items),
                        views == value_views(items@),
                        out@ + list_print(views, i as int) =~= start + list_print(views, 0),
                    decreases items@.len() - i,
                {
                    assert(decreases_to!(items => items[i as int]));
                    let ghost before = out@;
                    if i > 0 {
                        out.append(",");
                    }
                    items[i].push_fingerprint(out);
                    assert(before + list_print(views, i as int) =~= out@ + list_print(
                        views,
                        i + 1,
                    ));
                    i += 1;
                }
                out.append("]");
                assert(out@ =~= old(out)@ + self@.print());
            },
            Value::Record(d) => {
                out.append("{");
                let ghost start = out@;
                let mut i: usize = 0;
                while i < d.len()
                    invariant
                        i <= d@.len(),
                        decreases_to!(self => d),
                        out@ + record_print(d@, i as int) =~= start + record_print(d@, 0),
                    decreases d@.len() - i,
                {
                    let ghost before = out@;
                    if i > 0 {
                        out.append(",");
                    }
                    out.append(d.key_at(i).as_str());
                    out.append("=");
                    let value = d.value_at(i);
                    value.push_fingerprint(out);
                    assert(before + record_print(d@, i as int) =~= out@ + record_print(
                        d@,
                        i + 1,
                    ));
                    i += 1;
                }
                out.append("}");
                assert(out@ =~= old(out)@ + self@.print());
            },
        }
    }

    /// A stable rendering, used as the identity half of a loop guard key.
    pub fn fingerprint(&self) -> (r: String)
        ensures
            r@ == self@.print(),
    {
        let mut out = String::new();
        self.push_fingerprint(&mut out);
        assert(out@ =~= self@.print());
        out
    }
}

impl Clone for Value {
    /// A copy of the value.
    fn clone(&self) -> (r: Value)
        ensures
            r@ == self@,
        decreases self, 0int,
    {
        broadcast use value_view;

        match self {
            Value::Null => Value::Null,
            Value::Int(v) => Value::Int(*v),
            Value::Float(v) => Value::Float(*v),
            Value::Bool(v) => Value::Bool(*v),
            Value::Str(v) => Value::Str(v.clone()),
            Value::List(items) => {
                let mut copy: Vec<Value> = Vec::new();
                let mut i: usize = 0;
                while i < items.len()
                    invariant
                        i <= items@.len(),
                        decreases_to!(self => items),
                        copy@.len() == i,
                        forall|j: int| 0 <= j < i ==> (#[trigger] copy@[j])@ == items@[j]@,
                    decreases items@.len() - i,
                {
                    assert(decreases_to!(items => items[i as int]));
                    copy.push(items[i].clone());
                    i += 1;
                }
                assert(value_views(copy@) =~= value_views(items@));
                Value::List(copy)
            },
            Value::Record(d) => Value::Record(d.clone()),
        }
    }
}

/// The record that the first `n` of some pairs make up.
pub open spec fn collected(entries: Seq<(String, Value)>, n: int) -> Seq<(Seq<char>, ValueView)>
    decreases n,
{
    if n <= 0 {
        Seq::empty()
    } else {
        insert(collected(entries, n - 1), entries[n - 1].0@, entries[n - 1].1@)
    }
}

/// A copy of a list of values.
pub fn copy_list(items: &Vec<Value>) -> (r: Vec<Value>)
    ensures
        value_views(r@) == value_views(items@),
{
    let mut copy: Vec<Value> = Vec::new();
    let mut i: usize = 0;
    while i < items.len()
        invariant
            i <= items@.len(),
            copy@.len() == i,
            forall|j: int| 0 <= j < i ==> (#[trigger] copy@[j])@ == items@[j]@,
        decreases items@.len() - i,
    {
        copy.push(items[i].clone());
        i += 1;
    }
    assert(value_views(copy@) =~= value_views(items@));
    copy
}

impl From<i64> for Value {
    fn from(v: i64) -> Value {
        Value::Int(v)
    }
}

impl vstd::std_specs::convert::FromSpecImpl<i64> for Value {
    open spec fn obeys_from_spec() -> bool {
        true
    }

    open spec fn from_spec(v: i64) -> Value {
        Value::Int(v)
    }
}

impl From<Number> for Value {
    fn from(v: Number) -> Value {
        Value::Float(v)
    }
}

impl vstd::std_specs::convert::FromSpecImpl<Number> for Value {
    open spec fn obeys_from_spec() -> bool {
        true
    }

    open spec fn from_spec(v: Number) -> Value {
        Value::Float(v)
    }
}

impl From<bool> for Value {
    fn from(v: bool) -> Value {
        Value::Bool(v)
    }
}

impl vstd::std_specs::convert::FromSpecImpl<bool> for Value {
    open spec fn obeys_from_spec() -> bool {
        true
    }

    open spec fn from_spec(v: bool) -> Value {
        Value::Bool(v)
    }
}

impl From<String> for Value {
    fn from(v: String) -> Value {
        Value::Str(v)
    }
}

impl vstd::std_specs::convert::FromSpecImpl<String> for Value {
    open spec fn obeys_from_spec() -> bool {
        true
    }

    open spec fn from_spec(v: String) -> Value {
        Value::Str(v)
    }
}

impl From<&str> for Value {
    fn from(v: &str) -> (r: Value)
        ensures
            r@ == ValueView::Str(v@),
    {
        broadcast use value_view;

        Value::Str(String::from_str(v))
    }
}

impl vstd::std_specs::convert::FromSpecImpl<&str> for Value {
    open spec fn obeys_from_spec() -> bool {
        false
    }

    open spec fn from_spec(v: &str) -> Value {
        arbitrary()
    }
}

impl From<&Attribute> for Value {
    fn from(attribute: &Attribute) -> (r: Value)
        ensures
            r@ == value_of(attribute@),
    {
        Value::from_attribute(attribute)
    }
}

impl vstd::std_specs::convert::FromSpecImpl<&Attribute> for Value {
    open spec fn obeys_from_spec() -> bool {
        false
    }

    open spec fn from_spec(attribute: &Attribute) -> Value {
        arbitrary()
    }
}

impl PartialEq for Value {
    fn eq(&self, other: &Value) -> (r: bool) {
        self.same(other)
    }
}

impl vstd::std_specs::cmp::PartialEqSpecImpl for Value {
    open spec fn obeys_eq_spec() -> bool {
        true
    }

    open spec fn eq_spec(&self, other: &Value) -> bool {
        values_equal(self@, other@)
    }
}

} // verus!
