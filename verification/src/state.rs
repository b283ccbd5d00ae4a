//! Execution state, the idempotency ledger and checkpoints.
//!
//! What the agent is doing now, what actually happened, and what survives a
//! crash are kept strictly apart. [`ExecutionState`] is the first; the event
//! log is the second; a [`Checkpoint`] is what carries the third across a
//! restart.
//!
//! The important piece is the [`Ledger`]. It records, for each idempotency key,
//! the result of the effect that key guarded. On resume the plan is re-run from
//! the top, and every non-replayable step whose key is already in the ledger
//! returns its recorded result instead of touching the world again. That is
//! what makes replay-based recovery *sound* rather than merely convenient — and
//! it works only because the effect system already told us which steps are
//! replayable and which are not.

use vstd::prelude::*;

use crate::assoc::{
    entry_keys, insert, insert_keeps_others, insert_keeps_sorted, insert_replaces_one,
    insert_then_lookup, keys, lookup,
    slot_of, sorted,
};
use crate::copying::clone_all;
use crate::ids::ValueId;
use crate::text::same_text;
use crate::value::{copy_list, value_views, Record, Value, ValueView};

verus! {

/// Results of effects that must not happen twice, keyed by idempotency key.
#[derive(Debug, PartialEq)]
pub struct Ledger {
    entries: Record,
}

impl View for Ledger {
    type V = Seq<(Seq<char>, ValueView)>;

    closed spec fn view(&self) -> Seq<(Seq<char>, ValueView)> {
        self.entries@
    }
}

impl Default for Ledger {
    fn default() -> (r: Ledger)
        ensures
            r@ == Seq::<(Seq<char>, ValueView)>::empty(),
    {
        Ledger::new()
    }
}

impl Ledger {
    /// An empty ledger.
    pub fn new() -> (r: Ledger)
        ensures
            r@ == Seq::<(Seq<char>, ValueView)>::empty(),
    {
        Ledger { entries: Record::new() }
    }

    /// Records that the effect behind `key` completed with `result`.
    pub fn record(&mut self, key: &str, result: Value)
        ensures
            final(self)@ == insert(old(self)@, key@, result@),
            sorted(keys(final(self)@)),
            lookup(final(self)@, key@) == Some(result@),
            forall|other: Seq<char>|
                other != key@ ==> #[trigger] lookup(final(self)@, other) == lookup(
                    old(self)@,
                    other,
                ),
    {
        self.entries.insert(key.to_string(), result);
    }

    /// The recorded result for a key, if the effect already happened.
    pub fn get(&self, key: &str) -> (r: Option<&Value>)
        ensures
            r is Some == lookup(self@, key@) is Some,
            r matches Some(v) ==> lookup(self@, key@) == Some(v@),
    {
        self.entries.get(key)
    }

    /// Whether the effect behind a key already happened.
    pub fn contains(&self, key: &str) -> (r: bool)
        ensures
            r == lookup(self@, key@) is Some,
    {
        self.entries.get(key).is_some()
    }

    /// How many completed effects are recorded.
    pub fn len(&self) -> (r: usize)
        ensures
            r == self@.len(),
            sorted(keys(self@)),
    {
        self.entries.len()
    }

    /// Whether nothing has completed yet.
    pub fn is_empty(&self) -> (r: bool)
        ensures
            r == (self@.len() == 0),
    {
        self.entries.len() == 0
    }

    /// Every key, in order.
    pub fn keys(&self) -> (r: Vec<&String>)
        ensures
            r@.len() == self@.len(),
            forall|i: int| 0 <= i < r@.len() ==> (#[trigger] r@[i])@ == self@[i].0,
    {
        let mut found: Vec<&String> = Vec::new();
        let mut i: usize = 0;
        while i < self.entries.len()
            invariant
                i <= self.entries@.len(),
                found@.len() == i,
                forall|j: int| 0 <= j < i ==> (#[trigger] found@[j])@ == self.entries@[j].0,
            decreases self.entries@.len() - i,
        {
            found.push(self.entries.key_at(i));
            i += 1;
        }
        found
    }
}

impl Clone for Ledger {
    /// A copy of the ledger.
    fn clone(&self) -> (r: Ledger)
        ensures
            r@ == self@,
    {
        Ledger { entries: self.entries.clone() }
    }
}

/// A ledger remembers one result per key: the last one recorded. Recording
/// under one key leaves the results of all others alone.
pub proof fn the_ledger_remembers(
    ledger: Seq<(Seq<char>, ValueView)>,
    key: Seq<char>,
    result: ValueView,
    other: Seq<char>,
)
    requires
        sorted(keys(ledger)),
        other != key,
    ensures
        sorted(keys(insert(ledger, key, result))),
        lookup(insert(ledger, key, result), key) == Some(result),
        lookup(insert(ledger, key, result), other) == lookup(ledger, other),
{
    insert_keeps_sorted(ledger, key, result);
    insert_then_lookup(ledger, key, result);
    insert_keeps_others(ledger, key, result, other);
}

/// How many of the leading entries are bound to a smaller handle: where a
/// handle is, or where it would go.
pub open spec fn place(s: Seq<(ValueId, ValueView)>, id: ValueId) -> nat
    decreases s.len(),
{
    if s.len() == 0 || s[0].0.0 >= id.0 {
        0
    } else {
        1 + place(s.drop_first(), id)
    }
}

/// The value bound to a handle.
pub open spec fn value_at(s: Seq<(ValueId, ValueView)>, id: ValueId) -> Option<ValueView> {
    let p = place(s, id) as int;
    if p < s.len() && s[p].0 == id {
        Some(s[p].1)
    } else {
        None
    }
}

/// The bindings with a handle bound to a value, replacing what was there.
pub open spec fn bound_to(s: Seq<(ValueId, ValueView)>, id: ValueId, value: ValueView) -> Seq<
    (ValueId, ValueView),
> {
    let p = place(s, id) as int;
    if p < s.len() && s[p].0 == id {
        s.update(p, (id, value))
    } else {
        s.insert(p, (id, value))
    }
}

/// Whether the bindings are in the order of their handles, each bound once.
pub open spec fn in_order(s: Seq<(ValueId, ValueView)>) -> bool {
    forall|i: int, j: int|
        0 <= i < j < s.len() ==> (#[trigger] s[i]).0.0 < (#[trigger] s[j]).0.0
}

/// What a handle's place separates.
pub proof fn place_separates(s: Seq<(ValueId, ValueView)>, id: ValueId)
    ensures
        place(s, id) <= s.len(),
        forall|i: int| 0 <= i < place(s, id) ==> (#[trigger] s[i]).0.0 < id.0,
        place(s, id) < s.len() ==> s[place(s, id) as int].0.0 >= id.0,
    decreases s.len(),
{
    if s.len() > 0 && s[0].0.0 < id.0 {
        let rest = s.drop_first();
        place_separates(rest, id);
        assert forall|i: int| 0 <= i < place(s, id) implies (#[trigger] s[i]).0.0 < id.0 by {
            if i > 0 {
                assert(rest[i - 1] == s[i]);
            }
        }
    }
}

/// Only one position separates the smaller handles from the rest.
pub proof fn place_is_unique(s: Seq<(ValueId, ValueView)>, id: ValueId, p: int)
    requires
        0 <= p <= s.len(),
        forall|i: int| 0 <= i < p ==> (#[trigger] s[i]).0.0 < id.0,
        p < s.len() ==> s[p].0.0 >= id.0,
    ensures
        place(s, id) == p,
{
    place_separates(s, id);
    let q = place(s, id) as int;
    if q < p {
        assert(s[q].0.0 < id.0);
    } else if p < q {
        assert(s[p].0.0 < id.0);
    }
}

/// A bound value reads back as what was bound last; other handles keep their
/// values, and the bindings stay in order.
pub proof fn binding_is_remembered(
    s: Seq<(ValueId, ValueView)>,
    id: ValueId,
    value: ValueView,
    other: ValueId,
)
    requires
        in_order(s),
        other != id,
    ensures
        in_order(bound_to(s, id, value)),
        value_at(bound_to(s, id, value), id) == Some(value),
        value_at(bound_to(s, id, value), other) == value_at(s, other),
{
    place_separates(s, id);
    place_separates(s, other);
    let t = bound_to(s, id, value);
    let p = place(s, id) as int;
    let q = place(s, other) as int;
    place_is_unique(t, id, p);
    if p < s.len() && s[p].0 == id {
        place_is_unique(t, other, q);
    } else {
        assert forall|i: int, j: int| 0 <= i < j < t.len() implies (#[trigger] t[i]).0.0 < (
        #[trigger] t[j]).0.0 by {
            if i < p && j > p {
                assert(s[i].0.0 < s[j - 1].0.0);
            } else if i == p {
                assert(s[p].0.0 <= s[j - 1].0.0);
            }
        }
        if other.0 < id.0 {
            if q > p {
                assert(s[p].0.0 < other.0);
            }
            place_is_unique(t, other, q);
        } else {
            if q < p {
                assert(s[q].0.0 < id.0);
            }
            assert forall|i: int| 0 <= i < q + 1 implies (#[trigger] t[i]).0.0 < other.0 by {
                if i < p {
                    assert(t[i] == s[i]);
                } else if i > p {
                    assert(t[i] == s[i - 1]);
                }
            }
            place_is_unique(t, other, q + 1);
        }
    }
}

/// The value bound to each SSA value so far, in the order of the handles.
#[derive(Debug, PartialEq)]
pub struct Bindings {
    entries: Vec<(ValueId, Value)>,
}

impl View for Bindings {
    type V = Seq<(ValueId, ValueView)>;

    closed spec fn view(&self) -> Seq<(ValueId, ValueView)> {
        bindings_view(self.entries@)
    }
}

/// The content of a list of bindings.
spec fn bindings_view(entries: Seq<(ValueId, Value)>) -> Seq<(ValueId, ValueView)> {
    Seq::new(entries.len(), |i: int| (entries[i].0, entries[i].1@))
}

impl Bindings {
    /// The bindings are in the order of their handles.
    #[verifier::type_invariant]
    spec fn is_in_order(self) -> bool {
        in_order(self@)
    }

    /// No bindings.
    pub fn new() -> (r: Bindings)
        ensures
            r@ == Seq::<(ValueId, ValueView)>::empty(),
    {
        let entries: Vec<(ValueId, Value)> = Vec::new();
        assert(bindings_view(entries@) =~= Seq::empty());
        Bindings { entries }
    }

    /// How many values are bound.
    pub fn len(&self) -> (r: usize)
        ensures
            r == self@.len(),
    {
        self.entries.len()
    }

    /// The handle of the binding at a position.
    pub fn id_at(&self, i: usize) -> (r: ValueId)
        requires
            i < self@.len(),
        ensures
            r == self@[i as int].0,
    {
        self.entries[i].0
    }

    /// The value of the binding at a position.
    pub fn value_at(&self, i: usize) -> (r: &Value)
        requires
            i < self@.len(),
        ensures
            r@ == self@[i as int].1,
    {
        &self.entries[i].1
    }

    /// Where a handle is, or where it would go.
    fn place_of(&self, id: ValueId) -> (r: usize)
        ensures
            r == place(self@, id),
            r <= self.entries@.len(),
    {
        let mut p: usize = 0;
        while p < self.entries.len() && self.entries[p].0.0 < id.0
            invariant
                p <= self.entries@.len(),
                forall|i: int| 0 <= i < p ==> (#[trigger] self@[i]).0.0 < id.0,
            decreases self.entries@.len() - p,
        {
            p += 1;
        }
        proof {
            if p < self.entries@.len() {
                assert(self@[p as int].0 == self.entries@[p as int].0);
            }
            place_is_unique(self@, id, p as int);
        }
        p
    }

    /// Binds a handle to a value, replacing what was there.
    pub fn insert(&mut self, id: ValueId, value: Value)
        ensures
            final(self)@ == bound_to(old(self)@, id, value@),
            in_order(final(self)@),
            value_at(final(self)@, id) == Some(value@),
            forall|other: ValueId|
                other != id ==> #[trigger] value_at(final(self)@, other) == value_at(
                    old(self)@,
                    other,
                ),
    {
        let p: usize = self.place_of(id);
        proof {
            use_type_invariant(&*self);
            let far = ValueId(
                if id.0 == 0 {
                    1
                } else {
                    0
                },
            );
            binding_is_remembered(self@, id, value@, far);
            assert forall|other: ValueId| other != id implies #[trigger] value_at(
                bound_to(self@, id, value@),
                other,
            ) == value_at(self@, other) by {
                binding_is_remembered(self@, id, value@, other);
            }
        }
        let mut taken = Bindings::new();
        core::mem::swap(self, &mut taken);
        let ghost before = taken@;
        let Bindings { mut entries } = taken;
        if p < entries.len() && entries[p].0.0 == id.0 {
            entries[p] = (id, value);
        } else {
            entries.insert(p, (id, value));
        }
        assert(bindings_view(entries@) =~= bound_to(before, id, value@));
        *self = Bindings { entries };
    }

    /// Reads the value bound to a handle.
    pub fn get(&self, id: ValueId) -> (r: Option<&Value>)
        ensures
            r is Some == value_at(self@, id) is Some,
            r matches Some(v) ==> value_at(self@, id) == Some(v@),
    {
        let p: usize = self.place_of(id);
        if p < self.entries.len() && self.entries[p].0.0 == id.0 {
            Some(&self.entries[p].1)
        } else {
            None
        }
    }
}

impl Clone for Bindings {
    /// A copy of the bindings.
    fn clone(&self) -> (r: Bindings)
        ensures
            r@ == self@,
    {
        let mut entries: Vec<(ValueId, Value)> = Vec::new();
        let mut i: usize = 0;
        while i < self.entries.len()
            invariant
                i <= self.entries@.len(),
                entries@.len() == i,
                forall|j: int|
                    0 <= j < i ==> (#[trigger] entries@[j]).0 == self.entries@[j].0
                        && entries@[j].1@ == self.entries@[j].1@,
            decreases self.entries@.len() - i,
        {
            entries.push((self.entries[i].0, self.entries[i].1.clone()));
            i += 1;
        }
        proof {
            use_type_invariant(self);
            assert(bindings_view(entries@) =~= self@);
        }
        Bindings { entries }
    }
}

/// How often each of some actions was seen, in the order of their signatures.
#[derive(Debug, PartialEq)]
pub struct Repeats {
    entries: Vec<(String, usize)>,
}

impl View for Repeats {
    type V = Seq<(Seq<char>, usize)>;

    closed spec fn view(&self) -> Seq<(Seq<char>, usize)> {
        counts_view(self.entries@)
    }
}

/// The content of a list of counts.
spec fn counts_view(entries: Seq<(String, usize)>) -> Seq<(Seq<char>, usize)> {
    Seq::new(entries.len(), |i: int| (entries[i].0@, entries[i].1))
}

impl Repeats {
    /// The counts are in the order of their signatures.
    #[verifier::type_invariant]
    spec fn is_in_order(self) -> bool {
        sorted(keys(self@))
    }

    /// No action was seen.
    pub fn new() -> (r: Repeats)
        ensures
            r@ == Seq::<(Seq<char>, usize)>::empty(),
    {
        let entries: Vec<(String, usize)> = Vec::new();
        assert(counts_view(entries@) =~= Seq::empty());
        Repeats { entries }
    }

    /// How many different actions were seen.
    pub fn len(&self) -> (r: usize)
        ensures
            r == self@.len(),
    {
        self.entries.len()
    }

    /// The signature at a position.
    pub fn key_at(&self, i: usize) -> (r: &String)
        requires
            i < self@.len(),
        ensures
            r@ == self@[i as int].0,
    {
        &self.entries[i].0
    }

    /// How often an action was seen.
    pub fn get(&self, signature: &str) -> (r: usize)
        ensures
            r == seen(self@, signature@),
    {
        let p: usize = slot_of(&self.entries, signature);
        assert(entry_keys(self.entries@) =~= keys(self@));
        if p < self.entries.len() && same_text(self.entries[p].0.as_str(), signature) {
            self.entries[p].1
        } else {
            0
        }
    }

    /// Sets how often an action was seen.
    pub fn insert(&mut self, signature: String, count: usize)
        ensures
            final(self)@ == insert(old(self)@, signature@, count),
            sorted(keys(final(self)@)),
            seen(final(self)@, signature@) == count,
            forall|other: Seq<char>|
                other != signature@ ==> #[trigger] seen(final(self)@, other) == seen(
                    old(self)@,
                    other,
                ),
    {
        proof {
            use_type_invariant(&*self);
            insert_replaces_one(self@, signature@, count);
            assert forall|other: Seq<char>| other != signature@ implies #[trigger] seen(
                insert(self@, signature@, count),
                other,
            ) == seen(self@, other) by {
                assert(lookup(insert(self@, signature@, count), other) == lookup(self@, other));
            }
        }
        let mut taken = Repeats::new();
        core::mem::swap(self, &mut taken);
        let ghost before = taken@;
        let Repeats { mut entries } = taken;
        let p: usize = slot_of(&entries, signature.as_str());
        assert(entry_keys(entries@) =~= keys(before));
        if p < entries.len() && same_text(entries[p].0.as_str(), signature.as_str()) {
            entries[p] = (signature, count);
        } else {
            entries.insert(p, (signature, count));
        }
        assert(counts_view(entries@) =~= insert(before, signature@, count));
        *self = Repeats { entries };
    }
}

impl Clone for Repeats {
    /// A copy of the counts.
    fn clone(&self) -> (r: Repeats)
        ensures
            r@ == self@,
    {
        let mut entries: Vec<(String, usize)> = Vec::new();
        let mut i: usize = 0;
        while i < self.entries.len()
            invariant
                i <= self.entries@.len(),
                entries@.len() == i,
                forall|j: int|
                    0 <= j < i ==> (#[trigger] entries@[j]).0@ == self.entries@[j].0@
                        && entries@[j].1 == self.entries@[j].1,
            decreases self.entries@.len() - i,
        {
            entries.push((self.entries[i].0.clone(), self.entries[i].1));
            i += 1;
        }
        proof {
            use_type_invariant(self);
            assert(counts_view(entries@) =~= self@);
        }
        Repeats { entries }
    }
}

/// How often an action was seen.
pub open spec fn seen(repeats: Seq<(Seq<char>, usize)>, signature: Seq<char>) -> usize {
    match lookup(repeats, signature) {
        Some(count) => count,
        None => 0,
    }
}

/// One more, up to what a counter can hold.
pub open spec fn one_more(count: usize) -> usize {
    if count < usize::MAX {
        (count + 1) as usize
    } else {
        count
    }
}

/// One more, up to what a counter can hold.
pub fn next_count(count: usize) -> (r: usize)
    ensures
        r == one_more(count),
{
    if count < usize::MAX {
        count + 1
    } else {
        count
    }
}

/// What the agent is doing right now: its operational state.
#[derive(Debug, PartialEq)]
pub struct ExecutionState {
    /// The value bound to each SSA value so far.
    pub values: Bindings,
    /// Effects that already happened, and their results.
    pub ledger: Ledger,
    /// Candidates the program explicitly rejected, for the audit trail.
    pub rejected: Vec<Value>,
    /// How many times an identical action has repeated, for the loop guard.
    pub repeats: Repeats,
}

/// The mathematical content of an [`ExecutionState`].
#[verifier::ext_equal]
pub ghost struct StateView {
    pub values: Seq<(ValueId, ValueView)>,
    pub ledger: Seq<(Seq<char>, ValueView)>,
    pub rejected: Seq<ValueView>,
    pub repeats: Seq<(Seq<char>, usize)>,
}

impl View for ExecutionState {
    type V = StateView;

    open spec fn view(&self) -> StateView {
        StateView {
            values: self.values@,
            ledger: self.ledger@,
            rejected: value_views(self.rejected@),
            repeats: self.repeats@,
        }
    }
}

impl StateView {
    /// The state in which nothing has happened.
    pub open spec fn fresh() -> StateView {
        StateView {
            values: Seq::empty(),
            ledger: Seq::empty(),
            rejected: Seq::empty(),
            repeats: Seq::empty(),
        }
    }

    /// The state with a value bound.
    pub open spec fn bind(self, id: ValueId, value: ValueView) -> StateView {
        StateView { values: bound_to(self.values, id, value), ..self }
    }

    /// The state with the first `n` of some handles bound to the values at the
    /// same positions.
    pub open spec fn bind_all(self, ids: Seq<ValueId>, values: Seq<ValueView>, n: int) -> StateView
        decreases n,
    {
        if n <= 0 {
            self
        } else {
            self.bind_all(ids, values, n - 1).bind(ids[n - 1], values[n - 1])
        }
    }

    /// The value bound to a handle, or nothing meaningful when the program
    /// never produced one.
    pub open spec fn get_or_null(self, id: ValueId) -> ValueView {
        match value_at(self.values, id) {
            Some(value) => value,
            None => ValueView::Null,
        }
    }

    /// The state with one more occurrence of an action counted.
    pub open spec fn count_repeat(self, signature: Seq<char>) -> StateView {
        StateView {
            repeats: insert(self.repeats, signature, one_more(seen(self.repeats, signature))),
            ..self
        }
    }

    /// The state with the result of an effect recorded under its key.
    pub open spec fn record(self, key: Seq<char>, result: ValueView) -> StateView {
        StateView { ledger: insert(self.ledger, key, result), ..self }
    }

    /// The state with one more rejected candidate.
    pub open spec fn reject(self, value: ValueView) -> StateView {
        StateView { rejected: self.rejected.push(value), ..self }
    }
}

impl Default for ExecutionState {
    fn default() -> (r: ExecutionState)
        ensures
            r@ == StateView::fresh(),
    {
        ExecutionState::new()
    }
}

impl ExecutionState {
    /// An empty state.
    pub fn new() -> (r: ExecutionState)
        ensures
            r@ == StateView::fresh(),
    {
        let r = ExecutionState {
            values: Bindings::new(),
            ledger: Ledger::new(),
            rejected: Vec::new(),
            repeats: Repeats::new(),
        };
        assert(r@.rejected =~= Seq::empty());
        r
    }

    /// Binds a value.
    pub fn bind(&mut self, id: ValueId, value: Value)
        ensures
            final(self)@ == old(self)@.bind(id, value@),
    {
        self.values.insert(id, value);
    }

    /// Reads a bound value.
    pub fn get(&self, id: ValueId) -> (r: Option<&Value>)
        ensures
            r is Some == value_at(self@.values, id) is Some,
            r matches Some(v) ==> value_at(self@.values, id) == Some(v@),
    {
        self.values.get(id)
    }

    /// Reads a bound value, or `Null` when the program never produced one.
    pub fn get_or_null(&self, id: ValueId) -> (r: Value)
        ensures
            r@ == self@.get_or_null(id),
    {
        broadcast use crate::value::value_view;

        match self.values.get(id) {
            Some(value) => value.clone(),
            None => Value::Null,
        }
    }

    /// Counts one more occurrence of an action signature, returning the new
    /// total.
    pub fn count_repeat(&mut self, signature: String) -> (r: usize)
        ensures
            final(self)@ == old(self)@.count_repeat(signature@),
            r == one_more(seen(old(self)@.repeats, signature@)),
    {
        let count: usize = next_count(self.repeats.get(signature.as_str()));
        self.repeats.insert(signature, count);
        count
    }

    /// Adds a rejected candidate.
    pub fn reject(&mut self, value: Value)
        ensures
            final(self)@ == old(self)@.reject(value@),
    {
        self.rejected.push(value);
        assert(self@.rejected =~= old(self)@.rejected.push(value@));
    }
}

impl Clone for ExecutionState {
    /// A copy of the state.
    fn clone(&self) -> (r: ExecutionState)
        ensures
            r@ == self@,
    {
        ExecutionState {
            values: self.values.clone(),
            ledger: self.ledger.clone(),
            rejected: copy_list(&self.rejected),
            repeats: self.repeats.clone(),
        }
    }
}

/// Counting is per signature: the count of the action goes up by one and that
/// of every other stays.
pub proof fn repeat_counting_is_separate(
    repeats: Seq<(Seq<char>, usize)>,
    signature: Seq<char>,
    other: Seq<char>,
)
    requires
        sorted(keys(repeats)),
        other != signature,
    ensures
        ({
            let counted = insert(repeats, signature, one_more(seen(repeats, signature)));
            &&& sorted(keys(counted))
            &&& seen(counted, signature) == one_more(seen(repeats, signature))
            &&& seen(counted, other) == seen(repeats, other)
        }),
{
    let count = one_more(seen(repeats, signature));
    insert_keeps_sorted(repeats, signature, count);
    insert_then_lookup(repeats, signature, count);
    insert_keeps_others(repeats, signature, count, other);
}

/// A consistent snapshot of an execution.
///
/// Snapshots are whole or absent: a partial checkpoint would let recovery
/// resume from a state that never existed.
#[derive(Debug, PartialEq)]
pub struct Checkpoint {
    /// Which checkpoint this is, counting from one.
    pub sequence: u64,
    /// How many event-log entries the snapshot includes.
    pub log_position: u64,
    /// The IR version this execution was compiled from.
    pub version: u64,
    /// The state at the moment of the snapshot.
    pub state: ExecutionState,
}

/// The mathematical content of a [`Checkpoint`].
#[verifier::ext_equal]
pub ghost struct CheckpointView {
    pub sequence: u64,
    pub log_position: u64,
    pub version: u64,
    pub state: StateView,
}

impl View for Checkpoint {
    type V = CheckpointView;

    open spec fn view(&self) -> CheckpointView {
        CheckpointView {
            sequence: self.sequence,
            log_position: self.log_position,
            version: self.version,
            state: self.state@,
        }
    }
}

impl Clone for Checkpoint {
    /// A copy of the snapshot.
    fn clone(&self) -> (r: Checkpoint)
        ensures
            r@ == self@,
    {
        Checkpoint {
            sequence: self.sequence,
            log_position: self.log_position,
            version: self.version,
            state: self.state.clone(),
        }
    }
}

/// The content of each of some snapshots.
pub open spec fn checkpoint_views(checkpoints: Seq<Checkpoint>) -> Seq<CheckpointView> {
    Seq::new(checkpoints.len(), |i: int| checkpoints[i]@)
}

/// Where checkpoints live.
pub trait CheckpointStore {
    /// Every snapshot stored so far, oldest first.
    spec fn saved(&self) -> Seq<CheckpointView>;

    /// Stores a snapshot.
    fn save(&mut self, checkpoint: Checkpoint)
        ensures
            final(self).saved() == old(self).saved().push(checkpoint@),
    ;

    /// The most recent snapshot, if there is one.
    fn latest(&self) -> (r: Option<&Checkpoint>)
        ensures
            r is Some == (self.saved().len() > 0),
            r matches Some(c) ==> c@ == self.saved().last(),
    ;

    /// Every snapshot, oldest first.
    fn all(&self) -> (r: &[Checkpoint])
        ensures
            checkpoint_views(r@) == self.saved(),
    ;
}

/// An in-memory checkpoint store.
#[derive(Debug)]
pub struct InMemoryCheckpointStore {
    checkpoints: Vec<Checkpoint>,
}

impl Default for InMemoryCheckpointStore {
    fn default() -> (r: InMemoryCheckpointStore)
        ensures
            r.saved() == Seq::<CheckpointView>::empty(),
    {
        InMemoryCheckpointStore::new()
    }
}

impl Clone for InMemoryCheckpointStore {
    /// A copy of the store.
    fn clone(&self) -> (r: InMemoryCheckpointStore)
        ensures
            r.saved() == self.saved(),
    {
        let r = InMemoryCheckpointStore { checkpoints: clone_all(&self.checkpoints) };
        assert(r.saved() =~= self.saved());
        r
    }
}

impl InMemoryCheckpointStore {
    /// An empty store.
    pub fn new() -> (r: InMemoryCheckpointStore)
        ensures
            r.saved() == Seq::<CheckpointView>::empty(),
    {
        let r = InMemoryCheckpointStore { checkpoints: Vec::new() };
        assert(r.saved() =~= Seq::empty());
        r
    }
}

impl CheckpointStore for InMemoryCheckpointStore {
    closed spec fn saved(&self) -> Seq<CheckpointView> {
        checkpoint_views(self.checkpoints@)
    }

    fn save(&mut self, checkpoint: Checkpoint) {
        self.checkpoints.push(checkpoint);
        assert(self.saved() =~= old(self).saved().push(checkpoint@));
    }

    fn latest(&self) -> (r: Option<&Checkpoint>) {
        if self.checkpoints.len() > 0 {
            Some(&self.checkpoints[self.checkpoints.len() - 1])
        } else {
            None
        }
    }

    fn all(&self) -> (r: &[Checkpoint]) {
        self.checkpoints.as_slice()
    }
}

} // verus!
