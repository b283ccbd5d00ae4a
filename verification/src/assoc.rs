//! Association lists kept in key order.
//!
//! A dictionary is a list of entries whose keys are strictly increasing in
//! character order, so that walking it is deterministic: printing a module
//! twice yields the same text.

use vstd::prelude::*;

use crate::text::{text_less, text_lt, text_lt_irreflexive, text_lt_total, text_lt_transitive};

verus! {

/// The keys of an association list.
pub open spec fn keys<V>(s: Seq<(Seq<char>, V)>) -> Seq<Seq<char>> {
    Seq::new(s.len(), |i: int| s[i].0)
}

/// How many of the leading keys come strictly before `key`: where the key is,
/// or where it would go.
pub open spec fn slot(keys: Seq<Seq<char>>, key: Seq<char>) -> nat
    decreases keys.len(),
{
    if keys.len() == 0 || !text_lt(keys[0], key) {
        0
    } else {
        1 + slot(keys.drop_first(), key)
    }
}

/// Whether the keys are strictly increasing.
pub open spec fn sorted(keys: Seq<Seq<char>>) -> bool {
    forall|i: int, j: int| 0 <= i < j < keys.len() ==> text_lt(#[trigger] keys[i], #[trigger] keys[j])
}

/// The value stored under a key.
pub open spec fn lookup<V>(s: Seq<(Seq<char>, V)>, key: Seq<char>) -> Option<V> {
    let p = slot(keys(s), key) as int;
    if p < s.len() && s[p].0 == key {
        Some(s[p].1)
    } else {
        None
    }
}

/// The list with `value` stored under `key`, replacing what was there.
pub open spec fn insert<V>(s: Seq<(Seq<char>, V)>, key: Seq<char>, value: V) -> Seq<
    (Seq<char>, V),
> {
    let p = slot(keys(s), key) as int;
    if p < s.len() && s[p].0 == key {
        s.update(p, (key, value))
    } else {
        s.insert(p, (key, value))
    }
}

/// The slot of a key: everything before it is smaller, and what stands there is not.
pub proof fn slot_separates(keys: Seq<Seq<char>>, key: Seq<char>)
    ensures
        slot(keys, key) <= keys.len(),
        forall|i: int| 0 <= i < slot(keys, key) ==> text_lt(#[trigger] keys[i], key),
        slot(keys, key) < keys.len() ==> !text_lt(keys[slot(keys, key) as int], key),
    decreases keys.len(),
{
    if keys.len() > 0 && text_lt(keys[0], key) {
        slot_separates(keys.drop_first(), key);
        assert forall|i: int| 0 <= i < slot(keys, key) implies text_lt(
            #[trigger] keys[i],
            key,
        ) by {
            if i > 0 {
                assert(keys[i] == keys.drop_first()[i - 1]);
            }
        }
    }
}

/// Only one position separates the smaller keys from the rest.
pub proof fn slot_is_unique(keys: Seq<Seq<char>>, key: Seq<char>, p: int)
    requires
        0 <= p <= keys.len(),
        forall|i: int| 0 <= i < p ==> text_lt(#[trigger] keys[i], key),
        p < keys.len() ==> !text_lt(keys[p], key),
    ensures
        slot(keys, key) == p,
{
    slot_separates(keys, key);
    let q = slot(keys, key) as int;
    if q < p {
        assert(text_lt(keys[q], key));
    }
    if p < q {
        assert(text_lt(keys[p], key));
    }
}

/// In a sorted list, a key is found wherever it stands.
pub proof fn sorted_lookup_finds<V>(s: Seq<(Seq<char>, V)>, i: int)
    requires
        sorted(keys(s)),
        0 <= i < s.len(),
    ensures
        lookup(s, s[i].0) == Some(s[i].1),
        slot(keys(s), s[i].0) == i,
{
    let k = s[i].0;
    text_lt_irreflexive(k);
    assert(keys(s)[i] == k);
    assert forall|j: int| 0 <= j < i implies text_lt(#[trigger] keys(s)[j], k) by {
        assert(text_lt(keys(s)[j], keys(s)[i]));
    }
    slot_is_unique(keys(s), k, i);
}

/// Storing a value keeps the list sorted.
pub proof fn insert_keeps_sorted<V>(s: Seq<(Seq<char>, V)>, key: Seq<char>, value: V)
    requires
        sorted(keys(s)),
    ensures
        sorted(keys(insert(s, key, value))),
{
    let p = slot(keys(s), key) as int;
    slot_separates(keys(s), key);
    let r = insert(s, key, value);
    let ks = keys(s);
    if p < s.len() && s[p].0 == key {
        assert(keys(r) =~= keys(s));
    } else {
        assert(r.len() == s.len() + 1);
        assert forall|i: int, j: int| 0 <= i < j < keys(r).len() implies text_lt(
            #[trigger] keys(r)[i],
            #[trigger] keys(r)[j],
        ) by {
            if i < p && j == p {
                assert(text_lt(ks[i], key));
            } else if i == p {
                let q = j - 1;
                assert(keys(r)[j] == ks[q]);
                text_lt_total(ks[p], key);
                assert(text_lt(key, ks[p]));
                if q > p {
                    assert(text_lt(ks[p], ks[q]));
                    text_lt_transitive(key, ks[p], ks[q]);
                }
            } else {
                let a = if i < p {
                    i
                } else {
                    i - 1
                };
                let b = if j < p {
                    j
                } else {
                    j - 1
                };
                assert(keys(r)[i] == ks[a]);
                assert(keys(r)[j] == ks[b]);
            }
        }
    }
}

/// A value is found under the key it was stored under.
pub proof fn insert_then_lookup<V>(s: Seq<(Seq<char>, V)>, key: Seq<char>, value: V)
    ensures
        lookup(insert(s, key, value), key) == Some(value),
{
    let p = slot(keys(s), key) as int;
    slot_separates(keys(s), key);
    text_lt_irreflexive(key);
    let r = insert(s, key, value);
    assert(keys(r)[p] == key);
    assert forall|i: int| 0 <= i < p implies text_lt(#[trigger] keys(r)[i], key) by {
        assert(keys(r)[i] == keys(s)[i]);
    }
    slot_is_unique(keys(r), key, p);
}

/// Storing under one key leaves the others as they were.
pub proof fn insert_keeps_others<V>(
    s: Seq<(Seq<char>, V)>,
    key: Seq<char>,
    value: V,
    other: Seq<char>,
)
    requires
        sorted(keys(s)),
        other != key,
    ensures
        lookup(insert(s, key, value), other) == lookup(s, other),
{
    let p = slot(keys(s), key) as int;
    slot_separates(keys(s), key);
    let r = insert(s, key, value);
    insert_keeps_sorted(s, key, value);
    if lookup(s, other) is Some {
        let q = slot(keys(s), other) as int;
        slot_separates(keys(s), other);
        let q2 = if r.len() == s.len() || q < p {
            q
        } else {
            q + 1
        };
        assert(r[q2] == s[q]);
        sorted_lookup_finds(r, q2);
    } else if lookup(r, other) is Some {
        let q = slot(keys(r), other) as int;
        slot_separates(keys(r), other);
        assert(r[q].0 == other);
        let q2 = if r.len() == s.len() || q < p {
            q
        } else {
            q - 1
        };
        assert(s[q2] == r[q]);
        sorted_lookup_finds(s, q2);
    }
}

/// Storing under a key keeps the list sorted, is found again, and leaves every
/// other key as it was.
pub proof fn insert_replaces_one<V>(s: Seq<(Seq<char>, V)>, key: Seq<char>, value: V)
    requires
        sorted(keys(s)),
    ensures
        sorted(keys(insert(s, key, value))),
        lookup(insert(s, key, value), key) == Some(value),
        forall|other: Seq<char>|
            other != key ==> #[trigger] lookup(insert(s, key, value), other) == lookup(s, other),
{
    insert_keeps_sorted(s, key, value);
    insert_then_lookup(s, key, value);
    assert forall|other: Seq<char>| other != key implies #[trigger] lookup(
        insert(s, key, value),
        other,
    ) == lookup(s, other) by {
        insert_keeps_others(s, key, value, other);
    }
}

/// Storing under a key beyond every other appends.
pub proof fn insert_at_end<V>(s: Seq<(Seq<char>, V)>, key: Seq<char>, value: V)
    requires
        forall|i: int| 0 <= i < s.len() ==> text_lt((#[trigger] s[i]).0, key),
    ensures
        insert(s, key, value) == s.push((key, value)),
{
    assert forall|i: int| 0 <= i < s.len() implies text_lt(#[trigger] keys(s)[i], key) by {
        assert(text_lt(s[i].0, key));
    }
    slot_is_unique(keys(s), key, s.len() as int);
    assert(insert(s, key, value) =~= s.push((key, value)));
}

/// The keys of an executable association list.
pub open spec fn entry_keys<T>(entries: Seq<(String, T)>) -> Seq<Seq<char>> {
    Seq::new(entries.len(), |i: int| entries[i].0@)
}

/// The slot of a key in an executable association list.
pub fn slot_of<T>(entries: &Vec<(String, T)>, key: &str) -> (r: usize)
    ensures
        r == slot(entry_keys(entries@), key@),
        r <= entries@.len(),
{
    let mut i: usize = 0;
    while i < entries.len() && text_less(entries[i].0.as_str(), key)
        invariant
            i <= entries@.len(),
            forall|j: int| 0 <= j < i ==> text_lt(#[trigger] entry_keys(entries@)[j], key@),
        decreases entries@.len() - i,
    {
        assert(entry_keys(entries@)[i as int] == entries@[i as int].0@);
        i += 1;
    }
    proof {
        slot_is_unique(entry_keys(entries@), key@, i as int);
    }
    i
}

} // verus!
