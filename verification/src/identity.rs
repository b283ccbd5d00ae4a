//! When two operations compute the same thing.
//!
//! The key of a computation stands for everything that decides its result: what
//! is done, to what, on which resource and under which attributes. The declared
//! effect is not part of it.

use vstd::prelude::*;

use crate::assoc::{keys, lookup, sorted, sorted_lookup_finds};
use crate::attribute::AttributeView;
use crate::effect::scope_text;
use crate::module::{rendered_attributes, OperationView};
use crate::text::{text_lt_irreflexive, text_lt_transitive};

verus! {

/// Whether two operations say the same under an attribute name: both nothing, or
/// both something that prints the same.
pub open spec fn agree_on(a: OperationView, b: OperationView, name: Seq<char>) -> bool {
    match (lookup(a.attributes, name), lookup(b.attributes, name)) {
        (Some(x), Some(y)) => x.text() == y.text(),
        (None, None) => true,
        _ => false,
    }
}

/// Whether two operations touch a resource of the same name, or none.
pub open spec fn same_resource(a: OperationView, b: OperationView) -> bool {
    match (a.effect.scope(), b.effect.scope()) {
        (Some(x), Some(y)) => scope_text(x) == scope_text(y),
        (None, None) => true,
        _ => false,
    }
}

/// Whether two operations compute the same thing: the same action, on the same
/// operands and resource, with the same attributes but for the declared effect.
pub open spec fn same_computation(a: OperationView, b: OperationView) -> bool {
    &&& a.name == b.name
    &&& a.literal == b.literal
    &&& a.operands == b.operands
    &&& same_resource(a, b)
    &&& forall|name: Seq<char>| name != "effect"@ ==> #[trigger] agree_on(a, b, name)
}

/// Where the rendered attributes come from.
proof fn rendered_from(attributes: Seq<(Seq<char>, AttributeView)>, n: int, k: int) -> (at: int)
    requires
        n <= attributes.len(),
        0 <= k < rendered_attributes(attributes, n).len(),
    ensures
        0 <= at < n,
        attributes[at].0 != "effect"@,
        rendered_attributes(attributes, n)[k] == (attributes[at].0, attributes[at].1.text()),
    decreases n,
{
    let before = rendered_attributes(attributes, n - 1);
    if k < before.len() {
        rendered_from(attributes, n - 1, k)
    } else {
        n - 1
    }
}

/// Every attribute but the declared effect is rendered.
proof fn rendered_all(attributes: Seq<(Seq<char>, AttributeView)>, n: int, at: int) -> (k: int)
    requires
        0 <= at < n <= attributes.len(),
        attributes[at].0 != "effect"@,
    ensures
        0 <= k < rendered_attributes(attributes, n).len(),
        rendered_attributes(attributes, n)[k] == (attributes[at].0, attributes[at].1.text()),
    decreases n,
{
    if at == n - 1 {
        rendered_attributes(attributes, n - 1).len() as int
    } else {
        rendered_all(attributes, n - 1, at)
    }
}

/// Rendering keeps the attributes in order.
proof fn rendered_in_order(attributes: Seq<(Seq<char>, AttributeView)>, n: int)
    requires
        sorted(keys(attributes)),
        0 <= n <= attributes.len(),
    ensures
        sorted(keys(rendered_attributes(attributes, n))),
    decreases n,
{
    if n > 0 {
        rendered_in_order(attributes, n - 1);
        let before = rendered_attributes(attributes, n - 1);
        let after = rendered_attributes(attributes, n);
        assert forall|i: int, j: int| 0 <= i < j < keys(after).len() implies crate::text::text_lt(
            #[trigger] keys(after)[i],
            #[trigger] keys(after)[j],
        ) by {
            if j < before.len() {
                assert(keys(before)[i] == keys(after)[i]);
                assert(keys(before)[j] == keys(after)[j]);
            } else {
                let at = rendered_from(attributes, n - 1, i);
                assert(keys(attributes)[at] == keys(after)[i]);
                assert(keys(attributes)[n - 1] == keys(after)[j]);
            }
        }
    }
}

/// What is rendered under a name.
proof fn rendered_lookup(attributes: Seq<(Seq<char>, AttributeView)>, name: Seq<char>)
    requires
        sorted(keys(attributes)),
        name != "effect"@,
    ensures
        ({
            let r = rendered_attributes(attributes, attributes.len() as int);
            lookup(r, name) == match lookup(attributes, name) {
                Some(a) => Some(a.text()),
                None => None,
            }
        }),
{
    let n = attributes.len() as int;
    let r = rendered_attributes(attributes, n);
    rendered_in_order(attributes, n);
    crate::assoc::slot_separates(keys(attributes), name);
    crate::assoc::slot_separates(keys(r), name);
    if lookup(attributes, name) is Some {
        let at = crate::assoc::slot(keys(attributes), name) as int;
        let k = rendered_all(attributes, n, at);
        sorted_lookup_finds(r, k);
    } else if lookup(r, name) is Some {
        let k = crate::assoc::slot(keys(r), name) as int;
        let at = rendered_from(attributes, n, k);
        sorted_lookup_finds(attributes, at);
    }
}

/// A list in order holds each of its keys at one position, and nothing beyond
/// its last.
proof fn last_is_greatest<V>(s: Seq<(Seq<char>, V)>, key: Seq<char>)
    requires
        sorted(keys(s)),
        s.len() > 0,
        lookup(s, key) is Some,
    ensures
        key == s.last().0 || crate::text::text_lt(key, s.last().0),
{
    crate::assoc::slot_separates(keys(s), key);
    let p = crate::assoc::slot(keys(s), key) as int;
    if p < s.len() - 1 {
        assert(crate::text::text_lt(keys(s)[p], keys(s)[s.len() - 1]));
    }
}

/// What a list in order holds without its last entry.
proof fn without_the_last<V>(s: Seq<(Seq<char>, V)>, key: Seq<char>)
    requires
        sorted(keys(s)),
        s.len() > 0,
    ensures
        sorted(keys(s.drop_last())),
        lookup(s.drop_last(), key) == if key == s.last().0 {
            None::<V>
        } else {
            lookup(s, key)
        },
{
    let t = s.drop_last();
    assert forall|i: int, j: int| 0 <= i < j < keys(t).len() implies crate::text::text_lt(
        #[trigger] keys(t)[i],
        #[trigger] keys(t)[j],
    ) by {
        assert(crate::text::text_lt(keys(s)[i], keys(s)[j]));
    }
    crate::assoc::slot_separates(keys(s), key);
    crate::assoc::slot_separates(keys(t), key);
    let n = s.len() - 1;
    sorted_lookup_finds(s, n);
    if lookup(t, key) is Some {
        let k = crate::assoc::slot(keys(t), key) as int;
        sorted_lookup_finds(s, k);
        assert(t[k] == s[k]);
        if key == s.last().0 {
            assert(crate::text::text_lt(keys(s)[k], keys(s)[n]));
            text_lt_irreflexive(key);
        }
    } else if lookup(s, key) is Some && key != s.last().0 {
        let k = crate::assoc::slot(keys(s), key) as int;
        sorted_lookup_finds(t, k);
    }
}

/// Two lists in order that hold the same under every key are the same.
pub proof fn lists_in_order_agree<V>(a: Seq<(Seq<char>, V)>, b: Seq<(Seq<char>, V)>)
    requires
        sorted(keys(a)),
        sorted(keys(b)),
        forall|key: Seq<char>| #[trigger] lookup(a, key) == lookup(b, key),
    ensures
        a == b,
    decreases a.len(),
{
    if a.len() == 0 {
        if b.len() > 0 {
            sorted_lookup_finds(b, 0);
            assert(lookup(a, b[0].0) == lookup(b, b[0].0));
        }
        assert(a =~= b);
    } else if b.len() == 0 {
        sorted_lookup_finds(a, 0);
        assert(lookup(a, a[0].0) == lookup(b, a[0].0));
    } else {
        let x = a.last().0;
        let y = b.last().0;
        sorted_lookup_finds(a, a.len() - 1);
        sorted_lookup_finds(b, b.len() - 1);
        assert(lookup(a, x) == lookup(b, x));
        assert(lookup(a, y) == lookup(b, y));
        last_is_greatest(b, x);
        last_is_greatest(a, y);
        if x != y {
            text_lt_transitive(x, y, x);
            text_lt_irreflexive(x);
        }
        assert forall|key: Seq<char>| #[trigger] lookup(a.drop_last(), key) == lookup(
            b.drop_last(),
            key,
        ) by {
            without_the_last(a, key);
            without_the_last(b, key);
            assert(lookup(a, key) == lookup(b, key));
        }
        without_the_last(a, x);
        without_the_last(b, x);
        lists_in_order_agree(a.drop_last(), b.drop_last());
        assert(a =~= a.drop_last().push(a.last()));
        assert(b =~= b.drop_last().push(b.last()));
    }
}

/// Two operations have the same key exactly when they compute the same thing:
/// the same action on the same operands and resource, where every attribute but
/// the declared effect is missing from both or prints the same in both.
pub proof fn a_key_stands_for_a_computation(a: OperationView, b: OperationView)
    requires
        sorted(keys(a.attributes)),
        sorted(keys(b.attributes)),
    ensures
        a.cache_key() == b.cache_key() <==> same_computation(a, b),
{
    let x = rendered_attributes(a.attributes, a.attributes.len() as int);
    let y = rendered_attributes(b.attributes, b.attributes.len() as int);
    if a.cache_key() == b.cache_key() {
        assert(x == a.cache_key().attributes);
        assert forall|name: Seq<char>| name != "effect"@ implies #[trigger] agree_on(a, b, name) by {
            rendered_lookup(a.attributes, name);
            rendered_lookup(b.attributes, name);
        }
    }
    if same_computation(a, b) {
        rendered_in_order(a.attributes, a.attributes.len() as int);
        rendered_in_order(b.attributes, b.attributes.len() as int);
        assert forall|name: Seq<char>| #[trigger] lookup(x, name) == lookup(y, name) by {
            if name == "effect"@ {
                effect_is_not_rendered(a.attributes);
                effect_is_not_rendered(b.attributes);
            } else {
                assert(agree_on(a, b, name));
                rendered_lookup(a.attributes, name);
                rendered_lookup(b.attributes, name);
            }
        }
        lists_in_order_agree(x, y);
        assert(a.cache_key() =~= b.cache_key());
    }
}

proof fn effect_is_not_rendered(attributes: Seq<(Seq<char>, AttributeView)>)
    ensures
        lookup(rendered_attributes(attributes, attributes.len() as int), "effect"@) is None,
{
    let r = rendered_attributes(attributes, attributes.len() as int);
    if lookup(r, "effect"@) is Some {
        let k = crate::assoc::slot(keys(r), "effect"@) as int;
        crate::assoc::slot_separates(keys(r), "effect"@);
        let at = rendered_from(attributes, attributes.len() as int, k);
    }
}

} // verus!
