//! Capabilities: the structural security boundary.
//!
//! An operation may only be lowered to the runtime if the agent holds a
//! capability covering its declared effect. The check happens at compile time,
//! before any network call.

use vstd::prelude::*;
use vstd::string::*;

use crate::assoc::{
    entry_keys, insert, insert_keeps_others, insert_keeps_sorted, insert_then_lookup, keys, lookup,
    slot, slot_of, slot_separates, sorted,
};
use crate::effect::{Effect, EffectClass, EffectView, Scope};
use crate::text::{holds_text, same_text, texts};

verus! {

/// A permission granted to an agent.
#[derive(Debug, PartialEq)]
pub struct Capability {
    /// The name an `agent.verify` refers to.
    pub name: String,
    /// The resource this capability applies to.
    pub scope: Scope,
    /// The effect classes it authorizes.
    pub grants: Vec<EffectClass>,
    /// When set, a human must approve before the operation may run, and the
    /// compiler rejects the program unless approval has been recorded.
    pub requires_approval: bool,
}

/// The mathematical content of a [`Capability`].
#[verifier::ext_equal]
pub ghost struct CapabilityView {
    pub name: Seq<char>,
    pub scope: Option<Seq<char>>,
    pub grants: Seq<EffectClass>,
    pub requires_approval: bool,
}

impl View for Capability {
    type V = CapabilityView;

    open spec fn view(&self) -> CapabilityView {
        CapabilityView {
            name: self.name@,
            scope: self.scope@,
            grants: self.grants@,
            requires_approval: self.requires_approval,
        }
    }
}

impl CapabilityView {
    /// Whether the capability authorizes the effect: it grants the effect's
    /// class, and its scope contains the effect's. The unknown scope contains
    /// every scope; a named one contains only itself.
    pub open spec fn covers(self, effect: EffectView) -> bool {
        self.grants.contains(effect.class()) && match effect.scope() {
            None => true,
            Some(target) => self.scope is None || self.scope == target,
        }
    }
}

impl Capability {
    /// A capability granting some effect classes over one scope.
    pub fn new(name: &str, scope: Scope, grants: Vec<EffectClass>) -> (r: Capability)
        ensures
            r@ == (CapabilityView {
                name: name@,
                scope: scope@,
                grants: grants@,
                requires_approval: false,
            }),
    {
        Capability { name: String::from_str(name), scope, grants, requires_approval: false }
    }

    /// The same capability, but gated behind a human decision.
    pub fn requiring_approval(self) -> (r: Capability)
        ensures
            r@ == (CapabilityView { requires_approval: true, ..self@ }),
    {
        Capability { requires_approval: true, ..self }
    }

    /// Whether this capability authorizes the given effect.
    ///
    /// The scope must contain the effect's scope, not merely overlap it: an
    /// overlap test would let an effect on an unknown scope be satisfied by
    /// anything, which is the wrong direction for a permission check.
    pub fn covers(&self, effect: &Effect) -> (r: bool)
        ensures
            r == self@.covers(effect@),
    {
        let class = effect.class();
        let mut granted = false;
        let mut i: usize = 0;
        while i < self.grants.len()
            invariant
                i <= self.grants@.len(),
                granted == exists|j: int| 0 <= j < i && #[trigger] self.grants@[j] == class,
            decreases self.grants@.len() - i,
        {
            if self.grants[i] == class {
                granted = true;
            }
            i += 1;
        }
        assert(granted == self.grants@.contains(class));
        if !granted {
            return false;
        }
        match effect.scope() {
            None => true,
            Some(target) => self.scope.is_any() || self.scope.same(target),
        }
    }
}

impl Clone for Capability {
    /// A copy of the capability.
    fn clone(&self) -> (r: Capability)
        ensures
            r@ == self@,
    {
        let grants: Vec<EffectClass> = self.grants.clone();
        assert(grants@ =~= self.grants@);
        Capability {
            name: self.name.clone(),
            scope: self.scope.clone(),
            grants,
            requires_approval: self.requires_approval,
        }
    }
}

/// The set of capabilities an agent holds, keyed by name.
#[derive(Debug, PartialEq)]
pub struct CapabilitySet {
    capabilities: Vec<(String, Capability)>,
    /// Capability names a human has explicitly approved for this session.
    approvals: Vec<String>,
}

/// The mathematical content of a [`CapabilitySet`].
#[verifier::ext_equal]
pub ghost struct CapabilitySetView {
    /// The capabilities, in name order.
    pub capabilities: Seq<(Seq<char>, CapabilityView)>,
    /// The approved names, in the order of approval.
    pub approvals: Seq<Seq<char>>,
}

impl View for CapabilitySet {
    type V = CapabilitySetView;

    closed spec fn view(&self) -> CapabilitySetView {
        set_view(self.capabilities@, self.approvals@)
    }
}

/// The content of a set made of some entries and approvals.
spec fn set_view(
    capabilities: Seq<(String, Capability)>,
    approvals: Seq<String>,
) -> CapabilitySetView {
    CapabilitySetView {
        capabilities: Seq::new(
            capabilities.len(),
            |i: int| (capabilities[i].0@, capabilities[i].1@),
        ),
        approvals: texts(approvals),
    }
}

impl CapabilitySetView {
    /// Whether the capabilities are in name order, each under its own name, and
    /// no name is approved twice.
    pub open spec fn well_formed(self) -> bool {
        &&& sorted(keys(self.capabilities))
        &&& forall|i: int|
            0 <= i < self.capabilities.len() ==> (#[trigger] self.capabilities[i]).0
                == self.capabilities[i].1.name
        &&& self.approvals.no_duplicates()
    }

    /// The capability of a name.
    pub open spec fn named(self, name: Seq<char>) -> Option<CapabilityView> {
        lookup(self.capabilities, name)
    }

    /// The set that holds nothing.
    pub open spec fn empty() -> CapabilitySetView {
        CapabilitySetView { capabilities: Seq::empty(), approvals: Seq::empty() }
    }

    /// The set with a capability added under its own name.
    pub open spec fn grant(self, capability: CapabilityView) -> CapabilitySetView {
        CapabilitySetView {
            capabilities: insert(self.capabilities, capability.name, capability),
            ..self
        }
    }

    /// The set with a name approved.
    pub open spec fn approve(self, name: Seq<char>) -> CapabilitySetView {
        if self.approvals.contains(name) {
            self
        } else {
            CapabilitySetView { approvals: self.approvals.push(name), ..self }
        }
    }

    /// The position of the first capability that covers the effect, or the
    /// number of capabilities when none does.
    pub open spec fn first_covering(self, effect: EffectView, from: int) -> int
        decreases self.capabilities.len() - from,
    {
        if from >= self.capabilities.len() {
            self.capabilities.len() as int
        } else if self.capabilities[from].1.covers(effect) {
            from
        } else {
            self.first_covering(effect, from + 1)
        }
    }

    /// The first capability in name order that covers the effect.
    pub open spec fn covering(self, effect: EffectView) -> Option<CapabilityView> {
        let i = self.first_covering(effect, 0);
        if i < self.capabilities.len() {
            Some(self.capabilities[i].1)
        } else {
            None
        }
    }

    /// Whether the named capability exists, covers the effect and, if it is
    /// gated, has been approved.
    pub open spec fn authorizes(self, name: Seq<char>, effect: EffectView) -> bool {
        match lookup(self.capabilities, name) {
            Some(cap) => cap.covers(effect) && (!cap.requires_approval || self.approvals.contains(
                name,
            )),
            None => false,
        }
    }
}

impl CapabilitySet {
    #[verifier::type_invariant]
    spec fn is_in_order(self) -> bool {
        self@.well_formed()
    }

    /// An agent holding nothing: every non-`Pure` operation will be rejected.
    pub fn empty() -> (r: CapabilitySet)
        ensures
            r@ == CapabilitySetView::empty(),
            r@.well_formed(),
    {
        let capabilities: Vec<(String, Capability)> = Vec::new();
        let approvals: Vec<String> = Vec::new();
        assert(set_view(capabilities@, approvals@) =~= CapabilitySetView::empty());
        CapabilitySet { capabilities, approvals }
    }

    /// Adds a capability, replacing any capability of the same name.
    pub fn grant(&mut self, capability: Capability) -> (r: &mut CapabilitySet)
        ensures
            r@ == old(self)@.grant(capability@),
            r@.well_formed(),
            r@.named(capability@.name) == Some(capability@),
            forall|n: Seq<char>|
                n != capability@.name ==> #[trigger] r@.named(n) == old(self)@.named(n),
            r@.approvals == old(self)@.approvals,
            r@.capabilities.len() > 0,
            *final(self) == *final(r),
    {
        proof {
            use_type_invariant(&*self);
            granting_replaces_one(self@, capability@);
        }
        let name = capability.name.clone();
        let mut taken = CapabilitySet::empty();
        core::mem::swap(self, &mut taken);
        let ghost before = taken@;
        let CapabilitySet { mut capabilities, approvals } = taken;
        let p: usize = slot_of(&capabilities, name.as_str());
        assert(entry_keys(capabilities@) =~= keys(before.capabilities));
        if p < capabilities.len() && same_text(capabilities[p].0.as_str(), name.as_str()) {
            capabilities[p] = (name, capability);
        } else {
            capabilities.insert(p, (name, capability));
        }
        assert(set_view(capabilities@, approvals@) =~= before.grant(capability@));
        *self = CapabilitySet { capabilities, approvals };
        self
    }

    /// Records a human approval for a capability that requires one.
    pub fn approve(&mut self, name: &str) -> (r: &mut CapabilitySet)
        ensures
            r@ == old(self)@.approve(name@),
            r@.well_formed(),
            r@.capabilities == old(self)@.capabilities,
            forall|n: Seq<char>| #[trigger]
                r@.approvals.contains(n) == (n == name@ || old(self)@.approvals.contains(n)),
            *final(self) == *final(r),
    {
        proof {
            use_type_invariant(&*self);
            approving_adds_one(self@, name@);
        }
        if !holds_text(&self.approvals, name) {
            let mut taken = CapabilitySet::empty();
            core::mem::swap(self, &mut taken);
            let ghost before = taken@;
            let CapabilitySet { capabilities, mut approvals } = taken;
            approvals.push(String::from_str(name));
            assert(set_view(capabilities@, approvals@) =~= before.approve(name@));
            *self = CapabilitySet { capabilities, approvals };
        }
        self
    }

    /// Looks a capability up by name.
    pub fn get(&self, name: &str) -> (r: Option<&Capability>)
        ensures
            r is Some == lookup(self@.capabilities, name@) is Some,
            r matches Some(c) ==> lookup(self@.capabilities, name@) == Some(c@),
    {
        let p: usize = slot_of(&self.capabilities, name);
        assert(entry_keys(self.capabilities@) =~= keys(self@.capabilities));
        if p < self.capabilities.len() && same_text(self.capabilities[p].0.as_str(), name) {
            Some(&self.capabilities[p].1)
        } else {
            None
        }
    }

    /// Whether a human has approved the named capability.
    pub fn is_approved(&self, name: &str) -> (r: bool)
        ensures
            r == self@.approvals.contains(name@),
    {
        holds_text(&self.approvals, name)
    }

    /// How many capabilities are held.
    pub fn len(&self) -> (r: usize)
        ensures
            r == self@.capabilities.len(),
    {
        self.capabilities.len()
    }

    /// The capability at a position, in name order.
    pub fn capability(&self, i: usize) -> (r: &Capability)
        requires
            i < self@.capabilities.len(),
        ensures
            r@ == self@.capabilities[i as int].1,
    {
        &self.capabilities[i].1
    }

    /// Every capability held, in name order.
    pub fn iter(&self) -> (r: Vec<&Capability>)
        ensures
            r@.len() == self@.capabilities.len(),
            forall|i: int| 0 <= i < r@.len() ==> (#[trigger] r@[i])@ == self@.capabilities[i].1,
            self@.well_formed(),
    {
        proof {
            use_type_invariant(self);
        }
        let mut r: Vec<&Capability> = Vec::new();
        let mut i: usize = 0;
        while i < self.capabilities.len()
            invariant
                i <= self.capabilities@.len(),
                self.capabilities@.len() == self@.capabilities.len(),
                r@.len() == i,
                forall|j: int| 0 <= j < i ==> (#[trigger] r@[j])@ == self@.capabilities[j].1,
            decreases self.capabilities@.len() - i,
        {
            r.push(&self.capabilities[i].1);
            i += 1;
        }
        r
    }

    /// Whether the set is empty.
    pub fn is_empty(&self) -> (r: bool)
        ensures
            r == (self@.capabilities.len() == 0),
    {
        self.capabilities.len() == 0
    }

    /// The capability that authorizes `effect`, if the agent holds one: the
    /// first in name order.
    pub fn covering(&self, effect: &Effect) -> (r: Option<&Capability>)
        ensures
            r is Some == self@.covering(effect@) is Some,
            r matches Some(c) ==> self@.covering(effect@) == Some(c@),
    {
        let mut i: usize = 0;
        while i < self.capabilities.len()
            invariant
                i <= self.capabilities@.len(),
                self.capabilities@.len() == self@.capabilities.len(),
                self@.first_covering(effect@, 0) == self@.first_covering(effect@, i as int),
            decreases self.capabilities@.len() - i,
        {
            if self.capabilities[i].1.covers(effect) {
                return Some(&self.capabilities[i].1);
            }
            i += 1;
        }
        None
    }

    /// Whether the named capability exists, covers the effect, and, if it is
    /// gated, has been approved.
    pub fn authorizes(&self, name: &str, effect: &Effect) -> (r: bool)
        ensures
            r == self@.authorizes(name@, effect@),
    {
        match self.get(name) {
            Some(cap) => cap.covers(effect) && (!cap.requires_approval || self.is_approved(name)),
            None => false,
        }
    }
}

impl Clone for CapabilitySet {
    /// A copy of the set.
    fn clone(&self) -> (r: CapabilitySet)
        ensures
            r@ == self@,
    {
        proof {
            use_type_invariant(self);
        }
        let mut capabilities: Vec<(String, Capability)> = Vec::new();
        let mut i: usize = 0;
        while i < self.capabilities.len()
            invariant
                i <= self.capabilities@.len(),
                capabilities@.len() == i,
                forall|j: int|
                    0 <= j < i ==> (#[trigger] capabilities@[j]).0@ == self.capabilities@[j].0@
                        && capabilities@[j].1@ == self.capabilities@[j].1@,
            decreases self.capabilities@.len() - i,
        {
            capabilities.push((self.capabilities[i].0.clone(), self.capabilities[i].1.clone()));
            i += 1;
        }
        let mut approvals: Vec<String> = Vec::new();
        let mut k: usize = 0;
        while k < self.approvals.len()
            invariant
                k <= self.approvals@.len(),
                approvals@.len() == k,
                forall|j: int| 0 <= j < k ==> #[trigger] approvals@[j] == self.approvals@[j],
            decreases self.approvals@.len() - k,
        {
            approvals.push(self.approvals[k].clone());
            k += 1;
        }
        assert(set_view(capabilities@, approvals@) =~= self@);
        CapabilitySet { capabilities, approvals }
    }
}

impl Default for CapabilitySet {
    fn default() -> (r: CapabilitySet)
        ensures
            r@ == CapabilitySetView::empty(),
    {
        CapabilitySet::empty()
    }
}

/// Granting puts a capability under its name, in place of any earlier one of
/// that name, and leaves every other name and every approval as it was.
pub proof fn granting_replaces_one(set: CapabilitySetView, capability: CapabilityView)
    requires
        set.well_formed(),
    ensures
        set.grant(capability).well_formed(),
        set.grant(capability).named(capability.name) == Some(capability),
        forall|n: Seq<char>|
            n != capability.name ==> #[trigger] set.grant(capability).named(n) == set.named(n),
        set.grant(capability).approvals == set.approvals,
        set.grant(capability).capabilities.len() > 0,
{
    let list = set.capabilities;
    let name = capability.name;
    insert_keeps_sorted(list, name, capability);
    insert_then_lookup(list, name, capability);
    assert forall|n: Seq<char>| n != name implies #[trigger] set.grant(capability).named(n)
        == set.named(n) by {
        insert_keeps_others(list, name, capability, n);
    }
    let p = slot(keys(list), name) as int;
    slot_separates(keys(list), name);
    let more = insert(list, name, capability);
    assert forall|i: int| 0 <= i < more.len() implies (#[trigger] more[i]).0
        == more[i].1.name by {
        if i != p {
            if more.len() == list.len() || i < p {
                assert(more[i] == list[i]);
            } else {
                assert(more[i] == list[i - 1]);
            }
        }
    }
}

/// Approving a name leaves the capabilities as they are, and every other
/// approval.
pub proof fn approving_adds_one(set: CapabilitySetView, name: Seq<char>)
    requires
        set.well_formed(),
    ensures
        set.approve(name).well_formed(),
        set.approve(name).capabilities == set.capabilities,
        forall|n: Seq<char>| #[trigger]
            set.approve(name).approvals.contains(n) == (n == name || set.approvals.contains(n)),
{
    let before = set.approvals;
    let after = set.approve(name).approvals;
    if !before.contains(name) {
        assert forall|n: Seq<char>| #[trigger] after.contains(n) == (n == name || before.contains(
            n,
        )) by {
            if before.contains(n) {
                let i = choose|i: int| 0 <= i < before.len() && before[i] == n;
                assert(after[i] == n);
            }
            if n == name {
                assert(after[before.len() as int] == n);
            }
        }
        assert forall|i: int, j: int|
            0 <= i < after.len() && 0 <= j < after.len() && i != j implies after[i] != after[j] by {
            if i < before.len() {
                assert(before.contains(after[i]));
            }
            if j < before.len() {
                assert(before.contains(after[j]));
            }
        }
    }
}

/// The set of nothing authorizes nothing, under any name.
pub proof fn nothing_is_authorized_without_capabilities(name: Seq<char>, effect: EffectView)
    ensures
        CapabilitySetView::empty().covering(effect) is None,
        !CapabilitySetView::empty().authorizes(name, effect),
{
}

/// A gated capability authorizes an effect it covers exactly when it has been
/// approved, and approving is what it takes.
pub proof fn approval_gates_authorization(
    set: CapabilitySetView,
    capability: CapabilityView,
    effect: EffectView,
)
    requires
        capability.requires_approval,
        capability.covers(effect),
    ensures
        set.grant(capability).authorizes(capability.name, effect) == set.approvals.contains(
            capability.name,
        ),
        set.grant(capability).approve(capability.name).authorizes(capability.name, effect),
{
    crate::assoc::insert_then_lookup(set.capabilities, capability.name, capability);
    let s = set.grant(capability);
    if !s.approvals.contains(capability.name) {
        assert(s.approvals.push(capability.name).last() == capability.name);
    }
}

/// Whatever covers an effect is found: the set has a covering capability
/// exactly when some capability in it covers the effect, and then the one
/// found does.
pub proof fn covering_finds(set: CapabilitySetView, effect: EffectView)
    ensures
        set.covering(effect) is Some == exists|i: int|
            0 <= i < set.capabilities.len() && (#[trigger] set.capabilities[i]).1.covers(effect),
        set.covering(effect) matches Some(c) ==> c.covers(effect) && exists|i: int|
            0 <= i < set.capabilities.len() && (#[trigger] set.capabilities[i]).1 == c,
{
    lemma_first_covering(set, effect, 0);
    let k = set.first_covering(effect, 0);
    if k < set.capabilities.len() {
        assert(set.capabilities[k].1 == set.covering(effect)->0);
    }
}

proof fn lemma_first_covering(set: CapabilitySetView, effect: EffectView, from: int)
    requires
        0 <= from,
    ensures
        ({
            let r = set.first_covering(effect, from);
            &&& r < set.capabilities.len() ==> from <= r && set.capabilities[r].1.covers(effect)
            &&& r >= set.capabilities.len() ==> r == set.capabilities.len() && forall|i: int|
                from <= i < set.capabilities.len() ==> !(#[trigger] set.capabilities[i]).1.covers(
                    effect,
                )
        }),
    decreases set.capabilities.len() - from,
{
    if from < set.capabilities.len() && !set.capabilities[from].1.covers(effect) {
        lemma_first_covering(set, effect, from + 1);
    }
}

} // verus!
