//! The effect system: the part that makes optimization decidable.
//!
//! Every operation declares what it does to the world, independently of what it
//! returns. A pass then asks the effect, not a heuristic, whether it is allowed
//! to fire. The rules are [`Effect`] predicates so that no pass has to restate
//! them.
//!
//! An irreversible effect carries a scope like every other external effect, so
//! that concurrent irreversible writes are judged the way concurrent writes
//! are; [`Scope::any`] recovers the unscoped meaning.

use vstd::prelude::*;
use vstd::string::*;

use crate::text::{optional_text, same_text};

verus! {

/// The resource an external effect touches.
///
/// An unnamed scope means "unknown", and an unknown scope conservatively
/// overlaps every other scope: the effect system never guesses in the
/// direction that would let an unsafe pass fire.
#[derive(Debug, PartialEq, Eq, Hash, PartialOrd, Ord)]
pub struct Scope(pub Option<String>);

impl View for Scope {
    type V = Option<Seq<char>>;

    open spec fn view(&self) -> Option<Seq<char>> {
        optional_text(self.0)
    }
}

/// Whether two scopes may denote the same resource: the unknown scope overlaps
/// everything, and two named ones overlap when they have the same name.
pub open spec fn scopes_overlap(a: Option<Seq<char>>, b: Option<Seq<char>>) -> bool {
    a is None || b is None || a == b
}

/// The printed form of a scope.
pub open spec fn scope_text(scope: Option<Seq<char>>) -> Seq<char> {
    match scope {
        Some(name) => name,
        None => "*"@,
    }
}

impl Scope {
    /// A named resource scope.
    pub fn named(name: &str) -> (r: Scope)
        ensures
            r@ == Some(name@),
    {
        Scope(Some(String::from_str(name)))
    }

    /// The unknown scope: overlaps everything.
    pub fn any() -> (r: Scope)
        ensures
            r@ == None::<Seq<char>>,
    {
        Scope(None)
    }

    /// The resource name, if this scope is named.
    pub fn name(&self) -> (r: Option<&str>)
        ensures
            r is Some == self@ is Some,
            r matches Some(n) ==> self@ == Some(n@),
    {
        match &self.0 {
            Some(name) => Some(name.as_str()),
            None => None,
        }
    }

    /// Whether the scope is the unknown one.
    pub fn is_any(&self) -> (r: bool)
        ensures
            r == (self@ is None),
    {
        self.0.is_none()
    }

    /// Whether two scopes may denote the same resource.
    pub fn overlaps(&self, other: &Scope) -> (r: bool)
        ensures
            r == scopes_overlap(self@, other@),
    {
        match (&self.0, &other.0) {
            (Some(a), Some(b)) => same_text(a.as_str(), b.as_str()),
            _ => true,
        }
    }

    /// Whether two scopes are the same: both unknown, or of the same name.
    pub fn same(&self, other: &Scope) -> (r: bool)
        ensures
            r == (self@ == other@),
    {
        crate::text::same_optional_text(&self.0, &other.0)
    }

    /// The printed form of the scope.
    pub fn to_string(&self) -> (r: String)
        ensures
            r@ == scope_text(self@),
    {
        match &self.0 {
            Some(name) => name.clone(),
            None => String::from_str("*"),
        }
    }
}

impl Clone for Scope {
    /// A copy of the scope.
    fn clone(&self) -> (r: Scope)
        ensures
            r@ == self@,
    {
        Scope(crate::text::copy_optional_text(&self.0))
    }
}

/// The effect signature of an operation.
#[derive(Debug, PartialEq, Eq, Hash)]
pub enum Effect {
    /// No interaction with the outside world: replayable and cacheable.
    Pure,
    /// An external read. Idempotent by nature, but its result can go stale.
    ReadExternal(Scope),
    /// An external write. Not idempotent unless proven otherwise.
    WriteExternal(Scope),
    /// A non-undoable effect: a payment, a deletion, a message sent.
    Irreversible(Scope),
    /// A non-deterministic output: an LLM call, a sampling step.
    Stochastic,
}

/// The mathematical content of an [`Effect`].
#[verifier::ext_equal]
pub ghost enum EffectView {
    Pure,
    ReadExternal(Option<Seq<char>>),
    WriteExternal(Option<Seq<char>>),
    Irreversible(Option<Seq<char>>),
    Stochastic,
}

impl View for Effect {
    type V = EffectView;

    open spec fn view(&self) -> EffectView {
        match self {
            Effect::Pure => EffectView::Pure,
            Effect::ReadExternal(s) => EffectView::ReadExternal(s@),
            Effect::WriteExternal(s) => EffectView::WriteExternal(s@),
            Effect::Irreversible(s) => EffectView::Irreversible(s@),
            Effect::Stochastic => EffectView::Stochastic,
        }
    }
}

/// The effect variant without its payload, for capability grants and reporting.
#[derive(Clone, Copy, Debug, PartialEq, Eq, Hash, PartialOrd, Ord, Structural)]
pub enum EffectClass {
    /// See [`Effect::Pure`].
    Pure,
    /// See [`Effect::ReadExternal`].
    ReadExternal,
    /// See [`Effect::WriteExternal`].
    WriteExternal,
    /// See [`Effect::Irreversible`].
    Irreversible,
    /// See [`Effect::Stochastic`].
    Stochastic,
}

impl EffectClass {
    /// The printed form of the class.
    pub open spec fn text(self) -> Seq<char> {
        match self {
            EffectClass::Pure => "pure"@,
            EffectClass::ReadExternal => "read_external"@,
            EffectClass::WriteExternal => "write_external"@,
            EffectClass::Irreversible => "irreversible"@,
            EffectClass::Stochastic => "stochastic"@,
        }
    }

    /// The class a word names, if any.
    pub open spec fn named(word: Seq<char>) -> Option<EffectClass> {
        if word == "pure"@ {
            Some(EffectClass::Pure)
        } else if word == "read_external"@ {
            Some(EffectClass::ReadExternal)
        } else if word == "write_external"@ {
            Some(EffectClass::WriteExternal)
        } else if word == "irreversible"@ {
            Some(EffectClass::Irreversible)
        } else if word == "stochastic"@ {
            Some(EffectClass::Stochastic)
        } else {
            None
        }
    }

    /// Reads a class from its printed form.
    pub fn from_str(word: &str) -> (r: Result<EffectClass, ()>)
        ensures
            r == match EffectClass::named(word@) {
                Some(class) => Ok::<EffectClass, ()>(class),
                None => Err(()),
            },
    {
        if same_text(word, "pure") {
            Ok(EffectClass::Pure)
        } else if same_text(word, "read_external") {
            Ok(EffectClass::ReadExternal)
        } else if same_text(word, "write_external") {
            Ok(EffectClass::WriteExternal)
        } else if same_text(word, "irreversible") {
            Ok(EffectClass::Irreversible)
        } else if same_text(word, "stochastic") {
            Ok(EffectClass::Stochastic)
        } else {
            Err(())
        }
    }

    /// The printed form of the class.
    pub fn as_word(self) -> (r: &'static str)
        ensures
            r@ == self.text(),
    {
        match self {
            EffectClass::Pure => "pure",
            EffectClass::ReadExternal => "read_external",
            EffectClass::WriteExternal => "write_external",
            EffectClass::Irreversible => "irreversible",
            EffectClass::Stochastic => "stochastic",
        }
    }

    /// The printed form of the class.
    pub fn to_string(&self) -> (r: String)
        ensures
            r@ == self.text(),
    {
        String::from_str(self.as_word())
    }
}

/// The word a class prints as names that class.
pub proof fn effect_class_words_round_trip(class: EffectClass)
    ensures
        EffectClass::named(class.text()) == Some(class),
{
    reveal_strlit("pure");
    reveal_strlit("read_external");
    reveal_strlit("write_external");
    reveal_strlit("irreversible");
    reveal_strlit("stochastic");
    assert("pure"@.len() == 4 && "stochastic"@.len() == 10 && "irreversible"@.len() == 12);
    assert("read_external"@.len() == 13 && "write_external"@.len() == 14);
}

impl EffectView {
    /// The variant, without its scope.
    pub open spec fn class(self) -> EffectClass {
        match self {
            EffectView::Pure => EffectClass::Pure,
            EffectView::ReadExternal(_) => EffectClass::ReadExternal,
            EffectView::WriteExternal(_) => EffectClass::WriteExternal,
            EffectView::Irreversible(_) => EffectClass::Irreversible,
            EffectView::Stochastic => EffectClass::Stochastic,
        }
    }

    /// The scope touched, for the effects that touch one.
    pub open spec fn scope(self) -> Option<Option<Seq<char>>> {
        match self {
            EffectView::ReadExternal(s) => Some(s),
            EffectView::WriteExternal(s) => Some(s),
            EffectView::Irreversible(s) => Some(s),
            EffectView::Pure => None,
            EffectView::Stochastic => None,
        }
    }

    /// Whether re-running the operation is observationally free.
    pub open spec fn is_replayable(self) -> bool {
        self is Pure || self is ReadExternal
    }

    /// Whether the operation modifies the outside world.
    pub open spec fn is_write(self) -> bool {
        self is WriteExternal || self is Irreversible
    }

    /// Whether two effects conflict when scheduled concurrently: both touch a
    /// scope, the scopes may be the same, and at least one of them writes.
    pub open spec fn conflicts_with(self, other: EffectView) -> bool {
        &&& self.scope() is Some
        &&& other.scope() is Some
        &&& self.is_write() || other.is_write()
        &&& scopes_overlap(self.scope()->0, other.scope()->0)
    }

    /// The effect of a class over a scope; the classes without one ignore it.
    pub open spec fn of_class(class: EffectClass, scope: Option<Seq<char>>) -> EffectView {
        match class {
            EffectClass::Pure => EffectView::Pure,
            EffectClass::Stochastic => EffectView::Stochastic,
            EffectClass::ReadExternal => EffectView::ReadExternal(scope),
            EffectClass::WriteExternal => EffectView::WriteExternal(scope),
            EffectClass::Irreversible => EffectView::Irreversible(scope),
        }
    }

    /// The printed form of the effect.
    pub open spec fn text(self) -> Seq<char> {
        match self.scope() {
            Some(Some(name)) => "#"@ + self.class().text() + "<"@ + name + ">"@,
            _ => "#"@ + self.class().text(),
        }
    }
}

impl Effect {
    /// Shorthand for an external read on a named scope.
    pub fn read(scope: &str) -> (r: Effect)
        ensures
            r@ == EffectView::ReadExternal(Some(scope@)),
    {
        Effect::ReadExternal(Scope::named(scope))
    }

    /// Shorthand for an external write on a named scope.
    pub fn write(scope: &str) -> (r: Effect)
        ensures
            r@ == EffectView::WriteExternal(Some(scope@)),
    {
        Effect::WriteExternal(Scope::named(scope))
    }

    /// Shorthand for an irreversible effect on a named scope.
    pub fn irreversible(scope: &str) -> (r: Effect)
        ensures
            r@ == EffectView::Irreversible(Some(scope@)),
    {
        Effect::Irreversible(Scope::named(scope))
    }

    /// The effect of a class over a scope; the classes without one ignore it.
    pub fn of_class(class: EffectClass, scope: Scope) -> (r: Effect)
        ensures
            r@ == EffectView::of_class(class, scope@),
    {
        match class {
            EffectClass::Pure => Effect::Pure,
            EffectClass::Stochastic => Effect::Stochastic,
            EffectClass::ReadExternal => Effect::ReadExternal(scope),
            EffectClass::WriteExternal => Effect::WriteExternal(scope),
            EffectClass::Irreversible => Effect::Irreversible(scope),
        }
    }

    /// The variant, without its scope.
    pub fn class(&self) -> (r: EffectClass)
        ensures
            r == self@.class(),
    {
        match self {
            Effect::Pure => EffectClass::Pure,
            Effect::ReadExternal(_) => EffectClass::ReadExternal,
            Effect::WriteExternal(_) => EffectClass::WriteExternal,
            Effect::Irreversible(_) => EffectClass::Irreversible,
            Effect::Stochastic => EffectClass::Stochastic,
        }
    }

    /// The scope touched, for the effects that touch one.
    pub fn scope(&self) -> (r: Option<&Scope>)
        ensures
            r is Some == self@.scope() is Some,
            r matches Some(s) ==> self@.scope() == Some(s@),
    {
        match self {
            Effect::ReadExternal(s) => Some(s),
            Effect::WriteExternal(s) => Some(s),
            Effect::Irreversible(s) => Some(s),
            Effect::Pure => None,
            Effect::Stochastic => None,
        }
    }

    /// Whether the effect is `Pure`.
    pub fn is_pure(&self) -> (r: bool)
        ensures
            r == (self@ is Pure),
    {
        matches!(self, Effect::Pure)
    }

    /// Whether the effect can never be undone.
    pub fn is_irreversible(&self) -> (r: bool)
        ensures
            r == (self@ is Irreversible),
    {
        matches!(self, Effect::Irreversible(_))
    }

    /// Whether re-running the operation is observationally free: the
    /// precondition shared by dead-action elimination, caching and
    /// deduplication.
    pub fn is_replayable(&self) -> (r: bool)
        ensures
            r == self@.is_replayable(),
    {
        matches!(self, Effect::Pure | Effect::ReadExternal(_))
    }

    /// Whether a result may be cached, subject to a declared validity window.
    /// The same condition as [`Effect::is_replayable`], named for the pass that
    /// reads it.
    pub fn is_cacheable(&self) -> (r: bool)
        ensures
            r == self@.is_replayable(),
    {
        self.is_replayable()
    }

    /// Whether the operation modifies the outside world.
    pub fn is_write(&self) -> (r: bool)
        ensures
            r == self@.is_write(),
    {
        matches!(self, Effect::WriteExternal(_) | Effect::Irreversible(_))
    }

    /// Whether the operation may be executed before its guard is known to hold.
    /// Never for a write: that would need a compensating action.
    pub fn is_speculatable(&self) -> (r: bool)
        ensures
            r == self@.is_replayable(),
    {
        self.is_replayable()
    }

    /// Whether the operation requires a capability before it may be lowered.
    pub fn requires_capability(&self) -> (r: bool)
        ensures
            r == !(self@ is Pure),
    {
        !matches!(self, Effect::Pure)
    }

    /// Whether two effects conflict when scheduled concurrently: two operations
    /// may run side by side unless at least one writes a scope the other also
    /// touches.
    pub fn conflicts_with(&self, other: &Effect) -> (r: bool)
        ensures
            r == self@.conflicts_with(other@),
    {
        match (self.scope(), other.scope()) {
            (Some(a), Some(b)) => (self.is_write() || other.is_write()) && a.overlaps(b),
            _ => false,
        }
    }

    /// Whether two effects are the same, scope included.
    pub fn same(&self, other: &Effect) -> (r: bool)
        ensures
            r == (self@ == other@),
    {
        match (self, other) {
            (Effect::Pure, Effect::Pure) => true,
            (Effect::Stochastic, Effect::Stochastic) => true,
            (Effect::ReadExternal(a), Effect::ReadExternal(b)) => a.same(b),
            (Effect::WriteExternal(a), Effect::WriteExternal(b)) => a.same(b),
            (Effect::Irreversible(a), Effect::Irreversible(b)) => a.same(b),
            _ => false,
        }
    }

    /// Appends the printed form of the effect.
    pub fn push_text(&self, out: &mut String)
        ensures
            final(out)@ == old(out)@ + self@.text(),
    {
        out.append("#");
        out.append(self.class().as_word());
        if let Some(scope) = self.scope() {
            if let Some(name) = scope.name() {
                out.append("<");
                out.append(name);
                out.append(">");
            }
        }
        assert(out@ =~= old(out)@ + self@.text());
    }

    /// The printed form of the effect.
    pub fn to_string(&self) -> (r: String)
        ensures
            r@ == self@.text(),
    {
        let mut out = String::new();
        self.push_text(&mut out);
        assert(out@ =~= self@.text());
        out
    }
}

impl Clone for Effect {
    /// A copy of the effect.
    fn clone(&self) -> (r: Effect)
        ensures
            r@ == self@,
    {
        match self {
            Effect::Pure => Effect::Pure,
            Effect::ReadExternal(s) => Effect::ReadExternal(s.clone()),
            Effect::WriteExternal(s) => Effect::WriteExternal(s.clone()),
            Effect::Irreversible(s) => Effect::Irreversible(s.clone()),
            Effect::Stochastic => Effect::Stochastic,
        }
    }
}

/// Conflict is symmetric: it does not matter which of two operations is asked.
pub proof fn conflicts_are_symmetric(a: EffectView, b: EffectView)
    ensures
        a.conflicts_with(b) == b.conflicts_with(a),
{
}

/// Two effects that both leave the world as it is never conflict.
pub proof fn reads_never_conflict(a: EffectView, b: EffectView)
    requires
        !a.is_write(),
        !b.is_write(),
    ensures
        !a.conflicts_with(b),
{
}

/// A replayable effect never conflicts with another replayable one, and a
/// write is never replayable.
pub proof fn replayable_effects_are_compatible(a: EffectView, b: EffectView)
    requires
        a.is_replayable(),
        b.is_replayable(),
    ensures
        !a.conflicts_with(b),
        !a.is_write(),
{
}

/// A write conflicts with every effect that touches its scope or an unknown
/// one, and a write of unknown scope with every scoped effect.
pub proof fn a_write_conflicts_with_every_touch(write: EffectView, other: EffectView)
    requires
        write.is_write(),
        other.scope() is Some,
    ensures
        write.scope()->0 is None ==> write.conflicts_with(other),
        other.scope()->0 is None ==> write.conflicts_with(other),
        write.scope() == other.scope() ==> write.conflicts_with(other),
{
}

} // verus!
