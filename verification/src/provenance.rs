//! Value provenance.
//!
//! Provenance is what lets the system answer "why did this action happen", and
//! what lets the verifier refuse to feed a low-confidence LLM guess into an
//! operation that touches the world.

use vstd::prelude::*;
use vstd::string::*;

use crate::ids::OperationId;
use crate::number::{number_lt, Number};
use crate::text::same_text;

verus! {

/// Where a value came from.
#[derive(Clone, Copy, Debug, PartialEq, Eq, Hash, Structural)]
pub enum Source {
    /// Proposed by the LLM builder: unreliable until verified.
    Llm,
    /// Returned by a tool: reliable up to the tool's own truthfulness.
    Tool,
    /// Supplied by the user.
    User,
    /// Read back from the memory store.
    Memory,
    /// Computed from other values by a pure operation.
    Derived,
}

impl Source {
    /// The printed form of the source.
    pub open spec fn text(self) -> Seq<char> {
        match self {
            Source::Llm => "llm"@,
            Source::Tool => "tool"@,
            Source::User => "user"@,
            Source::Memory => "memory"@,
            Source::Derived => "derived"@,
        }
    }

    /// The source a word names, if any.
    pub open spec fn named(word: Seq<char>) -> Option<Source> {
        if word == "llm"@ {
            Some(Source::Llm)
        } else if word == "tool"@ {
            Some(Source::Tool)
        } else if word == "user"@ {
            Some(Source::User)
        } else if word == "memory"@ {
            Some(Source::Memory)
        } else if word == "derived"@ {
            Some(Source::Derived)
        } else {
            None
        }
    }

    /// Reads a source from its printed form.
    pub fn from_str(word: &str) -> (r: Result<Source, ()>)
        ensures
            r == match Source::named(word@) {
                Some(source) => Ok::<Source, ()>(source),
                None => Err(()),
            },
    {
        if same_text(word, "llm") {
            Ok(Source::Llm)
        } else if same_text(word, "tool") {
            Ok(Source::Tool)
        } else if same_text(word, "user") {
            Ok(Source::User)
        } else if same_text(word, "memory") {
            Ok(Source::Memory)
        } else if same_text(word, "derived") {
            Ok(Source::Derived)
        } else {
            Err(())
        }
    }

    /// The printed form of the source.
    pub fn as_word(self) -> (r: &'static str)
        ensures
            r@ == self.text(),
    {
        match self {
            Source::Llm => "llm",
            Source::Tool => "tool",
            Source::User => "user",
            Source::Memory => "memory",
            Source::Derived => "derived",
        }
    }

    /// The printed form of the source.
    pub fn to_string(&self) -> (r: String)
        ensures
            r@ == self.text(),
    {
        String::from_str(self.as_word())
    }
}

/// The word a source prints as names that source.
pub proof fn source_words_round_trip(source: Source)
    ensures
        Source::named(source.text()) == Some(source),
{
    reveal_strlit("llm");
    reveal_strlit("tool");
    reveal_strlit("user");
    reveal_strlit("memory");
    reveal_strlit("derived");
    assert("tool"@[0] != "user"@[0]);
    assert("llm"@.len() == 3 && "memory"@.len() == 6 && "derived"@.len() == 7);
}

/// Whether a value is still to be trusted.
#[derive(Clone, Copy, Debug, PartialEq, Eq, Hash, Structural)]
pub enum Validity {
    /// Still trustworthy.
    Valid,
    /// Past its freshness window; must be re-read before use.
    Stale,
    /// Known to be wrong.
    Invalid,
    /// Moved out of the active window.
    Archived,
}

impl Default for Validity {
    fn default() -> (r: Validity)
        ensures
            r == Validity::Valid,
    {
        Validity::Valid
    }
}

impl Validity {
    /// The printed form of the validity.
    pub open spec fn text(self) -> Seq<char> {
        match self {
            Validity::Valid => "valid"@,
            Validity::Stale => "stale"@,
            Validity::Invalid => "invalid"@,
            Validity::Archived => "archived"@,
        }
    }

    /// The validity a word names, if any.
    pub open spec fn named(word: Seq<char>) -> Option<Validity> {
        if word == "valid"@ {
            Some(Validity::Valid)
        } else if word == "stale"@ {
            Some(Validity::Stale)
        } else if word == "invalid"@ {
            Some(Validity::Invalid)
        } else if word == "archived"@ {
            Some(Validity::Archived)
        } else {
            None
        }
    }

    /// Reads a validity from its printed form.
    pub fn from_str(word: &str) -> (r: Result<Validity, ()>)
        ensures
            r == match Validity::named(word@) {
                Some(validity) => Ok::<Validity, ()>(validity),
                None => Err(()),
            },
    {
        if same_text(word, "valid") {
            Ok(Validity::Valid)
        } else if same_text(word, "stale") {
            Ok(Validity::Stale)
        } else if same_text(word, "invalid") {
            Ok(Validity::Invalid)
        } else if same_text(word, "archived") {
            Ok(Validity::Archived)
        } else {
            Err(())
        }
    }

    /// The printed form of the validity.
    pub fn as_word(self) -> (r: &'static str)
        ensures
            r@ == self.text(),
    {
        match self {
            Validity::Valid => "valid",
            Validity::Stale => "stale",
            Validity::Invalid => "invalid",
            Validity::Archived => "archived",
        }
    }

    /// The printed form of the validity.
    pub fn to_string(&self) -> (r: String)
        ensures
            r@ == self.text(),
    {
        String::from_str(self.as_word())
    }
}

/// The word a validity prints as names that validity.
pub proof fn validity_words_round_trip(validity: Validity)
    ensures
        Validity::named(validity.text()) == Some(validity),
{
    reveal_strlit("valid");
    reveal_strlit("stale");
    reveal_strlit("invalid");
    reveal_strlit("archived");
    assert("valid"@[0] != "stale"@[0]);
    assert("invalid"@.len() == 7 && "archived"@.len() == 8);
}

/// The origin record every value carries.
#[derive(Clone, Copy, Debug, PartialEq, Eq, Structural)]
pub struct Provenance {
    /// The operation that produced the value, if any (block arguments have none).
    pub producer: Option<OperationId>,
    /// Who produced the value.
    pub source: Source,
    /// Logical timestamp: the IR version in which the value appeared.
    pub timestamp: u64,
    /// One for reliable tool data, below that for an LLM inference.
    pub confidence: Number,
    /// Whether the value may still be relied upon.
    pub validity: Validity,
}

impl Provenance {
    /// A fully trusted provenance of the given source.
    pub open spec fn trusted(source: Source) -> Provenance {
        Provenance {
            producer: None,
            source,
            timestamp: 0,
            confidence: Number::spec_one(),
            validity: Validity::Valid,
        }
    }

    /// Whether a value needs an explicit check before feeding a non-`Pure`
    /// operation: it came from the LLM with a confidence below the threshold.
    pub open spec fn unverified(self, threshold: Number) -> bool {
        self.source == Source::Llm && number_lt(self.confidence, threshold)
    }

    /// Provenance for a value derived by a pure operation: fully trusted.
    pub fn derived() -> (r: Provenance)
        ensures
            r == Provenance::trusted(Source::Derived),
    {
        Provenance {
            producer: None,
            source: Source::Derived,
            timestamp: 0,
            confidence: Number::one(),
            validity: Validity::Valid,
        }
    }

    /// Provenance for a value returned by a tool.
    pub fn from_tool() -> (r: Provenance)
        ensures
            r == Provenance::trusted(Source::Tool),
    {
        Provenance { source: Source::Tool, ..Provenance::derived() }
    }

    /// Provenance for a value supplied by the user.
    pub fn from_user() -> (r: Provenance)
        ensures
            r == Provenance::trusted(Source::User),
    {
        Provenance { source: Source::User, ..Provenance::derived() }
    }

    /// Provenance for a value proposed by the LLM, with its confidence.
    pub fn from_llm(confidence: Number) -> (r: Provenance)
        ensures
            r == (Provenance { confidence, ..Provenance::trusted(Source::Llm) }),
    {
        Provenance { source: Source::Llm, confidence, ..Provenance::derived() }
    }

    /// Whether the value needs an explicit check before feeding a non-`Pure`
    /// operation, given the configured confidence threshold.
    pub fn needs_verification(&self, threshold: Number) -> (r: bool)
        ensures
            r == self.unverified(threshold),
    {
        self.source == Source::Llm && self.confidence.less(threshold)
    }

    /// Whether the value may still be relied upon.
    pub fn is_usable(&self) -> (r: bool)
        ensures
            r == (self.validity == Validity::Valid),
    {
        matches!(self.validity, Validity::Valid)
    }
}

impl Default for Provenance {
    fn default() -> (r: Provenance)
        ensures
            r == Provenance::trusted(Source::Derived),
    {
        Provenance::derived()
    }
}

} // verus!
