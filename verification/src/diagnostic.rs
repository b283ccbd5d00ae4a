//! Structured diagnostics.
//!
//! Every stage of the pipeline reports failure as data: which invariant broke,
//! which operation broke it, and what the LLM builder should do about it.

use vstd::prelude::*;
use vstd::string::*;

use crate::ids::OperationId;
use crate::text::{copy_optional_text, optional_text};

verus! {

/// How much a diagnostic matters.
#[derive(Clone, Copy, Debug, PartialEq, Eq, PartialOrd, Ord, Structural)]
pub enum Severity {
    /// Worth reporting; the program still runs.
    Note,
    /// Suspicious but not fatal.
    Warning,
    /// The program is rejected.
    Error,
}

impl Severity {
    /// The printed form of the severity.
    pub open spec fn text(self) -> Seq<char> {
        match self {
            Severity::Note => "note"@,
            Severity::Warning => "warning"@,
            Severity::Error => "error"@,
        }
    }

    /// The printed form of the severity.
    pub fn as_word(self) -> (r: &'static str)
        ensures
            r@ == self.text(),
    {
        match self {
            Severity::Note => "note",
            Severity::Warning => "warning",
            Severity::Error => "error",
        }
    }

    /// The printed form of the severity.
    pub fn to_string(&self) -> (r: String)
        ensures
            r@ == self.text(),
    {
        String::from_str(self.as_word())
    }
}

/// A single finding.
#[derive(Debug, PartialEq)]
pub struct Diagnostic {
    /// How much this finding matters.
    pub severity: Severity,
    /// The invariant (`"I2"`) or the pass that produced the finding.
    pub code: String,
    /// The offending operation, when the finding is anchored to one.
    pub operation: Option<OperationId>,
    /// What is wrong, in one sentence.
    pub message: String,
    /// What the LLM builder should change. Empty when there is nothing useful
    /// to suggest; never filled with a restatement of the message.
    pub suggestion: Option<String>,
}

/// The mathematical content of a [`Diagnostic`].
#[verifier::ext_equal]
pub ghost struct DiagnosticView {
    pub severity: Severity,
    pub code: Seq<char>,
    pub operation: Option<OperationId>,
    pub message: Seq<char>,
    pub suggestion: Option<Seq<char>>,
}

impl View for Diagnostic {
    type V = DiagnosticView;

    open spec fn view(&self) -> DiagnosticView {
        DiagnosticView {
            severity: self.severity,
            code: self.code@,
            operation: self.operation,
            message: self.message@,
            suggestion: optional_text(self.suggestion),
        }
    }
}

impl DiagnosticView {
    /// A finding of a severity, anchored nowhere and without a suggestion.
    pub open spec fn plain(severity: Severity, code: Seq<char>, message: Seq<char>) -> DiagnosticView {
        DiagnosticView { severity, code, operation: None, message, suggestion: None }
    }

    /// The same finding, anchored to an operation.
    pub open spec fn at(self, op: OperationId) -> DiagnosticView {
        DiagnosticView { operation: Some(op), ..self }
    }

    /// The same finding, with a repair suggestion.
    pub open spec fn suggest(self, suggestion: Seq<char>) -> DiagnosticView {
        DiagnosticView { suggestion: Some(suggestion), ..self }
    }

    /// Whether the finding rejects the program.
    pub open spec fn is_error(self) -> bool {
        self.severity == Severity::Error
    }

    /// The printed form of the finding.
    pub open spec fn text(self) -> Seq<char> {
        self.severity.text() + "["@ + self.code + "]"@ + (match self.operation {
            Some(op) => " at "@ + op.text(),
            None => Seq::empty(),
        }) + ": "@ + self.message + (match self.suggestion {
            Some(s) => "\n  help: "@ + s,
            None => Seq::empty(),
        })
    }
}

impl Diagnostic {
    /// An error that rejects the program.
    pub fn error(code: &str, message: String) -> (r: Diagnostic)
        ensures
            r@ == DiagnosticView::plain(Severity::Error, code@, message@),
    {
        Diagnostic {
            severity: Severity::Error,
            code: String::from_str(code),
            operation: None,
            message,
            suggestion: None,
        }
    }

    /// A warning that does not reject the program.
    pub fn warning(code: &str, message: String) -> (r: Diagnostic)
        ensures
            r@ == DiagnosticView::plain(Severity::Warning, code@, message@),
    {
        Diagnostic { severity: Severity::Warning, ..Diagnostic::error(code, message) }
    }

    /// An informational note.
    pub fn note(code: &str, message: String) -> (r: Diagnostic)
        ensures
            r@ == DiagnosticView::plain(Severity::Note, code@, message@),
    {
        Diagnostic { severity: Severity::Note, ..Diagnostic::error(code, message) }
    }

    /// Anchors the diagnostic to an operation.
    pub fn at(self, op: OperationId) -> (r: Diagnostic)
        ensures
            r@ == self@.at(op),
    {
        Diagnostic { operation: Some(op), ..self }
    }

    /// Attaches a repair suggestion.
    pub fn suggest(self, suggestion: &str) -> (r: Diagnostic)
        ensures
            r@ == self@.suggest(suggestion@),
    {
        Diagnostic { suggestion: Some(String::from_str(suggestion)), ..self }
    }

    /// Whether this finding rejects the program.
    pub fn is_error(&self) -> (r: bool)
        ensures
            r == self@.is_error(),
    {
        self.severity == Severity::Error
    }

    /// Appends the printed form of the finding.
    pub fn push_text(&self, out: &mut String)
        ensures
            final(out)@ == old(out)@ + self@.text(),
    {
        out.append(self.severity.as_word());
        out.append("[");
        out.append(self.code.as_str());
        out.append("]");
        if let Some(op) = &self.operation {
            out.append(" at ");
            out.append(op.to_string().as_str());
        }
        out.append(": ");
        out.append(self.message.as_str());
        if let Some(suggestion) = &self.suggestion {
            out.append("\n  help: ");
            out.append(suggestion.as_str());
        }
        assert(out@ =~= old(out)@ + self@.text());
    }

    /// The printed form of the finding.
    pub fn to_string(&self) -> (r: String)
        ensures
            r@ == self@.text(),
    {
        let mut out = String::new();
        self.push_text(&mut out);
        assert(out@ =~= self@.text());
        out
    }
}

impl Clone for Diagnostic {
    /// A copy of the finding.
    fn clone(&self) -> (r: Diagnostic)
        ensures
            r@ == self@,
    {
        Diagnostic {
            severity: self.severity,
            code: self.code.clone(),
            operation: self.operation,
            message: self.message.clone(),
            suggestion: copy_optional_text(&self.suggestion),
        }
    }
}

/// A collection of findings, with the accepted/rejected verdict on top.
#[derive(Debug, PartialEq)]
pub struct Diagnostics {
    entries: Vec<Diagnostic>,
}

impl View for Diagnostics {
    type V = Seq<DiagnosticView>;

    closed spec fn view(&self) -> Seq<DiagnosticView> {
        Seq::new(self.entries@.len(), |i: int| self.entries@[i]@)
    }
}

/// Whether any finding rejects the program.
pub open spec fn rejects(findings: Seq<DiagnosticView>) -> bool {
    exists|i: int| 0 <= i < findings.len() && (#[trigger] findings[i]).is_error()
}

/// The printed findings from position `i` on, one per line.
pub open spec fn findings_text(findings: Seq<DiagnosticView>, i: int) -> Seq<char>
    decreases findings.len() - i,
{
    if i < 0 || i >= findings.len() {
        Seq::empty()
    } else {
        (if i > 0 {
            "\n"@
        } else {
            Seq::empty()
        }) + findings[i].text() + findings_text(findings, i + 1)
    }
}

impl Default for Diagnostics {
    fn default() -> (r: Diagnostics)
        ensures
            r@ == Seq::<DiagnosticView>::empty(),
    {
        Diagnostics::new()
    }
}

impl Diagnostics {
    /// An empty report.
    pub fn new() -> (r: Diagnostics)
        ensures
            r@ == Seq::<DiagnosticView>::empty(),
    {
        let r = Diagnostics { entries: Vec::new() };
        assert(r@ =~= Seq::empty());
        r
    }

    /// A report of the given findings, in order.
    pub fn from_entries(entries: Vec<Diagnostic>) -> (r: Diagnostics)
        ensures
            r@ == Seq::new(entries@.len(), |i: int| entries@[i]@),
    {
        Diagnostics { entries }
    }

    /// Records a finding.
    pub fn push(&mut self, diagnostic: Diagnostic)
        ensures
            final(self)@ == old(self)@.push(diagnostic@),
    {
        self.entries.push(diagnostic);
        assert(self@ =~= old(self)@.push(diagnostic@));
    }

    /// Merges another report into this one.
    pub fn extend(&mut self, other: Diagnostics)
        ensures
            final(self)@ == old(self)@ + other@,
    {
        let mut entries = other.entries;
        self.entries.append(&mut entries);
        assert(self@ =~= old(self)@ + other@);
    }

    /// Whether any finding rejects the program.
    pub fn has_errors(&self) -> (r: bool)
        ensures
            r == rejects(self@),
    {
        let mut i: usize = 0;
        while i < self.entries.len()
            invariant
                i <= self.entries@.len(),
                forall|j: int| 0 <= j < i ==> !(#[trigger] self@[j]).is_error(),
            decreases self.entries@.len() - i,
        {
            if self.entries[i].is_error() {
                assert(self@[i as int].is_error());
                return true;
            }
            i += 1;
        }
        false
    }

    /// Whether nothing at all was reported.
    pub fn is_empty(&self) -> (r: bool)
        ensures
            r == (self@.len() == 0),
    {
        self.entries.len() == 0
    }

    /// How many findings were reported.
    pub fn len(&self) -> (r: usize)
        ensures
            r == self@.len(),
    {
        self.entries.len()
    }

    /// The finding at a position, in the order of reporting.
    pub fn entry(&self, i: usize) -> (r: &Diagnostic)
        requires
            i < self@.len(),
        ensures
            r@ == self@[i as int],
    {
        &self.entries[i]
    }

    /// The findings, in the order they were reported.
    pub fn iter(&self) -> (r: Vec<&Diagnostic>)
        ensures
            r@.len() == self@.len(),
            forall|i: int| 0 <= i < r@.len() ==> (#[trigger] r@[i])@ == self@[i],
    {
        let mut r: Vec<&Diagnostic> = Vec::new();
        let mut i: usize = 0;
        while i < self.entries.len()
            invariant
                i <= self.entries@.len(),
                r@.len() == i,
                forall|j: int| 0 <= j < i ==> (#[trigger] r@[j])@ == self@[j],
            decreases self.entries@.len() - i,
        {
            r.push(&self.entries[i]);
            i += 1;
        }
        r
    }

    /// Only the findings that reject the program, in the order they were
    /// reported.
    pub fn errors(&self) -> (r: Vec<&Diagnostic>)
        ensures
            Seq::new(r@.len(), |i: int| r@[i]@) == self@.filter(|d: DiagnosticView| d.is_error()),
    {
        let mut r: Vec<&Diagnostic> = Vec::new();
        let mut i: usize = 0;
        let ghost keep = |d: DiagnosticView| d.is_error();
        assert(self@.take(0).filter(keep) =~= Seq::empty()) by {
            reveal(Seq::filter);
        }
        while i < self.entries.len()
            invariant
                i <= self.entries@.len(),
                self.entries@.len() == self@.len(),
                keep == |d: DiagnosticView| d.is_error(),
                Seq::new(r@.len(), |i: int| r@[i]@) =~= self@.take(i as int).filter(keep),
            decreases self.entries@.len() - i,
        {
            let ghost before = r@;
            proof {
                assert(self@.take(i + 1).drop_last() =~= self@.take(i as int));
                reveal(Seq::filter);
            }
            if self.entries[i].is_error() {
                r.push(&self.entries[i]);
                assert(Seq::new(r@.len(), |i: int| r@[i]@) =~= Seq::new(
                    before.len(),
                    |i: int| before[i]@,
                ).push(self@[i as int]));
            }
            i += 1;
        }
        assert(self@.take(i as int) =~= self@);
        r
    }

    /// Turns the report into `Ok` when nothing rejects the program.
    pub fn into_result(self) -> (r: Result<Diagnostics, Diagnostics>)
        ensures
            r == if rejects(self@) {
                Err::<Diagnostics, Diagnostics>(self)
            } else {
                Ok(self)
            },
    {
        if self.has_errors() {
            Err(self)
        } else {
            Ok(self)
        }
    }

    /// The printed findings, one after the other.
    pub fn to_string(&self) -> (r: String)
        ensures
            r@ == findings_text(self@, 0),
    {
        let mut out = String::new();
        let mut i: usize = 0;
        while i < self.entries.len()
            invariant
                i <= self.entries@.len(),
                self.entries@.len() == self@.len(),
                out@ + findings_text(self@, i as int) =~= findings_text(self@, 0),
            decreases self.entries@.len() - i,
        {
            let ghost before = out@;
            if i > 0 {
                out.append("\n");
            }
            self.entries[i].push_text(&mut out);
            assert(before + findings_text(self@, i as int) =~= out@ + findings_text(
                self@,
                i + 1,
            ));
            i += 1;
        }
        assert(out@ =~= findings_text(self@, 0));
        out
    }
}

impl Clone for Diagnostics {
    /// A copy of the report.
    fn clone(&self) -> (r: Diagnostics)
        ensures
            r@ == self@,
    {
        let mut copy = Diagnostics::new();
        let mut i: usize = 0;
        assert(self@.take(0) =~= Seq::empty());
        while i < self.entries.len()
            invariant
                i <= self.entries@.len(),
                self@.len() == self.entries@.len(),
                copy@ == self@.take(i as int),
            decreases self.entries@.len() - i,
        {
            copy.push(self.entries[i].clone());
            assert(self@.take(i + 1) =~= self@.take(i as int).push(self@[i as int]));
            i += 1;
        }
        assert(self@.take(i as int) =~= self@);
        copy
    }
}

} // verus!
