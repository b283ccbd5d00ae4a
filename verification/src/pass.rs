//! One transformation over a module, and the report it gives.

use vstd::prelude::*;
use vstd::string::*;

use crate::copying::copy_all;
use crate::diagnostic::{Diagnostic, DiagnosticView, Diagnostics};
use crate::ids::{OperationId, ValueId};
use crate::module::{capped, Module, ModuleView};
use crate::text::{nat_text, push_nat};

verus! {

/// What a pass says of itself: its name, and one line on what it does.
#[verifier::ext_equal]
pub ghost struct PassTitle {
    pub name: Seq<char>,
    pub description: Seq<char>,
}

/// One transformation over a module.
///
/// A pass reports what it did rather than mutating silently: optimization has
/// to stay well under the gain, and you cannot measure what you do not record.
pub trait Pass {
    /// The module a pass makes of a module, and what it reports.
    spec fn outcome(&self, m: ModuleView) -> (ModuleView, PassReportView);

    /// What the pass says of itself.
    spec fn title(&self) -> PassTitle;

    /// The pass name, as it appears in reports and on the command line.
    fn name(&self) -> (r: &'static str)
        ensures
            r@ == self.title().name,
    ;

    /// One line on what the pass does and what makes it legal.
    fn description(&self) -> (r: &'static str)
        ensures
            r@ == self.title().description,
    ;

    /// Applies the pass, returning what changed.
    fn run(&self, module: &mut Module) -> (r: PassReport)
        requires
            old(module)@.well_formed(),
        ensures
            final(module)@.well_formed(),
            (final(module)@, r@) == self.outcome(old(module)@),
    ;
}

/// What a single pass did to a module.
#[derive(Debug)]
pub struct PassReport {
    /// Which pass produced this report.
    pub pass: String,
    /// Whether the module changed at all.
    pub changed: bool,
    /// Operations the pass removed.
    pub removed: Vec<OperationId>,
    /// Operations the pass introduced.
    pub created: Vec<OperationId>,
    /// Values rewritten to point at an equivalent, as `(from, to)`.
    pub rewritten: Vec<(ValueId, ValueId)>,
    /// Anything the pass wants to say: in particular, transformations it
    /// declined and why.
    pub notes: Diagnostics,
}

/// The mathematical content of a [`PassReport`].
#[verifier::ext_equal]
pub ghost struct PassReportView {
    pub pass: Seq<char>,
    pub changed: bool,
    pub removed: Seq<OperationId>,
    pub created: Seq<OperationId>,
    pub rewritten: Seq<(ValueId, ValueId)>,
    pub notes: Seq<DiagnosticView>,
}

impl View for PassReport {
    type V = PassReportView;

    open spec fn view(&self) -> PassReportView {
        PassReportView {
            pass: self.pass@,
            changed: self.changed,
            removed: self.removed@,
            created: self.created@,
            rewritten: self.rewritten@,
            notes: self.notes@,
        }
    }
}

impl Clone for PassReport {
    /// A copy of the report.
    fn clone(&self) -> (r: PassReport)
        ensures
            r@ == self@,
    {
        PassReport {
            pass: self.pass.clone(),
            changed: self.changed,
            removed: copy_all(&self.removed),
            created: copy_all(&self.created),
            rewritten: copy_all(&self.rewritten),
            notes: self.notes.clone(),
        }
    }
}

impl Default for PassReport {
    fn default() -> (r: PassReport)
        ensures
            r@ == PassReportView::empty(Seq::empty()),
    {
        let r = PassReport {
            pass: String::new(),
            changed: false,
            removed: Vec::new(),
            created: Vec::new(),
            rewritten: Vec::new(),
            notes: Diagnostics::new(),
        };
        assert(r@ =~= PassReportView::empty(Seq::empty()));
        r
    }
}

impl PassReportView {
    /// The report of a pass that has not changed anything yet.
    pub open spec fn empty(pass: Seq<char>) -> PassReportView {
        PassReportView {
            pass,
            changed: false,
            removed: Seq::empty(),
            created: Seq::empty(),
            rewritten: Seq::empty(),
            notes: Seq::empty(),
        }
    }

    /// The report with a removed operation.
    pub open spec fn with_removed(self, op: OperationId) -> PassReportView {
        PassReportView { removed: self.removed.push(op), changed: true, ..self }
    }

    /// The report with a created operation.
    pub open spec fn with_created(self, op: OperationId) -> PassReportView {
        PassReportView { created: self.created.push(op), changed: true, ..self }
    }

    /// The report with a rewritten value.
    pub open spec fn with_rewrote(self, from: ValueId, to: ValueId) -> PassReportView {
        PassReportView { rewritten: self.rewritten.push((from, to)), changed: true, ..self }
    }

    /// The report with a note.
    pub open spec fn with_note(self, note: DiagnosticView) -> PassReportView {
        PassReportView { notes: self.notes.push(note), ..self }
    }

    /// How many individual edits the pass made.
    pub open spec fn edits(self) -> nat {
        self.removed.len() + self.created.len() + self.rewritten.len()
    }

    /// The printed form of the report.
    pub open spec fn text(self) -> Seq<char> {
        if !self.changed {
            self.pass + ": no change"@
        } else {
            self.pass + ":"@ + (if self.removed.len() == 0 {
                Seq::empty()
            } else {
                " removed "@ + nat_text(self.removed.len())
            }) + (if self.created.len() == 0 {
                Seq::empty()
            } else {
                " created "@ + nat_text(self.created.len())
            }) + (if self.rewritten.len() == 0 {
                Seq::empty()
            } else {
                " rewrote "@ + nat_text(self.rewritten.len())
            })
        }
    }
}

/// Whether a report says that something changed exactly when it lists an edit.
pub open spec fn consistent(r: PassReportView) -> bool {
    r.changed == (r.edits() > 0)
}

/// The sum of two counts, which stops at the largest `usize`.
pub fn capped_sum(a: usize, b: usize) -> (r: usize)
    ensures
        r == capped((a + b) as nat),
{
    match a.checked_add(b) {
        Some(s) => s,
        None => usize::MAX,
    }
}

impl PassReport {
    /// An empty report for a pass that has not changed anything yet.
    pub fn new(pass: &str) -> (r: PassReport)
        ensures
            r@ == PassReportView::empty(pass@),
    {
        let r = PassReport {
            pass: String::from_str(pass),
            changed: false,
            removed: Vec::new(),
            created: Vec::new(),
            rewritten: Vec::new(),
            notes: Diagnostics::new(),
        };
        assert(r@ =~= PassReportView::empty(pass@));
        r
    }

    /// Records a removed operation.
    pub fn removed(&mut self, op: OperationId)
        ensures
            final(self)@ == old(self)@.with_removed(op),
    {
        self.removed.push(op);
        self.changed = true;
    }

    /// Records a created operation.
    pub fn created(&mut self, op: OperationId)
        ensures
            final(self)@ == old(self)@.with_created(op),
    {
        self.created.push(op);
        self.changed = true;
    }

    /// Records a rewritten value.
    pub fn rewrote(&mut self, from: ValueId, to: ValueId)
        ensures
            final(self)@ == old(self)@.with_rewrote(from, to),
    {
        self.rewritten.push((from, to));
        self.changed = true;
    }

    /// Records a note.
    pub fn note(&mut self, note: Diagnostic)
        ensures
            final(self)@ == old(self)@.with_note(note@),
    {
        self.notes.push(note);
    }

    /// How many individual edits the pass made. The count stops at the largest
    /// `usize`.
    pub fn edit_count(&self) -> (r: usize)
        ensures
            r == capped(self@.edits()),
    {
        capped_sum(capped_sum(self.removed.len(), self.created.len()), self.rewritten.len())
    }

    /// The printed form of the report.
    pub fn to_string(&self) -> (r: String)
        ensures
            r@ == self@.text(),
    {
        let mut out = self.pass.clone();
        if !self.changed {
            out.append(": no change");
            return out;
        }
        out.append(":");
        if self.removed.len() > 0 {
            out.append(" removed ");
            push_nat(&mut out, self.removed.len() as u64);
        }
        if self.created.len() > 0 {
            out.append(" created ");
            push_nat(&mut out, self.created.len() as u64);
        }
        if self.rewritten.len() > 0 {
            out.append(" rewrote ");
            push_nat(&mut out, self.rewritten.len() as u64);
        }
        assert(out@ =~= self@.text());
        out
    }
}

} // verus!
