//! The pass manager.
//!
//! The manager runs its passes to a fixpoint, because one pass usually creates
//! work for another: deduplicating a tool call makes its result unused, which
//! makes the call dead, which frees the operations around it to be scheduled
//! together. It stops when a full round changes nothing, or at an iteration
//! cap so a mis-written pass cannot spin forever.

use vstd::prelude::*;
use vstd::string::*;

use crate::copying::clone_all;
use crate::dead_action::DeadActionElimination;
use crate::dedup::ToolCallDeduplication;
use crate::module::{capped, Module, ModuleView};
use crate::parallelize::Parallelization;
use crate::pass::{capped_sum, Pass, PassReport, PassReportView, PassTitle};
use crate::text::{nat_text, push_nat, same_text};

verus! {

/// A pass of a pipeline: one of the library's own, or any other.
pub enum AnyPass {
    /// See [`ToolCallDeduplication`].
    Deduplication(ToolCallDeduplication),
    /// See [`DeadActionElimination`].
    DeadAction(DeadActionElimination),
    /// See [`Parallelization`].
    Parallel(Parallelization),
    /// A pass from elsewhere.
    Other(Box<dyn Pass>),
}

impl Pass for AnyPass {
    open spec fn outcome(&self, m: ModuleView) -> (ModuleView, PassReportView) {
        match self {
            AnyPass::Deduplication(p) => p.outcome(m),
            AnyPass::DeadAction(p) => p.outcome(m),
            AnyPass::Parallel(p) => p.outcome(m),
            AnyPass::Other(p) => p.outcome(m),
        }
    }

    open spec fn title(&self) -> PassTitle {
        match self {
            AnyPass::Deduplication(p) => p.title(),
            AnyPass::DeadAction(p) => p.title(),
            AnyPass::Parallel(p) => p.title(),
            AnyPass::Other(p) => p.title(),
        }
    }

    fn name(&self) -> (r: &'static str) {
        match self {
            AnyPass::Deduplication(p) => p.name(),
            AnyPass::DeadAction(p) => p.name(),
            AnyPass::Parallel(p) => p.name(),
            AnyPass::Other(p) => p.name(),
        }
    }

    fn description(&self) -> (r: &'static str) {
        match self {
            AnyPass::Deduplication(p) => p.description(),
            AnyPass::DeadAction(p) => p.description(),
            AnyPass::Parallel(p) => p.description(),
            AnyPass::Other(p) => p.description(),
        }
    }

    fn run(&self, module: &mut Module) -> (r: PassReport) {
        match self {
            AnyPass::Deduplication(p) => p.run(module),
            AnyPass::DeadAction(p) => p.run(module),
            AnyPass::Parallel(p) => p.run(module),
            AnyPass::Other(p) => p.run(module),
        }
    }
}

/// The outcome of running a whole pipeline.
#[derive(Debug)]
pub struct PipelineReport {
    /// How many fixpoint rounds ran.
    pub rounds: usize,
    /// Every pass report, in the order the passes ran.
    pub reports: Vec<PassReport>,
    /// Whether any pass changed anything.
    pub changed: bool,
    /// Set when the pipeline hit its iteration cap instead of converging.
    pub hit_iteration_cap: bool,
}

/// The mathematical content of a [`PipelineReport`].
#[verifier::ext_equal]
pub ghost struct PipelineView {
    pub rounds: nat,
    pub reports: Seq<PassReportView>,
    pub changed: bool,
    pub hit_iteration_cap: bool,
}

/// The content of each report of a list.
pub open spec fn report_views(reports: Seq<PassReport>) -> Seq<PassReportView> {
    Seq::new(reports.len(), |i: int| reports[i]@)
}

impl View for PipelineReport {
    type V = PipelineView;

    open spec fn view(&self) -> PipelineView {
        PipelineView {
            rounds: self.rounds as nat,
            reports: report_views(self.reports@),
            changed: self.changed,
            hit_iteration_cap: self.hit_iteration_cap,
        }
    }
}

impl Clone for PipelineReport {
    /// A copy of the report.
    fn clone(&self) -> (r: PipelineReport)
        ensures
            r@ == self@,
    {
        let r = PipelineReport {
            rounds: self.rounds,
            reports: clone_all(&self.reports),
            changed: self.changed,
            hit_iteration_cap: self.hit_iteration_cap,
        };
        assert(r@ =~= self@);
        r
    }
}

impl Default for PipelineReport {
    fn default() -> (r: PipelineReport)
        ensures
            r@ == PipelineView::empty(),
    {
        let r = PipelineReport {
            rounds: 0,
            reports: Vec::new(),
            changed: false,
            hit_iteration_cap: false,
        };
        assert(r@ =~= PipelineView::empty());
        r
    }
}

/// The number of edits of the first `n` reports.
pub open spec fn total_edits(reports: Seq<PassReportView>, n: int) -> nat
    decreases n,
{
    if n <= 0 {
        0
    } else {
        total_edits(reports, n - 1) + reports[n - 1].edits()
    }
}

/// A line for each of the first `n` reports that changed something.
pub open spec fn changes_text(reports: Seq<PassReportView>, n: int) -> Seq<char>
    decreases n,
{
    if n <= 0 {
        Seq::empty()
    } else if reports[n - 1].changed {
        changes_text(reports, n - 1) + "  "@ + reports[n - 1].text() + "\n"@
    } else {
        changes_text(reports, n - 1)
    }
}

impl PipelineView {
    /// The report of a pipeline that has not run yet.
    pub open spec fn empty() -> PipelineView {
        PipelineView {
            rounds: 0,
            reports: Seq::empty(),
            changed: false,
            hit_iteration_cap: false,
        }
    }

    /// The printed form of the report. The number of edits stops at the largest
    /// `usize`.
    pub open spec fn text(self) -> Seq<char> {
        nat_text(self.rounds) + " round(s), "@ + nat_text(
            capped(total_edits(self.reports, self.reports.len() as int)),
        ) + " edit(s)"@ + (if self.hit_iteration_cap {
            ", stopped at the iteration cap"@
        } else {
            Seq::empty()
        }) + "\n"@ + changes_text(self.reports, self.reports.len() as int)
    }
}

/// The reports of one pass, in the order it ran.
pub open spec fn reports_of(reports: Seq<PassReportView>, name: Seq<char>) -> Seq<PassReportView> {
    reports.filter(|p: PassReportView| p.pass == name)
}

/// What the first `n` passes make of a module, and what they report.
pub open spec fn pass_round(passes: Seq<AnyPass>, m: ModuleView, n: int) -> (
    ModuleView,
    Seq<PassReportView>,
)
    decreases n,
{
    if n <= 0 {
        (m, Seq::empty())
    } else {
        let (m1, reports) = pass_round(passes, m, n - 1);
        let (m2, report) = passes[n - 1].outcome(m1);
        (m2, reports.push(report))
    }
}

/// Whether some report says that the module changed.
pub open spec fn any_changed(reports: Seq<PassReportView>) -> bool {
    exists|i: int| 0 <= i < reports.len() && (#[trigger] reports[i]).changed
}

/// What the rounds from `round` to `max` make of a module: they go on until a
/// round changes nothing.
pub open spec fn pipeline(
    passes: Seq<AnyPass>,
    m: ModuleView,
    so_far: PipelineView,
    round: nat,
    max: nat,
) -> (ModuleView, PipelineView)
    decreases max + 1 - round,
{
    if round > max {
        (m, PipelineView { hit_iteration_cap: true, ..so_far })
    } else {
        let (m1, reports) = pass_round(passes, m, passes.len() as int);
        let next = PipelineView {
            rounds: round,
            reports: so_far.reports + reports,
            changed: so_far.changed || any_changed(reports),
            ..so_far
        };
        if any_changed(reports) {
            pipeline(passes, m1, next, round + 1, max)
        } else {
            (m1, next)
        }
    }
}

impl PipelineReport {
    /// The total number of edits across every pass. The count stops at the
    /// largest `usize`.
    pub fn edit_count(&self) -> (r: usize)
        ensures
            r == capped(total_edits(self@.reports, self@.reports.len() as int)),
    {
        let ghost views = report_views(self.reports@);
        let mut total: usize = 0;
        let mut n: usize = 0;
        while n < self.reports.len()
            invariant
                n <= self.reports@.len(),
                views == report_views(self.reports@),
                total == capped(total_edits(views, n as int)),
            decreases self.reports@.len() - n,
        {
            assert(views[n as int] == self.reports@[n as int]@);
            total = capped_sum(total, self.reports[n].edit_count());
            n += 1;
        }
        total
    }

    /// The reports produced by one named pass.
    pub fn by_pass(&self, name: &str) -> (r: Vec<&PassReport>)
        ensures
            Seq::new(r@.len(), |i: int| r@[i]@) == reports_of(self@.reports, name@),
    {
        let ghost views = report_views(self.reports@);
        let ghost keep = |p: PassReportView| p.pass == name@;
        let mut r: Vec<&PassReport> = Vec::new();
        let mut i: usize = 0;
        proof {
            reveal(Seq::filter);
            assert(views.take(0).filter(keep) =~= Seq::empty());
        }
        while i < self.reports.len()
            invariant
                i <= self.reports@.len(),
                views == report_views(self.reports@),
                keep == |p: PassReportView| p.pass == name@,
                Seq::new(r@.len(), |i: int| r@[i]@) =~= views.take(i as int).filter(keep),
            decreases self.reports@.len() - i,
        {
            let ghost before = r@;
            proof {
                reveal(Seq::filter);
                assert(views.take(i + 1).drop_last() =~= views.take(i as int));
            }
            if same_text(self.reports[i].pass.as_str(), name) {
                r.push(&self.reports[i]);
                assert(Seq::new(r@.len(), |i: int| r@[i]@) =~= Seq::new(
                    before.len(),
                    |i: int| before[i]@,
                ).push(views[i as int]));
            }
            i += 1;
        }
        assert(views.take(i as int) =~= views);
        r
    }

    /// The printed form of the report.
    pub fn to_string(&self) -> (r: String)
        ensures
            r@ == self@.text(),
    {
        let ghost views = report_views(self.reports@);
        let mut out = String::new();
        push_nat(&mut out, self.rounds as u64);
        out.append(" round(s), ");
        push_nat(&mut out, self.edit_count() as u64);
        out.append(" edit(s)");
        if self.hit_iteration_cap {
            out.append(", stopped at the iteration cap");
        }
        out.append("\n");
        let ghost start = out@;
        let mut n: usize = 0;
        assert(out@ =~= start + changes_text(views, 0));
        while n < self.reports.len()
            invariant
                n <= self.reports@.len(),
                views == report_views(self.reports@),
                out@ == start + changes_text(views, n as int),
            decreases self.reports@.len() - n,
        {
            assert(views[n as int] == self.reports@[n as int]@);
            if self.reports[n].changed {
                out.append("  ");
                out.append(self.reports[n].to_string().as_str());
                out.append("\n");
            }
            n += 1;
            assert(out@ =~= start + changes_text(views, n as int));
        }
        assert(out@ =~= self@.text());
        out
    }
}

/// Runs a sequence of passes to a fixpoint.
pub struct PassManager {
    passes: Vec<AnyPass>,
    max_rounds: usize,
}

impl PassManager {
    /// The passes in the pipeline, in order.
    pub closed spec fn spec_passes(self) -> Seq<AnyPass> {
        self.passes@
    }

    /// How many fixpoint rounds are allowed.
    pub closed spec fn limit(self) -> nat {
        self.max_rounds as nat
    }

    /// An empty pipeline.
    pub fn new() -> (r: PassManager)
        ensures
            r.spec_passes() == Seq::<AnyPass>::empty(),
            r.limit() == 8,
    {
        let r = PassManager { passes: Vec::new(), max_rounds: 8 };
        assert(r.spec_passes() =~= Seq::empty());
        r
    }

    /// The default pipeline.
    ///
    /// Deduplication runs first because it turns duplicate calls into dead
    /// ones; elimination then removes them; scheduling comes last, once the
    /// block holds only the operations that survive.
    pub fn default_pipeline() -> (r: PassManager)
        ensures
            r.spec_passes() == seq![
                AnyPass::Deduplication(ToolCallDeduplication),
                AnyPass::DeadAction(DeadActionElimination),
                AnyPass::Parallel(Parallelization),
            ],
            r.limit() == 8,
    {
        let r = PassManager::new().with(AnyPass::Deduplication(ToolCallDeduplication)).with(
            AnyPass::DeadAction(DeadActionElimination),
        ).with(AnyPass::Parallel(Parallelization));
        assert(r.spec_passes() =~= seq![
            AnyPass::Deduplication(ToolCallDeduplication),
            AnyPass::DeadAction(DeadActionElimination),
            AnyPass::Parallel(Parallelization),
        ]);
        r
    }

    /// Appends a pass.
    pub fn with(self, pass: AnyPass) -> (r: PassManager)
        ensures
            r.spec_passes() == self.spec_passes().push(pass),
            r.limit() == self.limit(),
    {
        let mut passes = self.passes;
        passes.push(pass);
        PassManager { passes, max_rounds: self.max_rounds }
    }

    /// Sets how many fixpoint rounds are allowed before the manager gives up.
    /// There is always at least one.
    pub fn with_max_rounds(self, rounds: usize) -> (r: PassManager)
        ensures
            r.spec_passes() == self.spec_passes(),
            r.limit() == if rounds == 0 {
                1
            } else {
                rounds as nat
            },
    {
        PassManager {
            passes: self.passes,
            max_rounds: if rounds == 0 {
                1
            } else {
                rounds
            },
        }
    }

    /// The passes in the pipeline, in order.
    pub fn passes(&self) -> (r: &Vec<AnyPass>)
        ensures
            r@ == self.spec_passes(),
    {
        &self.passes
    }

    /// Runs every pass repeatedly until a full round changes nothing.
    pub fn run(&self, module: &mut Module) -> (r: PipelineReport)
        requires
            old(module)@.well_formed(),
        ensures
            final(module)@.well_formed(),
            (final(module)@, r@) == pipeline(
                self.spec_passes(),
                old(module)@,
                PipelineView::empty(),
                1,
                self.limit(),
            ),
    {
        let ghost total = pipeline(
            self.spec_passes(),
            module@,
            PipelineView::empty(),
            1,
            self.limit(),
        );
        let mut report = PipelineReport {
            rounds: 0,
            reports: Vec::new(),
            changed: false,
            hit_iteration_cap: false,
        };
        assert(report@ =~= PipelineView::empty());
        let mut done: usize = 0;
        while done < self.max_rounds
            invariant
                done <= self.max_rounds,
                module@.well_formed(),
                !report.hit_iteration_cap,
                total == pipeline(
                    self.spec_passes(),
                    old(module)@,
                    PipelineView::empty(),
                    1,
                    self.limit(),
                ),
                pipeline(
                    self.spec_passes(),
                    module@,
                    report@,
                    (done + 1) as nat,
                    self.limit(),
                ) == total,
            decreases self.max_rounds - done,
        {
            done += 1;
            let ghost start = module@;
            let ghost so_far = report@;
            report.rounds = done;
            let mut changed = false;
            let mut n: usize = 0;
            assert(report@.reports =~= so_far.reports + pass_round(
                self.spec_passes(),
                start,
                0,
            ).1);
            while n < self.passes.len()
                invariant
                    n <= self.passes@.len(),
                    self.passes@ == self.spec_passes(),
                    module@.well_formed(),
                    !report.hit_iteration_cap,
                    report.rounds == done,
                    module@ == pass_round(self.spec_passes(), start, n as int).0,
                    report@.reports == so_far.reports + pass_round(
                        self.spec_passes(),
                        start,
                        n as int,
                    ).1,
                    changed == any_changed(pass_round(self.spec_passes(), start, n as int).1),
                    report.changed == (so_far.changed || changed),
                decreases self.passes@.len() - n,
            {
                let ghost before = pass_round(self.spec_passes(), start, n as int).1;
                let ghost listed = report.reports@;
                let outcome = self.passes[n].run(module);
                proof {
                    let after = pass_round(self.spec_passes(), start, n + 1).1;
                    assert(after == before.push(outcome@));
                    assert(any_changed(after) == (any_changed(before) || outcome@.changed)) by {
                        if any_changed(before) {
                            let i = choose|i: int|
                                0 <= i < before.len() && (#[trigger] before[i]).changed;
                            assert(after[i].changed);
                        }
                        if outcome@.changed {
                            assert(after[before.len() as int].changed);
                        }
                        if any_changed(after) && !outcome@.changed {
                            let i = choose|i: int|
                                0 <= i < after.len() && (#[trigger] after[i]).changed;
                            assert(before[i].changed);
                        }
                    }
                }
                if outcome.changed {
                    changed = true;
                    report.changed = true;
                }
                let ghost view = outcome@;
                report.reports.push(outcome);
                proof {
                    assert(report_views(report.reports@) =~= report_views(listed).push(view));
                    assert(report@.reports =~= so_far.reports + pass_round(
                        self.spec_passes(),
                        start,
                        n + 1,
                    ).1);
                }
                n += 1;
            }
            proof {
                let next = PipelineView {
                    rounds: done as nat,
                    reports: so_far.reports + pass_round(
                        self.spec_passes(),
                        start,
                        n as int,
                    ).1,
                    changed: so_far.changed || changed,
                    ..so_far
                };
                assert(report@ =~= next);
            }
            if !changed {
                return report;
            }
        }
        report.hit_iteration_cap = true;
        report
    }
}

impl Default for PassManager {
    fn default() -> (r: PassManager)
        ensures
            r.spec_passes() == seq![
                AnyPass::Deduplication(ToolCallDeduplication),
                AnyPass::DeadAction(DeadActionElimination),
                AnyPass::Parallel(Parallelization),
            ],
            r.limit() == 8,
    {
        PassManager::default_pipeline()
    }
}

// -------------------------------------------------------------------- laws

/// A pipeline that did not hit its cap has converged: one more round over the
/// module before its last round reports no change. And it never runs more
/// rounds than allowed.
pub proof fn a_pipeline_converges_or_says_so(
    passes: Seq<AnyPass>,
    m: ModuleView,
    so_far: PipelineView,
    round: nat,
    max: nat,
)
    requires
        !so_far.hit_iteration_cap,
        so_far.rounds <= max,
    ensures
        ({
            let (m2, report) = pipeline(passes, m, so_far, round, max);
            &&& report.rounds <= max
            &&& !report.hit_iteration_cap ==> exists|before: ModuleView|
                #![trigger pass_round(passes, before, passes.len() as int)]
                pass_round(passes, before, passes.len() as int).0 == m2 && !any_changed(
                    pass_round(passes, before, passes.len() as int).1,
                )
        }),
    decreases max + 1 - round,
{
    if round <= max {
        let (m1, reports) = pass_round(passes, m, passes.len() as int);
        if any_changed(reports) {
            let next = PipelineView {
                rounds: round,
                reports: so_far.reports + reports,
                changed: true,
                ..so_far
            };
            a_pipeline_converges_or_says_so(passes, m1, next, round + 1, max);
        }
    }
}

/// The report says that something changed exactly when some pass said so.
pub proof fn a_pipeline_changes_when_a_pass_does(
    passes: Seq<AnyPass>,
    m: ModuleView,
    so_far: PipelineView,
    round: nat,
    max: nat,
)
    requires
        so_far.changed == any_changed(so_far.reports),
    ensures
        ({
            let (m2, report) = pipeline(passes, m, so_far, round, max);
            report.changed == any_changed(report.reports)
        }),
    decreases max + 1 - round,
{
    if round <= max {
        let (m1, reports) = pass_round(passes, m, passes.len() as int);
        let all = so_far.reports + reports;
        assert(any_changed(all) == (any_changed(so_far.reports) || any_changed(reports))) by {
            if any_changed(so_far.reports) {
                let i = choose|i: int|
                    0 <= i < so_far.reports.len() && (#[trigger] so_far.reports[i]).changed;
                assert(all[i].changed);
            }
            if any_changed(reports) {
                let i = choose|i: int| 0 <= i < reports.len() && (#[trigger] reports[i]).changed;
                assert(all[so_far.reports.len() + i].changed);
            }
            if any_changed(all) {
                let i = choose|i: int| 0 <= i < all.len() && (#[trigger] all[i]).changed;
                if i < so_far.reports.len() {
                    assert(so_far.reports[i].changed);
                } else {
                    assert(reports[i - so_far.reports.len()].changed);
                }
            }
        }
        if any_changed(reports) {
            let next = PipelineView { rounds: round, reports: all, changed: true, ..so_far };
            a_pipeline_changes_when_a_pass_does(passes, m1, next, round + 1, max);
        }
    }
}

} // verus!
