//! What a pipeline reports, pass by pass.
//!
//! Every pass reports once in every round, so the reports of the passes are
//! all the reports there are.

use vstd::prelude::*;

use crate::acceptance::default_passes;
use crate::convergence::reports_tell_the_truth;
use crate::manager::{
    a_pipeline_changes_when_a_pass_does, any_changed, pass_round, pipeline, reports_of,
    total_edits, AnyPass, PipelineView,
};
use crate::module::ModuleView;
use crate::pass::{Pass, PassReportView};
use crate::printer::{lemma_filter_index, lemma_filter_member};

verus! {

// -------------------------------------------------------------------- names

/// Whether every pass reports under its own name.
pub open spec fn sign_reports(passes: Seq<AnyPass>) -> bool {
    forall|i: int, m: ModuleView|
        0 <= i < passes.len() ==> (#[trigger] passes[i].outcome(m)).1.pass
            == passes[i].title().name
}

/// Whether no two passes have the same name.
pub open spec fn named_apart(passes: Seq<AnyPass>) -> bool {
    forall|i: int, j: int|
        0 <= i < j < passes.len() ==> (#[trigger] passes[i]).title().name != (
        #[trigger] passes[j]).title().name
}

/// Whether one of the first `n` passes has a name.
pub open spec fn is_held(passes: Seq<AnyPass>, n: int, name: Seq<char>) -> bool {
    exists|i: int| 0 <= i < n && (#[trigger] passes[i]).title().name == name
}

/// Whether every report is one of a pass.
pub open spec fn all_signed(passes: Seq<AnyPass>, reports: Seq<PassReportView>) -> bool {
    forall|i: int|
        0 <= i < reports.len() ==> is_held(
            passes,
            passes.len() as int,
            (#[trigger] reports[i]).pass,
        )
}

// ------------------------------------------------------------------- counts

/// One more report.
proof fn one_more_report(reports: Seq<PassReportView>, r: PassReportView, name: Seq<char>)
    ensures
        reports_of(reports.push(r), name) == if r.pass == name {
            reports_of(reports, name).push(r)
        } else {
            reports_of(reports, name)
        },
{
    reveal(Seq::filter);
    assert(reports.push(r).drop_last() =~= reports);
}

/// The reports of a pass in two parts.
proof fn reports_in_parts(a: Seq<PassReportView>, b: Seq<PassReportView>, name: Seq<char>)
    ensures
        reports_of(a + b, name) == reports_of(a, name) + reports_of(b, name),
    decreases b.len(),
{
    if b.len() == 0 {
        reveal(Seq::filter);
        assert(a + b =~= a);
        assert(reports_of(a, name) + reports_of(b, name) =~= reports_of(a, name));
    } else {
        let front = b.drop_last();
        let r = b.last();
        reports_in_parts(a, front, name);
        assert((a + front).push(r) =~= a + b);
        assert(front.push(r) =~= b);
        one_more_report(a + front, r, name);
        one_more_report(front, r, name);
        assert(reports_of(a, name) + reports_of(front, name).push(r) =~= (reports_of(a, name)
            + reports_of(front, name)).push(r));
    }
}

/// In a round every pass reports once.
proof fn a_round_reports_once(passes: Seq<AnyPass>, m: ModuleView, n: int, name: Seq<char>)
    requires
        sign_reports(passes),
        named_apart(passes),
        0 <= n <= passes.len(),
    ensures
        reports_of(pass_round(passes, m, n).1, name).len() == if is_held(passes, n, name) {
            1nat
        } else {
            0
        },
        forall|i: int|
            0 <= i < pass_round(passes, m, n).1.len() ==> is_held(
                passes,
                n,
                (#[trigger] pass_round(passes, m, n).1[i]).pass,
            ),
    decreases n,
{
    if n > 0 {
        a_round_reports_once(passes, m, n - 1, name);
        let (m1, before) = pass_round(passes, m, n - 1);
        let report = passes[n - 1].outcome(m1).1;
        assert(report.pass == passes[n - 1].title().name);
        one_more_report(before, report, name);
        if is_held(passes, n - 1, name) {
            let i = choose|i: int| 0 <= i < n - 1 && (#[trigger] passes[i]).title().name == name;
            assert(passes[i].title().name != passes[n - 1].title().name);
            assert(is_held(passes, n, name));
        } else if is_held(passes, n, name) {
            let i = choose|i: int| 0 <= i < n && (#[trigger] passes[i]).title().name == name;
            assert(i == n - 1);
        }
        let all = pass_round(passes, m, n).1;
        assert forall|i: int| 0 <= i < all.len() implies is_held(
            passes,
            n,
            (#[trigger] all[i]).pass,
        ) by {
            if i < before.len() {
                assert(all[i] == before[i]);
                let k = choose|k: int|
                    0 <= k < n - 1 && (#[trigger] passes[k]).title().name == before[i].pass;
                assert(passes[k].title().name == all[i].pass);
            } else {
                assert(passes[n - 1].title().name == all[i].pass);
            }
        }
    } else {
        reveal(Seq::filter);
    }
}

/// In a run every pass reports once for every round.
proof fn a_run_reports_every_round(
    passes: Seq<AnyPass>,
    m: ModuleView,
    so_far: PipelineView,
    round: nat,
    max: nat,
    name: Seq<char>,
)
    requires
        sign_reports(passes),
        named_apart(passes),
        so_far.rounds + 1 == round,
        all_signed(passes, so_far.reports),
    ensures
        ({
            let report = pipeline(passes, m, so_far, round, max).1;
            &&& so_far.rounds <= report.rounds
            &&& all_signed(passes, report.reports)
            &&& reports_of(report.reports, name).len() == reports_of(so_far.reports, name).len()
                + if is_held(passes, passes.len() as int, name) {
                (report.rounds - so_far.rounds) as nat
            } else {
                0
            }
        }),
    decreases max + 1 - round,
{
    if round <= max {
        let n = passes.len() as int;
        let (m1, reports) = pass_round(passes, m, n);
        let next = PipelineView {
            rounds: round,
            reports: so_far.reports + reports,
            changed: so_far.changed || any_changed(reports),
            ..so_far
        };
        a_round_reports_once(passes, m, n, name);
        reports_in_parts(so_far.reports, reports, name);
        assert forall|i: int| 0 <= i < next.reports.len() implies is_held(
            passes,
            n,
            (#[trigger] next.reports[i]).pass,
        ) by {
            if i < so_far.reports.len() {
                assert(next.reports[i] == so_far.reports[i]);
            } else {
                assert(next.reports[i] == reports[i - so_far.reports.len()]);
            }
        }
        if any_changed(reports) {
            a_run_reports_every_round(passes, m1, next, round + 1, max, name);
        }
    }
}

// -------------------------------------------------------------------- edits

/// The edits of the reports of the first `n` passes.
pub open spec fn edits_by_pass(passes: Seq<AnyPass>, reports: Seq<PassReportView>, n: int) -> nat
    decreases n,
{
    if n <= 0 {
        0
    } else {
        let own = reports_of(reports, passes[n - 1].title().name);
        edits_by_pass(passes, reports, n - 1) + total_edits(own, own.len() as int)
    }
}

proof fn edits_are_local(a: Seq<PassReportView>, b: Seq<PassReportView>, n: int)
    requires
        n <= a.len(),
        n <= b.len(),
        forall|i: int| 0 <= i < n ==> a[i] == #[trigger] b[i],
    ensures
        total_edits(a, n) == total_edits(b, n),
    decreases n,
{
    if n > 0 {
        edits_are_local(a, b, n - 1);
        assert(a[n - 1] == b[n - 1]);
    }
}

proof fn one_more_edit(reports: Seq<PassReportView>, r: PassReportView)
    ensures
        total_edits(reports.push(r), (reports.len() + 1) as int) == total_edits(
            reports,
            reports.len() as int,
        ) + r.edits(),
{
    edits_are_local(reports.push(r), reports, reports.len() as int);
}

proof fn edits_with_one_more(
    passes: Seq<AnyPass>,
    reports: Seq<PassReportView>,
    r: PassReportView,
    n: int,
)
    requires
        named_apart(passes),
        0 <= n <= passes.len(),
    ensures
        edits_by_pass(passes, reports.push(r), n) == edits_by_pass(passes, reports, n) + if is_held(
            passes,
            n,
            r.pass,
        ) {
            r.edits()
        } else {
            0
        },
    decreases n,
{
    if n > 0 {
        edits_with_one_more(passes, reports, r, n - 1);
        let name = passes[n - 1].title().name;
        one_more_report(reports, r, name);
        one_more_edit(reports_of(reports, name), r);
        if is_held(passes, n - 1, r.pass) {
            let i = choose|i: int| 0 <= i < n - 1 && (#[trigger] passes[i]).title().name == r.pass;
            assert(passes[i].title().name != passes[n - 1].title().name);
            assert(is_held(passes, n, r.pass));
        } else if is_held(passes, n, r.pass) {
            let i = choose|i: int| 0 <= i < n && (#[trigger] passes[i]).title().name == r.pass;
            assert(i == n - 1);
        } else {
            assert(passes[n - 1].title().name != r.pass);
        }
    }
}

proof fn no_edits_by_pass(passes: Seq<AnyPass>, n: int)
    ensures
        edits_by_pass(passes, Seq::empty(), n) == 0,
    decreases n,
{
    if n > 0 {
        no_edits_by_pass(passes, n - 1);
        reveal(Seq::filter);
    }
}

proof fn edits_add_up(passes: Seq<AnyPass>, reports: Seq<PassReportView>)
    requires
        named_apart(passes),
        all_signed(passes, reports),
    ensures
        edits_by_pass(passes, reports, passes.len() as int) == total_edits(
            reports,
            reports.len() as int,
        ),
    decreases reports.len(),
{
    if reports.len() == 0 {
        assert(reports =~= Seq::empty());
        no_edits_by_pass(passes, passes.len() as int);
    } else {
        let front = reports.drop_last();
        let r = reports.last();
        assert(front.push(r) =~= reports);
        assert forall|i: int| 0 <= i < front.len() implies is_held(
            passes,
            passes.len() as int,
            (#[trigger] front[i]).pass,
        ) by {
            assert(front[i] == reports[i]);
        }
        assert(is_held(passes, passes.len() as int, reports[reports.len() - 1].pass));
        edits_add_up(passes, front);
        edits_with_one_more(passes, front, r, passes.len() as int);
        one_more_edit(front, r);
    }
}

/// The reports of a run, pass by pass: where the passes have different names
/// and report under them, each reports once for every round, and nothing else
/// reports; something changed exactly when a report of one of them says so; and
/// their edits are all the edits there are.
pub proof fn every_pass_reports_every_round(
    passes: Seq<AnyPass>,
    m: ModuleView,
    max: nat,
    name: Seq<char>,
)
    requires
        sign_reports(passes),
        named_apart(passes),
    ensures
        ({
            let report = pipeline(passes, m, PipelineView::empty(), 1, max).1;
            &&& reports_of(report.reports, name).len() == if is_held(
                passes,
                passes.len() as int,
                name,
            ) {
                report.rounds
            } else {
                0
            }
            &&& report.changed <==> exists|i: int|
                0 <= i < passes.len() && any_changed(
                    reports_of(report.reports, (#[trigger] passes[i]).title().name),
                )
            &&& edits_by_pass(passes, report.reports, passes.len() as int) == total_edits(
                report.reports,
                report.reports.len() as int,
            )
        }),
{
    let start = PipelineView::empty();
    let report = pipeline(passes, m, start, 1, max).1;
    let reports = report.reports;
    a_run_reports_every_round(passes, m, start, 1, max, name);
    assert(reports_of(start.reports, name).len() == 0) by {
        reveal(Seq::filter);
    }
    a_pipeline_changes_when_a_pass_does(passes, m, start, 1, max);
    edits_add_up(passes, reports);
    if report.changed {
        let k = choose|k: int| 0 <= k < reports.len() && (#[trigger] reports[k]).changed;
        assert(is_held(passes, passes.len() as int, reports[k].pass));
        let i = choose|i: int|
            0 <= i < passes.len() && (#[trigger] passes[i]).title().name == reports[k].pass;
        let title = passes[i].title().name;
        let keep = |p: PassReportView| p.pass == title;
        lemma_filter_index(reports, keep, k);
        let j = reports.take(k).filter(keep).len() as int;
        assert(reports_of(reports, title)[j].changed);
    }
    if exists|i: int|
        0 <= i < passes.len() && any_changed(
            reports_of(reports, (#[trigger] passes[i]).title().name),
        ) {
        let i = choose|i: int|
            0 <= i < passes.len() && any_changed(
                reports_of(reports, (#[trigger] passes[i]).title().name),
            );
        let title = passes[i].title().name;
        let own = reports_of(reports, title);
        let j = choose|j: int| 0 <= j < own.len() && (#[trigger] own[j]).changed;
        let keep = |p: PassReportView| p.pass == title;
        lemma_filter_member(reports, keep, j);
        let k = choose|k: int| 0 <= k < reports.len() && reports[k] == own[j] && keep(reports[k]);
        assert(reports[k].changed);
    }
}

/// The passes of the default pipeline have different names and report under
/// them.
pub proof fn default_passes_sign_their_reports()
    ensures
        sign_reports(default_passes()),
        named_apart(default_passes()),
{
    let passes = default_passes();
    assert forall|i: int, m: ModuleView| 0 <= i < passes.len() implies (
    #[trigger] passes[i].outcome(m)).1.pass == passes[i].title().name by {
        reports_tell_the_truth(passes[i], m);
    }
    reveal_strlit("tool-call-deduplication");
    reveal_strlit("dead-action-elimination");
    reveal_strlit("parallelization");
    assert("tool-call-deduplication"@[0] == 't');
    assert("dead-action-elimination"@[0] == 'd');
    assert("parallelization"@[0] == 'p');
}

} // verus!
