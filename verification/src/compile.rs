//! The pipeline: from text to something that can run.
//!
//! ```text
//! text → parse → verify → analyse → optimize → verify safety → schedule → lower → run
//!                   ↓                                ↓
//!            structured diagnostic            structured diagnostic
//! ```
//!
//! Both rejection points return [`Diagnostics`] rather than an exception, which
//! is what makes an Agent IR program debuggable like a compiler input rather
//! than like a chain of prompts.

use vstd::prelude::*;
use vstd::string::*;

use crate::acceptance::{
    accepted_modules_can_be_scheduled, default_passes, optimizing_keeps_first_blocks,
};
use crate::cost::Budget;
use crate::diagnostic::{
    findings_text, rejects, Diagnostic, DiagnosticView, Diagnostics, Severity,
};
use crate::dialects::catalogue;
use crate::effects::effect_table;
use crate::grammar::parsed;
use crate::guarantees::{plan_permitted, planned_effects_are_permitted};
use crate::lexer::ErrorView;
use crate::manager::{pipeline, PassManager, PipelineReport, PipelineView};
use crate::module::{Module, ModuleView};
use crate::parser::{parse_module, ParseError};
use crate::plan::{ExecutionPlan, ExecutionPlanView, GenericRuntime};
use crate::preservation::{keeps_effects, optimizing_keeps_effects};
use crate::printer::print_module;
use crate::rules::all_findings;
use crate::scheduler::{no_function, scheduled, Estimator, Planner, Scheduler};
use crate::stable::canonical_form_is_stable;
use crate::text::{nat_text, push_nat};
use crate::tree::module_text;
use crate::verify::{spec_default_confidence_threshold, Verifier};

verus! {

/// Everything that can stop a program before it runs.
#[derive(Debug)]
pub enum Error {
    /// The text was not a well-formed module.
    Parse(ParseError),
    /// The module broke an invariant, or the agent lacked a capability.
    Rejected(Diagnostics),
}

/// The mathematical content of an [`Error`].
#[verifier::ext_equal]
pub ghost enum FailureView {
    Parse(ErrorView),
    Rejected(Seq<DiagnosticView>),
}

impl View for Error {
    type V = FailureView;

    open spec fn view(&self) -> FailureView {
        match self {
            Error::Parse(error) => FailureView::Parse(error@),
            Error::Rejected(report) => FailureView::Rejected(report@),
        }
    }
}

impl FailureView {
    /// The printed form of the failure.
    pub open spec fn text(self) -> Seq<char> {
        match self {
            FailureView::Parse(error) => "parse error at "@ + error.span.text() + ": "@
                + error.message,
            FailureView::Rejected(report) => findings_text(report, 0),
        }
    }

    /// The findings: those of the rejected program, or one for the place where
    /// the text went wrong.
    pub open spec fn findings(self) -> Seq<DiagnosticView> {
        match self {
            FailureView::Rejected(report) => report,
            FailureView::Parse(error) => seq![
                DiagnosticView::plain(Severity::Error, "parse"@, error.message).suggest(
                    "at line "@ + nat_text(error.span.line as nat) + ", column "@ + nat_text(
                        error.span.column as nat,
                    ),
                ),
            ],
        }
    }
}

impl From<ParseError> for Error {
    fn from(err: ParseError) -> Error {
        Error::Parse(err)
    }
}

impl vstd::std_specs::convert::FromSpecImpl<ParseError> for Error {
    open spec fn obeys_from_spec() -> bool {
        true
    }

    open spec fn from_spec(err: ParseError) -> Error {
        Error::Parse(err)
    }
}

impl Error {
    /// The findings, when the program was rejected rather than malformed.
    pub fn diagnostics(&self) -> (r: Diagnostics)
        ensures
            r@ == self@.findings(),
    {
        match self {
            Error::Rejected(report) => report.clone(),
            Error::Parse(error) => {
                let mut place = String::from_str("at line ");
                push_nat(&mut place, error.span.line as u64);
                place.append(", column ");
                push_nat(&mut place, error.span.column as u64);
                assert(place@ =~= "at line "@ + nat_text(error.span.line as nat) + ", column "@
                    + nat_text(error.span.column as nat));
                let mut report = Diagnostics::new();
                report.push(
                    Diagnostic::error("parse", error.message.clone()).suggest(place.as_str()),
                );
                assert(report@ =~= self@.findings());
                report
            },
        }
    }

    /// The printed form of the failure.
    pub fn to_string(&self) -> (r: String)
        ensures
            r@ == self@.text(),
    {
        match self {
            Error::Parse(error) => error.to_string(),
            Error::Rejected(report) => report.to_string(),
        }
    }
}

/// What the verifier finds in a module.
pub open spec fn findings(m: ModuleView) -> Seq<DiagnosticView> {
    all_findings(m, catalogue(), effect_table(m), spec_default_confidence_threshold())
}

/// The module if the verifier accepts it, and otherwise what it found.
pub open spec fn accepted(m: ModuleView) -> Result<ModuleView, FailureView> {
    if rejects(findings(m)) {
        Err(FailureView::Rejected(findings(m)))
    } else {
        Ok(m)
    }
}

/// What compiling a text gives.
pub open spec fn compiled(source: Seq<char>) -> Result<ModuleView, FailureView> {
    match parsed(source) {
        Err(error) => Err(FailureView::Parse(error)),
        Ok(m) => accepted(m),
    }
}

/// What the default pipeline makes of a module, and what it reports.
pub open spec fn default_outcome(m: ModuleView) -> (ModuleView, PipelineView) {
    pipeline(default_passes(), m, PipelineView::empty(), 1, 8)
}

/// What compiling and optimizing a text gives.
pub open spec fn optimized(source: Seq<char>) -> Result<(ModuleView, PipelineView), FailureView> {
    match compiled(source) {
        Err(failure) => Err(failure),
        Ok(m) => {
            let (m2, report) = default_outcome(m);
            match accepted(m2) {
                Err(failure) => Err(failure),
                Ok(_) => Ok((m2, report)),
            }
        },
    }
}

/// What scheduling a function for the generic runtime gives.
pub open spec fn generic_schedule(m: ModuleView, function: Seq<char>) -> Result<
    ExecutionPlanView,
    Seq<DiagnosticView>,
> {
    scheduled(
        Planner {
            backend: GenericRuntime,
            estimator: Estimator::standard(),
            table: effect_table(m),
        },
        Budget::open(),
        6,
        m,
        function,
    )
}

/// What compiling, optimizing and scheduling gives.
pub open spec fn compiled_and_scheduled(source: Seq<char>, function: Seq<char>) -> Result<
    ExecutionPlanView,
    FailureView,
> {
    match optimized(source) {
        Err(failure) => Err(failure),
        Ok((m, report)) => match generic_schedule(m, function) {
            Err(errors) => Err(FailureView::Rejected(errors)),
            Ok(plan) => Ok(plan),
        },
    }
}

/// Parses and verifies a module, without optimizing it.
///
/// Both phases run: a module that comes back is well formed *and* authorized.
pub fn compile(source: &str) -> (r: Result<Module, Error>)
    requires
        source@.len() < u32::MAX,
    ensures
        match r {
            Ok(m) => compiled(source@) == Ok::<ModuleView, FailureView>(m@) && m@.well_formed()
                && m@.complete(),
            Err(e) => compiled(source@) == Err::<ModuleView, FailureView>(e@),
        },
{
    let module = match parse_module(source) {
        Ok(module) => module,
        Err(error) => {
            return Err(Error::from(error));
        },
    };
    let report = Verifier::new().verify_all(&module);
    if report.has_errors() {
        return Err(Error::Rejected(report));
    }
    Ok(module)
}

/// Parses, verifies, optimizes, and verifies again.
///
/// The second verification is not ceremony. A pass that broke an invariant
/// would otherwise hand the runtime a program the compiler already promised was
/// safe, and no pass is safe by default.
///
/// What the program does to the outside is what the text says: the operations
/// that write, that cannot be undone or that ask a model are the same, in the
/// same order.
pub fn compile_optimized(source: &str) -> (r: Result<(Module, PipelineReport), Error>)
    requires
        source@.len() < u32::MAX,
    ensures
        match r {
            Ok((m, report)) => optimized(source@) == Ok::<(ModuleView, PipelineView), FailureView>(
                (m@, report@),
            ) && m@.well_formed() && m@.complete() && m@.capabilities == parsed(
                source@,
            )->Ok_0.capabilities && keeps_effects(parsed(source@)->Ok_0, m@),
            Err(e) => optimized(source@) == Err::<(ModuleView, PipelineView), FailureView>(e@),
        },
{
    let mut module = match compile(source) {
        Ok(module) => module,
        Err(error) => {
            return Err(error);
        },
    };
    let ghost before = module@;
    let report = PassManager::default_pipeline().run(&mut module);
    proof {
        optimizing_keeps_first_blocks(before, PipelineView::empty(), 1, 8);
        optimizing_keeps_effects(before, PipelineView::empty(), 1, 8);
    }
    let after = Verifier::new().verify_all(&module);
    if after.has_errors() {
        return Err(Error::Rejected(after));
    }
    Ok((module, report))
}

/// The full pipeline: compile, optimize, and schedule one function.
///
/// Every step of the plan has an effect that a capability declared in the text
/// covers.
pub fn compile_and_schedule(source: &str, function: &str) -> (r: Result<ExecutionPlan, Error>)
    requires
        source@.len() < u32::MAX,
    ensures
        match r {
            Ok(plan) => compiled_and_scheduled(source@, function@) == Ok::<
                ExecutionPlanView,
                FailureView,
            >(plan@) && plan_permitted(parsed(source@)->Ok_0.capabilities, plan@.plan),
            Err(e) => compiled_and_scheduled(source@, function@) == Err::<
                ExecutionPlanView,
                FailureView,
            >(e@),
        },
{
    let (module, _) = match compile_optimized(source) {
        Ok(pair) => pair,
        Err(error) => {
            return Err(error);
        },
    };
    schedule_accepted(&module, function)
}

/// Schedules one function of a module that the verifier accepts.
fn schedule_accepted(module: &Module, function: &str) -> (r: Result<ExecutionPlan, Error>)
    requires
        module@.well_formed(),
        module@.complete(),
        !rejects(findings(module@)),
    ensures
        match r {
            Ok(plan) => generic_schedule(module@, function@) == Ok::<
                ExecutionPlanView,
                Seq<DiagnosticView>,
            >(plan@) && plan_permitted(module@.capabilities, plan@.plan),
            Err(e) => generic_schedule(module@, function@) matches Err(errors) && e@
                == FailureView::Rejected(errors),
        },
{
    proof {
        accepted_modules_can_be_scheduled(
            module@,
            effect_table(module@),
            spec_default_confidence_threshold(),
            function@,
        );
    }
    match Scheduler::new(GenericRuntime).schedule(module, function) {
        Ok(plan) => {
            proof {
                planned_effects_are_permitted(
                    Planner {
                        backend: GenericRuntime,
                        estimator: Estimator::standard(),
                        table: effect_table(module@),
                    },
                    Budget::open(),
                    6,
                    module@,
                    catalogue(),
                    spec_default_confidence_threshold(),
                    function@,
                );
            }
            Ok(plan)
        },
        Err(errors) => Err(Error::Rejected(errors)),
    }
}

/// Verifies a module as it stands and schedules one function of it.
pub fn schedule_function(module: &Module, function: &str) -> (r: Result<ExecutionPlan, Error>)
    requires
        module@.well_formed(),
        module@.complete(),
    ensures
        match accepted(module@) {
            Err(failure) => r matches Err(e) && e@ == failure,
            Ok(_) => match r {
                Ok(plan) => generic_schedule(module@, function@) == Ok::<
                    ExecutionPlanView,
                    Seq<DiagnosticView>,
                >(plan@) && plan_permitted(module@.capabilities, plan@.plan),
                Err(e) => generic_schedule(module@, function@) matches Err(errors) && e@
                    == FailureView::Rejected(errors),
            },
        },
{
    let report = Verifier::new().verify_all(module);
    if report.has_errors() {
        return Err(Error::Rejected(report));
    }
    schedule_accepted(module, function)
}

/// Parses a module, then prints it back. What comes out is in canonical form:
/// printing it back again changes nothing.
pub fn round_trip(source: &str) -> (r: Result<String, ParseError>)
    requires
        source@.len() < u32::MAX,
    ensures
        match r {
            Ok(text) => parsed(source@) matches Ok(m) && text@ == module_text(m.tree()),
            Err(e) => parsed(source@) == Err::<ModuleView, ErrorView>(e@),
        },
        r matches Ok(text) ==> (source@.len() + 1 < u32::MAX && text@.len() + 1 < u32::MAX
            ==> parsed(text@) is Ok && module_text(parsed(text@)->Ok_0.tree()) == text@),
{
    match parse_module(source) {
        Ok(module) => {
            let text = print_module(&module);
            proof {
                if source@.len() + 1 < u32::MAX && text@.len() + 1 < u32::MAX {
                    canonical_form_is_stable(source@);
                }
            }
            Ok(text)
        },
        Err(error) => Err(error),
    }
}

/// What comes out of the whole pipeline was accepted twice: once as it was
/// written, and once as the passes left it.
pub proof fn what_is_scheduled_was_accepted(source: Seq<char>, function: Seq<char>)
    requires
        compiled_and_scheduled(source, function) is Ok,
    ensures
        ({
            let m = parsed(source)->Ok_0;
            &&& parsed(source) is Ok
            &&& !rejects(findings(m))
            &&& !rejects(findings(default_outcome(m).0))
        }),
{
}

/// A program is stopped for a reason that is said: malformed text where it does
/// not parse, and nowhere else; otherwise findings of which at least one is an
/// error. What is not stopped is a plan of the function that was asked for,
/// lowered for the generic runtime.
pub proof fn what_is_stopped_says_why(source: Seq<char>, function: Seq<char>)
    ensures
        compiled_and_scheduled(source, function) matches Err(FailureView::Parse(e)) ==> parsed(
            source,
        ) == Err::<ModuleView, ErrorView>(e),
        parsed(source) matches Err(e) ==> compiled_and_scheduled(source, function) == Err::<
            ExecutionPlanView,
            FailureView,
        >(FailureView::Parse(e)),
        compiled_and_scheduled(source, function) matches Err(FailureView::Rejected(report))
            ==> rejects(report),
        compiled_and_scheduled(source, function) matches Ok(plan) ==> plan.function == function
            && plan.backend == "generic"@,
{
    if let Ok((m, report)) = optimized(source) {
        if m.function(function) is None {
            let report = seq![no_function(function)];
            assert(report[0].is_error());
        }
    }
}

/// What is scheduled is the optimized program, exactly when the program can be
/// read, is accepted, is still accepted once optimized, and can be planned; the
/// first of these to fail says why.
pub proof fn what_is_scheduled_is_the_optimized_program(source: Seq<char>, function: Seq<char>)
    ensures
        match parsed(source) {
            Err(e) => compiled_and_scheduled(source, function) == Err::<
                ExecutionPlanView,
                FailureView,
            >(FailureView::Parse(e)),
            Ok(m) => {
                let better = default_outcome(m).0;
                if rejects(findings(m)) {
                    compiled_and_scheduled(source, function) == Err::<
                        ExecutionPlanView,
                        FailureView,
                    >(FailureView::Rejected(findings(m)))
                } else if rejects(findings(better)) {
                    compiled_and_scheduled(source, function) == Err::<
                        ExecutionPlanView,
                        FailureView,
                    >(FailureView::Rejected(findings(better)))
                } else {
                    match generic_schedule(better, function) {
                        Ok(plan) => compiled_and_scheduled(source, function) == Ok::<
                            ExecutionPlanView,
                            FailureView,
                        >(plan),
                        Err(errors) => compiled_and_scheduled(source, function) == Err::<
                            ExecutionPlanView,
                            FailureView,
                        >(FailureView::Rejected(errors)),
                    }
                }
            },
        },
{
}

} // verus!
