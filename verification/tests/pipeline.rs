//! Pipeline-level tests: the passes composing, reaching a fixpoint, and never
//! producing a module the verifier rejects.

use agent_ir::dead_action::DeadActionElimination;
use agent_ir::dedup::ToolCallDeduplication;
use agent_ir::ids::OperationId;
use agent_ir::manager::{AnyPass, PassManager, PipelineReport};
use agent_ir::module::{Module, ModuleView};
use agent_ir::parallelize::Parallelization;
use agent_ir::parser::parse_module;
use agent_ir::pass::{Pass, PassReport, PassReportView, PassTitle};
use agent_ir::verify::Verifier;

fn optimized(source: &str) -> (Module, PipelineReport) {
    let mut module = parse_module(source).expect("fixture should parse");
    let before = Verifier::new().verify_all(&module);
    assert!(!before.has_errors(), "fixture should verify first:\n{}", before.to_string());

    let report = PassManager::default_pipeline().run(&mut module);

    let after = Verifier::new().verify_all(&module);
    assert!(
        !after.has_errors(),
        "the pipeline produced an invalid module:\n{}\n{}", module.to_string(), after.to_string()
    );
    (module, report)
}

#[test]
fn deduplication_feeds_elimination() {
    // The second `fetch` is folded into the first, which leaves it unread,
    // which lets Dead Action Elimination remove it — a result no single pass
    // reaches alone.
    let (module, report) = optimized(
        r#"module @m version(0) {
  capability @web scope("web") grants(read_external)

  agent.func "f" {
  ^bb0(%url: !core.string):
    %first = tool.call "fetch"(%url) {effect = #read_external<web>} : !tool.result<page>
    %second = tool.call "fetch"(%url) {effect = #read_external<web>} : !tool.result<page>
    agent.return(%second) {effect = #pure}
  } {effect = #pure}
}
"#,
    );
    assert_eq!(
        module.to_string().matches("tool.call").count(),
        1,
        "one call should survive:\n{}", module.to_string()
    );
    assert!(report.by_pass("tool-call-deduplication").iter().any(|r| r.changed));
    assert!(report.by_pass("dead-action-elimination").iter().any(|r| r.changed));
}

#[test]
fn the_pipeline_reaches_a_fixpoint_without_hitting_the_cap() {
    let (_, report) = optimized(
        r#"module @m version(0) {
  capability @web scope("web") grants(read_external)

  agent.func "f" {
  ^bb0(%url: !core.string):
    %a = tool.call "fetch"(%url) {effect = #read_external<web>} : !tool.result<page>
    %b = tool.call "fetch"(%url) {effect = #read_external<web>} : !tool.result<page>
    %c = tool.call "fetch"(%url) {effect = #read_external<web>} : !tool.result<page>
    %d = agent.action "render"(%a, %b, %c) {effect = #pure} : !core.string
    agent.return(%d) {effect = #pure}
  } {effect = #pure}
}
"#,
    );
    assert!(!report.hit_iteration_cap, "{}", report.to_string());
}

#[test]
fn a_pipeline_of_one_pass_reports_only_that_pass() {
    let mut module = parse_module(
        r#"module @m version(0) {
  agent.func "f" {
    %dead = agent.action "compute"() {effect = #pure} : !core.int
    agent.return {effect = #pure}
  } {effect = #pure}
}
"#,
    )
    .unwrap();
    let report = PassManager::new().with(AnyPass::DeadAction(DeadActionElimination)).run(&mut module);
    assert!(report.changed);
    assert!(report.reports.iter().all(|r| r.pass == "dead-action-elimination"));
}

#[test]
fn every_pass_names_and_describes_itself() {
    let passes: Vec<Box<dyn Pass>> = vec![
        Box::new(DeadActionElimination),
        Box::new(ToolCallDeduplication),
        Box::new(Parallelization),
    ];
    for pass in passes {
        assert!(!pass.name().is_empty());
        assert!(pass.description().ends_with('.'), "{}", pass.name());
        assert!(
            pass.name().chars().all(|c| c.is_ascii_lowercase() || c == '-'),
            "{} should be kebab-case",
            pass.name()
        );
    }
}

const INSPECT: &str = r#"module @m version(0) {
  capability @host scope("host") grants(read_external)

  agent.func "f" {
  ^bb0(%model: !tool.ref<model>, %hardware: !tool.ref<hw>):
    %a = agent.action "inspect_model"(%model) {effect = #pure} : !core.int
    %b = agent.action "inspect_hardware"(%hardware) {effect = #pure} : !core.int
    %p = agent.action "profile"(%a, %b) {effect = #read_external<host>} : !core.int
    agent.return(%p) {effect = #pure}
  } {effect = #pure}
}
"#;

#[test]
fn running_the_pipeline_twice_changes_nothing_the_second_time() {
    let mut module = parse_module(INSPECT).unwrap();
    let first = PassManager::default_pipeline().run(&mut module);
    assert!(first.changed);
    let after_once = module.to_string();
    let second = PassManager::default_pipeline().run(&mut module);
    assert!(!second.changed, "the pipeline is not idempotent:\n{}", module.to_string());
    assert_eq!(second.rounds, 1);
    assert_eq!(after_once, module.to_string());
}

#[test]
fn an_empty_pipeline_changes_nothing() {
    let mut module = parse_module(INSPECT).unwrap();
    let before = module.to_string();
    let report = PassManager::new().run(&mut module);
    assert!(!report.changed);
    assert_eq!(report.rounds, 1);
    assert_eq!(before, module.to_string());
}

struct Restless;

impl Pass for Restless {
    fn outcome(&self, _m: ModuleView) -> (ModuleView, PassReportView) {
        unreachable!()
    }

    fn title(&self) -> PassTitle {
        unreachable!()
    }

    fn name(&self) -> &'static str {
        "restless"
    }

    fn description(&self) -> &'static str {
        "Claims to change something every time."
    }

    fn run(&self, _module: &mut Module) -> PassReport {
        let mut report = PassReport::new("restless");
        report.changed = true;
        report
    }
}

#[test]
fn a_pass_that_never_settles_hits_the_cap() {
    let mut module = parse_module(INSPECT).unwrap();
    let report = PassManager::new()
        .with(AnyPass::Other(Box::new(Restless)))
        .with_max_rounds(3)
        .run(&mut module);
    assert!(report.hit_iteration_cap);
    assert_eq!(report.rounds, 3);
    assert!(report.to_string().contains("stopped at the iteration cap"));
}

#[test]
fn a_pass_of_a_pipeline_speaks_for_itself() {
    let names: Vec<&str> =
        PassManager::default_pipeline().passes().iter().map(|p| p.name()).collect();
    assert_eq!(
        names,
        vec!["tool-call-deduplication", "dead-action-elimination", "parallelization"]
    );
    let own = AnyPass::DeadAction(DeadActionElimination);
    assert_eq!(own.description(), DeadActionElimination.description());
    let other = AnyPass::Other(Box::new(Restless));
    assert_eq!(other.name(), "restless");
    assert_eq!(other.description(), "Claims to change something every time.");
}

#[test]
fn every_pass_reports_once_a_round() {
    let (_, report) = optimized(INSPECT);
    let mut edits = 0;
    let mut changed = false;
    for pass in PassManager::default_pipeline().passes() {
        let own = report.by_pass(pass.name());
        assert_eq!(own.len(), report.rounds);
        assert!(own.iter().all(|r| r.pass == pass.name()));
        changed = changed || own.iter().any(|r| r.changed);
        edits += own.iter().map(|r| r.edit_count()).sum::<usize>();
    }
    assert!(report.by_pass("elsewhere").is_empty());
    assert_eq!(report.changed, changed);
    assert_eq!(report.edit_count(), edits);
}

#[test]
fn optimizing_keeps_what_lasts_in_order() {
    let source = r#"module @m version(0) {
  capability @web scope("web") grants(read_external)
  capability @db scope("db") grants(write_external)

  agent.func "f" {
  ^bb0(%x: !core.int):
    %a = tool.call "look"(%x) {effect = #read_external<web>} : !core.string
    %b = tool.call "look"(%x) {effect = #read_external<web>} : !core.string
    %unread = agent.action "inspect"(%x) {effect = #pure} : !core.int
    %g = agent.action "guess"(%a) {effect = #stochastic} : !core.string
    tool.call "save"(%b) {effect = #write_external<db>}
    %u = agent.action "left"(%x) {effect = #pure} : !core.int
    %v = agent.action "right"(%x) {effect = #pure} : !core.int
    tool.call "save"(%g, %u, %v) {effect = #write_external<db>}
    agent.return(%a) {effect = #pure}
  } {effect = #pure}
}
"#;
    let lasting = |module: &Module| -> Vec<(OperationId, Option<String>)> {
        module
            .op_ids()
            .into_iter()
            .filter(|op| !module.op(*op).effect.is_replayable())
            .map(|op| (op, module.op(op).literal.clone()))
            .collect()
    };
    let mut module = parse_module(source).unwrap();
    let before = lasting(&module);
    let ids = module.op_ids();
    let report = PassManager::default_pipeline().run(&mut module);
    assert!(report.changed);
    let names: Vec<&str> = before.iter().map(|(_, name)| name.as_deref().unwrap()).collect();
    assert_eq!(names, ["guess", "save", "save"]);
    assert_eq!(lasting(&module), before);
    assert_ne!(module.op_ids(), ids);
}
