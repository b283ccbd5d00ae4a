//! Parallelization.

use agent_ir::module::Module;
use agent_ir::parallelize::Parallelization;
use agent_ir::parser::parse_module;
use agent_ir::pass::{Pass, PassReport};
use agent_ir::verify::Verifier;

fn run(source: &str) -> (Module, PassReport) {
    let mut module = parse_module(source).expect("fixture should parse");
    let report = Parallelization.run(&mut module);
    let check = Verifier::new().verify(&module);
    assert!(
        !check.has_errors(),
        "the pass produced an invalid module:\n{}\n{}",
        module.to_string(),
        check.to_string()
    );
    (module, report)
}

const SEQUENTIAL: &str = r#"module @m version(0) {
  capability @host scope("host") grants(read_external)

  agent.func "f" {
  ^bb0(%model: !tool.ref<model>, %hardware: !tool.ref<hw>, %dataset: !tool.ref<dataset>):
    %a = agent.action "inspect_model"(%model) {effect = #pure} : !core.int
    %b = agent.action "inspect_hardware"(%hardware) {effect = #pure} : !core.int
    %c = agent.action "inspect_dataset"(%dataset) {effect = #pure} : !core.int
    %p = agent.action "profile"(%a, %b, %c) {effect = #read_external<host>} : !core.int
    agent.return(%p) {effect = #pure}
  } {effect = #pure}
}
"#;

#[test]
fn groups_the_three_independent_inspections_of_section_13_1() {
    let (module, report) = run(SEQUENTIAL);
    let printed = module.to_string();
    assert!(report.changed);
    assert!(printed.contains("control.parallel"), "{printed}");
    assert_eq!(printed.matches("control.parallel").count(), 1);
    // All three inspections moved inside, and the profile still reads them.
    let region_start = printed.find("control.parallel").unwrap();
    let region_end = printed.find("control.yield").unwrap();
    let region = &printed[region_start..region_end];
    for literal in ["inspect_model", "inspect_hardware", "inspect_dataset"] {
        assert!(
            region.contains(literal),
            "{literal} not in region:\n{printed}"
        );
    }
    assert!(!region.contains("profile"));
}

#[test]
fn the_three_results_leave_through_a_yield() {
    let (module, _) = run(SEQUENTIAL);
    let printed = module.to_string();
    let yield_line = printed
        .lines()
        .find(|l| l.contains("control.yield"))
        .unwrap();
    assert_eq!(yield_line.matches('%').count(), 3, "{yield_line}");
}

#[test]
fn refuses_to_group_a_producer_with_its_consumer() {
    let (_, report) = run(r#"module @m version(0) {
  agent.func "f" {
  ^bb0(%x: !core.int):
    %a = agent.action "one"(%x) {effect = #pure} : !core.int
    %b = agent.action "two"(%a) {effect = #pure} : !core.int
    agent.return(%b) {effect = #pure}
  } {effect = #pure}
}
"#);
    assert!(!report.changed);
}

#[test]
fn refuses_to_group_operations_that_conflict_on_a_scope() {
    let (_, report) = run(r#"module @m version(0) {
  capability @db scope("db") grants(read_external, write_external)

  agent.func "f" {
  ^bb0(%row: !tool.ref<db>):
    tool.call "update"(%row) {effect = #write_external<db>}
    %seen = tool.call "select"(%row) {effect = #read_external<db>} : !tool.result<row>
    agent.return(%seen) {effect = #pure}
  } {effect = #pure}
}
"#);
    assert!(!report.changed, "I3 forbids this grouping");
}

#[test]
fn groups_reads_of_different_scopes() {
    let (module, report) = run(r#"module @m version(0) {
  capability @db scope("db") grants(read_external)
  capability @cache scope("cache") grants(read_external)

  agent.func "f" {
  ^bb0(%row: !tool.ref<db>):
    %a = tool.call "select"(%row) {effect = #read_external<db>} : !tool.result<row>
    %b = tool.call "peek"(%row) {effect = #read_external<cache>} : !tool.result<row>
    agent.return(%a) {effect = #pure}
  } {effect = #pure}
}
"#);
    assert!(report.changed);
    assert!(module.to_string().contains("control.parallel"));
}

#[test]
fn never_moves_a_verify_away_from_what_it_guards() {
    let (module, _) = run(r#"module @m version(0) {
  capability @pay scope("ledger") grants(irreversible)

  agent.func "f" {
  ^bb0(%invoice: !tool.ref<invoice>):
    agent.verify(%invoice) {effect = #pure, capability = "pay"}
    tool.call "pay"(%invoice) {effect = #irreversible<ledger>}
    agent.return {effect = #pure}
  } {effect = #pure}
}
"#);
    let printed = module.to_string();
    assert!(!printed.contains("control.parallel"), "{printed}");
}

#[test]
fn an_operation_with_no_escaping_result_needs_no_yield() {
    let (module, report) = run(r#"module @m version(0) {
  capability @log scope("log") grants(write_external)
  capability @audit scope("audit") grants(write_external)

  agent.func "f" {
  ^bb0(%event: !core.string):
    memory.write(%event) {effect = #write_external<log>, key = "log"}
    memory.write(%event) {effect = #write_external<audit>, key = "audit"}
    agent.return {effect = #pure}
  } {effect = #pure}
}
"#);
    assert!(report.changed);
    let printed = module.to_string();
    assert!(printed.contains("control.parallel"));
    assert!(!printed.contains("control.yield"), "{printed}");
}

#[test]
fn the_result_is_stable_under_a_second_run() {
    let mut module = parse_module(SEQUENTIAL).unwrap();
    Parallelization.run(&mut module);
    let once = module.to_string();
    let second = Parallelization.run(&mut module);
    assert!(!second.changed, "the pass is not idempotent:\n{}", module.to_string());
    assert_eq!(once, module.to_string());
}

const NESTED: &str = r#"module @m version(0) {
  capability @host scope("host") grants(read_external)

  agent.func "f" {
  ^bb0(%items: !tool.ref<items>):
    control.loop(%items) {
    ^bb0(%item: !tool.ref<item>):
      %a = agent.action "left"(%item) {effect = #pure} : !core.int
      %b = agent.action "right"(%item) {effect = #pure} : !core.int
      %c = agent.action "join"(%a, %b) {effect = #read_external<host>} : !core.int
    } {effect = #pure, max_iterations = 8}
    agent.return {effect = #pure}
  } {effect = #pure}
}
"#;

#[test]
fn nested_blocks_are_scheduled_too() {
    let (module, report) = run(NESTED);
    assert!(report.changed);
    assert!(module.to_string().contains("control.parallel"));
}

#[test]
fn the_program_order_stays_what_it_was() {
    for source in [SEQUENTIAL, NESTED] {
        let mut module = parse_module(source).unwrap();
        let before = module.op_ids();
        let size = module.op_capacity();
        let report = Parallelization::default().run(&mut module);
        assert!(report.changed);
        let after = module.op_ids();
        assert!(after.len() > before.len());
        let kept: Vec<_> = after.into_iter().filter(|op| op.index() < size).collect();
        assert_eq!(kept, before);
    }
}
