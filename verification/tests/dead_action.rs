//! Dead action elimination.

use agent_ir::dead_action::DeadActionElimination;
use agent_ir::module::Module;
use agent_ir::parser::parse_module;
use agent_ir::pass::{Pass, PassReport};

fn run(source: &str) -> (Module, PassReport) {
    let mut module = parse_module(source).expect("fixture should parse");
    let report = DeadActionElimination.run(&mut module);
    (module, report)
}

#[test]
fn removes_an_unread_pure_action() {
    let (module, report) = run(
        r#"module @m version(0) {
  agent.func "f" {
  ^bb0(%x: !core.int):
    %unused = agent.action "compute"(%x) {effect = #pure} : !core.int
    agent.return {effect = #pure}
  } {effect = #pure}
}
"#,
    );
    assert_eq!(report.removed.len(), 1);
    assert!(!module.to_string().contains("compute"));
}

#[test]
fn removes_an_unread_external_read() {
    // `ReadExternal` with a result proven unused.
    let (module, report) = run(
        r#"module @m version(0) {
  capability @web scope("web") grants(read_external)

  agent.func "f" {
  ^bb0(%url: !core.string):
    %page = tool.call "fetch"(%url) {effect = #read_external<web>} : !tool.result<page>
    agent.return {effect = #pure}
  } {effect = #pure}
}
"#,
    );
    assert_eq!(report.removed.len(), 1);
    assert!(!module.to_string().contains("fetch"));
}

#[test]
fn refuses_to_remove_an_unread_write() {
    let (module, report) = run(
        r#"module @m version(0) {
  capability @db scope("db") grants(write_external)

  agent.func "f" {
  ^bb0(%row: !tool.ref<db>):
    %receipt = tool.call "insert"(%row) {effect = #write_external<db>} : !tool.result<receipt>
    agent.return {effect = #pure}
  } {effect = #pure}
}
"#,
    );
    assert!(!report.changed, "a write is not dead just because nobody reads its receipt");
    assert!(module.to_string().contains("insert"));
}

#[test]
fn refuses_to_remove_an_unread_irreversible_action() {
    let (module, report) = run(
        r#"module @m version(0) {
  capability @pay scope("ledger") grants(irreversible)

  agent.func "f" {
  ^bb0(%invoice: !tool.ref<invoice>):
    agent.verify(%invoice) {effect = #pure, capability = "pay"}
    %receipt = tool.call "pay_invoice"(%invoice) {effect = #irreversible<ledger>} : !tool.result<receipt>
    agent.return {effect = #pure}
  } {effect = #pure}
}
"#,
    );
    assert!(!report.changed);
    assert!(module.to_string().contains("pay_invoice"));
}

#[test]
fn refuses_to_remove_a_pure_looking_operation_that_hides_an_effect() {
    // The `control.parallel` line says `#pure`. Its region deletes rows.
    let (module, report) = run(
        r#"module @m version(0) {
  capability @db scope("db") grants(irreversible)

  agent.func "f" {
  ^bb0(%row: !tool.ref<db>):
    agent.verify(%row) {effect = #pure, capability = "db"}
    %ignored = control.parallel {
      tool.call "delete_row"(%row) {effect = #irreversible<db>}
      %n = core.constant {effect = #pure, value = 1} : !core.int
      control.yield(%n) {effect = #pure}
    } {effect = #pure} : !core.int
    agent.return {effect = #pure}
  } {effect = #pure}
}
"#,
    );
    assert!(!report.changed, "the declaration hid the body:\n{}", module.to_string());
    assert!(module.to_string().contains("delete_row"));
}

#[test]
fn cascades_through_a_chain_of_dead_operations() {
    let (module, report) = run(
        r#"module @m version(0) {
  agent.func "f" {
  ^bb0(%x: !core.int):
    %a = agent.action "one"(%x) {effect = #pure} : !core.int
    %b = agent.action "two"(%a) {effect = #pure} : !core.int
    %c = agent.action "three"(%b) {effect = #pure} : !core.int
    agent.return {effect = #pure}
  } {effect = #pure}
}
"#,
    );
    assert_eq!(report.removed.len(), 3, "the whole chain should go");
    let printed = module.to_string();
    for literal in ["one", "two", "three"] {
        assert!(!printed.contains(literal), "{literal} survived:\n{printed}");
    }
}

#[test]
fn keeps_everything_that_feeds_the_return() {
    let (_, report) = run(
        r#"module @m version(0) {
  agent.func "f" {
  ^bb0(%x: !core.int):
    %a = agent.action "one"(%x) {effect = #pure} : !core.int
    %b = agent.action "two"(%a) {effect = #pure} : !core.int
    agent.return(%b) {effect = #pure}
  } {effect = #pure}
}
"#,
    );
    assert!(!report.changed);
}

#[test]
fn never_removes_an_operation_that_produces_nothing() {
    let (module, report) = run(
        r#"module @m version(0) {
  capability @db scope("db") grants(write_external)

  agent.func "f" {
  ^bb0(%row: !tool.ref<db>):
    memory.write(%row) {effect = #write_external<db>, key = "last_row"}
    agent.reject(%row) {effect = #pure}
    agent.return {effect = #pure}
  } {effect = #pure}
}
"#,
    );
    assert!(!report.changed);
    assert!(module.to_string().contains("memory.write"));
    assert!(module.to_string().contains("agent.reject"));
}

#[test]
fn distinguishes_dead_context_from_dead_action_in_the_report() {
    let (_, report) = run(
        r#"module @m version(0) {
  agent.func "f" {
    %k = core.constant {effect = #pure, value = 1} : !core.int
    %a = agent.action "compute"() {effect = #pure} : !core.int
    agent.return {effect = #pure}
  } {effect = #pure}
}
"#,
    );
    let codes: Vec<&str> = report.notes.iter().iter().map(|d| d.code.as_str()).collect();
    assert!(codes.contains(&"dead-context"), "{codes:?}");
    assert!(codes.contains(&"dead-action"), "{codes:?}");
}

#[test]
fn nothing_is_left_to_remove_afterwards() {
    let mut module = parse_module(
        r#"module @m version(0) {
  agent.func "f" {
  ^bb0(%x: !core.int):
    %a = agent.action "one"(%x) {effect = #pure} : !core.int
    %b = agent.action "two"(%a) {effect = #pure} : !core.int
    %c = agent.action "kept"(%x) {effect = #pure} : !core.int
    agent.return(%c) {effect = #pure}
  } {effect = #pure}
}
"#,
    )
    .unwrap();
    assert_eq!(DeadActionElimination.run(&mut module).removed.len(), 2);
    assert!(!DeadActionElimination.run(&mut module).changed);
    assert!(module.to_string().contains("kept"));
}
