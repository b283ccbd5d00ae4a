//! Tool call deduplication.

use agent_ir::dedup::ToolCallDeduplication;
use agent_ir::module::Module;
use agent_ir::parser::parse_module;
use agent_ir::pass::{Pass, PassReport};

fn run(source: &str) -> (Module, PassReport) {
    let mut module = parse_module(source).expect("fixture should parse");
    let report = ToolCallDeduplication.run(&mut module);
    (module, report)
}

#[test]
fn reuses_an_identical_external_read() {
    let (module, report) = run(r#"module @m version(0) {
  capability @web scope("web") grants(read_external)

  agent.func "f" {
  ^bb0(%url: !core.string):
    %first = tool.call "fetch"(%url) {effect = #read_external<web>} : !tool.result<page>
    %second = tool.call "fetch"(%url) {effect = #read_external<web>} : !tool.result<page>
    agent.return(%second) {effect = #pure}
  } {effect = #pure}
}
"#);
    assert_eq!(report.rewritten.len(), 1);
    assert!(
        module.to_string().contains("agent.return(%first)"),
        "the return should read the first call:\n{}", module.to_string()
    );
}

#[test]
fn refuses_when_a_write_to_the_same_scope_sits_in_between() {
    let (_, report) = run(r#"module @m version(0) {
  capability @db scope("db") grants(read_external, write_external)

  agent.func "f" {
  ^bb0(%row: !tool.ref<db>):
    %first = tool.call "select"(%row) {effect = #read_external<db>} : !tool.result<row>
    tool.call "update"(%row) {effect = #write_external<db>}
    %second = tool.call "select"(%row) {effect = #read_external<db>} : !tool.result<row>
    agent.return(%second) {effect = #pure}
  } {effect = #pure}
}
"#);
    assert!(!report.changed);
    assert!(report.notes.iter().iter().any(|d| d.code == "reuse-declined"));
}

#[test]
fn allows_reuse_across_a_write_to_a_different_scope() {
    let (_, report) = run(r#"module @m version(0) {
  capability @db scope("db") grants(read_external)
  capability @cache scope("cache") grants(write_external)

  agent.func "f" {
  ^bb0(%row: !tool.ref<db>):
    %first = tool.call "select"(%row) {effect = #read_external<db>} : !tool.result<row>
    tool.call "evict"(%row) {effect = #write_external<cache>}
    %second = tool.call "select"(%row) {effect = #read_external<db>} : !tool.result<row>
    agent.return(%second) {effect = #pure}
  } {effect = #pure}
}
"#);
    assert_eq!(report.rewritten.len(), 1);
}

#[test]
fn never_deduplicates_a_write() {
    let (_, report) = run(r#"module @m version(0) {
  capability @db scope("db") grants(write_external)

  agent.func "f" {
  ^bb0(%row: !tool.ref<db>):
    %a = tool.call "append"(%row) {effect = #write_external<db>} : !tool.result<receipt>
    %b = tool.call "append"(%row) {effect = #write_external<db>} : !tool.result<receipt>
    agent.return(%b) {effect = #pure}
  } {effect = #pure}
}
"#);
    assert!(!report.changed, "two appends are two appends");
}

#[test]
fn never_deduplicates_a_stochastic_call() {
    let (_, report) = run(r#"module @m version(0) {
  capability @llm scope(*) grants(stochastic)

  agent.func "f" {
  ^bb0(%prompt: !core.string):
    %a = agent.action "sample"(%prompt) {effect = #stochastic} : !core.string
    %b = agent.action "sample"(%prompt) {effect = #stochastic} : !core.string
    agent.return(%b) {effect = #pure}
  } {effect = #pure}
}
"#);
    assert!(
        !report.changed,
        "sampling twice is the point of sampling twice"
    );
}

#[test]
fn different_arguments_are_different_calls() {
    let (_, report) = run(r#"module @m version(0) {
  capability @web scope("web") grants(read_external)

  agent.func "f" {
  ^bb0(%a: !core.string, %b: !core.string):
    %first = tool.call "fetch"(%a) {effect = #read_external<web>} : !tool.result<page>
    %second = tool.call "fetch"(%b) {effect = #read_external<web>} : !tool.result<page>
    agent.return(%second) {effect = #pure}
  } {effect = #pure}
}
"#);
    assert!(!report.changed);
}

#[test]
fn no_cache_opts_an_operation_out() {
    let (_, report) = run(r#"module @m version(0) {
  capability @clock scope("clock") grants(read_external)

  agent.func "f" {
    %a = tool.call "now"() {effect = #read_external<clock>, no_cache = true} : !core.int
    %b = tool.call "now"() {effect = #read_external<clock>, no_cache = true} : !core.int
    agent.return(%b) {effect = #pure}
  } {effect = #pure}
}
"#);
    assert!(!report.changed, "a clock is never twice the same");
}

#[test]
fn does_not_reach_across_block_boundaries() {
    // The read inside the loop body runs once per iteration and must not be
    // folded into the one before the loop.
    let (_, report) = run(r#"module @m version(0) {
  capability @web scope("web") grants(read_external)

  agent.func "f" {
  ^bb0(%url: !core.string, %items: !tool.ref<items>):
    %outer = tool.call "fetch"(%url) {effect = #read_external<web>} : !tool.result<page>
    control.loop(%items) {
    ^bb0(%item: !tool.ref<item>):
      %inner = tool.call "fetch"(%url) {effect = #read_external<web>} : !tool.result<page>
    } {effect = #pure, max_iterations = 10}
    agent.return(%outer) {effect = #pure}
  } {effect = #pure}
}
"#);
    assert!(!report.changed);
}
