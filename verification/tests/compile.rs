//! The whole pipeline, and what the command line prints.

use agent_ir::builder::Builder;
use agent_ir::compile::{compile, compile_and_schedule, compile_optimized, Error};
use agent_ir::dialects::Registry;
use agent_ir::driver::{canonical, describe_signature, functions, pick_function, push_plan};
use agent_ir::effect::Effect;
use agent_ir::attribute::Attribute;
use agent_ir::module::{Module, OpName};
use agent_ir::parser::parse_module;
use agent_ir::printer::print_module;
use agent_ir::types::Type;

const GOOD: &str = r#"module @m version(0) {
  capability @web scope("web") grants(read_external)

  agent.func "f" {
  ^bb0(%url: !core.string):
    %page = tool.call "fetch"(%url) {effect = #read_external<web>} : !tool.result<page>
    agent.return(%page) {effect = #pure}
  } {effect = #pure}
}
"#;

#[test]
fn the_pipeline_runs_end_to_end() {
    let plan = compile_and_schedule(GOOD, "f").unwrap();
    assert_eq!(plan.function, "f");
    assert_eq!(plan.estimated.tool_calls, 1);
}

#[test]
fn a_malformed_module_reports_where() {
    let error = compile("module @m version(0) { oops }").unwrap_err();
    assert!(matches!(error, Error::Parse(_)));
    assert!(!error.diagnostics().is_empty());
}

#[test]
fn an_unauthorized_module_is_rejected_before_it_can_run() {
    let error = compile(
        r#"module @m version(0) {
  agent.func "f" {
  ^bb0(%db: !tool.ref<db>):
    agent.verify(%db) {effect = #pure, capability = "wipe"}
    tool.call "delete_database"(%db) {effect = #irreversible<db>}
    agent.return {effect = #pure}
  } {effect = #pure}
}
"#,
    )
    .unwrap_err();
    let report = error.diagnostics();
    assert!(report.errors().iter().any(|d| d.code == "I2"), "{}", report.to_string());
}

#[test]
fn optimizing_is_verified_again_afterwards() {
    let (module, report) = compile_optimized(GOOD).unwrap();
    assert!(!report.changed, "nothing to optimize here");
    assert!(module.function("f").is_some());
}

#[test]
fn a_missing_function_is_reported_by_the_pipeline() {
    let error = compile_and_schedule(GOOD, "g").unwrap_err();
    assert!(matches!(error, Error::Rejected(_)));
    assert!(error.to_string().contains("no `agent.func \"g\"` in this module"));
}

#[test]
fn a_parse_failure_says_where() {
    let error = compile("module @m version(0) {\n  oops }").unwrap_err();
    let report = error.diagnostics();
    assert_eq!(report.errors().len(), 1);
    assert_eq!(report.errors()[0].code, "parse");
    assert_eq!(report.errors()[0].suggestion.as_deref(), Some("at line 2, column 8"));
    assert!(error.to_string().starts_with("parse error at 2:8: "), "{}", error.to_string());
}

#[test]
fn a_header_survives_formatting() {
    let body = print_module(&parse_module(GOOD).unwrap());
    let source = format!("// one\n\n// two\n{GOOD}");
    let module = parse_module(&source).unwrap();
    assert_eq!(canonical(&source, &module), format!("// one\n\n// two\n{body}"));
    assert_eq!(canonical(GOOD, &module), body);
}

#[test]
fn the_function_is_picked_or_asked_for() {
    let one = vec!["f".to_string()];
    let two = vec!["f".to_string(), "g".to_string()];
    assert_eq!(functions(&parse_module(GOOD).unwrap()), one);
    assert_eq!(pick_function(&one, None).unwrap(), "f");
    assert_eq!(pick_function(&two, Some("g".to_string())).unwrap(), "g");
    assert_eq!(
        pick_function(&two, Some("h".to_string())).unwrap_err(),
        "no function `h`; this module has: f, g"
    );
    assert_eq!(
        pick_function(&two, None).unwrap_err(),
        "--function is required; this module has: f, g"
    );
    assert_eq!(pick_function(&vec![], None).unwrap_err(), "this module defines no functions");
}

#[test]
fn a_plan_prints_its_batches() {
    let plan = compile_and_schedule(GOOD, "f").unwrap();
    let mut out = String::new();
    push_plan(&plan.plan, "", &mut out);
    assert_eq!(
        out,
        "batch 0\n  tool.call \"fetch\"  →  runtime.tool_call(tool = \"fetch\")\n\
         batch 1\n  agent.return  →  runtime.return\n"
    );
}

#[test]
fn a_signature_describes_itself() {
    let registry = Registry::v0_1();
    let text = describe_signature(registry.get(&OpName::new("control", "if")).unwrap());
    assert_eq!(
        text,
        "  if                       Executes its region when the operand holds.\n  \
         \u{20}                        operands: exactly 1, results: any number of, effects: pure\n"
    );
}

#[test]
fn a_program_can_be_built_by_hand() {
    let mut module = Module::new("built");
    let mut builder = Builder::new(&mut module);
    let (func, entry, params) =
        builder.func("f", vec![("url".to_string(), Type::Str)]);
    builder.set_insertion_point(entry);
    let (_, page) = builder
        .op("tool.call")
        .literal("fetch")
        .operand(params[0])
        .result("page", Type::Str)
        .attr("retries", Attribute::from(3i64))
        .effect(Effect::read("web"))
        .build_pair();
    let looping = builder.op("control.loop").operand(page).build();
    let (_, body, items) =
        builder.region(looping, vec![("item".to_string(), Type::Str)]);
    builder.set_insertion_point(body);
    builder.op("agent.reject").operands(items).build();
    builder.set_insertion_point(entry);
    builder.op("agent.return").operand(page).build();
    assert_eq!(builder.insertion_point(), entry);
    assert_eq!(builder.module().function("f"), Some(func));
    let text = print_module(&module);
    assert_eq!(
        text,
        "module @built version(0) {\n  agent.func \"f\" {\n  ^bb0(%url: !core.string):\n    \
         %page = tool.call \"fetch\"(%url) {effect = #read_external<web>, retries = 3} : \
         !core.string\n    control.loop(%page) {\n    ^bb0(%item: !core.string):\n      \
         agent.reject(%item) {effect = #pure}\n    } {effect = #pure}\n    \
         agent.return(%page) {effect = #pure}\n  } {effect = #pure}\n}\n"
    );
    assert_eq!(print_module(&parse_module(&text).unwrap()), text);
}

#[test]
fn every_planned_effect_is_covered_by_a_capability() {
    let source = r#"module @m version(0) {
  capability @bench scope("bench") grants(read_external)
  capability @db scope("db") grants(write_external)

  agent.func "f" {
  ^bb0(%items: !tool.ref<items>):
    control.loop(%items) {
    ^bb0(%item: !tool.ref<item>):
      %r = tool.call "benchmark"(%item) {effect = #read_external<bench>} : !tool.result<r>
      tool.call "record_result"(%item, %r) {effect = #write_external<db>}
    } {effect = #pure, max_iterations = 8}
    agent.return {effect = #pure}
  } {effect = #pure}
}
"#;
    let plan = compile_and_schedule(source, "f").unwrap();
    let module = parse_module(source).unwrap();
    let steps = plan.plan.steps();
    assert_eq!(steps.len(), 4);
    assert_eq!(steps.iter().filter(|s| !s.effect.is_pure()).count(), 2);
    for step in steps {
        assert!(
            step.effect.is_pure() || module.capabilities.covering(&step.effect).is_some(),
            "{}",
            step.name
        );
    }
}

#[test]
fn a_capability_that_awaits_approval_stops_the_pipeline() {
    let source = r#"module @m version(0) {
  capability @db scope("db") grants(write_external) requires_approval

  agent.func "f" {
  ^bb0(%row: !tool.ref<db>):
    tool.call "record_result"(%row) {effect = #write_external<db>}
    agent.return {effect = #pure}
  } {effect = #pure}
}
"#;
    let error = compile_and_schedule(source, "f").unwrap_err();
    let report = error.diagnostics();
    assert!(report.errors().iter().any(|d| d.code == "C2"), "{}", report.to_string());
}
