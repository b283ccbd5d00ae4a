//! Small pieces: attributes, diagnostics, provenance, names and the like.

use agent_ir::attribute::{Attribute, Attributes};
use agent_ir::builder::Builder;
use agent_ir::compile::compile_and_schedule;
use agent_ir::cost::{Budget, Overrun};
use agent_ir::dead_action::DeadActionElimination;
use agent_ir::dedup::ToolCallDeduplication;
use agent_ir::diagnostic::{Diagnostic, Diagnostics};
use agent_ir::effect::{Effect, Scope};
use agent_ir::effects::EffectSummary;
use agent_ir::lexer::Span;
use agent_ir::manager::PipelineReport;
use agent_ir::module::{Module, OpName};
use agent_ir::number::Number;
use agent_ir::parser::parse_module;
use agent_ir::pass::{Pass, PassReport};
use agent_ir::plan::{Backend, Builtin, ExecutionPlan, GenericRuntime, Plan};
use agent_ir::printer::{print_attribute, print_module, print_operation};
use agent_ir::provenance::{Provenance, Source, Validity};
use agent_ir::scheduler::{flatten, is_builtin, is_external, overrun_of};
use agent_ir::types::Type;

#[test]
fn attributes_are_read_by_kind() {
    let mut entries = Attributes::new();
    entries.insert("k".to_string(), Attribute::Int(1));
    let dict = Attribute::Dict(entries);
    let array = Attribute::Array(vec![Attribute::Bool(true), Attribute::Str("a\"b".into())]);
    assert_eq!(dict.as_dict().unwrap().len(), 1);
    assert!(dict.as_array().is_none());
    assert_eq!(array.as_array().unwrap().len(), 2);
    assert!(array.as_dict().is_none());
    assert_eq!(print_attribute(&dict), "{k = 1}");
    assert_eq!(print_attribute(&array), "[true, \"a\\\"b\"]");
}

#[test]
fn a_report_with_an_error_is_a_failure() {
    let note = || Diagnostic::note("n", "fine".to_string());
    let good = Diagnostics::from_entries(vec![note()]);
    assert_eq!(good.into_result().unwrap().len(), 1);
    let bad = Diagnostics::from_entries(vec![note(), Diagnostic::error("e", "no".to_string())]);
    assert_eq!(bad.into_result().unwrap_err().errors().len(), 1);
}

#[test]
fn only_replayable_effects_may_be_speculated() {
    assert!(Effect::Pure.is_speculatable());
    assert!(Effect::read("web").is_speculatable());
    assert!(!Effect::write("db").is_speculatable());
    assert!(!Effect::Irreversible(Scope::any()).is_speculatable());
    assert!(!Effect::Stochastic.is_speculatable());
}

#[test]
fn a_summary_knows_what_is_nested() {
    let module = parse_module(
        r#"module @m version(0) {
  agent.func "f" {
    %g = agent.action "guess" {effect = #stochastic} : !core.string
    agent.return(%g) {effect = #pure}
  } {effect = #pure}
}
"#,
    )
    .unwrap();
    let effects = EffectSummary::build(&module);
    let order = module.op_ids();
    assert_eq!(order.len(), 3);
    assert!(effects.is_stochastic(order[0]), "the function holds a guess");
    assert!(effects.is_stochastic(order[1]));
    assert!(!effects.is_stochastic(order[2]));
    assert_eq!(module.all_ops().len(), 3);
    assert_eq!(
        print_operation(&module, order[1]),
        "%g = agent.action \"guess\" {effect = #stochastic} : !core.string"
    );
}

#[test]
fn a_name_belongs_to_its_dialect() {
    let name = OpName::new("tool", "call");
    assert!(name.in_dialect("tool"));
    assert!(!name.in_dialect("call"));
}

#[test]
fn provenance_says_where_a_value_came_from() {
    let guess = Provenance::from_llm(Number::new(false, 5, -1));
    assert_eq!(guess.source, Source::Llm);
    assert!(guess.needs_verification(Number::new(false, 8, -1)));
    assert!(!guess.needs_verification(Number::new(false, 5, -1)));
    assert!(guess.is_usable());
    assert!(!Provenance { validity: Validity::Stale, ..guess }.is_usable());
    assert!(!Provenance::from_tool().needs_verification(Number::one()));
    assert_eq!(Provenance::from_user().source, Source::User);
}

#[test]
fn a_builder_can_start_in_any_block() {
    let mut module = Module::new("m");
    let block = module.body_block();
    let mut builder = Builder::at_block(&mut module, block);
    let x = builder.op("core.constant").result("x", Type::Int).build_one();
    let op = module.value(x).producer().unwrap();
    module.op_mut(op).set_attr("value", Attribute::Int(7));
    assert_eq!(module.op(op).int_attr("value"), Some(7));
    assert_eq!(
        print_module(&module),
        "module @m version(0) {\n  %x = core.constant {effect = #pure, value = 7} : !core.int\n}\n"
    );
}

#[test]
fn steps_say_what_runs_them() {
    let plan = compile_and_schedule(
        r#"module @m version(0) {
  capability @web scope("web") grants(read_external)

  agent.func "f" {
  ^bb0(%url: !core.string):
    %page = tool.call "fetch"(%url) {effect = #read_external<web>} : !core.string
    agent.return(%page) {effect = #pure}
  } {effect = #pure}
}
"#,
        "f",
    )
    .unwrap();
    let steps = flatten(&plan);
    assert!(is_external(steps[0]));
    assert!(!is_builtin(steps[0], Builtin::Return));
    assert!(!is_external(steps[1]));
    assert!(is_builtin(steps[1], Builtin::Return));
    let open = Budget::unlimited();
    assert!(overrun_of(&plan, &open).is_none());
    let none = Budget { tool_call_budget: Some(0), ..open };
    assert!(matches!(overrun_of(&plan, &none), Some(Overrun::ToolCalls)));
}

#[test]
fn defaults_are_empty() {
    assert!(Diagnostics::default().is_empty());
    assert!(Plan::default().batches.is_empty());
    assert_eq!(Span::default(), Span { line: 0, column: 0 });
    let pass = PassReport::default();
    assert!(!pass.changed && pass.pass.is_empty() && pass.notes.is_empty());
    let pipeline = PipelineReport::default();
    assert_eq!((pipeline.rounds, pipeline.changed, pipeline.hit_iteration_cap), (0, false, false));
    let module = parse_module("module @m version(0) {\n  core.constant {effect = #write_external<db>, value = 1}\n}\n").unwrap();
    assert!(EffectSummary::default().of(module.op_ids()[0]).is_empty());
    assert_eq!(GenericRuntime::default().name(), "generic");
    assert_eq!(ToolCallDeduplication::default().name(), "tool-call-deduplication");
    assert_eq!(DeadActionElimination::default().name(), "dead-action-elimination");
}

#[test]
fn plans_and_modules_can_be_copied() {
    let source = r#"module @m version(0) {
  agent.func "f" {
  ^bb0(%items: !tool.ref<items>):
    control.loop(%items) {
    ^bb0(%item: !tool.ref<item>):
      agent.action "left"(%item) {effect = #pure}
    } {effect = #pure, max_iterations = 8}
    agent.return {effect = #pure}
  } {effect = #pure}
}
"#;
    let plan = compile_and_schedule(source, "f").unwrap();
    let names = |plan: &ExecutionPlan| -> Vec<String> {
        flatten(plan).iter().map(|step| step.name.clone()).collect()
    };
    assert_eq!(names(&plan).len(), 3);
    assert_eq!(plan.clone(), plan);
    let module = parse_module(source).unwrap();
    assert_eq!(module.clone(), module);
}
