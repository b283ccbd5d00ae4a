//! Costs, budgets and lowering.

use agent_ir::cost::{Budget, Cost, Overrun};
use agent_ir::parser::parse_module;
use agent_ir::plan::{Backend, Builtin, GenericRuntime, MemoryOp, RuntimeTarget};

#[test]
fn sequential_latency_adds_and_parallel_latency_maxes() {
    let a = Cost::tool_call(300);
    let b = Cost::tool_call(500);
    assert_eq!(a.followed_by(b).latency_ms, 800);
    assert_eq!(a.alongside(b).latency_ms, 500);
    // The work itself is the same either way.
    assert_eq!(a.followed_by(b).tool_calls, 2);
    assert_eq!(a.alongside(b).tool_calls, 2);
}

#[test]
fn an_unlimited_budget_admits_everything() {
    let budget = Budget::unlimited();
    assert!(budget.is_unlimited());
    assert!(budget.admits(&Cost::llm_call(1_000_000, 1_000_000, 999_999)));
}

#[test]
fn each_constraint_reports_itself() {
    let budget = Budget {
        token_budget: Some(100),
        latency_budget_ms: Some(1000),
        llm_call_budget: Some(1),
        tool_call_budget: Some(2),
    };
    assert_eq!(budget.overrun(&Cost::llm_call(200, 0, 0)), Some(Overrun::Tokens));
    assert_eq!(budget.overrun(&Cost::tool_call(2000)), Some(Overrun::Latency));
    assert_eq!(
        budget.overrun(&Cost::llm_call(1, 1, 1).followed_by(Cost::llm_call(1, 1, 1))),
        Some(Overrun::LlmCalls)
    );
    assert_eq!(
        budget.overrun(
            &Cost::tool_call(1).followed_by(Cost::tool_call(1)).followed_by(Cost::tool_call(1))
        ),
        Some(Overrun::ToolCalls)
    );
    assert!(budget.admits(&Cost::tool_call(10)));
}

#[test]
fn a_cost_stops_at_the_largest_count() {
    let huge = Cost { tool_calls: u64::MAX, ..Cost::zero() };
    assert_eq!(huge.followed_by(Cost::tool_call(1)).tool_calls, u64::MAX);
    assert_eq!(Cost::tool_call(250).repeated(40).tool_calls, 40);
    assert_eq!(Cost::tool_call(250).repeated(40).latency_ms, 10_000);
    assert_eq!(Cost::llm_call(3, 4, 5).total_tokens(), 7);
}

fn lower_literal(source: &str, literal: &str) -> RuntimeTarget {
    let module = parse_module(source).unwrap();
    let mut found = None;
    for op in module.walk() {
        if op.literal.as_deref() == Some(literal) {
            found = Some(op.id);
        }
    }
    GenericRuntime
        .lower(&module, found.expect("operation not found"))
        .expect("should lower")
}

const PROGRAM: &str = r#"module @m version(0) {
  capability @llm scope(*) grants(stochastic)
  capability @web scope("web") grants(read_external)

  agent.func "f" {
  ^bb0(%url: !core.string):
    %page = agent.action "search"(%url) {effect = #read_external<web>} : !tool.result<page>
    %idea = agent.action "run_model"(%url) {effect = #stochastic, model = "vllm-7b"} : !core.string
    %ok = core.cmp "eq"(%url, %idea) {effect = #pure} : !core.bool
    agent.return(%page) {effect = #pure}
  } {effect = #pure}
}
"#;

#[test]
fn an_external_action_lowers_to_a_tool_call() {
    assert_eq!(
        lower_literal(PROGRAM, "search"),
        RuntimeTarget::ToolCall { tool: "search".into() }
    );
}

#[test]
fn a_stochastic_action_lowers_to_inference() {
    assert_eq!(
        lower_literal(PROGRAM, "run_model"),
        RuntimeTarget::Inference { model: "vllm-7b".into(), backend: "generic".into() }
    );
}

#[test]
fn a_pure_computation_stays_inside_the_runtime() {
    assert_eq!(
        lower_literal(PROGRAM, "eq"),
        RuntimeTarget::Builtin(Builtin::Compare)
    );
}

#[test]
fn memory_lowers_with_its_key() {
    let module = parse_module(
        r#"module @m version(0) {
  capability @mem scope("mem") grants(read_external)

  agent.func "f" {
    %v = memory.read {effect = #read_external<mem>, key = "last_run"} : !memory.memory
    agent.return(%v) {effect = #pure}
  } {effect = #pure}
}
"#,
    )
    .unwrap();
    let read = module
        .op_ids()
        .into_iter()
        .find(|&id| module.op(id).name.is("memory", "read"))
        .unwrap();
    assert_eq!(
        GenericRuntime.lower(&module, read).unwrap(),
        RuntimeTarget::Memory { operation: MemoryOp::Read, key: Some("last_run".into()) }
    );
}

#[test]
fn an_unlowerable_operation_reports_rather_than_panics() {
    let module = parse_module(
        r#"module @m version(0) {
  agent.func "f" {
    agent.return {effect = #pure}
  } {effect = #pure}
}
"#,
    )
    .unwrap();
    let func = module.function("f").unwrap();
    let error = GenericRuntime.lower(&module, func).unwrap_err();
    assert_eq!(error.code, "lowering");
    assert!(error.suggestion.is_some());
}

#[test]
fn a_target_prints_the_section_6_4_form() {
    assert_eq!(
        RuntimeTarget::ToolCall { tool: "web_search".into() }.to_string(),
        "runtime.tool_call(tool = \"web_search\")"
    );
    assert_eq!(
        RuntimeTarget::Inference { model: "m".into(), backend: "vllm".into() }.to_string(),
        "runtime.inference(model = \"m\", backend = \"vllm\")"
    );
}
