//! Effect summaries.

use agent_ir::effects::EffectSummary;
use agent_ir::effect::Effect;
use agent_ir::ids::OperationId;
use agent_ir::module::Module;
use agent_ir::parser::parse_module;

const PROGRAM: &str = r#"
module @m version(0) {
  agent.func "f" {
  ^bb0(%input: !tool.ref<db>):
    %pure = agent.action "compute"(%input) {effect = #pure} : !core.int
    control.loop(%input) {
    ^bb0(%item: !tool.ref<db>):
      tool.call "delete_row"(%item) {effect = #irreversible<db>}
    } {effect = #pure, max_iterations = 4}
    %read = tool.call "fetch_row"(%input) {effect = #read_external<db>} : !tool.result<row>
    %other = tool.call "fetch_cache"(%input) {effect = #read_external<cache>} : !tool.result<row>
  } {effect = #pure}
}
"#;

fn op_with_literal(module: &Module, literal: &str) -> OperationId {
    let mut found = None;
    for op in module.walk() {
        if op.literal.as_deref() == Some(literal) {
            found = Some(op.id);
        }
    }
    found.unwrap_or_else(|| panic!("no operation `{literal}`"))
}

fn loop_op(module: &Module) -> OperationId {
    let mut found = None;
    for op in module.walk() {
        if op.name.is("control", "loop") {
            found = Some(op.id);
        }
    }
    found.unwrap()
}

#[test]
fn a_pure_loop_over_an_irreversible_body_is_not_pure() {
    let module = parse_module(PROGRAM).unwrap();
    let summary = EffectSummary::build(&module);
    let looping = loop_op(&module);
    assert!(module.op(looping).effect.same(&Effect::Pure));
    assert!(!summary.is_pure(looping), "the declaration hid the body");
    assert!(summary.is_irreversible(looping));
    assert!(!summary.is_replayable(looping));
}

#[test]
fn a_pure_action_stays_pure() {
    let module = parse_module(PROGRAM).unwrap();
    let summary = EffectSummary::build(&module);
    let compute = op_with_literal(&module, "compute");
    assert!(summary.is_pure(compute));
    assert!(summary.is_replayable(compute));
    assert!(summary.capability_demanding(compute).is_empty());
}

#[test]
fn a_read_conflicts_with_an_irreversible_write_on_the_same_scope() {
    let module = parse_module(PROGRAM).unwrap();
    let summary = EffectSummary::build(&module);
    let looping = loop_op(&module);
    let read = op_with_literal(&module, "fetch_row");
    assert!(summary.conflict(looping, read));
}

#[test]
fn two_reads_never_conflict() {
    let module = parse_module(PROGRAM).unwrap();
    let summary = EffectSummary::build(&module);
    let db = op_with_literal(&module, "fetch_row");
    let cache = op_with_literal(&module, "fetch_cache");
    assert!(!summary.conflict(db, cache));
}

#[test]
fn the_function_summary_reaches_the_whole_body() {
    let module = parse_module(PROGRAM).unwrap();
    let summary = EffectSummary::build(&module);
    let func = module.function("f").unwrap();
    assert!(summary.is_irreversible(func));
    assert!(summary.writes(func));
    assert_eq!(summary.capability_demanding(func).len(), 3);
}
