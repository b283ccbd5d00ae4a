//! Dependencies between the operations of a block.

use agent_ir::dependency::{DependencyGraph, Reason};
use agent_ir::effects::EffectSummary;
use agent_ir::ids::OperationId;
use agent_ir::module::Module;
use agent_ir::parser::parse_module;

fn graph_of(source: &str) -> (Module, DependencyGraph) {
    let module = parse_module(source).unwrap();
    let func = module.function("f").unwrap();
    let region = module.op(func).regions[0];
    let block = module.region(region).blocks[0];
    let effects = EffectSummary::build(&module);
    let graph = DependencyGraph::of_block(&module, block, &effects);
    (module, graph)
}

fn op_with_literal(module: &Module, literal: &str) -> OperationId {
    let mut found = None;
    for op in module.walk() {
        if op.literal.as_deref() == Some(literal) {
            found = Some(op.id);
        }
    }
    found.unwrap_or_else(|| panic!("no operation `{literal}`"))
}

const INDEPENDENT: &str = r#"
module @m version(0) {
  agent.func "f" {
  ^bb0(%a: !tool.ref<x>, %b: !tool.ref<y>, %c: !tool.ref<z>):
    %ia = agent.action "inspect_model"(%a) {effect = #pure} : !core.int
    %ib = agent.action "inspect_hardware"(%b) {effect = #pure} : !core.int
    %ic = agent.action "inspect_dataset"(%c) {effect = #pure} : !core.int
    %p = agent.action "profile"(%ia, %ib, %ic) {effect = #read_external<host>} : !core.int
    agent.return(%p) {effect = #pure}
  } {effect = #pure}
}
"#;

const CONFLICTING: &str = r#"
module @m version(0) {
  agent.func "f" {
  ^bb0(%row: !tool.ref<db>):
    tool.call "write_row"(%row) {effect = #write_external<db>}
    %r = tool.call "read_row"(%row) {effect = #read_external<db>} : !tool.result<row>
    %elsewhere = tool.call "read_cache"(%row) {effect = #read_external<cache>} : !tool.result<row>
    agent.return(%r) {effect = #pure}
  } {effect = #pure}
}
"#;

const NESTED_EFFECT: &str = r#"
module @m version(0) {
  agent.func "f" {
  ^bb0(%row: !tool.ref<db>):
    control.loop(%row) {
    ^bb0(%item: !tool.ref<db>):
      tool.call "delete_row"(%item) {effect = #irreversible<db>}
    } {effect = #pure, max_iterations = 4}
    %r = tool.call "read_row"(%row) {effect = #read_external<db>} : !tool.result<row>
    agent.return(%r) {effect = #pure}
  } {effect = #pure}
}
"#;

#[test]
fn independent_pure_actions_have_no_edges_between_them() {
    let (module, graph) = graph_of(INDEPENDENT);
    let a = op_with_literal(&module, "inspect_model");
    let b = op_with_literal(&module, "inspect_hardware");
    assert!(graph.reason(a, b).is_none());
    assert!(!graph.depends_on(b, a));
}

#[test]
fn a_consumer_depends_on_all_three_producers() {
    let (module, graph) = graph_of(INDEPENDENT);
    let profile = op_with_literal(&module, "profile");
    for literal in ["inspect_model", "inspect_hardware", "inspect_dataset"] {
        let producer = op_with_literal(&module, literal);
        assert_eq!(graph.reason(producer, profile), Some(Reason::Data), "{literal}");
    }
}

#[test]
fn the_three_inspections_land_in_one_level() {
    let (_, graph) = graph_of(INDEPENDENT);
    let levels = graph.levels();
    assert_eq!(levels[0].len(), 3, "the inspections should batch together");
    assert_eq!(levels[1].len(), 1, "profile depends on all three");
    assert_eq!(levels[2].len(), 1, "return depends on profile");
    assert!(!graph.is_fully_sequential());
}

#[test]
fn a_write_orders_a_later_read_of_the_same_scope() {
    let (module, graph) = graph_of(CONFLICTING);
    let write = op_with_literal(&module, "write_row");
    let read = op_with_literal(&module, "read_row");
    assert_eq!(graph.reason(write, read), Some(Reason::Effect));
}

#[test]
fn a_write_leaves_another_scope_free_to_move() {
    let (module, graph) = graph_of(CONFLICTING);
    let write = op_with_literal(&module, "write_row");
    let cache = op_with_literal(&module, "read_cache");
    assert!(graph.reason(write, cache).is_none());
}

#[test]
fn an_effect_hidden_in_a_region_still_orders_the_block() {
    let (module, graph) = graph_of(NESTED_EFFECT);
    let looping = graph.operations()[0];
    assert!(module.op(looping).name.is("control", "loop"));
    let read = op_with_literal(&module, "read_row");
    assert_eq!(graph.reason(looping, read), Some(Reason::Effect));
    assert!(graph.is_fully_sequential());
}

#[test]
fn levels_hold_every_operation_once_in_order() {
    let (_, graph) = graph_of(INDEPENDENT);
    let flat: Vec<OperationId> = graph.levels().into_iter().flatten().collect();
    assert_eq!(flat.len(), graph.operations().len());
    for op in graph.operations() {
        assert_eq!(flat.iter().filter(|o| *o == op).count(), 1);
    }
    for op in graph.operations() {
        for earlier in graph.predecessors(*op) {
            let a = graph.operations().iter().position(|o| *o == earlier);
            let b = graph.operations().iter().position(|o| o == op);
            assert!(a < b);
        }
    }
}

#[test]
fn a_read_of_a_nested_argument_is_a_data_dependency() {
    let (module, graph) = graph_of(
        r#"module @m version(0) {
  capability @db scope("db") grants(write_external)

  agent.func "f" {
  ^bb0(%x: !core.int):
    %a = agent.action "first"(%x) {effect = #write_external<db>} : !core.int
    control.loop(%x) {
    ^bb0(%i: !core.int):
      agent.action "inner"(%i, %a) {effect = #write_external<db>}
    } {effect = #pure, max_iterations = 2}
    agent.action "last"(%x) {effect = #pure}
  } {effect = #pure}
}
"#,
    );
    let first = op_with_literal(&module, "first");
    let last = op_with_literal(&module, "last");
    let inner = op_with_literal(&module, "inner");
    let looping = module.parent_op(inner).unwrap();
    assert_eq!(graph.reason(first, looping), Some(Reason::Both));
    assert_eq!(graph.reason(looping, first), None);
    assert_eq!(graph.reason(looping, last), None);
    assert_eq!(graph.reason(first, last), None);
}
