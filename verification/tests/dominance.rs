//! Which definitions reach which uses.

use agent_ir::dominance::{dominates, enclosing_chain};
use agent_ir::ids::{OperationId, ValueId};
use agent_ir::module::Module;
use agent_ir::parser::parse_module;

fn module_of(source: &str) -> Module {
    parse_module(source).expect("test program should parse")
}

fn value(module: &Module, name: &str) -> ValueId {
    module
        .all_values()
        .iter()
        .find(|v| v.name.as_deref() == Some(name))
        .unwrap_or_else(|| panic!("no value named `{name}`"))
        .id
}

fn op_with_literal(module: &Module, literal: &str) -> OperationId {
    let mut found = None;
    for op in module.walk() {
        if op.literal.as_deref() == Some(literal) {
            found = Some(op.id);
        }
    }
    found.unwrap_or_else(|| panic!("no operation `{literal}`"))
}

const NESTED: &str = r#"
module @m version(0) {
  agent.func "f" {
  ^bb0(%input: !tool.ref<x>):
    %outer = agent.action "make"(%input) {effect = #pure} : !core.int
    control.loop(%input) {
    ^bb0(%item: !tool.ref<x>):
      %inner = agent.action "use"(%outer, %item) {effect = #pure} : !core.int
    } {effect = #pure, max_iterations = 4}
    %after = agent.action "later"(%outer) {effect = #pure} : !core.int
  } {effect = #pure}
}
"#;

#[test]
fn an_outer_definition_dominates_a_nested_use() {
    let module = module_of(NESTED);
    let outer = value(&module, "outer");
    let inner_use = op_with_literal(&module, "use");
    assert!(dominates(&module, outer, inner_use));
}

#[test]
fn a_block_argument_dominates_its_own_region() {
    let module = module_of(NESTED);
    let item = value(&module, "item");
    let inner_use = op_with_literal(&module, "use");
    assert!(dominates(&module, item, inner_use));
}

#[test]
fn a_nested_definition_does_not_dominate_an_outer_use() {
    let module = module_of(NESTED);
    let inner = value(&module, "inner");
    let later = op_with_literal(&module, "later");
    assert!(!dominates(&module, inner, later));
}

#[test]
fn a_later_definition_does_not_dominate_an_earlier_use() {
    let module = module_of(NESTED);
    let after = value(&module, "after");
    let make = op_with_literal(&module, "make");
    assert!(!dominates(&module, after, make));
}

#[test]
fn the_chain_reaches_the_module_body() {
    let module = module_of(NESTED);
    let inner_use = op_with_literal(&module, "use");
    let chain = enclosing_chain(&module, inner_use);
    // loop body block, function entry block, module body block.
    assert_eq!(chain.len(), 3);
    assert_eq!(chain.last().unwrap().block, module.body_block());
}

#[test]
fn a_result_never_dominates_its_own_producer() {
    let module = module_of(NESTED);
    let outer = value(&module, "outer");
    let make = op_with_literal(&module, "make");
    assert!(!dominates(&module, outer, make));
}
