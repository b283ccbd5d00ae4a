//! Who reads a value.

use agent_ir::ids::ValueId;
use agent_ir::module::Module;
use agent_ir::parser::parse_module;
use agent_ir::uses::UseMap;

const PROGRAM: &str = r#"
module @m version(0) {
  agent.func "f" {
  ^bb0(%input: !tool.ref<x>):
    %used = agent.action "a"(%input) {effect = #pure} : !core.int
    %unused = agent.action "b"(%input) {effect = #pure} : !core.int
    %twice = agent.action "c"(%used, %used) {effect = #pure} : !core.int
    agent.return(%twice) {effect = #pure}
  } {effect = #pure}
}
"#;

fn value(module: &Module, name: &str) -> ValueId {
    module
        .all_values()
        .iter()
        .find(|v| v.name.as_deref() == Some(name))
        .unwrap_or_else(|| panic!("no value named `{name}`"))
        .id
}

#[test]
fn counts_every_operand_slot() {
    let module = parse_module(PROGRAM).unwrap();
    let map = UseMap::build(&module);
    assert_eq!(map.use_count(value(&module, "used")), 2);
    assert_eq!(map.readers(value(&module, "used")).len(), 1);
}

#[test]
fn an_unread_result_is_unused() {
    let module = parse_module(PROGRAM).unwrap();
    let map = UseMap::build(&module);
    assert!(!map.is_used(value(&module, "unused")));
    assert!(map.is_used(value(&module, "twice")));
}

#[test]
fn a_block_argument_read_three_times_is_tracked() {
    let module = parse_module(PROGRAM).unwrap();
    let map = UseMap::build(&module);
    assert_eq!(map.use_count(value(&module, "input")), 2);
}

#[test]
fn a_reader_is_listed_once_however_often_it_reads() {
    let module = parse_module(
        r#"module @m version(0) {
  agent.func "f" {
  ^bb0(%x: !core.int):
    agent.action "a"(%x, %x) {effect = #pure}
    control.loop(%x) {
    ^bb0(%i: !core.int):
      agent.action "b"(%i, %x) {effect = #pure}
    } {effect = #pure, max_iterations = 2}
    agent.return(%x) {effect = #pure}
  } {effect = #pure}
}
"#,
    )
    .unwrap();
    let map = UseMap::build(&module);
    let x = value(&module, "x");
    let readers = map.readers(x);
    let order = module.op_ids();
    assert_eq!(readers, vec![order[1], order[2], order[3], order[4]]);
    assert_eq!(map.use_count(x), 5);
    let i = value(&module, "i");
    assert_eq!(map.readers(i), vec![order[3]]);
    assert_eq!(map.use_count(i), 1);
}
