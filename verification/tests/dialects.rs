//! The dialects and their registry.

use agent_ir::dialects::{all_dialects, Arity, Registry};
use agent_ir::effect::EffectClass;
use agent_ir::module::OpName;

#[test]
fn the_registry_covers_every_dialect() {
    let registry = Registry::v0_1();
    for dialect in all_dialects() {
        assert!(
            registry.dialect(dialect).first().is_some(),
            "dialect `{dialect}` has no operations"
        );
    }
}

#[test]
fn a_tool_call_may_not_be_declared_stochastic() {
    let registry = Registry::v0_1();
    let call = registry.get(&OpName::new("tool", "call")).unwrap();
    assert!(!call.allowed_effects.contains(&EffectClass::Stochastic));
    assert!(call.allowed_effects.contains(&EffectClass::Irreversible));
}

#[test]
fn a_constant_may_only_be_pure() {
    let registry = Registry::v0_1();
    let constant = registry.get(&OpName::new("core", "constant")).unwrap();
    assert_eq!(constant.allowed_effects, vec![EffectClass::Pure]);
}

#[test]
fn a_loop_must_declare_its_iteration_bound() {
    let registry = Registry::v0_1();
    let looping = registry.get(&OpName::new("control", "loop")).unwrap();
    assert!(looping
        .required_attrs
        .iter()
        .any(|(name, _)| *name == "max_iterations"));
}

#[test]
fn arity_bounds_behave() {
    assert!(Arity::Exact(2).accepts(2));
    assert!(!Arity::Exact(2).accepts(3));
    assert!(Arity::AtLeast(1).accepts(9));
    assert!(!Arity::AtLeast(1).accepts(0));
    assert!(Arity::Between(1, 2).accepts(2));
    assert!(!Arity::Between(1, 2).accepts(3));
    assert!(Arity::Any.accepts(0));
}

#[test]
fn an_arity_describes_itself() {
    assert_eq!(Arity::Exact(2).describe(), "exactly 2");
    assert_eq!(Arity::AtLeast(1).describe(), "at least 1");
    assert_eq!(Arity::Between(1, 2).describe(), "between 1 and 2");
    assert_eq!(Arity::Any.describe(), "any number of");
}

#[test]
fn an_unknown_operation_has_no_signature() {
    let registry = Registry::v0_1();
    assert!(registry.get(&OpName::new("tool", "nope")).is_none());
    assert!(!registry.contains(&OpName::new("nope", "call")));
    assert_eq!(registry.len(), registry.iter().len());
    assert!(!registry.is_empty());
}
