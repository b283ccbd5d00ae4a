//! Effects and capabilities.

use agent_ir::capability::{Capability, CapabilitySet};
use agent_ir::effect::{Effect, EffectClass, Scope};

fn delete_db() -> Capability {
    Capability::new("delete_database", Scope::named("db"), vec![EffectClass::Irreversible])
}

#[test]
fn a_capability_covers_only_the_class_it_grants() {
    let cap = delete_db();
    assert!(cap.covers(&Effect::irreversible("db")));
    assert!(!cap.covers(&Effect::write("db")));
}

#[test]
fn a_capability_does_not_cover_another_scope() {
    let cap = delete_db();
    assert!(!cap.covers(&Effect::irreversible("cache")));
}

#[test]
fn an_unknown_effect_scope_is_not_satisfied_by_a_narrow_capability() {
    let cap = delete_db();
    assert!(!cap.covers(&Effect::Irreversible(Scope::any())));
}

#[test]
fn approval_gates_authorization() {
    let mut set = CapabilitySet::empty();
    set.grant(delete_db().requiring_approval());
    let effect = Effect::irreversible("db");
    assert!(!set.authorizes("delete_database", &effect));
    set.approve("delete_database");
    assert!(set.authorizes("delete_database", &effect));
}

#[test]
fn an_empty_set_authorizes_nothing() {
    let set = CapabilitySet::empty();
    assert!(set.covering(&Effect::irreversible("db")).is_none());
}

#[test]
fn unknown_scope_overlaps_everything() {
    assert!(Scope::any().overlaps(&Scope::named("db")));
    assert!(Scope::named("db").overlaps(&Scope::any()));
    assert!(!Scope::named("db").overlaps(&Scope::named("cache")));
}

#[test]
fn reads_never_conflict_with_reads() {
    let a = Effect::read("db");
    let b = Effect::read("db");
    assert!(!a.conflicts_with(&b));
}

#[test]
fn a_write_conflicts_with_any_touch_of_the_same_scope() {
    let write = Effect::write("db");
    assert!(write.conflicts_with(&Effect::read("db")));
    assert!(write.conflicts_with(&Effect::write("db")));
    assert!(write.conflicts_with(&Effect::irreversible("db")));
    assert!(!write.conflicts_with(&Effect::read("cache")));
    assert!(!write.conflicts_with(&Effect::Pure));
    assert!(!write.conflicts_with(&Effect::Stochastic));
}

#[test]
fn an_unscoped_write_conflicts_with_every_scoped_effect() {
    let write = Effect::WriteExternal(Scope::any());
    assert!(write.conflicts_with(&Effect::read("db")));
    assert!(write.conflicts_with(&Effect::read("cache")));
}

#[test]
fn only_pure_and_read_are_replayable() {
    assert!(Effect::Pure.is_replayable());
    assert!(Effect::read("web").is_replayable());
    assert!(!Effect::write("db").is_replayable());
    assert!(!Effect::irreversible("db").is_replayable());
    assert!(!Effect::Stochastic.is_replayable());
}

#[test]
fn effects_round_trip_through_display() {
    assert_eq!(Effect::Pure.to_string(), "#pure");
    assert_eq!(Effect::read("web").to_string(), "#read_external<web>");
    assert_eq!(Effect::WriteExternal(Scope::any()).to_string(), "#write_external");
    assert_eq!(Effect::irreversible("db").to_string(), "#irreversible<db>");
    assert_eq!(Effect::Stochastic.to_string(), "#stochastic");
}

#[test]
fn conflicts_are_symmetric() {
    let all = [
        Effect::Pure,
        Effect::read("db"),
        Effect::write("db"),
        Effect::irreversible("cache"),
        Effect::WriteExternal(Scope::any()),
        Effect::Stochastic,
    ];
    for a in &all {
        for b in &all {
            assert_eq!(a.conflicts_with(b), b.conflicts_with(a));
        }
    }
}

#[test]
fn a_grant_replaces_only_its_own_name() {
    let mut set = CapabilitySet::empty();
    set.grant(Capability::new("b", Scope::named("db"), vec![EffectClass::WriteExternal]));
    set.grant(Capability::new("a", Scope::any(), vec![EffectClass::ReadExternal]));
    set.grant(Capability::new("c", Scope::any(), vec![EffectClass::Stochastic]));
    set.approve("c");
    set.grant(Capability::new("b", Scope::any(), vec![EffectClass::Irreversible]));
    let names: Vec<&str> = set.iter().iter().map(|c| c.name.as_str()).collect();
    assert_eq!(names, vec!["a", "b", "c"]);
    assert!(set.get("b").unwrap().covers(&Effect::irreversible("db")));
    assert!(!set.get("b").unwrap().covers(&Effect::write("db")));
    assert!(set.get("a").unwrap().covers(&Effect::read("web")));
    assert!(set.is_approved("c"));
    assert!(!set.is_approved("b"));
    assert!(set.get("d").is_none());
}
