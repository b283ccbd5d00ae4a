//! Reading a module and printing it back.

use agent_ir::compile::round_trip;
use agent_ir::number::Number;
use agent_ir::parser::parse_module;
use agent_ir::printer::print_module;
use agent_ir::provenance::{Source, Validity};

const PROGRAMS: [&str; 4] = [
    r#"module @m version(3) {
  capability @web scope("web") grants(read_external)
  capability @wipe scope("db") grants(irreversible) requires_approval

  agent.func "f" {
  ^bb0(%url: !core.string, %t: !core.tensor<2, 3, f32>):
    %page = tool.call "fetch"(%url) {effect = #read_external<web>, retries = 3} : !tool.result<page>
    %a, %b = agent.action "split"(%page) {effect = #pure} : (!core.int, !core.string)
    control.if(%a) {
      agent.reject(%b) {effect = #pure}
    } {
      agent.action "keep"(%b) {effect = #pure}
    } {effect = #pure}
    agent.return(%page) {effect = #pure}
  } {effect = #pure}
}
"#,
    r#"module @empty version(0) {
}
"#,
    r#"module @m version(0) {
  agent.func "f" {
    %x = core.constant {effect = #pure, list = [1, 2.5, "a\"b"], nested = {k = true, v = -7}, value = 1.5} : !core.float
    agent.return(%x) {effect = #pure}
  } {effect = #pure}
}
"#,
    r#"module @m version(0) {
  agent.func "f" {
    %g = agent.action "guess" {effect = #stochastic} : !core.string provenance(%g = llm confidence(0.25) stale)
    agent.return(%g) {effect = #pure}
  } {effect = #pure}
}
"#,
];

#[test]
fn printing_is_idempotent() {
    for source in PROGRAMS {
        let once = round_trip(source).unwrap();
        let twice = round_trip(&once).unwrap();
        assert_eq!(once, twice);
    }
}

#[test]
fn unnamed_and_reused_names_are_told_apart() {
    let source = r#"module @m version(0) {
      agent.func "f" {
        %x = core.constant {effect = #pure, value = 1} : !core.int
        %x = core.constant {effect = #pure, value = 2} : !core.int
        agent.return(%x) {effect = #pure}
      } {effect = #pure}
    }"#;
    let once = round_trip(source).unwrap();
    assert!(once.contains("%x = core.constant"));
    assert_eq!(round_trip(&once).unwrap(), once);
}

#[test]
fn whitespace_and_comments_do_not_matter() {
    let spread = "module @m // name\n version ( 2 )\n{ }\n// end\n";
    assert_eq!(round_trip(spread).unwrap(), "module @m version(2) {\n}\n");
}

#[test]
fn what_is_malformed_does_not_print() {
    assert!(round_trip("module @m version(0) { oops }").is_err());
    assert!(round_trip("").is_err());
    assert!(round_trip("module @m version(0) { } trailing").is_err());
}

#[test]
fn a_value_used_before_it_is_defined_is_rejected() {
    let err = parse_module(
        r#"
        module @bad version(0) {
          agent.func "f" {
            %x = core.cast(%y) {effect = #pure} : !core.int
          }
        }
        "#,
    )
    .unwrap_err();
    assert!(err.message.contains("before it is defined"), "{}", err.to_string());
    assert!(err.message.contains("I1"), "{}", err.to_string());
}

#[test]
fn an_operation_cannot_use_its_own_result() {
    let err = parse_module(
        r#"
        module @bad version(0) {
          agent.func "f" {
            %x = core.cast(%x) {effect = #pure} : !core.int
          }
        }
        "#,
    )
    .unwrap_err();
    assert!(err.message.contains("before it is defined"), "{}", err.to_string());
}

#[test]
fn a_value_does_not_escape_the_region_that_defines_it() {
    let err = parse_module(
        r#"
        module @bad version(0) {
          agent.func "f" {
            control.parallel {
              %inner = core.constant {effect = #pure, value = 1} : !core.int
            } {effect = #pure}
            agent.return(%inner) {effect = #pure}
          }
        }
        "#,
    )
    .unwrap_err();
    assert!(err.message.contains("before it is defined"), "{}", err.to_string());
}

#[test]
fn an_unknown_effect_is_rejected() {
    let err = parse_module(
        r#"
        module @bad version(0) {
          agent.func "f" {
            agent.return {effect = #teleport}
          }
        }
        "#,
    )
    .unwrap_err();
    assert!(err.message.contains("not one of the five effects"), "{}", err.to_string());
}

#[test]
fn an_unknown_type_is_rejected() {
    let err = parse_module(
        r#"
        module @bad version(0) {
          agent.func "f" {
            %x = core.constant {effect = #pure, value = 1} : !core.quantum
          }
        }
        "#,
    )
    .unwrap_err();
    assert!(err.message.contains("not a type of §2.1"), "{}", err.to_string());
}

#[test]
fn results_must_state_their_types() {
    let err = parse_module(
        r#"
        module @bad version(0) {
          agent.func "f" {
            %x = core.constant {effect = #pure, value = 1}
          }
        }
        "#,
    )
    .unwrap_err();
    assert!(err.message.contains("must state their types"), "{}", err.to_string());
}

#[test]
fn capabilities_survive_a_round_trip() {
    let source = r#"module @m version(3) {
  capability @wipe scope("db") grants(irreversible, write_external) requires_approval
  capability @world scope(*) grants(read_external)

  agent.func "f" {
    agent.return {effect = #pure}
  } {effect = #pure}
}
"#;
    let module = parse_module(source).unwrap();
    assert_eq!(module.version, 3);
    let wipe = module.capabilities.get("wipe").unwrap();
    assert!(wipe.requires_approval);
    assert_eq!(wipe.grants.len(), 2);
    assert!(module.capabilities.get("world").unwrap().scope.is_any());
    assert_eq!(print_module(&module), source);
}

#[test]
fn provenance_survives_a_round_trip() {
    let source = r#"module @m version(0) {
  agent.func "f" {
    %guess = agent.action "guess"(%guess_seed) {effect = #stochastic} : !core.string provenance(%guess = llm confidence(0.4) stale)
    agent.return(%guess) {effect = #pure}
  } {effect = #pure}
}
"#;
    // `%guess_seed` is undefined on purpose in the snippet above; build a valid
    // variant instead so the parse succeeds and the provenance clause is what
    // is under test.
    let source = source.replace("(%guess_seed)", "");
    let module = parse_module(&source).unwrap();
    let value = module
        .all_values()
        .iter()
        .find(|v| v.name.as_deref() == Some("guess"))
        .unwrap();
    assert_eq!(value.provenance.source, Source::Llm);
    assert_eq!(value.provenance.confidence, Number::new(false, 4, -1));
    assert_eq!(value.provenance.validity, Validity::Stale);
    assert_eq!(print_module(&module), source);
}

#[test]
fn labelled_blocks_and_nested_attributes_survive() {
    let source = r#"module @m {
      capability @b scope(*) grants(stochastic, read_external)
      capability @a scope("x\"y") grants(pure)
      agent.func "f" {
      ^entry(%p: !core.tensor<2, -1, f32>, %q: !tool.ref<model>):
        %p = agent.action "a"(%p, %q) {z = [1, -2, 0.5, [], {}], a = {effect = #write_external<db>, k = "\n"}, effect = #stochastic} : !observation.observation<o> provenance(%p = llm confidence(0.75))
        control.if(%p) {
          agent.reject(%p)
        } {
          agent.reject(%q)
        }
      ^done:
        agent.return(%p)
      }
    }"#;
    let once = round_trip(source).unwrap();
    assert!(once.starts_with("module @m version(0) {\n  capability @a scope(\"x\\\"y\") grants(pure)\n"));
    assert!(once.contains("%p_1 = agent.action \"a\"(%p, %q)"), "{once}");
    assert!(once.contains("^bb1:"), "{once}");
    assert!(once.contains("provenance(%p_1 = llm confidence(0.75))"), "{once}");
    assert_eq!(round_trip(&once).unwrap(), once);
}

#[test]
fn an_empty_region_survives_a_round_trip() {
    let source = "module @m version(0) {\n  agent.func \"f\" {\n  ^entry:\n  }\n}\n";
    let once = round_trip(source).unwrap();
    assert_eq!(
        once,
        "module @m version(0) {\n  agent.func \"f\" {\n  ^bb0:\n  } {effect = #pure}\n}\n"
    );
    assert_eq!(round_trip(&once).unwrap(), once);
    let nested = r#"module @m version(0) {
  agent.func "f" {
    %c = core.constant {effect = #pure, value = true} : !core.bool
    control.if(%c) { ^bb0: } { agent.reject(%c) } {effect = #pure}
  } {effect = #pure}
}
"#;
    let once = round_trip(nested).unwrap();
    assert_eq!(round_trip(&once).unwrap(), once);
    let module = parse_module(&once).unwrap();
    let branch = module.op_ids()[2];
    assert_eq!(module.op(branch).regions.len(), 2);
}

fn with_value(literal: &str) -> String {
    format!(
        "module @m version(0) {{\n  agent.func \"f\" {{\n    %x = core.constant \
         {{effect = #pure, value = {literal}}} : !core.float\n  }} {{effect = #pure}}\n}}\n"
    )
}

#[test]
fn every_float_reads_back_as_itself() {
    for (literal, printed) in [
        ("1e20", "100000000000000000000.0"),
        ("1e16", "10000000000000000.0"),
        ("2.0", "2.0"),
        ("-0.0", "-0.0"),
        ("123e18", "123000000000000000000.0"),
        ("9999999999999999999.0", "9999999999999999999.0"),
        ("0.001", "0.001"),
        ("1e400", "1e999"),
        ("-1e400", "-1e999"),
    ] {
        let once = round_trip(&with_value(literal)).unwrap();
        assert!(once.contains(&format!("value = {printed}}}")), "{once}");
        assert_eq!(round_trip(&once).unwrap(), once);
        let value = |text: &str| {
            let module = parse_module(text).unwrap();
            let op = module.op_ids()[1];
            module.op(op).attr("value").unwrap().to_string()
        };
        assert_eq!(value(&once), printed);
        let module = parse_module(&once).unwrap();
        let op = module.op_ids()[1];
        assert!(matches!(
            module.op(op).attr("value"),
            Some(agent_ir::attribute::Attribute::Float(_))
        ));
    }
    let large = round_trip(&with_value("1e308")).unwrap();
    assert_eq!(round_trip(&large).unwrap(), large);
    let small = round_trip(&with_value("5e-324")).unwrap();
    assert_eq!(round_trip(&small).unwrap(), small);
}

#[test]
fn a_large_float_is_no_integer() {
    let float = parse_module(&with_value("1e16")).unwrap();
    let int = parse_module(&with_value("10000000000000000")).unwrap();
    let key = |m: &agent_ir::module::Module| m.op(m.op_ids()[1]).cache_key();
    assert!(!key(&float).same(&key(&int)));
    assert!(key(&float).same(&key(&parse_module(&with_value("10000000000000000.0")).unwrap())));
}

#[test]
fn a_dialect_may_be_named_like_a_clause() {
    let source = r#"module @m version(0) {
  capability @b scope("x") grants(pure)
  capability @a scope("x") grants(pure) requires_approval

  requires_approval.x {effect = #pure}
  %y = agent.action "a" {effect = #pure} : !core.int
  provenance.z(%y) {effect = #pure}
  %w = agent.action "b" {effect = #pure} : !core.int provenance(%w = tool)
  provenance.z {effect = #pure}
}
"#;
    let module = parse_module(source).unwrap();
    assert_eq!(module.top_level().len(), 5);
    let once = round_trip(source).unwrap();
    assert!(once.contains("grants(pure)\n\n  requires_approval.x {effect = #pure}\n"), "{once}");
    assert_eq!(round_trip(&once).unwrap(), once);
    assert_eq!(parse_module(&once).unwrap().top_level().len(), 5);
}

#[test]
fn a_dialect_may_be_named_like_a_declaration() {
    let source = "module @m version(0) {\n  capability.x {effect = #pure}\n}\n";
    assert_eq!(round_trip(source).unwrap(), source);
    let error = parse_module("module @m { capability x }").unwrap_err();
    assert!(error.to_string().contains("a `@symbol`"), "{}", error.to_string());
}

#[test]
fn a_provenance_clause_needs_its_parenthesis() {
    let text = |rest: &str| {
        format!("module @m version(0) {{\n  %a = core.constant {{effect = #pure, value = 1}} : !core.int provenance{rest}\n}}\n")
    };
    let error = parse_module(&text(" %a = llm")).unwrap_err();
    assert!(error.message.starts_with("expected `(`, found "), "{}", error.to_string());
    assert!(parse_module(&text("(%a = llm)")).is_ok());
    // Before a dot the word names a dialect.
    let module = parse_module(&text(".note {effect = #pure}")).unwrap();
    assert_eq!(module.op_ids().len(), 2);
}
