//! Values, state, the log, the environment and recovery.

use agent_ir::attribute::Attribute;
use agent_ir::effect::Effect;
use agent_ir::env::{
    AnyHandler, Dealings, EnvError, Environment, Invocation, RecordingEnvironment,
};
use agent_ir::event::{Event, EventKind, EventLog, InMemoryEventLog};
use agent_ir::ids::{OperationId, ValueId};
use agent_ir::number::Number;
use agent_ir::recovery::{RecoveryManager, Resumption};
use agent_ir::state::{
    Checkpoint, CheckpointStore, ExecutionState, InMemoryCheckpointStore, Ledger,
};
use agent_ir::value::{Record, Value};

fn record(entries: Vec<(&str, Value)>) -> Value {
    Value::record(entries.into_iter().map(|(k, v)| (k.to_string(), v)).collect())
}

// -------------------------------------------------------------------- values

#[test]
fn only_a_boolean_is_a_condition() {
    assert_eq!(Value::Bool(true).is_true(), Some(true));
    assert_eq!(Value::Int(1).is_true(), None);
    assert_eq!(Value::Str("yes".into()).is_true(), None);
}

#[test]
fn fingerprints_are_stable_and_distinguishing() {
    let a = record(vec![("x", Value::Int(1)), ("y", Value::Int(2))]);
    let b = record(vec![("y", Value::Int(2)), ("x", Value::Int(1))]);
    assert_eq!(a.fingerprint(), b.fingerprint(), "field order must not matter");
    assert_ne!(a.fingerprint(), record(vec![("x", Value::Int(2))]).fingerprint());
}

#[test]
fn attributes_convert_into_values() {
    assert_eq!(Value::from(&Attribute::Int(3)), Value::Int(3));
    assert_eq!(
        Value::from(&Attribute::Array(vec![Attribute::Bool(true)])),
        Value::List(vec![Value::Bool(true)])
    );
}

#[test]
fn a_fingerprint_names_the_kind_of_each_value() {
    let value = record(vec![
        ("a", Value::list(vec![Value::Int(-1), Value::Bool(false)])),
        ("b", Value::Str("s".into())),
        ("c", Value::Null),
        ("d", Value::Float(Number::new(false, 15, -1))),
    ]);
    assert_eq!(value.fingerprint(), "{a=[i-1,bfalse],b=ss,c=null,d=f1.5}");
    assert_eq!(value.to_string(), "{a: [-1, false], b: \"s\", c: null, d: 1.5}");
}

#[test]
fn floats_compare_as_numbers() {
    let zero = Value::Float(Number::new(false, 0, 0));
    let minus = Value::Float(Number::new(true, 0, 0));
    assert_eq!(zero, minus);
    assert_ne!(Value::Float(Number::Nan), Value::Float(Number::Nan));
    assert_ne!(Value::Int(1), Value::Float(Number::new(false, 1, 0)));
}

#[test]
fn an_effect_attribute_becomes_its_text() {
    assert_eq!(
        Value::from(&Attribute::Effect(Effect::read("web"))),
        Value::Str("#read_external<web>".into())
    );
}

#[test]
fn payloads_are_read_by_kind() {
    assert_eq!(Value::Int(7).as_int(), Some(7));
    assert_eq!(Value::Int(7).as_float(), Some(Number::from_int(7)));
    assert_eq!(Value::from("x").as_str(), Some("x"));
    assert_eq!(Value::from(true).as_bool(), Some(true));
    assert_eq!(Value::from(2i64).as_list().map(|l| l.len()), None);
    let r = record(vec![("x", Value::Int(1))]);
    assert_eq!(r.field("x"), Some(&Value::Int(1)));
    assert_eq!(r.field("y"), None);
}

// --------------------------------------------------------------------- state

#[test]
fn the_ledger_remembers_one_result_per_key() {
    let mut ledger = Ledger::new();
    ledger.record("k", Value::Int(1));
    ledger.record("k", Value::Int(2));
    assert_eq!(ledger.len(), 1);
    assert_eq!(ledger.get("k"), Some(&Value::Int(2)));
    assert!(!ledger.contains("other"));
}

#[test]
fn ledger_keys_come_in_order() {
    let mut ledger = Ledger::new();
    assert!(ledger.is_empty());
    for key in ["b", "a", "c"] {
        ledger.record(key, Value::Null);
    }
    assert_eq!(ledger.keys(), vec!["a", "b", "c"]);
}

#[test]
fn repeat_counting_is_per_signature() {
    let mut state = ExecutionState::new();
    assert_eq!(state.count_repeat("a".into()), 1);
    assert_eq!(state.count_repeat("a".into()), 2);
    assert_eq!(state.count_repeat("b".into()), 1);
}

#[test]
fn the_latest_binding_wins() {
    let mut state = ExecutionState::new();
    state.bind(ValueId(4), Value::Int(1));
    state.bind(ValueId(2), Value::Int(2));
    state.bind(ValueId(4), Value::Int(3));
    assert_eq!(state.get(ValueId(4)), Some(&Value::Int(3)));
    assert_eq!(state.get(ValueId(2)), Some(&Value::Int(2)));
    assert_eq!(state.get(ValueId(3)), None);
    assert_eq!(state.get_or_null(ValueId(3)), Value::Null);
    assert_eq!(state.values.len(), 2);
    assert_eq!(state.values.id_at(0), ValueId(2));
}

#[test]
fn the_store_hands_back_the_newest_snapshot() {
    let mut store = InMemoryCheckpointStore::new();
    for sequence in 1..=3 {
        store.save(Checkpoint {
            sequence,
            log_position: sequence * 10,
            version: 0,
            state: ExecutionState::new(),
        });
    }
    assert_eq!(store.latest().unwrap().sequence, 3);
    assert_eq!(store.all().len(), 3);
}

// ----------------------------------------------------------------------- log

#[test]
fn sequence_numbers_are_dense_and_ordered() {
    let mut log = InMemoryEventLog::new();
    for i in 0..5 {
        let sequence = log.append(
            None,
            EventKind::Checkpoint {
                sequence: i,
                effects: 0,
            },
        );
        assert_eq!(sequence, i);
    }
    assert_eq!(log.len(), 5);
}

#[test]
fn since_returns_only_what_came_after() {
    let mut log = InMemoryEventLog::new();
    for _ in 0..4 {
        log.append(
            None,
            EventKind::Finished {
                result: Value::Null,
            },
        );
    }
    assert_eq!(log.since(1).len(), 2);
}

#[test]
fn a_log_prints_one_entry_per_line() {
    let mut log = InMemoryEventLog::new();
    log.append(None, EventKind::Started { function: "f".into(), version: 3 });
    log.append(
        Some(OperationId(12)),
        EventKind::Effect {
            target: "fetch".into(),
            effect: "#pure".into(),
            idempotency_key: None,
            result: Value::Null,
        },
    );
    log.append(
        Some(OperationId(2)),
        EventKind::LoopGuard { target: "t".into(), repeats: 6, action: "HUMAN_REVIEW".into() },
    );
    assert_eq!(
        log.to_string(),
        "#0            started f from IR3\n#1    op12  fetch [#pure]\n\
         #2    op2  loop guard on t after 6 repeats: HUMAN_REVIEW\n"
    );
}

#[test]
fn every_kind_of_entry_prints() {
    let text = |kind: EventKind| kind.to_string();
    assert_eq!(
        text(EventKind::EffectReplayed {
            target: "pay".into(),
            idempotency_key: "k".into(),
            result: Value::Null,
        }),
        "pay [replayed]"
    );
    assert_eq!(
        text(EventKind::Failed { target: "pay".into(), error: "no".into() }),
        "pay failed: no"
    );
    assert_eq!(
        text(EventKind::Checkpoint { sequence: 2, effects: 7 }),
        "checkpoint 2 (7 effect(s))"
    );
    assert_eq!(text(EventKind::Resumed { sequence: 2 }), "resumed from checkpoint 2");
    assert_eq!(text(EventKind::Finished { result: Value::Int(3) }), "finished: 3");
}

#[test]
fn a_restored_log_keeps_its_entries() {
    let log = InMemoryEventLog::restored(vec![Event {
        sequence: 0,
        op: None,
        kind: EventKind::Resumed { sequence: 1 },
    }]);
    assert_eq!(log.entries().len(), 1);
    assert!(!log.is_empty());
    assert_eq!(log.entries()[0].to_string(), "#0            resumed from checkpoint 1");
}

// --------------------------------------------------------------- environment

fn invocation(target: &str, effect: Effect) -> Invocation {
    Invocation {
        target: target.to_string(),
        args: vec![Value::Int(1)],
        attributes: Record::new(),
        effect,
        idempotency_key: None,
    }
}

#[test]
fn an_unregistered_tool_fails_loudly() {
    let mut env = RecordingEnvironment::new();
    let error = env
        .tool_call(&invocation("nope", Effect::read("web")))
        .unwrap_err();
    assert!(matches!(error, EnvError::Unknown(_)));
}

#[test]
fn calls_are_recorded_in_order() {
    let mut env = RecordingEnvironment::new()
        .returning("a", Value::Int(1))
        .returning("b", Value::Int(2));
    env.tool_call(&invocation("a", Effect::read("x"))).unwrap();
    env.tool_call(&invocation("b", Effect::read("x"))).unwrap();
    assert_eq!(env.call_names(), vec!["a", "b"]);
}

#[test]
fn a_crash_still_records_the_write_that_caused_it() {
    // The effect happened; only the acknowledgement was lost. That is
    // precisely the case idempotency keys exist for.
    let mut env = RecordingEnvironment::new()
        .returning("pay", Value::Null)
        .crashing_after_writes(1);
    let error = env
        .tool_call(&invocation("pay", Effect::write("ledger")))
        .unwrap_err();
    assert!(matches!(error, EnvError::Crashed(_)));
    assert_eq!(env.writing_calls().len(), 1);
}

#[test]
fn memory_reads_back_what_it_wrote() {
    let mut env = RecordingEnvironment::new();
    let mut write = invocation("k", Effect::write("mem"));
    write.args = vec![Value::Str("v".into())];
    env.memory_write(&write).unwrap();
    let read = env.memory_read(&invocation("k", Effect::read("mem"))).unwrap();
    assert_eq!(read, Value::Str("v".into()));
}

#[test]
fn a_lost_write_is_known_by_its_key() {
    let mut env = RecordingEnvironment::new()
        .returning("pay", Value::Int(9))
        .crashing_after_writes(2);
    let mut call = invocation("pay", Effect::write("ledger"));
    call.idempotency_key = Some("k1".into());
    assert_eq!(env.tool_call(&call).unwrap(), Value::Int(9));
    assert_eq!(env.lookup_idempotent("k1"), Some(Value::Int(9)));
    call.idempotency_key = Some("k2".into());
    let error = env.tool_call(&call).unwrap_err();
    assert_eq!(
        error.to_string(),
        "the runtime lost its environment: simulated crash after 2 write(s)"
    );
    assert_eq!(env.lookup_idempotent("k2"), Some(Value::Null));
    assert_eq!(env.lookup_idempotent("k3"), None);
}

#[test]
fn a_search_lists_everything_remembered() {
    let mut env = RecordingEnvironment::new();
    for (key, value) in [("b", 2), ("a", 1)] {
        let mut write = invocation(key, Effect::write("mem"));
        write.args = vec![Value::Int(value)];
        env.memory_write(&write).unwrap();
    }
    assert_eq!(
        env.memory_search(&invocation("", Effect::read("mem"))).unwrap(),
        Value::List(vec![Value::Int(1), Value::Int(2)])
    );
    assert_eq!(env.memory().len(), 2);
}

struct Nothing;

impl Environment for Nothing {
    fn dealings(&self) -> Dealings {
        unreachable!()
    }

    fn is_faithful(&self) -> bool {
        unreachable!()
    }
}

#[test]
fn an_environment_without_capabilities_refuses_everything() {
    let call = invocation("x", Effect::read("web"));
    let mut env = Nothing;
    assert_eq!(env.tool_call(&call).unwrap_err().to_string(), "no such target: tool `x`");
    assert_eq!(env.infer(&call).unwrap_err().to_string(), "no such target: model `x`");
    assert_eq!(
        env.memory_read(&call).unwrap_err().to_string(),
        "no such target: memory key `x`"
    );
    assert_eq!(
        env.memory_write(&call).unwrap_err().to_string(),
        "no such target: memory key `x`"
    );
    assert_eq!(
        env.memory_search(&call).unwrap_err().to_string(),
        "no such target: memory search"
    );
    assert_eq!(env.lookup_idempotent("k"), None);
    assert_eq!(EnvError::Failed("why".into()).to_string(), "call failed: why");
}

#[test]
fn the_last_handler_of_a_name_answers() {
    let mut env = RecordingEnvironment::new()
        .returning("a", Value::Int(1))
        .on("a", AnyHandler::Returning(Value::Int(2)));
    assert_eq!(env.infer(&invocation("a", Effect::Stochastic)).unwrap(), Value::Int(2));
}

// ------------------------------------------------------------------ recovery

fn effect(key: &str) -> EventKind {
    EventKind::Effect {
        target: "pay".into(),
        effect: "#irreversible<ledger>".into(),
        idempotency_key: Some(key.into()),
        result: Value::Str(format!("receipt-{key}")),
    }
}

#[test]
fn with_no_checkpoint_the_log_alone_rebuilds_the_ledger() {
    let mut log = InMemoryEventLog::new();
    log.append(None, effect("a"));
    log.append(None, effect("b"));
    let checkpoints = InMemoryCheckpointStore::new();

    let resumption = RecoveryManager::new().resume(&log, &checkpoints);
    assert_eq!(resumption.from_checkpoint, None);
    assert_eq!(resumption.state.ledger.len(), 2);
    assert_eq!(resumption.recovered_from_log, 2);
}

#[test]
fn effects_after_the_checkpoint_are_folded_back_in() {
    // The write happened, the acknowledgement was lost, and only the log knows.
    let mut log = InMemoryEventLog::new();
    log.append(None, effect("a"));
    let mut state = ExecutionState::new();
    state.ledger.record("a", Value::Str("receipt-a".into()));

    let mut checkpoints = InMemoryCheckpointStore::new();
    checkpoints.save(Checkpoint {
        sequence: 1,
        log_position: log.len() as u64,
        version: 0,
        state,
    });

    log.append(None, effect("b"));

    let resumption = RecoveryManager::new().resume(&log, &checkpoints);
    assert_eq!(resumption.from_checkpoint, Some(1));
    assert!(resumption.state.ledger.contains("a"), "from the checkpoint");
    assert!(resumption.state.ledger.contains("b"), "from the log tail");
    assert_eq!(resumption.recovered_from_log, 1);
}

#[test]
fn a_replayed_effect_stays_in_the_ledger() {
    let mut log = InMemoryEventLog::new();
    log.append(
        None,
        EventKind::EffectReplayed {
            target: "pay".into(),
            idempotency_key: "a".into(),
            result: Value::Int(1),
        },
    );
    let ledger = RecoveryManager::new().ledger_from_log(&log);
    assert!(ledger.contains("a"));
}

#[test]
fn a_resume_leaves_a_mark_in_the_log() {
    let mut log = InMemoryEventLog::new();
    let manager = RecoveryManager::new();
    let resumption = Resumption {
        state: ExecutionState::new(),
        from_checkpoint: Some(4),
        recovered_from_log: 0,
    };
    manager.note_resumption(&mut log, &resumption);
    assert!(matches!(
        log.entries()[0].kind,
        EventKind::Resumed { sequence: 4 }
    ));
}

#[test]
fn a_fresh_start_leaves_no_mark() {
    let mut log = InMemoryEventLog::new();
    let resumption =
        RecoveryManager::new().resume(&log, &InMemoryCheckpointStore::new());
    RecoveryManager::new().note_resumption(&mut log, &resumption);
    assert!(log.is_empty());
}

// ------------------------------------------------------- defaults and copies

#[test]
fn the_stores_start_empty_and_can_be_copied() {
    assert!(Ledger::default().is_empty());
    assert_eq!(ExecutionState::default(), ExecutionState::new());
    assert!(RecordingEnvironment::default().calls.is_empty());
    assert!(InMemoryEventLog::default().entries().is_empty());
    assert!(InMemoryCheckpointStore::default().latest().is_none());

    let mut log = InMemoryEventLog::default();
    log.append(None, effect("a"));
    let mut checkpoints = InMemoryCheckpointStore::default();
    let resumption = RecoveryManager::default().resume(&log, &checkpoints);
    assert_eq!(resumption.clone(), resumption);
    checkpoints.save(Checkpoint {
        sequence: 1,
        log_position: 1,
        version: 4,
        state: resumption.state.clone(),
    });
    let copied = checkpoints.clone();
    assert_eq!(copied.all(), checkpoints.all());
    assert_eq!(copied.latest().unwrap().clone().version, 4);

    let before = log.clone();
    log.append(None, effect("b"));
    assert_eq!(before.entries().len(), 1);
    assert_eq!(before.entries()[0].clone(), log.entries()[0]);
}
