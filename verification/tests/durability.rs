//! End-to-end runtime tests: execution, semantic non-regression, crash and
//! recovery, and the loop guards.

use agent_ir::env::{
    AnyHandler, Dealings, EnvError, Environment, Handler, History, Invocation,
    RecordingEnvironment,
};
use agent_ir::event::{EventKind, EventLog, InMemoryEventLog};
use agent_ir::execution::{LoopGuardAction, RuntimePolicy};
use agent_ir::executor::{bound, compare, Executor, RuntimeError};
use agent_ir::manager::PassManager;
use agent_ir::module::Module;
use agent_ir::number::Number;
use agent_ir::parser::parse_module;
use agent_ir::plan::{ExecutionPlan, GenericRuntime};
use agent_ir::recovery::RecoveryManager;
use agent_ir::scheduler::Scheduler;
use agent_ir::state::{CheckpointStore, InMemoryCheckpointStore};
use agent_ir::value::Value;
use agent_ir::verify::Verifier;

fn compile(source: &str, function: &str, optimize: bool) -> (Module, ExecutionPlan) {
    let mut module = parse_module(source).expect("should parse");
    let report = Verifier::new().verify_all(&module);
    assert!(!report.has_errors(), "should verify:\n{}", report.to_string());
    if optimize {
        PassManager::default_pipeline().run(&mut module);
        let after = Verifier::new().verify_all(&module);
        assert!(!after.has_errors(), "optimizing broke it:\n{}\n{}", module.to_string(), after.to_string());
    }
    let plan = Scheduler::new(GenericRuntime)
        .schedule(&module, function)
        .expect("should schedule");
    (module, plan)
}

fn candidates(count: usize) -> Value {
    Value::list((0..count).map(|i| Value::Str(format!("candidate-{i}"))).collect())
}

struct Answer<F>(F);

impl<F: FnMut(&Invocation) -> Result<Value, EnvError>> Handler for Answer<F> {
    fn history(&self) -> History {
        unreachable!()
    }

    fn handle(&mut self, call: &Invocation) -> Result<Value, EnvError> {
        (self.0)(call)
    }
}

fn answering<F>(handler: F) -> AnyHandler
where
    F: FnMut(&Invocation) -> Result<Value, EnvError> + 'static,
{
    AnyHandler::Other(Box::new(Answer(handler)))
}

fn record(entries: Vec<(&str, Value)>) -> Value {
    Value::record(entries.into_iter().map(|(k, v)| (k.to_string(), v)).collect())
}

fn benchmarking_environment() -> RecordingEnvironment {
    RecordingEnvironment::new()
        .on(
            "benchmark",
            answering(|call: &Invocation| {
                let name = call.arg(0).and_then(Value::as_str).unwrap_or("?").to_string();
                let latency = 100 + name.len() as u64;
                Ok(record(vec![
                    ("latency", Value::Float(Number::new(false, latency, 0))),
                    ("accuracy", Value::Float(Number::new(false, 99, -2))),
                ]))
            }),
        )
        .on("record_result", answering(|_| Ok(Value::Null)))
}

// ------------------------------------------------------------------ execution

#[test]
fn a_simple_program_runs_and_returns() {
    let (_, plan) = compile(
        r#"module @m version(0) {
  capability @web scope("web") grants(read_external)

  agent.func "f" {
  ^bb0(%url: !core.string):
    %page = tool.call "fetch"(%url) {effect = #read_external<web>} : !tool.result<page>
    %title = tool.result(%page) {effect = #pure, field = "title"} : !core.string
    agent.return(%title) {effect = #pure}
  } {effect = #pure}
}
"#,
        "f",
        false,
    );

    let mut env = RecordingEnvironment::new().returning(
        "fetch",
        record(vec![("title", Value::Str("Agent IR".into()))]),
    );
    let mut log = InMemoryEventLog::new();
    let mut checkpoints = InMemoryCheckpointStore::new();

    let outcome = Executor::new(&mut env, &mut log, &mut checkpoints)
        .run(&plan, vec![Value::Str("https://example.com".into())])
        .unwrap();

    assert_eq!(outcome.result, Value::Str("Agent IR".into()));
    assert_eq!(outcome.effects, 1);
    assert_eq!(env.call_names(), vec!["fetch"]);
}

#[test]
fn control_flow_drives_the_nested_plans() {
    let (_, plan) = compile(
        r#"module @m version(0) {
  capability @bench scope("bench") grants(read_external)

  agent.func "f" {
  ^bb0(%items: !tool.ref<items>):
    %limit = core.constant {effect = #pure, value = 105.0} : !core.float
    control.loop(%items) {
    ^bb0(%item: !tool.ref<item>):
      %r = tool.call "benchmark"(%item) {effect = #read_external<bench>} : !tool.result<r>
      %latency = observation.metric "latency"(%r) {effect = #pure} : !core.float
      %too_slow = core.cmp "gt"(%latency, %limit) {effect = #pure} : !core.bool
      control.if(%too_slow) {
        agent.reject(%item) {effect = #pure}
      } {effect = #pure}
    } {effect = #pure, max_iterations = 8}
    agent.return {effect = #pure}
  } {effect = #pure}
}
"#,
        "f",
        false,
    );

    let mut env = benchmarking_environment();
    let mut log = InMemoryEventLog::new();
    let mut checkpoints = InMemoryCheckpointStore::new();
    let outcome = Executor::new(&mut env, &mut log, &mut checkpoints)
        .run(&plan, vec![candidates(3)])
        .unwrap();

    assert_eq!(outcome.effects, 3, "one benchmark per candidate");
    // "candidate-0" is 11 characters, so latency 111 > 105: every candidate is
    // rejected, and the runtime recorded which ones.
    assert_eq!(outcome.state.rejected.len(), 3);
}

#[test]
fn a_loop_that_exceeds_its_declared_bound_is_an_error() {
    // Invariant I5 is a promise the program made. Silently truncating would
    // turn a broken promise into a wrong answer.
    let (_, plan) = compile(
        r#"module @m version(0) {
  capability @bench scope("bench") grants(read_external)

  agent.func "f" {
  ^bb0(%items: !tool.ref<items>):
    control.loop(%items) {
    ^bb0(%item: !tool.ref<item>):
      %r = tool.call "benchmark"(%item) {effect = #read_external<bench>} : !tool.result<r>
    } {effect = #pure, max_iterations = 2}
    agent.return {effect = #pure}
  } {effect = #pure}
}
"#,
        "f",
        false,
    );

    let mut env = benchmarking_environment();
    let mut log = InMemoryEventLog::new();
    let mut checkpoints = InMemoryCheckpointStore::new();
    let error = Executor::new(&mut env, &mut log, &mut checkpoints)
        .run(&plan, vec![candidates(5)])
        .unwrap_err();
    assert!(matches!(error, RuntimeError::IterationLimit { limit: 2 }), "{}", error.to_string());
}

// --------------------------------------------------------- no semantic change

/// Runs a program twice — unoptimized and optimized — and returns both traces.
fn trace_both_ways(source: &str, function: &str, args: Vec<Value>) -> (Vec<String>, Vec<String>) {
    let mut traces = Vec::new();
    for optimize in [false, true] {
        let (_, plan) = compile(source, function, optimize);
        let mut env = benchmarking_environment()
            .returning("inspect_model", Value::Int(1))
            .returning("inspect_hardware", Value::Int(2))
            .returning("inspect_dataset", Value::Int(3))
            .returning("profile", Value::Int(6))
            .returning("fetch", Value::Str("page".into()));
        let mut log = InMemoryEventLog::new();
        let mut checkpoints = InMemoryCheckpointStore::new();
        let outcome = Executor::new(&mut env, &mut log, &mut checkpoints)
            .run(&plan, args.iter().map(Value::clone).collect())
            .unwrap();
        let mut trace: Vec<String> = env
            .calls
            .iter()
            .map(|c| format!("{}({})", c.target, c.args.len()))
            .collect();
        trace.push(format!("=> {}", outcome.result.to_string()));
        traces.push(trace);
    }
    let optimized = traces.pop().unwrap();
    (traces.pop().unwrap(), optimized)
}

#[test]
fn deduplication_removes_a_call_without_changing_the_answer() {
    // Here the traces are deliberately *not* equal — that is the point of the
    // pass — but the answer must be.
    let source = r#"module @m version(0) {
  capability @web scope("web") grants(read_external)

  agent.func "f" {
  ^bb0(%url: !core.string):
    %a = tool.call "fetch"(%url) {effect = #read_external<web>} : !core.string
    %b = tool.call "fetch"(%url) {effect = #read_external<web>} : !core.string
    agent.return(%b) {effect = #pure}
  } {effect = #pure}
}
"#;
    let (plain, optimized) = trace_both_ways(source, "f", vec![Value::Str("u".into())]);
    assert_eq!(plain.len(), 3, "two fetches and a result");
    assert_eq!(optimized.len(), 2, "one fetch and a result");
    assert_eq!(plain.last(), optimized.last(), "the answer must not move");
}

#[test]
fn optimizing_never_removes_an_effect_that_reached_the_world() {
    let source = r#"module @m version(0) {
  capability @db scope("db") grants(write_external)

  agent.func "f" {
  ^bb0(%row: !tool.ref<db>):
    %receipt = tool.call "record_result"(%row) {effect = #write_external<db>} : !core.string
    agent.return {effect = #pure}
  } {effect = #pure}
}
"#;
    let (plain, optimized) = trace_both_ways(source, "f", vec![Value::Str("r".into())]);
    assert_eq!(plain, optimized);
    assert!(plain.iter().any(|line| line.starts_with("record_result")));
}

#[test]
fn an_action_repeating_identically_trips_the_loop_guard() {
    let (_, plan) = compile(
        r#"module @m version(0) {
  capability @web scope("web") grants(read_external)

  agent.func "f" {
  ^bb0(%items: !tool.ref<items>):
    control.loop(%items) {
    ^bb0(%item: !tool.ref<item>):
      %page = tool.call "fetch"(%item) {effect = #read_external<web>} : !core.string
    } {effect = #pure, max_iterations = 20}
    agent.return {effect = #pure}
  } {effect = #pure}
}
"#,
        "f",
        false,
    );

    // The same argument every time: the agent is stuck.
    let identical = Value::list((0..20).map(|_| Value::Str("same".into())).collect());
    let mut env = RecordingEnvironment::new().returning("fetch", Value::Str("page".into()));
    let mut log = InMemoryEventLog::new();
    let mut checkpoints = InMemoryCheckpointStore::new();

    let error = Executor::new(&mut env, &mut log, &mut checkpoints)
        .with_policy(RuntimePolicy {
            repeat_threshold: 5,
            on_loop_guard: LoopGuardAction::ChangeStrategy,
            ..RuntimePolicy::default()
        })
        .run(&plan, vec![identical])
        .unwrap_err();

    match error {
        RuntimeError::LoopGuard { repeats, action, .. } => {
            assert_eq!(repeats, 6);
            assert_eq!(action, LoopGuardAction::ChangeStrategy);
        }
        other => panic!("expected a loop guard, got {}", other.to_string()),
    }
    assert!(log
        .entries()
        .iter()
        .any(|e| matches!(e.kind, EventKind::LoopGuard { .. })));
}

#[test]
fn an_environment_missing_a_tool_fails_loudly() {
    let (_, plan) = compile(
        r#"module @m version(0) {
  capability @web scope("web") grants(read_external)

  agent.func "f" {
  ^bb0(%url: !core.string):
    %page = tool.call "fetch"(%url) {effect = #read_external<web>} : !core.string
    agent.return(%page) {effect = #pure}
  } {effect = #pure}
}
"#,
        "f",
        false,
    );
    let mut env = RecordingEnvironment::new();
    let mut log = InMemoryEventLog::new();
    let mut checkpoints = InMemoryCheckpointStore::new();
    let error = Executor::new(&mut env, &mut log, &mut checkpoints)
        .run(&plan, vec![Value::Str("u".into())])
        .unwrap_err();
    assert!(matches!(error, RuntimeError::Environment(EnvError::Unknown(_))), "{}", error.to_string());
    assert!(log
        .entries()
        .iter()
        .any(|e| matches!(e.kind, EventKind::Failed { .. })));
}

// ------------------------------------------------------------- durable loops

const DURABLE: &str = r#"module @durable version(2) {
  capability @bench scope("bench") grants(read_external)
  capability @db scope("db") grants(write_external)

  agent.func "benchmark_candidates" {
  ^bb0(%items: !tool.ref<items>):
    control.loop(%items) {
    ^bb0(%item: !tool.ref<item>):
      %r = tool.call "benchmark"(%item) {effect = #read_external<bench>} : !tool.result<r>
      tool.call "record_result"(%item, %r) {effect = #write_external<db>}
    } {effect = #pure, max_iterations = 64}
    agent.return {effect = #pure}
  } {effect = #pure}
}
"#;

#[test]
fn a_crash_mid_run_loses_nothing_and_repeats_no_write() {
    let (_, plan) = compile(DURABLE, "benchmark_candidates", true);
    let policy = RuntimePolicy { checkpoint_every: 5, ..RuntimePolicy::default() };

    let mut env = benchmarking_environment().crashing_after_writes(15);
    let mut log = InMemoryEventLog::new();
    let mut checkpoints = InMemoryCheckpointStore::new();
    let error = Executor::new(&mut env, &mut log, &mut checkpoints)
        .with_policy(policy)
        .run(&plan, vec![candidates(40)])
        .unwrap_err();
    assert!(matches!(error, RuntimeError::Environment(EnvError::Crashed(_))));
    assert_eq!(env.writing_calls().len(), 15);
    assert!(checkpoints.latest().is_some());

    let resumption = RecoveryManager::new().resume(&log, &checkpoints);
    assert!(resumption.from_checkpoint.is_some());
    assert!(
        resumption.recovered_from_log > 0,
        "the writes after the last checkpoint must come back from the log"
    );
    assert_eq!(resumption.state.ledger.len(), 14);
    RecoveryManager::new().note_resumption(&mut log, &resumption);

    env.crash_after_writes = None;
    let outcome = Executor::new(&mut env, &mut log, &mut checkpoints)
        .with_policy(policy)
        .resuming_from(resumption.state)
        .run(&plan, vec![candidates(40)])
        .unwrap();
    assert_eq!(env.writing_calls().len(), 40);
    assert_eq!(outcome.replayed, 15);
    let reruns = env.calls.iter().filter(|c| c.target == "benchmark").count();
    assert_eq!(reruns, 55);
    for (i, event) in log.entries().iter().enumerate() {
        assert_eq!(event.sequence, i as u64);
    }
}

#[test]
fn resuming_with_no_checkpoint_rebuilds_from_the_log_alone() {
    let (_, plan) = compile(DURABLE, "benchmark_candidates", false);
    let mut env = benchmarking_environment().crashing_after_writes(3);
    let mut log = InMemoryEventLog::new();
    let mut checkpoints = InMemoryCheckpointStore::new();
    Executor::new(&mut env, &mut log, &mut checkpoints)
        .with_policy(RuntimePolicy { checkpoint_every: 0, ..RuntimePolicy::default() })
        .run(&plan, vec![candidates(6)])
        .unwrap_err();
    assert!(checkpoints.latest().is_none());

    let resumption = RecoveryManager::new().resume(&log, &checkpoints);
    assert_eq!(resumption.from_checkpoint, None);
    assert_eq!(resumption.state.ledger.len(), 2);

    let mut fresh = benchmarking_environment();
    let outcome = Executor::new(&mut fresh, &mut log, &mut checkpoints)
        .resuming_from(resumption.state)
        .run(&plan, vec![candidates(6)])
        .unwrap();
    assert_eq!(outcome.replayed, 2);
    assert_eq!(fresh.writing_calls().len(), 4);
}

#[test]
fn a_second_run_from_a_complete_ledger_touches_nothing() {
    let (_, plan) = compile(DURABLE, "benchmark_candidates", false);
    let mut env = benchmarking_environment();
    let mut log = InMemoryEventLog::new();
    let mut checkpoints = InMemoryCheckpointStore::new();
    let first = Executor::new(&mut env, &mut log, &mut checkpoints)
        .run(&plan, vec![candidates(5)])
        .unwrap();
    assert_eq!(first.effects, 10);
    assert_eq!(env.writing_calls().len(), 5);

    let mut again = benchmarking_environment();
    let second = Executor::new(&mut again, &mut log, &mut checkpoints)
        .resuming_from(first.state)
        .run(&plan, vec![candidates(5)])
        .unwrap();
    assert_eq!(again.writing_calls().len(), 0);
    assert_eq!(second.replayed, 5);
}

#[test]
fn distinct_arguments_never_trip_the_guard() {
    let (_, plan) = compile(DURABLE, "benchmark_candidates", false);
    let mut env = benchmarking_environment();
    let mut log = InMemoryEventLog::new();
    let mut checkpoints = InMemoryCheckpointStore::new();
    let outcome = Executor::new(&mut env, &mut log, &mut checkpoints)
        .with_policy(RuntimePolicy { repeat_threshold: 3, ..RuntimePolicy::default() })
        .run(&plan, vec![candidates(30)])
        .unwrap();
    assert_eq!(outcome.effects, 60);
    assert_eq!(outcome.state.ledger.len(), 30);
    let key = env.writing_calls()[7].idempotency_key.clone().unwrap();
    assert!(key.starts_with("durable:2:"), "{key}");
    assert!(key.ends_with("@7"), "{key}");
}

#[test]
fn the_event_log_points_every_effect_back_at_its_operation() {
    let (module, plan) = compile(DURABLE, "benchmark_candidates", false);
    let mut env = benchmarking_environment();
    let mut log = InMemoryEventLog::new();
    let mut checkpoints = InMemoryCheckpointStore::new();
    Executor::new(&mut env, &mut log, &mut checkpoints)
        .run(&plan, vec![candidates(4)])
        .unwrap();

    let anchored = log.entries().iter().filter(|e| e.op.is_some()).count();
    assert!(anchored >= 8, "4 benchmarks + 4 records should be anchored");
    for event in log.entries().iter().filter_map(|e| e.op) {
        // Every anchor must name a real operation: that is what makes the log
        // an audit trail rather than a pile of strings.
        assert!(!module.op(event).name.dialect.is_empty());
    }
    let steps = plan.plan.steps();
    for event in log.entries() {
        if matches!(event.kind, EventKind::Effect { .. } | EventKind::EffectReplayed { .. }) {
            let op = event.op.unwrap();
            assert!(steps.iter().any(|s| s.op == op));
        }
    }
}

const INSPECT_AND_PROFILE: &str = r#"module @m version(0) {
  capability @host scope("host") grants(read_external)

  agent.func "inspect_and_profile" {
  ^bb0(%model: !core.string, %hardware: !core.string, %dataset: !core.string):
    %a = agent.action "inspect_model"(%model) {effect = #read_external<host>} : !core.int
    %b = agent.action "inspect_hardware"(%hardware) {effect = #read_external<host>} : !core.int
    %c = agent.action "inspect_dataset"(%dataset) {effect = #read_external<host>} : !core.int
    %p = agent.action "profile"(%a, %b, %c) {effect = #read_external<host>} : !core.int
    agent.return(%p) {effect = #pure}
  } {effect = #pure}
}
"#;

#[test]
fn optimizing_does_not_change_what_the_program_does() {
    let (plain, optimized) = trace_both_ways(
        INSPECT_AND_PROFILE,
        "inspect_and_profile",
        vec![Value::Str("m".into()), Value::Str("h".into()), Value::Str("d".into())],
    );
    assert_eq!(plain, optimized, "optimizing changed the observable behaviour");
    assert_eq!(plain.len(), 5);
    assert_eq!(plain.last().unwrap(), "=> 6");
}

const SELECT: &str = r#"module @m version(0) {
  capability @host scope("host") grants(read_external)
  capability @llm scope(*) grants(stochastic)

  agent.func "optimize_inference" {
  ^bb0(%model: !core.string, %hardware: !core.string):
    %info = agent.action "inspect_model"(%model) {effect = #pure} : !core.string
    %host = agent.action "inspect_hardware"(%hardware) {effect = #pure} : !core.string
    %profile = tool.call "profile"(%model, %hardware) {effect = #read_external<host>} : !core.string
    %found = agent.action "generate_candidates"(%profile) {effect = #stochastic} : !tool.ref<candidates>
    %limit = core.constant {effect = #pure, value = 0.01} : !core.float
    control.loop(%found) {
    ^bb0(%candidate: !tool.ref<candidate>):
      %r = tool.call "benchmark"(%candidate) {effect = #read_external<host>} : !tool.result<r>
      %loss = observation.metric "accuracy"(%r) {effect = #pure} : !core.float
      %worse = core.cmp "gt"(%loss, %limit) {effect = #pure} : !core.bool
      control.if(%worse) {
        agent.reject(%candidate) {effect = #pure}
      } {effect = #pure}
    } {effect = #pure, max_iterations = 40}
    %best = tool.call "select"(%found) {effect = #read_external<host>} : !core.string
    agent.return(%best) {effect = #pure}
  } {effect = #pure}
}
"#;

#[test]
fn a_candidate_that_breaks_the_constraint_is_rejected() {
    let (_, plan) = compile(SELECT, "optimize_inference", true);
    let mut env = RecordingEnvironment::new()
        .returning("inspect_model", Value::Str("resnet".into()))
        .returning("inspect_hardware", Value::Str("a100".into()))
        .returning("profile", Value::Str("profile".into()))
        .returning(
            "generate_candidates",
            Value::list(vec![Value::Str("c0".into()), Value::Str("c1".into())]),
        )
        .on(
            "benchmark",
            answering(|call: &Invocation| {
                let name = call.arg(0).and_then(Value::as_str).unwrap_or("?");
                let accuracy = if name == "c0" {
                    Number::new(false, 5, -1)
                } else {
                    Number::new(false, 1, -3)
                };
                Ok(record(vec![
                    ("latency", Value::Float(Number::new(false, 10, 0))),
                    ("accuracy", Value::Float(accuracy)),
                ]))
            }),
        )
        .returning("select", Value::Str("c1".into()));
    let mut log = InMemoryEventLog::new();
    let mut checkpoints = InMemoryCheckpointStore::new();
    let outcome = Executor::new(&mut env, &mut log, &mut checkpoints)
        .run(&plan, vec![Value::Str("model".into()), Value::Str("hw".into())])
        .unwrap();

    assert_eq!(outcome.result, Value::Str("c1".into()));
    assert_eq!(outcome.state.rejected.len(), 1);
    assert_eq!(outcome.state.rejected[0], Value::Str("c0".into()));
    // The two pure inspections are unused, so they were removed before this
    // ran; what is left is fully auditable.
    let effects: Vec<&str> = log
        .entries()
        .iter()
        .filter_map(|e| match &e.kind {
            EventKind::Effect { target, .. } => Some(target.as_str()),
            _ => None,
        })
        .collect();
    assert_eq!(
        effects,
        vec!["profile", "generate_candidates", "benchmark", "benchmark", "select"]
    );
}

const WHILE: &str = r#"module @m version(0) {
  capability @llm scope(*) grants(stochastic)
  capability @db scope("db") grants(write_external)

  agent.func "f" {
  ^bb0(%x: !core.string):
    control.while {
      %more = agent.action "ask"(%x) {effect = #stochastic} : !core.bool
      control.yield(%more) {effect = #pure}
    } {
      tool.call "record_result"(%x) {effect = #write_external<db>}
    } {effect = #pure, max_iterations = 4}
    agent.return {effect = #pure}
  } {effect = #pure}
}
"#;

fn counting(limit: usize) -> RecordingEnvironment {
    let mut asked = 0;
    RecordingEnvironment::new()
        .on(
            "ask",
            answering(move |_| {
                asked += 1;
                Ok(Value::Bool(asked <= limit))
            }),
        )
        .returning("record_result", Value::Null)
}

fn run_while(limit: usize) -> (Result<usize, RuntimeError>, RecordingEnvironment) {
    let module = parse_module(WHILE).unwrap();
    let plan = Scheduler::new(GenericRuntime).schedule(&module, "f").unwrap();
    let mut env = counting(limit);
    let mut log = InMemoryEventLog::new();
    let mut checkpoints = InMemoryCheckpointStore::new();
    let result = Executor::new(&mut env, &mut log, &mut checkpoints)
        .run(&plan, vec![Value::from("x")])
        .map(|outcome| outcome.effects);
    (result, env)
}

#[test]
fn a_condition_is_asked_anew_in_every_iteration() {
    let (result, env) = run_while(2);
    assert_eq!(result.unwrap(), 5);
    assert_eq!(
        env.call_names(),
        vec!["ask", "record_result", "ask", "record_result", "ask"]
    );
    let keys: Vec<String> =
        env.calls.iter().filter_map(|c| c.idempotency_key.clone()).collect();
    let mut unique = keys.clone();
    unique.sort();
    unique.dedup();
    assert_eq!(unique.len(), keys.len());
}

#[test]
fn a_while_loop_stops_at_its_bound() {
    let (result, env) = run_while(100);
    assert!(matches!(result.unwrap_err(), RuntimeError::IterationLimit { limit: 4 }));
    assert_eq!(env.writing_calls().len(), 4);
}

#[test]
fn a_condition_that_is_no_boolean_is_a_type_error() {
    let (_, plan) = compile(
        r#"module @m version(0) {
  agent.func "f" {
  ^bb0(%x: !core.int):
    control.if(%x) {
      agent.reject(%x) {effect = #pure}
    } {effect = #pure}
    agent.return {effect = #pure}
  } {effect = #pure}
}
"#,
        "f",
        false,
    );
    let mut env = RecordingEnvironment::new();
    let mut log = InMemoryEventLog::new();
    let mut checkpoints = InMemoryCheckpointStore::new();
    let error = Executor::new(&mut env, &mut log, &mut checkpoints)
        .run(&plan, vec![Value::Int(1)])
        .unwrap_err();
    assert_eq!(
        error.to_string(),
        "type error at run time: `control.if` needs a boolean condition, got 1"
    );
}

#[test]
fn comparisons_follow_their_predicate() {
    let one = Value::Int(1);
    let half = Value::Float(Number::new(false, 5, -1));
    let check = |p: &str, a: &Value, b: &Value| compare(p, a, b).unwrap();
    assert_eq!(check("eq", &one, &one), Value::Bool(true));
    assert_eq!(check("ne", &one, &half), Value::Bool(true));
    assert_eq!(check("lt", &half, &one), Value::Bool(true));
    assert_eq!(check("le", &one, &one), Value::Bool(true));
    assert_eq!(check("gt", &half, &one), Value::Bool(false));
    assert_eq!(check("ge", &one, &half), Value::Bool(true));
    assert_eq!(
        compare("lt", &one, &Value::Null).unwrap_err().to_string(),
        "type error at run time: `core.cmp \"lt\"` needs two numbers, got 1 and null"
    );
    assert_eq!(
        compare("spaceship", &one, &one).unwrap_err().to_string(),
        "unsupported: comparison predicate `spaceship`"
    );
}

#[test]
fn failures_print_what_happened() {
    assert_eq!(
        RuntimeError::IterationLimit { limit: 2 }.to_string(),
        "a loop exceeded its declared bound of 2 iterations"
    );
    assert_eq!(
        RuntimeError::LoopGuard {
            target: "t".into(),
            repeats: 6,
            action: LoopGuardAction::RetryWithBackoff,
        }
        .to_string(),
        "loop guard: `t` repeated identically 6 times, taking RETRY_WITH_BACKOFF"
    );
    assert_eq!(
        RuntimeError::Environment(EnvError::Failed("x".into())).to_string(),
        "call failed: x"
    );
}

#[test]
fn the_state_can_be_read_back() {
    let (_, plan) = compile(
        r#"module @m version(0) {
  agent.func "f" {
  ^bb0(%x: !core.int):
    %y = core.cast(%x) {effect = #pure} : !core.int
    agent.return(%y, %x) {effect = #pure}
  } {effect = #pure}
}
"#,
        "f",
        false,
    );
    let mut env = RecordingEnvironment::new();
    let mut log = InMemoryEventLog::new();
    let mut checkpoints = InMemoryCheckpointStore::new();
    let mut executor = Executor::new(&mut env, &mut log, &mut checkpoints);
    let outcome = executor.run(&plan, vec![Value::Int(4)]).unwrap();
    assert_eq!(outcome.result, Value::List(vec![Value::Int(4), Value::Int(4)]));
    assert_eq!(bound(executor.state(), &plan.parameters), vec![Value::Int(4)]);
    assert!(env.lookup_idempotent("anything").is_none());
}

// ------------------------------------------------------------ what is reached

/// An environment that writes down everything it is asked.
struct Watched {
    seen: Vec<String>,
    knows: Option<Value>,
}

impl Watched {
    fn knowing(knows: Option<Value>) -> Watched {
        Watched { seen: Vec::new(), knows }
    }
}

impl Environment for Watched {
    fn dealings(&self) -> Dealings {
        unreachable!()
    }

    fn is_faithful(&self) -> bool {
        unreachable!()
    }

    fn tool_call(&mut self, call: &Invocation) -> Result<Value, EnvError> {
        self.seen.push(format!("tool {} {}", call.target, call.effect.to_string()));
        Ok(Value::Str(call.target.clone()))
    }

    fn memory_read(&mut self, call: &Invocation) -> Result<Value, EnvError> {
        self.seen.push(format!("read {}", call.target));
        Ok(Value::Int(7))
    }

    fn lookup_idempotent(&mut self, key: &str) -> Option<Value> {
        self.seen.push(format!("lookup {key}"));
        self.knows.clone()
    }
}

const PAYING: &str = r#"module @m version(0) {
  capability @web scope("web") grants(read_external)
  capability @db scope("db") grants(write_external)
  capability @mem scope("mem") grants(read_external)

  agent.func "f" {
  ^bb0(%x: !core.int):
    %a = tool.call "look"(%x) {effect = #read_external<web>} : !core.string
    %m = memory.read {effect = #read_external<mem>, key = "k"} : !core.int
    tool.call "pay"(%a, %m) {effect = #write_external<db>}
    agent.return(%a) {effect = #pure}
  } {effect = #pure}
}
"#;

fn watch(env: &mut Watched, state: Option<agent_ir::state::ExecutionState>) -> usize {
    let (_, plan) = compile(PAYING, "f", false);
    let mut log = InMemoryEventLog::new();
    let mut checkpoints = InMemoryCheckpointStore::new();
    let mut executor = Executor::new(env, &mut log, &mut checkpoints);
    if let Some(state) = state {
        executor = executor.resuming_from(state);
    }
    executor.run(&plan, vec![Value::Int(1)]).unwrap().replayed
}

#[test]
fn the_world_is_asked_what_the_plan_says_and_nothing_else() {
    let mut env = Watched::knowing(None);
    assert_eq!(watch(&mut env, None), 0);
    assert_eq!(env.seen.len(), 4, "{:?}", env.seen);
    assert_eq!(env.seen[0], "tool look #read_external<web>");
    assert_eq!(env.seen[1], "read k");
    assert!(env.seen[2].starts_with("lookup m:0:"), "{:?}", env.seen);
    assert_eq!(env.seen[3], "tool pay #write_external<db>");
}

#[test]
fn a_write_the_world_knows_of_is_not_made_again() {
    let mut env = Watched::knowing(Some(Value::Null));
    assert_eq!(watch(&mut env, None), 1);
    assert_eq!(env.seen.len(), 3, "{:?}", env.seen);
    assert!(env.seen[2].starts_with("lookup "), "{:?}", env.seen);
}

#[test]
fn a_write_the_ledger_knows_of_does_not_reach_the_world() {
    let mut env = Watched::knowing(None);
    watch(&mut env, None);
    let key = env.seen[2]["lookup ".len()..].to_string();
    let mut state = agent_ir::state::ExecutionState::new();
    state.ledger.record(&key, Value::Null);

    let mut again = Watched::knowing(None);
    assert_eq!(watch(&mut again, Some(state)), 1);
    assert_eq!(again.seen, env.seen[..2].to_vec());
}

#[test]
fn a_handler_is_called_once_for_every_call_of_its_target() {
    let calls = std::rc::Rc::new(std::cell::Cell::new(0));
    let counter = calls.clone();
    let mut env = RecordingEnvironment::new().returning("other", Value::Null).on(
        "count",
        answering(move |call: &Invocation| {
            counter.set(counter.get() + 1);
            Ok(Value::Str(call.target.clone()))
        }),
    );
    let call = |target: &str| Invocation {
        target: target.to_string(),
        args: vec![],
        attributes: agent_ir::value::Record::new(),
        effect: agent_ir::effect::Effect::read("web"),
        idempotency_key: None,
    };
    assert_eq!(env.tool_call(&call("other")), Ok(Value::Null));
    assert_eq!(calls.get(), 0);
    assert_eq!(env.tool_call(&call("count")), Ok(Value::Str("count".into())));
    assert_eq!(env.infer(&call("count")), Ok(Value::Str("count".into())));
    assert_eq!(calls.get(), 2);
    assert_eq!(env.calls.len(), 3);
}
