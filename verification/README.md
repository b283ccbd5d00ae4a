# Agent IR

A compilation infrastructure for agentic systems. An agent program is written
in a small textual intermediate representation, in which every operation says
what it does to the world. The compiler checks the program against the
capabilities the agent holds, optimizes it, orders it into batches of steps
that may run at the same time, and hands the plan to a runtime that survives
crashes.

```text
text → parse → verify → analyse → optimize → verify safety → schedule → lower → run
                  ↓                                ↓
           structured diagnostic            structured diagnostic
```

```text
module @demo version(0) {
  capability @web scope("web") grants(read_external)

  agent.func "summarize" {
  ^bb0(%url: !core.string):
    %page = tool.call "fetch"(%url) {effect = #read_external<web>} : !tool.result<page>
    agent.return(%page) {effect = #pure}
  } {effect = #pure}
}
```

## What is proved

The library is written in Verus: each function states what it returns, and the
statements that span functions are proof functions.

- Whatever was read and printed reads back as the same program, so reading and
  printing it again gives the same text (`stable`). Every number reads back as
  itself (`relex`).
- An accepted program keeps the invariants, and every step of its plan has an
  effect that a declared capability covers (`guarantees`). What a run asks is
  what reaches the environment, no more and no less (`world`), and no call
  reaches it that is not one of a step of the plan (`audit`).
- Deduplication never reuses a stale result, elimination removes only what is
  free to remove, and operations that are grouped do not conflict and stay in
  program order (`dedup`, `dead_action`, `parallelize`). Optimizing keeps every
  operation that writes, that cannot be undone or that asks a model, in the
  same order (`preservation`). A pipeline that converged is done
  (`convergence`), and every pass reports once a round (`reporting`).
- A walk of a program visits nothing twice, and a value has one producer
  (`nesting`).
- The steps of a batch are independent, an operation runs after everything it
  depends on (`ordering`), and a budget that is not met is
  reported (`scheduler`).
- A crash loses no result and repeats no completed write, wherever it happens
  and whatever the world answers (`durability`, `recovery`).

Numbers are exact decimals of up to nineteen digits in the range of doubles.

## Layout

- `src/` is the library; `src/lib.rs` says what each module is for.
- `tests/` runs it.
- `app/` is the `agent-ir` command line: files, arguments and JSON.
