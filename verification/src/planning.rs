//! What a plan is made of.
//!
//! A step is its operation, addressed where the operation's name and effect say.
//! The nested plans of a control operation are those of its regions, in order.
//! A plan that does not fit its budget has its loop bounds halved as often as it
//! takes, and no more often.

use vstd::prelude::*;

use crate::assoc::lookup;
use crate::attribute::AttributeView;
use crate::cost::{Budget, Cost, Overrun};
use crate::effect::EffectView;
use crate::ids::OperationId;
use crate::judgement::is_called;
use crate::module::{ModuleView, OperationView};
use crate::plan::{generic_target, Backend, Builtin, ControlView, MemoryOp, PlanView, TargetView};
use crate::scheduler::{
    block_plan, control_cost, declared_budget, degraded, fitted, idempotency_key, plan_cost,
    reduced_plan, scheduled, step_plan, Degradation, Estimator, Fitting, Planner,
};
use crate::text::nat_text;

verus! {

// ------------------------------------------------------------------ lowering

/// The text attribute of an operation under a name.
pub open spec fn stated(o: OperationView, name: Seq<char>) -> Option<Seq<char>> {
    match lookup(o.attributes, name) {
        Some(AttributeView::Str(text)) => Some(text),
        _ => None,
    }
}

/// The integer attribute of an operation under a name.
pub open spec fn stated_number(o: OperationView, name: Seq<char>) -> Option<i64> {
    match lookup(o.attributes, name) {
        Some(AttributeView::Int(n)) => Some(n),
        _ => None,
    }
}

/// What an operation does not say.
pub open spec fn otherwise(text: Option<Seq<char>>, fallback: Seq<char>) -> Seq<char> {
    match text {
        Some(t) => t,
        None => fallback,
    }
}

/// An action or a call whose outcome is up to a model is a model call, of the
/// model it names, or else of what its literal names; any other is a call of the
/// tool it names, or else of what its literal names.
pub proof fn actions_go_where_their_effect_says(o: OperationView)
    requires
        is_called(o, "agent"@, "action"@) || is_called(o, "tool"@, "call"@),
    ensures
        ({
            let literal = otherwise(o.literal, Seq::empty());
            if o.effect is Stochastic {
                generic_target(o) matches Ok(TargetView::Inference { model, .. }) && model
                    == otherwise(stated(o, "model"@), literal)
            } else {
                generic_target(o) matches Ok(TargetView::ToolCall { tool }) && tool == otherwise(
                    stated(o, "tool"@),
                    literal,
                )
            }
        }),
{
    words_differ();
    assert(o.str_attr("model"@) == stated(o, "model"@));
    assert(o.str_attr("tool"@) == stated(o, "tool"@));
}

/// An operation on memory is that operation on the key it names; a plan of an
/// agent is a model call.
pub proof fn memory_and_plans_go_where_they_say(o: OperationView)
    ensures
        is_called(o, "memory"@, "read"@) ==> (generic_target(o) matches Ok(
            TargetView::Memory { operation, key },
        ) && operation == MemoryOp::Read && key == stated(o, "key"@)),
        is_called(o, "memory"@, "write"@) ==> (generic_target(o) matches Ok(
            TargetView::Memory { operation, key },
        ) && operation == MemoryOp::Write && key == stated(o, "key"@)),
        is_called(o, "memory"@, "search"@) ==> (generic_target(o) matches Ok(
            TargetView::Memory { operation, key },
        ) && operation == MemoryOp::Search && key == stated(o, "key"@)),
        is_called(o, "agent"@, "plan"@) ==> (generic_target(o) matches Ok(
            TargetView::Inference { model, .. },
        ) && model == otherwise(stated(o, "model"@), "default"@)),
{
    words_differ();
    assert(o.str_attr("key"@) == stated(o, "key"@));
    assert(o.str_attr("model"@) == stated(o, "model"@));
}

/// The runtime evaluates the control operations, and what a program declares and
/// computes, itself.
pub proof fn the_runtime_evaluates_the_rest(o: OperationView)
    ensures
        is_called(o, "control"@, "if"@) ==> generic_target(o) == Ok::<
            TargetView,
            crate::diagnostic::DiagnosticView,
        >(TargetView::Builtin(Builtin::If)),
        is_called(o, "control"@, "loop"@) ==> generic_target(o) == Ok::<
            TargetView,
            crate::diagnostic::DiagnosticView,
        >(TargetView::Builtin(Builtin::Loop)),
        is_called(o, "control"@, "while"@) ==> generic_target(o) == Ok::<
            TargetView,
            crate::diagnostic::DiagnosticView,
        >(TargetView::Builtin(Builtin::While)),
        is_called(o, "control"@, "parallel"@) ==> generic_target(o) == Ok::<
            TargetView,
            crate::diagnostic::DiagnosticView,
        >(TargetView::Builtin(Builtin::Parallel)),
        is_called(o, "control"@, "yield"@) ==> generic_target(o) == Ok::<
            TargetView,
            crate::diagnostic::DiagnosticView,
        >(TargetView::Builtin(Builtin::Yield)),
        is_called(o, "agent"@, "return"@) ==> generic_target(o) == Ok::<
            TargetView,
            crate::diagnostic::DiagnosticView,
        >(TargetView::Builtin(Builtin::Return)),
        is_called(o, "agent"@, "reject"@) ==> generic_target(o) == Ok::<
            TargetView,
            crate::diagnostic::DiagnosticView,
        >(TargetView::Builtin(Builtin::Reject)),
        is_called(o, "agent"@, "verify"@) ==> generic_target(o) == Ok::<
            TargetView,
            crate::diagnostic::DiagnosticView,
        >(TargetView::Builtin(Builtin::Verify)),
        is_called(o, "agent"@, "budget"@) ==> generic_target(o) == Ok::<
            TargetView,
            crate::diagnostic::DiagnosticView,
        >(TargetView::Builtin(Builtin::Budget)),
        is_called(o, "core"@, "constant"@) ==> generic_target(o) == Ok::<
            TargetView,
            crate::diagnostic::DiagnosticView,
        >(TargetView::Builtin(Builtin::Constant)),
        is_called(o, "core"@, "cmp"@) ==> generic_target(o) == Ok::<
            TargetView,
            crate::diagnostic::DiagnosticView,
        >(TargetView::Builtin(Builtin::Compare)),
        is_called(o, "tool"@, "result"@) ==> generic_target(o) == Ok::<
            TargetView,
            crate::diagnostic::DiagnosticView,
        >(TargetView::Builtin(Builtin::Project)),
        is_called(o, "observation"@, "metric"@) ==> generic_target(o) == Ok::<
            TargetView,
            crate::diagnostic::DiagnosticView,
        >(TargetView::Builtin(Builtin::Metric)),
{
    words_differ();
}

/// The dialects have different names.
proof fn dialects_differ()
    ensures
        "agent"@ != "memory"@,
        "agent"@ != "tool"@,
        "agent"@ != "core"@,
        "agent"@ != "control"@,
        "agent"@ != "observation"@,
        "memory"@ != "tool"@,
        "memory"@ != "core"@,
        "memory"@ != "control"@,
        "memory"@ != "observation"@,
        "tool"@ != "core"@,
        "tool"@ != "control"@,
        "tool"@ != "observation"@,
        "core"@ != "control"@,
        "core"@ != "observation"@,
        "control"@ != "observation"@,
{
    reveal_strlit("agent");
    reveal_strlit("memory");
    reveal_strlit("tool");
    reveal_strlit("core");
    reveal_strlit("control");
    reveal_strlit("observation");
    assert("agent"@.len() == 5 && "agent"@[0] == 'a' && "agent"@[1] == 'g' && "agent"@[2] == 'e');
    assert("memory"@.len() == 6 && "memory"@[0] == 'm' && "memory"@[1] == 'e' && "memory"@[2] == 'm');
    assert("tool"@.len() == 4 && "tool"@[0] == 't' && "tool"@[1] == 'o' && "tool"@[2] == 'o');
    assert("core"@.len() == 4 && "core"@[0] == 'c' && "core"@[1] == 'o' && "core"@[2] == 'r');
    assert("control"@.len() == 7 && "control"@[0] == 'c' && "control"@[1] == 'o' && "control"@[2] == 'n');
    assert("observation"@.len() == 11 && "observation"@[0] == 'o' && "observation"@[1] == 'b' && "observation"@[2] == 's');
}

/// The operations of the agent dialect have different names.
proof fn agent_words_differ()
    ensures
        "action"@ != "plan"@,
        "action"@ != "context"@,
        "action"@ != "input"@,
        "action"@ != "budget"@,
        "action"@ != "verify"@,
        "action"@ != "reject"@,
        "action"@ != "return"@,
        "action"@ != "func"@,
        "plan"@ != "context"@,
        "plan"@ != "input"@,
        "plan"@ != "budget"@,
        "plan"@ != "verify"@,
        "plan"@ != "reject"@,
        "plan"@ != "return"@,
        "plan"@ != "func"@,
        "context"@ != "input"@,
        "context"@ != "budget"@,
        "context"@ != "verify"@,
        "context"@ != "reject"@,
        "context"@ != "return"@,
        "context"@ != "func"@,
        "input"@ != "budget"@,
        "input"@ != "verify"@,
        "input"@ != "reject"@,
        "input"@ != "return"@,
        "input"@ != "func"@,
        "budget"@ != "verify"@,
        "budget"@ != "reject"@,
        "budget"@ != "return"@,
        "budget"@ != "func"@,
        "verify"@ != "reject"@,
        "verify"@ != "return"@,
        "verify"@ != "func"@,
        "reject"@ != "return"@,
        "reject"@ != "func"@,
        "return"@ != "func"@,
{
    reveal_strlit("action");
    reveal_strlit("plan");
    reveal_strlit("context");
    reveal_strlit("input");
    reveal_strlit("budget");
    reveal_strlit("verify");
    reveal_strlit("reject");
    reveal_strlit("return");
    reveal_strlit("func");
    assert("action"@.len() == 6 && "action"@[0] == 'a' && "action"@[1] == 'c' && "action"@[2] == 't');
    assert("plan"@.len() == 4 && "plan"@[0] == 'p' && "plan"@[1] == 'l' && "plan"@[2] == 'a');
    assert("context"@.len() == 7 && "context"@[0] == 'c' && "context"@[1] == 'o' && "context"@[2] == 'n');
    assert("input"@.len() == 5 && "input"@[0] == 'i' && "input"@[1] == 'n' && "input"@[2] == 'p');
    assert("budget"@.len() == 6 && "budget"@[0] == 'b' && "budget"@[1] == 'u' && "budget"@[2] == 'd');
    assert("verify"@.len() == 6 && "verify"@[0] == 'v' && "verify"@[1] == 'e' && "verify"@[2] == 'r');
    assert("reject"@.len() == 6 && "reject"@[0] == 'r' && "reject"@[1] == 'e' && "reject"@[2] == 'j');
    assert("return"@.len() == 6 && "return"@[0] == 'r' && "return"@[1] == 'e' && "return"@[2] == 't');
    assert("func"@.len() == 4 && "func"@[0] == 'f' && "func"@[1] == 'u' && "func"@[2] == 'n');
}

/// The control operations have different names.
proof fn control_words_differ()
    ensures
        "if"@ != "loop"@,
        "if"@ != "while"@,
        "if"@ != "parallel"@,
        "if"@ != "yield"@,
        "loop"@ != "while"@,
        "loop"@ != "parallel"@,
        "loop"@ != "yield"@,
        "while"@ != "parallel"@,
        "while"@ != "yield"@,
        "parallel"@ != "yield"@,
{
    reveal_strlit("if");
    reveal_strlit("loop");
    reveal_strlit("while");
    reveal_strlit("parallel");
    reveal_strlit("yield");
    assert("if"@.len() == 2 && "if"@[0] == 'i' && "if"@[1] == 'f');
    assert("loop"@.len() == 4 && "loop"@[0] == 'l' && "loop"@[1] == 'o' && "loop"@[2] == 'o');
    assert("while"@.len() == 5 && "while"@[0] == 'w' && "while"@[1] == 'h' && "while"@[2] == 'i');
    assert("parallel"@.len() == 8 && "parallel"@[0] == 'p' && "parallel"@[1] == 'a' && "parallel"@[2] == 'r');
    assert("yield"@.len() == 5 && "yield"@[0] == 'y' && "yield"@[1] == 'i' && "yield"@[2] == 'e');
}

/// The operations of the other dialects have different names.
proof fn other_words_differ()
    ensures
        "call"@ != "result"@,
        "call"@ != "capability"@,
        "result"@ != "capability"@,
        "read"@ != "write"@,
        "read"@ != "search"@,
        "write"@ != "search"@,
        "cmp"@ != "constant"@,
        "cmp"@ != "cast"@,
        "metric"@ != "create"@,
        "metric"@ != "error"@,
        "create"@ != "error"@,
        "constant"@ != "cast"@,
{
    reveal_strlit("call");
    reveal_strlit("result");
    reveal_strlit("capability");
    reveal_strlit("read");
    reveal_strlit("write");
    reveal_strlit("search");
    reveal_strlit("constant");
    reveal_strlit("cast");
    reveal_strlit("cmp");
    reveal_strlit("metric");
    reveal_strlit("create");
    reveal_strlit("error");
    assert("call"@.len() == 4 && "call"@[0] == 'c' && "call"@[1] == 'a' && "call"@[2] == 'l');
    assert("result"@.len() == 6 && "result"@[0] == 'r' && "result"@[1] == 'e' && "result"@[2] == 's');
    assert("capability"@.len() == 10 && "capability"@[0] == 'c' && "capability"@[1] == 'a' && "capability"@[2] == 'p');
    assert("read"@.len() == 4 && "read"@[0] == 'r' && "read"@[1] == 'e' && "read"@[2] == 'a');
    assert("write"@.len() == 5 && "write"@[0] == 'w' && "write"@[1] == 'r' && "write"@[2] == 'i');
    assert("search"@.len() == 6 && "search"@[0] == 's' && "search"@[1] == 'e' && "search"@[2] == 'a');
    assert("constant"@.len() == 8 && "constant"@[0] == 'c' && "constant"@[1] == 'o' && "constant"@[2] == 'n');
    assert("cast"@.len() == 4 && "cast"@[0] == 'c' && "cast"@[1] == 'a' && "cast"@[2] == 's');
    assert("cmp"@.len() == 3 && "cmp"@[0] == 'c' && "cmp"@[1] == 'm' && "cmp"@[2] == 'p');
    assert("metric"@.len() == 6 && "metric"@[0] == 'm' && "metric"@[1] == 'e' && "metric"@[2] == 't');
    assert("create"@.len() == 6 && "create"@[0] == 'c' && "create"@[1] == 'r' && "create"@[2] == 'e');
    assert("error"@.len() == 5 && "error"@[0] == 'e' && "error"@[1] == 'r' && "error"@[2] == 'r');
}

/// The words that operations are named by differ.
pub proof fn words_differ()
    ensures
        "agent"@ != "memory"@,
        "agent"@ != "tool"@,
        "agent"@ != "core"@,
        "agent"@ != "control"@,
        "agent"@ != "observation"@,
        "memory"@ != "tool"@,
        "memory"@ != "core"@,
        "memory"@ != "control"@,
        "memory"@ != "observation"@,
        "tool"@ != "core"@,
        "tool"@ != "control"@,
        "tool"@ != "observation"@,
        "core"@ != "control"@,
        "core"@ != "observation"@,
        "control"@ != "observation"@,
        "action"@ != "plan"@,
        "action"@ != "context"@,
        "action"@ != "input"@,
        "action"@ != "budget"@,
        "action"@ != "verify"@,
        "action"@ != "reject"@,
        "action"@ != "return"@,
        "action"@ != "func"@,
        "plan"@ != "context"@,
        "plan"@ != "input"@,
        "plan"@ != "budget"@,
        "plan"@ != "verify"@,
        "plan"@ != "reject"@,
        "plan"@ != "return"@,
        "plan"@ != "func"@,
        "context"@ != "input"@,
        "context"@ != "budget"@,
        "context"@ != "verify"@,
        "context"@ != "reject"@,
        "context"@ != "return"@,
        "context"@ != "func"@,
        "input"@ != "budget"@,
        "input"@ != "verify"@,
        "input"@ != "reject"@,
        "input"@ != "return"@,
        "input"@ != "func"@,
        "budget"@ != "verify"@,
        "budget"@ != "reject"@,
        "budget"@ != "return"@,
        "budget"@ != "func"@,
        "verify"@ != "reject"@,
        "verify"@ != "return"@,
        "verify"@ != "func"@,
        "reject"@ != "return"@,
        "reject"@ != "func"@,
        "return"@ != "func"@,
        "if"@ != "loop"@,
        "if"@ != "while"@,
        "if"@ != "parallel"@,
        "if"@ != "yield"@,
        "loop"@ != "while"@,
        "loop"@ != "parallel"@,
        "loop"@ != "yield"@,
        "while"@ != "parallel"@,
        "while"@ != "yield"@,
        "parallel"@ != "yield"@,
        "call"@ != "result"@,
        "call"@ != "capability"@,
        "result"@ != "capability"@,
        "read"@ != "write"@,
        "read"@ != "search"@,
        "write"@ != "search"@,
        "cmp"@ != "constant"@,
        "cmp"@ != "cast"@,
        "metric"@ != "create"@,
        "metric"@ != "error"@,
        "create"@ != "error"@,
        "constant"@ != "cast"@,
{
    dialects_differ();
    agent_words_differ();
    control_words_differ();
    other_words_differ();
}

// --------------------------------------------------------------------- steps

/// A step is its operation: it does what the operation says, on what it says,
/// with what it says, where the backend says.
pub proof fn a_step_is_its_operation<B: Backend>(
    p: Planner<B>,
    m: ModuleView,
    op: OperationId,
    fuel: nat,
)
    ensures
        match (step_plan(p, m, op, fuel).0, p.backend.lowered(m, op)) {
            (Some(s), Ok(target)) => {
                let o = m.op(op);
                &&& s.op == op
                &&& s.target == target
                &&& s.name == o.name.text()
                &&& s.literal == o.literal
                &&& s.operands == o.operands
                &&& s.results == o.results
                &&& s.attributes == o.attributes
                &&& s.effect == o.effect
            },
            (None, Err(d)) => step_plan(p, m, op, fuel).1.contains(d),
            _ => false,
        },
{
    if let Err(d) = p.backend.lowered(m, op) {
        assert(seq![d][0] == d);
    }
}

/// The plan of the `n`-th region of an operation: that of its first block.
pub open spec fn region_of_plan<B: Backend>(
    p: Planner<B>,
    m: ModuleView,
    op: OperationId,
    n: int,
    fuel: nat,
) -> PlanView {
    block_plan(p, m, m.region(m.op(op).regions[n]).blocks[0], fuel).0
}

/// The most often a loop runs: as often as it says, and once where it does not
/// say.
pub open spec fn stated_bound(o: OperationView) -> i64 {
    match stated_number(o, "max_iterations"@) {
        Some(n) => n,
        None => 1,
    }
}

/// The nested plans of a control operation are those of its regions: the first
/// is taken and the second, if any, is the alternative; a loop runs its first
/// region with the first argument of its block bound; of a `control.while` the
/// first region is the condition and the second the body.
pub proof fn control_runs_its_regions<B: Backend>(
    p: Planner<B>,
    m: ModuleView,
    op: OperationId,
    fuel: nat,
)
    requires
        fuel > 0,
        p.backend.lowered(m, op) is Ok,
    ensures
        ({
            let o = m.op(op);
            let less = (fuel - 1) as nat;
            let control = step_plan(p, m, op, fuel).0->0.control;
            &&& is_called(o, "control"@, "if"@) ==> (control matches Some(
                ControlView::If { taken, otherwise },
            ) && taken == region_of_plan(p, m, op, 0, less) && otherwise == if o.regions.len() >= 2 {
                Some(region_of_plan(p, m, op, 1, less))
            } else {
                None
            })
            &&& is_called(o, "control"@, "loop"@) ==> (control matches Some(
                ControlView::Loop { binding, max_iterations, body },
            ) && max_iterations == stated_bound(o) && body == region_of_plan(p, m, op, 0, less)
                && binding == ({
                let args = m.block(m.region(o.regions[0]).blocks[0]).args;
                if args.len() > 0 {
                    Some(args[0])
                } else {
                    None
                }
            }))
            &&& is_called(o, "control"@, "while"@) ==> (control matches Some(
                ControlView::While { condition, max_iterations, body },
            ) && max_iterations == stated_bound(o) && condition == region_of_plan(p, m, op, 0, less)
                && body == region_of_plan(p, m, op, 1, less))
            &&& is_called(o, "control"@, "parallel"@) ==> (control matches Some(
                ControlView::Parallel { body },
            ) && body == region_of_plan(p, m, op, 0, less))
            &&& o.name.dialect != "control"@ ==> control is None
        }),
{
    words_differ();
    let o = m.op(op);
    assert(o.int_attr("max_iterations"@) == stated_number(o, "max_iterations"@));
}

/// A step has a key exactly when running it twice would show: it changes
/// something, or asks a model.
pub proof fn what_must_not_repeat_has_a_key<B: Backend>(
    p: Planner<B>,
    m: ModuleView,
    op: OperationId,
    fuel: nat,
)
    ensures
        step_plan(p, m, op, fuel).0 matches Some(s) ==> (s.idempotency_key is Some <==> match m.op(
            op,
        ).effect {
            EffectView::WriteExternal(_) | EffectView::Irreversible(_) | EffectView::Stochastic =>
                true,
            EffectView::Pure | EffectView::ReadExternal(_) => false,
        }),
{
}

/// What stands before and after the last colon of a text is told by the text.
proof fn last_colon_splits(a: Seq<char>, x: Seq<char>, b: Seq<char>, y: Seq<char>)
    requires
        a + ":"@ + x == b + ":"@ + y,
        !x.contains(':'),
        !y.contains(':'),
    ensures
        a == b,
        x == y,
{
    reveal_strlit(":");
    let s = a + ":"@ + x;
    let t = b + ":"@ + y;
    assert(":"@.len() == 1 && ":"@[0] == ':');
    assert(s.len() == a.len() + 1 + x.len());
    assert(t.len() == b.len() + 1 + y.len());
    assert(s[a.len() as int] == ':');
    assert(t[b.len() as int] == ':');
    if a.len() < b.len() {
        assert(s[b.len() as int] == x[b.len() - a.len() - 1]);
        assert(x.contains(x[b.len() - a.len() - 1]));
    } else if b.len() < a.len() {
        assert(t[a.len() as int] == y[a.len() - b.len() - 1]);
        assert(y.contains(y[a.len() - b.len() - 1]));
    }
    assert(a =~= s.take(a.len() as int));
    assert(b =~= t.take(b.len() as int));
    assert(x =~= s.skip(a.len() as int + 1));
    assert(y =~= t.skip(b.len() as int + 1));
}

proof fn digits_hold_no_colon(n: nat)
    ensures
        !nat_text(n).contains(':'),
{
    crate::relex::decimals(n);
    if nat_text(n).contains(':') {
        let k = choose|k: int| 0 <= k < nat_text(n).len() && nat_text(n)[k] == ':';
        assert(crate::lexer::is_digit(nat_text(n)[k]));
    }
}

/// A key names the module, its version and the operation: no two operations share
/// one, in one module or in two, nor do two versions of a module.
pub proof fn keys_name_the_version(
    m: ModuleView,
    a: OperationView,
    n: ModuleView,
    b: OperationView,
)
    requires
        idempotency_key(m, a) is Some,
        idempotency_key(m, a) == idempotency_key(n, b),
    ensures
        m.name == n.name,
        m.version == n.version,
        a.id.spec_index() == b.id.spec_index(),
{
    let x = nat_text(a.id.spec_index() as nat);
    let y = nat_text(b.id.spec_index() as nat);
    let v = nat_text(m.version as nat);
    let w = nat_text(n.version as nat);
    digits_hold_no_colon(a.id.spec_index() as nat);
    digits_hold_no_colon(b.id.spec_index() as nat);
    digits_hold_no_colon(m.version as nat);
    digits_hold_no_colon(n.version as nat);
    last_colon_splits(m.name + ":"@ + v, x, n.name + ":"@ + w, y);
    last_colon_splits(m.name, v, n.name, w);
    crate::text::nat_text_injective(a.id.spec_index() as nat, b.id.spec_index() as nat);
    crate::text::nat_text_injective(m.version as nat, n.version as nat);
}

// ----------------------------------------------------------------- estimates

/// A count that an operation states: an integer that is not negative.
pub open spec fn stated_count(o: OperationView, name: Seq<char>) -> Option<u64> {
    match stated_number(o, name) {
        Some(n) => if n >= 0 {
            Some(n as u64)
        } else {
            None
        },
        None => None,
    }
}

/// Whether a count is the stated one, or the assumed one where none is stated.
pub open spec fn stated_or(count: u64, stated: Option<u64>, assumed: u64) -> bool {
    match stated {
        Some(n) => count == n,
        None => count == assumed,
    }
}

/// What one operation is assumed to cost is what such a target costs, but for
/// the tokens and the time that the operation states itself.
pub proof fn stated_estimates_count(e: Estimator, o: OperationView, target: TargetView)
    ensures
        ({
            let assumed = match target {
                TargetView::ToolCall { .. } => e.tool_call,
                TargetView::Inference { .. } => e.inference,
                TargetView::Memory { .. } => e.memory,
                TargetView::Builtin(_) => e.builtin,
            };
            let cost = e.estimated(o, target);
            &&& cost.llm_calls == assumed.llm_calls
            &&& cost.tool_calls == assumed.tool_calls
            &&& stated_or(
                cost.latency_ms,
                stated_count(o, "est_latency_ms"@),
                assumed.latency_ms,
            )
            &&& stated_or(
                cost.input_tokens,
                stated_count(o, "est_input_tokens"@),
                assumed.input_tokens,
            )
            &&& stated_or(
                cost.output_tokens,
                stated_count(o, "est_output_tokens"@),
                assumed.output_tokens,
            )
        }),
{
    assert(o.int_attr("est_latency_ms"@) == stated_number(o, "est_latency_ms"@));
    assert(o.int_attr("est_input_tokens"@) == stated_number(o, "est_input_tokens"@));
    assert(o.int_attr("est_output_tokens"@) == stated_number(o, "est_output_tokens"@));
}

/// The estimate of a step is that of its operation, with what its nested plans
/// cost where it owns any.
pub proof fn a_step_costs_what_its_operation_does<B: Backend>(
    p: Planner<B>,
    m: ModuleView,
    op: OperationId,
    fuel: nat,
)
    ensures
        step_plan(p, m, op, fuel).0 matches Some(s) ==> s.estimated == match s.control {
            Some(c) => control_cost(c, p.estimator.estimated(m.op(op), s.target)),
            None => p.estimator.estimated(m.op(op), s.target),
        },
{
}

// ------------------------------------------------------------------- budgets

/// A budget is what an `agent.budget` states, each limit under its own name; a
/// limit it does not state, or states as a negative number, is none.
pub proof fn a_budget_is_what_is_stated(o: OperationView)
    ensures
        Budget::declared(o).token_budget == stated_count(o, "token_budget"@),
        Budget::declared(o).latency_budget_ms == stated_count(o, "latency_budget_ms"@),
        Budget::declared(o).llm_call_budget == stated_count(o, "llm_call_budget"@),
        Budget::declared(o).tool_call_budget == stated_count(o, "tool_call_budget"@),
{
    assert(o.int_attr("token_budget"@) == stated_number(o, "token_budget"@));
    assert(o.int_attr("latency_budget_ms"@) == stated_number(o, "latency_budget_ms"@));
    assert(o.int_attr("llm_call_budget"@) == stated_number(o, "llm_call_budget"@));
    assert(o.int_attr("tool_call_budget"@) == stated_number(o, "tool_call_budget"@));
}

/// Whether an operation declares a budget.
pub open spec fn declares_a_budget(m: ModuleView, op: OperationId) -> bool {
    is_called(m.op(op), "agent"@, "budget"@)
}

/// The budget that counts is the first that is declared.
pub proof fn the_first_budget_counts(m: ModuleView, ops: Seq<OperationId>, from: int) -> (i: int)
    requires
        0 <= from <= ops.len(),
    ensures
        from <= i <= ops.len(),
        forall|k: int| from <= k < i ==> !declares_a_budget(m, #[trigger] ops[k]),
        i < ops.len() ==> declares_a_budget(m, ops[i]) && declared_budget(m, ops, from) == Some(
            Budget::declared(m.op(ops[i])),
        ),
        i == ops.len() ==> declared_budget(m, ops, from) is None,
    decreases ops.len() - from,
{
    if from >= ops.len() || declares_a_budget(m, ops[from]) {
        from
    } else {
        the_first_budget_counts(m, ops, from + 1)
    }
}

/// Whether a cost stays within every limit of a budget.
pub open spec fn is_within(cost: Cost, b: Budget) -> bool {
    &&& b.token_budget matches Some(n) ==> cost.input_tokens + cost.output_tokens <= n || (n
        == u64::MAX)
    &&& b.latency_budget_ms matches Some(n) ==> cost.latency_ms <= n
    &&& b.llm_call_budget matches Some(n) ==> cost.llm_calls <= n
    &&& b.tool_call_budget matches Some(n) ==> cost.tool_calls <= n
}

/// A cost overruns a budget exactly when it is not within every limit of it.
pub proof fn an_overrun_is_a_limit_passed(cost: Cost, b: Budget)
    ensures
        b.first_overrun(cost) is None <==> is_within(cost, b),
        b.first_overrun(cost) == Some(Overrun::Latency) ==> cost.latency_ms
            > b.latency_budget_ms->0,
        b.first_overrun(cost) == Some(Overrun::LlmCalls) ==> cost.llm_calls > b.llm_call_budget->0,
        b.first_overrun(cost) == Some(Overrun::ToolCalls) ==> cost.tool_calls
            > b.tool_call_budget->0,
        b.first_overrun(cost) == Some(Overrun::Tokens) ==> cost.input_tokens + cost.output_tokens
            > b.token_budget->0,
{
}

// --------------------------------------------------------------- degradation

/// A plan with its loop bounds halved so many times.
pub open spec fn halvings(plan: PlanView, times: nat) -> PlanView
    decreases times,
{
    if times == 0 {
        plan
    } else {
        reduced_plan(halvings(plan, (times - 1) as nat)).0
    }
}

/// Whether a plan has a loop bound left to halve.
pub open spec fn can_be_halved(plan: PlanView) -> bool {
    reduced_plan(plan).1
}

proof fn halved_first(plan: PlanView, times: nat)
    ensures
        halvings(reduced_plan(plan).0, times) == halvings(plan, times + 1),
    decreases times,
{
    if times > 0 {
        halved_first(plan, (times - 1) as nat);
    } else {
        assert(halvings(plan, 1) == reduced_plan(halvings(plan, 0)).0);
    }
}

proof fn degrading_is_halving(s: Fitting, b: Budget, times: nat) -> (k: nat)
    requires
        s.estimated == plan_cost(s.plan),
    ensures
        k <= times,
        ({
            let out = degraded(s, b, times);
            let last = halvings(s.plan, k);
            &&& out.estimated == plan_cost(last)
            &&& forall|i: nat|
                i < k ==> !is_within(plan_cost(#[trigger] halvings(s.plan, i)), b) && can_be_halved(
                    halvings(s.plan, i),
                )
            &&& is_within(plan_cost(last), b) ==> out.plan == last && out.degradation == if k == 0 {
                s.degradation
            } else {
                Degradation::ReducedIterations
            }
            &&& k < times && !is_within(plan_cost(last), b) ==> !can_be_halved(last)
                && out.degradation == Degradation::HumanReview
            &&& k == times ==> out.plan == last
            &&& out.notes.len() == s.notes.len() + k
        }),
    decreases times,
{
    an_overrun_is_a_limit_passed(s.estimated, b);
    assert(halvings(s.plan, 0) == s.plan);
    if times == 0 {
        0
    } else {
        match b.first_overrun(s.estimated) {
            None => 0,
            Some(overrun) => {
                let (plan, reduced) = reduced_plan(s.plan);
                if reduced {
                    let next = Fitting {
                        plan,
                        estimated: plan_cost(plan),
                        notes: s.notes.push(crate::scheduler::degraded_note(overrun)),
                        degradation: Degradation::ReducedIterations,
                    };
                    let k = degrading_is_halving(next, b, (times - 1) as nat);
                    halved_first(s.plan, k);
                    assert forall|i: nat| i < k + 1 implies !is_within(
                        plan_cost(#[trigger] halvings(s.plan, i)),
                        b,
                    ) && can_be_halved(halvings(s.plan, i)) by {
                        if i > 0 {
                            let j = (i - 1) as nat;
                            halved_first(s.plan, j);
                            assert(!is_within(plan_cost(halvings(plan, j)), b));
                        }
                    }
                    k + 1
                } else {
                    0
                }
            },
        }
    }
}

/// A plan that does not fit its budget has its loop bounds halved until it does,
/// nothing is left to halve, or it was done as often as allowed; not once more,
/// and with a note for each time. Where it then fits, that is the plan, and it is
/// said to be unchanged exactly when it fitted at once; where it does not, a human
/// has to decide, and an error says so.
pub proof fn plans_are_halved_until_they_fit(plan: PlanView, b: Budget, times: nat)
    ensures
        exists|k: nat|
            {
                let out = fitted(plan, b, times);
                let last = #[trigger] halvings(plan, k);
                &&& k <= times
                &&& out.estimated == plan_cost(last)
                &&& forall|i: nat|
                    i < k ==> !is_within(plan_cost(#[trigger] halvings(plan, i)), b)
                        && can_be_halved(halvings(plan, i))
                &&& is_within(plan_cost(last), b) ==> {
                    &&& out.plan == last
                    &&& out.notes.len() == k
                    &&& out.degradation == if k == 0 {
                        Degradation::NotNeeded
                    } else {
                        Degradation::ReducedIterations
                    }
                }
                &&& !is_within(plan_cost(last), b) ==> {
                    &&& k == times || !can_be_halved(last)
                    &&& out.degradation == Degradation::HumanReview
                    &&& out.notes.len() == k + 1
                    &&& out.notes.last().is_error()
                }
            },
{
    let start = Fitting {
        plan,
        estimated: plan_cost(plan),
        notes: Seq::empty(),
        degradation: Degradation::NotNeeded,
    };
    let k = degrading_is_halving(start, b, times);
    let last = halvings(plan, k);
    an_overrun_is_a_limit_passed(plan_cost(last), b);
}

/// A function is planned from its entry block, for the budget it declares there,
/// or else the one that applies without; its parameters are the arguments of that
/// block. Planning fails exactly when there is no such function or an error was
/// met.
pub proof fn a_function_is_planned_for_its_budget<B: Backend>(
    p: Planner<B>,
    budget: Budget,
    times: nat,
    m: ModuleView,
    function: Seq<char>,
)
    ensures
        match m.function(function) {
            None => scheduled(p, budget, times, m, function) is Err,
            Some(func) => {
                let entry = m.region(m.op(func).regions[0]).blocks[0];
                let (plan, errors) = block_plan(p, m, entry, m.regions.len());
                let limits = crate::estimates::budget_for(m, function, budget);
                let fit = fitted(plan, limits, times);
                match scheduled(p, budget, times, m, function) {
                    Err(found) => found == errors && exists|i: int|
                        0 <= i < errors.len() && (#[trigger] errors[i]).is_error(),
                    Ok(out) => {
                        &&& forall|i: int|
                            0 <= i < errors.len() ==> !(#[trigger] errors[i]).is_error()
                        &&& out.plan == fit.plan
                        &&& out.estimated == fit.estimated
                        &&& out.notes == fit.notes
                        &&& out.function == function
                        &&& out.module == m.name
                        &&& out.version == m.version
                        &&& out.parameters == m.block(entry).args
                    },
                }
            },
        },
{
}

/// Whether an operation is the function of a name.
pub open spec fn is_the_function(o: OperationView, name: Seq<char>) -> bool {
    is_called(o, "agent"@, "func"@) && o.literal == Some(name)
}

proof fn the_first_function(m: ModuleView, ops: Seq<OperationId>, from: int, name: Seq<char>) -> (i:
    int)
    requires
        0 <= from <= ops.len(),
    ensures
        from <= i <= ops.len(),
        forall|k: int| from <= k < i ==> !is_the_function(m.op(#[trigger] ops[k]), name),
        i < ops.len() ==> is_the_function(m.op(ops[i]), name) && m.find_function(ops, from, name)
            == Some(ops[i]),
        i == ops.len() ==> m.find_function(ops, from, name) is None,
    decreases ops.len() - from,
{
    if from >= ops.len() || is_the_function(m.op(ops[from]), name) {
        from
    } else {
        the_first_function(m, ops, from + 1, name)
    }
}

/// A function is found by its name: it is the first live operation at the top of
/// the module that is a function and has that name, and none is found exactly
/// when there is none.
pub proof fn functions_are_found_by_name(m: ModuleView, name: Seq<char>) -> (i: int)
    ensures
        ({
            let tops = m.ops_in_region(m.body);
            &&& 0 <= i <= tops.len()
            &&& forall|k: int| 0 <= k < i ==> !is_the_function(m.op(#[trigger] tops[k]), name)
            &&& i < tops.len() ==> is_the_function(m.op(tops[i]), name) && m.function(name) == Some(
                tops[i],
            )
            &&& i == tops.len() ==> m.function(name) is None
        }),
{
    the_first_function(m, m.ops_in_region(m.body), 0, name)
}

} // verus!
