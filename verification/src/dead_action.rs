//! Dead-action elimination.
//!
//! **Validity condition.** An operation may be removed when
//!
//! 1. it produces at least one result and none of them is read, and
//! 2. its *effect summary* (itself plus everything in its regions) is
//!    replayable, that is every effect is `Pure` or `ReadExternal`.
//!
//! **Risk if violated.** Removing a silently useful side effect: a log line, a
//! cache warm-up, a write whose value nobody reads but whose happening matters.
//! Condition 2 is what keeps that from happening, and condition 1 is what keeps
//! the pass from deleting `agent.return`, `agent.verify`, `memory.write` and
//! every other operation that exists purely for its effect.
//!
//! The elimination of dead context is the same transformation restricted to
//! context-carrying values, so it is done here; the report distinguishes the
//! two so that they stay measurable apart.

use vstd::prelude::*;
use vstd::string::*;

use crate::diagnostic::{Diagnostic, DiagnosticView, Severity};
use crate::effect::EffectView;
use crate::effects::{
    all_effects, declared_by, effect_table, effect_table_exists, recorded, summarizes,
    EffectSummary,
};
use crate::ids::{OperationId, ValueId};
use crate::module::{without, Module, ModuleView, OperationView};
use crate::pass::{Pass, PassReport, PassReportView, PassTitle};
use crate::preservation::{effects_kept_on, is_free, keeps_effects, thinning_keeps_effects, thins};
use crate::regroup::{filtered_again, filtered_alike, same_action};
use crate::rules::is_pure;
use crate::traversal::all_live;
use crate::uses::{map_of, reads_of, unread, uses_in, UseMap};

verus! {

/// Removes operations whose results nobody reads and whose effects are
/// replayable.
#[derive(Clone, Copy, Debug)]
pub struct DeadActionElimination;

impl Default for DeadActionElimination {
    fn default() -> (r: DeadActionElimination)
        ensures
            r == DeadActionElimination,
    {
        DeadActionElimination
    }
}

/// Whether nothing in the program reads any result of an operation.
pub open spec fn results_unread(m: ModuleView, op: OperationId) -> bool {
    forall|i: int|
        0 <= i < m.op(op).results.len() ==> uses_in(m, #[trigger] m.op(op).results[i]).len() == 0
}

/// Whether re-running an operation, or never running it, is observationally
/// free.
pub open spec fn replayable(m: ModuleView, op: OperationId) -> bool {
    all_effects(recorded(effect_table(m), op), |e: EffectView| e.is_replayable())
}

/// Whether an operation may be removed. A function may not: it is reachable
/// from outside the module. An operation without results may not either: it
/// exists for its effect.
pub open spec fn is_dead(m: ModuleView, op: OperationId) -> bool {
    &&& m.op(op).results.len() > 0
    &&& !m.op(op).name.is("agent"@, "func"@)
    &&& results_unread(m, op)
    &&& replayable(m, op)
}

/// The operations of the program that may be removed, in program order.
pub open spec fn dead_ops(m: ModuleView) -> Seq<OperationId> {
    m.program_order(m.body).filter(|op: OperationId| is_dead(m, op))
}

/// The note on a removal. The rule tells dead context from dead actions.
pub open spec fn removal_note(o: OperationView, pure: bool) -> DiagnosticView {
    let context = o.name.is("agent"@, "context"@) || o.name.is("core"@, "constant"@) || o.name.is(
        "memory"@,
        "read"@,
    );
    DiagnosticView::plain(
        Severity::Note,
        if context {
            "dead-context"@
        } else {
            "dead-action"@
        },
        "removed "@ + (if pure {
            "pure"@
        } else {
            "read-only"@
        }) + " `"@ + o.name.text() + "`"@ + quoted_literal(o.literal)
            + ": its result is never read"@,
    ).at(o.id)
}

/// A literal in quotes, after a space, or nothing.
pub open spec fn quoted_literal(literal: Option<Seq<char>>) -> Seq<char> {
    match literal {
        Some(l) => " \""@ + l + "\""@,
        None => Seq::empty(),
    }
}

/// The module and the report after the first `n` of some operations were
/// removed.
pub open spec fn remove_ops(
    m: ModuleView,
    report: PassReportView,
    table: Seq<Seq<EffectView>>,
    ops: Seq<OperationId>,
    n: int,
) -> (ModuleView, PassReportView)
    decreases n,
{
    if n <= 0 {
        (m, report)
    } else {
        let (m1, r1) = remove_ops(m, report, table, ops, n - 1);
        let op = ops[n - 1];
        (
            m1.erase(op),
            r1.with_note(removal_note(m1.op(op), is_pure(table, op))).with_removed(op),
        )
    }
}

/// How many of the first `n` operations are not erased.
pub open spec fn live_count(m: ModuleView, n: int) -> nat
    decreases n,
{
    if n <= 0 {
        0
    } else {
        live_count(m, n - 1) + if m.ops[n - 1].erased {
            0nat
        } else {
            1
        }
    }
}

/// Removes dead operations until none is left: removing one can make the
/// producers of its operands dead in turn.
pub open spec fn eliminated(m: ModuleView, report: PassReportView) -> (ModuleView, PassReportView)
    decreases live_count(m, m.ops.len() as int),
{
    let dead = dead_ops(m);
    if dead.len() == 0 {
        (m, report)
    } else {
        let (m2, r2) = remove_ops(m, report, effect_table(m), dead, dead.len() as int);
        if live_count(m2, m2.ops.len() as int) < live_count(m, m.ops.len() as int) {
            eliminated(m2, r2)
        } else {
            (m2, r2)
        }
    }
}

fn is_dead_op(module: &Module, op: OperationId, uses: &UseMap, effects: &EffectSummary) -> (r: bool)
    requires
        module@.in_bounds(),
        module@.has_op(op),
        map_of(module@, uses@),
        effects@ == effect_table(module@),
    ensures
        r == is_dead(module@, op),
{
    let ghost m = module@;
    let operation = module.op(op);
    proof {
        assert(m.op_in_bounds(m.ops[op.spec_index()]));
        assert(unread(uses@, m, op) == results_unread(m, op)) by {
            assert forall|i: int| 0 <= i < m.op(op).results.len() implies reads_of(
                uses@,
                #[trigger] m.op(op).results[i],
            ) == uses_in(m, m.op(op).results[i]) by {
                let v = m.op(op).results[i];
                assert(m.has_value(v));
                assert(uses@[v.spec_index()] == uses_in(m, ValueId::at(v.spec_index())));
            }
            if unread(uses@, m, op) {
                assert forall|i: int| 0 <= i < m.op(op).results.len() implies uses_in(
                    m,
                    #[trigger] m.op(op).results[i],
                ).len() == 0 by {
                    assert(reads_of(uses@, m.op(op).results[i]).len() == 0);
                }
            }
            if results_unread(m, op) {
                assert forall|i: int| 0 <= i < m.op(op).results.len() implies reads_of(
                    uses@,
                    #[trigger] m.op(op).results[i],
                ).len() == 0 by {
                    assert(uses_in(m, m.op(op).results[i]).len() == 0);
                }
            }
        }
    }
    // An operation with no results exists for its effect. Even a `#pure` one:
    // `agent.verify` and `agent.reject` produce nothing and must survive.
    if operation.results.len() == 0 {
        return false;
    }
    // A function is reachable from outside the module.
    if operation.name.is("agent", "func") {
        return false;
    }
    // Condition 1: nothing reads what it produces.
    if !uses.results_are_unread(module, op) {
        return false;
    }
    // Condition 2: re-running it, or never running it, is observationally free.
    effects.is_replayable(op)
}

/// Records which rule a removal belongs to.
fn note_removal(module: &Module, op: OperationId, effects: &EffectSummary, report: &mut PassReport)
    requires
        module@.in_bounds(),
        module@.has_op(op),
    ensures
        final(report)@ == old(report)@.with_note(
            removal_note(module@.op(op), is_pure(effects@, op)),
        ),
{
    let operation = module.op(op);
    let context = operation.name.is("agent", "context") || operation.name.is("core", "constant")
        || operation.name.is("memory", "read");
    let rule = if context {
        "dead-context"
    } else {
        "dead-action"
    };
    let mut message = String::from_str("removed ");
    if effects.is_pure(op) {
        message.append("pure");
    } else {
        message.append("read-only");
    }
    message.append(" `");
    operation.name.push_text(&mut message);
    message.append("`");
    let ghost before = message@;
    if let Some(literal) = &operation.literal {
        message.append(" \"");
        message.append(literal.as_str());
        message.append("\"");
    }
    assert(message@ =~= before + quoted_literal(operation@.literal));
    message.append(": its result is never read");
    report.note(Diagnostic::note(rule, message).at(operation.id));
}

proof fn lemma_live_count_le(a: ModuleView, b: ModuleView, n: int)
    requires
        n <= a.ops.len(),
        a.ops.len() == b.ops.len(),
        forall|i: int| 0 <= i < a.ops.len() ==> (a.ops[i].erased ==> (#[trigger] b.ops[i]).erased),
    ensures
        live_count(b, n) <= live_count(a, n),
    decreases n,
{
    if n > 0 {
        lemma_live_count_le(a, b, n - 1);
        assert(a.ops[n - 1].erased ==> b.ops[n - 1].erased);
    }
}

proof fn lemma_live_count_lt(a: ModuleView, b: ModuleView, n: int, k: int)
    requires
        0 <= k < n <= a.ops.len(),
        a.ops.len() == b.ops.len(),
        forall|i: int| 0 <= i < a.ops.len() ==> (a.ops[i].erased ==> (#[trigger] b.ops[i]).erased),
        !a.ops[k].erased,
        b.ops[k].erased,
    ensures
        live_count(b, n) < live_count(a, n),
    decreases n,
{
    if k < n - 1 {
        lemma_live_count_lt(a, b, n - 1, k);
        assert(a.ops[n - 1].erased ==> b.ops[n - 1].erased);
    } else {
        lemma_live_count_le(a, b, n - 1);
    }
}

/// Removing operations erases those, and changes no operation in any other
/// respect than where it sits.
pub proof fn lemma_remove_ops(
    m: ModuleView,
    report: PassReportView,
    table: Seq<Seq<EffectView>>,
    ops: Seq<OperationId>,
    n: int,
    levels: Seq<nat>,
)
    requires
        m.in_bounds(),
        m.leveled(levels),
        n <= ops.len(),
        forall|i: int| 0 <= i < ops.len() ==> m.has_op(#[trigger] ops[i]),
    ensures
        ({
            let m2 = remove_ops(m, report, table, ops, n).0;
            &&& m2.in_bounds()
            &&& m2.leveled(levels)
            &&& m2.ops.len() == m.ops.len()
            &&& forall|i: int|
                0 <= i < m.ops.len() ==> (#[trigger] m2.ops[i]).erased == (m.ops[i].erased
                    || ops.take(
                    if n < 0 {
                        0
                    } else {
                        n
                    },
                ).contains(OperationId::at(i)))
            &&& forall|i: int|
                0 <= i < m.ops.len() ==> (#[trigger] m2.ops[i]).effect == m.ops[i].effect
                    && m2.ops[i].results == m.ops[i].results && m2.ops[i].name == m.ops[i].name
        }),
    decreases n,
{
    if n > 0 {
        lemma_remove_ops(m, report, table, ops, n - 1, levels);
        let m1 = remove_ops(m, report, table, ops, n - 1).0;
        let op = ops[n - 1];
        assert(m.has_op(op));
        crate::structure::erase_keeps(m1, levels, op);
        let m2 = m1.erase(op);
        assert(m1.op_in_bounds(m1.ops[op.spec_index()]));
        let x = ops.take(n - 1);
        let y = ops.take(n);
        assert(y =~= x.push(op));
        assert forall|i: int| 0 <= i < m.ops.len() implies (#[trigger] m2.ops[i]).erased == (
        m.ops[i].erased || y.contains(OperationId::at(i))) by {
            let id = OperationId::at(i);
            if x.contains(id) {
                let k = choose|k: int| 0 <= k < x.len() && x[k] == id;
                assert(y[k] == id);
            }
            if id == op {
                assert(y[n - 1] == id);
            }
            if y.contains(id) && id != op {
                let k = choose|k: int| 0 <= k < y.len() && y[k] == id;
                assert(x[k] == id);
            }
            assert(m1.ops[i].erased == (m.ops[i].erased || x.contains(id)));
        }
        assert forall|i: int| 0 <= i < m.ops.len() implies (#[trigger] m2.ops[i]).effect
            == m.ops[i].effect && m2.ops[i].results == m.ops[i].results && m2.ops[i].name
            == m.ops[i].name by {
            assert(m1.ops[i].effect == m.ops[i].effect);
        }
    } else {
        assert(ops.take(0) =~= Seq::empty());
    }
}

/// Every round removes something, so there is less left.
pub proof fn lemma_round_shrinks(m: ModuleView, report: PassReportView, levels: Seq<nat>)
    requires
        m.in_bounds(),
        m.leveled(levels),
        dead_ops(m).len() > 0,
    ensures
        ({
            let dead = dead_ops(m);
            let m2 = remove_ops(m, report, effect_table(m), dead, dead.len() as int).0;
            live_count(m2, m2.ops.len() as int) < live_count(m, m.ops.len() as int)
        }),
{
    let dead = dead_ops(m);
    lemma_dead_ops_live(m);
    let m2 = remove_ops(m, report, effect_table(m), dead, dead.len() as int).0;
    lemma_remove_ops(m, report, effect_table(m), dead, dead.len() as int, levels);
    assert(dead.take(dead.len() as int) =~= dead);
    let op = dead[0];
    assert(m.has_op(op) && !m.op(op).erased);
    assert(dead.contains(op));
    assert(m2.ops[op.spec_index()].erased == (m.ops[op.spec_index()].erased || dead.contains(
        OperationId::at(op.spec_index()),
    )));
    lemma_live_count_lt(m, m2, m.ops.len() as int, op.spec_index());
}

/// What may be removed is live and of the program.
pub proof fn lemma_dead_ops_live(m: ModuleView)
    requires
        m.in_bounds(),
    ensures
        all_live(m, dead_ops(m)),
        forall|i: int| 0 <= i < dead_ops(m).len() ==> is_dead(m, #[trigger] dead_ops(m)[i]),
        forall|i: int|
            0 <= i < dead_ops(m).len() ==> m.program_order(m.body).contains(
                #[trigger] dead_ops(m)[i],
            ),
{
    crate::traversal::walks_are_live(m, m.body);
    let order = m.program_order(m.body);
    let keep = |op: OperationId| is_dead(m, op);
    assert forall|i: int| 0 <= i < dead_ops(m).len() implies m.has_op(#[trigger] dead_ops(m)[i])
        && !m.op(dead_ops(m)[i]).erased && is_dead(m, dead_ops(m)[i]) && order.contains(
        dead_ops(m)[i],
    ) by {
        crate::printer::lemma_filter_member(order, keep, i);
        let k = choose|k: int|
            0 <= k < order.len() && order[k] == dead_ops(m)[i] && keep(order[k]);
        assert(m.has_op(order[k]));
    }
}

impl Pass for DeadActionElimination {
    open spec fn outcome(&self, m: ModuleView) -> (ModuleView, PassReportView) {
        eliminated(m, PassReportView::empty("dead-action-elimination"@))
    }

    open spec fn title(&self) -> PassTitle {
        PassTitle {
            name: "dead-action-elimination"@,
            description: "Removes operations whose results are unread, when their effect summary is replayable."@,
        }
    }

    fn name(&self) -> (r: &'static str)
        ensures
            r@ == "dead-action-elimination"@,
    {
        "dead-action-elimination"
    }

    fn description(&self) -> (r: &'static str)
        ensures
            r@
                == "Removes operations whose results are unread, when their effect summary is replayable."@,
    {
        "Removes operations whose results are unread, when their effect summary is replayable."
    }

    fn run(&self, module: &mut Module) -> (r: PassReport) {
        let mut report = PassReport::new(self.name());
        let ghost total = self.outcome(old(module)@);
        let ghost levels = choose|levels: Seq<nat>| module@.leveled(levels);
        let mut done = false;
        // Removing one operation can make its operands' producers dead in turn,
        // so the pass iterates until nothing more is removable.
        while !done
            invariant
                module@.in_bounds(),
                module@.leveled(levels),
                !done ==> eliminated(module@, report@) == total,
                done ==> (module@, report@) == total,
            decreases
                live_count(module@, module@.ops.len() as int),
                (if done { 0int } else { 1int }),
        {
            let ghost start = module@;
            let ghost before = report@;
            assert(start.well_formed());
            let uses = UseMap::build(module);
            let effects = EffectSummary::build(module);
            let dead = find_dead(module, &uses, &effects);
            if dead.len() == 0 {
                done = true;
            } else {
                proof {
                    lemma_dead_ops_live(start);
                    lemma_round_shrinks(start, before, levels);
                }
                let mut n: usize = 0;
                while n < dead.len()
                    invariant
                        n <= dead@.len(),
                        dead@ == dead_ops(start),
                        all_live(start, dead@),
                        start.in_bounds(),
                        start.leveled(levels),
                        effects@ == effect_table(start),
                        module@.in_bounds(),
                        module@.ops.len() == start.ops.len(),
                        (module@, report@) == remove_ops(
                            start,
                            before,
                            effects@,
                            dead@,
                            n as int,
                        ),
                    decreases dead@.len() - n,
                {
                    let op = dead[n];
                    proof {
                        assert(start.has_op(dead@[n as int]));
                        lemma_remove_ops(start, before, effects@, dead@, n as int, levels);
                        lemma_remove_ops(start, before, effects@, dead@, n + 1, levels);
                        assert(module@.op_in_bounds(module@.ops[op.spec_index()]));
                    }
                    note_removal(module, op, &effects, &mut report);
                    module.erase(op);
                    report.removed(op);
                    n += 1;
                }
                proof {
                    lemma_remove_ops(start, before, effects@, dead@, dead@.len() as int, levels);
                }
            }
        }
        assert(module@.leveled(levels));
        report
    }
}

fn find_dead(module: &Module, uses: &UseMap, effects: &EffectSummary) -> (r: Vec<OperationId>)
    requires
        module@.well_formed(),
        map_of(module@, uses@),
        effects@ == effect_table(module@),
    ensures
        r@ == dead_ops(module@),
{
    let ghost m = module@;
    let ops = module.op_ids();
    let ghost keep = |op: OperationId| is_dead(m, op);
    let mut dead: Vec<OperationId> = Vec::new();
    let mut i: usize = 0;
    proof {
        crate::traversal::walks_are_live(m, m.body);
        reveal(Seq::filter);
        assert(ops@.take(0).filter(keep) =~= Seq::empty());
    }
    while i < ops.len()
        invariant
            i <= ops@.len(),
            m == module@,
            m.in_bounds(),
            all_live(m, ops@),
            keep == |op: OperationId| is_dead(m, op),
            map_of(m, uses@),
            effects@ == effect_table(m),
            dead@ == ops@.take(i as int).filter(keep),
        decreases ops@.len() - i,
    {
        let op = ops[i];
        proof {
            assert(m.has_op(ops@[i as int]));
            reveal(Seq::filter);
            assert(ops@.take(i + 1).drop_last() =~= ops@.take(i as int));
        }
        if is_dead_op(module, op, uses, effects) {
            dead.push(op);
        }
        i += 1;
    }
    assert(ops@.take(i as int) =~= ops@);
    dead
}

// -------------------------------------------------------------------- laws

/// Nothing dead is left behind.
pub proof fn elimination_is_complete(m: ModuleView, report: PassReportView)
    requires
        m.well_formed(),
    ensures
        dead_ops(eliminated(m, report).0).len() == 0,
        eliminated(m, report).0.well_formed(),
    decreases live_count(m, m.ops.len() as int),
{
    let dead = dead_ops(m);
    if dead.len() > 0 {
        let levels = choose|levels: Seq<nat>| m.leveled(levels);
        lemma_round_shrinks(m, report, levels);
        lemma_dead_ops_live(m);
        lemma_remove_ops(m, report, effect_table(m), dead, dead.len() as int, levels);
        let (m2, r2) = remove_ops(m, report, effect_table(m), dead, dead.len() as int);
        assert(m2.leveled(levels));
        elimination_is_complete(m2, r2);
    }
}

/// The effect an operation declares is part of its summary.
pub proof fn own_effect_is_summarized(m: ModuleView, op: OperationId)
    requires
        m.has_op(op),
        m.program_order(m.body).contains(op),
    ensures
        recorded(effect_table(m), op).contains(m.op(op).effect),
{
    let table = effect_table(m);
    effect_table_exists(m);
    let i = op.spec_index();
    assert(OperationId::at(i) == op);
    assert(summarizes(m, m.subtree(op), table[i]));
    assert(m.subtree(op)[0] == op);
    assert(declared_by(m, m.subtree(op), m.op(op).effect));
}

/// Only operations that read or compute are ever removed: whatever writes, is
/// irreversible or is stochastic stays, and so does every function and every
/// operation without results.
pub proof fn elimination_removes_only_free_operations(
    m: ModuleView,
    report: PassReportView,
    i: int,
)
    requires
        m.well_formed(),
        0 <= i < m.ops.len(),
        !m.ops[i].erased,
        eliminated(m, report).0.ops[i].erased,
    ensures
        m.ops[i].effect.is_replayable(),
        m.ops[i].results.len() > 0,
        !m.ops[i].name.is("agent"@, "func"@),
    decreases live_count(m, m.ops.len() as int),
{
    let dead = dead_ops(m);
    if dead.len() > 0 {
        let levels = choose|levels: Seq<nat>| m.leveled(levels);
        lemma_round_shrinks(m, report, levels);
        lemma_dead_ops_live(m);
        lemma_remove_ops(m, report, effect_table(m), dead, dead.len() as int, levels);
        let (m2, r2) = remove_ops(m, report, effect_table(m), dead, dead.len() as int);
        assert(m2.leveled(levels));
        assert(dead.take(dead.len() as int) =~= dead);
        let id = OperationId::at(i);
        assert(m2.ops[i].erased == (m.ops[i].erased || dead.contains(id)));
        assert(m2.ops[i].effect == m.ops[i].effect);
        if m2.ops[i].erased {
            let k = choose|k: int| 0 <= k < dead.len() && dead[k] == id;
            assert(is_dead(m, dead[k]));
            assert(m.program_order(m.body).contains(dead[k]));
            assert(m.in_bounds());
            own_effect_is_summarized(m, id);
            let effects = recorded(effect_table(m), id);
            let j = choose|j: int| 0 <= j < effects.len() && effects[j] == m.op(id).effect;
            assert(effects[j].is_replayable());
        } else {
            elimination_removes_only_free_operations(m2, r2, i);
        }
    }
}

/// Leaving out an operation that a filter drops anyway makes no difference.
proof fn left_out_anyway(
    ops: Seq<OperationId>,
    op: OperationId,
    keep: spec_fn(OperationId) -> bool,
)
    requires
        !keep(op),
    ensures
        without(ops, op).filter(keep) == ops.filter(keep),
    decreases ops.len(),
{
    reveal(Seq::filter);
    if ops.len() > 0 {
        let rest = ops.drop_last();
        left_out_anyway(rest, op, keep);
        if ops.last() != op {
            assert(without(ops, op).drop_last() =~= without(rest, op));
            assert(without(ops, op).last() == ops.last());
        }
    }
}

/// Removing operations leaves the blocks as they were, but for those.
pub proof fn removal_leaves_the_rest(
    m: ModuleView,
    report: PassReportView,
    table: Seq<Seq<EffectView>>,
    ops: Seq<OperationId>,
    n: int,
    levels: Seq<nat>,
)
    requires
        m.in_bounds(),
        m.leveled(levels),
        n <= ops.len(),
        forall|i: int| 0 <= i < ops.len() ==> m.has_op(#[trigger] ops[i]),
    ensures
        ({
            let m2 = remove_ops(m, report, table, ops, n).0;
            &&& m2.body == m.body
            &&& m2.regions == m.regions
            &&& m2.blocks.len() == m.blocks.len()
            &&& m2.ops.len() == m.ops.len()
            &&& forall|i: int|
                0 <= i < m.ops.len() ==> same_action(m.ops[i], #[trigger] m2.ops[i])
                    && m2.ops[i].regions == m.ops[i].regions
            &&& forall|i: int|
                0 <= i < m.blocks.len() ==> m2.live((#[trigger] m2.blocks[i]).ops) == m2.live(
                    m.blocks[i].ops,
                )
        }),
    decreases n,
{
    if n > 0 {
        removal_leaves_the_rest(m, report, table, ops, n - 1, levels);
        lemma_remove_ops(m, report, table, ops, n - 1, levels);
        lemma_remove_ops(m, report, table, ops, n, levels);
        let b = remove_ops(m, report, table, ops, n - 1).0;
        let op = ops[n - 1];
        assert(m.has_op(ops[n - 1]));
        assert(b.op_in_bounds(b.ops[op.spec_index()]));
        let c = b.erase(op);
        assert(c == remove_ops(m, report, table, ops, n).0);
        let live = |x: OperationId| !b.op(x).erased;
        let live2 = |x: OperationId| !c.op(x).erased;
        assert(!live2(op));
        assert forall|i: int| 0 <= i < m.ops.len() implies (c.ops[i].erased || !(
        #[trigger] b.ops[i]).erased) by {}
        assert forall|i: int| 0 <= i < m.blocks.len() implies c.live(
            (#[trigger] c.blocks[i]).ops,
        ) == c.live(m.blocks[i].ops) by {
            let x = b.blocks[i].ops;
            let y = m.blocks[i].ops;
            assert(b.block_in_bounds(b.blocks[i]));
            assert(m.block_in_bounds(m.blocks[i]));
            assert(b.live(x) == b.live(y));
            assert forall|k: int| 0 <= k < x.len() implies (live(#[trigger] x[k]) && live2(x[k]))
                == (live2(x[k]) && live2(x[k])) by {
                assert(b.has_op(x[k]));
                assert(c.ops[x[k].spec_index()].erased || !b.ops[x[k].spec_index()].erased);
            }
            assert forall|k: int| 0 <= k < y.len() implies (live(#[trigger] y[k]) && live2(y[k]))
                == (live2(y[k]) && live2(y[k])) by {
                assert(m.has_op(y[k]));
                assert(c.ops[y[k].spec_index()].erased || !b.ops[y[k].spec_index()].erased);
            }
            filtered_alike(x, live, live2, live2, live2);
            filtered_alike(y, live, live2, live2, live2);
            filtered_again(x, live2);
            filtered_again(y, live2);
            assert(x.filter(live2) == y.filter(live2));
            left_out_anyway(x, op, live2);
            assert(c.blocks[i].ops == x || c.blocks[i].ops == without(x, op));
        }
    }
}

/// What the summary of an operation calls replayable is free: nothing in it or
/// nested in it lasts.
proof fn replayable_is_free(m: ModuleView, op: OperationId)
    requires
        m.has_op(op),
        m.program_order(m.body).contains(op),
        replayable(m, op),
    ensures
        is_free(m, op),
{
    let table = effect_table(m);
    effect_table_exists(m);
    let i = op.spec_index();
    assert(OperationId::at(i) == op);
    assert(summarizes(m, m.subtree(op), table[i]));
    let effects = recorded(table, op);
    assert forall|k: int| 0 <= k < m.subtree(op).len() implies m.op(
        #[trigger] m.subtree(op)[k],
    ).effect.is_replayable() by {
        let e = m.op(m.subtree(op)[k]).effect;
        assert(declared_by(m, m.subtree(op), e));
        assert(effects.contains(e));
        let j = choose|j: int| 0 <= j < effects.len() && effects[j] == e;
        assert(effects[j].is_replayable());
    }
}

/// Elimination leaves what a program does to the outside alone.
pub proof fn elimination_keeps_effects(m: ModuleView, report: PassReportView)
    requires
        m.well_formed(),
    ensures
        keeps_effects(m, eliminated(m, report).0),
        eliminated(m, report).0.well_formed(),
    decreases live_count(m, m.ops.len() as int),
{
    elimination_is_complete(m, report);
    let dead = dead_ops(m);
    if dead.len() > 0 {
        let levels = choose|levels: Seq<nat>| m.leveled(levels);
        let n = dead.len() as int;
        let (m2, r2) = remove_ops(m, report, effect_table(m), dead, n);
        lemma_round_shrinks(m, report, levels);
        lemma_dead_ops_live(m);
        lemma_remove_ops(m, report, effect_table(m), dead, n, levels);
        removal_leaves_the_rest(m, report, effect_table(m), dead, n, levels);
        assert(dead.take(n) =~= dead);
        assert forall|i: int| 0 <= i < m.ops.len() implies same_action(
            m.ops[i],
            #[trigger] m2.ops[i],
        ) && m2.ops[i].regions == m.ops[i].regions && (m.ops[i].erased ==> m2.ops[i].erased) && (
        m2.ops[i].erased && !m.ops[i].erased ==> is_free(m, OperationId::at(i))) by {
            if m2.ops[i].erased && !m.ops[i].erased {
                let id = OperationId::at(i);
                let k = choose|k: int| 0 <= k < dead.len() && dead[k] == id;
                assert(is_dead(m, dead[k]));
                assert(m.program_order(m.body).contains(dead[k]));
                assert(m.has_op(dead[k]));
                replayable_is_free(m, id);
            }
        }
        assert(thins(m, m2));
        thinning_keeps_effects(m, m2);
        assert(m2.leveled(levels));
        elimination_keeps_effects(m2, r2);
        effects_kept_on(m, m2, eliminated(m2, r2).0);
    } else {
        assert(thins(m, m));
        thinning_keeps_effects(m, m);
    }
}

} // verus!
