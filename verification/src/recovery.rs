//! Crash recovery.
//!
//! ```text
//! CRASH → Recovery Manager → last valid checkpoint → state validation → resume
//! ```
//!
//! Recovery here is replay, not rewind. The plan is re-run from the top with
//! the ledger restored from the last checkpoint; every non-replayable step
//! whose key is already recorded returns that result instead of touching the
//! world, and every replayable step simply runs again — which is safe, because
//! that is exactly what `Pure` and `ReadExternal` mean.
//!
//! So the effect system is not only what makes the passes decidable. It is also
//! what makes recovery correct: without it there would be no principled way to
//! know which steps may be re-run and which must not.

use vstd::prelude::*;

use crate::assoc::{
    insert, insert_keeps_others, insert_keeps_sorted, insert_then_lookup, keys, lookup, sorted,
};
use crate::event::{appended, dense, event_views, EventKind, EventKindView, EventLog, EventView};
use crate::state::{CheckpointStore, CheckpointView, ExecutionState, Ledger, StateView};
use crate::value::ValueView;

verus! {

/// What a resume decided to start from.
#[derive(Debug, PartialEq)]
pub struct Resumption {
    /// The state to hand the executor.
    pub state: ExecutionState,
    /// The checkpoint it came from, or `None` when there was none and the run
    /// starts over.
    pub from_checkpoint: Option<u64>,
    /// How many completed effects were recovered from the log *after* the
    /// checkpoint — the writes whose acknowledgement the crash swallowed.
    pub recovered_from_log: usize,
}

impl Clone for Resumption {
    /// A copy of the decision.
    fn clone(&self) -> (r: Resumption)
        ensures
            r.state@ == self.state@,
            r.from_checkpoint == self.from_checkpoint,
            r.recovered_from_log == self.recovered_from_log,
    {
        Resumption {
            state: self.state.clone(),
            from_checkpoint: self.from_checkpoint,
            recovered_from_log: self.recovered_from_log,
        }
    }
}

/// The ledger after the first `n` entries of a log are folded into it, those
/// before `position` left out.
pub open spec fn folded(
    log: Seq<EventView>,
    position: u64,
    ledger: Seq<(Seq<char>, ValueView)>,
    n: int,
) -> Seq<(Seq<char>, ValueView)>
    decreases n,
{
    if n <= 0 {
        ledger
    } else {
        let before = folded(log, position, ledger, n - 1);
        if log[n - 1].sequence < position {
            before
        } else {
            match log[n - 1].kind.completed() {
                Some((key, result)) => insert(before, key, result),
                None => before,
            }
        }
    }
}

/// How many of the first `n` entries of a log complete an effect the ledger
/// did not know of.
pub open spec fn recovered(
    log: Seq<EventView>,
    position: u64,
    ledger: Seq<(Seq<char>, ValueView)>,
    n: int,
) -> nat
    decreases n,
{
    if n <= 0 {
        0
    } else {
        let before = recovered(log, position, ledger, n - 1);
        match log[n - 1].kind {
            EventKindView::Effect { idempotency_key: Some(key), .. } if log[n - 1].sequence
                >= position && lookup(folded(log, position, ledger, n - 1), key) is None =>
                before + 1,
            _ => before,
        }
    }
}

/// Rebuilds a resumable state out of a checkpoint store and an event log.
#[derive(Clone, Copy, Debug)]
pub struct RecoveryManager;

/// Where a resume starts: the state and the log position of the last
/// checkpoint, or the very beginning.
pub open spec fn resumed_from(saved: Seq<CheckpointView>) -> (StateView, u64) {
    if saved.len() > 0 {
        (saved.last().state, saved.last().log_position)
    } else {
        (StateView::fresh(), 0)
    }
}

impl Default for RecoveryManager {
    fn default() -> (r: RecoveryManager)
        ensures
            r == RecoveryManager,
    {
        RecoveryManager
    }
}

impl RecoveryManager {
    /// A recovery manager.
    pub fn new() -> (r: RecoveryManager) {
        RecoveryManager
    }

    /// The state to resume from.
    ///
    /// The checkpoint supplies the bulk of it. The log tail supplies the rest:
    /// effects that completed after the last checkpoint are still in the log,
    /// and folding them back into the ledger is what stops them happening a
    /// second time.
    pub fn resume<L: EventLog, C: CheckpointStore>(&self, log: &L, checkpoints: &C) -> (r:
        Resumption)
        ensures
            ({
                let (state, position) = resumed_from(checkpoints.saved());
                let n = log.recorded().len() as int;
                &&& r.state@ == (StateView {
                    ledger: folded(log.recorded(), position, state.ledger, n),
                    ..state
                })
                &&& r.recovered_from_log == recovered(log.recorded(), position, state.ledger, n)
            }),
            r.from_checkpoint == (if checkpoints.saved().len() > 0 {
                Some(checkpoints.saved().last().sequence)
            } else {
                None
            }),
    {
        let (state, position, from_checkpoint) = match checkpoints.latest() {
            Some(checkpoint) => (
                checkpoint.state.clone(),
                checkpoint.log_position,
                Some(checkpoint.sequence),
            ),
            None => (ExecutionState::new(), 0u64, None),
        };
        let mut state = state;
        let recovered_from_log: usize = fold_log_tail(log, position, &mut state.ledger);
        Resumption { state, from_checkpoint, recovered_from_log }
    }

    /// Rebuilds a ledger from the log alone, with no checkpoint at all.
    ///
    /// The log is the source of truth; a checkpoint is only an optimization
    /// that saves replaying it from the beginning.
    pub fn ledger_from_log<L: EventLog>(&self, log: &L) -> (r: Ledger)
        ensures
            r@ == folded(log.recorded(), 0, Seq::empty(), log.recorded().len() as int),
    {
        let mut ledger = Ledger::new();
        fold_log_tail(log, 0, &mut ledger);
        ledger
    }

    /// Records that a resume happened, so the audit trail shows the seam.
    pub fn note_resumption<L: EventLog>(&self, log: &mut L, resumption: &Resumption)
        ensures
            final(log).recorded() == match resumption.from_checkpoint {
                Some(sequence) => appended(
                    old(log).recorded(),
                    None,
                    EventKindView::Resumed { sequence },
                ),
                None => old(log).recorded(),
            },
    {
        if let Some(sequence) = resumption.from_checkpoint {
            log.append(None, EventKind::Resumed { sequence });
        }
    }
}

/// Folds every completed effect from `position` on back into the ledger.
fn fold_log_tail<L: EventLog>(log: &L, position: u64, ledger: &mut Ledger) -> (r: usize)
    ensures
        final(ledger)@ == folded(
            log.recorded(),
            position,
            old(ledger)@,
            log.recorded().len() as int,
        ),
        r == recovered(log.recorded(), position, old(ledger)@, log.recorded().len() as int),
{
    let events = log.entries();
    let ghost start = ledger@;
    let ghost all = event_views(events@);
    let mut found: usize = 0;
    let mut i: usize = 0;
    while i < events.len()
        invariant
            i <= events@.len(),
            all == event_views(events@),
            found <= i,
            found == recovered(all, position, start, i as int),
            ledger@ == folded(all, position, start, i as int),
        decreases events@.len() - i,
    {
        let event = &events[i];
        assert(all[i as int] == event@);
        if event.sequence >= position {
            match &event.kind {
                EventKind::Effect { idempotency_key: Some(key), result, .. } => {
                    if !ledger.contains(key.as_str()) {
                        found += 1;
                    }
                    ledger.record(key.as_str(), result.clone());
                },
                EventKind::EffectReplayed { idempotency_key, result, .. } => {
                    ledger.record(idempotency_key.as_str(), result.clone());
                },
                _ => {},
            }
        }
        i += 1;
    }
    found
}

/// Folding keeps a ledger in key order, forgets no key, and brings in every
/// effect that the entries show to have completed.
pub proof fn folding_brings_in_every_effect(
    log: Seq<EventView>,
    position: u64,
    ledger: Seq<(Seq<char>, ValueView)>,
    n: int,
)
    requires
        0 <= n <= log.len(),
        sorted(keys(ledger)),
    ensures
        sorted(keys(folded(log, position, ledger, n))),
        forall|key: Seq<char>|
            #[trigger] lookup(ledger, key) is Some ==> lookup(
                folded(log, position, ledger, n),
                key,
            ) is Some,
        forall|i: int|
            0 <= i < n && (#[trigger] log[i]).sequence >= position && log[i].kind.completed()
                is Some ==> lookup(
                folded(log, position, ledger, n),
                log[i].kind.completed_key(),
            ) is Some,
    decreases n,
{
    if n > 0 {
        folding_brings_in_every_effect(log, position, ledger, n - 1);
        let before = folded(log, position, ledger, n - 1);
        let after = folded(log, position, ledger, n);
        if log[n - 1].sequence >= position && log[n - 1].kind.completed() is Some {
            let (key, result) = log[n - 1].kind.completed()->0;
            insert_keeps_sorted(before, key, result);
            insert_then_lookup(before, key, result);
            assert forall|k: Seq<char>| #[trigger] lookup(before, k) is Some implies lookup(
                after,
                k,
            ) is Some by {
                if k != key {
                    insert_keeps_others(before, key, result, k);
                }
            }
        }
    }
}

/// The result that recovery brings back for a key is the one of the last entry
/// that completed it.
pub proof fn the_last_result_is_brought_back(
    log: Seq<EventView>,
    position: u64,
    ledger: Seq<(Seq<char>, ValueView)>,
    n: int,
    i: int,
)
    requires
        0 <= i < n <= log.len(),
        sorted(keys(ledger)),
        log[i].sequence >= position,
        log[i].kind.completed() is Some,
        forall|j: int|
            i < j < n && (#[trigger] log[j]).kind.completed() is Some
                ==> log[j].kind.completed_key() != log[i].kind.completed_key(),
    ensures
        lookup(folded(log, position, ledger, n), log[i].kind.completed_key()) == Some(
            log[i].kind.completed_result(),
        ),
    decreases n,
{
    let (key, result) = log[i].kind.completed()->0;
    let before = folded(log, position, ledger, n - 1);
    folding_brings_in_every_effect(log, position, ledger, n - 1);
    if i == n - 1 {
        insert_then_lookup(before, key, result);
    } else {
        the_last_result_is_brought_back(log, position, ledger, n - 1, i);
        if log[n - 1].sequence >= position && log[n - 1].kind.completed() is Some {
            let (last, value) = log[n - 1].kind.completed()->0;
            insert_keeps_others(before, last, value, key);
        }
    }
}

/// A checkpoint only saves replaying the log from the beginning: where it holds
/// what the entries before its position fold to, resuming from it and folding
/// in the rest gives the ledger that the whole log gives.
pub proof fn a_checkpoint_only_saves_replay(log: Seq<EventView>, position: u64, n: int)
    requires
        dense(log),
        position <= n <= log.len(),
    ensures
        folded(log, position, folded(log, 0, Seq::empty(), position as int), n) == folded(
            log,
            0,
            Seq::empty(),
            n,
        ),
    decreases n,
{
    if n > position {
        a_checkpoint_only_saves_replay(log, position, n - 1);
        assert(log[n - 1].sequence == n - 1);
    } else {
        nothing_before_is_folded(
            log,
            position,
            folded(log, 0, Seq::empty(), position as int),
            n,
        );
    }
}

/// Entries before the position leave the ledger as it is.
pub proof fn nothing_before_is_folded(
    log: Seq<EventView>,
    position: u64,
    ledger: Seq<(Seq<char>, ValueView)>,
    n: int,
)
    requires
        dense(log),
        0 <= n <= position,
        n <= log.len(),
    ensures
        folded(log, position, ledger, n) == ledger,
    decreases n,
{
    if n > 0 {
        nothing_before_is_folded(log, position, ledger, n - 1);
        assert(log[n - 1].sequence == n - 1);
    }
}

/// Whether an event says that the effect of a key happened, with a result: it was
/// done under that key, or was found done.
pub open spec fn tells_of(event: EventView, key: Seq<char>, value: ValueView) -> bool {
    match event.kind {
        EventKindView::Effect { idempotency_key, result, .. } => idempotency_key == Some(key)
            && result == value,
        EventKindView::EffectReplayed { idempotency_key, result, .. } => idempotency_key == key
            && result == value,
        _ => false,
    }
}

/// An event completes exactly the effect it tells of.
pub proof fn completed_effects_are_told_of(event: EventView, key: Seq<char>, value: ValueView)
    ensures
        tells_of(event, key, value) <==> event.kind.completed() == Some((key, value)),
{
}

/// Folding brings in nothing that did not happen: what the ledger then holds
/// under a key it held before, or an event from the position on tells of it.
pub proof fn folding_brings_in_nothing_else(
    log: Seq<EventView>,
    position: u64,
    ledger: Seq<(Seq<char>, ValueView)>,
    n: int,
    key: Seq<char>,
)
    requires
        0 <= n <= log.len(),
        sorted(keys(ledger)),
    ensures
        lookup(folded(log, position, ledger, n), key) matches Some(value) ==> lookup(ledger, key)
            == Some(value) || exists|i: int|
            0 <= i < n && (#[trigger] log[i]).sequence >= position && tells_of(log[i], key, value),
    decreases n,
{
    if n > 0 {
        folding_brings_in_nothing_else(log, position, ledger, n - 1, key);
        folding_brings_in_every_effect(log, position, ledger, n - 1);
        let before = folded(log, position, ledger, n - 1);
        let after = folded(log, position, ledger, n);
        if log[n - 1].sequence >= position {
            if let Some((k, result)) = log[n - 1].kind.completed() {
                insert_then_lookup(before, k, result);
                if k == key {
                    assert(tells_of(log[n - 1], key, result));
                } else {
                    insert_keeps_others(before, k, result, key);
                }
            }
        }
        if lookup(after, key) == lookup(before, key) {
            if let Some(value) = lookup(before, key) {
                if lookup(ledger, key) != Some(value) {
                    let i = choose|i: int|
                        0 <= i < n - 1 && (#[trigger] log[i]).sequence >= position && tells_of(
                            log[i],
                            key,
                            value,
                        );
                    assert(log[i].sequence >= position);
                }
            }
        }
    }
}

/// What is said to have been recovered is how many keys the effects in the log
/// added to the ledger.
pub proof fn every_recovered_effect_is_counted(
    log: Seq<EventView>,
    position: u64,
    ledger: Seq<(Seq<char>, ValueView)>,
    n: int,
)
    requires
        0 <= n <= log.len(),
    ensures
        folded(log, position, ledger, n).len() >= ledger.len() + recovered(
            log,
            position,
            ledger,
            n,
        ),
        (forall|i: int| 0 <= i < n ==> !((#[trigger] log[i]).kind is EffectReplayed)) ==> folded(
            log,
            position,
            ledger,
            n,
        ).len() == ledger.len() + recovered(log, position, ledger, n),
    decreases n,
{
    if n > 0 {
        every_recovered_effect_is_counted(log, position, ledger, n - 1);
        let before = folded(log, position, ledger, n - 1);
        if let Some((key, result)) = log[n - 1].kind.completed() {
            crate::assoc::slot_separates(keys(before), key);
            assert(insert(before, key, result).len() == before.len() + if lookup(before, key)
                is None {
                1int
            } else {
                0
            });
        }
        if forall|i: int| 0 <= i < n ==> !((#[trigger] log[i]).kind is EffectReplayed) {
            assert(!(log[n - 1].kind is EffectReplayed));
        }
    }
}

} // verus!
