//! What a recording environment does.
//!
//! Every call is recorded and answered by the handler of its target, and every
//! write is counted and known by its key. The staged crash swallows the answer
//! of exactly one write, the one it is staged for, and nothing else.

use vstd::prelude::*;

use crate::assoc::{insert_keeps_others, insert_then_lookup, keys, lookup, sorted};
use crate::env::{writes_among, EnvErrorView, HandlerView, InvocationView, WorldView};
use crate::judgement::changes;
use crate::value::ValueView;

verus! {

/// Whether a call is the write that the crash is staged for.
pub open spec fn meets_the_crash(world: WorldView, call: InvocationView) -> bool {
    changes(call.effect) && world.writes < usize::MAX && world.crash_after_writes == Some(
        (world.writes + 1) as usize,
    )
}

/// A call is recorded, and counted where it changes something. The one the crash
/// is staged for is not answered; any other is answered by the handler of its
/// target, where there is one.
pub proof fn calls_are_recorded_and_answered(
    world: WorldView,
    call: InvocationView,
    after: WorldView,
    reply: Result<ValueView, EnvErrorView>,
)
    requires
        world.serves(call, after, reply),
        world.writes < usize::MAX,
    ensures
        after.calls.len() == world.calls.len() + 1,
        after.calls.take(world.calls.len() as int) == world.calls,
        after.calls.last() == call,
        after.memory == world.memory,
        after.crash_after_writes == world.crash_after_writes,
        after.writes == if changes(call.effect) {
            world.writes + 1
        } else {
            world.writes as int
        },
        meets_the_crash(world, call) ==> reply is Err && reply->Err_0 is Crashed && after.handlers
            == world.handlers,
        !meets_the_crash(world, call) ==> match lookup(world.handlers, call.target) {
            Some(HandlerView::Fixed(value)) => reply == Ok::<ValueView, EnvErrorView>(value),
            Some(HandlerView::Own(_)) => true,
            None => reply is Err && reply->Err_0 is Unknown,
        },
{
    assert(after.calls.take(world.calls.len() as int) =~= world.calls);
}

/// What came back of a call is known by its key; a write is known by its key
/// also where nothing came back; and no other key is learned or forgotten.
pub proof fn what_happened_is_known(
    world: WorldView,
    call: InvocationView,
    after: WorldView,
    reply: Result<ValueView, EnvErrorView>,
    other: Seq<char>,
)
    requires
        world.serves(call, after, reply),
        sorted(keys(world.completed)),
    ensures
        call.idempotency_key is None ==> after.completed == world.completed,
        call.idempotency_key matches Some(key) ==> {
            &&& reply matches Ok(value) ==> lookup(after.completed, key) == Some(value)
            &&& changes(call.effect) ==> lookup(after.completed, key) is Some
            &&& other != key ==> lookup(after.completed, other) == lookup(world.completed, other)
            &&& !changes(call.effect) && reply is Err ==> after.completed == world.completed
        },
{
    if let Some(key) = call.idempotency_key {
        let mid = world.taken(call).completed;
        insert_then_lookup(world.completed, key, ValueView::Null);
        crate::assoc::insert_keeps_sorted(world.completed, key, ValueView::Null);
        if other != key {
            insert_keeps_others(world.completed, key, ValueView::Null, other);
        }
        if let Ok(value) = reply {
            insert_then_lookup(mid, key, value);
            if other != key {
                insert_keeps_others(mid, key, value, other);
            }
        }
    }
}

/// The writes among some calls are the calls that change something, in order.
pub proof fn writes_are_what_changes(calls: Seq<InvocationView>, n: int)
    requires
        0 <= n <= calls.len(),
    ensures
        forall|k: int|
            0 <= k < writes_among(calls, n).len() ==> changes(
                (#[trigger] writes_among(calls, n)[k]).effect,
            ) && calls.take(n).contains(writes_among(calls, n)[k]),
        forall|i: int|
            0 <= i < n && changes((#[trigger] calls[i]).effect) ==> writes_among(calls, n).contains(
                calls[i],
            ),
    decreases n,
{
    if n > 0 {
        writes_are_what_changes(calls, n - 1);
        let before = writes_among(calls, n - 1);
        let all = writes_among(calls, n);
        let taken = calls.take(n);
        assert forall|k: int| 0 <= k < all.len() implies changes((#[trigger] all[k]).effect)
            && taken.contains(all[k]) by {
            if k < before.len() {
                assert(all[k] == before[k]);
                let less = calls.take(n - 1);
                let i = choose|i: int| 0 <= i < less.len() && less[i] == before[k];
                assert(taken[i] == all[k]);
            } else {
                assert(taken[n - 1] == all[k]);
            }
        }
        assert forall|i: int| 0 <= i < n && changes((#[trigger] calls[i]).effect) implies all.contains(
            calls[i],
        ) by {
            if i < n - 1 {
                let k = choose|k: int| 0 <= k < before.len() && before[k] == calls[i];
                assert(all[k] == calls[i]);
            } else {
                assert(all[before.len() as int] == calls[i]);
            }
        }
    }
}

} // verus!
