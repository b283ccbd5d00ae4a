//! The one way out of the runtime.
//!
//! A [`World`] holds the environment of a run and the account of what was asked
//! of it. Only its two methods extend the account, and each asks the
//! environment exactly once, by the method that is meant for the request. So
//! what a run says it asked is what it asked.

use vstd::prelude::*;

use crate::env::{
    call_exchange, key_exchange, known_view, reply_view, Dealings, EnvError, Environment, Exchange,
    Invocation, ReplyView, RequestView,
};
use crate::execution::{begins_with, request_of, RunView};
use crate::plan::{MemoryOp, RuntimeTarget, TargetView};
use crate::value::Value;

verus! {

// ------------------------------------------------------------- the account

/// The exchanges from a number on, out of what was asked and what was
/// answered.
pub open spec fn talk(asked: Seq<RequestView>, heard: Seq<ReplyView>, from: int) -> Seq<Exchange> {
    Seq::new(
        (asked.len() - from) as nat,
        |i: int| Exchange { request: asked[from + i], reply: heard[from + i] },
    )
}

/// Whether dealings grew by some exchanges, of which those at some positions
/// left their trace: in order, each once, and none but refusals is missing.
pub open spec fn grew_by(
    before: Seq<Exchange>,
    after: Seq<Exchange>,
    exchanges: Seq<Exchange>,
    at: Seq<int>,
) -> bool {
    &&& after.len() == before.len() + at.len()
    &&& forall|i: int| 0 <= i < before.len() ==> #[trigger] after[i] == before[i]
    &&& forall|k: int|
        0 <= k < at.len() ==> 0 <= #[trigger] at[k] < exchanges.len() && after[before.len() + k]
            == exchanges[at[k]]
    &&& forall|k: int, l: int| 0 <= k < l < at.len() ==> #[trigger] at[k] < #[trigger] at[l]
    &&& forall|i: int|
        0 <= i < exchanges.len() && !(#[trigger] exchanges[i]).is_refusal() ==> at.contains(i)
}

/// Whether dealings grew by some exchanges: they are all that is new, in order,
/// and none but refusals is missing.
pub open spec fn grew(
    before: Seq<Exchange>,
    after: Seq<Exchange>,
    exchanges: Seq<Exchange>,
) -> bool {
    exists|at: Seq<int>| #[trigger] grew_by(before, after, exchanges, at)
}

/// Whether the dealings of an environment grew by what was asked and answered
/// between two moments of a run.
pub open spec fn told(
    before: Dealings,
    after: Dealings,
    heard: Seq<ReplyView>,
    from: RunView,
    to: RunView,
) -> bool {
    grew(before.exchanges, after.exchanges, talk(to.asked, heard, from.asked.len() as int))
}

/// Every new exchange is one that the run made, in the order in which it made
/// them.
pub proof fn told_in_order(
    before: Dealings,
    after: Dealings,
    heard: Seq<ReplyView>,
    from: RunView,
    to: RunView,
    k: int,
    l: int,
) -> (asked: (int, int))
    requires
        told(before, after, heard, from, to),
        from.asked.len() <= to.asked.len(),
        before.exchanges.len() <= k <= l < after.exchanges.len(),
    ensures
        from.asked.len() <= asked.0 <= asked.1 < to.asked.len(),
        k < l ==> asked.0 < asked.1,
        after.exchanges[k] == (Exchange { request: to.asked[asked.0], reply: heard[asked.0] }),
        after.exchanges[l] == (Exchange { request: to.asked[asked.1], reply: heard[asked.1] }),
{
    let n = from.asked.len() as int;
    let exchanges = talk(to.asked, heard, n);
    let at = choose|at: Seq<int>| #[trigger]
        grew_by(before.exchanges, after.exchanges, exchanges, at);
    let b = before.exchanges.len();
    assert(after.exchanges[b + (k - b)] == exchanges[at[k - b]]);
    assert(after.exchanges[b + (l - b)] == exchanges[at[l - b]]);
    (n + at[k - b], n + at[l - b])
}

/// One exchange more.
proof fn one_more_exchange(
    before: Seq<Exchange>,
    now: Dealings,
    after: Dealings,
    asked: Seq<RequestView>,
    heard: Seq<ReplyView>,
    at: Seq<int>,
    exchange: Exchange,
) -> (more: Seq<int>)
    requires
        asked.len() == heard.len(),
        grew_by(before, now.exchanges, talk(asked, heard, 0), at),
        after.follow(now, exchange),
    ensures
        grew_by(
            before,
            after.exchanges,
            talk(asked.push(exchange.request), heard.push(exchange.reply), 0),
            more,
        ),
        at.len() <= more.len(),
        forall|k: int| 0 <= k < at.len() ==> #[trigger] more[k] == at[k],
        forall|k: int| at.len() <= k < more.len() ==> #[trigger] more[k] >= asked.len(),
{
    let old_talk = talk(asked, heard, 0);
    let new_talk = talk(asked.push(exchange.request), heard.push(exchange.reply), 0);
    let n = asked.len() as int;
    assert(new_talk =~= old_talk.push(exchange));
    let more = if after.exchanges == now.exchanges.push(exchange) {
        at.push(n)
    } else {
        at
    };
    assert forall|i: int| 0 <= i < new_talk.len() && !(#[trigger] new_talk[i]).is_refusal() implies
        more.contains(i) by {
        if i < n {
            assert(!old_talk[i].is_refusal());
            let k = choose|k: int| 0 <= k < at.len() && at[k] == i;
            assert(more[k] == i);
        } else {
            assert(more[at.len() as int] == i);
        }
    }
    assert forall|k: int| 0 <= k < more.len() implies 0 <= #[trigger] more[k] < new_talk.len()
        && after.exchanges[before.len() + k] == new_talk[more[k]] by {
        if k < at.len() {
            assert(more[k] == at[k]);
            assert(after.exchanges[before.len() + k] == now.exchanges[before.len() + k]);
        }
    }
    more
}

/// What grew since a later start.
proof fn grew_since(
    origin: Seq<Exchange>,
    earlier: Seq<Exchange>,
    later: Seq<Exchange>,
    asked: Seq<RequestView>,
    heard: Seq<ReplyView>,
    more_asked: Seq<RequestView>,
    more_heard: Seq<ReplyView>,
    at: Seq<int>,
    more: Seq<int>,
)
    requires
        asked.len() == heard.len(),
        more_asked.len() == more_heard.len(),
        grew_by(origin, earlier, talk(asked, heard, 0), at),
        grew_by(origin, later, talk(more_asked, more_heard, 0), more),
        asked.len() <= more_asked.len(),
        forall|i: int| 0 <= i < asked.len() ==> #[trigger] more_asked[i] == asked[i],
        forall|i: int| 0 <= i < heard.len() ==> #[trigger] more_heard[i] == heard[i],
        at.len() <= more.len(),
        forall|k: int| 0 <= k < at.len() ==> #[trigger] more[k] == at[k],
        forall|k: int| at.len() <= k < more.len() ==> #[trigger] more[k] >= asked.len(),
    ensures
        grew(earlier, later, talk(more_asked, more_heard, asked.len() as int)),
{
    let n = asked.len() as int;
    let whole = talk(more_asked, more_heard, 0);
    let part = talk(more_asked, more_heard, n);
    let old_talk = talk(asked, heard, 0);
    let at2 = Seq::new((more.len() - at.len()) as nat, |k: int| more[at.len() + k] - n);
    assert forall|i: int| 0 <= i < earlier.len() implies #[trigger] later[i] == earlier[i] by {
        if i >= origin.len() {
            let k = i - origin.len();
            assert(more[k] == at[k]);
            assert(earlier[origin.len() + k] == old_talk[at[k]]);
            assert(later[origin.len() + k] == whole[more[k]]);
        }
    }
    assert forall|k: int| 0 <= k < at2.len() implies 0 <= #[trigger] at2[k] < part.len()
        && later[earlier.len() + k] == part[at2[k]] by {
        let j = at.len() + k;
        assert(more[j] >= n);
        assert(later[origin.len() + j] == whole[more[j]]);
    }
    assert forall|k: int, l: int| 0 <= k < l < at2.len() implies #[trigger] at2[k]
        < #[trigger] at2[l] by {
        assert(more[at.len() + k] < more[at.len() + l]);
    }
    assert forall|i: int| 0 <= i < part.len() && !(#[trigger] part[i]).is_refusal() implies
        at2.contains(i) by {
        assert(whole[n + i] == part[i]);
        let k = choose|k: int| 0 <= k < more.len() && more[k] == n + i;
        if k < at.len() {
            assert(at[k] == more[k]);
        }
        assert(at2[k - at.len()] == i);
    }
    assert(grew_by(earlier, later, part, at2));
}

// --------------------------------------------------------------- the world

/// What an environment was asked and what it answered. Only a [`World`] that
/// asks its environment can extend an account.
pub struct Account<E: Environment> {
    /// What was asked.
    asked: Ghost<Seq<RequestView>>,
    /// What was answered.
    heard: Ghost<Seq<ReplyView>>,
    /// What the environment had dealt with when the account was opened.
    origin: Ghost<Seq<Exchange>>,
    /// Which of the exchanges left their trace in its dealings.
    traced: Ghost<Seq<int>>,
    /// The environment as the last answer left it.
    left: Ghost<E>,
}

impl<E: Environment> Account<E> {
    /// What was asked.
    pub closed spec fn asked(&self) -> Seq<RequestView> {
        self.asked@
    }

    /// What was answered.
    pub closed spec fn heard(&self) -> Seq<ReplyView> {
        self.heard@
    }

    /// What the environment had dealt with when the account was opened.
    pub closed spec fn origin(&self) -> Seq<Exchange> {
        self.origin@
    }

    /// Which of the exchanges left their trace in the dealings.
    pub closed spec fn traced(&self) -> Seq<int> {
        self.traced@
    }

    /// The environment as the last answer left it.
    pub closed spec fn left(&self) -> E {
        self.left@
    }

    /// Whether the account fits an environment: every request has its answer,
    /// nothing but what was asked has touched the environment, and its dealings
    /// grew by what was asked.
    pub open spec fn fits(&self, env: E) -> bool {
        &&& self.asked().len() == self.heard().len()
        &&& env == self.left()
        &&& grew_by(
            self.origin(),
            env.dealings().exchanges,
            talk(self.asked(), self.heard(), 0),
            self.traced(),
        )
    }

    /// Whether nothing of an earlier account changed.
    pub open spec fn extends(&self, earlier: Account<E>) -> bool {
        &&& self.origin() == earlier.origin()
        &&& begins_with(self.heard(), earlier.heard())
        &&& earlier.asked().len() <= self.asked().len()
        &&& forall|i: int|
            0 <= i < earlier.asked().len() ==> #[trigger] self.asked()[i] == earlier.asked()[i]
        &&& earlier.traced().len() <= self.traced().len()
        &&& forall|k: int|
            0 <= k < earlier.traced().len() ==> #[trigger] self.traced()[k] == earlier.traced()[k]
        &&& forall|k: int|
            earlier.traced().len() <= k < self.traced().len() ==> #[trigger] self.traced()[k]
                >= earlier.asked().len()
        &&& earlier.left().is_faithful() ==> self.left().is_faithful()
    }
}

/// The environment of a run, and the account of what was asked of it.
pub struct World<'a, E: Environment> {
    /// The environment itself.
    pub env: &'a mut E,
    /// The account.
    pub account: Account<E>,
}

impl<'a, E: Environment> World<'a, E> {
    /// What the environment has been asked.
    pub open spec fn asked(&self) -> Seq<RequestView> {
        self.account.asked()
    }

    /// What the environment has answered.
    pub open spec fn heard(&self) -> Seq<ReplyView> {
        self.account.heard()
    }

    /// What the environment has dealt with.
    pub open spec fn dealings(&self) -> Dealings {
        (*self.env).dealings()
    }

    /// Whether what the environment shows of itself agrees with its dealings.
    pub open spec fn is_faithful(&self) -> bool {
        (*self.env).is_faithful()
    }

    /// Whether the account fits the environment.
    pub open spec fn is_in_order(&self) -> bool {
        self.account.fits(*self.env)
    }

    /// Whether this is what an earlier world can become by being asked: its
    /// account is in order, and nothing of the earlier one changed.
    pub open spec fn continues(&self, earlier: World<'a, E>) -> bool {
        self.is_in_order() && self.account.extends(earlier.account)
    }

    /// An account of an environment, with nothing in it yet.
    pub fn new(env: &'a mut E) -> (r: Self)
        ensures
            r.asked() == Seq::<RequestView>::empty(),
            r.heard() == Seq::<ReplyView>::empty(),
            r.is_in_order(),
            *r.env == *old(env),
            *final(r.env) == *final(env),
    {
        let ghost start = *env;
        let account = Account {
            asked: Ghost(Seq::empty()),
            heard: Ghost(Seq::empty()),
            origin: Ghost(start.dealings().exchanges),
            traced: Ghost(Seq::empty()),
            left: Ghost(start),
        };
        World { env, account }
    }

    /// What continuing an account comes to: the answers begin with the earlier
    /// ones, the dealings of the environment grew by what was asked since, and
    /// what it shows still agrees with them if it did.
    pub proof fn growth(&self, earlier: World<'a, E>)
        requires
            earlier.is_in_order(),
            self.continues(earlier),
        ensures
            self.is_in_order(),
            self.asked().len() == self.heard().len(),
            begins_with(self.heard(), earlier.heard()),
            grew(
                earlier.dealings().exchanges,
                self.dealings().exchanges,
                talk(self.asked(), self.heard(), earlier.asked().len() as int),
            ),
            earlier.is_faithful() ==> self.is_faithful(),
    {
        grew_since(
            self.account.origin@,
            earlier.dealings().exchanges,
            self.dealings().exchanges,
            earlier.account.asked@,
            earlier.account.heard@,
            self.account.asked@,
            self.account.heard@,
            earlier.account.traced@,
            self.account.traced@,
        );
    }

    /// Makes a call: the environment is asked once, by the method that is meant
    /// for the target, and its answer comes back as it is.
    pub fn call(&mut self, target: &RuntimeTarget, call: &Invocation) -> (r: Result<
        Value,
        EnvError,
    >)
        requires
            old(self).is_in_order(),
            !(target@ is Builtin),
        ensures
            final(self).continues(*old(self)),
            final(self).asked() == old(self).asked().push(request_of(target@, call@)),
            final(self).heard() == old(self).heard().push(ReplyView::Outcome(reply_view(r))),
            *final(final(self).env) == *final(old(self).env),
            match target@ {
                TargetView::ToolCall { .. } => exists|env: &mut E|
                    *env == *old(self).env && *final(env) == *final(self).env
                        && #[trigger] call_ensures(E::tool_call, (env, call), r),
                TargetView::Inference { .. } => exists|env: &mut E|
                    *env == *old(self).env && *final(env) == *final(self).env
                        && #[trigger] call_ensures(E::infer, (env, call), r),
                TargetView::Memory { operation: MemoryOp::Read, .. } => exists|env: &mut E|
                    *env == *old(self).env && *final(env) == *final(self).env
                        && #[trigger] call_ensures(E::memory_read, (env, call), r),
                TargetView::Memory { operation: MemoryOp::Write, .. } => exists|env: &mut E|
                    *env == *old(self).env && *final(env) == *final(self).env
                        && #[trigger] call_ensures(E::memory_write, (env, call), r),
                TargetView::Memory { operation: MemoryOp::Search, .. } => exists|env: &mut E|
                    *env == *old(self).env && *final(env) == *final(self).env
                        && #[trigger] call_ensures(E::memory_search, (env, call), r),
                TargetView::Builtin(_) => true,
            },
    {
        let ghost before = (*self.env).dealings();
        let r = match target {
            RuntimeTarget::ToolCall { .. } => self.env.tool_call(call),
            RuntimeTarget::Inference { .. } => self.env.infer(call),
            RuntimeTarget::Memory { operation, .. } => match operation {
                MemoryOp::Read => self.env.memory_read(call),
                MemoryOp::Write => self.env.memory_write(call),
                MemoryOp::Search => self.env.memory_search(call),
            },
            // The runtime's own operations never reach the world.
            RuntimeTarget::Builtin(_) => Err(EnvError::Unknown(String::new())),
        };
        proof {
            let exchange = call_exchange(request_of(target@, call@), r);
            self.account.traced@ = one_more_exchange(
                self.account.origin@,
                before,
                (*self.env).dealings(),
                self.account.asked@,
                self.account.heard@,
                self.account.traced@,
                exchange,
            );
            self.account.asked@ = self.account.asked@.push(exchange.request);
            self.account.heard@ = self.account.heard@.push(exchange.reply);
            self.account.left@ = *self.env;
        }
        r
    }

    /// Asks what the environment knows of a key, once.
    pub fn known(&mut self, key: &str) -> (r: Option<Value>)
        requires
            old(self).is_in_order(),
        ensures
            final(self).continues(*old(self)),
            final(self).asked() == old(self).asked().push(RequestView::Lookup(key@)),
            final(self).heard() == old(self).heard().push(ReplyView::Known(known_view(r))),
            *final(final(self).env) == *final(old(self).env),
            exists|env: &mut E|
                *env == *old(self).env && *final(env) == *final(self).env
                    && #[trigger] call_ensures(E::lookup_idempotent, (env, key), r),
    {
        let ghost before = (*self.env).dealings();
        let r = self.env.lookup_idempotent(key);
        proof {
            let exchange = key_exchange(key@, r);
            self.account.traced@ = one_more_exchange(
                self.account.origin@,
                before,
                (*self.env).dealings(),
                self.account.asked@,
                self.account.heard@,
                self.account.traced@,
                exchange,
            );
            self.account.asked@ = self.account.asked@.push(exchange.request);
            self.account.heard@ = self.account.heard@.push(exchange.reply);
            self.account.left@ = *self.env;
        }
        r
    }
}

} // verus!
