//! The append-only event log.
//!
//! The log is the source of truth for what actually happened. It is what
//! recovery replays, and it is the audit trail: every entry points back at the
//! IR operation that caused it, so "why did this action happen" is answerable
//! after the fact.
//!
//! Append-only is a property, not a convention: [`EventLog`] has no method that
//! removes or rewrites an entry.

use vstd::prelude::*;
use vstd::string::*;

use crate::copying::clone_all;
use crate::ids::OperationId;
use crate::text::{copy_optional_text, nat_text, nat_text_length, optional_text, push_nat};
use crate::value::{Value, ValueView};

verus! {

/// What happened.
#[allow(inconsistent_fields)]
#[derive(Debug, PartialEq)]
pub enum EventKind {
    /// Execution of a function began.
    Started {
        /// The function.
        function: String,
        /// The IR version it was compiled from.
        version: u64,
    },
    /// A step reached the world and came back.
    Effect {
        /// What was invoked.
        target: String,
        /// The declared effect.
        effect: String,
        /// The key that guards re-execution, when there is one.
        idempotency_key: Option<String>,
        /// What came back.
        result: Value,
    },
    /// A step was skipped because its idempotency key was already recorded.
    /// This is the entry that proves an effect did not happen twice.
    EffectReplayed {
        /// What would have been invoked.
        target: String,
        /// The key that matched.
        idempotency_key: String,
        /// The result that was reused.
        result: Value,
    },
    /// A step failed.
    Failed {
        /// What was invoked.
        target: String,
        /// Why it failed.
        error: String,
    },
    /// A loop guard fired.
    LoopGuard {
        /// The repeated action.
        target: String,
        /// How many times it repeated identically.
        repeats: usize,
        /// What the policy decided to do.
        action: String,
    },
    /// State was checkpointed.
    Checkpoint {
        /// Which checkpoint.
        sequence: u64,
        /// How many completed effects it carries.
        effects: usize,
    },
    /// Execution resumed from a checkpoint.
    Resumed {
        /// The checkpoint restored.
        sequence: u64,
    },
    /// Execution finished.
    Finished {
        /// The value the function returned.
        result: Value,
    },
}

/// The mathematical content of an [`EventKind`].
#[allow(inconsistent_fields)]
#[verifier::ext_equal]
pub ghost enum EventKindView {
    Started { function: Seq<char>, version: u64 },
    Effect {
        target: Seq<char>,
        effect: Seq<char>,
        idempotency_key: Option<Seq<char>>,
        result: ValueView,
    },
    EffectReplayed { target: Seq<char>, idempotency_key: Seq<char>, result: ValueView },
    Failed { target: Seq<char>, error: Seq<char> },
    LoopGuard { target: Seq<char>, repeats: usize, action: Seq<char> },
    Checkpoint { sequence: u64, effects: usize },
    Resumed { sequence: u64 },
    Finished { result: ValueView },
}

impl View for EventKind {
    type V = EventKindView;

    open spec fn view(&self) -> EventKindView {
        match self {
            EventKind::Started { function, version } => EventKindView::Started {
                function: function@,
                version: *version,
            },
            EventKind::Effect { target, effect, idempotency_key, result } => EventKindView::Effect {
                target: target@,
                effect: effect@,
                idempotency_key: optional_text(*idempotency_key),
                result: result@,
            },
            EventKind::EffectReplayed { target, idempotency_key, result } =>
                EventKindView::EffectReplayed {
                target: target@,
                idempotency_key: idempotency_key@,
                result: result@,
            },
            EventKind::Failed { target, error } => EventKindView::Failed {
                target: target@,
                error: error@,
            },
            EventKind::LoopGuard { target, repeats, action } => EventKindView::LoopGuard {
                target: target@,
                repeats: *repeats,
                action: action@,
            },
            EventKind::Checkpoint { sequence, effects } => EventKindView::Checkpoint {
                sequence: *sequence,
                effects: *effects,
            },
            EventKind::Resumed { sequence } => EventKindView::Resumed { sequence: *sequence },
            EventKind::Finished { result } => EventKindView::Finished { result: result@ },
        }
    }
}

impl EventKindView {
    /// The printed form of what happened.
    pub open spec fn text(self) -> Seq<char> {
        match self {
            EventKindView::Started { function, version } => "started "@ + function + " from IR"@
                + nat_text(version as nat),
            EventKindView::Effect { target, effect, .. } => target + " ["@ + effect + "]"@,
            EventKindView::EffectReplayed { target, .. } => target + " [replayed]"@,
            EventKindView::Failed { target, error } => target + " failed: "@ + error,
            EventKindView::LoopGuard { target, repeats, action } => "loop guard on "@ + target
                + " after "@ + nat_text(repeats as nat) + " repeats: "@ + action,
            EventKindView::Checkpoint { sequence, effects } => "checkpoint "@ + nat_text(
                sequence as nat,
            ) + " ("@ + nat_text(effects as nat) + " effect(s))"@,
            EventKindView::Resumed { sequence } => "resumed from checkpoint "@ + nat_text(
                sequence as nat,
            ),
            EventKindView::Finished { result } => "finished: "@ + result.text(),
        }
    }

    /// The key of the effect this entry shows to have happened, and its
    /// result: an effect that came back under a key, or one that was skipped
    /// because its key was recorded.
    pub open spec fn completed(self) -> Option<(Seq<char>, ValueView)> {
        match self {
            EventKindView::Effect { idempotency_key: Some(key), result, .. } => Some(
                (key, result),
            ),
            EventKindView::EffectReplayed { idempotency_key, result, .. } => Some(
                (idempotency_key, result),
            ),
            _ => None,
        }
    }

    /// The key of the effect this entry shows to have happened.
    pub open spec fn completed_key(self) -> Seq<char> {
        let (key, result) = self.completed()->0;
        key
    }

    /// The result of the effect this entry shows to have happened.
    pub open spec fn completed_result(self) -> ValueView {
        let (key, result) = self.completed()->0;
        result
    }
}

impl EventKind {
    /// Appends the printed form of what happened.
    pub fn push_text(&self, out: &mut String)
        ensures
            final(out)@ == old(out)@ + self@.text(),
    {
        match self {
            EventKind::Started { function, version } => {
                out.append("started ");
                out.append(function.as_str());
                out.append(" from IR");
                push_nat(out, *version);
            },
            EventKind::Effect { target, effect, .. } => {
                out.append(target.as_str());
                out.append(" [");
                out.append(effect.as_str());
                out.append("]");
            },
            EventKind::EffectReplayed { target, .. } => {
                out.append(target.as_str());
                out.append(" [replayed]");
            },
            EventKind::Failed { target, error } => {
                out.append(target.as_str());
                out.append(" failed: ");
                out.append(error.as_str());
            },
            EventKind::LoopGuard { target, repeats, action } => {
                out.append("loop guard on ");
                out.append(target.as_str());
                out.append(" after ");
                push_nat(out, *repeats as u64);
                out.append(" repeats: ");
                out.append(action.as_str());
            },
            EventKind::Checkpoint { sequence, effects } => {
                out.append("checkpoint ");
                push_nat(out, *sequence);
                out.append(" (");
                push_nat(out, *effects as u64);
                out.append(" effect(s))");
            },
            EventKind::Resumed { sequence } => {
                out.append("resumed from checkpoint ");
                push_nat(out, *sequence);
            },
            EventKind::Finished { result } => {
                out.append("finished: ");
                result.push_text(out);
            },
        }
        assert(out@ =~= old(out)@ + self@.text());
    }

    /// The printed form of what happened.
    pub fn to_string(&self) -> (r: String)
        ensures
            r@ == self@.text(),
    {
        let mut out = String::new();
        self.push_text(&mut out);
        assert(out@ =~= self@.text());
        out
    }
}

impl Clone for EventKind {
    /// A copy of the description.
    fn clone(&self) -> (r: EventKind)
        ensures
            r@ == self@,
    {
        match self {
            EventKind::Started { function, version } => EventKind::Started {
                function: function.clone(),
                version: *version,
            },
            EventKind::Effect { target, effect, idempotency_key, result } => EventKind::Effect {
                target: target.clone(),
                effect: effect.clone(),
                idempotency_key: copy_optional_text(idempotency_key),
                result: result.clone(),
            },
            EventKind::EffectReplayed { target, idempotency_key, result } =>
                EventKind::EffectReplayed {
                target: target.clone(),
                idempotency_key: idempotency_key.clone(),
                result: result.clone(),
            },
            EventKind::Failed { target, error } => EventKind::Failed {
                target: target.clone(),
                error: error.clone(),
            },
            EventKind::LoopGuard { target, repeats, action } => EventKind::LoopGuard {
                target: target.clone(),
                repeats: *repeats,
                action: action.clone(),
            },
            EventKind::Checkpoint { sequence, effects } => EventKind::Checkpoint {
                sequence: *sequence,
                effects: *effects,
            },
            EventKind::Resumed { sequence } => EventKind::Resumed { sequence: *sequence },
            EventKind::Finished { result } => EventKind::Finished { result: result.clone() },
        }
    }
}

/// One entry in the log.
#[derive(Debug, PartialEq)]
pub struct Event {
    /// Position in the log, from zero.
    pub sequence: u64,
    /// The IR operation responsible, when there is one.
    pub op: Option<OperationId>,
    /// What happened.
    pub kind: EventKind,
}

/// The mathematical content of an [`Event`].
#[verifier::ext_equal]
pub ghost struct EventView {
    pub sequence: u64,
    pub op: Option<OperationId>,
    pub kind: EventKindView,
}

impl View for Event {
    type V = EventView;

    open spec fn view(&self) -> EventView {
        EventView { sequence: self.sequence, op: self.op, kind: self.kind@ }
    }
}

impl Clone for Event {
    /// A copy of the entry.
    fn clone(&self) -> (r: Event)
        ensures
            r@ == self@,
    {
        Event { sequence: self.sequence, op: self.op, kind: self.kind.clone() }
    }
}

/// `n` spaces.
pub open spec fn spaces(n: int) -> Seq<char> {
    Seq::new(
        if n > 0 {
            n as nat
        } else {
            0
        },
        |i: int| ' ',
    )
}

impl EventView {
    /// The printed form of the entry: its number in a column of at least four
    /// characters, the operation where there is one, and what happened.
    pub open spec fn text(self) -> Seq<char> {
        "#"@ + nat_text(self.sequence as nat) + spaces(4 - nat_text(self.sequence as nat).len())
            + (match self.op {
            Some(op) => " "@ + op.text() + "  "@,
            None => "         "@,
        }) + self.kind.text()
    }
}

impl Event {
    /// Appends the printed form of the entry.
    pub fn push_text(&self, out: &mut String)
        ensures
            final(out)@ == old(out)@ + self@.text(),
    {
        let ghost digits = nat_text(self.sequence as nat);
        let mut number = String::new();
        push_nat(&mut number, self.sequence);
        assert(number@ =~= digits);
        out.append("#");
        out.append(number.as_str());
        let ghost start = out@;
        proof {
            nat_text_length(self.sequence as nat);
        }
        let mut width: usize = number.as_str().unicode_len();
        while width < 4
            invariant
                digits.len() <= width,
                width <= 4 || width == digits.len(),
                out@ =~= start + spaces(width - digits.len()),
            decreases 4 - width,
        {
            out.push(' ');
            width += 1;
        }
        assert(out@ =~= start + spaces(4 - digits.len()));
        let ghost prefix = out@;
        match self.op {
            Some(op) => {
                out.append(" ");
                out.append(op.to_string().as_str());
                out.append("  ");
                assert(out@ =~= prefix + (" "@ + op.text() + "  "@));
            },
            None => {
                out.append("         ");
            },
        }
        self.kind.push_text(out);
        assert(out@ =~= old(out)@ + self@.text());
    }

    /// The printed form of the entry.
    pub fn to_string(&self) -> (r: String)
        ensures
            r@ == self@.text(),
    {
        let mut out = String::new();
        self.push_text(&mut out);
        assert(out@ =~= self@.text());
        out
    }
}

/// The content of each entry of a log.
pub open spec fn event_views(events: Seq<Event>) -> Seq<EventView> {
    Seq::new(events.len(), |i: int| events[i]@)
}

/// The content of each of some entries.
pub open spec fn events_seen(events: Seq<&Event>) -> Seq<EventView> {
    Seq::new(events.len(), |i: int| events[i]@)
}

/// The log with one more entry, numbered by its position.
pub open spec fn appended(
    log: Seq<EventView>,
    op: Option<OperationId>,
    kind: EventKindView,
) -> Seq<EventView> {
    log.push(EventView { sequence: log.len() as u64, op, kind })
}

/// The first `n` entries that come after a sequence number.
pub open spec fn entries_since(log: Seq<EventView>, sequence: u64, n: int) -> Seq<EventView>
    decreases n,
{
    if n <= 0 {
        Seq::empty()
    } else if log[n - 1].sequence > sequence {
        entries_since(log, sequence, n - 1).push(log[n - 1])
    } else {
        entries_since(log, sequence, n - 1)
    }
}

/// Whether each entry is numbered by its position, from zero.
pub open spec fn dense(log: Seq<EventView>) -> bool {
    forall|i: int| 0 <= i < log.len() ==> (#[trigger] log[i]).sequence == i
}

/// An append-only record of what happened.
pub trait EventLog {
    /// What has been recorded so far, oldest first.
    spec fn recorded(&self) -> Seq<EventView>;

    /// Appends an entry and returns its sequence number.
    fn append(&mut self, op: Option<OperationId>, kind: EventKind) -> (r: u64)
        ensures
            final(self).recorded() == appended(old(self).recorded(), op, kind@),
            r == old(self).recorded().len() as u64,
    ;

    /// Every entry so far, oldest first.
    fn entries(&self) -> (r: &[Event])
        ensures
            event_views(r@) == self.recorded(),
    ;

    /// How many entries the log holds.
    fn len(&self) -> (r: usize)
        ensures
            r == self.recorded().len(),
    {
        self.entries().len()
    }

    /// Whether nothing has been recorded.
    fn is_empty(&self) -> (r: bool)
        ensures
            r == (self.recorded().len() == 0),
    {
        self.entries().len() == 0
    }

    /// The entries after a given sequence number, for replay from a checkpoint.
    fn since(&self, sequence: u64) -> (r: Vec<&Event>)
        ensures
            events_seen(r@) == entries_since(
                self.recorded(),
                sequence,
                self.recorded().len() as int,
            ),
    {
        let events = self.entries();
        let ghost log = event_views(events@);
        let mut found: Vec<&Event> = Vec::new();
        let mut i: usize = 0;
        assert(events_seen(found@) =~= entries_since(log, sequence, 0));
        while i < events.len()
            invariant
                i <= events@.len(),
                log == event_views(events@),
                events_seen(found@) == entries_since(log, sequence, i as int),
            decreases events@.len() - i,
        {
            let ghost before = found@;
            if events[i].sequence > sequence {
                found.push(&events[i]);
                assert(events_seen(found@) =~= events_seen(before).push(log[i as int]));
            }
            i += 1;
        }
        found
    }
}

/// An in-memory log. The default, and what the tests assert against.
#[derive(Debug)]
pub struct InMemoryEventLog {
    events: Vec<Event>,
}

/// The printed forms of the first `n` entries, one per line.
pub open spec fn log_text(log: Seq<EventView>, n: int) -> Seq<char>
    decreases n,
{
    if n <= 0 {
        Seq::empty()
    } else {
        log_text(log, n - 1) + log[n - 1].text() + "\n"@
    }
}

impl Default for InMemoryEventLog {
    fn default() -> (r: InMemoryEventLog)
        ensures
            r.recorded() == Seq::<EventView>::empty(),
    {
        InMemoryEventLog::new()
    }
}

impl Clone for InMemoryEventLog {
    /// A copy of the log.
    fn clone(&self) -> (r: InMemoryEventLog)
        ensures
            r.recorded() == self.recorded(),
    {
        let r = InMemoryEventLog { events: clone_all(&self.events) };
        assert(r.recorded() =~= self.recorded());
        r
    }
}

impl InMemoryEventLog {
    /// An empty log.
    pub fn new() -> (r: InMemoryEventLog)
        ensures
            r.recorded() == Seq::<EventView>::empty(),
    {
        let r = InMemoryEventLog { events: Vec::new() };
        assert(r.recorded() =~= Seq::empty());
        r
    }

    /// A log that holds entries read back from their durable form.
    pub fn restored(events: Vec<Event>) -> (r: InMemoryEventLog)
        ensures
            r.recorded() == event_views(events@),
    {
        InMemoryEventLog { events }
    }

    /// The printed form of the log, one entry per line.
    pub fn to_string(&self) -> (r: String)
        ensures
            r@ == log_text(self.recorded(), self.recorded().len() as int),
    {
        let ghost log = self.recorded();
        let mut out = String::new();
        let mut i: usize = 0;
        while i < self.events.len()
            invariant
                i <= self.events@.len(),
                log == event_views(self.events@),
                out@ =~= log_text(log, i as int),
            decreases self.events@.len() - i,
        {
            self.events[i].push_text(&mut out);
            out.append("\n");
            i += 1;
        }
        out
    }
}

impl EventLog for InMemoryEventLog {
    closed spec fn recorded(&self) -> Seq<EventView> {
        event_views(self.events@)
    }

    fn append(&mut self, op: Option<OperationId>, kind: EventKind) -> (r: u64) {
        let sequence: u64 = self.events.len() as u64;
        self.events.push(Event { sequence, op, kind });
        assert(self.recorded() =~= appended(old(self).recorded(), op, kind@));
        sequence
    }

    fn entries(&self) -> (r: &[Event]) {
        self.events.as_slice()
    }
}

/// Appending keeps every earlier entry as it is, and numbers the new one by
/// its position: sequence numbers stay dense and ordered.
pub proof fn appending_keeps_the_log(
    log: Seq<EventView>,
    op: Option<OperationId>,
    kind: EventKindView,
)
    requires
        log.len() <= u64::MAX,
    ensures
        appended(log, op, kind).len() == log.len() + 1,
        forall|i: int| 0 <= i < log.len() ==> #[trigger] appended(log, op, kind)[i] == log[i],
        dense(log) ==> dense(appended(log, op, kind)),
{
}

/// In a log numbered by position, the entries after a number are the ones at
/// later positions.
pub proof fn since_is_the_tail(log: Seq<EventView>, sequence: u64, n: int)
    requires
        dense(log),
        0 <= n <= log.len(),
    ensures
        entries_since(log, sequence, n) == if n <= sequence + 1 {
            Seq::<EventView>::empty()
        } else {
            log.subrange(sequence + 1, n)
        },
    decreases n,
{
    if n > 0 {
        since_is_the_tail(log, sequence, n - 1);
        assert(log[n - 1].sequence == n - 1);
        if n > sequence + 1 {
            assert(entries_since(log, sequence, n) =~= log.subrange(sequence + 1, n));
        }
    }
}

} // verus!
