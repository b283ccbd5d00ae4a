//! The boundary between the plan and the world.
//!
//! Everything the runtime cannot do itself goes through [`Environment`]: tool
//! calls, model calls, the memory store. That is the only place an Agent IR
//! program can reach outside, and by the time a call arrives here the verifier
//! has already established that a capability covers it.

use vstd::prelude::*;
use vstd::string::*;

use crate::assoc::{entry_keys, insert, insert_then_lookup, keys, lookup, slot, slot_of};
use crate::effect::{Effect, EffectView};
use crate::state::{next_count, one_more};
use crate::text::{copy_optional_text, nat_text, optional_text, push_nat, same_text};
use crate::value::{copy_list, value_view, value_views, Record, Value, ValueView};

verus! {

/// One request to the outside world.
#[derive(Debug, PartialEq)]
pub struct Invocation {
    /// The tool, model or memory key being addressed.
    pub target: String,
    /// The arguments, in operand order.
    pub args: Vec<Value>,
    /// The operation's attributes, for anything the target needs beyond args.
    pub attributes: Record,
    /// The declared effect. The environment may rely on it: a `ReadExternal`
    /// call is safe to retry, a `WriteExternal` one is not.
    pub effect: Effect,
    /// Present for every non-replayable effect.
    pub idempotency_key: Option<String>,
}

/// The mathematical content of an [`Invocation`].
#[verifier::ext_equal]
pub ghost struct InvocationView {
    pub target: Seq<char>,
    pub args: Seq<ValueView>,
    pub attributes: Seq<(Seq<char>, ValueView)>,
    pub effect: EffectView,
    pub idempotency_key: Option<Seq<char>>,
}

impl View for Invocation {
    type V = InvocationView;

    open spec fn view(&self) -> InvocationView {
        InvocationView {
            target: self.target@,
            args: value_views(self.args@),
            attributes: self.attributes@,
            effect: self.effect@,
            idempotency_key: optional_text(self.idempotency_key),
        }
    }
}

impl InvocationView {
    /// The argument at a position, or nothing meaningful where there is none.
    pub open spec fn arg_or_null(self, index: int) -> ValueView {
        if 0 <= index < self.args.len() {
            self.args[index]
        } else {
            ValueView::Null
        }
    }
}

impl Invocation {
    /// The argument at a position, if any.
    pub fn arg(&self, index: usize) -> (r: Option<&Value>)
        ensures
            r is Some == (index < self@.args.len()),
            r matches Some(v) ==> v@ == self@.args[index as int],
    {
        if index < self.args.len() {
            Some(&self.args[index])
        } else {
            None
        }
    }

    /// One attribute by name.
    pub fn attribute(&self, name: &str) -> (r: Option<&Value>)
        ensures
            r is Some == lookup(self@.attributes, name@) is Some,
            r matches Some(v) ==> lookup(self@.attributes, name@) == Some(v@),
    {
        self.attributes.get(name)
    }
}

impl Clone for Invocation {
    /// A copy of the request.
    fn clone(&self) -> (r: Invocation)
        ensures
            r@ == self@,
    {
        Invocation {
            target: self.target.clone(),
            args: copy_list(&self.args),
            attributes: self.attributes.clone(),
            effect: self.effect.clone(),
            idempotency_key: copy_optional_text(&self.idempotency_key),
        }
    }
}

/// Why a call to the world failed.
#[derive(Debug, PartialEq)]
pub enum EnvError {
    /// The environment has no such tool or model.
    Unknown(String),
    /// The call was made but failed.
    Failed(String),
    /// The process died. Used by tests to simulate a crash, and by a real
    /// environment to report a lost connection.
    Crashed(String),
}

/// The mathematical content of an [`EnvError`].
#[verifier::ext_equal]
pub ghost enum EnvErrorView {
    Unknown(Seq<char>),
    Failed(Seq<char>),
    Crashed(Seq<char>),
}

impl View for EnvError {
    type V = EnvErrorView;

    open spec fn view(&self) -> EnvErrorView {
        match self {
            EnvError::Unknown(what) => EnvErrorView::Unknown(what@),
            EnvError::Failed(why) => EnvErrorView::Failed(why@),
            EnvError::Crashed(why) => EnvErrorView::Crashed(why@),
        }
    }
}

impl EnvErrorView {
    /// The printed form of the failure.
    pub open spec fn text(self) -> Seq<char> {
        match self {
            EnvErrorView::Unknown(what) => "no such target: "@ + what,
            EnvErrorView::Failed(why) => "call failed: "@ + why,
            EnvErrorView::Crashed(why) => "the runtime lost its environment: "@ + why,
        }
    }
}

/// The content of what a call came back with.
pub open spec fn reply_view(reply: Result<Value, EnvError>) -> Result<ValueView, EnvErrorView> {
    match reply {
        Ok(value) => Ok(value@),
        Err(error) => Err(error@),
    }
}

/// A name between backquotes, after a word and a space.
pub open spec fn quoted_text(word: Seq<char>, name: Seq<char>) -> Seq<char> {
    word + "`"@ + name + "`"@
}

impl EnvError {
    /// The printed form of the failure.
    pub fn to_string(&self) -> (r: String)
        ensures
            r@ == self@.text(),
    {
        let mut out = String::new();
        match self {
            EnvError::Unknown(what) => {
                out.append("no such target: ");
                out.append(what.as_str());
            },
            EnvError::Failed(why) => {
                out.append("call failed: ");
                out.append(why.as_str());
            },
            EnvError::Crashed(why) => {
                out.append("the runtime lost its environment: ");
                out.append(why.as_str());
            },
        }
        assert(out@ =~= self@.text());
        out
    }

    /// The failure for a target the environment does not have; `word` says
    /// what kind of target it is.
    pub fn no_such(word: &str, name: &str) -> (r: EnvError)
        ensures
            r@ == EnvErrorView::Unknown(quoted_text(word@, name@)),
    {
        let mut what = String::new();
        what.append(word);
        what.append("`");
        what.append(name);
        what.append("`");
        assert(what@ =~= quoted_text(word@, name@));
        EnvError::Unknown(what)
    }
}

impl Clone for EnvError {
    /// A copy of the failure.
    fn clone(&self) -> (r: EnvError)
        ensures
            r@ == self@,
    {
        match self {
            EnvError::Unknown(what) => EnvError::Unknown(what.clone()),
            EnvError::Failed(why) => EnvError::Failed(why.clone()),
            EnvError::Crashed(why) => EnvError::Crashed(why.clone()),
        }
    }
}

/// One thing the runtime asks of the world.
#[verifier::ext_equal]
pub ghost enum RequestView {
    Tool(InvocationView),
    Infer(InvocationView),
    Read(InvocationView),
    Write(InvocationView),
    Search(InvocationView),
    Lookup(Seq<char>),
}

/// What the world answers: the outcome of a call, or what it knows of a key.
#[verifier::ext_equal]
pub ghost enum ReplyView {
    Outcome(Result<ValueView, EnvErrorView>),
    Known(Option<ValueView>),
}

impl ReplyView {
    /// The answer to a call.
    pub open spec fn outcome(self) -> Result<ValueView, EnvErrorView> {
        match self {
            ReplyView::Outcome(outcome) => outcome,
            ReplyView::Known(_) => arbitrary(),
        }
    }

    /// The answer to a question about a key.
    pub open spec fn known(self) -> Option<ValueView> {
        match self {
            ReplyView::Known(known) => known,
            ReplyView::Outcome(_) => arbitrary(),
        }
    }
}

impl RequestView {
    /// The call that a request makes; a question about a key makes none.
    pub open spec fn call(self) -> Option<InvocationView> {
        match self {
            RequestView::Tool(call) => Some(call),
            RequestView::Infer(call) => Some(call),
            RequestView::Read(call) => Some(call),
            RequestView::Write(call) => Some(call),
            RequestView::Search(call) => Some(call),
            RequestView::Lookup(_) => None,
        }
    }

    /// The key under which a call is made, where it has one.
    pub open spec fn call_key(self) -> Option<Seq<char>> {
        match self {
            RequestView::Tool(call) => call.idempotency_key,
            RequestView::Infer(call) => call.idempotency_key,
            RequestView::Read(call) => call.idempotency_key,
            RequestView::Write(call) => call.idempotency_key,
            RequestView::Search(call) => call.idempotency_key,
            RequestView::Lookup(_) => None,
        }
    }
}

/// One exchange with the world: what was asked, and what was answered.
#[verifier::ext_equal]
pub ghost struct Exchange {
    pub request: RequestView,
    pub reply: ReplyView,
}

impl Exchange {
    /// Whether the answer is that of an environment without the capability: the
    /// one that every method of [`Environment`] gives where it is not
    /// implemented.
    pub open spec fn is_refusal(self) -> bool {
        match self.request {
            RequestView::Tool(call) => self.reply == refusal(quoted_text("tool "@, call.target)),
            RequestView::Infer(call) => self.reply == refusal(quoted_text("model "@, call.target)),
            RequestView::Read(call) => self.reply == refusal(
                quoted_text("memory key "@, call.target),
            ),
            RequestView::Write(call) => self.reply == refusal(
                quoted_text("memory key "@, call.target),
            ),
            RequestView::Search(_) => self.reply == refusal("memory search"@),
            RequestView::Lookup(_) => self.reply == ReplyView::Known(None),
        }
    }
}

/// The answer of an environment that does not know what it is asked for.
pub open spec fn refusal(what: Seq<char>) -> ReplyView {
    ReplyView::Outcome(Err(EnvErrorView::Unknown(what)))
}

/// The exchange of a call.
pub open spec fn call_exchange(
    request: RequestView,
    reply: Result<Value, EnvError>,
) -> Exchange {
    Exchange { request, reply: ReplyView::Outcome(reply_view(reply)) }
}

/// The exchange of a question about a key.
pub open spec fn key_exchange(key: Seq<char>, known: Option<Value>) -> Exchange {
    Exchange { request: RequestView::Lookup(key), reply: ReplyView::Known(known_view(known)) }
}

/// The content of what the world knows of a key.
pub open spec fn known_view(known: Option<Value>) -> Option<ValueView> {
    match known {
        Some(value) => Some(value@),
        None => None,
    }
}

/// What an environment has dealt with, in order.
#[verifier::ext_equal]
pub ghost struct Dealings {
    pub exchanges: Seq<Exchange>,
}

impl Dealings {
    /// Whether this is what earlier dealings become by one exchange: it is the
    /// next entry, and only a refusal may leave no trace.
    pub open spec fn follow(self, earlier: Dealings, exchange: Exchange) -> bool {
        ||| self.exchanges == earlier.exchanges.push(exchange)
        ||| self == earlier && exchange.is_refusal()
    }
}

/// The calls of the first `n` exchanges.
pub open spec fn calls_among(exchanges: Seq<Exchange>, n: int) -> Seq<InvocationView>
    decreases n,
{
    if n <= 0 {
        Seq::empty()
    } else {
        match exchanges[n - 1].request.call() {
            Some(call) => calls_among(exchanges, n - 1).push(call),
            None => calls_among(exchanges, n - 1),
        }
    }
}

/// One more exchange adds its call.
pub proof fn one_more_call(exchanges: Seq<Exchange>, exchange: Exchange)
    ensures
        calls_among(exchanges.push(exchange), exchanges.len() + 1int)
            == match exchange.request.call() {
            Some(call) => calls_among(exchanges, exchanges.len() as int).push(call),
            None => calls_among(exchanges, exchanges.len() as int),
        },
{
    calls_are_local(exchanges.push(exchange), exchanges, exchanges.len() as int);
}

proof fn calls_are_local(a: Seq<Exchange>, b: Seq<Exchange>, n: int)
    requires
        n <= a.len(),
        n <= b.len(),
        forall|i: int| 0 <= i < n ==> a[i] == #[trigger] b[i],
    ensures
        calls_among(a, n) == calls_among(b, n),
    decreases n,
{
    if n > 0 {
        calls_are_local(a, b, n - 1);
        assert(a[n - 1] == b[n - 1]);
    }
}

/// What a plan may ask of the world.
///
/// Every method defaults to [`EnvError::Unknown`], so an environment only
/// implements the capabilities its agent actually holds — a program that tries
/// anything else fails loudly instead of silently doing nothing.
///
/// Nothing is promised of what an implementation answers: the runtime is
/// correct whatever comes back. What an implementation owes is an account of
/// what it was asked and what it answered, so that one can tell what reached
/// it.
pub trait Environment {
    /// What the environment has dealt with so far.
    spec fn dealings(&self) -> Dealings;

    /// Whether what the environment shows of itself agrees with its dealings.
    spec fn is_faithful(&self) -> bool;

    /// Invokes a tool.
    fn tool_call(&mut self, call: &Invocation) -> (r: Result<Value, EnvError>)
        ensures
            final(self).dealings().follow(
                old(self).dealings(),
                call_exchange(RequestView::Tool(call@), r),
            ),
            old(self).is_faithful() ==> final(self).is_faithful(),
        default_ensures
            ReplyView::Outcome(reply_view(r)) == refusal(quoted_text("tool "@, call@.target)),
    {
        Err(EnvError::no_such("tool ", call.target.as_str()))
    }

    /// Asks a model.
    fn infer(&mut self, call: &Invocation) -> (r: Result<Value, EnvError>)
        ensures
            final(self).dealings().follow(
                old(self).dealings(),
                call_exchange(RequestView::Infer(call@), r),
            ),
            old(self).is_faithful() ==> final(self).is_faithful(),
        default_ensures
            ReplyView::Outcome(reply_view(r)) == refusal(quoted_text("model "@, call@.target)),
    {
        Err(EnvError::no_such("model ", call.target.as_str()))
    }

    /// Reads one memory entry.
    fn memory_read(&mut self, call: &Invocation) -> (r: Result<Value, EnvError>)
        ensures
            final(self).dealings().follow(
                old(self).dealings(),
                call_exchange(RequestView::Read(call@), r),
            ),
            old(self).is_faithful() ==> final(self).is_faithful(),
        default_ensures
            ReplyView::Outcome(reply_view(r)) == refusal(quoted_text("memory key "@, call@.target)),
    {
        Err(EnvError::no_such("memory key ", call.target.as_str()))
    }

    /// Writes one memory entry.
    fn memory_write(&mut self, call: &Invocation) -> (r: Result<Value, EnvError>)
        ensures
            final(self).dealings().follow(
                old(self).dealings(),
                call_exchange(RequestView::Write(call@), r),
            ),
            old(self).is_faithful() ==> final(self).is_faithful(),
        default_ensures
            ReplyView::Outcome(reply_view(r)) == refusal(quoted_text("memory key "@, call@.target)),
    {
        Err(EnvError::no_such("memory key ", call.target.as_str()))
    }

    /// Searches memory.
    fn memory_search(&mut self, _call: &Invocation) -> (r: Result<Value, EnvError>)
        ensures
            final(self).dealings().follow(
                old(self).dealings(),
                call_exchange(RequestView::Search(_call@), r),
            ),
            old(self).is_faithful() ==> final(self).is_faithful(),
        default_ensures
            ReplyView::Outcome(reply_view(r)) == refusal("memory search"@),
    {
        Err(EnvError::Unknown("memory search".to_string()))
    }

    /// Whether this environment already recorded a result for an idempotency
    /// key.
    ///
    /// The executor keeps its own ledger and consults it first; this hook is
    /// for an environment whose backend tracks keys itself — a payment provider
    /// that deduplicates on a request id, for instance. Returning `None`, the
    /// default, means "I do not track keys, use your own ledger".
    fn lookup_idempotent(&mut self, _key: &str) -> (r: Option<Value>)
        ensures
            final(self).dealings().follow(old(self).dealings(), key_exchange(_key@, r)),
            old(self).is_faithful() ==> final(self).is_faithful(),
        default_ensures
            r is None,
    {
        None
    }
}

/// What a handler was asked and what it answered, in order.
#[verifier::ext_equal]
pub ghost struct History {
    pub answers: Seq<(InvocationView, Result<ValueView, EnvErrorView>)>,
}

/// How one target is answered.
pub trait Handler {
    /// What the handler has answered so far.
    spec fn history(&self) -> History;

    /// Answers one call.
    fn handle(&mut self, call: &Invocation) -> (r: Result<Value, EnvError>)
        ensures
            final(self).history().answers == old(self).history().answers.push(
                (call@, reply_view(r)),
            ),
    ;
}

/// The handlers a [`RecordingEnvironment`] knows.
pub enum AnyHandler {
    /// Always answers the same thing.
    Returning(Value),
    /// Answers as the caller's own handler does.
    Other(Box<dyn Handler>),
}

/// The mathematical content of a handler: the value it always answers, or what
/// a caller's own handler was asked and answered.
#[verifier::ext_equal]
pub ghost enum HandlerView {
    Fixed(ValueView),
    Own(History),
}

impl View for AnyHandler {
    type V = HandlerView;

    open spec fn view(&self) -> HandlerView {
        match self {
            AnyHandler::Returning(value) => HandlerView::Fixed(value@),
            AnyHandler::Other(handler) => HandlerView::Own(handler.history()),
        }
    }
}

impl HandlerView {
    /// Whether a handler answers a call with a reply and is then another one: a
    /// fixed answer is given and stays, and a caller's own handler was asked.
    pub open spec fn answers(
        self,
        call: InvocationView,
        reply: Result<ValueView, EnvErrorView>,
        after: HandlerView,
    ) -> bool {
        match self {
            HandlerView::Fixed(value) => reply == Ok::<ValueView, EnvErrorView>(value) && after
                == self,
            HandlerView::Own(history) => after == HandlerView::Own(
                History { answers: history.answers.push((call, reply)) },
            ),
        }
    }
}

/// An environment that records everything it was asked to do.
///
/// This is what the tests and the `agent-ir run` demo use: register a handler
/// per tool name, then assert on the call log afterwards. The recorded calls
/// are what makes semantic non-regression tests possible — optimizing a program
/// must not change the sequence of effects it performs.
pub struct RecordingEnvironment {
    handlers: Vec<(String, AnyHandler)>,
    /// Every call that reached the world, in order.
    pub calls: Vec<Invocation>,
    memory: Record,
    /// Keys of writes this environment has already applied.
    ///
    /// The check belongs in the tool runtime as well as in the executor's
    /// ledger: a write whose acknowledgement is lost to a crash never reaches
    /// the executor's ledger, so only the side that actually performed it can
    /// say it happened.
    completed: Record,
    /// When set, the environment fails with [`EnvError::Crashed`] once this
    /// many *writing* calls have gone through. Used to stage a crash.
    pub crash_after_writes: Option<usize>,
    writes: usize,
    /// Every exchange, in order.
    dealt: Ghost<Seq<Exchange>>,
}

/// The mathematical content of a [`RecordingEnvironment`].
#[verifier::ext_equal]
pub ghost struct WorldView {
    pub handlers: Seq<(Seq<char>, HandlerView)>,
    pub calls: Seq<InvocationView>,
    pub memory: Seq<(Seq<char>, ValueView)>,
    pub completed: Seq<(Seq<char>, ValueView)>,
    pub crash_after_writes: Option<usize>,
    pub writes: usize,
    pub dealt: Seq<Exchange>,
}

/// The content of each of some requests.
pub open spec fn invocation_views(calls: Seq<Invocation>) -> Seq<InvocationView> {
    Seq::new(calls.len(), |i: int| calls[i]@)
}

impl View for RecordingEnvironment {
    type V = WorldView;

    closed spec fn view(&self) -> WorldView {
        WorldView {
            handlers: Seq::new(
                self.handlers@.len(),
                |i: int| (self.handlers@[i].0@, self.handlers@[i].1@),
            ),
            calls: invocation_views(self.calls@),
            memory: self.memory@,
            completed: self.completed@,
            crash_after_writes: self.crash_after_writes,
            writes: self.writes,
            dealt: self.dealt@,
        }
    }
}

/// The words of a staged crash.
pub open spec fn crash_text(writes: usize) -> Seq<char> {
    "simulated crash after "@ + nat_text(writes as nat) + " write(s)"@
}

impl WorldView {
    /// The environment that knows nothing yet.
    pub open spec fn fresh() -> WorldView {
        WorldView {
            handlers: Seq::empty(),
            calls: Seq::empty(),
            memory: Seq::empty(),
            completed: Seq::empty(),
            crash_after_writes: None,
            writes: 0,
            dealt: Seq::empty(),
        }
    }

    /// The environment once the key of a call is recorded with a result.
    pub open spec fn complete(self, call: InvocationView, result: ValueView) -> WorldView {
        match call.idempotency_key {
            Some(key) => WorldView { completed: insert(self.completed, key, result), ..self },
            None => self,
        }
    }

    /// The environment once a write was applied: it is counted, and its key is
    /// recorded before anything can go wrong on the way back.
    pub open spec fn write(self, call: InvocationView) -> WorldView {
        (WorldView { writes: one_more(self.writes), ..self }).complete(call, ValueView::Null)
    }

    /// The environment once a call is recorded.
    pub open spec fn hear(self, call: InvocationView) -> WorldView {
        WorldView { calls: self.calls.push(call), ..self }
    }

    /// Whether the crash is staged for the write just counted.
    pub open spec fn crashes(self) -> bool {
        self.crash_after_writes == Some(self.writes)
    }

    /// The environment after a call was taken in, before it is answered.
    pub open spec fn taken(self, call: InvocationView) -> WorldView {
        if call.effect.is_write() {
            self.write(call).hear(call)
        } else {
            self.hear(call)
        }
    }

    /// Whether a call is a write that meets the staged crash.
    pub open spec fn loses(self, call: InvocationView) -> bool {
        call.effect.is_write() && self.write(call).crashes()
    }

    /// The environment after a call was answered.
    pub open spec fn answered(
        self,
        call: InvocationView,
        reply: Result<ValueView, EnvErrorView>,
    ) -> WorldView {
        match reply {
            Ok(value) => self.complete(call, value),
            Err(_) => self,
        }
    }

    /// Whether the handler of the target of a call answers it, and some handlers
    /// are what there is then: only that handler can have changed.
    pub open spec fn handles(
        self,
        call: InvocationView,
        reply: Result<ValueView, EnvErrorView>,
        after: Seq<(Seq<char>, HandlerView)>,
    ) -> bool {
        match lookup(self.handlers, call.target) {
            Some(handler) => {
                let p = slot(keys(self.handlers), call.target) as int;
                &&& after == self.handlers.update(p, (call.target, after[p].1))
                &&& handler.answers(call, reply, after[p].1)
            },
            None => after == self.handlers && reply == Err::<ValueView, EnvErrorView>(
                EnvErrorView::Unknown(quoted_text(""@, call.target)),
            ),
        }
    }

    /// The environment once an exchange is over.
    pub open spec fn deal(self, exchange: Exchange) -> WorldView {
        WorldView { dealt: self.dealt.push(exchange), ..self }
    }

    /// How a call on a tool or a model goes: a write that meets the staged
    /// crash is applied and recorded, and its answer is lost; any other call is
    /// recorded and answered by the handler of its target.
    pub open spec fn serves(
        self,
        call: InvocationView,
        after: WorldView,
        reply: Result<ValueView, EnvErrorView>,
    ) -> bool {
        if self.loses(call) {
            &&& after == self.taken(call)
            &&& reply == Err::<ValueView, EnvErrorView>(
                EnvErrorView::Crashed(crash_text(one_more(self.writes))),
            )
        } else {
            self.taken(call).handles(call, reply, after.handlers) && after == (WorldView {
                handlers: after.handlers,
                ..self.taken(call)
            }).answered(call, reply)
        }
    }

    /// The environment with a memory entry written.
    pub open spec fn remember(self, call: InvocationView) -> WorldView {
        WorldView { memory: insert(self.memory, call.target, call.arg_or_null(0)), ..self }
    }

    /// What memory holds under a key.
    pub open spec fn recalled(self, key: Seq<char>) -> ValueView {
        match lookup(self.memory, key) {
            Some(value) => value,
            None => ValueView::Null,
        }
    }

    /// Everything memory holds, in key order.
    pub open spec fn everything(self) -> Seq<ValueView> {
        Seq::new(self.memory.len(), |i: int| self.memory[i].1)
    }
}

/// The requests among the first `n` that change something outside the program.
pub open spec fn writes_among(calls: Seq<InvocationView>, n: int) -> Seq<InvocationView>
    decreases n,
{
    if n <= 0 {
        Seq::empty()
    } else if calls[n - 1].effect.is_write() {
        writes_among(calls, n - 1).push(calls[n - 1])
    } else {
        writes_among(calls, n - 1)
    }
}

impl Default for RecordingEnvironment {
    fn default() -> (r: RecordingEnvironment)
        ensures
            r@ == WorldView::fresh(),
            r.is_faithful(),
    {
        RecordingEnvironment::new()
    }
}

impl RecordingEnvironment {
    /// An environment that knows nothing yet.
    pub fn new() -> (r: RecordingEnvironment)
        ensures
            r@ == WorldView::fresh(),
            r.is_faithful(),
    {
        let r = RecordingEnvironment {
            handlers: Vec::new(),
            calls: Vec::new(),
            memory: Record::new(),
            completed: Record::new(),
            crash_after_writes: None,
            writes: 0,
            dealt: Ghost(Seq::empty()),
        };
        assert(r@ =~= WorldView::fresh());
        r
    }

    /// Registers a handler for one tool or model name.
    pub fn on(self, name: &str, handler: AnyHandler) -> (r: RecordingEnvironment)
        ensures
            r@ == (WorldView {
                handlers: insert(self@.handlers, name@, handler@),
                ..self@
            }),
            self.is_faithful() ==> r.is_faithful(),
    {
        let ghost before = self@;
        let mut env = self;
        let p: usize = slot_of(&env.handlers, name);
        assert(entry_keys(env.handlers@) =~= keys(env@.handlers));
        if p < env.handlers.len() && same_text(env.handlers[p].0.as_str(), name) {
            env.handlers[p] = (name.to_string(), handler);
        } else {
            env.handlers.insert(p, (name.to_string(), handler));
        }
        assert(env@.handlers =~= insert(before.handlers, name@, handler@));
        env
    }

    /// Registers a handler that always answers the same thing.
    pub fn returning(self, name: &str, value: Value) -> (r: RecordingEnvironment)
        ensures
            r@ == (WorldView {
                handlers: insert(self@.handlers, name@, HandlerView::Fixed(value@)),
                ..self@
            }),
            self.is_faithful() ==> r.is_faithful(),
    {
        self.on(name, AnyHandler::Returning(value))
    }

    /// Makes the environment crash after `count` writing calls.
    pub fn crashing_after_writes(self, count: usize) -> (r: RecordingEnvironment)
        ensures
            r@ == (WorldView { crash_after_writes: Some(count), ..self@ }),
            self.is_faithful() ==> r.is_faithful(),
    {
        let mut env = self;
        env.crash_after_writes = Some(count);
        env
    }

    /// The names of the targets that were called, in order.
    pub fn call_names(&self) -> (r: Vec<&str>)
        ensures
            r@.len() == self@.calls.len(),
            forall|i: int| 0 <= i < r@.len() ==> (#[trigger] r@[i])@ == self@.calls[i].target,
    {
        let mut names: Vec<&str> = Vec::new();
        let mut i: usize = 0;
        while i < self.calls.len()
            invariant
                i <= self.calls@.len(),
                names@.len() == i,
                forall|j: int| 0 <= j < i ==> (#[trigger] names@[j])@ == self@.calls[j].target,
            decreases self.calls@.len() - i,
        {
            names.push(self.calls[i].target.as_str());
            i += 1;
        }
        names
    }

    /// Only the calls that changed something outside the program.
    pub fn writing_calls(&self) -> (r: Vec<&Invocation>)
        ensures
            calls_seen(r@) == writes_among(self@.calls, self@.calls.len() as int),
    {
        let mut found: Vec<&Invocation> = Vec::new();
        let mut i: usize = 0;
        assert(calls_seen(found@) =~= writes_among(self@.calls, 0));
        while i < self.calls.len()
            invariant
                i <= self.calls@.len(),
                calls_seen(found@) == writes_among(self@.calls, i as int),
            decreases self.calls@.len() - i,
        {
            let ghost before = found@;
            if self.calls[i].effect.is_write() {
                found.push(&self.calls[i]);
                assert(calls_seen(found@) =~= calls_seen(before).push(self@.calls[i as int]));
            }
            i += 1;
        }
        found
    }

    /// The current contents of the memory store.
    pub fn memory(&self) -> (r: &Record)
        ensures
            r@ == self@.memory,
    {
        &self.memory
    }

    /// Records the key of a call with a result.
    fn complete(&mut self, call: &Invocation, result: Value)
        ensures
            final(self)@ == old(self)@.complete(call@, result@),
    {
        match &call.idempotency_key {
            Some(key) => {
                self.completed.insert(key.clone(), result);
            },
            None => {},
        }
        assert(self@ =~= old(self)@.complete(call@, result@));
    }

    /// Applies a write, up to its answer.
    fn write(&mut self, call: &Invocation)
        ensures
            final(self)@ == old(self)@.write(call@),
    {
        proof {
            value_view(Value::Null);
        }
        self.writes = next_count(self.writes);
        self.complete(call, Value::Null);
    }

    /// Records a call.
    fn hear(&mut self, call: &Invocation)
        ensures
            final(self)@ == old(self)@.hear(call@),
    {
        self.calls.push(call.clone());
        assert(self@.calls =~= old(self)@.calls.push(call@));
    }

    /// Whether the crash is staged for the write just counted.
    fn crashes(&self) -> (r: bool)
        ensures
            r == self@.crashes(),
    {
        match self.crash_after_writes {
            Some(count) => count == self.writes,
            None => false,
        }
    }

    /// The failure a staged crash reports.
    fn crash(&self) -> (r: EnvError)
        ensures
            r@ == EnvErrorView::Crashed(crash_text(self@.writes)),
    {
        let mut why = String::from_str("simulated crash after ");
        push_nat(&mut why, self.writes as u64);
        why.append(" write(s)");
        assert(why@ =~= crash_text(self@.writes));
        EnvError::Crashed(why)
    }

    /// Stores the first argument of a call in memory.
    fn remember(&mut self, call: &Invocation)
        ensures
            final(self)@ == old(self)@.remember(call@),
    {
        proof {
            value_view(Value::Null);
        }
        let value = match call.arg(0) {
            Some(value) => value.clone(),
            None => Value::Null,
        };
        self.memory.insert(call.target.clone(), value);
    }

    /// Has the handler of a target answer a call.
    fn handled(&mut self, call: &Invocation) -> (r: Result<Value, EnvError>)
        ensures
            final(self)@ == (WorldView { handlers: final(self)@.handlers, ..old(self)@ }),
            old(self)@.handles(call@, reply_view(r), final(self)@.handlers),
    {
        let p: usize = slot_of(&self.handlers, call.target.as_str());
        assert(entry_keys(self.handlers@) =~= keys(self@.handlers));
        if p < self.handlers.len() && same_text(
            self.handlers[p].0.as_str(),
            call.target.as_str(),
        ) {
            let r = match &mut self.handlers[p].1 {
                AnyHandler::Returning(value) => Ok(value.clone()),
                AnyHandler::Other(handler) => handler.handle(call),
            };
            assert(self@.handlers =~= old(self)@.handlers.update(
                p as int,
                (call@.target, self@.handlers[p as int].1),
            ));
            r
        } else {
            Err(EnvError::no_such("", call.target.as_str()))
        }
    }

    /// Performs one call on a tool or a model: a write is applied and its key
    /// recorded first, then the crash strikes if it is due, and otherwise the
    /// handler answers.
    fn dispatch(&mut self, call: &Invocation) -> (r: Result<Value, EnvError>)
        ensures
            old(self)@.serves(call@, final(self)@, reply_view(r)),
    {
        if call.effect.is_write() {
            self.write(call);
            if self.crashes() {
                // Exactly like a real write whose acknowledgement is lost: the
                // effect happened, the caller never learned that it did.
                let error = self.crash();
                self.hear(call);
                return Err(error);
            }
        }
        self.hear(call);
        let result = self.handled(call);
        match &result {
            Ok(value) => {
                self.complete(call, value.clone());
            },
            Err(_) => {},
        }
        result
    }
}

/// The content of each of some requests.
pub open spec fn calls_seen(calls: Seq<&Invocation>) -> Seq<InvocationView> {
    Seq::new(calls.len(), |i: int| calls[i]@)
}

impl RecordingEnvironment {
    /// Writes an exchange down.
    fn deal(&mut self, exchange: Ghost<Exchange>)
        ensures
            final(self)@ == old(self)@.deal(exchange@),
    {
        proof {
            self.dealt@ = self.dealt@.push(exchange@);
        }
        assert(self@ =~= old(self)@.deal(exchange@));
    }
}

impl Environment for RecordingEnvironment {
    open spec fn dealings(&self) -> Dealings {
        Dealings { exchanges: self@.dealt }
    }

    /// The recorded calls are the calls of the dealings.
    open spec fn is_faithful(&self) -> bool {
        self@.calls == calls_among(self@.dealt, self@.dealt.len() as int)
    }

    fn lookup_idempotent(&mut self, key: &str) -> (r: Option<Value>)
        ensures
            final(self)@ == old(self)@.deal(key_exchange(key@, r)),
            r is Some == lookup(old(self)@.completed, key@) is Some,
            r matches Some(v) ==> lookup(old(self)@.completed, key@) == Some(v@),
    {
        let r = match self.completed.get(key) {
            Some(value) => Some(value.clone()),
            None => None,
        };
        proof {
            one_more_call(self@.dealt, key_exchange(key@, r));
        }
        self.deal(Ghost(key_exchange(key@, r)));
        r
    }

    fn tool_call(&mut self, call: &Invocation) -> (r: Result<Value, EnvError>)
        ensures
            old(self)@.serves(
                call@,
                WorldView { dealt: old(self)@.dealt, ..final(self)@ },
                reply_view(r),
            ),
            final(self)@.dealt == old(self)@.dealt.push(
                call_exchange(RequestView::Tool(call@), r),
            ),
    {
        let r = self.dispatch(call);
        let ghost exchange = call_exchange(RequestView::Tool(call@), r);
        proof {
            one_more_call(self@.dealt, exchange);
        }
        let ghost served = self@;
        self.deal(Ghost(exchange));
        assert(served =~= WorldView { dealt: old(self)@.dealt, ..self@ });
        r
    }

    fn infer(&mut self, call: &Invocation) -> (r: Result<Value, EnvError>)
        ensures
            old(self)@.serves(
                call@,
                WorldView { dealt: old(self)@.dealt, ..final(self)@ },
                reply_view(r),
            ),
            final(self)@.dealt == old(self)@.dealt.push(
                call_exchange(RequestView::Infer(call@), r),
            ),
    {
        let r = self.dispatch(call);
        let ghost exchange = call_exchange(RequestView::Infer(call@), r);
        proof {
            one_more_call(self@.dealt, exchange);
        }
        let ghost served = self@;
        self.deal(Ghost(exchange));
        assert(served =~= WorldView { dealt: old(self)@.dealt, ..self@ });
        r
    }

    fn memory_read(&mut self, call: &Invocation) -> (r: Result<Value, EnvError>)
        ensures
            final(self)@ == old(self)@.hear(call@).deal(
                call_exchange(RequestView::Read(call@), r),
            ),
            reply_view(r) == Ok::<ValueView, EnvErrorView>(old(self)@.recalled(call@.target)),
    {
        proof {
            value_view(Value::Null);
        }
        self.hear(call);
        let r = match self.memory.get(call.target.as_str()) {
            Some(value) => Ok(value.clone()),
            None => Ok(Value::Null),
        };
        let ghost exchange = call_exchange(RequestView::Read(call@), r);
        proof {
            one_more_call(self@.dealt, exchange);
        }
        self.deal(Ghost(exchange));
        r
    }

    fn memory_write(&mut self, call: &Invocation) -> (r: Result<Value, EnvError>)
        ensures
            final(self)@ == old(self)@.write(call@).hear(call@).remember(call@).deal(
                call_exchange(RequestView::Write(call@), r),
            ),
            reply_view(r) == (if old(self)@.write(call@).crashes() {
                Err::<ValueView, EnvErrorView>(
                    EnvErrorView::Crashed(crash_text(one_more(old(self)@.writes))),
                )
            } else {
                Ok::<ValueView, EnvErrorView>(ValueView::Null)
            }),
    {
        proof {
            value_view(Value::Null);
        }
        self.write(call);
        self.hear(call);
        self.remember(call);
        let r = if self.crashes() {
            Err(self.crash())
        } else {
            Ok(Value::Null)
        };
        let ghost exchange = call_exchange(RequestView::Write(call@), r);
        proof {
            one_more_call(self@.dealt, exchange);
        }
        self.deal(Ghost(exchange));
        r
    }

    fn memory_search(&mut self, call: &Invocation) -> (r: Result<Value, EnvError>)
        ensures
            final(self)@ == old(self)@.hear(call@).deal(
                call_exchange(RequestView::Search(call@), r),
            ),
            reply_view(r) == Ok::<ValueView, EnvErrorView>(
                ValueView::List(old(self)@.everything()),
            ),
    {
        self.hear(call);
        let mut values: Vec<Value> = Vec::new();
        let mut i: usize = 0;
        while i < self.memory.len()
            invariant
                i <= self.memory@.len(),
                values@.len() == i,
                forall|j: int| 0 <= j < i ==> (#[trigger] values@[j])@ == self.memory@[j].1,
            decreases self.memory@.len() - i,
        {
            values.push(self.memory.value_at(i).clone());
            i += 1;
        }
        assert(value_views(values@) =~= old(self)@.everything());
        let r = Ok(Value::list(values));
        let ghost exchange = call_exchange(RequestView::Search(call@), r);
        proof {
            one_more_call(self@.dealt, exchange);
        }
        self.deal(Ghost(exchange));
        r
    }
}

/// Memory reads back what was written to it, also when the crash swallowed the
/// acknowledgement of the write.
pub proof fn memory_reads_back_writes(
    world: WorldView,
    write: InvocationView,
    read: InvocationView,
)
    requires
        read.target == write.target,
    ensures
        world.write(write).hear(write).remember(write).recalled(read.target)
            == write.arg_or_null(0),
{
    insert_then_lookup(world.memory, write.target, write.arg_or_null(0));
}

/// A write that was applied is known by its key, whether or not its
/// acknowledgement was lost.
pub proof fn an_applied_write_is_known(
    world: WorldView,
    call: InvocationView,
    reply: Result<ValueView, EnvErrorView>,
)
    requires
        call.effect.is_write(),
        call.idempotency_key is Some,
    ensures
        lookup(world.taken(call).completed, call.idempotency_key->0) == Some(ValueView::Null),
        lookup(world.taken(call).answered(call, reply).completed, call.idempotency_key->0)
            is Some,
{
    let key = call.idempotency_key->0;
    insert_then_lookup(world.completed, key, ValueView::Null);
    match reply {
        Ok(value) => {
            insert_then_lookup(world.taken(call).completed, key, value);
        },
        Err(_) => {},
    }
}

} // verus!
