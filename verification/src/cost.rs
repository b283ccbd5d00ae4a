//! The cost model and budgets.
//!
//! A cost counts tokens, calls and milliseconds. Costs add up when they run one
//! after the other; when they run side by side the latency is the longer one.
//! Every sum stops at the largest count there is.

use vstd::prelude::*;
use vstd::string::*;

use crate::module::{Operation, OperationView};
use crate::text::{nat_text, push_nat};

verus! {

/// What one execution is expected, or observed, to consume.
#[derive(Clone, Copy, Debug, PartialEq, Eq, Structural)]
pub struct Cost {
    /// Tokens sent to a model.
    pub input_tokens: u64,
    /// Tokens produced by a model.
    pub output_tokens: u64,
    /// How many times a model was asked.
    pub llm_calls: u64,
    /// How many times a tool was invoked.
    pub tool_calls: u64,
    /// Wall-clock milliseconds.
    pub latency_ms: u64,
}

/// A count, stopped at the largest one there is.
pub open spec fn stopped(n: int) -> u64 {
    if n > u64::MAX {
        u64::MAX
    } else {
        n as u64
    }
}

fn sum(a: u64, b: u64) -> (r: u64)
    ensures
        r == stopped(a + b),
{
    match a.checked_add(b) {
        Some(s) => s,
        None => u64::MAX,
    }
}

fn product(a: u64, b: u64) -> (r: u64)
    ensures
        r == stopped(a * b),
{
    match a.checked_mul(b) {
        Some(p) => p,
        None => u64::MAX,
    }
}

impl Cost {
    /// The zero cost.
    pub open spec fn nothing() -> Cost {
        Cost { input_tokens: 0, output_tokens: 0, llm_calls: 0, tool_calls: 0, latency_ms: 0 }
    }

    /// Two costs one after the other: everything adds up.
    pub open spec fn after(self, next: Cost) -> Cost {
        Cost {
            input_tokens: stopped(self.input_tokens + next.input_tokens),
            output_tokens: stopped(self.output_tokens + next.output_tokens),
            llm_calls: stopped(self.llm_calls + next.llm_calls),
            tool_calls: stopped(self.tool_calls + next.tool_calls),
            latency_ms: stopped(self.latency_ms + next.latency_ms),
        }
    }

    /// Two costs at the same time: the latency is the longer of the two,
    /// everything else still adds up.
    pub open spec fn beside(self, other: Cost) -> Cost {
        Cost {
            latency_ms: if self.latency_ms >= other.latency_ms {
                self.latency_ms
            } else {
                other.latency_ms
            },
            ..self.after(other)
        }
    }

    /// A cost that many times over; not at all for a count that is not
    /// positive.
    pub open spec fn times(self, count: int) -> Cost {
        let n = if count < 0 {
            0
        } else {
            count
        };
        Cost {
            input_tokens: stopped(self.input_tokens * n),
            output_tokens: stopped(self.output_tokens * n),
            llm_calls: stopped(self.llm_calls * n),
            tool_calls: stopped(self.tool_calls * n),
            latency_ms: stopped(self.latency_ms * n),
        }
    }

    /// The total tokens, input and output.
    pub open spec fn tokens(self) -> u64 {
        stopped(self.input_tokens + self.output_tokens)
    }

    /// The printed form of the cost.
    pub open spec fn text(self) -> Seq<char> {
        nat_text(self.tokens() as nat) + " tokens ("@ + nat_text(self.input_tokens as nat)
            + " in / "@ + nat_text(self.output_tokens as nat) + " out), "@ + nat_text(
            self.llm_calls as nat,
        ) + " llm call(s), "@ + nat_text(self.tool_calls as nat) + " tool call(s), "@ + nat_text(
            self.latency_ms as nat,
        ) + " ms"@
    }

    /// The zero cost.
    pub fn zero() -> (r: Cost)
        ensures
            r == Cost::nothing(),
    {
        Cost { input_tokens: 0, output_tokens: 0, llm_calls: 0, tool_calls: 0, latency_ms: 0 }
    }

    /// One tool invocation taking `latency_ms`.
    pub fn tool_call(latency_ms: u64) -> (r: Cost)
        ensures
            r == (Cost { tool_calls: 1, latency_ms, ..Cost::nothing() }),
    {
        Cost { tool_calls: 1, latency_ms, ..Cost::zero() }
    }

    /// One model call.
    pub fn llm_call(input_tokens: u64, output_tokens: u64, latency_ms: u64) -> (r: Cost)
        ensures
            r == (Cost {
                input_tokens,
                output_tokens,
                llm_calls: 1,
                latency_ms,
                ..Cost::nothing()
            }),
    {
        Cost { input_tokens, output_tokens, llm_calls: 1, latency_ms, ..Cost::zero() }
    }

    /// The total tokens, input and output.
    pub fn total_tokens(&self) -> (r: u64)
        ensures
            r == self.tokens(),
    {
        sum(self.input_tokens, self.output_tokens)
    }

    /// Combines two costs that run one after the other: latency adds up.
    pub fn followed_by(self, next: Cost) -> (r: Cost)
        ensures
            r == self.after(next),
    {
        Cost {
            input_tokens: sum(self.input_tokens, next.input_tokens),
            output_tokens: sum(self.output_tokens, next.output_tokens),
            llm_calls: sum(self.llm_calls, next.llm_calls),
            tool_calls: sum(self.tool_calls, next.tool_calls),
            latency_ms: sum(self.latency_ms, next.latency_ms),
        }
    }

    /// Combines two costs that run at the same time: latency is the longer of
    /// the two, everything else still adds up.
    ///
    /// This is the whole benefit parallelization claims, stated precisely
    /// enough to be measured rather than asserted.
    pub fn alongside(self, other: Cost) -> (r: Cost)
        ensures
            r == self.beside(other),
    {
        let latency_ms: u64 = if self.latency_ms >= other.latency_ms {
            self.latency_ms
        } else {
            other.latency_ms
        };
        Cost { latency_ms, ..self.followed_by(other) }
    }

    /// The cost that many times over.
    pub fn repeated(self, count: i64) -> (r: Cost)
        ensures
            r == self.times(count as int),
    {
        let n: u64 = if count < 0 {
            0
        } else {
            count as u64
        };
        Cost {
            input_tokens: product(self.input_tokens, n),
            output_tokens: product(self.output_tokens, n),
            llm_calls: product(self.llm_calls, n),
            tool_calls: product(self.tool_calls, n),
            latency_ms: product(self.latency_ms, n),
        }
    }

    /// The printed form of the cost.
    pub fn to_string(&self) -> (r: String)
        ensures
            r@ == self.text(),
    {
        let mut out = String::new();
        push_nat(&mut out, self.total_tokens());
        assert(out@ =~= nat_text(self.tokens() as nat));
        out.append(" tokens (");
        push_nat(&mut out, self.input_tokens);
        out.append(" in / ");
        push_nat(&mut out, self.output_tokens);
        out.append(" out), ");
        push_nat(&mut out, self.llm_calls);
        out.append(" llm call(s), ");
        push_nat(&mut out, self.tool_calls);
        out.append(" tool call(s), ");
        push_nat(&mut out, self.latency_ms);
        out.append(" ms");
        out
    }
}

impl Default for Cost {
    fn default() -> (r: Cost)
        ensures
            r == Cost::nothing(),
    {
        Cost::zero()
    }
}

/// The constraints an `agent.budget` operation declares.
#[derive(Clone, Copy, Debug, PartialEq, Eq, Structural)]
pub struct Budget {
    /// Maximum tokens, input plus output.
    pub token_budget: Option<u64>,
    /// Maximum wall-clock milliseconds.
    pub latency_budget_ms: Option<u64>,
    /// Maximum number of model calls.
    pub llm_call_budget: Option<u64>,
    /// Maximum number of tool calls.
    pub tool_call_budget: Option<u64>,
}

/// Why a cost does not fit a budget.
#[derive(Clone, Copy, Debug, PartialEq, Eq, Structural)]
pub enum Overrun {
    /// Too many tokens.
    Tokens,
    /// Too slow.
    Latency,
    /// Too many model calls.
    LlmCalls,
    /// Too many tool calls.
    ToolCalls,
}

impl Overrun {
    /// The printed form of the constraint.
    pub open spec fn text(self) -> Seq<char> {
        match self {
            Overrun::Tokens => "token budget"@,
            Overrun::Latency => "latency budget"@,
            Overrun::LlmCalls => "model call budget"@,
            Overrun::ToolCalls => "tool call budget"@,
        }
    }

    /// The printed form of the constraint.
    pub fn as_words(self) -> (r: &'static str)
        ensures
            r@ == self.text(),
    {
        match self {
            Overrun::Tokens => "token budget",
            Overrun::Latency => "latency budget",
            Overrun::LlmCalls => "model call budget",
            Overrun::ToolCalls => "tool call budget",
        }
    }

    /// The printed form of the constraint.
    pub fn to_string(&self) -> (r: String)
        ensures
            r@ == self.text(),
    {
        String::from_str(self.as_words())
    }
}

/// Whether a count is over a limit; nothing is over no limit.
pub open spec fn over(limit: Option<u64>, count: u64) -> bool {
    limit matches Some(n) && count > n
}

fn is_over(limit: Option<u64>, count: u64) -> (r: bool)
    ensures
        r == over(limit, count),
{
    match limit {
        Some(n) => count > n,
        None => false,
    }
}

/// A non-negative integer attribute.
pub open spec fn count_attr(o: OperationView, key: Seq<char>) -> Option<u64> {
    match o.int_attr(key) {
        Some(v) => if v >= 0 {
            Some(v as u64)
        } else {
            None
        },
        None => None,
    }
}

/// Reads a non-negative integer attribute.
pub fn read_count(op: &Operation, key: &str) -> (r: Option<u64>)
    ensures
        r == count_attr(op@, key@),
{
    match op.int_attr(key) {
        Some(v) => if v >= 0 {
            Some(v as u64)
        } else {
            None
        },
        None => None,
    }
}

impl Budget {
    /// No constraints at all.
    pub open spec fn open() -> Budget {
        Budget {
            token_budget: None,
            latency_budget_ms: None,
            llm_call_budget: None,
            tool_call_budget: None,
        }
    }

    /// The first constraint a cost breaks, if any.
    pub open spec fn first_overrun(self, cost: Cost) -> Option<Overrun> {
        if over(self.token_budget, cost.tokens()) {
            Some(Overrun::Tokens)
        } else if over(self.latency_budget_ms, cost.latency_ms) {
            Some(Overrun::Latency)
        } else if over(self.llm_call_budget, cost.llm_calls) {
            Some(Overrun::LlmCalls)
        } else if over(self.tool_call_budget, cost.tool_calls) {
            Some(Overrun::ToolCalls)
        } else {
            None
        }
    }

    /// The budget the attributes of an operation declare.
    pub open spec fn declared(o: OperationView) -> Budget {
        Budget {
            token_budget: count_attr(o, "token_budget"@),
            latency_budget_ms: count_attr(o, "latency_budget_ms"@),
            llm_call_budget: count_attr(o, "llm_call_budget"@),
            tool_call_budget: count_attr(o, "tool_call_budget"@),
        }
    }

    /// No constraints at all.
    pub fn unlimited() -> (r: Budget)
        ensures
            r == Budget::open(),
    {
        Budget {
            token_budget: None,
            latency_budget_ms: None,
            llm_call_budget: None,
            tool_call_budget: None,
        }
    }

    /// Whether the budget constrains nothing.
    pub fn is_unlimited(&self) -> (r: bool)
        ensures
            r == (*self == Budget::open()),
    {
        self.token_budget.is_none() && self.latency_budget_ms.is_none()
            && self.llm_call_budget.is_none() && self.tool_call_budget.is_none()
    }

    /// The first constraint `cost` breaks, if any.
    pub fn overrun(&self, cost: &Cost) -> (r: Option<Overrun>)
        ensures
            r == self.first_overrun(*cost),
    {
        if is_over(self.token_budget, cost.total_tokens()) {
            return Some(Overrun::Tokens);
        }
        if is_over(self.latency_budget_ms, cost.latency_ms) {
            return Some(Overrun::Latency);
        }
        if is_over(self.llm_call_budget, cost.llm_calls) {
            return Some(Overrun::LlmCalls);
        }
        if is_over(self.tool_call_budget, cost.tool_calls) {
            return Some(Overrun::ToolCalls);
        }
        None
    }

    /// Whether the cost fits.
    pub fn admits(&self, cost: &Cost) -> (r: bool)
        ensures
            r == (self.first_overrun(*cost) is None),
    {
        self.overrun(cost).is_none()
    }

    /// Reads a budget out of an `agent.budget` operation's attributes.
    pub fn from_attributes(op: &Operation) -> (r: Budget)
        ensures
            r == Budget::declared(op@),
    {
        Budget {
            token_budget: read_count(op, "token_budget"),
            latency_budget_ms: read_count(op, "latency_budget_ms"),
            llm_call_budget: read_count(op, "llm_call_budget"),
            tool_call_budget: read_count(op, "tool_call_budget"),
        }
    }
}

impl Default for Budget {
    fn default() -> (r: Budget)
        ensures
            r == Budget::open(),
    {
        Budget::unlimited()
    }
}

// -------------------------------------------------------------------- laws

/// Running two things side by side is never slower than running them in
/// sequence, and costs the same otherwise.
pub proof fn running_alongside_never_costs_more(a: Cost, b: Cost)
    ensures
        a.beside(b).latency_ms <= a.after(b).latency_ms,
        a.beside(b).input_tokens == a.after(b).input_tokens,
        a.beside(b).output_tokens == a.after(b).output_tokens,
        a.beside(b).llm_calls == a.after(b).llm_calls,
        a.beside(b).tool_calls == a.after(b).tool_calls,
{
}

/// Neither combination depends on the order of its parts.
pub proof fn combining_costs_is_symmetric(a: Cost, b: Cost)
    ensures
        a.beside(b) == b.beside(a),
        a.after(b) == b.after(a),
{
}

/// Neither combination depends on how its parts are grouped.
pub proof fn combining_costs_is_associative(a: Cost, b: Cost, c: Cost)
    ensures
        a.after(b).after(c) == a.after(b.after(c)),
        a.beside(b).beside(c) == a.beside(b.beside(c)),
{
}

/// Nothing is the unit of both combinations.
pub proof fn nothing_adds_nothing(a: Cost)
    ensures
        a.after(Cost::nothing()) == a,
        a.beside(Cost::nothing()) == a,
{
}

/// No constraint, no overrun: an unlimited budget admits every cost.
pub proof fn an_unlimited_budget_admits_everything(cost: Cost)
    ensures
        Budget::open().first_overrun(cost) is None,
{
}

/// A cost fits exactly when it breaks none of the constraints.
pub proof fn admitted_costs_fit_every_constraint(budget: Budget, cost: Cost)
    ensures
        budget.first_overrun(cost) is None <==> {
            &&& !over(budget.token_budget, cost.tokens())
            &&& !over(budget.latency_budget_ms, cost.latency_ms)
            &&& !over(budget.llm_call_budget, cost.llm_calls)
            &&& !over(budget.tool_call_budget, cost.tool_calls)
        },
{
}

} // verus!
