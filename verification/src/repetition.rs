//! When an agent is stuck.
//!
//! The loop guard counts how often an action is repeated. An action is a target
//! and the arguments it is called with, so calls that differ in any of them are
//! counted apart, and only a call that really is the same one again can trip the
//! guard.

use vstd::prelude::*;

use crate::assoc::{keys, sorted};
use crate::durability::extends;
use crate::env::{InvocationView, ReplyView, RequestView};
use crate::execution::{
    batch_run, batches_run, body_stops, effective_key, external_run, function_run, is_control,
    items_of, loop_run, perform, plan_run, prints, region_done, request_of, simple_run, started,
    step_run, target_name, while_ends, while_run, FlowView, Ran, RunView, RuntimeErrorView,
};
use crate::ids::ValueId;
use crate::plan::{Builtin, ControlView, ExecutionPlanView, PlanView, StepView, TargetView};
use crate::relex::decimals;
use crate::state::{one_more, repeat_counting_is_separate, seen};
use crate::text::{int_text, nat_text};
use crate::value::{list_print, record_print, ValueView};

verus! {

// ---------------------------------------------------------------- renderings

/// How many brackets a text leaves open.
pub open spec fn open_brackets(s: Seq<char>) -> int
    decreases s.len(),
{
    if s.len() == 0 {
        0
    } else {
        open_brackets(s.drop_last()) + if s.last() == '[' || s.last() == '{' {
            1int
        } else if s.last() == ']' || s.last() == '}' {
            -1int
        } else {
            0int
        }
    }
}

/// Whether a text closes every bracket it opens, and no other.
pub open spec fn balanced(s: Seq<char>) -> bool {
    &&& open_brackets(s) == 0
    &&& forall|k: int| 0 <= k <= s.len() ==> open_brackets(#[trigger] s.take(k)) >= 0
}

/// Whether a text can stand in a list: its brackets are balanced, and it holds
/// no comma outside them.
pub open spec fn stands_apart(s: Seq<char>) -> bool {
    &&& balanced(s)
    &&& forall|k: int| 0 <= k < s.len() && #[trigger] s[k] == ',' ==> open_brackets(s.take(k)) > 0
}

/// Whether a text holds neither brackets nor commas.
pub open spec fn is_flat(s: Seq<char>) -> bool {
    forall|k: int|
        0 <= k < s.len() ==> #[trigger] s[k] != ',' && s[k] != '[' && s[k] != ']' && s[k] != '{'
            && s[k] != '}'
}

/// Whether the strings and field names in a value hold neither brackets nor
/// commas.
pub open spec fn is_plain(v: ValueView) -> bool
    decreases v,
{
    match v {
        ValueView::Str(s) => is_flat(s),
        ValueView::List(items) => forall|i: int|
            0 <= i < items.len() ==> is_plain(#[trigger] items[i]),
        ValueView::Record(entries) => forall|i: int|
            0 <= i < entries.len() ==> is_flat((#[trigger] entries[i]).0) && is_plain(
                entries[i].1,
            ),
        _ => true,
    }
}

proof fn brackets_add_up(a: Seq<char>, b: Seq<char>)
    ensures
        open_brackets(a + b) == open_brackets(a) + open_brackets(b),
    decreases b.len(),
{
    if b.len() == 0 {
        assert(a + b =~= a);
    } else {
        brackets_add_up(a, b.drop_last());
        assert((a + b).drop_last() =~= a + b.drop_last());
        assert((a + b).last() == b.last());
    }
}

proof fn flat_opens_nothing(s: Seq<char>)
    requires
        is_flat(s),
    ensures
        open_brackets(s) == 0,
    decreases s.len(),
{
    if s.len() > 0 {
        assert(s[s.len() - 1] == s.last());
        assert forall|k: int| 0 <= k < s.drop_last().len() implies #[trigger] s.drop_last()[k]
            != ',' && s.drop_last()[k] != '[' && s.drop_last()[k] != ']' && s.drop_last()[k] != '{'
            && s.drop_last()[k] != '}' by {
            assert(s[k] == s.drop_last()[k]);
        }
        flat_opens_nothing(s.drop_last());
    }
}

proof fn flat_stands_apart(s: Seq<char>)
    requires
        is_flat(s),
    ensures
        stands_apart(s),
{
    flat_opens_nothing(s);
    assert forall|k: int| 0 <= k <= s.len() implies open_brackets(#[trigger] s.take(k)) >= 0 by {
        let t = s.take(k);
        assert forall|i: int| 0 <= i < t.len() implies #[trigger] t[i] != ',' && t[i] != '['
            && t[i] != ']' && t[i] != '{' && t[i] != '}' by {
            assert(t[i] == s[i]);
        }
        flat_opens_nothing(t);
    }
}

proof fn balanced_parts(a: Seq<char>, b: Seq<char>)
    requires
        balanced(a),
        balanced(b),
    ensures
        balanced(a + b),
{
    brackets_add_up(a, b);
    assert forall|k: int| 0 <= k <= (a + b).len() implies open_brackets(
        #[trigger] (a + b).take(k),
    ) >= 0 by {
        if k <= a.len() {
            assert((a + b).take(k) =~= a.take(k));
        } else {
            assert((a + b).take(k) =~= a + b.take(k - a.len()));
            brackets_add_up(a, b.take(k - a.len()));
        }
    }
}

/// A comma alone is balanced.
proof fn comma_is_balanced()
    ensures
        balanced(","@),
        ","@ == seq![','],
        balanced(Seq::<char>::empty()),
{
    reveal_strlit(",");
    let c = ","@;
    assert(c =~= seq![',']);
    assert(c.drop_last() =~= Seq::empty());
    assert(open_brackets(c.drop_last()) == 0);
    assert forall|k: int| 0 <= k <= c.len() implies open_brackets(#[trigger] c.take(k)) >= 0 by {
        if k == 0 {
            assert(c.take(0) =~= Seq::empty());
        } else {
            assert(c.take(1) =~= c);
        }
    }
    assert forall|k: int| 0 <= k <= Seq::<char>::empty().len() implies open_brackets(
        #[trigger] Seq::<char>::empty().take(k),
    ) >= 0 by {
        assert(Seq::<char>::empty().take(k) =~= Seq::empty());
    }
}

/// Brackets around a balanced text.
proof fn bracketed_stands_apart(left: char, inner: Seq<char>, right: char)
    requires
        balanced(inner),
        left == '[' || left == '{',
        right == ']' || right == '}',
    ensures
        stands_apart(seq![left] + inner + seq![right]),
{
    let l = seq![left];
    let r = seq![right];
    let s = l + inner + r;
    assert(l.drop_last() =~= Seq::empty());
    assert(r.drop_last() =~= Seq::empty());
    assert(open_brackets(Seq::<char>::empty()) == 0);
    assert(open_brackets(l) == 1);
    assert(open_brackets(r) == -1);
    brackets_add_up(l + inner, r);
    brackets_add_up(l, inner);
    assert forall|k: int| 0 < k <= inner.len() + 1 implies open_brackets(#[trigger] s.take(k))
        > 0 by {
        assert(s.take(k) =~= l + inner.take(k - 1));
        brackets_add_up(l, inner.take(k - 1));
    }
    assert(s.take(0) =~= Seq::empty());
    assert(s.take(s.len() as int) =~= s);
    assert forall|k: int| 0 <= k <= s.len() implies open_brackets(#[trigger] s.take(k)) >= 0 by {}
    assert forall|k: int| 0 <= k < s.len() && #[trigger] s[k] == ',' implies open_brackets(
        s.take(k),
    ) > 0 by {
        assert(s[0] == left);
        assert(s[s.len() - 1] == right);
    }
}

proof fn digits_are_flat(n: nat)
    ensures
        is_flat(nat_text(n)),
{
    decimals(n);
    assert forall|k: int| 0 <= k < nat_text(n).len() implies #[trigger] nat_text(n)[k] != ','
        && nat_text(n)[k] != '[' && nat_text(n)[k] != ']' && nat_text(n)[k] != '{' && nat_text(
        n,
    )[k] != '}' by {
        assert(crate::lexer::is_digit(nat_text(n)[k]));
    }
}

/// The rendering of a plain value stands apart, and is not empty.
pub proof fn plain_values_stand_apart(v: ValueView)
    requires
        is_plain(v),
    ensures
        stands_apart(v.print()),
        v.print().len() > 0,
    decreases v, 0int, 0int,
{
    reveal_strlit("null");
    reveal_strlit("i");
    reveal_strlit("f");
    reveal_strlit("b");
    reveal_strlit("s");
    reveal_strlit("[");
    reveal_strlit("]");
    reveal_strlit("{");
    reveal_strlit("}");
    reveal_strlit("true");
    reveal_strlit("false");
    match v {
        ValueView::List(items) => {
            assert(decreases_to!(v => items));
            items_are_balanced(items, 0);
            assert("["@ =~= seq!['[']);
            assert("]"@ =~= seq![']']);
            bracketed_stands_apart('[', list_print(items, 0), ']');
        },
        ValueView::Record(entries) => {
            assert(decreases_to!(v => entries));
            fields_are_balanced(entries, 0);
            assert("{"@ =~= seq!['{']);
            assert("}"@ =~= seq!['}']);
            bracketed_stands_apart('{', record_print(entries, 0), '}');
        },
        ValueView::Int(i) => {
            digits_are_flat(if i < 0 {
                (-(i as int)) as nat
            } else {
                i as nat
            });
            assert(is_flat(v.print()));
            flat_stands_apart(v.print());
        },
        ValueView::Float(n) => {
            crate::repetition::number_is_flat(n);
            assert(is_flat(v.print()));
            flat_stands_apart(v.print());
        },
        _ => {
            assert(is_flat(v.print()));
            flat_stands_apart(v.print());
        },
    }
}

proof fn number_is_flat(n: crate::number::Number)
    ensures
        is_flat(n.plain_text()),
{
    reveal_strlit("NaN");
    reveal_strlit("-inf");
    reveal_strlit("inf");
    if let crate::number::Number::Finite { negative, mantissa, exponent } = n {
        digits_are_flat(mantissa as nat);
        let digits = nat_text(mantissa as nat);
        let t = n.plain_text();
        if exponent < 0 && digits.len() > -exponent {
            let a = digits.take(digits.len() + exponent);
            let b = digits.skip(digits.len() + exponent);
            assert(forall|k: int| 0 <= k < a.len() ==> #[trigger] a[k] == digits[k]);
            assert(forall|k: int|
                0 <= k < b.len() ==> #[trigger] b[k] == digits[digits.len() + exponent + k]);
            assert(is_flat(a));
            assert(is_flat(b));
        }
        assert(is_flat(t));
    }
}

proof fn items_are_balanced(items: Seq<ValueView>, i: int)
    requires
        0 <= i,
        forall|k: int| 0 <= k < items.len() ==> is_plain(#[trigger] items[k]),
    ensures
        balanced(list_print(items, i)),
    decreases items, 0int, items.len() - i,
{
    comma_is_balanced();
    if i < items.len() {
        assert(decreases_to!(items => items[i]));
        assert(is_plain(items[i]));
        plain_values_stand_apart(items[i]);
        items_are_balanced(items, i + 1);
        let lead = if i > 0 {
            ","@
        } else {
            Seq::empty()
        };
        balanced_parts(lead, items[i].print());
        balanced_parts(lead + items[i].print(), list_print(items, i + 1));
    }
}

proof fn fields_are_balanced(entries: Seq<(Seq<char>, ValueView)>, i: int)
    requires
        0 <= i,
        forall|k: int|
            0 <= k < entries.len() ==> is_flat((#[trigger] entries[k]).0) && is_plain(
                entries[k].1,
            ),
    ensures
        balanced(record_print(entries, i)),
    decreases entries, 0int, entries.len() - i,
{
    comma_is_balanced();
    reveal_strlit("=");
    if i < entries.len() {
        assert(decreases_to!(entries => entries[i]));
        assert(decreases_to!(entries[i] => entries[i].1));
        assert(is_flat(entries[i].0));
        plain_values_stand_apart(entries[i].1);
        fields_are_balanced(entries, i + 1);
        flat_stands_apart(entries[i].0);
        assert(is_flat("="@));
        flat_stands_apart("="@);
        let lead = if i > 0 {
            ","@
        } else {
            Seq::empty()
        };
        balanced_parts(lead, entries[i].0);
        balanced_parts(lead + entries[i].0, "="@);
        balanced_parts(lead + entries[i].0 + "="@, entries[i].1.print());
        balanced_parts(
            lead + entries[i].0 + "="@ + entries[i].1.print(),
            record_print(entries, i + 1),
        );
    }
}

// ----------------------------------------------------------------- signatures

/// Two texts that stand apart, each followed by nothing or by a comma.
proof fn first_is_told_apart(x: Seq<char>, more_x: Seq<char>, y: Seq<char>, more_y: Seq<char>)
    requires
        stands_apart(x),
        stands_apart(y),
        more_x.len() > 0 ==> more_x[0] == ',',
        more_y.len() > 0 ==> more_y[0] == ',',
        x + more_x == y + more_y,
    ensures
        x == y,
        more_x == more_y,
{
    let t = x + more_x;
    if x.len() < y.len() {
        assert(t[x.len() as int] == y[x.len() as int]);
        assert(t[x.len() as int] == more_x[0]);
        assert(t.take(x.len() as int) =~= x);
        assert((y + more_y).take(x.len() as int) =~= y.take(x.len() as int));
    } else if y.len() < x.len() {
        assert((y + more_y)[y.len() as int] == x[y.len() as int]);
        assert((y + more_y)[y.len() as int] == more_y[0]);
        assert(t.take(y.len() as int) =~= x.take(y.len() as int));
        assert((y + more_y).take(y.len() as int) =~= y);
    }
    assert(x =~= t.take(x.len() as int));
    assert(y =~= t.take(x.len() as int));
    assert(more_x =~= t.skip(x.len() as int));
    assert(more_y =~= t.skip(x.len() as int));
}

/// Whether the rendering of every one of some values stands apart.
pub open spec fn all_stand_apart(values: Seq<ValueView>) -> bool {
    forall|i: int|
        0 <= i < values.len() ==> stands_apart((#[trigger] values[i]).print()) && values[i].print().len()
            > 0
}

/// Whether two lists of values are rendered alike: as many, and each the same.
pub open spec fn rendered_alike(a: Seq<ValueView>, b: Seq<ValueView>) -> bool {
    &&& a.len() == b.len()
    &&& forall|i: int| 0 <= i < a.len() ==> (#[trigger] a[i]).print() == b[i].print()
}

proof fn joined_start(values: Seq<ValueView>, i: int)
    requires
        0 < i,
    ensures
        prints(values, i).len() > 0 ==> prints(values, i)[0] == ',',
{
    comma_is_balanced();
    if i < values.len() {
        assert(prints(values, i)[0] == ','@);
    }
}

proof fn joined_tell_apart(a: Seq<ValueView>, b: Seq<ValueView>, i: int)
    requires
        0 <= i <= a.len(),
        i <= b.len(),
        all_stand_apart(a),
        all_stand_apart(b),
        prints(a, i) == prints(b, i),
    ensures
        a.len() == b.len(),
        forall|k: int| i <= k < a.len() ==> (#[trigger] a[k]).print() == b[k].print(),
    decreases a.len() - i,
{
    comma_is_balanced();
    if i < a.len() && i < b.len() {
        let lead = if i > 0 {
            ","@
        } else {
            Seq::empty()
        };
        let x = a[i].print();
        let y = b[i].print();
        let mx = prints(a, i + 1);
        let my = prints(b, i + 1);
        assert(prints(a, i) == lead + x + mx);
        assert(prints(b, i) == lead + y + my);
        assert(x + mx =~= prints(a, i).skip(lead.len() as int));
        assert(y + my =~= prints(b, i).skip(lead.len() as int));
        joined_start(a, i + 1);
        joined_start(b, i + 1);
        first_is_told_apart(x, mx, y, my);
        joined_tell_apart(a, b, i + 1);
    } else if i < a.len() {
        assert(a[i].print().len() > 0);
        assert(prints(a, i).len() > 0);
    } else if i < b.len() {
        assert(b[i].print().len() > 0);
        assert(prints(b, i).len() > 0);
    }
}

proof fn alike_join_alike(a: Seq<ValueView>, b: Seq<ValueView>, i: int)
    requires
        rendered_alike(a, b),
        0 <= i,
    ensures
        prints(a, i) == prints(b, i),
    decreases a.len() - i,
{
    if i < a.len() {
        alike_join_alike(a, b, i + 1);
        assert(a[i].print() == b[i].print());
    }
}

/// The loop guard tells actions apart by their arguments: two calls of the same
/// target have the same signature exactly where they have as many arguments and
/// each is rendered the same.
pub proof fn signatures_tell_arguments_apart(a: RunView, s: StepView, b: RunView, t: StepView)
    requires
        target_name(s.target) == target_name(t.target),
        all_stand_apart(a.invocation(s).args),
        all_stand_apart(b.invocation(t).args),
    ensures
        a.signature(s) == b.signature(t) <==> rendered_alike(
            a.invocation(s).args,
            b.invocation(t).args,
        ),
{
    let x = a.invocation(s).args;
    let y = b.invocation(t).args;
    let lead = target_name(s.target) + "|"@;
    if a.signature(s) == b.signature(t) {
        assert(prints(x, 0) =~= a.signature(s).skip(lead.len() as int));
        assert(prints(y, 0) =~= b.signature(t).skip(lead.len() as int));
        joined_tell_apart(x, y, 0);
    }
    if rendered_alike(x, y) {
        alike_join_alike(x, y, 0);
    }
}

proof fn one_change_shows(a: Seq<ValueView>, b: Seq<ValueView>, i: int, at: int)
    requires
        a.len() == b.len(),
        0 <= i <= at < a.len(),
        forall|k: int| 0 <= k < a.len() && k != at ==> (#[trigger] a[k]).print() == b[k].print(),
        a[at].print() != b[at].print(),
    ensures
        prints(a, i) != prints(b, i),
    decreases at - i,
{
    let lead = if i > 0 {
        ","@
    } else {
        Seq::empty()
    };
    let x = lead + a[i].print();
    let y = lead + b[i].print();
    let mx = prints(a, i + 1);
    let my = prints(b, i + 1);
    if i < at {
        one_change_shows(a, b, i + 1, at);
        assert(a[i].print() == b[i].print());
        if x + mx == y + my {
            assert(mx =~= (x + mx).skip(x.len() as int));
            assert(my =~= (y + my).skip(y.len() as int));
        }
    } else {
        rest_is_alike(a, b, i + 1);
        if x + mx == y + my {
            let n = (x + mx).len() - mx.len();
            assert(x =~= (x + mx).take(n));
            assert(y =~= (y + my).take(n));
            assert(a[i].print() =~= x.skip(lead.len() as int));
            assert(b[i].print() =~= y.skip(lead.len() as int));
        }
    }
}

proof fn rest_is_alike(a: Seq<ValueView>, b: Seq<ValueView>, i: int)
    requires
        a.len() == b.len(),
        0 <= i,
        forall|k: int| i <= k < a.len() ==> (#[trigger] a[k]).print() == b[k].print(),
    ensures
        prints(a, i) == prints(b, i),
    decreases a.len() - i,
{
    if i < a.len() {
        rest_is_alike(a, b, i + 1);
        assert(a[i].print() == b[i].print());
    }
}

/// Every argument counts, whatever it holds: where two calls of the same target
/// differ in the rendering of one argument, their signatures differ.
pub proof fn every_argument_counts(a: RunView, s: StepView, b: RunView, t: StepView, at: int)
    requires
        target_name(s.target) == target_name(t.target),
        a.invocation(s).args.len() == b.invocation(t).args.len(),
        0 <= at < a.invocation(s).args.len(),
        forall|k: int|
            0 <= k < a.invocation(s).args.len() && k != at ==> (
            #[trigger] a.invocation(s).args[k]).print() == b.invocation(t).args[k].print(),
        a.invocation(s).args[at].print() != b.invocation(t).args[at].print(),
    ensures
        a.signature(s) != b.signature(t),
{
    let lead = target_name(s.target) + "|"@;
    let x = a.invocation(s).args;
    let y = b.invocation(t).args;
    one_change_shows(x, y, 0, at);
    if a.signature(s) == b.signature(t) {
        assert(prints(x, 0) =~= a.signature(s).skip(lead.len() as int));
        assert(prints(y, 0) =~= b.signature(t).skip(lead.len() as int));
    }
}

/// Counting one action leaves the count of every other one as it was.
pub proof fn actions_are_counted_apart(a: RunView, s: StepView, b: RunView, t: StepView)
    requires
        sorted(keys(a.state.repeats)),
        target_name(s.target) == target_name(t.target),
        all_stand_apart(a.invocation(s).args),
        all_stand_apart(b.invocation(t).args),
        !rendered_alike(a.invocation(s).args, b.invocation(t).args),
    ensures
        seen(a.counted(s).state.repeats, b.signature(t)) == seen(
            a.state.repeats,
            b.signature(t),
        ),
        a.counted(s).repeats(s) == one_more(a.repeats(s)),
{
    signatures_tell_arguments_apart(a, s, b, t);
    repeat_counting_is_separate(a.state.repeats, a.signature(s), b.signature(t));
    assert(a.counted(s).signature(s) == a.signature(s)) by {
        assert(a.counted(s).operands(s) =~= a.operands(s));
    }
}

/// The character that a number begins with.
proof fn digits_begin(n: nat)
    ensures
        crate::text::nat_text(n).len() > 0,
        crate::text::nat_text(n)[0] != '-',
    decreases n,
{
    crate::text::nat_text_length(n);
    if n >= 10 {
        digits_begin(n / 10);
    }
}

/// A rendering tells what kind of value it is of, and what an integer, a truth
/// value or a text is.
pub proof fn renderings_tell_values_apart(a: ValueView, b: ValueView)
    requires
        a.print() == b.print(),
    ensures
        a is Null == b is Null,
        a is Int == b is Int,
        a is Float == b is Float,
        a is Bool == b is Bool,
        a is Str == b is Str,
        a is List == b is List,
        a is Record == b is Record,
        a is Null || a is Int || a is Bool || a is Str ==> a == b,
{
    reveal_strlit("null");
    reveal_strlit("i");
    reveal_strlit("f");
    reveal_strlit("b");
    reveal_strlit("s");
    reveal_strlit("[");
    reveal_strlit("{");
    reveal_strlit("-");
    reveal_strlit("true");
    reveal_strlit("false");
    assert("null"@[0] == 'n' && "i"@[0] == 'i' && "f"@[0] == 'f' && "b"@[0] == 'b' && "s"@[0] == 's'
        && "["@[0] == '[' && "{"@[0] == '{');
    let x = a.print();
    let y = b.print();
    assert(x[0] == y[0]);
    match (a, b) {
        (ValueView::Int(i), ValueView::Int(j)) => {
            let p = crate::text::int_text(i as int);
            let q = crate::text::int_text(j as int);
            assert(x.skip(1) =~= p);
            assert(y.skip(1) =~= q);
            digits_begin(if i < 0 { (-i) as nat } else { i as nat });
            digits_begin(if j < 0 { (-j) as nat } else { j as nat });
            assert(p[0] == q[0]);
            if i < 0 {
                assert(p.skip(1) =~= crate::text::nat_text((-i) as nat));
                assert(q.skip(1) =~= crate::text::nat_text((-j) as nat));
                crate::text::nat_text_injective((-i) as nat, (-j) as nat);
            } else {
                crate::text::nat_text_injective(i as nat, j as nat);
            }
        },
        (ValueView::Bool(i), ValueView::Bool(j)) => {
            assert(x.skip(1) =~= crate::attribute::bool_text(i));
            assert(y.skip(1) =~= crate::attribute::bool_text(j));
            assert("true"@.len() == 4 && "false"@.len() == 5);
        },
        (ValueView::Str(i), ValueView::Str(j)) => {
            assert(x.skip(1) =~= i);
            assert(y.skip(1) =~= j);
        },
        _ => {},
    }
}

// --------------------------------------------------------------- whole runs

/// The signature of a call that was made.
pub open spec fn signature_of(call: InvocationView) -> Seq<char> {
    call.target + "|"@ + prints(call.args, 0)
}

/// Whether a request is a call of a signature.
pub open spec fn is_call_with(request: RequestView, signature: Seq<char>) -> bool {
    request.call() matches Some(call) && signature_of(call) == signature
}

/// How many of the requests from number `from` on are calls of a signature.
pub open spec fn calls_with(asked: Seq<RequestView>, from: int, signature: Seq<char>) -> nat
    decreases asked.len(),
{
    if asked.len() <= from || asked.len() == 0 {
        0
    } else {
        calls_with(asked.drop_last(), from, signature) + if is_call_with(asked.last(), signature) {
            1nat
        } else {
            0
        }
    }
}

/// A count, up to what a counter can hold.
pub open spec fn capped_count(n: int) -> usize {
    if n > usize::MAX {
        usize::MAX
    } else {
        n as usize
    }
}

/// The count of an action after the calls from number `from` on.
pub open spec fn count_after(before: RunView, after: RunView, signature: Seq<char>) -> usize {
    capped_count(
        seen(before.state.repeats, signature) + calls_with(
            after.asked,
            before.asked.len() as int,
            signature,
        ),
    )
}

/// Whether a run kept count of the actions: each was counted as often as it was
/// called and never called past the threshold, and the guard fired only for one
/// that would have been.
pub open spec fn keeps_count(before: RunView, ran: Ran) -> bool {
    let after = ran.0;
    sorted(keys(before.state.repeats)) ==> {
        &&& sorted(keys(after.state.repeats))
        &&& extends(after.asked, before.asked)
        &&& after.policy == before.policy
        &&& forall|signature: Seq<char>|
            calls_with(after.asked, before.asked.len() as int, signature) > 0
                ==> #[trigger] count_after(before, after, signature)
                <= before.policy.repeat_threshold
        &&& match ran.1 {
            Err(RuntimeErrorView::LoopGuard { target, repeats, .. }) => exists|call: InvocationView|
                call.target == target && repeats == one_more(
                    count_after(before, after, #[trigger] signature_of(call)),
                ) && repeats > before.policy.repeat_threshold,
            _ => forall|signature: Seq<char>| #[trigger]
                seen(after.state.repeats, signature) == count_after(before, after, signature),
        }
    }
}

/// Whether the loop guard did not fire.
spec fn is_free(flow: Result<FlowView, RuntimeErrorView>) -> bool {
    !(flow matches Err(RuntimeErrorView::LoopGuard { .. }))
}

proof fn calls_split(
    a: Seq<RequestView>,
    b: Seq<RequestView>,
    c: Seq<RequestView>,
    signature: Seq<char>,
)
    requires
        extends(b, a),
        extends(c, b),
    ensures
        calls_with(c, a.len() as int, signature) == calls_with(b, a.len() as int, signature)
            + calls_with(c, b.len() as int, signature),
    decreases c.len(),
{
    if c.len() == b.len() {
        assert(c =~= b);
        none_yet(c, c.len() as int, signature);
    } else {
        let rest = c.drop_last();
        assert(extends(rest, b)) by {
            assert forall|i: int| 0 <= i < b.len() implies #[trigger] rest[i] == b[i] by {
                assert(c[i] == b[i]);
            }
        }
        calls_split(a, b, rest, signature);
    }
}

proof fn none_yet(asked: Seq<RequestView>, from: int, signature: Seq<char>)
    requires
        asked.len() <= from,
    ensures
        calls_with(asked, from, signature) == 0,
{
}

proof fn counts_on(a: RunView, b: RunView, flow: Result<FlowView, RuntimeErrorView>, ran: Ran)
    requires
        keeps_count(a, (b, flow)),
        is_free(flow),
        keeps_count(b, ran),
    ensures
        keeps_count(a, ran),
{
    let c = ran.0;
    if sorted(keys(a.state.repeats)) {
        assert forall|signature: Seq<char>| count_after(b, c, signature) == #[trigger] count_after(
            a,
            c,
            signature,
        ) by {
            calls_split(a.asked, b.asked, c.asked, signature);
            assert(seen(b.state.repeats, signature) == count_after(a, b, signature));
        }
        assert forall|signature: Seq<char>|
            calls_with(c.asked, a.asked.len() as int, signature) > 0 implies #[trigger] count_after(
            a,
            c,
            signature,
        ) <= a.policy.repeat_threshold by {
            calls_split(a.asked, b.asked, c.asked, signature);
            assert(seen(b.state.repeats, signature) == count_after(a, b, signature));
            if calls_with(c.asked, b.asked.len() as int, signature) > 0 {
                assert(count_after(b, c, signature) <= b.policy.repeat_threshold);
            } else {
                assert(calls_with(b.asked, a.asked.len() as int, signature) > 0);
                assert(count_after(a, b, signature) <= a.policy.repeat_threshold);
            }
        }
        match ran.1 {
            Err(RuntimeErrorView::LoopGuard { target, repeats, .. }) => {
                let call = choose|call: InvocationView|
                    call.target == target && repeats == one_more(
                        count_after(b, c, #[trigger] signature_of(call)),
                    ) && repeats > b.policy.repeat_threshold;
                assert(count_after(b, c, signature_of(call)) == count_after(
                    a,
                    c,
                    signature_of(call),
                ));
            },
            _ => {
                assert forall|signature: Seq<char>| #[trigger]
                    seen(c.state.repeats, signature) == count_after(a, c, signature) by {
                    assert(count_after(b, c, signature) == count_after(a, c, signature));
                }
            },
        }
    }
}

/// A run that makes no call and leaves the counts alone.
proof fn quiet(before: RunView, ran: Ran)
    requires
        extends(ran.0.asked, before.asked),
        forall|i: int|
            before.asked.len() <= i < ran.0.asked.len() ==> (#[trigger] ran.0.asked[i]).call() is None,
        ran.0.state.repeats == before.state.repeats,
        ran.0.policy == before.policy,
        is_free(ran.1),
    ensures
        keeps_count(before, ran),
{
    let after = ran.0;
    assert forall|signature: Seq<char>| #[trigger]
        calls_with(after.asked, before.asked.len() as int, signature) == 0 by {
        no_calls(after.asked, before.asked.len() as int, signature);
    }
    assert forall|signature: Seq<char>| #[trigger]
        seen(after.state.repeats, signature) == count_after(before, after, signature) by {
        assert(calls_with(after.asked, before.asked.len() as int, signature) == 0);
    }
}

proof fn no_calls(asked: Seq<RequestView>, from: int, signature: Seq<char>)
    requires
        0 <= from,
        forall|i: int| from <= i < asked.len() ==> (#[trigger] asked[i]).call() is None,
    ensures
        calls_with(asked, from, signature) == 0,
    decreases asked.len(),
{
    if asked.len() > from {
        assert(asked[asked.len() - 1].call() is None);
        let rest = asked.drop_last();
        assert forall|i: int| from <= i < rest.len() implies (#[trigger] rest[i]).call() is None by {
            assert(asked[i].call() is None);
        }
        no_calls(rest, from, signature);
    }
}

/// Binding several handles leaves the counts alone.
proof fn binding_counts_nothing(
    s: crate::state::StateView,
    ids: Seq<ValueId>,
    values: Seq<ValueView>,
    n: int,
)
    ensures
        s.bind_all(ids, values, n).repeats == s.repeats,
    decreases n,
{
    if n > 0 {
        binding_counts_nothing(s, ids, values, n - 1);
    }
}

/// Binding the results of a step leaves the counts alone.
proof fn results_count_nothing(run: RunView, s: StepView, value: ValueView)
    ensures
        run.bind_results(s, value).state.repeats == run.state.repeats,
        run.bind_results(s, value).asked == run.asked,
        run.bind_results(s, value).policy == run.policy,
{
    if let ValueView::List(items) = value {
        binding_counts_nothing(run.state, s.results, items, s.results.len() as int);
    }
    binding_counts_nothing(
        run.state,
        s.results,
        Seq::new(s.results.len(), |i: int| ValueView::Null),
        s.results.len() as int,
    );
}

proof fn performing_keeps_count(world: Seq<ReplyView>, run: RunView, s: StepView)
    requires
        !(s.target is Builtin),
    ensures
        keeps_count(run, perform(world, run, s)),
{
    let ran = perform(world, run, s);
    let after = ran.0;
    let call = run.invocation(s);
    let own = run.signature(s);
    assert(signature_of(call) == own);
    if sorted(keys(run.state.repeats)) {
        let count = one_more(seen(run.state.repeats, own));
        let counted = crate::assoc::insert(run.state.repeats, own, count);
        crate::assoc::insert_keeps_sorted(run.state.repeats, own, count);
        crate::assoc::insert_then_lookup(run.state.repeats, own, count);
        if !run.is_stuck(s) {
            let asked = run.counted(s).ask(request_of(s.target, call));
            let reply = world[run.asked.len() as int].outcome();
            if let Ok(result) = reply {
                let recorded = match call.idempotency_key {
                    Some(key) => asked.with_state(asked.state.record(key, result)),
                    None => asked,
                };
                let noted = recorded.note(
                    Some(s.op),
                    crate::event::EventKindView::Effect {
                        target: target_name(s.target),
                        effect: s.effect.text(),
                        idempotency_key: call.idempotency_key,
                        result,
                    },
                );
                results_count_nothing(noted, s, result);
            }
        }
        assert(after.state.repeats == counted);
        if run.is_stuck(s) {
            none_yet(after.asked, run.asked.len() as int, own);
            assert(count_after(run, after, signature_of(call)) == seen(run.state.repeats, own));
            assert forall|signature: Seq<char>|
                calls_with(after.asked, run.asked.len() as int, signature)
                    > 0 implies #[trigger] count_after(run, after, signature)
                <= run.policy.repeat_threshold by {
                none_yet(after.asked, run.asked.len() as int, signature);
            }
        } else {
            let n = run.asked.len() as int;
            let asked = run.asked.push(request_of(s.target, call));
            assert(after.asked == asked);
            assert(asked.drop_last() =~= run.asked);
            assert(asked.last().call() == Some(call));
            assert forall|signature: Seq<char>| #[trigger]
                seen(after.state.repeats, signature) == count_after(run, after, signature) by {
                none_yet(run.asked, n, signature);
                assert(calls_with(asked, n, signature) == if signature == own {
                    1nat
                } else {
                    0
                });
                if signature != own {
                    crate::assoc::insert_keeps_others(run.state.repeats, own, count, signature);
                }
            }
            assert forall|signature: Seq<char>|
                calls_with(after.asked, n, signature) > 0 implies #[trigger] count_after(
                run,
                after,
                signature,
            ) <= run.policy.repeat_threshold by {
                none_yet(run.asked, n, signature);
                assert(calls_with(asked, n, signature) == if signature == own {
                    1nat
                } else {
                    0
                });
                assert(seen(after.state.repeats, signature) == count_after(run, after, signature));
            }
        }
    }
}

proof fn replay_counts_nothing(run: RunView, s: StepView, key: Seq<char>, result: ValueView)
    ensures
        run.replay(s, key, result).state.repeats == run.state.repeats,
        run.replay(s, key, result).asked == run.asked,
        run.replay(s, key, result).policy == run.policy,
{
    let noted = run.note(
        Some(s.op),
        crate::event::EventKindView::EffectReplayed {
            target: target_name(s.target),
            idempotency_key: key,
            result,
        },
    );
    results_count_nothing(noted, s, result);
}

proof fn external_keeps_count(world: Seq<ReplyView>, run: RunView, s: StepView)
    requires
        !(s.target is Builtin),
    ensures
        keeps_count(run, external_run(world, run, s)),
{
    match effective_key(s.idempotency_key, run.path) {
        Some(key) => {
            let asked = run.ask(RequestView::Lookup(key));
            let none = Ok::<FlowView, RuntimeErrorView>(FlowView::Continue);
            quiet(run, (asked, none));
            if let Some(result) = crate::assoc::lookup(run.state.ledger, key) {
                replay_counts_nothing(run, s, key, result);
                quiet(run, (run.replay(s, key, result), none));
            } else if let Some(result) = world[run.asked.len() as int].known() {
                replay_counts_nothing(asked, s, key, result);
                quiet(run, (asked.replay(s, key, result), none));
            } else {
                performing_keeps_count(world, asked, s);
                counts_on(run, asked, none, perform(world, asked, s));
            }
        },
        None => {
            performing_keeps_count(world, run, s);
        },
    }
}

proof fn simple_keeps_count(run: RunView, s: StepView, builtin: Builtin)
    ensures
        keeps_count(run, simple_run(run, s, builtin)),
{
    let ran = simple_run(run, s, builtin);
    match crate::execution::computed(run, s, builtin) {
        Some(Ok(value)) => {
            results_count_nothing(run, s, value);
        },
        _ => {},
    }
    quiet(run, ran);
}

proof fn region_keeps_count(run: RunView, ran: Ran, s: StepView)
    requires
        keeps_count(run, ran),
    ensures
        keeps_count(run, region_done(ran, s)),
{
    if let (ended, Ok(FlowView::Yield(values))) = ran {
        let n = if s.results.len() <= values.len() {
            s.results.len() as int
        } else {
            values.len() as int
        };
        binding_counts_nothing(ended.state, s.results, values, n);
        let done = region_done(ran, s);
        quiet(ended, done);
        counts_on(run, ended, ran.1, done);
    }
}

proof fn plan_keeps_count(world: Seq<ReplyView>, run: RunView, plan: PlanView)
    ensures
        keeps_count(run, plan_run(world, run, plan)),
    decreases plan, 0int, 0int,
{
    batches_keep_count(world, run, plan.batches, 0);
}

proof fn batches_keep_count(
    world: Seq<ReplyView>,
    run: RunView,
    batches: Seq<Seq<StepView>>,
    i: int,
)
    ensures
        keeps_count(run, batches_run(world, run, batches, i)),
    decreases batches, 0int, batches.len() - i,
{
    quiet(run, (run, Ok::<FlowView, RuntimeErrorView>(FlowView::Continue)));
    if 0 <= i < batches.len() {
        assert(decreases_to!(batches => batches[i]));
        batch_keeps_count(world, run, batches[i], 0);
        let (next, flow) = batch_run(world, run, batches[i], 0);
        if flow == Ok::<FlowView, RuntimeErrorView>(FlowView::Continue) {
            batches_keep_count(world, next, batches, i + 1);
            counts_on(run, next, flow, batches_run(world, next, batches, i + 1));
        }
    }
}

proof fn batch_keeps_count(world: Seq<ReplyView>, run: RunView, batch: Seq<StepView>, j: int)
    ensures
        keeps_count(run, batch_run(world, run, batch, j)),
    decreases batch, 0int, batch.len() - j,
{
    quiet(run, (run, Ok::<FlowView, RuntimeErrorView>(FlowView::Continue)));
    if 0 <= j < batch.len() {
        assert(decreases_to!(batch => batch[j]));
        step_keeps_count(world, run, batch[j]);
        let (next, flow) = step_run(world, run, batch[j]);
        if flow == Ok::<FlowView, RuntimeErrorView>(FlowView::Continue) {
            batch_keeps_count(world, next, batch, j + 1);
            counts_on(run, next, flow, batch_run(world, next, batch, j + 1));
        }
    }
}

proof fn step_keeps_count(world: Seq<ReplyView>, run: RunView, s: StepView)
    ensures
        keeps_count(run, step_run(world, run, s)),
    decreases s, 0int, 0int,
{
    let ran = step_run(world, run, s);
    match s.target {
        TargetView::Builtin(builtin) => {
            if !is_control(builtin) {
                simple_keeps_count(run, s, builtin);
            } else if let Some(control) = s.control {
                assert(decreases_to!(s => s.control));
                match control {
                    ControlView::If { taken, otherwise } => {
                        plan_keeps_count(world, run, taken);
                        region_keeps_count(run, plan_run(world, run, taken), s);
                        if let Some(plan) = otherwise {
                            plan_keeps_count(world, run, plan);
                            region_keeps_count(run, plan_run(world, run, plan), s);
                        }
                        if ran.0 == run && is_free(ran.1) {
                            quiet(run, ran);
                        }
                    },
                    ControlView::Loop { binding, max_iterations, body } => {
                        let items = items_of(run.operand(s, 0));
                        loop_keeps_count(world, run, binding, body, items, 0);
                        if items.len() > max_iterations {
                            quiet(run, ran);
                        }
                    },
                    ControlView::While { condition, max_iterations, body } => {
                        while_keeps_count(world, run, control, 0);
                    },
                    ControlView::Parallel { body } => {
                        plan_keeps_count(world, run, body);
                        region_keeps_count(run, plan_run(world, run, body), s);
                    },
                }
            } else {
                quiet(run, ran);
            }
        },
        _ => {
            external_keeps_count(world, run, s);
        },
    }
}

/// Where the loop iterations are open makes no difference to the counts.
proof fn paths_count_nothing(run: RunView, path: Seq<u64>, ran: Ran, back: Seq<u64>)
    requires
        keeps_count(RunView { path, ..run }, ran),
    ensures
        keeps_count(run, (RunView { path: back, ..ran.0 }, ran.1)),
{
    let inner = RunView { path, ..run };
    let outer = RunView { path: back, ..ran.0 };
    assert forall|signature: Seq<char>| #[trigger]
        count_after(run, outer, signature) == count_after(inner, ran.0, signature) by {}
    if let Err(RuntimeErrorView::LoopGuard { target, repeats, .. }) = ran.1 {
        if sorted(keys(run.state.repeats)) {
            let call = choose|call: InvocationView|
                call.target == target && repeats == one_more(
                    count_after(inner, ran.0, #[trigger] signature_of(call)),
                ) && repeats > inner.policy.repeat_threshold;
            assert(count_after(run, outer, signature_of(call)) == count_after(
                inner,
                ran.0,
                signature_of(call),
            ));
        }
    }
}

proof fn loop_keeps_count(
    world: Seq<ReplyView>,
    run: RunView,
    binding: Option<ValueId>,
    body: PlanView,
    items: Seq<ValueView>,
    k: int,
)
    ensures
        keeps_count(run, loop_run(world, run, binding, body, items, k)),
    decreases body, 1int, items.len() - k,
{
    let none = Ok::<FlowView, RuntimeErrorView>(FlowView::Continue);
    quiet(run, (run, none));
    if 0 <= k < items.len() {
        let bound = match binding {
            Some(id) => run.with_state(run.state.bind(id, items[k])),
            None => run,
        };
        quiet(run, (bound, none));
        let entered = bound.enter(k as u64);
        plan_keeps_count(world, entered, body);
        let (ended, flow) = plan_run(world, entered, body);
        let next = ended.leave(run.path);
        paths_count_nothing(bound, entered.path, (ended, flow), run.path);
        counts_on(run, bound, none, (next, flow));
        if !body_stops(flow) {
            loop_keeps_count(world, next, binding, body, items, k + 1);
            counts_on(run, next, flow, loop_run(world, next, binding, body, items, k + 1));
        }
    }
}

proof fn while_keeps_count(world: Seq<ReplyView>, run: RunView, control: ControlView, k: int)
    requires
        control is While,
    ensures
        keeps_count(run, while_run(world, run, control, k)),
    decreases control, 1int, control->While_max_iterations - k,
{
    let none = Ok::<FlowView, RuntimeErrorView>(FlowView::Continue);
    quiet(run, (run, none));
    if let ControlView::While { condition, max_iterations, body } = control {
        if 0 <= k < max_iterations {
            let opened = run.enter(k as u64);
            plan_keeps_count(world, opened, condition);
            let (tested, verdict) = plan_run(world, opened, condition);
            let closed = tested.leave(run.path);
            paths_count_nothing(run, opened.path, (tested, verdict), run.path);
            match while_ends(verdict) {
                Some(flow) => {
                    if is_free(verdict) {
                        quiet(closed, (closed, flow));
                        counts_on(run, closed, verdict, (closed, flow));
                    }
                },
                None => {
                    let entered = closed.enter(k as u64);
                    plan_keeps_count(world, entered, body);
                    let (ended, flow) = plan_run(world, entered, body);
                    let next = ended.leave(run.path);
                    paths_count_nothing(closed, entered.path, (ended, flow), run.path);
                    counts_on(run, closed, verdict, (next, flow));
                    if !body_stops(flow) {
                        if k + 1 == max_iterations {
                            let limit = Err::<FlowView, RuntimeErrorView>(
                                RuntimeErrorView::IterationLimit { limit: max_iterations },
                            );
                            quiet(next, (next, limit));
                            counts_on(run, next, flow, (next, limit));
                        } else {
                            while_keeps_count(world, next, control, k + 1);
                            counts_on(run, next, flow, while_run(world, next, control, k + 1));
                        }
                    }
                },
            }
        }
    }
}

/// Whether two calls are the same action: the same target, with as many
/// arguments, each rendered the same.
pub open spec fn same_action(a: InvocationView, b: InvocationView) -> bool {
    a.target == b.target && rendered_alike(a.args, b.args)
}

/// How many of the requests from number `from` on are the same action as a call.
pub open spec fn repetitions(asked: Seq<RequestView>, from: int, call: InvocationView) -> nat
    decreases asked.len(),
{
    if asked.len() <= from || asked.len() == 0 {
        0
    } else {
        repetitions(asked.drop_last(), from, call) + match asked.last().call() {
            Some(other) if same_action(other, call) => 1nat,
            _ => 0,
        }
    }
}

proof fn same_actions_share_signatures(a: InvocationView, b: InvocationView)
    requires
        same_action(a, b),
    ensures
        signature_of(a) == signature_of(b),
{
    alike_join_alike(a.args, b.args, 0);
}

proof fn repetitions_are_counted(asked: Seq<RequestView>, from: int, call: InvocationView)
    ensures
        repetitions(asked, from, call) <= calls_with(asked, from, signature_of(call)),
    decreases asked.len(),
{
    if asked.len() > from && asked.len() > 0 {
        repetitions_are_counted(asked.drop_last(), from, call);
        if let Some(other) = asked.last().call() {
            if same_action(other, call) {
                same_actions_share_signatures(other, call);
            }
        }
    }
}

/// The part of a text before its first bar.
proof fn split_at_the_bar(a: Seq<char>, x: Seq<char>, b: Seq<char>, y: Seq<char>)
    requires
        !a.contains('|'),
        !b.contains('|'),
        a + "|"@ + x == b + "|"@ + y,
    ensures
        a == b,
        x == y,
{
    reveal_strlit("|");
    let s = a + "|"@ + x;
    let t = b + "|"@ + y;
    if a.len() < b.len() {
        assert(s[a.len() as int] == '|');
        assert(t[a.len() as int] == b[a.len() as int]);
    } else if b.len() < a.len() {
        assert(t[b.len() as int] == '|');
        assert(s[b.len() as int] == a[b.len() as int]);
    }
    assert(a =~= s.take(a.len() as int));
    assert(b =~= t.take(a.len() as int));
    assert(x =~= s.skip(a.len() + 1int));
    assert(y =~= t.skip(a.len() + 1int));
}

/// Whether a call can be told from others by its signature: its target holds no
/// bar, and the renderings of its arguments stand apart.
pub open spec fn is_distinct(call: InvocationView) -> bool {
    !call.target.contains('|') && all_stand_apart(call.args)
}

proof fn counted_are_repetitions(asked: Seq<RequestView>, from: int, call: InvocationView)
    requires
        0 <= from,
        is_distinct(call),
        forall|i: int|
            from <= i < asked.len() ==> ((#[trigger] asked[i]).call() matches Some(c)
                ==> is_distinct(c)),
    ensures
        calls_with(asked, from, signature_of(call)) == repetitions(asked, from, call),
    decreases asked.len(),
{
    if asked.len() > from {
        let rest = asked.drop_last();
        assert forall|i: int| from <= i < rest.len() implies ((#[trigger] rest[i]).call() matches Some(
            c,
        ) ==> is_distinct(c)) by {
            assert(asked[i] == rest[i]);
        }
        counted_are_repetitions(rest, from, call);
        assert(asked[asked.len() - 1] == asked.last());
        if let Some(other) = asked.last().call() {
            if signature_of(other) == signature_of(call) {
                split_at_the_bar(
                    other.target,
                    prints(other.args, 0),
                    call.target,
                    prints(call.args, 0),
                );
                joined_tell_apart(other.args, call.args, 0);
                assert(same_action(other, call));
            }
            if same_action(other, call) {
                same_actions_share_signatures(other, call);
            }
        }
    }
}

/// A call of a signature among some requests.
proof fn a_counted_call(asked: Seq<RequestView>, from: int, signature: Seq<char>) -> (i: int)
    requires
        0 <= from,
        calls_with(asked, from, signature) > 0,
    ensures
        from <= i < asked.len(),
        is_call_with(asked[i], signature),
    decreases asked.len(),
{
    if is_call_with(asked.last(), signature) {
        asked.len() - 1
    } else {
        a_counted_call(asked.drop_last(), from, signature)
    }
}

proof fn function_keeps_count(
    world: Seq<ReplyView>,
    run: RunView,
    plan: ExecutionPlanView,
    arguments: Seq<ValueView>,
)
    ensures
        ({
            let (after, outcome) = function_run(world, run, plan, arguments);
            keeps_count(
                run,
                (
                    after,
                    match outcome {
                        Ok(_) => Ok::<FlowView, RuntimeErrorView>(FlowView::Continue),
                        Err(error) => Err(error),
                    },
                ),
            )
        }),
{
    let begun = started(run, plan, arguments);
    let none = Ok::<FlowView, RuntimeErrorView>(FlowView::Continue);
    let n = if plan.parameters.len() <= arguments.len() {
        plan.parameters.len() as int
    } else {
        arguments.len() as int
    };
    binding_counts_nothing(run.state, plan.parameters, arguments, n);
    quiet(run, (begun, none));
    plan_keeps_count(world, begun, plan.plan);
    let (ended, flow) = plan_run(world, begun, plan.plan);
    counts_on(run, begun, none, (ended, flow));
    if flow is Ok {
        let after = function_run(world, run, plan, arguments).0;
        quiet(ended, (after, none));
        counts_on(run, ended, flow, (after, none));
    }
}

/// No action is repeated past the threshold: of the calls a run makes, no more
/// than that are the same target with the same arguments.
pub proof fn no_action_is_repeated_past_the_threshold(
    world: Seq<ReplyView>,
    run: RunView,
    plan: ExecutionPlanView,
    arguments: Seq<ValueView>,
    call: InvocationView,
)
    requires
        sorted(keys(run.state.repeats)),
        run.policy.repeat_threshold < usize::MAX,
    ensures
        repetitions(
            function_run(world, run, plan, arguments).0.asked,
            run.asked.len() as int,
            call,
        ) <= run.policy.repeat_threshold,
{
    let after = function_run(world, run, plan, arguments).0;
    let from = run.asked.len() as int;
    function_keeps_count(world, run, plan, arguments);
    repetitions_are_counted(after.asked, from, call);
    if calls_with(after.asked, from, signature_of(call)) > 0 {
        assert(count_after(run, after, signature_of(call)) <= run.policy.repeat_threshold);
    }
}

/// The guard fires only on repetition: a run that it stops has already made as
/// many calls of that target, all with the same arguments, as the threshold
/// allows. So a run that calls no target that often with the same arguments is
/// never stopped by it.
pub proof fn the_guard_fires_only_on_repetition(
    world: Seq<ReplyView>,
    run: RunView,
    plan: ExecutionPlanView,
    arguments: Seq<ValueView>,
    target: Seq<char>,
    repeats: usize,
    action: crate::execution::LoopGuardAction,
)
    requires
        run.state.repeats.len() == 0,
        run.policy.repeat_threshold > 0,
        function_run(world, run, plan, arguments).1 == Err::<
            crate::execution::OutcomeView,
            RuntimeErrorView,
        >(RuntimeErrorView::LoopGuard { target, repeats, action }),
        !target.contains('|'),
        forall|i: int|
            run.asked.len() <= i < function_run(world, run, plan, arguments).0.asked.len() ==> ((
            #[trigger] function_run(world, run, plan, arguments).0.asked[i]).call() matches Some(
                c,
            ) ==> is_distinct(c)),
    ensures
        exists|i: int|
            run.asked.len() <= i < function_run(world, run, plan, arguments).0.asked.len() && ((
            #[trigger] function_run(world, run, plan, arguments).0.asked[i]).call() matches Some(
                call,
            ) && call.target == target && repetitions(
                function_run(world, run, plan, arguments).0.asked,
                run.asked.len() as int,
                call,
            ) >= run.policy.repeat_threshold),
{
    let after = function_run(world, run, plan, arguments).0;
    let from = run.asked.len() as int;
    function_keeps_count(world, run, plan, arguments);
    let blocked = choose|call: InvocationView|
        call.target == target && repeats == one_more(
            count_after(run, after, #[trigger] signature_of(call)),
        ) && repeats > run.policy.repeat_threshold;
    let signature = signature_of(blocked);
    assert(seen(run.state.repeats, signature) == 0);
    assert(calls_with(after.asked, from, signature) >= run.policy.repeat_threshold);
    let i = a_counted_call(after.asked, from, signature);
    let call = after.asked[i].call()->0;
    assert(is_distinct(call));
    split_at_the_bar(call.target, prints(call.args, 0), target, prints(blocked.args, 0));
    counted_are_repetitions(after.asked, from, call);
}

} // verus!
