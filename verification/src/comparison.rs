//! What comparing two values gives.
//!
//! Numbers compare by the value they stand for, whatever their digits and
//! exponents, and an integer compares as the number it is. Two values of any
//! kind are equal or they are not, and one that is not a number is neither
//! smaller than, nor equal to, nor larger than anything.

use vstd::prelude::*;

use crate::env::ReplyView;
use crate::execution::{compared, step_run, RunView, RuntimeErrorView};
use crate::number::{
    digit_count, lemma_pow10_positive, lemma_pow10_sum, number_eq, number_lt, number_of, pow10,
    strip_zeros, Number,
};
use crate::plan::{Builtin, StepView, TargetView};
use crate::steps::{argument, gives, results_are_bound};
use crate::value::{fields_equal, items_equal, values_equal, ValueView};

verus! {

// ------------------------------------------------------------------ numbers

/// The digits of a finite number with its sign.
pub open spec fn signed(n: Number) -> int {
    match n {
        Number::Finite { negative, mantissa, .. } => if negative {
            -(mantissa as int)
        } else {
            mantissa as int
        },
        _ => 0,
    }
}

/// The power of ten that the digits of a finite number are scaled by.
pub open spec fn power(n: Number) -> int {
    match n {
        Number::Finite { exponent, .. } => exponent as int,
        _ => 0,
    }
}

/// How many times a finite number holds `10^unit`, where that divides it.
pub open spec fn measure(n: Number, unit: int) -> int {
    signed(n) * pow10((power(n) - unit) as nat)
}

proof fn finer(n: Number, unit: int, finest: int)
    requires
        finest <= unit <= power(n),
    ensures
        measure(n, finest) == measure(n, unit) * pow10((unit - finest) as nat),
{
    let a = (power(n) - unit) as nat;
    let b = (unit - finest) as nat;
    lemma_pow10_sum(a, b);
    assert((power(n) - finest) as nat == a + b);
    let s = signed(n);
    let x = pow10(a) as int;
    let y = pow10(b) as int;
    assert(s * (x * y) == (s * x) * y) by (nonlinear_arith);
}

proof fn scaling_keeps_order(a: int, b: int, factor: int)
    requires
        factor >= 1,
    ensures
        (a < b) == (a * factor < b * factor),
        (a == b) == (a * factor == b * factor),
{
    if a < b {
        assert(a * factor < b * factor) by (nonlinear_arith)
            requires
                a < b,
                factor >= 1,
        ;
    } else if b < a {
        assert(b * factor < a * factor) by (nonlinear_arith)
            requires
                b < a,
                factor >= 1,
        ;
    }
}

/// Numbers compare by the value they stand for: measured in any unit that
/// divides both, the smaller one holds it fewer times, and equal ones as often.
pub proof fn numbers_compare_by_value(a: Number, b: Number, unit: int)
    requires
        a is Finite,
        b is Finite,
        unit <= power(a),
        unit <= power(b),
    ensures
        number_lt(a, b) == (measure(a, unit) < measure(b, unit)),
        number_eq(a, b) == (measure(a, unit) == measure(b, unit)),
{
    let base = if power(a) < power(b) {
        power(a)
    } else {
        power(b)
    };
    finer(a, base, unit);
    finer(b, base, unit);
    let factor = pow10((base - unit) as nat) as int;
    lemma_pow10_positive((base - unit) as nat);
    scaling_keeps_order(measure(a, base), measure(b, base), factor);
    scaling_keeps_order(measure(b, base), measure(a, base), factor);
}

/// A number that is too large in one direction is beyond every finite number,
/// and one that is not a number compares with nothing.
pub proof fn the_ends_of_the_order(a: Number, b: Number)
    ensures
        a is Nan ==> !number_lt(a, b) && !number_lt(b, a) && !number_eq(a, b) && !number_eq(b, a),
        a == (Number::Infinite { negative: false }) && b is Finite ==> number_lt(b, a),
        a == (Number::Infinite { negative: true }) && b is Finite ==> number_lt(a, b),
        a == (Number::Infinite { negative: true }) && b == (Number::Infinite { negative: false })
            ==> number_lt(a, b),
        a is Infinite ==> number_eq(a, a),
        !(a is Nan) && !(b is Nan) ==> number_lt(a, b) || number_lt(b, a) || number_eq(a, b),
        !(number_lt(a, b) && number_lt(b, a)),
{
    if a is Finite && b is Finite {
        let unit = if power(a) < power(b) {
            power(a)
        } else {
            power(b)
        };
        numbers_compare_by_value(a, b, unit);
        numbers_compare_by_value(b, a, unit);
    }
}

proof fn stripping_keeps_the_value(mantissa: nat, exponent: int)
    ensures
        mantissa > 0 ==> strip_zeros(mantissa, exponent).1 >= exponent,
        mantissa > 0 ==> strip_zeros(mantissa, exponent).0 * pow10(
            (strip_zeros(mantissa, exponent).1 - exponent) as nat,
        ) == mantissa,
        strip_zeros(mantissa, exponent).0 <= mantissa,
        mantissa > 0 ==> strip_zeros(mantissa, exponent).1 - exponent + digit_count(
            strip_zeros(mantissa, exponent).0,
        ) == digit_count(mantissa),
        mantissa == 0 ==> strip_zeros(mantissa, exponent) == (0nat, 0int),
    decreases mantissa,
{
    if mantissa > 0 && mantissa % 10 == 0 {
        let less = mantissa / 10;
        stripping_keeps_the_value(less, exponent + 1);
        let (m, e) = strip_zeros(less, exponent + 1);
        let n = (e - exponent) as nat;
        assert(pow10(n) == 10 * pow10((n - 1) as nat));
        assert((e - (exponent + 1)) as nat == (n - 1) as nat);
        let p = pow10((n - 1) as nat);
        assert(m * (10 * p) == 10 * (m * p)) by (nonlinear_arith);
        assert(digit_count(mantissa) == 1 + digit_count(less));
    } else if mantissa > 0 {
        assert(pow10(0) == 1);
        assert(mantissa * 1 == mantissa);
    }
}

proof fn integers_have_few_digits(n: nat)
    requires
        n <= u64::MAX,
    ensures
        1 <= digit_count(n) <= 20,
{
    reveal_with_fuel(digit_count, 21);
}

proof fn an_integer_is_itself(i: int)
    requires
        -(u64::MAX as int) <= i <= u64::MAX,
    ensures
        Number::spec_from_int(i) is Finite,
        power(Number::spec_from_int(i)) >= 0,
        measure(Number::spec_from_int(i), 0) == i,
{
    let size = if i < 0 {
        (-i) as nat
    } else {
        i as nat
    };
    let n = Number::spec_from_int(i);
    let (m, e) = strip_zeros(size, 0);
    stripping_keeps_the_value(size, 0);
    integers_have_few_digits(size);
    integers_have_few_digits(m);
    assert(n == number_of(i < 0, size, 0));
    let p = pow10(e as nat) as int;
    if size == 0 {
        assert(0 * pow10(0) == 0);
        assert(signed(n) == 0);
    } else if i < 0 {
        assert(-(m as int) * p == -(m * p)) by (nonlinear_arith);
    }
}

/// Integers compare as integers do.
pub proof fn integers_compare_as_integers(a: i64, b: i64)
    ensures
        number_lt(Number::spec_from_int(a as int), Number::spec_from_int(b as int)) == (a < b),
        number_eq(Number::spec_from_int(a as int), Number::spec_from_int(b as int)) == (a == b),
{
    an_integer_is_itself(a as int);
    an_integer_is_itself(b as int);
    numbers_compare_by_value(
        Number::spec_from_int(a as int),
        Number::spec_from_int(b as int),
        0,
    );
}

// ------------------------------------------------------------------- values

/// The number that a value is, if it is one.
pub open spec fn as_number(v: ValueView) -> Option<Number> {
    match v {
        ValueView::Int(i) => Some(Number::spec_from_int(i as int)),
        ValueView::Float(n) => Some(n),
        _ => None,
    }
}

proof fn items_compare(a: Seq<ValueView>, b: Seq<ValueView>, i: int)
    requires
        0 <= i <= a.len(),
    ensures
        items_equal(a, b, i) == (forall|k: int|
            i <= k < a.len() ==> values_equal(#[trigger] a[k], b[k])),
    decreases a.len() - i,
{
    if i < a.len() {
        items_compare(a, b, i + 1);
    }
}

proof fn fields_compare(
    a: Seq<(Seq<char>, ValueView)>,
    b: Seq<(Seq<char>, ValueView)>,
    i: int,
)
    requires
        0 <= i <= a.len(),
    ensures
        fields_equal(a, b, i) == (forall|k: int|
            i <= k < a.len() ==> (#[trigger] a[k]).0 == b[k].0 && values_equal(a[k].1, b[k].1)),
    decreases a.len() - i,
{
    if i < a.len() {
        fields_compare(a, b, i + 1);
    }
}

/// Two values are equal when they are of one kind and hold the same: lists as
/// many items, equal one by one, and records the same names with equal values.
pub proof fn equal_values_hold_the_same(a: ValueView, b: ValueView)
    ensures
        values_equal(a, b) == match (a, b) {
            (ValueView::Float(x), ValueView::Float(y)) => number_eq(x, y),
            (ValueView::List(x), ValueView::List(y)) => x.len() == y.len() && forall|k: int|
                0 <= k < x.len() ==> values_equal(#[trigger] x[k], y[k]),
            (ValueView::Record(x), ValueView::Record(y)) => x.len() == y.len() && forall|k: int|
                0 <= k < x.len() ==> (#[trigger] x[k]).0 == y[k].0 && values_equal(
                    x[k].1,
                    y[k].1,
                ),
            (ValueView::Float(_), _) | (ValueView::List(_), _) | (ValueView::Record(_), _) => false,
            (_, ValueView::Float(_)) | (_, ValueView::List(_)) | (_, ValueView::Record(_)) => false,
            _ => a == b,
        },
{
    match (a, b) {
        (ValueView::List(x), ValueView::List(y)) => {
            items_compare(x, y, 0);
        },
        (ValueView::Record(x), ValueView::Record(y)) => {
            fields_compare(x, y, 0);
        },
        _ => {},
    }
}

// -------------------------------------------------------------- comparisons

/// Whether two numbers stand in the relation that a predicate names.
pub open spec fn related(predicate: Seq<char>, a: Number, b: Number) -> Option<bool> {
    if predicate == "lt"@ {
        Some(number_lt(a, b))
    } else if predicate == "le"@ {
        Some(number_lt(a, b) || number_eq(a, b))
    } else if predicate == "gt"@ {
        Some(number_lt(b, a))
    } else if predicate == "ge"@ {
        Some(number_lt(b, a) || number_eq(a, b))
    } else {
        None
    }
}

/// A comparison gives whether the two values it is given stand in the relation
/// that it names: equal or not, for values of any kind, and otherwise in order,
/// for numbers alone. Any other relation, or one of order between values that
/// are not numbers, is a failure.
pub proof fn a_comparison_tells_the_relation(
    world: Seq<ReplyView>,
    run: RunView,
    step: StepView,
)
    requires
        step.target == TargetView::Builtin(Builtin::Compare),
    ensures
        ({
            let ran = step_run(world, run, step);
            let a = argument(run, step, 0);
            let b = argument(run, step, 1);
            let predicate = match step.literal {
                Some(word) => word,
                None => "eq"@,
            };
            if predicate == "eq"@ {
                gives(ran, run, step, ValueView::Bool(values_equal(a, b)))
            } else if predicate == "ne"@ {
                gives(ran, run, step, ValueView::Bool(!values_equal(a, b)))
            } else {
                match (as_number(a), as_number(b)) {
                    (Some(x), Some(y)) => match related(predicate, x, y) {
                        Some(verdict) => gives(ran, run, step, ValueView::Bool(verdict)),
                        None => ran.0 == run && (ran.1 matches Err(
                            RuntimeErrorView::Unsupported(_),
                        )),
                    },
                    _ => ran.0 == run && (ran.1 matches Err(RuntimeErrorView::Type(_))),
                }
            }
        }),
{
    let a = argument(run, step, 0);
    let b = argument(run, step, 1);
    let predicate = match step.literal {
        Some(word) => word,
        None => "eq"@,
    };
    if let Ok(value) = compared(predicate, a, b) {
        results_are_bound(run, step, value);
    }
}

/// A relation and the one it reverses: what is smaller one way is larger the
/// other way, what is no larger is smaller or equal, and of two integers each
/// relation is that of the integers.
pub proof fn relations_reverse(a: ValueView, b: ValueView)
    ensures
        compared("lt"@, a, b) matches Ok(v) ==> (compared("gt"@, b, a) matches Ok(w) && v == w),
        compared("le"@, a, b) matches Ok(v) ==> (compared("ge"@, b, a) matches Ok(w) && v == w),
        a is Int && b is Int ==> {
            let x = a->Int_0;
            let y = b->Int_0;
            &&& compared("lt"@, a, b) matches Ok(v) && v == ValueView::Bool(x < y)
            &&& compared("le"@, a, b) matches Ok(v) && v == ValueView::Bool(x <= y)
            &&& compared("gt"@, a, b) matches Ok(v) && v == ValueView::Bool(x > y)
            &&& compared("ge"@, a, b) matches Ok(v) && v == ValueView::Bool(x >= y)
            &&& compared("eq"@, a, b) matches Ok(v) && v == ValueView::Bool(x == y)
            &&& compared("ne"@, a, b) matches Ok(v) && v == ValueView::Bool(x != y)
        },
{
    reveal_strlit("lt");
    reveal_strlit("le");
    reveal_strlit("gt");
    reveal_strlit("ge");
    reveal_strlit("eq");
    reveal_strlit("ne");
    assert("lt"@[0] == 'l' && "le"@[1] == 'e' && "lt"@[1] == 't' && "gt"@[0] == 'g' && "gt"@[1]
        == 't' && "ge"@[0] == 'g' && "ge"@[1] == 'e' && "eq"@[0] == 'e' && "ne"@[0] == 'n');
    if let (ValueView::Int(x), ValueView::Int(y)) = (a, b) {
        integers_compare_as_integers(x, y);
        integers_compare_as_integers(y, x);
    }
}

} // verus!
