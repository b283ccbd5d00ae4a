//! Decimal numbers, for float literals, confidences and runtime floats.
//!
//! A finite number is a sign, an integer mantissa and a power of ten. The
//! mantissa carries no trailing zero, so a value has exactly one
//! representation and equality of values is equality of fields. Nineteen
//! significant digits are kept, two more than any double needs to be written
//! exactly, and the range is that of doubles: beyond it a literal is infinite
//! or zero.

use vstd::prelude::*;
use vstd::string::*;

use crate::text::{nat_string, nat_text, push_nat};

verus! {

/// A decimal number.
#[derive(Clone, Copy, Debug, PartialEq, Eq, Structural)]
pub enum Number {
    /// `mantissa * 10^exponent`, negated when `negative` is set.
    Finite {
        /// Whether the sign is negative. Zero has a sign too.
        negative: bool,
        /// The significant digits.
        mantissa: u64,
        /// The power of ten they are scaled by.
        exponent: i32,
    },
    /// Beyond the largest representable magnitude.
    Infinite {
        /// Whether the sign is negative.
        negative: bool,
    },
    /// Not a number: unordered, and different from every number.
    Nan,
}

/// `10^n`.
pub open spec fn pow10(n: nat) -> nat
    decreases n,
{
    if n == 0 {
        1
    } else {
        10 * pow10((n - 1) as nat)
    }
}

/// How many decimal digits a natural number is written with.
pub open spec fn digit_count(n: nat) -> nat
    decreases n,
{
    if n < 10 {
        1
    } else {
        1 + digit_count(n / 10)
    }
}

/// `mantissa * 10^exponent` with the trailing zeros of the mantissa moved into
/// the exponent; zero is `0 * 10^0`.
pub open spec fn strip_zeros(mantissa: nat, exponent: int) -> (nat, int)
    decreases mantissa,
{
    if mantissa == 0 {
        (0, 0)
    } else if mantissa % 10 == 0 {
        strip_zeros(mantissa / 10, exponent + 1)
    } else {
        (mantissa, exponent)
    }
}

/// The number `mantissa * 10^exponent`, with the given sign: infinite when its
/// leading digit is beyond the 308th power of ten, zero when it is below the
/// 324th negative one.
pub open spec fn number_of(negative: bool, mantissa: nat, exponent: int) -> Number {
    let (m, e) = strip_zeros(mantissa, exponent);
    let leading = e + digit_count(m) - 1;
    if leading > 308 {
        Number::Infinite { negative }
    } else if leading < -324 {
        Number::Finite { negative, mantissa: 0, exponent: 0 }
    } else {
        Number::Finite { negative, mantissa: m as u64, exponent: e as i32 }
    }
}

/// The digits of a number below `10^19` never need more than nineteen places.
proof fn lemma_digit_count_bound(n: nat)
    requires
        n <= u64::MAX,
    ensures
        1 <= digit_count(n) <= 20,
{
    reveal_with_fuel(digit_count, 21);
}

proof fn lemma_strip_bound(mantissa: nat, exponent: int)
    ensures
        strip_zeros(mantissa, exponent).0 <= mantissa,
        mantissa != 0 ==> strip_zeros(mantissa, exponent).1 >= exponent,
    decreases mantissa,
{
    if mantissa != 0 && mantissa % 10 == 0 {
        lemma_strip_bound(mantissa / 10, exponent + 1);
    }
}

fn count_digits(n: u64) -> (r: u32)
    ensures
        r == digit_count(n as nat),
        1 <= r <= 20,
    decreases n,
{
    proof {
        lemma_digit_count_bound(n as nat);
    }
    if n < 10 {
        1
    } else {
        proof {
            lemma_digit_count_bound((n / 10) as nat);
        }
        1 + count_digits(n / 10)
    }
}

/// A run of `n` zeros.
pub open spec fn zeros(n: nat) -> Seq<char> {
    Seq::new(n, |i: int| '0')
}

fn push_zeros(out: &mut String, n: u32)
    ensures
        final(out)@ == old(out)@ + zeros(n as nat),
{
    let mut i: u32 = 0;
    while i < n
        invariant
            i <= n,
            out@ == old(out)@ + zeros(i as nat),
        decreases n - i,
    {
        out.push('0');
        i += 1;
        assert(out@ =~= old(out)@ + zeros(i as nat));
    }
    assert(out@ =~= old(out)@ + zeros(n as nat));
}

impl Number {
    /// Whether the fields are the one representation of the value they denote.
    pub open spec fn normalized(self) -> bool {
        match self {
            Number::Finite { negative, mantissa, exponent } => number_of(
                negative,
                mantissa as nat,
                exponent as int,
            ) == self,
            _ => true,
        }
    }

    /// The number one.
    pub open spec fn spec_one() -> Number {
        Number::Finite { negative: false, mantissa: 1, exponent: 0 }
    }

    /// The number one.
    pub fn one() -> (r: Number)
        ensures
            r == Number::spec_one(),
            r.normalized(),
    {
        reveal_with_fuel(strip_zeros, 2);
        reveal_with_fuel(digit_count, 2);
        Number::Finite { negative: false, mantissa: 1, exponent: 0 }
    }

    /// The number `mantissa * 10^exponent`, negated when `negative` is set.
    pub fn new(negative: bool, mantissa: u64, exponent: i128) -> (r: Number)
        requires
            -0x4000_0000_0000_0000_0000_0000_0000_0000 < exponent
                < 0x4000_0000_0000_0000_0000_0000_0000_0000,
        ensures
            r == number_of(negative, mantissa as nat, exponent as int),
    {
        let mut m: u64 = mantissa;
        let mut e: i128 = exponent;
        if m == 0 {
            e = 0;
        }
        while m != 0 && m % 10 == 0
            invariant
                strip_zeros(m as nat, e as int) == strip_zeros(mantissa as nat, exponent as int),
                m == 0 ==> e == 0,
                -0x4000_0000_0000_0000_0000_0000_0000_0000 < e
                    < 0x4000_0000_0000_0000_0000_0000_0000_0000 + mantissa - m,
                m <= mantissa,
            decreases m,
        {
            m = m / 10;
            e = e + 1;
        }
        let digits: u32 = count_digits(m);
        let leading: i128 = e + (digits as i128) - 1;
        if leading > 308 {
            Number::Infinite { negative }
        } else if leading < -324 {
            Number::Finite { negative, mantissa: 0, exponent: 0 }
        } else {
            Number::Finite { negative, mantissa: m, exponent: e as i32 }
        }
    }

    /// The integer `i` as a number.
    pub open spec fn spec_from_int(i: int) -> Number {
        number_of(i < 0, if i < 0 { (-i) as nat } else { i as nat }, 0)
    }

    /// The integer `i` as a number.
    pub fn from_int(i: i64) -> (r: Number)
        ensures
            r == Number::spec_from_int(i as int),
    {
        let magnitude: u64 = if i == i64::MIN {
            9223372036854775808u64
        } else if i < 0 {
            (-i) as u64
        } else {
            i as u64
        };
        Number::new(i < 0, magnitude, 0)
    }

    /// The positional decimal form: no exponent, and no point for a whole
    /// number.
    pub open spec fn plain_text(self) -> Seq<char> {
        match self {
            Number::Nan => "NaN"@,
            Number::Infinite { negative } => if negative {
                "-inf"@
            } else {
                "inf"@
            },
            Number::Finite { negative, mantissa, exponent } => {
                let digits = nat_text(mantissa as nat);
                let sign = if negative {
                    seq!['-']
                } else {
                    Seq::<char>::empty()
                };
                if exponent >= 0 {
                    sign + digits + zeros(exponent as nat)
                } else if digits.len() > -exponent {
                    sign + digits.take(digits.len() + exponent) + seq!['.'] + digits.skip(
                        digits.len() + exponent,
                    )
                } else {
                    sign + seq!['0', '.'] + zeros((-exponent - digits.len()) as nat) + digits
                }
            },
        }
    }

    /// The literal form, which reads back as the number: a whole number keeps a
    /// decimal point and stays distinguishable from an integer, and an infinite
    /// one is written with an exponent that no finite number has. No literal
    /// denotes what is not a number, so that form is not read.
    pub open spec fn literal_text(self) -> Seq<char> {
        match self {
            Number::Infinite { negative } => if negative {
                "-1e999"@
            } else {
                "1e999"@
            },
            Number::Finite { exponent, .. } => if exponent >= 0 {
                self.plain_text() + seq!['.', '0']
            } else {
                self.plain_text()
            },
            Number::Nan => self.plain_text(),
        }
    }

    /// Appends the positional decimal form.
    pub fn push_plain(self, out: &mut String)
        ensures
            final(out)@ == old(out)@ + self.plain_text(),
    {
        match self {
            Number::Nan => {
                out.append("NaN");
            },
            Number::Infinite { negative } => {
                if negative {
                    out.append("-inf");
                } else {
                    out.append("inf");
                }
            },
            Number::Finite { negative, mantissa, exponent } => {
                if negative {
                    out.push('-');
                }
                if exponent >= 0 {
                    push_nat(out, mantissa);
                    push_zeros(out, exponent as u32);
                    assert(out@ =~= old(out)@ + self.plain_text());
                } else {
                    let digits = nat_string(mantissa);
                    let chars = crate::text::chars_of(digits.as_str());
                    let count: usize = chars.len();
                    let places: usize = (-(exponent as i64)) as usize;
                    if count > places {
                        let whole = crate::text::slice_text(&chars, 0, count - places);
                        let fraction = crate::text::slice_text(&chars, count - places, count);
                        out.append(whole.as_str());
                        out.push('.');
                        out.append(fraction.as_str());
                        assert(out@ =~= old(out)@ + self.plain_text());
                    } else {
                        out.append("0.");
                        proof {
                            reveal_strlit("0.");
                        }
                        push_zeros(out, (places - count) as u32);
                        out.append(digits.as_str());
                        assert(out@ =~= old(out)@ + self.plain_text());
                    }
                }
            },
        }
    }

    /// Appends the literal form.
    pub fn push_literal(self, out: &mut String)
        ensures
            final(out)@ == old(out)@ + self.literal_text(),
    {
        match self {
            Number::Infinite { negative } => {
                if negative {
                    out.append("-1e999");
                } else {
                    out.append("1e999");
                }
            },
            Number::Finite { exponent, .. } => {
                self.push_plain(out);
                if exponent >= 0 {
                    out.push('.');
                    out.push('0');
                    assert(out@ =~= old(out)@ + self.literal_text());
                }
            },
            Number::Nan => {
                self.push_plain(out);
            },
        }
    }
}

/// Whether `m1 * 10^e1 < m2 * 10^e2`, scaled to the smaller of the exponents.
pub open spec fn scaled_lt(m1: int, e1: int, m2: int, e2: int) -> bool {
    let base = if e1 < e2 {
        e1
    } else {
        e2
    };
    m1 * pow10((e1 - base) as nat) < m2 * pow10((e2 - base) as nat)
}

/// The strict order on numbers. A number that is not a number is unordered,
/// and the two zeros are equal.
pub open spec fn number_lt(a: Number, b: Number) -> bool {
    match (a, b) {
        (Number::Nan, _) => false,
        (_, Number::Nan) => false,
        (Number::Infinite { negative: n1 }, Number::Infinite { negative: n2 }) => n1 && !n2,
        (Number::Infinite { negative }, Number::Finite { .. }) => negative,
        (Number::Finite { .. }, Number::Infinite { negative }) => !negative,
        (
            Number::Finite { negative: n1, mantissa: m1, exponent: e1 },
            Number::Finite { negative: n2, mantissa: m2, exponent: e2 },
        ) => scaled_lt(
            if n1 {
                -(m1 as int)
            } else {
                m1 as int
            },
            e1 as int,
            if n2 {
                -(m2 as int)
            } else {
                m2 as int
            },
            e2 as int,
        ),
    }
}

/// Whether two numbers denote the same value.
pub open spec fn number_eq(a: Number, b: Number) -> bool {
    !(a is Nan) && !(b is Nan) && !number_lt(a, b) && !number_lt(b, a)
}

/// A power of ten is positive.
pub proof fn lemma_pow10_positive(n: nat)
    ensures
        pow10(n) >= 1,
    decreases n,
{
    if n > 0 {
        lemma_pow10_positive((n - 1) as nat);
    }
}

/// A power of ten splits where its exponent does.
pub proof fn lemma_pow10_sum(a: nat, b: nat)
    ensures
        pow10(a + b) == pow10(a) * pow10(b),
    decreases a,
{
    if a > 0 {
        lemma_pow10_sum((a - 1) as nat, b);
        let x = pow10((a - 1) as nat) as int;
        let y = pow10(b) as int;
        assert((10 * x) * y == 10 * (x * y)) by (nonlinear_arith);
        assert((a + b - 1) as nat == (a - 1) as nat + b);
        assert(pow10(a) as int * y == (10 * x) * y);
    } else {
        assert(a + b == b);
        assert(pow10(a) * pow10(b) == pow10(b)) by (nonlinear_arith)
            requires
                pow10(a) == 1,
        ;
    }
}

proof fn lemma_pow10_monotonic(a: nat, b: nat)
    requires
        a <= b,
    ensures
        pow10(a) <= pow10(b),
    decreases b,
{
    if a < b {
        lemma_pow10_monotonic(a, (b - 1) as nat);
    }
}

proof fn lemma_digit_count_magnitude(n: nat)
    requires
        n >= 1,
    ensures
        pow10((digit_count(n) - 1) as nat) <= n < pow10(digit_count(n)),
    decreases n,
{
    if n >= 10 {
        lemma_digit_count_magnitude(n / 10);
    } else {
        reveal_with_fuel(pow10, 2);
    }
}

/// A magnitude whose leading digit stands lower is smaller.
proof fn lemma_leading_digit_decides(m1: nat, e1: int, m2: nat, e2: int)
    requires
        m1 >= 1,
        m2 >= 1,
        e1 + digit_count(m1) < e2 + digit_count(m2),
    ensures
        scaled_lt(m1 as int, e1, m2 as int, e2),
{
    let base = if e1 < e2 {
        e1
    } else {
        e2
    };
    let a = (e1 - base) as nat;
    let b = (e2 - base) as nat;
    let d1 = digit_count(m1);
    let d2 = digit_count(m2);
    lemma_digit_count_magnitude(m1);
    lemma_digit_count_magnitude(m2);
    lemma_pow10_positive(a);
    lemma_pow10_positive(b);
    lemma_pow10_sum(d1, a);
    lemma_pow10_sum((d2 - 1) as nat, b);
    lemma_pow10_monotonic(d1 + a, (d2 - 1) as nat + b);
    let pa = pow10(a) as int;
    let pb = pow10(b) as int;
    let x = pow10(d1) as int;
    let y = pow10((d2 - 1) as nat) as int;
    assert(m1 * pa < x * pa) by (nonlinear_arith)
        requires
            m1 < x,
            pa >= 1,
    ;
    assert(y * pb <= m2 * pb) by (nonlinear_arith)
        requires
            y <= m2,
            pb >= 1,
    ;
}

proof fn lemma_zero_product(a: int, b: int)
    ensures
        a == 0 ==> a * b == 0,
        a > 0 && b > 0 ==> a * b > 0,
        (-a) * b == -(a * b),
{
    assert(a == 0 ==> a * b == 0) by (nonlinear_arith);
    assert(a > 0 && b > 0 ==> a * b > 0) by (nonlinear_arith);
    assert((-a) * b == -(a * b)) by (nonlinear_arith);
}

fn power_of_ten(n: u32) -> (r: u128)
    requires
        n <= 19,
    ensures
        r == pow10(n as nat),
        r <= 10000000000000000000u128,
{
    proof {
        reveal_with_fuel(pow10, 20);
        lemma_pow10_monotonic(n as nat, 19);
    }
    let mut r: u128 = 1;
    let mut i: u32 = 0;
    while i < n
        invariant
            i <= n <= 19,
            r == pow10(i as nat),
            pow10(19) == 10000000000000000000,
        decreases n - i,
    {
        proof {
            lemma_pow10_monotonic((i + 1) as nat, 19);
        }
        r = r * 10;
        i += 1;
    }
    r
}

/// Whether `m1 * 10^e1 < m2 * 10^e2`.
fn magnitude_less(m1: u64, e1: i32, m2: u64, e2: i32) -> (r: bool)
    ensures
        r == scaled_lt(m1 as int, e1 as int, m2 as int, e2 as int),
{
    let ghost base = if e1 < e2 {
        e1 as int
    } else {
        e2 as int
    };
    proof {
        lemma_pow10_positive((e1 - base) as nat);
        lemma_pow10_positive((e2 - base) as nat);
        lemma_zero_product(m1 as int, pow10((e1 - base) as nat) as int);
        lemma_zero_product(m2 as int, pow10((e2 - base) as nat) as int);
    }
    if m1 == 0 {
        return m2 != 0;
    }
    if m2 == 0 {
        return false;
    }
    let d1: u32 = count_digits(m1);
    let d2: u32 = count_digits(m2);
    let l1: i64 = e1 as i64 + d1 as i64;
    let l2: i64 = e2 as i64 + d2 as i64;
    if l1 < l2 {
        proof {
            lemma_leading_digit_decides(m1 as nat, e1 as int, m2 as nat, e2 as int);
        }
        return true;
    }
    if l2 < l1 {
        proof {
            lemma_leading_digit_decides(m2 as nat, e2 as int, m1 as nat, e1 as int);
        }
        return false;
    }
    if e1 >= e2 {
        let shift: u32 = (e1 as i64 - e2 as i64) as u32;
        let p: u128 = power_of_ten(shift);
        assert(m1 * p <= 18446744073709551615 * 10000000000000000000) by (nonlinear_arith)
            requires
                m1 <= 18446744073709551615,
                0 <= p <= 10000000000000000000,
        ;
        assert(m2 * 1 == m2);
        (m1 as u128) * p < m2 as u128
    } else {
        let shift: u32 = (e2 as i64 - e1 as i64) as u32;
        let p: u128 = power_of_ten(shift);
        assert(m2 * p <= 18446744073709551615 * 10000000000000000000) by (nonlinear_arith)
            requires
                m2 <= 18446744073709551615,
                0 <= p <= 10000000000000000000,
        ;
        assert(m1 * 1 == m1);
        (m1 as u128) < (m2 as u128) * p
    }
}

impl Number {
    /// Whether this number is strictly below another.
    pub fn less(self, other: Number) -> (r: bool)
        ensures
            r == number_lt(self, other),
    {
        match (self, other) {
            (Number::Nan, _) => false,
            (_, Number::Nan) => false,
            (Number::Infinite { negative: n1 }, Number::Infinite { negative: n2 }) => n1 && !n2,
            (Number::Infinite { negative }, Number::Finite { .. }) => negative,
            (Number::Finite { .. }, Number::Infinite { negative }) => !negative,
            (
                Number::Finite { negative: n1, mantissa: m1, exponent: e1 },
                Number::Finite { negative: n2, mantissa: m2, exponent: e2 },
            ) => {
                let ghost base = if e1 < e2 {
                    e1 as int
                } else {
                    e2 as int
                };
                proof {
                    let p1 = pow10((e1 - base) as nat) as int;
                    let p2 = pow10((e2 - base) as nat) as int;
                    lemma_pow10_positive((e1 - base) as nat);
                    lemma_pow10_positive((e2 - base) as nat);
                    lemma_zero_product(m1 as int, p1);
                    lemma_zero_product(m2 as int, p2);
                }
                if n1 && n2 {
                    magnitude_less(m2, e2, m1, e1)
                } else if n1 {
                    m1 != 0 || m2 != 0
                } else if n2 {
                    false
                } else {
                    magnitude_less(m1, e1, m2, e2)
                }
            },
        }
    }

    /// Whether two numbers denote the same value.
    pub fn same(self, other: Number) -> (r: bool)
        ensures
            r == number_eq(self, other),
    {
        match (self, other) {
            (Number::Nan, _) => false,
            (_, Number::Nan) => false,
            _ => !self.less(other) && !other.less(self),
        }
    }
}

/// `n / d`, rounded to the nearest integer, ties to the even one.
pub open spec fn round_half_even(n: nat, d: nat) -> nat {
    let q = n / d;
    let r = n % d;
    if 2 * r < d || (2 * r == d && q % 2 == 0) {
        q
    } else {
        q + 1
    }
}

impl Number {
    /// The magnitude in hundredths, rounded, for a number below one in its last
    /// place.
    pub open spec fn hundredths(mantissa: nat, exponent: int) -> nat {
        if exponent >= -2 {
            mantissa * pow10((exponent + 2) as nat)
        } else {
            round_half_even(mantissa, pow10((-exponent - 2) as nat))
        }
    }

    /// The form with two decimals.
    pub open spec fn fixed_text(self) -> Seq<char> {
        match self {
            Number::Nan => "NaN"@,
            Number::Infinite { negative } => if negative {
                "-inf"@
            } else {
                "inf"@
            },
            Number::Finite { negative, mantissa, exponent } => {
                let sign = if negative {
                    seq!['-']
                } else {
                    Seq::<char>::empty()
                };
                if exponent >= 0 {
                    sign + nat_text(mantissa as nat) + zeros(exponent as nat) + ".00"@
                } else {
                    let h = Number::hundredths(mantissa as nat, exponent as int);
                    sign + nat_text(h / 100) + "."@ + nat_text((h / 10) % 10) + nat_text(h % 10)
                }
            },
        }
    }

    /// Appends the form with two decimals.
    pub fn push_fixed(self, out: &mut String)
        ensures
            final(out)@ == old(out)@ + self.fixed_text(),
    {
        match self {
            Number::Nan => {
                out.append("NaN");
            },
            Number::Infinite { negative } => {
                if negative {
                    out.append("-inf");
                } else {
                    out.append("inf");
                }
            },
            Number::Finite { negative, mantissa, exponent } => {
                if negative {
                    out.push('-');
                }
                if exponent >= 0 {
                    push_nat(out, mantissa);
                    push_zeros(out, exponent as u32);
                    out.append(".00");
                    assert(out@ =~= old(out)@ + self.fixed_text());
                } else {
                    let h: u128 = fixed_hundredths(mantissa, exponent);
                    push_nat(out, (h / 100) as u64);
                    out.append(".");
                    push_nat(out, ((h / 10) % 10) as u64);
                    push_nat(out, (h % 10) as u64);
                    assert(out@ =~= old(out)@ + self.fixed_text());
                }
            },
        }
    }
}

/// The magnitude of a fraction in hundredths, rounded.
fn fixed_hundredths(mantissa: u64, exponent: i32) -> (r: u128)
    requires
        exponent < 0,
    ensures
        r == Number::hundredths(mantissa as nat, exponent as int),
        r <= 184467440737095516150,
{
    if exponent == -1 {
        proof {
            reveal_with_fuel(pow10, 2);
        }
        return (mantissa as u128) * 10;
    }
    if exponent == -2 {
        proof {
            reveal_with_fuel(pow10, 1);
            assert(mantissa * 1 == mantissa);
        }
        return mantissa as u128;
    }
    let places: i64 = -(exponent as i64) - 2;
    if places >= 20 {
        proof {
            reveal_with_fuel(pow10, 21);
            lemma_pow10_monotonic(20, places as nat);
            let d = pow10(places as nat) as int;
            let m = mantissa as int;
            vstd::arithmetic::div_mod::lemma_small_mod(m as nat, d as nat);
            assert(m / d == 0) by (nonlinear_arith)
                requires
                    0 <= m < d,
            ;
        }
        return 0;
    }
    let d: u128 = power_of_ten(places as u32);
    proof {
        reveal_with_fuel(pow10, 2);
        lemma_pow10_monotonic(1, places as nat);
    }
    let q: u128 = mantissa as u128 / d;
    let r: u128 = mantissa as u128 % d;
    assert(q <= mantissa) by (nonlinear_arith)
        requires
            q == mantissa as u128 / d,
            d >= 1,
    ;
    if 2 * r < d || (2 * r == d && q % 2 == 0) {
        q
    } else {
        q + 1
    }
}

} // verus!
