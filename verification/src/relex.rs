//! Reading printed text back into tokens.
//!
//! Where a printed piece stands in a text, the lexer reads exactly the tokens
//! the piece is made of, and goes on behind it.

use vstd::prelude::*;

use crate::attribute::{escaped, escaped_char};
use crate::lexer::{
    digit_value, digits_end, digits_value, dotted_end, ident_end, is_digit, is_ident_continue,
    is_ident_start, is_punct, is_space, number_shape, significant, string_rest, token_at,
    tokens_from, trivia_end, TokView,
};
use crate::number::{digit_count, number_of, pow10, strip_zeros, zeros, Number};
use crate::text::{digit_char, int_text, nat_text, nat_text_length};

verus! {

/// Whether a text stands at a position of a longer one.
pub open spec fn stands(chars: Seq<char>, pos: int, text: Seq<char>) -> bool {
    &&& 0 <= pos
    &&& pos + text.len() <= chars.len()
    &&& forall|i: int| 0 <= i < text.len() ==> chars[pos + i] == #[trigger] text[i]
}

/// A text made of two parts stands where they stand one after the other.
pub proof fn stands_in_parts(chars: Seq<char>, pos: int, a: Seq<char>, b: Seq<char>)
    ensures
        stands(chars, pos, a + b) == (stands(chars, pos, a) && stands(chars, pos + a.len(), b)),
{
    if stands(chars, pos, a + b) {
        assert forall|i: int| 0 <= i < a.len() implies chars[pos + i] == #[trigger] a[i] by {
            assert((a + b)[i] == a[i]);
        }
        assert forall|i: int| 0 <= i < b.len() implies chars[pos + a.len() + i]
            == #[trigger] b[i] by {
            assert((a + b)[a.len() + i] == b[i]);
        }
    }
    if stands(chars, pos, a) && stands(chars, pos + a.len(), b) {
        assert forall|i: int| 0 <= i < (a + b).len() implies chars[pos + i]
            == #[trigger] (a + b)[i] by {
            if i < a.len() {
                assert((a + b)[i] == a[i]);
            } else {
                assert((a + b)[i] == b[i - a.len()]);
            }
        }
    }
}

/// Whether the lexer reads some tokens between two positions: what it reads
/// from the second on, it reads from the first on after them.
pub open spec fn yields(chars: Seq<char>, pos: int, out: Seq<TokView>, end: int) -> bool {
    &&& 0 <= pos <= end <= chars.len()
    &&& tokens_from(chars, end) is Ok ==> {
        let rest = tokens_from(chars, end)->Ok_0;
        let all = tokens_from(chars, pos)->Ok_0;
        &&& tokens_from(chars, pos) is Ok
        &&& all.len() == out.len() + rest.len()
        &&& forall|i: int| 0 <= i < out.len() ==> (#[trigger] all[i]).tok == out[i]
        &&& forall|i: int|
            out.len() <= i < all.len() ==> #[trigger] all[i] == rest[i - out.len()]
    }
}

/// No tokens are read between a position and itself.
pub proof fn yields_nothing(chars: Seq<char>, pos: int)
    requires
        0 <= pos <= chars.len(),
    ensures
        yields(chars, pos, Seq::empty(), pos),
{
}

/// Tokens that are read one after the other.
pub proof fn yields_both(
    chars: Seq<char>,
    p: int,
    a: Seq<TokView>,
    q: int,
    b: Seq<TokView>,
    r: int,
)
    requires
        yields(chars, p, a, q),
        yields(chars, q, b, r),
    ensures
        yields(chars, p, a + b, r),
{
    if tokens_from(chars, r) is Ok {
        let rest = tokens_from(chars, r)->Ok_0;
        let middle = tokens_from(chars, q)->Ok_0;
        let all = tokens_from(chars, p)->Ok_0;
        let out = a + b;
        assert forall|i: int| 0 <= i < out.len() implies (#[trigger] all[i]).tok == out[i] by {
            if i >= a.len() {
                assert(all[i] == middle[i - a.len()]);
                assert(middle[i - a.len()].tok == b[i - a.len()]);
            }
        }
        assert forall|i: int| out.len() <= i < all.len() implies #[trigger] all[i] == rest[i
            - out.len()] by {
            assert(all[i] == middle[i - a.len()]);
            assert(middle[i - a.len()] == rest[i - a.len() - b.len()]);
        }
    }
}

/// White space is skipped.
pub proof fn skips_space(chars: Seq<char>, pos: int)
    requires
        0 <= pos < chars.len(),
        is_space(chars[pos]),
    ensures
        yields(chars, pos, Seq::empty(), pos + 1),
{
    assert(trivia_end(chars, pos) == trivia_end(chars, pos + 1));
    crate::lexer::trivia_end_bounds(chars, pos + 1);
    let start = trivia_end(chars, pos);
    if start < chars.len() {
        crate::lexer::token_end_bounds(chars, start);
    }
    assert(tokens_from(chars, pos) == tokens_from(chars, pos + 1));
}

/// A text of white space is skipped.
pub proof fn skips_blank(chars: Seq<char>, pos: int, text: Seq<char>)
    requires
        stands(chars, pos, text),
        forall|i: int| 0 <= i < text.len() ==> is_space(#[trigger] text[i]),
    ensures
        yields(chars, pos, Seq::empty(), pos + text.len()),
    decreases text.len(),
{
    if text.len() > 0 {
        assert(chars[pos + 0] == text[0]);
        skips_space(chars, pos);
        let rest = text.drop_first();
        assert forall|i: int| 0 <= i < rest.len() implies chars[pos + 1 + i]
            == #[trigger] rest[i] && is_space(rest[i]) by {
            assert(rest[i] == text[i + 1]);
        }
        skips_blank(chars, pos + 1, rest);
        yields_both(chars, pos, Seq::empty(), pos + 1, Seq::empty(), pos + text.len());
        assert(Seq::<TokView>::empty() + Seq::<TokView>::empty() =~= Seq::empty());
    }
}

/// A token that starts at a position is read there.
pub proof fn reads_token(chars: Seq<char>, pos: int, tok: TokView, end: int)
    requires
        0 <= pos < chars.len(),
        !is_space(chars[pos]),
        chars[pos] != '/',
        token_at(chars, pos) == Ok::<(TokView, int), Seq<char>>((tok, end)),
    ensures
        yields(chars, pos, seq![tok], end),
{
    assert(trivia_end(chars, pos) == pos);
    crate::lexer::token_end_bounds(chars, pos);
}

/// Whether no identifier character follows.
pub open spec fn ends_word(chars: Seq<char>, pos: int) -> bool {
    pos >= chars.len() || (!is_ident_continue(chars[pos]) && chars[pos] != '.')
}

/// The characters of a name.
pub open spec fn is_name(s: Seq<char>) -> bool {
    s.len() > 0 && forall|i: int| 0 <= i < s.len() ==> is_ident_continue(#[trigger] s[i])
}

/// A name that does not start with a digit.
pub open spec fn is_word(s: Seq<char>) -> bool {
    is_name(s) && is_ident_start(s[0])
}

/// Where a run of identifier characters ends.
pub proof fn word_ends(chars: Seq<char>, pos: int, s: Seq<char>)
    requires
        stands(chars, pos, s),
        forall|i: int| 0 <= i < s.len() ==> is_ident_continue(#[trigger] s[i]),
        pos + s.len() >= chars.len() || !is_ident_continue(chars[(pos + s.len()) as int]),
    ensures
        ident_end(chars, pos) == pos + s.len(),
    decreases s.len(),
{
    if s.len() > 0 {
        assert(chars[pos + 0] == s[0]);
        let rest = s.drop_first();
        assert forall|i: int| 0 <= i < rest.len() implies chars[pos + 1 + i]
            == #[trigger] rest[i] && is_ident_continue(rest[i]) by {
            assert(rest[i] == s[i + 1]);
        }
        word_ends(chars, pos + 1, rest);
    }
}

/// What stands at a position is the part of the text there.
pub proof fn stands_as_part(chars: Seq<char>, pos: int, text: Seq<char>)
    requires
        stands(chars, pos, text),
    ensures
        chars.subrange(pos, pos + text.len()) == text,
{
    assert(chars.subrange(pos, pos + text.len()) =~= text);
}

/// A word is read as an identifier.
pub proof fn reads_word(chars: Seq<char>, pos: int, s: Seq<char>)
    requires
        stands(chars, pos, s),
        is_word(s),
        pos + s.len() >= chars.len() || !is_ident_continue(chars[(pos + s.len()) as int]),
    ensures
        yields(chars, pos, seq![TokView::Ident(s)], pos + s.len()),
{
    assert(chars[pos + 0] == s[0]);
    word_ends(chars, pos, s);
    stands_as_part(chars, pos, s);
    reads_token(chars, pos, TokView::Ident(s), pos + s.len());
}

/// The token of a name after a sigil.
pub open spec fn sigil_tok(sigil: char, s: Seq<char>) -> TokView {
    if sigil == '%' {
        TokView::Value(s)
    } else if sigil == '@' {
        TokView::Symbol(s)
    } else if sigil == '^' {
        TokView::Label(s)
    } else {
        TokView::Effect(s)
    }
}

/// A name after a sigil is read as one token.
pub proof fn reads_sigil(chars: Seq<char>, pos: int, sigil: char, s: Seq<char>)
    requires
        sigil == '%' || sigil == '@' || sigil == '^' || sigil == '#',
        stands(chars, pos, seq![sigil] + s),
        is_name(s),
        ends_word(chars, (pos + 1 + s.len()) as int),
    ensures
        yields(chars, pos, seq![sigil_tok(sigil, s)], pos + 1 + s.len()),
{
    stands_in_parts(chars, pos, seq![sigil], s);
    assert(chars[pos + 0] == seq![sigil][0]);
    word_ends(chars, pos + 1, s);
    stands_as_part(chars, pos + 1, s);
    reads_token(chars, pos, sigil_tok(sigil, s), pos + 1 + s.len());
}

/// A dotted name after an exclamation mark is read as a type name.
pub proof fn reads_type_name(chars: Seq<char>, pos: int, a: Seq<char>, b: Seq<char>)
    requires
        stands(chars, pos, seq!['!'] + (a + seq!['.'] + b)),
        is_word(a),
        is_word(b),
        ends_word(chars, (pos + 2 + a.len() + b.len()) as int),
    ensures
        yields(
            chars,
            pos,
            seq![TokView::TypeName(a + seq!['.'] + b)],
            pos + 2 + a.len() + b.len(),
        ),
{
    let name = a + seq!['.'] + b;
    stands_in_parts(chars, pos, seq!['!'], name);
    assert(chars[pos + 0] == seq!['!'][0]);
    stands_in_parts(chars, pos + 1, a + seq!['.'], b);
    stands_in_parts(chars, pos + 1, a, seq!['.']);
    let dot = pos + 1 + a.len();
    assert(chars[dot + 0] == seq!['.'][0]);
    word_ends(chars, pos + 1, a);
    assert(chars[dot + 1 + 0] == b[0]);
    word_ends(chars, dot + 1, b);
    let end = dot + 1 + b.len();
    assert(dotted_end(chars, end) == end);
    assert(dotted_end(chars, dot) == end);
    stands_as_part(chars, pos + 1, name);
    reads_token(chars, pos, TokView::TypeName(name), end);
}

/// A punctuation character is read as itself.
pub proof fn reads_punct(chars: Seq<char>, pos: int, c: char)
    requires
        is_punct(c),
        stands(chars, pos, seq![c]),
    ensures
        yields(chars, pos, seq![TokView::Punct(c)], pos + 1),
{
    assert(chars[pos + 0] == seq![c][0]);
    reads_token(chars, pos, TokView::Punct(c), pos + 1);
}

/// The escaped form of a string reads back as the string.
pub proof fn reads_escaped(chars: Seq<char>, pos: int, s: Seq<char>)
    requires
        stands(chars, pos, escaped(s) + seq!['"']),
    ensures
        string_rest(chars, pos) == Ok::<(Seq<char>, int), Seq<char>>(
            (s, pos + escaped(s).len() + 1),
        ),
    decreases s.len(),
{
    let quote = seq!['"'];
    if s.len() == 0 {
        assert(escaped(s) + quote =~= quote);
        assert(chars[pos + 0] == quote[0]);
        assert(s =~= Seq::empty());
    } else {
        let c = s[0];
        let rest = s.drop_first();
        let e = escaped_char(c);
        assert(escaped(s) + quote =~= e + (escaped(rest) + quote));
        stands_in_parts(chars, pos, e, escaped(rest) + quote);
        reads_escaped(chars, pos + e.len(), rest);
        assert(chars[pos + 0] == e[0]);
        if e.len() == 2 {
            assert(chars[pos + 1] == e[1]);
        }
        assert(seq![c] + rest =~= s);
    }
}

/// A string literal is read as the string.
pub proof fn reads_string(chars: Seq<char>, pos: int, s: Seq<char>)
    requires
        stands(chars, pos, seq!['"'] + escaped(s) + seq!['"']),
    ensures
        yields(chars, pos, seq![TokView::Str(s)], pos + escaped(s).len() + 2),
{
    assert(seq!['"'] + escaped(s) + seq!['"'] =~= seq!['"'] + (escaped(s) + seq!['"']));
    stands_in_parts(chars, pos, seq!['"'], escaped(s) + seq!['"']);
    assert(chars[pos + 0] == seq!['"'][0]);
    reads_escaped(chars, pos + 1, s);
    reads_token(chars, pos, TokView::Str(s), pos + escaped(s).len() + 2);
}

// ------------------------------------------------------------------ numbers

/// Whether a text holds digits only.
pub open spec fn all_digits(s: Seq<char>) -> bool {
    forall|i: int| 0 <= i < s.len() ==> is_digit(#[trigger] s[i])
}

/// Where a run of digits ends.
pub proof fn digits_stop(chars: Seq<char>, pos: int, s: Seq<char>)
    requires
        stands(chars, pos, s),
        all_digits(s),
        pos + s.len() >= chars.len() || !is_digit(chars[(pos + s.len()) as int]),
    ensures
        digits_end(chars, pos) == pos + s.len(),
    decreases s.len(),
{
    if s.len() > 0 {
        assert(chars[pos + 0] == s[0]);
        let rest = s.drop_first();
        assert forall|i: int| 0 <= i < rest.len() implies chars[pos + 1 + i]
            == #[trigger] rest[i] && is_digit(rest[i]) by {
            assert(rest[i] == s[i + 1]);
        }
        digits_stop(chars, pos + 1, rest);
    }
}

/// The decimal form of a number holds its digits.
pub proof fn decimals(n: nat)
    ensures
        all_digits(nat_text(n)),
        digits_value(nat_text(n)) == n,
        nat_text(n).len() == digit_count(n),
    decreases n,
{
    if n >= 10 {
        decimals(n / 10);
        let front = nat_text(n / 10);
        let whole = nat_text(n);
        assert(whole == front.push(digit_char((n % 10) as int)));
        assert(whole.drop_last() =~= front);
        assert forall|i: int| 0 <= i < whole.len() implies is_digit(#[trigger] whole[i]) by {
            if i < front.len() {
                assert(whole[i] == front[i]);
            }
        }
    } else {
        let whole = seq![digit_char(n as int)];
        assert(nat_text(n) == whole);
        assert(whole.drop_last() =~= Seq::empty());
        assert(digits_value(whole.drop_last()) == 0);
    }
}

/// The value of two runs of digits, one after the other.
pub proof fn joined_digits(a: Seq<char>, b: Seq<char>)
    ensures
        digits_value(a + b) == digits_value(a) * pow10(b.len()) + digits_value(b),
    decreases b.len(),
{
    if b.len() == 0 {
        assert(a + b =~= a);
        assert(pow10(0) == 1);
        let x = digits_value(a);
        assert(x * 1 == x) by (nonlinear_arith);
    } else {
        let front = b.drop_last();
        joined_digits(a, front);
        assert((a + b).drop_last() =~= a + front);
        assert((a + b).last() == b.last());
        let x = digits_value(a);
        let p = pow10(front.len());
        let y = digits_value(front);
        assert(pow10(b.len()) == 10 * p);
        assert((x * p + y) * 10 == x * (10 * p) + y * 10) by (nonlinear_arith);
        assert(digits_value(a + b) == (x * p + y) * 10 + digit_value(b.last()));
        assert(digits_value(b) == y * 10 + digit_value(b.last()));
    }
}

/// Zeros count for nothing.
pub proof fn zeros_are_zero(n: nat)
    ensures
        all_digits(zeros(n)),
        digits_value(zeros(n)) == 0,
    decreases n,
{
    if n > 0 {
        zeros_are_zero((n - 1) as nat);
        assert(zeros(n).drop_last() =~= zeros((n - 1) as nat));
    }
}

/// A run of digits that fits nineteen places is read in full.
pub proof fn all_significant(digits: Seq<char>)
    requires
        digits_value(digits) < 10000000000000000000,
    ensures
        significant(digits) == (digits_value(digits), 0nat),
    decreases digits.len(),
{
    if digits.len() > 0 {
        let v = digits_value(digits.drop_last());
        assert(digits_value(digits) == v * 10 + digit_value(digits.last()));
        assert(v < 1000000000000000000);
        all_significant(digits.drop_last());
    }
}

/// An integer is read as itself.
pub proof fn reads_int(chars: Seq<char>, pos: int, v: i64)
    requires
        stands(chars, pos, int_text(v as int)),
        ends_word(chars, (pos + int_text(v as int).len()) as int),
    ensures
        yields(chars, pos, seq![TokView::Int(v)], pos + int_text(v as int).len()),
{
    let negative = v < 0;
    let magnitude: nat = if negative {
        (-v) as nat
    } else {
        v as nat
    };
    let digits = nat_text(magnitude);
    let sign = if negative {
        seq!['-']
    } else {
        Seq::<char>::empty()
    };
    reveal_strlit("-");
    assert("-"@ =~= seq!['-']);
    assert(int_text(v as int) =~= sign + digits);
    stands_in_parts(chars, pos, sign, digits);
    decimals(magnitude);
    nat_text_length(magnitude);
    let whole = pos + sign.len();
    let end = whole + digits.len();
    if negative {
        assert(chars[pos + 0] == sign[0]);
    }
    assert(chars[whole + 0] == digits[0]);
    digits_stop(chars, whole, digits);
    stands_as_part(chars, whole, digits);
    let shape = number_shape(chars, pos);
    assert(shape.negative == negative);
    assert(shape.whole_end == end);
    assert(shape.fraction_end == end);
    assert(shape.exponent == end);
    reads_token(chars, pos, TokView::Int(v), end);
}

/// The digits of a number literal: those before the point, and those after it.
pub open spec fn literal_digits(n: Number) -> (Seq<char>, Seq<char>) {
    match n {
        Number::Finite { negative, mantissa, exponent } => {
            let digits = nat_text(mantissa as nat);
            if exponent >= 0 {
                (digits + zeros(exponent as nat), seq!['0'])
            } else if digits.len() > -exponent {
                (
                    digits.take(digits.len() + exponent),
                    digits.skip(digits.len() + exponent),
                )
            } else {
                (seq!['0'], zeros((-exponent - digits.len()) as nat) + digits)
            }
        },
        _ => (Seq::empty(), Seq::empty()),
    }
}

/// Whether a number can be read: it is infinite, or in its one representation
/// with at most nineteen digits.
pub open spec fn is_readable(n: Number) -> bool {
    n is Infinite || (n is Finite && n.normalized() && (n->mantissa as nat)
        < 10000000000000000000)
}

/// The literal form of a number is its sign, and its digits around a point.
proof fn literal_parts(n: Number)
    requires
        n is Finite,
    ensures
        ({
            let (whole, fraction) = literal_digits(n);
            let sign = if n->Finite_negative {
                seq!['-']
            } else {
                Seq::<char>::empty()
            };
            &&& n.literal_text() == sign + whole + (seq!['.'] + fraction)
            &&& all_digits(whole)
            &&& all_digits(fraction)
            &&& whole.len() > 0
            &&& fraction.len() > 0
        }),
{
    if let Number::Finite { negative, mantissa, exponent } = n {
        let digits = nat_text(mantissa as nat);
        let (whole, fraction) = literal_digits(n);
        let sign = if negative {
            seq!['-']
        } else {
            Seq::<char>::empty()
        };
        decimals(mantissa as nat);
        nat_text_length(mantissa as nat);
        if exponent >= 0 {
            zeros_are_zero(exponent as nat);
        } else if digits.len() <= -exponent {
            zeros_are_zero((-exponent - digits.len()) as nat);
        }
        assert(n.literal_text() =~= sign + whole + (seq!['.'] + fraction));
    }
}

/// Zeros behind a run of digits are read as far as nineteen places go, and
/// counted from there on.
proof fn trailing_zeros(s: Seq<char>, m: nat, k: nat) -> (j: nat)
    requires
        significant(s) == (m, 0nat),
    ensures
        j <= k,
        significant(s + zeros(k)) == (m * pow10(j), (k - j) as nat),
    decreases k,
{
    if k == 0 {
        assert(s + zeros(k) =~= s);
        assert(m * 1 == m) by (nonlinear_arith);
        0
    } else {
        let i = trailing_zeros(s, m, (k - 1) as nat);
        let all = s + zeros(k);
        assert(all.drop_last() =~= s + zeros((k - 1) as nat));
        assert(all.last() == '0');
        let v = m * pow10(i);
        if v < 1000000000000000000 {
            let p = pow10(i);
            assert(pow10(i + 1) == 10 * p);
            assert(m * (10 * p) == m * p * 10) by (nonlinear_arith);
            i + 1
        } else {
            i
        }
    }
}

/// Scaling the digits of a number and its power of ten alike changes nothing.
proof fn scaling_changes_nothing(m: nat, k: nat, e: int)
    ensures
        m != 0 ==> strip_zeros(m * pow10(k), e - k) == strip_zeros(m, e),
        m == 0 ==> strip_zeros(m * pow10(k), e - k) == (0nat, 0int),
    decreases k,
{
    if k > 0 {
        let p = pow10((k - 1) as nat);
        assert(pow10(k) == 10 * p);
        assert(m * (10 * p) == 10 * (m * p)) by (nonlinear_arith);
        scaling_changes_nothing(m, (k - 1) as nat, e);
        if m != 0 {
            pow10_positive((k - 1) as nat);
            assert(m * p > 0) by (nonlinear_arith)
                requires
                    m > 0,
                    p > 0,
            ;
            let x = 10 * (m * p);
            assert(x % 10 == 0);
            assert(x / 10 == m * p);
            assert(strip_zeros(x, e - k) == strip_zeros(x / 10, e - k + 1));
        } else {
            assert(0 * p == 0) by (nonlinear_arith);
        }
    } else {
        assert(m * 1 == m);
    }
}

/// Powers of ten are positive.
pub proof fn pow10_positive(n: nat)
    ensures
        pow10(n) > 0,
    decreases n,
{
    if n > 0 {
        pow10_positive((n - 1) as nat);
    }
}

/// The digits of a literal give back the number.
proof fn literal_value(n: Number)
    requires
        is_readable(n),
        n is Finite,
    ensures
        ({
            let (whole, fraction) = literal_digits(n);
            let (m, dropped) = significant(whole + fraction);
            number_of(n->Finite_negative, m, dropped - fraction.len()) == n
        }),
{
    if let Number::Finite { negative, mantissa, exponent } = n {
        let m = mantissa as nat;
        let digits = nat_text(m);
        let (whole, fraction) = literal_digits(n);
        decimals(m);
        all_significant(digits);
        if exponent >= 0 {
            let e = exponent as nat;
            assert(whole + fraction =~= digits + zeros(e + 1));
            let j = trailing_zeros(digits, m, e + 1);
            scaling_changes_nothing(m, j, e as int);
            if m == 0 {
                assert(strip_zeros(m, e as int) == (0nat, 0int));
            }
        } else if digits.len() > -exponent {
            assert(whole + fraction =~= digits);
        } else {
            let z = (-exponent - digits.len()) as nat;
            zeros_are_zero(z);
            let lead = seq!['0'];
            assert(lead.drop_last() =~= Seq::empty());
            assert(digits_value(lead.drop_last()) == 0);
            assert(digits_value(lead) == 0);
            joined_digits(zeros(z), digits);
            joined_digits(lead, fraction);
            let p = pow10(digits.len());
            let q = pow10(fraction.len());
            assert(0 * p == 0) by (nonlinear_arith);
            assert(0 * q == 0) by (nonlinear_arith);
            assert(digits_value(whole + fraction) == m);
            all_significant(whole + fraction);
        }
    }
}

/// The literal form of an infinite number is read as that number.
proof fn reads_infinite(chars: Seq<char>, pos: int, negative: bool)
    requires
        stands(chars, pos, Number::Infinite { negative }.literal_text()),
        ends_word(
            chars,
            (pos + Number::Infinite { negative }.literal_text().len()) as int,
        ),
    ensures
        yields(
            chars,
            pos,
            seq![TokView::Float(Number::Infinite { negative })],
            pos + Number::Infinite { negative }.literal_text().len(),
        ),
{
    let n = Number::Infinite { negative };
    reveal_strlit("1e999");
    reveal_strlit("-1e999");
    let sign = if negative {
        seq!['-']
    } else {
        Seq::<char>::empty()
    };
    let one = seq!['1'];
    let mark = seq!['e'];
    let power = seq!['9', '9', '9'];
    assert(n.literal_text() =~= sign + one + mark + power);
    stands_in_parts(chars, pos, sign + one + mark, power);
    stands_in_parts(chars, pos, sign + one, mark);
    stands_in_parts(chars, pos, sign, one);
    let start = pos + sign.len();
    if negative {
        assert(chars[pos + 0] == sign[0]);
    }
    assert(chars[start + 0] == one[0]);
    assert(chars[start + 1 + 0] == mark[0]);
    assert(chars[start + 2 + 0] == power[0]);
    digits_stop(chars, start, one);
    digits_stop(chars, start + 2, power);
    stands_as_part(chars, start, one);
    stands_as_part(chars, start + 2, power);
    let shape = number_shape(chars, pos);
    assert(shape.whole_end == start + 1);
    assert(shape.fraction_end == start + 1);
    assert(shape.exponent == start + 2);
    assert(shape.end == start + 5);
    reveal_with_fuel(digits_value, 4);
    assert(power.drop_last().drop_last().drop_last() =~= Seq::empty());
    assert(digits_value(power) == 999);
    assert(one + Seq::<char>::empty() =~= one);
    assert(one.drop_last() =~= Seq::empty());
    reveal_with_fuel(significant, 2);
    assert(significant(one) == (1nat, 0nat));
    assert(strip_zeros(1, 999) == (1nat, 999int));
    assert(digit_count(1) == 1);
    reads_token(chars, pos, TokView::Float(n), start + 5);
}

/// The literal form of a readable number is read as that number.
pub proof fn reads_number(chars: Seq<char>, pos: int, n: Number)
    requires
        is_readable(n),
        stands(chars, pos, n.literal_text()),
        ends_word(chars, (pos + n.literal_text().len()) as int),
    ensures
        yields(chars, pos, seq![TokView::Float(n)], pos + n.literal_text().len()),
{
    if let Number::Infinite { negative } = n {
        reads_infinite(chars, pos, negative);
    } else {
        literal_parts(n);
        literal_value(n);
        let (whole, fraction) = literal_digits(n);
        let negative = n->Finite_negative;
        let sign = if negative {
            seq!['-']
        } else {
            Seq::<char>::empty()
        };
        stands_in_parts(chars, pos, sign + whole, seq!['.'] + fraction);
        stands_in_parts(chars, pos, sign, whole);
        let start = pos + sign.len();
        let point = start + whole.len();
        let end = pos + n.literal_text().len();
        if negative {
            assert(chars[pos + 0] == sign[0]);
        }
        assert(chars[start + 0] == whole[0]);
        stands_as_part(chars, start, whole);
        let shape = number_shape(chars, pos);
        assert(shape.negative == negative);
        stands_in_parts(chars, point, seq!['.'], fraction);
        assert(chars[point + 0] == seq!['.'][0]);
        assert(chars[point + 1 + 0] == fraction[0]);
        digits_stop(chars, start, whole);
        digits_stop(chars, point + 1, fraction);
        stands_as_part(chars, point + 1, fraction);
        assert(shape.whole_end == point);
        assert(shape.fraction_end == end);
        assert(shape.exponent == end);
        reads_token(chars, pos, TokView::Float(n), end);
    }
}

/// Parsing a printed number yields the same number: the literal form of every
/// number that can be read is one token, which is that number as a float.
pub proof fn literals_read_back(n: Number)
    requires
        is_readable(n),
    ensures
        tokens_from(n.literal_text(), 0) matches Ok(toks) && toks.len() == 2 && toks[0].tok
            == TokView::Float(n) && toks[1].tok == TokView::Eof,
{
    let text = n.literal_text();
    reads_number(text, 0, n);
}

} // verus!
