//! Tokenizer for the Agent IR textual syntax.

use vstd::prelude::*;
use vstd::string::*;

use crate::number::{number_of, Number};
use crate::text::{chars_of, int_text, nat_text, push_int, push_nat, slice_text};

verus! {

/// A position in the source, for diagnostics.
#[derive(Clone, Copy, Debug, PartialEq, Eq, Structural)]
pub struct Span {
    /// 1-based line.
    pub line: u32,
    /// 1-based column, in characters.
    pub column: u32,
}

impl Default for Span {
    /// The position before any text.
    fn default() -> (r: Span)
        ensures
            r == (Span { line: 0, column: 0 }),
    {
        Span { line: 0, column: 0 }
    }
}

impl Span {
    /// The printed form of the position.
    pub open spec fn text(self) -> Seq<char> {
        nat_text(self.line as nat) + ":"@ + nat_text(self.column as nat)
    }

    /// Appends the printed form of the position.
    pub fn push_text(self, out: &mut String)
        ensures
            final(out)@ == old(out)@ + self.text(),
    {
        push_nat(out, self.line as u64);
        out.append(":");
        push_nat(out, self.column as u64);
        assert(out@ =~= old(out)@ + self.text());
    }

    /// The printed form of the position.
    pub fn to_string(&self) -> (r: String)
        ensures
            r@ == self.text(),
    {
        let mut out = String::new();
        self.push_text(&mut out);
        assert(out@ =~= self.text());
        out
    }
}

/// A lexical token.
#[derive(Debug, PartialEq)]
pub enum Tok {
    /// A bare identifier or keyword.
    Ident(String),
    /// `%name`.
    Value(String),
    /// `@name`.
    Symbol(String),
    /// `^name`.
    Label(String),
    /// `#name`.
    Effect(String),
    /// `!dialect.name`.
    TypeName(String),
    /// An integer literal.
    Int(i64),
    /// A floating point literal.
    Float(Number),
    /// A string literal, already unescaped.
    Str(String),
    /// One of `{ } ( ) [ ] < > : , = * .`
    Punct(char),
    /// End of input.
    Eof,
}

/// The mathematical content of a [`Tok`].
#[verifier::ext_equal]
pub ghost enum TokView {
    Ident(Seq<char>),
    Value(Seq<char>),
    Symbol(Seq<char>),
    Label(Seq<char>),
    Effect(Seq<char>),
    TypeName(Seq<char>),
    Int(i64),
    Float(Number),
    Str(Seq<char>),
    Punct(char),
    Eof,
}

impl View for Tok {
    type V = TokView;

    open spec fn view(&self) -> TokView {
        match self {
            Tok::Ident(s) => TokView::Ident(s@),
            Tok::Value(s) => TokView::Value(s@),
            Tok::Symbol(s) => TokView::Symbol(s@),
            Tok::Label(s) => TokView::Label(s@),
            Tok::Effect(s) => TokView::Effect(s@),
            Tok::TypeName(s) => TokView::TypeName(s@),
            Tok::Int(v) => TokView::Int(*v),
            Tok::Float(v) => TokView::Float(*v),
            Tok::Str(s) => TokView::Str(s@),
            Tok::Punct(c) => TokView::Punct(*c),
            Tok::Eof => TokView::Eof,
        }
    }
}

impl TokView {
    /// How the token is described in an error message.
    pub open spec fn text(self) -> Seq<char> {
        match self {
            TokView::Ident(s) => "`"@ + s + "`"@,
            TokView::Value(s) => "`%"@ + s + "`"@,
            TokView::Symbol(s) => "`@"@ + s + "`"@,
            TokView::Label(s) => "`^"@ + s + "`"@,
            TokView::Effect(s) => "`#"@ + s + "`"@,
            TokView::TypeName(s) => "`!"@ + s + "`"@,
            TokView::Int(v) => "`"@ + int_text(v as int) + "`"@,
            TokView::Float(v) => "`"@ + v.plain_text() + "`"@,
            TokView::Str(s) => "string `"@ + s + "`"@,
            TokView::Punct(c) => "`"@ + seq![c] + "`"@,
            TokView::Eof => "end of input"@,
        }
    }
}

fn quote(prefix: &str, s: &str) -> (r: String)
    ensures
        r@ == prefix@ + s@ + "`"@,
{
    let mut out = String::from_str(prefix);
    out.append(s);
    out.append("`");
    out
}

impl Tok {
    /// How the token is described in an error message.
    pub fn to_string(&self) -> (r: String)
        ensures
            r@ == self@.text(),
    {
        match self {
            Tok::Ident(s) => quote("`", s.as_str()),
            Tok::Value(s) => quote("`%", s.as_str()),
            Tok::Symbol(s) => quote("`@", s.as_str()),
            Tok::Label(s) => quote("`^", s.as_str()),
            Tok::Effect(s) => quote("`#", s.as_str()),
            Tok::TypeName(s) => quote("`!", s.as_str()),
            Tok::Int(v) => {
                let mut out = String::from_str("`");
                push_int(&mut out, *v);
                out.append("`");
                out
            },
            Tok::Float(v) => {
                let mut out = String::from_str("`");
                v.push_plain(&mut out);
                out.append("`");
                out
            },
            Tok::Str(s) => quote("string `", s.as_str()),
            Tok::Punct(c) => {
                let mut out = String::from_str("`");
                out.push(*c);
                assert(out@ =~= "`"@ + seq![*c]);
                out.append("`");
                out
            },
            Tok::Eof => String::from_str("end of input"),
        }
    }
}

impl Clone for Tok {
    /// A copy of the token.
    fn clone(&self) -> (r: Tok)
        ensures
            r@ == self@,
    {
        match self {
            Tok::Ident(s) => Tok::Ident(s.clone()),
            Tok::Value(s) => Tok::Value(s.clone()),
            Tok::Symbol(s) => Tok::Symbol(s.clone()),
            Tok::Label(s) => Tok::Label(s.clone()),
            Tok::Effect(s) => Tok::Effect(s.clone()),
            Tok::TypeName(s) => Tok::TypeName(s.clone()),
            Tok::Int(v) => Tok::Int(*v),
            Tok::Float(v) => Tok::Float(*v),
            Tok::Str(s) => Tok::Str(s.clone()),
            Tok::Punct(c) => Tok::Punct(*c),
            Tok::Eof => Tok::Eof,
        }
    }
}

/// A token together with where it came from.
#[derive(Debug, PartialEq)]
pub struct Token {
    /// What was read.
    pub tok: Tok,
    /// Where it was read.
    pub span: Span,
}

/// The mathematical content of a [`Token`].
#[verifier::ext_equal]
pub ghost struct TokenView {
    pub tok: TokView,
    pub span: Span,
}

impl View for Token {
    type V = TokenView;

    open spec fn view(&self) -> TokenView {
        TokenView { tok: self.tok@, span: self.span }
    }
}

impl Clone for Token {
    /// A copy of the token.
    fn clone(&self) -> (r: Token)
        ensures
            r@ == self@,
    {
        Token { tok: self.tok.clone(), span: self.span }
    }
}

/// The content of each token of a list.
pub open spec fn token_views(tokens: Seq<Token>) -> Seq<TokenView> {
    Seq::new(tokens.len(), |i: int| tokens[i]@)
}

/// A lexing failure.
#[derive(Debug, PartialEq)]
pub struct LexError {
    /// What went wrong.
    pub message: String,
    /// Where it went wrong.
    pub span: Span,
}

/// The mathematical content of a failure: what went wrong, and where.
#[verifier::ext_equal]
pub ghost struct ErrorView {
    pub message: Seq<char>,
    pub span: Span,
}

impl View for LexError {
    type V = ErrorView;

    open spec fn view(&self) -> ErrorView {
        ErrorView { message: self.message@, span: self.span }
    }
}

impl Clone for LexError {
    /// A copy of the failure.
    fn clone(&self) -> (r: LexError)
        ensures
            r@ == self@,
    {
        LexError { message: self.message.clone(), span: self.span }
    }
}

impl LexError {
    /// The printed form of the failure.
    pub fn to_string(&self) -> (r: String)
        ensures
            r@ == self.span.text() + ": "@ + self.message@,
    {
        let mut out = self.span.to_string();
        out.append(": ");
        out.append(self.message.as_str());
        out
    }
}

/// The line a position is on: one more than the line breaks before it.
pub open spec fn line_at(chars: Seq<char>, pos: int) -> nat
    decreases pos,
{
    if pos <= 0 {
        1
    } else {
        line_at(chars, pos - 1) + if chars[pos - 1] == '\n' {
            1nat
        } else {
            0
        }
    }
}

/// The column a position is at: one more than the characters since the last
/// line break.
pub open spec fn column_at(chars: Seq<char>, pos: int) -> nat
    decreases pos,
{
    if pos <= 0 || chars[pos - 1] == '\n' {
        1
    } else {
        column_at(chars, pos - 1) + 1
    }
}

/// The source position of a character.
pub open spec fn span_at(chars: Seq<char>, pos: int) -> Span {
    Span { line: line_at(chars, pos) as u32, column: column_at(chars, pos) as u32 }
}

/// The white space characters.
pub open spec fn is_space(c: char) -> bool {
    ||| '\u{9}' <= c <= '\u{d}'
    ||| c == ' '
    ||| c == '\u{85}'
    ||| c == '\u{a0}'
    ||| c == '\u{1680}'
    ||| '\u{2000}' <= c <= '\u{200a}'
    ||| c == '\u{2028}'
    ||| c == '\u{2029}'
    ||| c == '\u{202f}'
    ||| c == '\u{205f}'
    ||| c == '\u{3000}'
}

/// The decimal digits.
pub open spec fn is_digit(c: char) -> bool {
    '0' <= c <= '9'
}

/// The characters an identifier starts with.
pub open spec fn is_ident_start(c: char) -> bool {
    'a' <= c <= 'z' || 'A' <= c <= 'Z' || c == '_'
}

/// The characters an identifier continues with.
pub open spec fn is_ident_continue(c: char) -> bool {
    is_ident_start(c) || is_digit(c)
}

/// The punctuation characters.
pub open spec fn is_punct(c: char) -> bool {
    c == '{' || c == '}' || c == '(' || c == ')' || c == '[' || c == ']' || c == '<' || c == '>'
        || c == ':' || c == ',' || c == '=' || c == '*' || c == '.'
}

/// The end of the line a position is on.
pub open spec fn line_end(chars: Seq<char>, pos: int) -> int
    decreases chars.len() - pos,
{
    if pos >= chars.len() || chars[pos] == '\n' {
        pos
    } else {
        line_end(chars, pos + 1)
    }
}

/// Where the white space and the comments at a position end.
pub open spec fn trivia_end(chars: Seq<char>, pos: int) -> int
    decreases chars.len() - pos,
    via trivia_end_decreases
{
    if pos >= chars.len() {
        pos
    } else if is_space(chars[pos]) {
        trivia_end(chars, pos + 1)
    } else if chars[pos] == '/' && pos + 1 < chars.len() && chars[pos + 1] == '/' {
        trivia_end(chars, line_end(chars, pos))
    } else {
        pos
    }
}

#[via_fn]
proof fn trivia_end_decreases(chars: Seq<char>, pos: int) {
    if pos < chars.len() && chars[pos] == '/' {
        line_end_bounds(chars, pos);
        line_end_bounds(chars, pos + 1);
    }
}

/// The end of a line is within the text.
pub proof fn line_end_bounds(chars: Seq<char>, pos: int)
    requires
        pos <= chars.len(),
    ensures
        pos <= line_end(chars, pos) <= chars.len(),
    decreases chars.len() - pos,
{
    if pos < chars.len() && chars[pos] != '\n' {
        line_end_bounds(chars, pos + 1);
    }
}

/// Where the identifier characters at a position end.
pub open spec fn ident_end(chars: Seq<char>, pos: int) -> int
    decreases chars.len() - pos,
{
    if pos >= chars.len() || !is_ident_continue(chars[pos]) {
        pos
    } else {
        ident_end(chars, pos + 1)
    }
}

/// Where the digits at a position end.
pub open spec fn digits_end(chars: Seq<char>, pos: int) -> int
    decreases chars.len() - pos,
{
    if pos >= chars.len() || !is_digit(chars[pos]) {
        pos
    } else {
        digits_end(chars, pos + 1)
    }
}

/// Where the dotted parts at a position end: each is a dot and an identifier.
pub open spec fn dotted_end(chars: Seq<char>, pos: int) -> int
    decreases chars.len() - pos,
    via dotted_end_decreases
{
    if pos + 1 < chars.len() && chars[pos] == '.' && is_ident_start(chars[pos + 1]) {
        dotted_end(chars, ident_end(chars, pos + 1))
    } else {
        pos
    }
}

#[via_fn]
proof fn dotted_end_decreases(chars: Seq<char>, pos: int) {
    if pos + 1 < chars.len() {
        ident_end_bounds(chars, pos + 1);
    }
}

pub proof fn ident_end_bounds(chars: Seq<char>, pos: int)
    requires
        pos <= chars.len(),
    ensures
        pos <= ident_end(chars, pos) <= chars.len(),
    decreases chars.len() - pos,
{
    if pos < chars.len() && is_ident_continue(chars[pos]) {
        ident_end_bounds(chars, pos + 1);
    }
}

pub proof fn digits_end_bounds(chars: Seq<char>, pos: int)
    requires
        pos <= chars.len(),
    ensures
        pos <= digits_end(chars, pos) <= chars.len(),
        forall|i: int| pos <= i < digits_end(chars, pos) ==> is_digit(#[trigger] chars[i]),
    decreases chars.len() - pos,
{
    if pos < chars.len() && is_digit(chars[pos]) {
        digits_end_bounds(chars, pos + 1);
    }
}

proof fn dotted_end_bounds(chars: Seq<char>, pos: int)
    requires
        pos <= chars.len(),
    ensures
        pos <= dotted_end(chars, pos) <= chars.len(),
    decreases chars.len() - pos,
{
    if pos + 1 < chars.len() && chars[pos] == '.' && is_ident_start(chars[pos + 1]) {
        ident_end_bounds(chars, pos + 1);
        dotted_end_bounds(chars, ident_end(chars, pos + 1));
    }
}

/// The end of trivia is within the text.
pub proof fn trivia_end_bounds(chars: Seq<char>, pos: int)
    requires
        pos <= chars.len(),
    ensures
        pos <= trivia_end(chars, pos) <= chars.len(),
    decreases chars.len() - pos,
{
    if pos < chars.len() {
        if is_space(chars[pos]) {
            trivia_end_bounds(chars, pos + 1);
        } else if chars[pos] == '/' && pos + 1 < chars.len() && chars[pos + 1] == '/' {
            line_end_bounds(chars, pos + 1);
            trivia_end_bounds(chars, line_end(chars, pos));
        }
    }
}

/// The character an escape stands for.
pub open spec fn unescaped(c: char) -> Option<char> {
    if c == 'n' {
        Some('\n')
    } else if c == 't' {
        Some('\t')
    } else if c == 'r' {
        Some('\r')
    } else if c == '"' {
        Some('"')
    } else if c == '\\' {
        Some('\\')
    } else {
        None
    }
}

/// Reads the rest of a string literal: its characters and the position after
/// the closing quote, or what is wrong with it.
pub open spec fn string_rest(chars: Seq<char>, pos: int) -> Result<(Seq<char>, int), Seq<char>>
    decreases chars.len() - pos,
{
    if pos >= chars.len() {
        Err("unterminated string literal"@)
    } else if chars[pos] == '"' {
        Ok((Seq::empty(), pos + 1))
    } else if chars[pos] == '\\' {
        if pos + 1 >= chars.len() {
            Err("unterminated escape"@)
        } else {
            match unescaped(chars[pos + 1]) {
                None => Err("unknown escape `\\"@ + seq![chars[pos + 1]] + "`"@),
                Some(c) => prepend_char(c, string_rest(chars, pos + 2)),
            }
        }
    } else {
        prepend_char(chars[pos], string_rest(chars, pos + 1))
    }
}

/// The rest of a literal with one more character in front.
pub open spec fn prepend_char(c: char, rest: Result<(Seq<char>, int), Seq<char>>) -> Result<
    (Seq<char>, int),
    Seq<char>,
> {
    prepend_text(seq![c], rest)
}

/// The rest of a literal with some text in front.
pub open spec fn prepend_text(
    text: Seq<char>,
    rest: Result<(Seq<char>, int), Seq<char>>,
) -> Result<(Seq<char>, int), Seq<char>> {
    match rest {
        Ok((s, end)) => Ok((text + s, end)),
        Err(message) => Err(message),
    }
}

/// The value of a digit.
pub open spec fn digit_value(c: char) -> nat {
    (c as int - 48) as nat
}

/// The value of a run of digits.
pub open spec fn digits_value(digits: Seq<char>) -> nat
    decreases digits.len(),
{
    if digits.len() == 0 {
        0
    } else {
        digits_value(digits.drop_last()) * 10 + digit_value(digits.last())
    }
}

/// The leading digits of a run that fit nineteen places, and how many digits
/// follow them.
pub open spec fn significant(digits: Seq<char>) -> (nat, nat)
    decreases digits.len(),
{
    if digits.len() == 0 {
        (0, 0)
    } else {
        let (m, dropped) = significant(digits.drop_last());
        if m < 1000000000000000000 {
            (m * 10 + digit_value(digits.last()), dropped)
        } else {
            (m, dropped + 1)
        }
    }
}

/// The value of an exponent; it stops growing at `10^18`.
pub open spec fn exponent_value(digits: Seq<char>) -> nat {
    if digits_value(digits) > 1000000000000000000 {
        1000000000000000000
    } else {
        digits_value(digits)
    }
}

/// Where the parts of a number literal end.
pub ghost struct NumberShape {
    /// Whether the literal starts with a minus sign.
    pub negative: bool,
    /// Where the integer digits start.
    pub whole: int,
    /// Where they end.
    pub whole_end: int,
    /// Where the fraction ends; it starts with a dot and has a digit.
    pub fraction_end: int,
    /// Where the exponent digits start, if there is an exponent.
    pub exponent: int,
    /// Where the literal ends.
    pub end: int,
}

/// The parts of the number literal at a position.
pub open spec fn number_shape(chars: Seq<char>, pos: int) -> NumberShape {
    let negative = pos < chars.len() && chars[pos] == '-';
    let whole = if negative {
        pos + 1
    } else {
        pos
    };
    let whole_end = digits_end(chars, whole);
    let fraction_end = if whole_end + 1 < chars.len() && chars[whole_end] == '.' && is_digit(
        chars[whole_end + 1],
    ) {
        digits_end(chars, whole_end + 1)
    } else {
        whole_end
    };
    let exponent = exponent_start(chars, fraction_end);
    NumberShape {
        negative,
        whole,
        whole_end,
        fraction_end,
        exponent,
        end: if exponent > fraction_end {
            digits_end(chars, exponent)
        } else {
            fraction_end
        },
    }
}

/// Where the digits of the exponent at a position start; the position itself
/// when there is none.
pub open spec fn exponent_start(chars: Seq<char>, pos: int) -> int {
    if pos < chars.len() && (chars[pos] == 'e' || chars[pos] == 'E') {
        let sign = pos + 1 < chars.len() && (chars[pos + 1] == '+' || chars[pos + 1] == '-');
        let digits = if sign {
            pos + 2
        } else {
            pos + 1
        };
        if digits < chars.len() && is_digit(chars[digits]) {
            digits
        } else {
            pos
        }
    } else {
        pos
    }
}

/// The token a number literal of a shape denotes, or what is wrong with it.
///
/// A literal with a fraction or an exponent is a float; any other is an
/// integer, and has to fit 64 bits.
pub open spec fn number_token(chars: Seq<char>, pos: int, shape: NumberShape) -> Result<
    TokView,
    Seq<char>,
> {
    if shape.end > shape.whole_end {
        let fraction = if shape.fraction_end > shape.whole_end {
            chars.subrange(shape.whole_end + 1, shape.fraction_end)
        } else {
            Seq::empty()
        };
        let (m, dropped) = significant(
            chars.subrange(shape.whole, shape.whole_end) + fraction,
        );
        let exponent: int = if shape.exponent > shape.fraction_end {
            let value = exponent_value(chars.subrange(shape.exponent, shape.end));
            if chars[shape.exponent - 1] == '-' {
                -value
            } else {
                value as int
            }
        } else {
            0
        };
        Ok(
            TokView::Float(
                number_of(shape.negative, m, exponent + dropped - fraction.len()),
            ),
        )
    } else {
        let magnitude = digits_value(chars.subrange(shape.whole, shape.whole_end));
        let value: int = if shape.negative {
            -magnitude
        } else {
            magnitude as int
        };
        if i64::MIN <= value <= i64::MAX {
            Ok(TokView::Int(value as i64))
        } else {
            Err("`"@ + chars.subrange(pos, shape.end) + "` does not fit in an i64"@)
        }
    }
}

/// Reads the number literal at a position.
pub open spec fn number_at(chars: Seq<char>, pos: int) -> Result<(TokView, int), Seq<char>> {
    let shape = number_shape(chars, pos);
    match number_token(chars, pos, shape) {
        Ok(tok) => Ok((tok, shape.end)),
        Err(message) => Err(message),
    }
}

/// Reads the name after a sigil, or reports that there is none.
pub open spec fn named_at(chars: Seq<char>, pos: int, missing: Seq<char>) -> Result<
    (Seq<char>, int),
    Seq<char>,
> {
    let end = ident_end(chars, pos + 1);
    if end == pos + 1 {
        Err(missing)
    } else {
        Ok((chars.subrange(pos + 1, end), end))
    }
}

/// The end of the type name at a position: an identifier and dotted parts.
pub open spec fn type_name_end(chars: Seq<char>, pos: int) -> int {
    dotted_end(chars, ident_end(chars, pos))
}

/// Reads the token at a position that holds no trivia.
pub open spec fn token_at(chars: Seq<char>, pos: int) -> Result<(TokView, int), Seq<char>> {
    let c = chars[pos];
    if c == '"' {
        match string_rest(chars, pos + 1) {
            Ok((s, end)) => Ok((TokView::Str(s), end)),
            Err(message) => Err(message),
        }
    } else if c == '%' {
        match named_at(chars, pos, "`%` must be followed by a value name"@) {
            Ok((s, end)) => Ok((TokView::Value(s), end)),
            Err(message) => Err(message),
        }
    } else if c == '@' {
        match named_at(chars, pos, "`@` must be followed by a symbol name"@) {
            Ok((s, end)) => Ok((TokView::Symbol(s), end)),
            Err(message) => Err(message),
        }
    } else if c == '^' {
        match named_at(chars, pos, "`^` must be followed by a block label"@) {
            Ok((s, end)) => Ok((TokView::Label(s), end)),
            Err(message) => Err(message),
        }
    } else if c == '#' {
        match named_at(chars, pos, "`#` must be followed by an effect name"@) {
            Ok((s, end)) => Ok((TokView::Effect(s), end)),
            Err(message) => Err(message),
        }
    } else if c == '!' {
        let end = type_name_end(chars, pos + 1);
        if end == pos + 1 {
            Err("`!` must be followed by a type name"@)
        } else {
            Ok((TokView::TypeName(chars.subrange(pos + 1, end)), end))
        }
    } else if is_digit(c) || (c == '-' && pos + 1 < chars.len() && is_digit(chars[pos + 1])) {
        number_at(chars, pos)
    } else if is_ident_start(c) {
        let end = ident_end(chars, pos);
        Ok((TokView::Ident(chars.subrange(pos, end)), end))
    } else if is_punct(c) {
        Ok((TokView::Punct(c), pos + 1))
    } else {
        Err("unexpected character `"@ + seq![c] + "`"@)
    }
}

/// The tokens of the source from a position on, ending with the end of input,
/// or the first failure.
pub open spec fn tokens_from(chars: Seq<char>, pos: int) -> Result<Seq<TokenView>, ErrorView>
    decreases chars.len() - pos,
{
    let start = trivia_end(chars, pos);
    let span = span_at(chars, start);
    if start >= chars.len() {
        Ok(seq![TokenView { tok: TokView::Eof, span }])
    } else {
        match token_at(chars, start) {
            Err(message) => Err(ErrorView { message, span }),
            Ok((tok, end)) => if pos < end <= chars.len() {
                prepend_tokens(seq![TokenView { tok, span }], tokens_from(chars, end))
            } else {
                arbitrary()
            },
        }
    }
}

/// A token stream with some tokens in front.
pub open spec fn prepend_tokens(
    tokens: Seq<TokenView>,
    rest: Result<Seq<TokenView>, ErrorView>,
) -> Result<Seq<TokenView>, ErrorView> {
    match rest {
        Ok(more) => Ok(tokens + more),
        Err(e) => Err(e),
    }
}

/// Where a token ends: past where it starts, and within the source.
pub proof fn token_end_bounds(chars: Seq<char>, pos: int)
    requires
        0 <= pos < chars.len(),
    ensures
        token_at(chars, pos) matches Ok((tok, end)) ==> pos < end <= chars.len(),
{
    let c = chars[pos];
    ident_end_bounds(chars, pos + 1);
    if c == '"' {
        string_rest_bounds(chars, pos + 1);
    } else if c == '!' {
        dotted_end_bounds(chars, ident_end(chars, pos + 1));
    } else if is_digit(c) || (c == '-' && pos + 1 < chars.len() && is_digit(chars[pos + 1])) {
        number_shape_bounds(chars, pos);
    } else if is_ident_start(c) {
        assert(ident_end(chars, pos) == ident_end(chars, pos + 1));
    }
}

proof fn string_rest_bounds(chars: Seq<char>, pos: int)
    requires
        0 <= pos <= chars.len(),
    ensures
        string_rest(chars, pos) matches Ok((s, end)) ==> pos < end <= chars.len(),
    decreases chars.len() - pos,
{
    if pos < chars.len() && chars[pos] != '"' {
        if chars[pos] == '\\' {
            if pos + 1 < chars.len() {
                string_rest_bounds(chars, pos + 2);
            }
        } else {
            string_rest_bounds(chars, pos + 1);
        }
    }
}

proof fn number_shape_bounds(chars: Seq<char>, pos: int)
    requires
        0 <= pos < chars.len(),
        is_digit(chars[pos]) || (chars[pos] == '-' && pos + 1 < chars.len() && is_digit(
            chars[pos + 1],
        )),
    ensures
        ({
            let shape = number_shape(chars, pos);
            &&& pos <= shape.whole < shape.whole_end <= shape.fraction_end <= shape.end
                <= chars.len()
            &&& shape.fraction_end <= shape.exponent <= shape.end
            &&& shape.exponent > shape.fraction_end ==> shape.end > shape.exponent
            &&& shape.fraction_end > shape.whole_end ==> shape.fraction_end > shape.whole_end + 1
        }),
{
    let shape = number_shape(chars, pos);
    digits_end_bounds(chars, shape.whole);
    digits_end_bounds(chars, shape.whole + 1);
    if shape.whole_end + 1 < chars.len() {
        digits_end_bounds(chars, shape.whole_end + 1);
        if is_digit(chars[shape.whole_end + 1]) {
            digits_end_bounds(chars, shape.whole_end + 2);
        }
    }
    if shape.exponent > shape.fraction_end {
        digits_end_bounds(chars, shape.exponent);
        digits_end_bounds(chars, shape.exponent + 1);
    }
}

proof fn lemma_span_bounds(chars: Seq<char>, pos: int)
    ensures
        pos >= 0 ==> 1 <= line_at(chars, pos) <= pos + 1,
        pos >= 0 ==> 1 <= column_at(chars, pos) <= pos + 1,
    decreases pos,
{
    if pos > 0 {
        lemma_span_bounds(chars, pos - 1);
    }
}

pub(crate) fn is_space_char(c: char) -> (r: bool)
    ensures
        r == is_space(c),
{
    ('\u{9}' <= c && c <= '\u{d}') || c == ' ' || c == '\u{85}' || c == '\u{a0}' || c == '\u{1680}'
        || ('\u{2000}' <= c && c <= '\u{200a}') || c == '\u{2028}' || c == '\u{2029}' || c
        == '\u{202f}' || c == '\u{205f}' || c == '\u{3000}'
}

fn is_digit_char(c: char) -> (r: bool)
    ensures
        r == is_digit(c),
{
    '0' <= c && c <= '9'
}

fn starts_ident(c: char) -> (r: bool)
    ensures
        r == is_ident_start(c),
{
    ('a' <= c && c <= 'z') || ('A' <= c && c <= 'Z') || c == '_'
}

fn continues_ident(c: char) -> (r: bool)
    ensures
        r == is_ident_continue(c),
{
    starts_ident(c) || is_digit_char(c)
}

fn is_punct_char(c: char) -> (r: bool)
    ensures
        r == is_punct(c),
{
    c == '{' || c == '}' || c == '(' || c == ')' || c == '[' || c == ']' || c == '<' || c == '>'
        || c == ':' || c == ',' || c == '=' || c == '*' || c == '.'
}

/// The value of the digits of a slice: exact up to `2^63`, and unknown beyond.
fn read_magnitude(chars: &Vec<char>, from: usize, to: usize) -> (r: Option<u64>)
    requires
        from <= to <= chars@.len(),
        forall|i: int| from <= i < to ==> is_digit(#[trigger] chars@[i]),
    ensures
        match r {
            Some(v) => v == digits_value(chars@.subrange(from as int, to as int)),
            None => digits_value(chars@.subrange(from as int, to as int)) > 9223372036854775808,
        },
{
    let mut acc: u64 = 0;
    let mut fits = true;
    let mut i: usize = from;
    while i < to
        invariant
            from <= i <= to <= chars@.len(),
            forall|i: int| from <= i < to ==> is_digit(#[trigger] chars@[i]),
            fits ==> acc == digits_value(chars@.subrange(from as int, i as int)),
            !fits ==> digits_value(chars@.subrange(from as int, i as int)) > 9223372036854775808,
        decreases to - i,
    {
        let digit: u64 = chars[i] as u64 - 48;
        let ghost prefix = chars@.subrange(from as int, i + 1);
        assert(prefix.drop_last() =~= chars@.subrange(from as int, i as int));
        if fits && acc <= 922337203685477580 {
            acc = acc * 10 + digit;
        } else {
            fits = false;
        }
        i += 1;
    }
    if fits {
        Some(acc)
    } else {
        None
    }
}

/// The value of the exponent digits of a slice.
fn read_exponent(chars: &Vec<char>, from: usize, to: usize) -> (r: u64)
    requires
        from <= to <= chars@.len(),
        forall|i: int| from <= i < to ==> is_digit(#[trigger] chars@[i]),
    ensures
        r == exponent_value(chars@.subrange(from as int, to as int)),
        r <= 1000000000000000000,
{
    let mut acc: u64 = 0;
    let mut i: usize = from;
    while i < to
        invariant
            from <= i <= to <= chars@.len(),
            forall|i: int| from <= i < to ==> is_digit(#[trigger] chars@[i]),
            acc == exponent_value(chars@.subrange(from as int, i as int)),
            acc <= 1000000000000000000,
        decreases to - i,
    {
        let digit: u64 = chars[i] as u64 - 48;
        let ghost prefix = chars@.subrange(from as int, i + 1);
        assert(prefix.drop_last() =~= chars@.subrange(from as int, i as int));
        acc = acc * 10 + digit;
        if acc > 1000000000000000000 {
            acc = 1000000000000000000;
        }
        i += 1;
    }
    acc
}

/// Continues a significand over the digits of a slice.
fn read_significand(chars: &Vec<char>, from: usize, to: usize, m: u64, dropped: u64, Ghost(
    before,
): Ghost<Seq<char>>) -> (r: (u64, u64))
    requires
        from <= to <= chars@.len(),
        chars@.len() < u32::MAX,
        forall|i: int| from <= i < to ==> is_digit(#[trigger] chars@[i]),
        (m as nat, dropped as nat) == significant(before),
        m < 10000000000000000000,
        dropped <= u32::MAX,
    ensures
        (r.0 as nat, r.1 as nat) == significant(
            before + chars@.subrange(from as int, to as int),
        ),
        r.0 < 10000000000000000000,
        r.1 <= dropped + (to - from),
{
    let mut mantissa: u64 = m;
    let mut extra: u64 = dropped;
    let mut i: usize = from;
    assert(before + chars@.subrange(from as int, from as int) =~= before);
    while i < to
        invariant
            from <= i <= to <= chars@.len(),
            chars@.len() < u32::MAX,
            forall|i: int| from <= i < to ==> is_digit(#[trigger] chars@[i]),
            (mantissa as nat, extra as nat) == significant(
                before + chars@.subrange(from as int, i as int),
            ),
            mantissa < 10000000000000000000,
            dropped <= u32::MAX,
            extra <= dropped + (i - from),
        decreases to - i,
    {
        let digit: u64 = chars[i] as u64 - 48;
        let ghost prefix = before + chars@.subrange(from as int, i + 1);
        assert(prefix.drop_last() =~= before + chars@.subrange(from as int, i as int));
        assert(prefix.last() == chars@[i as int]);
        if mantissa < 1000000000000000000 {
            mantissa = mantissa * 10 + digit;
        } else {
            extra += 1;
        }
        i += 1;
    }
    (mantissa, extra)
}

/// Where the parts of a number literal end.
struct NumberParts {
    negative: bool,
    whole: usize,
    whole_end: usize,
    fraction_end: usize,
    exponent: usize,
    negative_exponent: bool,
    end: usize,
}

impl View for NumberParts {
    type V = NumberShape;

    closed spec fn view(&self) -> NumberShape {
        NumberShape {
            negative: self.negative,
            whole: self.whole as int,
            whole_end: self.whole_end as int,
            fraction_end: self.fraction_end as int,
            exponent: self.exponent as int,
            end: self.end as int,
        }
    }
}

/// The token a number literal denotes.
fn number_from(chars: &Vec<char>, start: usize, parts: NumberParts) -> (r: Result<Tok, String>)
    requires
        start < chars@.len() < u32::MAX,
        is_digit(chars@[start as int]) || (chars@[start as int] == '-' && start + 1 < chars@.len()
            && is_digit(chars@[start + 1])),
        parts@ == number_shape(chars@, start as int),
        parts.exponent > parts.fraction_end ==> parts.negative_exponent == (
        chars@[parts.exponent - 1] == '-'),
    ensures
        match r {
            Ok(tok) => number_token(chars@, start as int, parts@) == Ok::<TokView, Seq<char>>(
                tok@,
            ),
            Err(message) => number_token(chars@, start as int, parts@) == Err::<
                TokView,
                Seq<char>,
            >(message@),
        },
{
    let ghost cs = chars@;
    let ghost shape = parts@;
    proof {
        number_shape_bounds(cs, start as int);
        digits_end_bounds(cs, shape.whole);
    }
    if parts.end > parts.whole_end {
        let ghost none = Seq::<char>::empty();
        let fraction = parts.fraction_end > parts.whole_end;
        let (m1, d1) = read_significand(chars, parts.whole, parts.whole_end, 0, 0, Ghost(none));
        let ghost wholes = cs.subrange(shape.whole, shape.whole_end);
        assert(none + wholes =~= wholes);
        let (m, dropped) = if fraction {
            proof {
                digits_end_bounds(cs, shape.whole_end + 1);
            }
            read_significand(
                chars,
                parts.whole_end + 1,
                parts.fraction_end,
                m1,
                d1,
                Ghost(wholes),
            )
        } else {
            assert(wholes + none =~= wholes);
            (m1, d1)
        };
        let places: usize = if fraction {
            parts.fraction_end - parts.whole_end - 1
        } else {
            0
        };
        let scale: i128 = if parts.exponent > parts.fraction_end {
            proof {
                digits_end_bounds(cs, shape.exponent);
            }
            let value: u64 = read_exponent(chars, parts.exponent, parts.end);
            if parts.negative_exponent {
                -(value as i128)
            } else {
                value as i128
            }
        } else {
            0
        };
        Ok(Tok::Float(Number::new(parts.negative, m, scale + dropped as i128 - places as i128)))
    } else {
        match read_magnitude(chars, parts.whole, parts.whole_end) {
            Some(v) => {
                if parts.negative && v <= 9223372036854775808 {
                    if v == 9223372036854775808 {
                        return Ok(Tok::Int(i64::MIN));
                    }
                    return Ok(Tok::Int(-(v as i64)));
                }
                if !parts.negative && v <= 9223372036854775807 {
                    return Ok(Tok::Int(v as i64));
                }
            },
            None => {},
        }
        let mut message = String::from_str("`");
        message.append(slice_text(chars, start, parts.end).as_str());
        message.append("` does not fit in an i64");
        Err(message)
    }
}

struct Lexer {
    chars: Vec<char>,
    pos: usize,
    line: u32,
    column: u32,
}

impl Lexer {
    spec fn wf(self) -> bool {
        &&& self.pos <= self.chars@.len()
        &&& self.chars@.len() < u32::MAX
        &&& self.line == line_at(self.chars@, self.pos as int)
        &&& self.column == column_at(self.chars@, self.pos as int)
    }

    /// Whether the lexer moved to a position of the same source.
    spec fn moved(self, to: Lexer, pos: int) -> bool {
        to.wf() && to.chars == self.chars && to.pos == pos
    }

    fn new(source: &str) -> (r: Lexer)
        requires
            source@.len() < u32::MAX,
        ensures
            r.wf(),
            r.chars@ == source@,
            r.pos == 0,
    {
        Lexer { chars: chars_of(source), pos: 0, line: 1, column: 1 }
    }

    fn span(&self) -> (r: Span)
        requires
            self.wf(),
        ensures
            r == span_at(self.chars@, self.pos as int),
    {
        Span { line: self.line, column: self.column }
    }

    fn peek(&self) -> (r: Option<char>)
        requires
            self.wf(),
        ensures
            r == if self.pos < self.chars@.len() {
                Some(self.chars@[self.pos as int])
            } else {
                None
            },
    {
        if self.pos < self.chars.len() {
            Some(self.chars[self.pos])
        } else {
            None
        }
    }

    fn peek_at(&self, offset: usize) -> (r: Option<char>)
        requires
            self.wf(),
            offset <= 2,
        ensures
            r == if self.pos + offset < self.chars@.len() {
                Some(self.chars@[self.pos + offset])
            } else {
                None
            },
    {
        if offset < self.chars.len() - self.pos {
            Some(self.chars[self.pos + offset])
        } else {
            None
        }
    }

    fn bump(&mut self) -> (r: Option<char>)
        requires
            old(self).wf(),
        ensures
            old(self).pos < old(self).chars@.len() ==> r == Some(
                old(self).chars@[old(self).pos as int],
            ) && old(self).moved(*final(self), old(self).pos + 1),
            old(self).pos >= old(self).chars@.len() ==> r is None && *final(self) == *old(self),
    {
        if self.pos >= self.chars.len() {
            return None;
        }
        let c = self.chars[self.pos];
        proof {
            lemma_span_bounds(self.chars@, self.pos as int);
        }
        self.pos += 1;
        if c == '\n' {
            self.line += 1;
            self.column = 1;
        } else {
            self.column += 1;
        }
        Some(c)
    }

    fn skip_line(&mut self)
        requires
            old(self).wf(),
        ensures
            old(self).moved(*final(self), line_end(old(self).chars@, old(self).pos as int)),
    {
        while self.pos < self.chars.len() && self.chars[self.pos] != '\n'
            invariant
                self.wf(),
                self.chars == old(self).chars,
                line_end(self.chars@, self.pos as int) == line_end(
                    old(self).chars@,
                    old(self).pos as int,
                ),
            decreases self.chars@.len() - self.pos,
        {
            self.bump();
        }
    }

    fn skip_trivia(&mut self)
        requires
            old(self).wf(),
        ensures
            old(self).moved(*final(self), trivia_end(old(self).chars@, old(self).pos as int)),
    {
        let mut done = false;
        while !done
            invariant
                self.wf(),
                self.chars == old(self).chars,
                trivia_end(self.chars@, self.pos as int) == trivia_end(
                    old(self).chars@,
                    old(self).pos as int,
                ),
                done ==> trivia_end(self.chars@, self.pos as int) == self.pos,
            decreases self.chars@.len() - self.pos, (if done { 0int } else { 1int }),
        {
            match self.peek() {
                Some(c) => {
                    if is_space_char(c) {
                        self.bump();
                    } else if c == '/' && self.peek_at(1) == Some('/') {
                        proof {
                            line_end_bounds(self.chars@, self.pos + 1);
                        }
                        self.skip_line();
                    } else {
                        done = true;
                    }
                },
                None => {
                    done = true;
                },
            }
        }
    }

    fn skip_ident(&mut self)
        requires
            old(self).wf(),
        ensures
            old(self).moved(*final(self), ident_end(old(self).chars@, old(self).pos as int)),
            final(self).pos >= old(self).pos,
    {
        while self.pos < self.chars.len() && continues_ident(self.chars[self.pos])
            invariant
                self.wf(),
                self.chars == old(self).chars,
                self.pos >= old(self).pos,
                ident_end(self.chars@, self.pos as int) == ident_end(
                    old(self).chars@,
                    old(self).pos as int,
                ),
            decreases self.chars@.len() - self.pos,
        {
            self.bump();
        }
    }

    fn skip_digits(&mut self)
        requires
            old(self).wf(),
        ensures
            old(self).moved(*final(self), digits_end(old(self).chars@, old(self).pos as int)),
            final(self).pos >= old(self).pos,
    {
        while self.pos < self.chars.len() && is_digit_char(self.chars[self.pos])
            invariant
                self.wf(),
                self.chars == old(self).chars,
                self.pos >= old(self).pos,
                digits_end(self.chars@, self.pos as int) == digits_end(
                    old(self).chars@,
                    old(self).pos as int,
                ),
            decreases self.chars@.len() - self.pos,
        {
            self.bump();
        }
    }

    fn read_ident(&mut self) -> (r: String)
        requires
            old(self).wf(),
        ensures
            old(self).moved(*final(self), ident_end(old(self).chars@, old(self).pos as int)),
            final(self).pos >= old(self).pos,
            r@ == old(self).chars@.subrange(old(self).pos as int, final(self).pos as int),
    {
        let start: usize = self.pos;
        self.skip_ident();
        slice_text(&self.chars, start, self.pos)
    }

    /// Reads a dotted name, as used by type names: `core.tensor`.
    fn read_dotted(&mut self) -> (r: String)
        requires
            old(self).wf(),
        ensures
            old(self).moved(*final(self), type_name_end(old(self).chars@, old(self).pos as int)),
            final(self).pos >= old(self).pos,
            r@ == old(self).chars@.subrange(old(self).pos as int, final(self).pos as int),
    {
        let start: usize = self.pos;
        self.skip_ident();
        let mut done = false;
        while !done
            invariant
                self.wf(),
                self.chars == old(self).chars,
                start == old(self).pos,
                self.pos >= start,
                dotted_end(self.chars@, self.pos as int) == type_name_end(
                    old(self).chars@,
                    start as int,
                ),
                done ==> dotted_end(self.chars@, self.pos as int) == self.pos,
            decreases self.chars@.len() - self.pos, (if done { 0int } else { 1int }),
        {
            let mut more = false;
            if let Some(c) = self.peek() {
                if c == '.' {
                    if let Some(next) = self.peek_at(1) {
                        more = starts_ident(next);
                    }
                }
            }
            if more {
                self.bump();
                self.skip_ident();
            } else {
                done = true;
            }
        }
        slice_text(&self.chars, start, self.pos)
    }

    /// Reads a name after its sigil.
    fn read_named(&mut self, missing: &str) -> (r: Result<String, String>)
        requires
            old(self).wf(),
            old(self).pos < old(self).chars@.len(),
        ensures
            final(self).wf(),
            final(self).chars == old(self).chars,
            match r {
                Ok(name) => named_at(old(self).chars@, old(self).pos as int, missing@) == Ok::<
                    (Seq<char>, int),
                    Seq<char>,
                >((name@, final(self).pos as int)),
                Err(message) => named_at(old(self).chars@, old(self).pos as int, missing@)
                    == Err::<(Seq<char>, int), Seq<char>>(message@),
            },
    {
        self.bump();
        let start: usize = self.pos;
        let name = self.read_ident();
        if self.pos == start {
            Err(String::from_str(missing))
        } else {
            Ok(name)
        }
    }

    fn read_string(&mut self) -> (r: Result<String, String>)
        requires
            old(self).wf(),
            old(self).pos < old(self).chars@.len(),
        ensures
            final(self).wf(),
            final(self).chars == old(self).chars,
            match r {
                Ok(s) => string_rest(old(self).chars@, old(self).pos + 1) == Ok::<
                    (Seq<char>, int),
                    Seq<char>,
                >((s@, final(self).pos as int)),
                Err(message) => string_rest(old(self).chars@, old(self).pos + 1) == Err::<
                    (Seq<char>, int),
                    Seq<char>,
                >(message@),
            },
    {
        self.bump();  // opening quote
        let mut out = String::new();
        let ghost total = string_rest(self.chars@, self.pos as int);
        proof {
            if let Ok((s, end)) = total {
                assert(out@ + s =~= s);
            }
        }
        loop
            invariant
                self.wf(),
                self.chars == old(self).chars,
                total == string_rest(old(self).chars@, old(self).pos + 1),
                total == prepend_text(out@, string_rest(self.chars@, self.pos as int)),
            decreases self.chars@.len() - self.pos,
        {
            let ghost before = out@;
            let ghost rest = string_rest(self.chars@, self.pos as int);
            match self.bump() {
                None => {
                    return Err(String::from_str("unterminated string literal"));
                },
                Some(c) => {
                    if c == '"' {
                        assert(out@ + Seq::<char>::empty() =~= out@);
                        return Ok(out);
                    } else if c == '\\' {
                        match self.bump() {
                            None => {
                                return Err(String::from_str("unterminated escape"));
                            },
                            Some(e) => {
                                if e == 'n' {
                                    out.push('\n');
                                } else if e == 't' {
                                    out.push('\t');
                                } else if e == 'r' {
                                    out.push('\r');
                                } else if e == '"' {
                                    out.push('"');
                                } else if e == '\\' {
                                    out.push('\\');
                                } else {
                                    let mut message = String::from_str("unknown escape `\\");
                                    message.push(e);
                                    assert(message@ =~= "unknown escape `\\"@ + seq![e]);
                                    message.append("`");
                                    return Err(message);
                                }
                            },
                        }
                    } else {
                        out.push(c);
                    }
                },
            }
            proof {
                if let Ok((s, end)) = string_rest(self.chars@, self.pos as int) {
                    assert(before + (seq![out@.last()] + s) =~= out@ + s);
                }
            }
        }
    }

    fn read_number(&mut self) -> (r: Result<Tok, String>)
        requires
            old(self).wf(),
            old(self).pos < old(self).chars@.len(),
            is_digit(old(self).chars@[old(self).pos as int]) || (old(self).chars@[old(self).pos as int] == '-' && old(self).pos + 1 < old(self).chars@.len() && is_digit(
                old(self).chars@[old(self).pos + 1],
            )),
        ensures
            final(self).wf(),
            final(self).chars == old(self).chars,
            match r {
                Ok(tok) => number_at(old(self).chars@, old(self).pos as int) == Ok::<
                    (TokView, int),
                    Seq<char>,
                >((tok@, final(self).pos as int)),
                Err(message) => number_at(old(self).chars@, old(self).pos as int) == Err::<
                    (TokView, int),
                    Seq<char>,
                >(message@),
            },
    {
        let start: usize = self.pos;
        let ghost cs = self.chars@;
        let ghost shape = number_shape(cs, start as int);
        proof {
            number_shape_bounds(cs, start as int);
        }
        let negative = self.chars[self.pos] == '-';
        if negative {
            self.bump();
        }
        let whole: usize = self.pos;
        self.skip_digits();
        let whole_end: usize = self.pos;
        // A `.` only continues the number when a digit follows, so `1.foo`
        // cannot swallow the dot of a dotted name.
        let mut fraction = false;
        if self.peek() == Some('.') {
            if let Some(c) = self.peek_at(1) {
                fraction = is_digit_char(c);
            }
        }
        if fraction {
            self.bump();
            self.skip_digits();
        }
        let fraction_end: usize = self.pos;
        assert(whole == shape.whole && whole_end == shape.whole_end);
        assert(fraction_end == shape.fraction_end);
        let mut exponent: usize = fraction_end;
        let mut negative_exponent = false;
        if self.peek() == Some('e') || self.peek() == Some('E') {
            let sign = self.peek_at(1);
            let signed = sign == Some('+') || sign == Some('-');
            let offset: usize = if signed {
                2
            } else {
                1
            };
            if let Some(c) = self.peek_at(offset) {
                // Otherwise `1e` is an integer followed by a name.
                if is_digit_char(c) {
                    negative_exponent = sign == Some('-');
                    self.bump();
                    if signed {
                        self.bump();
                    }
                    exponent = self.pos;
                    self.skip_digits();
                }
            }
        }
        let parts = NumberParts {
            negative,
            whole,
            whole_end,
            fraction_end,
            exponent,
            negative_exponent,
            end: self.pos,
        };
        assert(parts@ == shape);
        number_from(&self.chars, start, parts)
    }

    /// Reads the token at the current position, which holds no trivia.
    fn read_token(&mut self) -> (r: Result<Tok, String>)
        requires
            old(self).wf(),
            old(self).pos < old(self).chars@.len(),
        ensures
            final(self).wf(),
            final(self).chars == old(self).chars,
            match r {
                Ok(tok) => token_at(old(self).chars@, old(self).pos as int) == Ok::<
                    (TokView, int),
                    Seq<char>,
                >((tok@, final(self).pos as int)),
                Err(message) => token_at(old(self).chars@, old(self).pos as int) == Err::<
                    (TokView, int),
                    Seq<char>,
                >(message@),
            },
    {
        let c = self.chars[self.pos];
        if c == '"' {
            match self.read_string() {
                Ok(s) => Ok(Tok::Str(s)),
                Err(e) => Err(e),
            }
        } else if c == '%' {
            match self.read_named("`%` must be followed by a value name") {
                Ok(s) => Ok(Tok::Value(s)),
                Err(e) => Err(e),
            }
        } else if c == '@' {
            match self.read_named("`@` must be followed by a symbol name") {
                Ok(s) => Ok(Tok::Symbol(s)),
                Err(e) => Err(e),
            }
        } else if c == '^' {
            match self.read_named("`^` must be followed by a block label") {
                Ok(s) => Ok(Tok::Label(s)),
                Err(e) => Err(e),
            }
        } else if c == '#' {
            match self.read_named("`#` must be followed by an effect name") {
                Ok(s) => Ok(Tok::Effect(s)),
                Err(e) => Err(e),
            }
        } else if c == '!' {
            self.bump();
            let start: usize = self.pos;
            let name = self.read_dotted();
            if self.pos == start {
                Err(String::from_str("`!` must be followed by a type name"))
            } else {
                Ok(Tok::TypeName(name))
            }
        } else if is_digit_char(c) {
            self.read_number()
        } else {
            if c == '-' {
                if let Some(next) = self.peek_at(1) {
                    if is_digit_char(next) {
                        return self.read_number();
                    }
                }
            }
            if starts_ident(c) {
                Ok(Tok::Ident(self.read_ident()))
            } else if is_punct_char(c) {
                self.bump();
                Ok(Tok::Punct(c))
            } else {
                let mut message = String::from_str("unexpected character `");
                message.push(c);
                assert(message@ =~= "unexpected character `"@ + seq![c]);
                message.append("`");
                Err(message)
            }
        }
    }

    fn run(self) -> (r: Result<Vec<Token>, LexError>)
        requires
            self.wf(),
            self.pos == 0,
        ensures
            match r {
                Ok(tokens) => tokens_from(self.chars@, 0) == Ok::<Seq<TokenView>, ErrorView>(
                    token_views(tokens@),
                ) && 1 <= tokens@.len() <= self.chars@.len() + 1,
                Err(e) => tokens_from(self.chars@, 0) == Err::<Seq<TokenView>, ErrorView>(e@),
            },
    {
        let mut lexer = self;
        let ghost total = tokens_from(self.chars@, 0);
        let mut tokens: Vec<Token> = Vec::new();
        proof {
            if let Ok(ts) = total {
                assert(token_views(tokens@) + ts =~= ts);
            }
        }
        loop
            invariant
                lexer.wf(),
                lexer.chars == self.chars,
                total == tokens_from(self.chars@, 0),
                total == prepend_tokens(
                    token_views(tokens@),
                    tokens_from(lexer.chars@, lexer.pos as int),
                ),
                tokens@.len() <= lexer.pos,
            decreases lexer.chars@.len() - lexer.pos,
        {
            let ghost before = token_views(tokens@);
            let ghost pos = lexer.pos as int;
            proof {
                trivia_end_bounds(lexer.chars@, pos);
            }
            lexer.skip_trivia();
            let span = lexer.span();
            if lexer.pos >= lexer.chars.len() {
                tokens.push(Token { tok: Tok::Eof, span });
                assert(token_views(tokens@) =~= before + seq![tokens@.last()@]);
                return Ok(tokens);
            }
            proof {
                token_end_bounds(lexer.chars@, lexer.pos as int);
            }
            match lexer.read_token() {
                Ok(tok) => {
                    tokens.push(Token { tok, span });
                    proof {
                        let one = seq![tokens@.last()@];
                        assert(token_views(tokens@) =~= before + one);
                        if let Ok(rest) = tokens_from(lexer.chars@, lexer.pos as int) {
                            assert(before + (one + rest) =~= token_views(tokens@) + rest);
                        }
                    }
                },
                Err(message) => {
                    return Err(LexError { message, span });
                },
            }
        }
    }
}

/// Turns source text into a token stream, ending with [`Tok::Eof`].
pub fn tokenize(source: &str) -> (r: Result<Vec<Token>, LexError>)
    requires
        source@.len() < u32::MAX,
    ensures
        match r {
            Ok(tokens) => tokens_from(source@, 0) == Ok::<Seq<TokenView>, ErrorView>(
                token_views(tokens@),
            ) && 1 <= tokens@.len() <= source@.len() + 1,
            Err(e) => tokens_from(source@, 0) == Err::<Seq<TokenView>, ErrorView>(e@),
        },
{
    Lexer::new(source).run()
}

/// A token stream ends with the end of the input.
pub proof fn streams_are_terminated(chars: Seq<char>, pos: int)
    requires
        0 <= pos <= chars.len(),
    ensures
        tokens_from(chars, pos) matches Ok(tokens) ==> tokens.len() > 0 && tokens.last().tok
            == TokView::Eof,
    decreases chars.len() - pos,
{
    trivia_end_bounds(chars, pos);
    let start = trivia_end(chars, pos);
    if start < chars.len() {
        token_end_bounds(chars, start);
        if let Ok((tok, end)) = token_at(chars, start) {
            streams_are_terminated(chars, end);
        }
    }
}

} // verus!
