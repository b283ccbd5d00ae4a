//! What reading a text can yield.
//!
//! Every piece that comes out of the reader can be printed and read again.

use vstd::prelude::*;

use crate::assoc::{insert, insert_keeps_sorted, keys, slot};
use crate::attribute::AttributeView;
use crate::effect::EffectClass;
use crate::emit::{attr_ok, attributes_ok, capability_ok, effect_ok, type_ok};
use crate::grammar::{
    attr_dict, attr_entries, attr_items, attr_value, bound, capability, effect, expect_ident,
    expect_punct, grants, head, literal, named_value, op_attributes, op_name, op_types,
    opens_provenance, operand_list, origin, origins, parse_type, peek, result_list, results,
    set_origin, set_types, tail, tensor_rest, type_list, types, with_entry, Bindings, Dictionary,
    Head, Parsing,
};
use crate::ids::{OperationId, ValueId};
use crate::lexer::{
    digits_end_bounds, ident_end, ident_end_bounds, is_digit, is_ident_continue, is_ident_start,
    number_shape, number_token, significant, token_at, token_end_bounds, tokens_from, trivia_end,
    trivia_end_bounds, TokView, TokenView,
};
use crate::module::{ModuleView, OperationView, ValueView};
use crate::number::{digit_count, number_of, strip_zeros, Number};
use crate::relex::{is_name, is_readable, is_word};
use crate::reparse::consecutive;
use crate::types::TypeView;

verus! {

// ------------------------------------------------------------------- tokens

/// What a token that was read is.
pub open spec fn tok_ok(t: TokView) -> bool {
    match t {
        TokView::Ident(s) => is_word(s),
        TokView::Value(s) => is_name(s),
        TokView::Symbol(s) => is_name(s),
        TokView::Float(n) => is_readable(n),
        _ => true,
    }
}

/// What the tokens of a text are: each as it should be, and the end of input
/// only at the end.
pub open spec fn toks_ok(toks: Seq<TokenView>) -> bool {
    &&& toks.len() > 0
    &&& toks.last().tok == TokView::Eof
    &&& forall|i: int| 0 <= i < toks.len() ==> tok_ok((#[trigger] toks[i]).tok)
}

proof fn ident_characters(chars: Seq<char>, pos: int)
    requires
        0 <= pos <= chars.len(),
    ensures
        forall|i: int| pos <= i < ident_end(chars, pos) ==> is_ident_continue(#[trigger] chars[i]),
    decreases chars.len() - pos,
{
    if pos < chars.len() && is_ident_continue(chars[pos]) {
        ident_characters(chars, pos + 1);
    }
}

proof fn stripped(m: nat, e: int)
    ensures
        ({
            let (m2, e2) = strip_zeros(m, e);
            &&& m2 <= m
            &&& strip_zeros(m2, e2) == (m2, e2)
        }),
    decreases m,
{
    if m != 0 && m % 10 == 0 {
        stripped(m / 10, e + 1);
    }
}

/// A number of at most nineteen digits is read as it should be.
pub proof fn numbers_are_normal(negative: bool, m: nat, e: int)
    requires
        m < 10000000000000000000,
    ensures
        is_readable(number_of(negative, m, e)),
{
    stripped(m, e);
    let (m2, e2) = strip_zeros(m, e);
    let leading = e2 + digit_count(m2) - 1;
    digits_fit(m2);
    if leading < -324 {
        assert(strip_zeros(0, 0) == (0nat, 0int));
        assert(digit_count(0) == 1);
    }
}

proof fn digits_fit(n: nat)
    requires
        n <= u64::MAX,
    ensures
        1 <= digit_count(n) <= 20,
{
    reveal_with_fuel(digit_count, 21);
}

proof fn significant_fits(digits: Seq<char>)
    requires
        forall|i: int| 0 <= i < digits.len() ==> is_digit(#[trigger] digits[i]),
    ensures
        significant(digits).0 < 10000000000000000000,
    decreases digits.len(),
{
    if digits.len() > 0 {
        let front = digits.drop_last();
        assert forall|i: int| 0 <= i < front.len() implies is_digit(#[trigger] front[i]) by {
            assert(is_digit(digits[i]));
        }
        significant_fits(front);
        assert(is_digit(digits[digits.len() - 1]));
    }
}

/// A token is read as it should be.
proof fn token_is_ok(chars: Seq<char>, pos: int)
    requires
        0 <= pos < chars.len(),
    ensures
        token_at(chars, pos) matches Ok((tok, end)) ==> tok_ok(tok) && tok != TokView::Eof,
{
    let c = chars[pos];
    ident_end_bounds(chars, pos + 1);
    ident_characters(chars, pos + 1);
    if c == '%' || c == '@' {
        let end = ident_end(chars, pos + 1);
        let s = chars.subrange(pos + 1, end);
        assert forall|i: int| 0 <= i < s.len() implies is_ident_continue(#[trigger] s[i]) by {
            assert(s[i] == chars[pos + 1 + i]);
        }
    } else if is_digit(c) || (c == '-' && pos + 1 < chars.len() && is_digit(chars[pos + 1])) {
        let shape = number_shape(chars, pos);
        if shape.end > shape.whole_end {
            let fraction = if shape.fraction_end > shape.whole_end {
                chars.subrange(shape.whole_end + 1, shape.fraction_end)
            } else {
                Seq::empty()
            };
            let whole = chars.subrange(shape.whole, shape.whole_end);
            let digits = whole + fraction;
            digits_end_bounds(chars, shape.whole);
            if shape.whole_end + 1 < chars.len() {
                digits_end_bounds(chars, shape.whole_end + 1);
            }
            assert forall|i: int| 0 <= i < digits.len() implies is_digit(#[trigger] digits[i]) by {
                if i < whole.len() {
                    assert(digits[i] == chars[shape.whole + i]);
                } else {
                    assert(digits[i] == fraction[i - whole.len()]);
                    assert(digits[i] == chars[shape.whole_end + 1 + (i - whole.len())]);
                }
            }
            significant_fits(digits);
            let (m, dropped) = significant(digits);
            if let Ok(TokView::Float(n)) = number_token(chars, pos, shape) {
                let exponent: int = if shape.exponent > shape.fraction_end {
                    let value = crate::lexer::exponent_value(
                        chars.subrange(shape.exponent, shape.end),
                    );
                    if chars[shape.exponent - 1] == '-' {
                        -value
                    } else {
                        value as int
                    }
                } else {
                    0
                };
                numbers_are_normal(shape.negative, m, exponent + dropped - fraction.len());
            }
        }
    } else if is_ident_start(c) && c != '"' && c != '^' && c != '#' && c != '!' {
        ident_characters(chars, pos);
        ident_end_bounds(chars, pos);
        let end = ident_end(chars, pos);
        assert(end == ident_end(chars, pos + 1));
        let s = chars.subrange(pos, end);
        assert forall|i: int| 0 <= i < s.len() implies is_ident_continue(#[trigger] s[i]) by {
            assert(s[i] == chars[pos + i]);
        }
        assert(s[0] == c);
    }
}

/// The tokens of a text are as they should be.
pub proof fn tokens_are_ok(chars: Seq<char>, pos: int)
    requires
        0 <= pos <= chars.len(),
    ensures
        tokens_from(chars, pos) matches Ok(toks) ==> toks_ok(toks),
    decreases chars.len() - pos,
{
    let start = trivia_end(chars, pos);
    trivia_end_bounds(chars, pos);
    if start < chars.len() {
        token_end_bounds(chars, start);
        token_is_ok(chars, start);
        if let Ok((tok, end)) = token_at(chars, start) {
            tokens_are_ok(chars, end);
            if let Ok(rest) = tokens_from(chars, end) {
                let toks = tokens_from(chars, pos)->Ok_0;
                assert(toks.last() == rest.last());
                assert forall|i: int| 0 <= i < toks.len() implies tok_ok(
                    (#[trigger] toks[i]).tok,
                ) by {
                    if i > 0 {
                        assert(toks[i] == rest[i - 1]);
                    }
                }
            }
        }
    }
}

// ------------------------------------------------------------------ effects

/// A token that is not the end of input is not the last one.
pub proof fn matched(toks: Seq<TokenView>, pos: int)
    requires
        toks_ok(toks),
        0 <= pos,
    ensures
        peek(toks, pos) != TokView::Eof ==> pos + 1 < toks.len(),
        tok_ok(peek(toks, pos)),
{
    if pos < toks.len() {
        assert(tok_ok(toks[pos].tok));
    } else {
        assert(tok_ok(toks[toks.len() - 1].tok));
    }
}

pub proof fn effect_reads(toks: Seq<TokenView>, pos: int)
    requires
        toks_ok(toks),
        0 <= pos,
    ensures
        effect(toks, pos) matches Ok((e, p)) ==> effect_ok(e) && pos < p < toks.len(),
{
    matched(toks, pos);
    matched(toks, pos + 1);
    matched(toks, pos + 2);
    matched(toks, pos + 3);
}

proof fn tensor_reads(toks: Seq<TokenView>, pos: int, shape: Seq<i64>)
    requires
        toks_ok(toks),
        0 <= pos < toks.len(),
    ensures
        tensor_rest(toks, pos, shape) matches Ok((ty, p)) ==> type_ok(ty) && pos < p < toks.len(),
    decreases toks.len() - pos,
{
    matched(toks, pos);
    matched(toks, pos + 1);
    if let TokView::Int(dim) = peek(toks, pos) {
        if let Ok(p) = expect_punct(toks, pos + 1, ',') {
            tensor_reads(toks, p, shape.push(dim));
        }
    }
}

pub proof fn type_reads(toks: Seq<TokenView>, pos: int)
    requires
        toks_ok(toks),
        0 <= pos,
    ensures
        parse_type(toks, pos) matches Ok((ty, p)) ==> type_ok(ty) && pos < p < toks.len(),
{
    matched(toks, pos);
    matched(toks, pos + 1);
    matched(toks, pos + 2);
    matched(toks, pos + 3);
    if let TokView::TypeName(name) = peek(toks, pos) {
        if let Ok(q) = expect_punct(toks, pos + 1, '<') {
            tensor_reads(toks, q, Seq::empty());
        }
    }
}

// --------------------------------------------------------------- attributes

/// What a dictionary that is being read is.
pub open spec fn dictionary_read(d: Dictionary) -> bool {
    attributes_ok(d.attributes) && (d.effect matches Some(e) ==> effect_ok(e))
}

/// What is in a list after one more entry was stored.
pub proof fn stored<V>(s: Seq<(Seq<char>, V)>, key: Seq<char>, value: V)
    ensures
        forall|i: int|
            0 <= i < insert(s, key, value).len() ==> (#[trigger] insert(s, key, value)[i]) == (
                key,
                value,
            ) || exists|j: int| 0 <= j < s.len() && s[j] == insert(s, key, value)[i],
{
    let r = insert(s, key, value);
    let p = slot(keys(s), key) as int;
    crate::assoc::slot_separates(keys(s), key);
    assert forall|i: int| 0 <= i < r.len() implies (#[trigger] r[i]) == (key, value) || exists|
        j: int,
    | 0 <= j < s.len() && s[j] == r[i] by {
        if i != p {
            if r.len() == s.len() || i < p {
                assert(s[i] == r[i]);
            } else {
                assert(s[i - 1] == r[i]);
            }
        }
    }
}

proof fn entry_is_stored(
    toks: Seq<TokenView>,
    pos: int,
    d: Dictionary,
    key: Seq<char>,
    value: AttributeView,
)
    requires
        dictionary_read(d),
        is_word(key),
        attr_ok(value),
    ensures
        with_entry(toks, pos, d, key, value) matches Ok(d2) ==> dictionary_read(d2),
{
    if key != "effect"@ {
        let s = d.attributes;
        let r = insert(s, key, value);
        insert_keeps_sorted(s, key, value);
        stored(s, key, value);
        assert forall|i: int| 0 <= i < r.len() implies is_word((#[trigger] r[i]).0) && r[i].0
            != "effect"@ && attr_ok(r[i].1) by {
            if r[i] != (key, value) {
                let j = choose|j: int| 0 <= j < s.len() && s[j] == r[i];
                assert(is_word(s[j].0));
            }
        }
    } else {
        reveal_with_fuel(attr_ok, 2);
    }
}

proof fn dictionary_is_read(d: Dictionary)
    requires
        dictionary_read(d),
    ensures
        attr_ok(d.as_value()),
{
    if let Some(e) = d.effect {
        let s = d.attributes;
        let key = "effect"@;
        let value = AttributeView::Effect(e);
        let r = insert(s, key, value);
        insert_keeps_sorted(s, key, value);
        stored(s, key, value);
        reveal_strlit("effect");
        assert(is_word(key));
        assert(attr_ok(value));
        assert forall|i: int| 0 <= i < r.len() implies is_word((#[trigger] r[i]).0) && attr_ok(
            r[i].1,
        ) && (r[i].0 == "effect"@ ==> r[i].1 is Effect) by {
            if r[i] != (key, value) {
                let j = choose|j: int| 0 <= j < s.len() && s[j] == r[i];
                assert(is_word(s[j].0));
            }
        }
    }
}

pub proof fn attr_reads(toks: Seq<TokenView>, pos: int)
    requires
        toks_ok(toks),
        0 <= pos < toks.len(),
    ensures
        attr_value(toks, pos) matches Ok((a, p)) ==> attr_ok(a) && pos < p < toks.len(),
    decreases toks.len() - pos, 1int,
{
    matched(toks, pos);
    matched(toks, pos + 1);
    effect_reads(toks, pos);
    if peek(toks, pos) == TokView::Punct('[') {
        items_read(toks, pos + 1, Seq::empty());
        if let Ok((items, p)) = attr_items(toks, pos + 1, Seq::empty()) {
            matched(toks, p);
        }
    } else if peek(toks, pos) == TokView::Punct('{') {
        dict_reads(toks, pos);
        if let Ok((d, p)) = attr_dict(toks, pos) {
            dictionary_is_read(d);
        }
    }
}

proof fn items_read(toks: Seq<TokenView>, pos: int, items: Seq<AttributeView>)
    requires
        toks_ok(toks),
        0 <= pos < toks.len(),
        forall|i: int| 0 <= i < items.len() ==> attr_ok(#[trigger] items[i]),
    ensures
        attr_items(toks, pos, items) matches Ok((r, p)) ==> pos < p < toks.len() && (forall|i: int|
            0 <= i < r.len() ==> attr_ok(#[trigger] r[i])),
    decreases toks.len() - pos, 2int,
{
    attr_reads(toks, pos);
    if let Ok((v, p)) = attr_value(toks, pos) {
        matched(toks, p);
        let more = items.push(v);
        assert forall|i: int| 0 <= i < more.len() implies attr_ok(#[trigger] more[i]) by {
            if i < items.len() {
                assert(attr_ok(items[i]));
            }
        }
        if peek(toks, p) == TokView::Punct(',') {
            items_read(toks, p + 1, more);
        }
    }
}

pub proof fn dict_reads(toks: Seq<TokenView>, pos: int)
    requires
        toks_ok(toks),
        0 <= pos < toks.len(),
    ensures
        attr_dict(toks, pos) matches Ok((d, p)) ==> dictionary_read(d) && pos + 1 < p < toks.len(),
    decreases toks.len() - pos, 0int,
{
    matched(toks, pos);
    matched(toks, pos + 1);
    if peek(toks, pos) == TokView::Punct('{') {
        entries_read(toks, pos + 1, Dictionary::empty());
        if let Ok((d, q)) = attr_entries(toks, pos + 1, Dictionary::empty()) {
            matched(toks, q);
        }
    }
}

proof fn entries_read(toks: Seq<TokenView>, pos: int, d: Dictionary)
    requires
        toks_ok(toks),
        0 <= pos < toks.len(),
        dictionary_read(d),
    ensures
        attr_entries(toks, pos, d) matches Ok((r, p)) ==> dictionary_read(r) && pos < p
            < toks.len(),
    decreases toks.len() - pos, 2int,
{
    matched(toks, pos);
    matched(toks, pos + 1);
    if let Ok((key, p)) = expect_ident(toks, pos) {
        if let Ok(q) = expect_punct(toks, p, '=') {
            attr_reads(toks, pos + 2);
            if let Ok((v, r)) = attr_value(toks, pos + 2) {
                entry_is_stored(toks, r, d, key, v);
                matched(toks, r);
                if let Ok(d2) = with_entry(toks, r, d, key, v) {
                    if peek(toks, r) == TokView::Punct(',') {
                        entries_read(toks, r + 1, d2);
                    }
                }
            }
        }
    }
}

// -------------------------------------------------------------- capabilities

proof fn grants_read(toks: Seq<TokenView>, pos: int, read: Seq<EffectClass>)
    requires
        toks_ok(toks),
        0 <= pos < toks.len(),
    ensures
        grants(toks, pos, read) matches Ok((r, p)) ==> r.len() > 0 && pos < p < toks.len(),
    decreases toks.len() - pos,
{
    matched(toks, pos);
    matched(toks, pos + 1);
    if let TokView::Ident(word) = peek(toks, pos) {
        if let Some(class) = EffectClass::named(word) {
            if peek(toks, pos + 1) == TokView::Punct(',') {
                grants_read(toks, pos + 2, read.push(class));
            }
        }
    }
}

/// A capability declaration is read as one that can be printed.
pub proof fn capability_reads(toks: Seq<TokenView>, pos: int)
    requires
        toks_ok(toks),
        0 <= pos < toks.len(),
    ensures
        capability(toks, pos) matches Ok((c, p)) ==> {
            &&& capability_ok(c)
            &&& pos < p < toks.len()
        },
{
    matched(toks, pos);
    matched(toks, pos + 1);
    matched(toks, pos + 2);
    matched(toks, pos + 3);
    matched(toks, pos + 4);
    matched(toks, pos + 5);
    matched(toks, pos + 6);
    matched(toks, pos + 7);
    if pos + 8 < toks.len() {
        grants_read(toks, pos + 8, Seq::empty());
        if let Ok((classes, p)) = grants(toks, pos + 8, Seq::empty()) {
            matched(toks, p);
            matched(toks, p + 1);
        }
    }
}

// -------------------------------------------------------------------- heads

/// The values in scope.
pub open spec fn ids_of(bindings: Bindings) -> Seq<ValueId> {
    Seq::new(bindings.len(), |i: int| bindings[i].1)
}

/// Whether all of some values are in scope.
pub open spec fn all_in(ids: Seq<ValueId>, scope: Seq<ValueId>) -> bool {
    forall|i: int| 0 <= i < ids.len() ==> scope.contains(#[trigger] ids[i])
}

/// Whether all of some texts are names.
pub open spec fn all_names(names: Seq<Seq<char>>) -> bool {
    forall|i: int| 0 <= i < names.len() ==> is_name(#[trigger] names[i])
}

proof fn bound_is_in_scope(bindings: Bindings, name: Seq<char>)
    ensures
        bound(bindings, name) matches Some(id) ==> ids_of(bindings).contains(id),
    decreases bindings.len(),
{
    if bindings.len() > 0 {
        let front = bindings.drop_last();
        bound_is_in_scope(front, name);
        if bindings.last().0 == name {
            assert(ids_of(bindings)[bindings.len() - 1] == bindings.last().1);
        } else if let Some(id) = bound(front, name) {
            let i = choose|i: int| 0 <= i < front.len() && ids_of(front)[i] == id;
            assert(ids_of(bindings)[i] == id);
        }
    }
}

proof fn result_list_reads(toks: Seq<TokenView>, pos: int, names: Seq<Seq<char>>)
    requires
        toks_ok(toks),
        0 <= pos < toks.len(),
        all_names(names),
    ensures
        result_list(toks, pos, names) matches Ok((r, p)) ==> all_names(r) && pos < p < toks.len()
            && r.len() - names.len() <= p - pos && r.len() > 0,
    decreases toks.len() - pos,
{
    matched(toks, pos);
    matched(toks, pos + 1);
    if let TokView::Value(name) = peek(toks, pos) {
        if peek(toks, pos + 1) == TokView::Punct(',') {
            result_list_reads(toks, pos + 2, names.push(name));
        }
    }
}

proof fn operand_list_reads(
    toks: Seq<TokenView>,
    pos: int,
    bindings: Bindings,
    read: Seq<ValueId>,
)
    requires
        toks_ok(toks),
        0 <= pos < toks.len(),
        all_in(read, ids_of(bindings)),
    ensures
        operand_list(toks, pos, bindings, read) matches Ok((r, p)) ==> all_in(r, ids_of(bindings))
            && pos < p < toks.len(),
    decreases toks.len() - pos,
{
    matched(toks, pos);
    matched(toks, pos + 1);
    if let TokView::Value(name) = peek(toks, pos) {
        bound_is_in_scope(bindings, name);
        if let Some(id) = bound(bindings, name) {
            if peek(toks, pos + 1) == TokView::Punct(',') {
                operand_list_reads(toks, pos + 2, bindings, read.push(id));
            }
        }
    }
}

/// What the head of an operation that was read is.
pub open spec fn head_read(h: Head, bindings: Bindings) -> bool {
    &&& all_names(h.names)
    &&& is_word(h.name.dialect)
    &&& is_word(h.name.name)
    &&& all_in(h.operands, ids_of(bindings))
}

/// The head of an operation is read as one that can be printed.
pub proof fn head_reads(toks: Seq<TokenView>, pos: int, bindings: Bindings)
    requires
        toks_ok(toks),
        0 <= pos < toks.len(),
    ensures
        head(toks, pos, bindings) matches Ok((h, p)) ==> {
            &&& head_read(h, bindings)
            &&& pos + 3 + h.names.len() <= p < toks.len()
        },
{
    reveal(head);
    result_list_reads(toks, pos, Seq::empty());
    if let Ok((names, p0)) = result_list(toks, pos, Seq::empty()) {
        matched(toks, p0);
    }
    if let Ok((names, p1)) = results(toks, pos) {
        matched(toks, p1);
        matched(toks, p1 + 1);
        matched(toks, p1 + 2);
        if let Ok((name, p2)) = op_name(toks, p1) {
            matched(toks, p2);
            let (lit, p3) = literal(toks, p2);
            matched(toks, p3);
            matched(toks, p3 + 1);
            if peek(toks, p3) == TokView::Punct('(') {
                operand_list_reads(toks, p3 + 1, bindings, Seq::empty());
                if let Ok((ids, p4)) = operand_list(toks, p3 + 1, bindings, Seq::empty()) {
                    matched(toks, p4);
                }
            }
        }
    }
}

// -------------------------------------------------------------------- tails

/// What a value of a module that was read is.
pub open spec fn value_read(v: ValueView) -> bool {
    &&& v.name matches Some(name) && is_name(name)
    &&& type_ok(v.ty)
    &&& is_readable(v.provenance.confidence)
}

/// What an operation of a module that was read is.
pub open spec fn op_read(o: OperationView) -> bool {
    &&& is_word(o.name.dialect)
    &&& is_word(o.name.name)
    &&& effect_ok(o.effect)
    &&& attributes_ok(o.attributes)
    &&& !o.erased
}

/// What a module that was read is.
pub open spec fn module_read(m: ModuleView) -> bool {
    &&& forall|i: int| 0 <= i < m.values.len() ==> value_read(#[trigger] m.values[i])
    &&& forall|i: int| 0 <= i < m.ops.len() ==> op_read(#[trigger] m.ops[i])
}

/// Whether all of some types can be printed.
pub open spec fn all_types(tys: Seq<TypeView>) -> bool {
    forall|i: int| 0 <= i < tys.len() ==> type_ok(#[trigger] tys[i])
}

proof fn type_list_reads(toks: Seq<TokenView>, pos: int, read: Seq<TypeView>)
    requires
        toks_ok(toks),
        0 <= pos < toks.len(),
        all_types(read),
    ensures
        type_list(toks, pos, read) matches Ok((r, p)) ==> all_types(r) && pos < p < toks.len(),
    decreases toks.len() - pos,
{
    type_reads(toks, pos);
    if let Ok((ty, p)) = parse_type(toks, pos) {
        matched(toks, p);
        if peek(toks, p) == TokView::Punct(',') {
            type_list_reads(toks, p + 1, read.push(ty));
        }
    }
}

proof fn types_read(toks: Seq<TokenView>, pos: int)
    requires
        toks_ok(toks),
        0 <= pos < toks.len(),
    ensures
        types(toks, pos) matches Ok((r, p)) ==> all_types(r) && pos < p < toks.len(),
{
    matched(toks, pos);
    matched(toks, pos + 1);
    if peek(toks, pos) != TokView::Punct('(') {
        type_reads(toks, pos);
    } else {
        type_list_reads(toks, pos + 1, Seq::empty());
        if let Ok((tys, p)) = type_list(toks, pos + 1, Seq::empty()) {
            matched(toks, p);
        }
    }
}

/// What reading behind the regions of an operation changes: its attributes and
/// effect, and the types and origins of its results.
pub open spec fn finished(a: ModuleView, b: ModuleView, op: OperationId, lo: int, n: int) -> bool {
    &&& b == (ModuleView { ops: b.ops, values: b.values, ..a })
    &&& b.ops.len() == a.ops.len()
    &&& forall|i: int|
        0 <= i < a.ops.len() && i != op.spec_index() ==> #[trigger] b.ops[i] == a.ops[i]
    &&& b.op(op) == (OperationView {
        attributes: b.op(op).attributes,
        effect: b.op(op).effect,
        ..a.op(op)
    })
    &&& b.values.len() == a.values.len()
    &&& forall|i: int|
        0 <= i < a.values.len() && !(lo <= i < lo + n) ==> #[trigger] b.values[i] == a.values[i]
    &&& forall|i: int| 0 <= i < a.values.len() ==> (#[trigger] b.values[i]).name
        == a.values[i].name
}

proof fn finished_both(
    a: ModuleView,
    b: ModuleView,
    c: ModuleView,
    op: OperationId,
    lo: int,
    n: int,
)
    requires
        finished(a, b, op, lo, n),
        finished(b, c, op, lo, n),
    ensures
        finished(a, c, op, lo, n),
{
    assert forall|i: int| 0 <= i < a.ops.len() && i != op.spec_index() implies #[trigger] c.ops[i]
        == a.ops[i] by {
        assert(b.ops[i] == a.ops[i]);
    }
    assert forall|i: int|
        0 <= i < a.values.len() && !(lo <= i < lo + n) implies #[trigger] c.values[i]
        == a.values[i] by {
        assert(b.values[i] == a.values[i]);
    }
    assert forall|i: int| 0 <= i < a.values.len() implies (#[trigger] c.values[i]).name
        == a.values[i].name by {
        assert(b.values[i].name == a.values[i].name);
    }
}

proof fn types_are_set(
    m: ModuleView,
    op: OperationId,
    ids: Seq<ValueId>,
    tys: Seq<TypeView>,
    n: int,
    lo: int,
)
    requires
        module_read(m),
        m.has_op(op),
        consecutive(ids, lo, ids.len() as int),
        lo + ids.len() <= m.values.len(),
        all_types(tys),
        tys.len() == ids.len(),
        0 <= n <= ids.len(),
    ensures
        finished(m, set_types(m, ids, tys, n), op, lo, ids.len() as int),
        module_read(set_types(m, ids, tys, n)),
    decreases n,
{
    if n > 0 {
        types_are_set(m, op, ids, tys, n - 1, lo);
        let before = set_types(m, ids, tys, n - 1);
        let after = set_types(m, ids, tys, n);
        let v = ids[n - 1].spec_index();
        assert(v == lo + (n - 1));
        assert(type_ok(tys[n - 1]));
        assert(value_read(before.values[v]));
        assert forall|i: int| 0 <= i < after.values.len() implies value_read(
            #[trigger] after.values[i],
        ) by {
            if i != v {
                assert(after.values[i] == before.values[i]);
            }
        }
        assert(finished(before, after, op, lo, ids.len() as int));
        finished_both(m, before, after, op, lo, ids.len() as int);
    }
}

proof fn named_value_is_one(m: ModuleView, ids: Seq<ValueId>, from: int, name: Seq<char>)
    requires
        0 <= from,
    ensures
        named_value(m, ids, from, name) matches Some(id) ==> exists|k: int|
            from <= k < ids.len() && #[trigger] ids[k] == id,
    decreases ids.len() - from,
{
    if from < ids.len() {
        if m.value(ids[from]).name != Some(name) {
            named_value_is_one(m, ids, from + 1, name);
        }
    }
}

proof fn origin_reads(toks: Seq<TokenView>, pos: int)
    requires
        toks_ok(toks),
        0 <= pos < toks.len(),
    ensures
        origin(toks, pos) matches Ok((o, p)) ==> is_readable(o.confidence) && pos < p < toks.len(),
{
    matched(toks, pos);
    matched(toks, pos + 1);
    matched(toks, pos + 2);
    matched(toks, pos + 3);
    matched(toks, pos + 4);
    matched(toks, pos + 5);
    matched(toks, pos + 6);
    matched(toks, pos + 7);
    if let TokView::Int(v) = peek(toks, pos + 5) {
        numbers_are_normal(v < 0, if v < 0 { (-v) as nat } else { v as nat }, 0);
    }
    one_is_ok();
}

/// Full confidence is a number as it should be.
pub proof fn one_is_ok()
    ensures
        is_readable(Number::spec_one()),
{
    numbers_are_normal(false, 1, 0);
    assert(strip_zeros(1, 0) == (1nat, 0int));
    assert(digit_count(1) == 1);
}

proof fn origins_read(toks: Seq<TokenView>, s: Parsing, op: OperationId, lo: int)
    requires
        toks_ok(toks),
        0 <= s.pos < toks.len(),
        module_read(s.module),
        s.module.has_op(op),
        consecutive(s.module.op(op).results, lo, s.module.op(op).results.len() as int),
        lo + s.module.op(op).results.len() <= s.module.values.len(),
    ensures
        origins(toks, s, op) matches Ok(u) ==> {
            &&& s.pos < u.pos < toks.len()
            &&& u.bindings == s.bindings
            &&& finished(
                s.module,
                u.module,
                op,
                lo,
                s.module.op(op).results.len() as int,
            )
            &&& module_read(u.module)
        },
    decreases toks.len() - s.pos,
{
    origin_reads(toks, s.pos);
    if let Ok((o, p)) = origin(toks, s.pos) {
        matched(toks, p);
        let ids = s.module.op(op).results;
        named_value_is_one(s.module, ids, 0, o.name);
        if let Some(id) = named_value(s.module, ids, 0, o.name) {
            let k = choose|k: int| 0 <= k < ids.len() && #[trigger] ids[k] == id;
            assert(id.spec_index() == lo + k);
            let m = set_origin(s.module, id, o);
            assert(value_read(s.module.values[lo + k]));
            assert forall|i: int| 0 <= i < m.values.len() implies value_read(
                #[trigger] m.values[i],
            ) by {
                if i != lo + k {
                    assert(m.values[i] == s.module.values[i]);
                }
            }
            assert(finished(s.module, m, op, lo, ids.len() as int));
            if peek(toks, p) == TokView::Punct(',') {
                let s1 = Parsing { pos: p + 1, module: m, ..s };
                origins_read(toks, s1, op, lo);
                if let Ok(u) = origins(toks, s1, op) {
                    finished_both(s.module, m, u.module, op, lo, ids.len() as int);
                }
            }
        }
    }
}

/// What stands behind the regions of an operation is read as something that
/// can be printed.
pub proof fn tail_reads(
    toks: Seq<TokenView>,
    s: Parsing,
    op: OperationId,
    names: Seq<Seq<char>>,
    lo: int,
)
    requires
        toks_ok(toks),
        0 <= s.pos < toks.len(),
        module_read(s.module),
        s.module.has_op(op),
        consecutive(s.module.op(op).results, lo, names.len() as int),
        lo + names.len() <= s.module.values.len(),
    ensures
        tail(toks, s, op, names) matches Ok(u) ==> {
            &&& s.pos <= u.pos < toks.len()
            &&& ids_of(u.bindings) == ids_of(s.bindings) + s.module.op(op).results
            &&& finished(s.module, u.module, op, lo, names.len() as int)
            &&& module_read(u.module)
        },
{
    reveal(tail);
    let n = names.len() as int;
    matched(toks, s.pos);
    if peek(toks, s.pos) == TokView::Punct('{') {
        dict_reads(toks, s.pos);
    }
    if let Ok(s1) = op_attributes(toks, s, op) {
        assert(op_read(s.module.ops[op.spec_index()]));
        assert forall|i: int| 0 <= i < s1.module.ops.len() implies op_read(
            #[trigger] s1.module.ops[i],
        ) by {
            if i != op.spec_index() {
                assert(s1.module.ops[i] == s.module.ops[i]);
            }
        }
        assert(finished(s.module, s1.module, op, lo, n));
        matched(toks, s1.pos);
        let ids = s1.module.op(op).results;
        if peek(toks, s1.pos) == TokView::Punct(':') {
            types_read(toks, s1.pos + 1);
            if let Ok((tys, p)) = types(toks, s1.pos + 1) {
                if tys.len() == ids.len() {
                    types_are_set(s1.module, op, ids, tys, ids.len() as int, lo);
                }
            }
        }
        if let Ok(s2) = op_types(toks, s1, op, names) {
            if s2.module != s1.module {
                finished_both(s.module, s1.module, s2.module, op, lo, n);
            }
            assert(finished(s.module, s2.module, op, lo, n));
            matched(toks, s2.pos);
            matched(toks, s2.pos + 1);
            if opens_provenance(toks, s2.pos) && peek(toks, s2.pos + 1) == TokView::Punct('(') {
                let inner = Parsing { pos: s2.pos + 2, ..s2 };
                if s2.pos + 2 < toks.len() {
                    origins_read(toks, inner, op, lo);
                    if let Ok(t) = origins(toks, inner, op) {
                        matched(toks, t.pos);
                        finished_both(s.module, s2.module, t.module, op, lo, n);
                    }
                }
            }
            if let Ok(u) = tail(toks, s, op, names) {
                assert(ids_of(u.bindings) =~= ids_of(s.bindings) + s.module.op(op).results);
            }
        }
    }
}

} // verus!
