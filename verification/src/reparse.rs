//! Parsing the tokens of a printed program back.
//!
//! On the tokens that a tree is made of, the grammar builds a module of that
//! tree.

use vstd::prelude::*;

use crate::assoc::{insert, insert_at_end, keys, slot_is_unique, sorted};
use crate::attribute::AttributeView;
use crate::effect::EffectView;
use crate::emit::{
    attr_ok, attributes_ok, class_words, dtype_words, effect_ok, emit_attr, emit_attributes,
    emit_dictionary, emit_effect, emit_entries, emit_head, emit_items, emit_literal, emit_names,
    emit_op_name, emit_operands, emit_origin, emit_origins, emit_provenance, emit_results,
    emit_shape, emit_tail, emit_type, emit_type_clause, emit_types, provenance_words, result_names,
    result_ok, results_ok, tail_ok,
};
use crate::grammar::{
    attr_dict, attr_entries, attr_items, attr_value, bound, confidence, effect, head, literal,
    named_value, op_attributes, op_types, opens_provenance, operand_list, operands, origin, origins,
    parse_type, peek, result_list, results, set_origin, set_types, tail, tensor_rest, type_list,
    types, validity, value_list_end, Bindings, Dictionary, Head, Origin, Parsing,
};
use crate::ids::{OperationId, ValueId};
use crate::lexer::{ErrorView, TokView, TokenView};
use crate::module::{ModuleView, OperationView, ValueView};
use crate::number::{number_eq, number_of, pow10, strip_zeros, Number};
use crate::provenance::{Provenance, Source, Validity};
use crate::relex::{is_readable, pow10_positive};
use crate::tree::{interesting, is_interesting, OpTree, ResultTree};
use crate::text::{text_lt, text_lt_irreflexive, text_lt_transitive};
use crate::types::{DType, TypeView};

verus! {

/// Whether some tokens stand at a position of a stream, with at least one more
/// behind them.
pub open spec fn holds(toks: Seq<TokenView>, pos: int, out: Seq<TokView>) -> bool {
    &&& 0 <= pos
    &&& pos + out.len() < toks.len()
    &&& forall|i: int| 0 <= i < out.len() ==> toks[pos + i].tok == #[trigger] out[i]
}

/// Tokens in two parts stand where the parts stand one after the other.
pub proof fn holds_in_parts(toks: Seq<TokenView>, pos: int, a: Seq<TokView>, b: Seq<TokView>)
    requires
        holds(toks, pos, a + b),
    ensures
        holds(toks, pos, a),
        holds(toks, pos + a.len(), b),
{
    assert forall|i: int| 0 <= i < a.len() implies toks[pos + i].tok == #[trigger] a[i] by {
        assert((a + b)[i] == a[i]);
    }
    assert forall|i: int| 0 <= i < b.len() implies toks[pos + a.len() + i].tok
        == #[trigger] b[i] by {
        assert((a + b)[a.len() + i] == b[i]);
    }
}

/// An effect is read back.
pub proof fn effect_parses(toks: Seq<TokenView>, pos: int, e: EffectView)
    requires
        holds(toks, pos, emit_effect(e)),
        effect_ok(e),
        peek(toks, (pos + emit_effect(e).len()) as int) != TokView::Punct('<'),
    ensures
        effect(toks, pos) == Ok::<(EffectView, int), ErrorView>(
            (e, pos + emit_effect(e).len()),
        ),
{
    let out = emit_effect(e);
    class_words(e.class());
    assert(toks[pos + 0].tok == out[0]);
    if let Some(Some(name)) = e.scope() {
        assert(toks[pos + 1].tok == out[1]);
        assert(toks[pos + 2].tok == out[2]);
        assert(toks[pos + 3].tok == out[3]);
    }
}

/// Whether a dimension and its comma are the `k`-th pair of some tokens.
spec fn pair_at(out: Seq<TokView>, k: int, dim: i64) -> bool {
    out[2 * k] == TokView::Int(dim) && out[2 * k + 1] == TokView::Punct(',')
}

/// The dimensions of a tensor and their commas, by position.
proof fn shape_tokens(shape: Seq<i64>)
    ensures
        emit_shape(shape).len() == 2 * shape.len(),
        forall|k: int|
            0 <= k < shape.len() ==> #[trigger] pair_at(emit_shape(shape), k, shape[k]),
    decreases shape.len(),
{
    if shape.len() > 0 {
        let front = shape.drop_last();
        shape_tokens(front);
        let whole = emit_shape(shape);
        let pair = seq![TokView::Int(shape.last()), TokView::Punct(',')];
        assert(whole == emit_shape(front) + pair);
        assert forall|k: int| 0 <= k < shape.len() implies #[trigger] pair_at(
            whole,
            k,
            shape[k],
        ) by {
            if k < front.len() {
                assert(pair_at(emit_shape(front), k, front[k]));
                assert(whole[2 * k] == emit_shape(front)[2 * k]);
                assert(whole[2 * k + 1] == emit_shape(front)[2 * k + 1]);
            } else {
                assert(whole[2 * k] == pair[0]);
                assert(whole[2 * k + 1] == pair[1]);
            }
        }
    }
}

proof fn tensor_parses(
    toks: Seq<TokenView>,
    base: int,
    shape: Seq<i64>,
    dtype: DType,
    k: int,
)
    requires
        holds(
            toks,
            base,
            emit_shape(shape) + seq![TokView::Ident(dtype.text()), TokView::Punct('>')],
        ),
        0 <= k <= shape.len(),
    ensures
        tensor_rest(toks, base + 2 * k, shape.take(k)) == Ok::<(TypeView, int), ErrorView>(
            (TypeView::Tensor { shape, dtype }, base + 2 * shape.len() + 2),
        ),
    decreases shape.len() - k,
{
    let last = seq![TokView::Ident(dtype.text()), TokView::Punct('>')];
    let out = emit_shape(shape) + last;
    shape_tokens(shape);
    dtype_words(dtype);
    let n = shape.len() as int;
    if k < n {
        assert(pair_at(emit_shape(shape), k, shape[k]));
        assert(toks[base + 2 * k].tok == out[2 * k]);
        assert(toks[base + (2 * k + 1)].tok == out[2 * k + 1]);
        tensor_parses(toks, base, shape, dtype, k + 1);
        assert(shape.take(k).push(shape[k]) =~= shape.take(k + 1));
    } else {
        assert(toks[base + 2 * n].tok == out[2 * n]);
        assert(toks[base + (2 * n + 1)].tok == out[2 * n + 1]);
        assert(shape.take(k) =~= shape);
    }
}

/// The type names are all different.
proof fn type_names_differ()
    ensures
        "core.int"@ != "core.float"@,
        "core.int"@.len() == 8,
        "core.float"@.len() == 10,
        "core.bool"@.len() == 9,
        "core.string"@.len() == 11,
        "core.unknown"@.len() == 12,
        "agent.plan"@.len() == 10,
        "memory.memory"@.len() == 13,
        "core.tensor"@.len() == 11,
        "tool.ref"@.len() == 8,
        "tool.result"@.len() == 11,
        "observation.observation"@.len() == 23,
        "core.int"@[0] == 'c',
        "tool.ref"@[0] == 't',
        "core.float"@[0] == 'c',
        "agent.plan"@[0] == 'a',
        "core.string"@[5] == 's',
        "core.tensor"@[5] == 't',
        "core.string"@[0] == 'c',
        "core.tensor"@[0] == 'c',
        "tool.result"@[0] == 't',
{
    reveal_strlit("core.int");
    reveal_strlit("core.float");
    reveal_strlit("core.bool");
    reveal_strlit("core.string");
    reveal_strlit("core.unknown");
    reveal_strlit("agent.plan");
    reveal_strlit("memory.memory");
    reveal_strlit("core.tensor");
    reveal_strlit("tool.ref");
    reveal_strlit("tool.result");
    reveal_strlit("observation.observation");
    assert("core.int"@.len() == 8);
    assert("core.float"@.len() == 10);
}

/// A type is read back.
pub proof fn type_parses(toks: Seq<TokenView>, pos: int, ty: TypeView)
    requires
        holds(toks, pos, emit_type(ty)),
    ensures
        parse_type(toks, pos) == Ok::<(TypeView, int), ErrorView>(
            (ty, pos + emit_type(ty).len()),
        ),
{
    let out = emit_type(ty);
    type_names_differ();
    assert(toks[pos + 0].tok == out[0]);
    match ty {
        TypeView::Ref { resource } => {
            assert(toks[pos + 1].tok == out[1]);
            assert(toks[pos + 2].tok == out[2]);
            assert(toks[pos + 3].tok == out[3]);
        },
        TypeView::ToolResult { schema } => {
            assert(toks[pos + 1].tok == out[1]);
            assert(toks[pos + 2].tok == out[2]);
            assert(toks[pos + 3].tok == out[3]);
        },
        TypeView::Observation { schema } => {
            assert(toks[pos + 1].tok == out[1]);
            assert(toks[pos + 2].tok == out[2]);
            assert(toks[pos + 3].tok == out[3]);
        },
        TypeView::Tensor { shape, dtype } => {
            let lead = seq![TokView::TypeName("core.tensor"@), TokView::Punct('<')];
            let rest = emit_shape(shape) + seq![
                TokView::Ident(dtype.text()),
                TokView::Punct('>'),
            ];
            assert(out =~= lead + rest);
            holds_in_parts(toks, pos, lead, rest);
            assert(toks[pos + 1].tok == lead[1]);
            shape_tokens(shape);
            tensor_parses(toks, pos + 2, shape, dtype, 0);
            assert(shape.take(0) =~= Seq::empty());
        },
        _ => {},
    }
}

// --------------------------------------------------------------- attributes

/// The entries among the first `n` that do not declare an effect.
pub open spec fn plain_entries(entries: Seq<(Seq<char>, AttributeView)>, n: int) -> Seq<
    (Seq<char>, AttributeView),
>
    decreases n,
{
    if n <= 0 {
        Seq::empty()
    } else if entries[n - 1].0 == "effect"@ {
        plain_entries(entries, n - 1)
    } else {
        plain_entries(entries, n - 1).push(entries[n - 1])
    }
}

/// The effect that the first `n` entries declare.
pub open spec fn declared(entries: Seq<(Seq<char>, AttributeView)>, n: int) -> Option<EffectView>
    decreases n,
{
    if n <= 0 {
        None
    } else if entries[n - 1].0 == "effect"@ {
        Some(entries[n - 1].1->Effect_0)
    } else {
        declared(entries, n - 1)
    }
}

/// What is read of a dictionary after its first `n` entries.
pub open spec fn dictionary_after(entries: Seq<(Seq<char>, AttributeView)>, n: int) -> Dictionary {
    Dictionary { attributes: plain_entries(entries, n), effect: declared(entries, n) }
}

/// Every plain entry comes from the list, in front of the entries left.
proof fn plain_entries_come_before(entries: Seq<(Seq<char>, AttributeView)>, n: int)
    requires
        0 <= n <= entries.len(),
        sorted(keys(entries)),
    ensures
        forall|i: int, k: int|
            0 <= i < plain_entries(entries, n).len() && n <= k < entries.len() ==> text_lt(
                (#[trigger] plain_entries(entries, n)[i]).0,
                (#[trigger] entries[k]).0,
            ),
    decreases n,
{
    if n > 0 {
        plain_entries_come_before(entries, n - 1);
        let before = plain_entries(entries, n - 1);
        let now = plain_entries(entries, n);
        assert forall|i: int, k: int|
            0 <= i < now.len() && n <= k < entries.len() implies text_lt(
            (#[trigger] now[i]).0,
            (#[trigger] entries[k]).0,
        ) by {
            if i < before.len() {
                assert(now[i] == before[i]);
            } else {
                assert(now[i] == entries[n - 1]);
                assert(text_lt(keys(entries)[n - 1], keys(entries)[k]));
            }
        }
    }
}

/// Without an effect among them the entries are all plain.
proof fn nothing_declared(entries: Seq<(Seq<char>, AttributeView)>, n: int)
    requires
        0 <= n <= entries.len(),
        forall|i: int| 0 <= i < n ==> (#[trigger] entries[i]).0 != "effect"@,
    ensures
        plain_entries(entries, n) == entries.take(n),
        declared(entries, n) is None,
    decreases n,
{
    if n > 0 {
        nothing_declared(entries, n - 1);
        assert(entries.take(n - 1).push(entries[n - 1]) =~= entries.take(n));
    } else {
        assert(entries.take(0) =~= Seq::empty());
    }
}

/// With an effect among them, the plain entries are the ones around it.
proof fn one_declared(entries: Seq<(Seq<char>, AttributeView)>, n: int, k: int)
    requires
        0 <= k < n <= entries.len(),
        sorted(keys(entries)),
        entries[k].0 == "effect"@,
    ensures
        plain_entries(entries, n) == entries.take(k) + entries.subrange(k + 1, n),
        declared(entries, n) == Some(entries[k].1->Effect_0),
    decreases n,
{
    if k == n - 1 {
        assert forall|i: int| 0 <= i < k implies (#[trigger] entries[i]).0 != "effect"@ by {
            assert(text_lt(keys(entries)[i], keys(entries)[k]));
            text_lt_irreflexive("effect"@);
        }
        nothing_declared(entries, k);
        assert(entries.take(k) + entries.subrange(k + 1, n) =~= entries.take(k));
    } else {
        one_declared(entries, n - 1, k);
        assert(text_lt(keys(entries)[k], keys(entries)[n - 1]));
        text_lt_irreflexive("effect"@);
        assert((entries.take(k) + entries.subrange(k + 1, n - 1)).push(entries[n - 1])
            =~= entries.take(k) + entries.subrange(k + 1, n));
    }
}

/// A dictionary read in full is the dictionary.
proof fn dictionary_is_whole(entries: Seq<(Seq<char>, AttributeView)>)
    requires
        sorted(keys(entries)),
        forall|i: int|
            0 <= i < entries.len() && (#[trigger] entries[i]).0 == "effect"@
                ==> entries[i].1 is Effect,
    ensures
        dictionary_after(entries, entries.len() as int).as_value() == AttributeView::Dict(entries),
{
    let n = entries.len() as int;
    if exists|k: int| 0 <= k < n && (#[trigger] entries[k]).0 == "effect"@ {
        let k = choose|k: int| 0 <= k < n && (#[trigger] entries[k]).0 == "effect"@;
        one_declared(entries, n, k);
        let rest = plain_entries(entries, n);
        let ks = keys(rest);
        assert(ks.len() == n - 1);
        assert forall|i: int| 0 <= i < k implies text_lt(#[trigger] ks[i], "effect"@) by {
            assert(ks[i] == keys(entries)[i]);
            assert(text_lt(keys(entries)[i], keys(entries)[k]));
        }
        if k < ks.len() {
            assert(ks[k] == keys(entries)[k + 1]);
            assert(text_lt(keys(entries)[k], keys(entries)[k + 1]));
            if text_lt(ks[k], "effect"@) {
                text_lt_transitive("effect"@, ks[k], "effect"@);
                text_lt_irreflexive("effect"@);
            }
        }
        slot_is_unique(ks, "effect"@, k);
        let value = AttributeView::Effect(entries[k].1->Effect_0);
        if k < rest.len() && rest[k].0 == "effect"@ {
            text_lt_irreflexive("effect"@);
        }
        assert(insert(rest, "effect"@, value) =~= entries);
    } else {
        nothing_declared(entries, n);
        assert(entries.take(n) =~= entries);
    }
}

/// An attribute is read back.
pub proof fn attr_parses(toks: Seq<TokenView>, pos: int, a: AttributeView)
    requires
        holds(toks, pos, emit_attr(a)),
        attr_ok(a),
        peek(toks, (pos + emit_attr(a).len()) as int) != TokView::Punct('<'),
    ensures
        attr_value(toks, pos) == Ok::<(AttributeView, int), ErrorView>(
            (a, pos + emit_attr(a).len()),
        ),
        emit_attr(a).len() > 0,
    decreases a, 0int,
{
    let out = emit_attr(a);
    match a {
        AttributeView::Effect(e) => {
            assert(toks[pos + 0].tok == out[0]);
            effect_parses(toks, pos, e);
        },
        AttributeView::Array(items) => {
            let open = seq![TokView::Punct('[')];
            let close = seq![TokView::Punct(']')];
            holds_in_parts(toks, pos, open + emit_items(items, 0), close);
            holds_in_parts(toks, pos, open, emit_items(items, 0));
            assert(toks[pos + 0].tok == open[0]);
            let end = pos + 1 + emit_items(items, 0).len();
            assert(toks[end + 0].tok == close[0]);
            if items.len() == 0 {
                assert(items =~= Seq::empty());
            } else {
                assert(attr_ok(items[0]));
                assert(emit_items(items, 0) =~= emit_attr(items[0]) + emit_items(items, 1));
                items_parse(toks, pos + 1, items, 0);
                assert(items.take(0) =~= Seq::empty());
                first_token(items[0]);
                assert(toks[pos + 1 + 0].tok == emit_items(items, 0)[0]);
            }
        },
        AttributeView::Dict(entries) => {
            dict_parses(toks, pos, entries);
            let read = entries;
            assert forall|i: int|
                0 <= i < read.len() && (#[trigger] read[i]).0 == "effect"@ implies read[i].1
                is Effect by {
                assert(entries[i].0 == "effect"@);
                assert(entries[i].1 is Effect);
            }
            dictionary_is_whole(read);
            assert(toks[pos + 0].tok == out[0]);
        },
        AttributeView::Bool(b) => {
            assert(toks[pos + 0].tok == out[0]);
            reveal_strlit("true");
            reveal_strlit("false");
            assert("true"@.len() == 4 && "false"@.len() == 5);
        },
        _ => {
            assert(toks[pos + 0].tok == out[0]);
        },
    }
}

/// No attribute starts with a closing bracket.
proof fn first_token(a: AttributeView)
    ensures
        emit_attr(a).len() > 0,
        emit_attr(a)[0] != TokView::Punct(']'),
        emit_attr(a)[0] != TokView::Punct('}'),
{
}

/// Items are read back.
proof fn items_parse(toks: Seq<TokenView>, pos: int, items: Seq<AttributeView>, i: int)
    requires
        0 <= i < items.len(),
        forall|k: int| 0 <= k < items.len() ==> attr_ok(#[trigger] items[k]),
        holds(toks, pos, emit_attr(items[i]) + emit_items(items, i + 1)),
        peek(
            toks,
            (pos + emit_attr(items[i]).len() + emit_items(items, i + 1).len()) as int,
        ) == TokView::Punct(']'),
    ensures
        attr_items(toks, pos, items.take(i)) == Ok::<
            (Seq<AttributeView>, int),
            ErrorView,
        >(
            (
                items,
                pos + emit_attr(items[i]).len() + emit_items(items, i + 1).len(),
            ),
        ),
    decreases items, items.len() - i,
{
    assert(decreases_to!(items => items[i]));
    let x = emit_attr(items[i]);
    let rest = emit_items(items, i + 1);
    holds_in_parts(toks, pos, x, rest);
    let next = pos + x.len();
    if i + 1 < items.len() {
        let comma = seq![TokView::Punct(',')];
        let more = emit_attr(items[i + 1]) + emit_items(items, i + 2);
        assert(rest =~= comma + more);
        holds_in_parts(toks, next, comma, more);
        assert(toks[next + 0].tok == comma[0]);
        attr_parses(toks, pos, items[i]);
        items_parse(toks, next + 1, items, i + 1);
        assert(items.take(i).push(items[i]) =~= items.take(
            i + 1,
        ));
    } else {
        attr_parses(toks, pos, items[i]);
        assert(items.take(i).push(items[i]) =~= items);
    }
}

/// A dictionary is read back.
proof fn dict_parses(toks: Seq<TokenView>, pos: int, entries: Seq<(Seq<char>, AttributeView)>)
    requires
        attr_ok(AttributeView::Dict(entries)),
        holds(toks, pos, emit_attr(AttributeView::Dict(entries))),
    ensures
        attr_dict(toks, pos) == Ok::<(Dictionary, int), ErrorView>(
            (
                dictionary_after(entries, entries.len() as int),
                pos + emit_attr(AttributeView::Dict(entries)).len(),
            ),
        ),
    decreases entries, entries.len() + 1,
{
    let open = seq![TokView::Punct('{')];
    let close = seq![TokView::Punct('}')];
    holds_in_parts(toks, pos, open + emit_entries(entries, 0), close);
    holds_in_parts(toks, pos, open, emit_entries(entries, 0));
    assert(toks[pos + 0].tok == open[0]);
    let end = pos + 1 + emit_entries(entries, 0).len();
    assert(toks[end + 0].tok == close[0]);
    if entries.len() > 0 {
        let lead = seq![TokView::Ident(entries[0].0), TokView::Punct('=')];
        let x = emit_attr(entries[0].1);
        assert(emit_entries(entries, 0) =~= lead + x + emit_entries(entries, 1));
        assert(toks[pos + 1 + 0].tok == emit_entries(entries, 0)[0]);
        entries_parse(toks, pos + 1, entries, 0);
    }
}

/// Entries are read back.
proof fn entries_parse(
    toks: Seq<TokenView>,
    pos: int,
    entries: Seq<(Seq<char>, AttributeView)>,
    i: int,
)
    requires
        0 <= i < entries.len(),
        attr_ok(AttributeView::Dict(entries)),
        holds(
            toks,
            pos,
            seq![TokView::Ident(entries[i].0), TokView::Punct('=')] + emit_attr(entries[i].1)
                + emit_entries(entries, i + 1),
        ),
        peek(
            toks,
            (pos + 2 + emit_attr(entries[i].1).len() + emit_entries(entries, i + 1).len()) as int,
        ) == TokView::Punct('}'),
    ensures
        attr_entries(toks, pos, dictionary_after(entries, i)) == Ok::<
            (Dictionary, int),
            ErrorView,
        >(
            (
                dictionary_after(entries, entries.len() as int),
                pos + 2 + emit_attr(entries[i].1).len() + emit_entries(entries, i + 1).len(),
            ),
        ),
    decreases entries, entries.len() - i,
{
    assert(decreases_to!(entries => entries[i]));
    assert(decreases_to!(entries[i] => entries[i].1));
    let (key, value) = entries[i];
    let lead = seq![TokView::Ident(key), TokView::Punct('=')];
    let x = emit_attr(value);
    let rest = emit_entries(entries, i + 1);
    holds_in_parts(toks, pos, lead + x, rest);
    holds_in_parts(toks, pos, lead, x);
    assert(toks[pos + 0].tok == lead[0]);
    assert(toks[pos + 1].tok == lead[1]);
    let next = pos + 2 + x.len();
    let read = entries;
    plain_entries_come_before(read, i);
    if key == "effect"@ {
        assert(value is Effect);
    } else {
        let before = plain_entries(read, i);
        assert forall|k: int| 0 <= k < before.len() implies text_lt((#[trigger] before[k]).0, key) by {
            assert(read[i].0 == key);
        }
        insert_at_end(before, key, value);
    }
    if i + 1 < entries.len() {
        let comma = seq![TokView::Punct(',')];
        let more = seq![TokView::Ident(entries[i + 1].0), TokView::Punct('=')] + emit_attr(
            entries[i + 1].1,
        ) + emit_entries(entries, i + 2);
        assert(rest =~= comma + more);
        holds_in_parts(toks, next, comma, more);
        assert(toks[next + 0].tok == comma[0]);
        attr_parses(toks, pos + 2, value);
        entries_parse(toks, next + 1, entries, i + 1);
    } else {
        attr_parses(toks, pos + 2, value);
    }
}

// ------------------------------------------------------------------ numbers

proof fn stripping_raises(m: nat, e: int)
    requires
        m != 0,
    ensures
        strip_zeros(m, e).1 >= e,
        strip_zeros(m, e).0 != 0,
        strip_zeros(m, e).0 <= m,
    decreases m,
{
    if m % 10 == 0 {
        stripping_raises(m / 10, e + 1);
    }
}

/// A readable number that equals one is one.
pub proof fn one_is_one(n: Number)
    requires
        is_readable(n),
        number_eq(n, Number::spec_one()),
    ensures
        n == Number::spec_one(),
{
    if let Number::Finite { negative, mantissa, exponent } = n {
        let m = mantissa as nat;
        let signed: int = if negative {
            -(mantissa as int)
        } else {
            mantissa as int
        };
        assert(pow10(0) == 1);
        if exponent >= 0 {
            let p = pow10(exponent as nat);
            pow10_positive(exponent as nat);
            assert(1 * 1 == 1);
            assert(signed * p == 1);
            if exponent > 0 {
                let q = pow10((exponent - 1) as nat);
                assert(p == 10 * q);
                assert(signed * (10 * q) == 10 * (signed * q)) by (nonlinear_arith);
                assert((10 * (signed * q)) % 10 == 0);
                assert(false);
            }
        } else {
            let k = (-exponent) as nat;
            let p = pow10(k);
            pow10_positive((k - 1) as nat);
            assert(p == 10 * pow10((k - 1) as nat));
            assert(signed * 1 == signed);
            assert(1 * p == p);
            assert(signed == p);
            assert(m == p);
            assert(m % 10 == 0);
            stripping_raises(m / 10, exponent + 1);
            assert(strip_zeros(m, exponent as int) == strip_zeros(m / 10, exponent + 1));
            let (m2, e2) = strip_zeros(m, exponent as int);
            assert(m2 <= m / 10);
            assert(number_of(negative, m, exponent as int) == n);
            assert(false);
        }
    }
}

// ------------------------------------------------------------------- heads

/// Result names are read back.
proof fn names_parse(toks: Seq<TokenView>, pos: int, names: Seq<Seq<char>>, i: int)
    requires
        0 <= i < names.len(),
        holds(toks, pos, seq![TokView::Value(names[i])] + emit_names(names, i + 1)),
        peek(toks, (pos + 1 + emit_names(names, i + 1).len()) as int) != TokView::Punct(','),
    ensures
        value_list_end(toks, pos) == pos + 1 + emit_names(names, i + 1).len(),
        result_list(toks, pos, names.take(i)) == Ok::<(Seq<Seq<char>>, int), ErrorView>(
            (names, pos + 1 + emit_names(names, i + 1).len()),
        ),
    decreases names.len() - i,
{
    let v = seq![TokView::Value(names[i])];
    let rest = emit_names(names, i + 1);
    holds_in_parts(toks, pos, v, rest);
    assert(toks[pos + 0].tok == v[0]);
    if i + 1 < names.len() {
        let comma = seq![TokView::Punct(',')];
        let more = seq![TokView::Value(names[i + 1])] + emit_names(names, i + 2);
        assert(rest =~= comma + more);
        holds_in_parts(toks, pos + 1, comma, more);
        assert(toks[pos + 1 + 0].tok == comma[0]);
        names_parse(toks, pos + 2, names, i + 1);
        assert(names.take(i).push(names[i]) =~= names.take(i + 1));
    } else {
        assert(names.take(i).push(names[i]) =~= names);
    }
}

/// Whether all of some names are bound.
pub open spec fn all_bound(bindings: Bindings, names: Seq<Seq<char>>) -> bool {
    forall|i: int| 0 <= i < names.len() ==> bound(bindings, #[trigger] names[i]) is Some
}

/// The values that some names are bound to.
pub open spec fn values_bound(bindings: Bindings, names: Seq<Seq<char>>) -> Seq<ValueId> {
    Seq::new(names.len(), |i: int| bound(bindings, names[i])->0)
}

/// Operands are read back.
proof fn operands_parse(
    toks: Seq<TokenView>,
    pos: int,
    bindings: Bindings,
    names: Seq<Seq<char>>,
    i: int,
)
    requires
        0 <= i < names.len(),
        all_bound(bindings, names),
        holds(toks, pos, seq![TokView::Value(names[i])] + emit_names(names, i + 1)),
        peek(toks, (pos + 1 + emit_names(names, i + 1).len()) as int) != TokView::Punct(','),
    ensures
        operand_list(toks, pos, bindings, values_bound(bindings, names).take(i)) == Ok::<
            (Seq<ValueId>, int),
            ErrorView,
        >((values_bound(bindings, names), pos + 1 + emit_names(names, i + 1).len())),
    decreases names.len() - i,
{
    let v = seq![TokView::Value(names[i])];
    let rest = emit_names(names, i + 1);
    let ids = values_bound(bindings, names);
    holds_in_parts(toks, pos, v, rest);
    assert(toks[pos + 0].tok == v[0]);
    assert(bound(bindings, names[i]) is Some);
    if i + 1 < names.len() {
        let comma = seq![TokView::Punct(',')];
        let more = seq![TokView::Value(names[i + 1])] + emit_names(names, i + 2);
        assert(rest =~= comma + more);
        holds_in_parts(toks, pos + 1, comma, more);
        assert(toks[pos + 1 + 0].tok == comma[0]);
        operands_parse(toks, pos + 2, bindings, names, i + 1);
        assert(ids.take(i).push(ids[i]) =~= ids.take(i + 1));
    } else {
        assert(ids.take(i).push(ids[i]) =~= ids);
    }
}

proof fn results_parse(toks: Seq<TokenView>, pos: int, rs: Seq<ResultTree>)
    requires
        holds(toks, pos, emit_results(rs)),
        rs.len() == 0 ==> !(peek(toks, pos) is Value),
    ensures
        results(toks, pos) == Ok::<(Seq<Seq<char>>, int), ErrorView>(
            (result_names(rs), pos + emit_results(rs).len()),
        ),
{
    let names = result_names(rs);
    if rs.len() == 0 {
        assert(names =~= Seq::empty());
    } else {
        let eq = seq![TokView::Punct('=')];
        holds_in_parts(toks, pos, emit_names(names, 0), eq);
        let end = pos + emit_names(names, 0).len();
        assert(toks[end + 0].tok == eq[0]);
        let first = seq![TokView::Value(names[0])];
        assert(emit_names(names, 0) =~= first + emit_names(names, 1));
        assert(toks[pos + 0].tok == emit_names(names, 0)[0]);
        names_parse(toks, pos, names, 0);
        assert(names.take(0) =~= Seq::empty());
    }
}

/// What stands before the regions of an operation is read back.
pub proof fn head_parses(toks: Seq<TokenView>, pos: int, bindings: Bindings, t: OpTree)
    requires
        holds(toks, pos, emit_head(t)),
        all_bound(bindings, t.operands),
        peek(toks, (pos + emit_head(t).len()) as int) == TokView::Punct('{'),
    ensures
        head(toks, pos, bindings) == Ok::<(Head, int), ErrorView>(
            (
                Head {
                    names: result_names(t.results),
                    name: t.name,
                    literal: t.literal,
                    operands: values_bound(bindings, t.operands),
                },
                pos + emit_head(t).len(),
            ),
        ),
        emit_head(t).len() >= 3 + t.results.len(),
        t.results.len() == 0 ==> toks[pos].tok == TokView::Ident(t.name.dialect) && toks[pos
            + 1].tok == TokView::Punct('.'),
        t.results.len() > 0 ==> toks[pos].tok is Value,
{
    reveal(head);
    let r = emit_results(t.results);
    let n = emit_op_name(t.name);
    let l = emit_literal(t.literal);
    let o = emit_operands(t.operands);
    let p1 = pos + r.len();
    let p2 = p1 + 3;
    let p3 = p2 + l.len();
    let p4 = p3 + o.len();
    holds_in_parts(toks, pos, r + n + l, o);
    holds_in_parts(toks, pos, r + n, l);
    holds_in_parts(toks, pos, r, n);
    assert(toks[p1 + 0].tok == n[0]);
    assert(toks[p1 + 1].tok == n[1]);
    assert(toks[p1 + 2].tok == n[2]);
    results_parse(toks, pos, t.results);
    emitted_names(result_names(t.results), 0);
    if t.results.len() > 0 {
        assert(toks[pos + 0].tok == r[0]);
    }
    if let Some(text) = t.literal {
        assert(toks[p2 + 0].tok == l[0]);
    } else if t.operands.len() > 0 {
        assert(toks[p3 + 0].tok == o[0]);
    }
    if t.operands.len() > 0 {
        let open = seq![TokView::Punct('(')];
        let close = seq![TokView::Punct(')')];
        let names = t.operands;
        holds_in_parts(toks, p3, open + emit_names(names, 0), close);
        holds_in_parts(toks, p3, open, emit_names(names, 0));
        assert(toks[p3 + 0].tok == open[0]);
        let end = p3 + 1 + emit_names(names, 0).len();
        assert(toks[end + 0].tok == close[0]);
        let first = seq![TokView::Value(names[0])];
        assert(emit_names(names, 0) =~= first + emit_names(names, 1));
        assert(toks[p3 + 1 + 0].tok == emit_names(names, 0)[0]);
        operands_parse(toks, p3 + 1, bindings, names, 0);
        assert(values_bound(bindings, names).take(0) =~= Seq::empty());
    } else {
        assert(values_bound(bindings, t.operands) =~= Seq::empty());
    }
}

/// How many tokens a list of names is made of, and what it starts with.
proof fn emitted_names(names: Seq<Seq<char>>, i: int)
    requires
        0 <= i,
    ensures
        i < names.len() ==> emit_names(names, i).len() >= names.len() - i,
        i == 0 && names.len() > 0 ==> emit_names(names, i)[0] == TokView::Value(names[0]),
    decreases names.len() - i,
{
    if i < names.len() {
        emitted_names(names, i + 1);
    }
}

// -------------------------------------------------------------------- tails

/// The attributes of an operation are read back.
proof fn attributes_parse(
    toks: Seq<TokenView>,
    pos: int,
    attributes: Seq<(Seq<char>, AttributeView)>,
    e: EffectView,
    i: int,
)
    requires
        0 <= i < attributes.len(),
        attributes_ok(attributes),
        holds(
            toks,
            pos,
            seq![TokView::Ident(attributes[i].0), TokView::Punct('=')] + emit_attr(attributes[i].1)
                + emit_attributes(attributes, i + 1),
        ),
        peek(
            toks,
            (pos + 2 + emit_attr(attributes[i].1).len() + emit_attributes(
                attributes,
                i + 1,
            ).len()) as int,
        ) == TokView::Punct('}'),
    ensures
        attr_entries(
            toks,
            pos,
            Dictionary { attributes: attributes.take(i), effect: Some(e) },
        ) == Ok::<(Dictionary, int), ErrorView>(
            (
                Dictionary { attributes: attributes, effect: Some(e) },
                pos + 2 + emit_attr(attributes[i].1).len() + emit_attributes(
                    attributes,
                    i + 1,
                ).len(),
            ),
        ),
    decreases attributes.len() - i,
{
    let (key, value) = attributes[i];
    let lead = seq![TokView::Ident(key), TokView::Punct('=')];
    let x = emit_attr(value);
    let rest = emit_attributes(attributes, i + 1);
    holds_in_parts(toks, pos, lead + x, rest);
    holds_in_parts(toks, pos, lead, x);
    assert(toks[pos + 0].tok == lead[0]);
    assert(toks[pos + 1].tok == lead[1]);
    let next = pos + 2 + x.len();
    let read = attributes;
    let before = read.take(i);
    assert forall|k: int| 0 <= k < before.len() implies text_lt((#[trigger] before[k]).0, key) by {
        assert(text_lt(keys(attributes)[k], keys(attributes)[i]));
    }
    insert_at_end(before, key, value);
    if i + 1 < attributes.len() {
        let comma = seq![TokView::Punct(',')];
        let more = seq![TokView::Ident(attributes[i + 1].0), TokView::Punct('=')] + emit_attr(
            attributes[i + 1].1,
        ) + emit_attributes(attributes, i + 2);
        assert(rest =~= comma + more);
        holds_in_parts(toks, next, comma, more);
        assert(toks[next + 0].tok == comma[0]);
        attr_parses(toks, pos + 2, value);
        attributes_parse(toks, next + 1, attributes, e, i + 1);
        assert(before.push(read[i]) =~= read.take(i + 1));
    } else {
        attr_parses(toks, pos + 2, value);
        assert(before.push(read[i]) =~= read);
    }
}

/// The dictionary of an operation is read back.
pub proof fn dictionary_parses(toks: Seq<TokenView>, pos: int, t: OpTree)
    requires
        tail_ok(t),
        holds(toks, pos, emit_dictionary(t)),
    ensures
        attr_dict(toks, pos) == Ok::<(Dictionary, int), ErrorView>(
            (
                Dictionary {
                    attributes: t.attributes,
                    effect: Some(t.effect),
                },
                pos + emit_dictionary(t).len(),
            ),
        ),
        toks[pos].tok == TokView::Punct('{'),
        toks[pos + 1].tok == TokView::Ident("effect"@),
        toks[pos + 2].tok == TokView::Punct('='),
{
    let lead = seq![TokView::Punct('{'), TokView::Ident("effect"@), TokView::Punct('=')];
    let x = emit_effect(t.effect);
    let rest = emit_attributes(t.attributes, 0);
    let close = seq![TokView::Punct('}')];
    holds_in_parts(toks, pos, lead + x + rest, close);
    holds_in_parts(toks, pos, lead + x, rest);
    holds_in_parts(toks, pos, lead, x);
    assert(toks[pos + 0].tok == lead[0]);
    assert(toks[pos + 1].tok == lead[1]);
    assert(toks[pos + 2].tok == lead[2]);
    let next = pos + 3 + x.len();
    let end = next + rest.len();
    assert(toks[end + 0].tok == close[0]);
    assert(toks[pos + 3 + 0].tok == x[0]);
    let first = Dictionary { attributes: Seq::empty(), effect: Some(t.effect) };
    let read = t.attributes;
    if t.attributes.len() > 0 {
        let comma = seq![TokView::Punct(',')];
        let more = seq![TokView::Ident(t.attributes[0].0), TokView::Punct('=')] + emit_attr(
            t.attributes[0].1,
        ) + emit_attributes(t.attributes, 1);
        assert(rest =~= comma + more);
        holds_in_parts(toks, next, comma, more);
        assert(toks[next + 0].tok == comma[0]);
        effect_parses(toks, pos + 3, t.effect);
        attributes_parse(toks, next + 1, t.attributes, t.effect, 0);
        assert(read.take(0) =~= Seq::empty());
    } else {
        effect_parses(toks, pos + 3, t.effect);
        assert(read =~= Seq::empty());
    }
    assert(attr_value(toks, pos + 3) == Ok::<(AttributeView, int), ErrorView>(
        (AttributeView::Effect(t.effect), next),
    ));
    assert(attr_entries(toks, pos + 1, Dictionary::empty()) == Ok::<(Dictionary, int), ErrorView>(
        (Dictionary { attributes: read, effect: Some(t.effect) }, end),
    ));
}

/// The types of some results.
pub open spec fn result_types(results: Seq<ResultTree>) -> Seq<TypeView> {
    Seq::new(results.len(), |i: int| results[i].ty)
}

proof fn types_parse(toks: Seq<TokenView>, pos: int, results: Seq<ResultTree>, i: int)
    requires
        0 <= i < results.len(),
        holds(toks, pos, emit_type(results[i].ty) + emit_types(results, i + 1)),
        peek(
            toks,
            (pos + emit_type(results[i].ty).len() + emit_types(results, i + 1).len()) as int,
        ) != TokView::Punct(','),
    ensures
        type_list(toks, pos, result_types(results).take(i)) == Ok::<
            (Seq<TypeView>, int),
            ErrorView,
        >(
            (
                result_types(results),
                pos + emit_type(results[i].ty).len() + emit_types(results, i + 1).len(),
            ),
        ),
    decreases results.len() - i,
{
    let x = emit_type(results[i].ty);
    let rest = emit_types(results, i + 1);
    let tys = result_types(results);
    holds_in_parts(toks, pos, x, rest);
    let next = pos + x.len();
    type_parses(toks, pos, results[i].ty);
    if i + 1 < results.len() {
        let comma = seq![TokView::Punct(',')];
        let more = emit_type(results[i + 1].ty) + emit_types(results, i + 2);
        assert(rest =~= comma + more);
        holds_in_parts(toks, next, comma, more);
        assert(toks[next + 0].tok == comma[0]);
        types_parse(toks, next + 1, results, i + 1);
        assert(tys.take(i).push(tys[i]) =~= tys.take(i + 1));
    } else {
        assert(tys.take(i).push(tys[i]) =~= tys);
    }
}

/// The types of the results are read back.
proof fn type_clause_parses(toks: Seq<TokenView>, pos: int, results: Seq<ResultTree>)
    requires
        results.len() > 0,
        holds(toks, pos, emit_type_clause(results)),
    ensures
        toks[pos].tok == TokView::Punct(':'),
        types(toks, pos + 1) == Ok::<(Seq<TypeView>, int), ErrorView>(
            (result_types(results), pos + emit_type_clause(results).len()),
        ),
{
    let tys = result_types(results);
    if results.len() == 1 {
        let colon = seq![TokView::Punct(':')];
        let x = emit_type(results[0].ty);
        holds_in_parts(toks, pos, colon, x);
        assert(toks[pos + 0].tok == colon[0]);
        type_parses(toks, pos + 1, results[0].ty);
        assert(toks[pos + 1 + 0].tok == x[0]);
        assert(tys =~= seq![results[0].ty]);
    } else {
        let lead = seq![TokView::Punct(':'), TokView::Punct('(')];
        let x = emit_types(results, 0);
        let close = seq![TokView::Punct(')')];
        holds_in_parts(toks, pos, lead + x, close);
        holds_in_parts(toks, pos, lead, x);
        assert(toks[pos + 0].tok == lead[0]);
        assert(toks[pos + 1].tok == lead[1]);
        let end = pos + 2 + x.len();
        assert(toks[end + 0].tok == close[0]);
        assert(x =~= emit_type(results[0].ty) + emit_types(results, 1));
        assert(toks[pos + 2 + 0].tok == x[0]);
        assert(emit_type(results[0].ty)[0] is TypeName);
        types_parse(toks, pos + 2, results, 0);
        assert(tys.take(0) =~= Seq::empty());
    }
}

/// What is said of where a result comes from.
pub open spec fn origin_of(r: ResultTree) -> Origin {
    Origin {
        name: r.name,
        source: r.source,
        confidence: r.confidence,
        validity: r.validity,
    }
}

/// A provenance entry is read back.
proof fn origin_parses(toks: Seq<TokenView>, pos: int, r: ResultTree)
    requires
        result_ok(r),
        holds(toks, pos, emit_origin(r)),
        peek(toks, (pos + emit_origin(r).len()) as int) is Punct,
    ensures
        origin(toks, pos) == Ok::<(Origin, int), ErrorView>(
            (origin_of(r), pos + emit_origin(r).len()),
        ),
        emit_origin(r).len() > 0,
{
    provenance_words(r.source, r.validity);
    let lead = seq![
        TokView::Value(r.name),
        TokView::Punct('='),
        TokView::Ident(r.source.text()),
    ];
    let full = number_eq(r.confidence, Number::spec_one());
    let conf = if full {
        Seq::<TokView>::empty()
    } else {
        seq![
            TokView::Ident("confidence"@),
            TokView::Punct('('),
            TokView::Float(r.confidence),
            TokView::Punct(')'),
        ]
    };
    let valid = if r.validity == Validity::Valid {
        Seq::<TokView>::empty()
    } else {
        seq![TokView::Ident(r.validity.text())]
    };
    holds_in_parts(toks, pos, lead + conf, valid);
    holds_in_parts(toks, pos, lead, conf);
    assert(toks[pos + 0].tok == lead[0]);
    assert(toks[pos + 1].tok == lead[1]);
    assert(toks[pos + 2].tok == lead[2]);
    let p3 = pos + 3;
    let p4 = p3 + conf.len();
    reveal_strlit("confidence");
    reveal_strlit("stale");
    reveal_strlit("invalid");
    reveal_strlit("archived");
    assert("confidence"@.len() == 10 && "stale"@.len() == 5 && "invalid"@.len() == 7
        && "archived"@.len() == 8);
    if valid.len() > 0 {
        assert(toks[p4 + 0].tok == valid[0]);
    }
    if full {
        one_is_one(r.confidence);
    } else {
        assert(toks[p3 + 0].tok == conf[0]);
        assert(toks[p3 + 1].tok == conf[1]);
        assert(toks[p3 + 2].tok == conf[2]);
        assert(toks[p3 + 3].tok == conf[3]);
    }
    assert(confidence(toks, p3) == Ok::<(Number, int), ErrorView>((r.confidence, p4)));
    assert(validity(toks, p4) == (r.validity, p4 + valid.len()));
}

// ------------------------------------------------------------------ results

/// Whether two modules differ at most in `n` values from position `lo` on.
pub open spec fn same_but_values(a: ModuleView, b: ModuleView, lo: int, n: int) -> bool {
    &&& b.name == a.name
    &&& b.version == a.version
    &&& b.body == a.body
    &&& b.capabilities == a.capabilities
    &&& b.ops == a.ops
    &&& b.blocks == a.blocks
    &&& b.regions == a.regions
    &&& b.values.len() == a.values.len()
    &&& forall|i: int|
        0 <= i < a.values.len() && !(lo <= i < lo + n) ==> #[trigger] b.values[i] == a.values[i]
}

/// Whether handles refer to `n` values from position `lo` on, in order.
pub open spec fn consecutive(ids: Seq<ValueId>, lo: int, n: int) -> bool {
    &&& ids.len() == n
    &&& 0 <= lo
    &&& forall|k: int| 0 <= k < n ==> (#[trigger] ids[k]).spec_index() == lo + k
}

/// Whether the values of some results carry their names.
pub open spec fn named_results(m: ModuleView, ids: Seq<ValueId>, results: Seq<ResultTree>) -> bool {
    forall|k: int|
        0 <= k < results.len() ==> m.value(ids[k]).name == Some((#[trigger] results[k]).name)
}

/// Whether the values of some results have their types.
pub open spec fn typed_results(m: ModuleView, ids: Seq<ValueId>, results: Seq<ResultTree>) -> bool {
    forall|k: int|
        0 <= k < results.len() ==> m.value(ids[k]).ty == (#[trigger] results[k]).ty
}

/// Whether a provenance says what a result says.
pub open spec fn has_origin(p: Provenance, r: ResultTree) -> bool {
    p.source == r.source && p.confidence == r.confidence && p.validity == r.validity
}

/// Whether a provenance says nothing of interest.
pub open spec fn has_no_origin(p: Provenance) -> bool {
    p.source == Source::Derived && p.confidence == Number::spec_one() && p.validity
        == Validity::Valid
}

/// Whether the results in `done` have their provenance and the others none.
pub open spec fn traced_results(
    m: ModuleView,
    ids: Seq<ValueId>,
    results: Seq<ResultTree>,
    done: Seq<ResultTree>,
) -> bool {
    forall|k: int|
        0 <= k < results.len() ==> if done.contains(#[trigger] results[k]) {
            has_origin(m.value(ids[k]).provenance, results[k])
        } else {
            has_no_origin(m.value(ids[k]).provenance)
        }
}

/// Whether all results have different names.
pub open spec fn names_differ(results: Seq<ResultTree>) -> bool {
    forall|i: int, j: int|
        0 <= i < j < results.len() ==> (#[trigger] results[i]).name != (#[trigger] results[j]).name
}

proof fn types_are_set(
    m: ModuleView,
    ids: Seq<ValueId>,
    tys: Seq<TypeView>,
    n: int,
    lo: int,
)
    requires
        0 <= n <= ids.len(),
        tys.len() == ids.len(),
        consecutive(ids, lo, ids.len() as int),
        lo + ids.len() <= m.values.len(),
    ensures
        ({
            let m2 = set_types(m, ids, tys, n);
            &&& same_but_values(m, m2, lo, ids.len() as int)
            &&& forall|k: int|
                0 <= k < n ==> m2.value(ids[k]) == (ValueView {
                    ty: #[trigger] tys[k],
                    ..m.value(ids[k])
                })
            &&& forall|k: int|
                n <= k < ids.len() ==> m2.value(#[trigger] ids[k]) == m.value(ids[k])
        }),
    decreases n,
{
    if n > 0 {
        types_are_set(m, ids, tys, n - 1, lo);
        let before = set_types(m, ids, tys, n - 1);
        let m2 = set_types(m, ids, tys, n);
        assert(ids[n - 1].spec_index() == lo + n - 1);
        assert(before.value(ids[n - 1]) == m.value(ids[n - 1]));
        assert forall|k: int| 0 <= k < n implies m2.value(ids[k]) == (ValueView {
            ty: #[trigger] tys[k],
            ..m.value(ids[k])
        }) by {
            assert(ids[k].spec_index() == lo + k);
            if k < n - 1 {
                assert(m2.value(ids[k]) == before.value(ids[k]));
            }
        }
        assert forall|k: int| n <= k < ids.len() implies m2.value(#[trigger] ids[k]) == m.value(
            ids[k],
        ) by {
            assert(ids[k].spec_index() == lo + k);
            assert(m2.value(ids[k]) == before.value(ids[k]));
        }
    }
}

/// A result is found by its name.
proof fn result_is_found(
    m: ModuleView,
    ids: Seq<ValueId>,
    results: Seq<ResultTree>,
    from: int,
    k: int,
)
    requires
        0 <= from <= k < results.len(),
        ids.len() == results.len(),
        named_results(m, ids, results),
        names_differ(results),
    ensures
        named_value(m, ids, from, results[k].name) == Some(ids[k]),
    decreases k - from,
{
    assert(m.value(ids[from]).name == Some(results[from].name));
    if from < k {
        assert(results[from].name != results[k].name);
        result_is_found(m, ids, results, from + 1, k);
    }
}

/// Provenance entries are read back.
proof fn origins_parse(
    toks: Seq<TokenView>,
    s: Parsing,
    op: OperationId,
    results: Seq<ResultTree>,
    some: Seq<ResultTree>,
    j: int,
    lo: int,
)
    requires
        0 <= j < some.len(),
        results_ok(results),
        names_differ(results),
        forall|i: int|
            0 <= i < some.len() ==> exists|k: int|
                0 <= k < results.len() && results[k] == #[trigger] some[i],
        holds(toks, s.pos, emit_origin(some[j]) + emit_origins(some, j + 1)),
        peek(
            toks,
            (s.pos + emit_origin(some[j]).len() + emit_origins(some, j + 1).len()) as int,
        ) == TokView::Punct(')'),
        consecutive(s.module.op(op).results, lo, results.len() as int),
        lo + results.len() <= s.module.values.len(),
        named_results(s.module, s.module.op(op).results, results),
        typed_results(s.module, s.module.op(op).results, results),
        traced_results(s.module, s.module.op(op).results, results, some.take(j)),
    ensures
        ({
            let r = origins(toks, s, op);
            let t = r->Ok_0;
            let ids = s.module.op(op).results;
            &&& r is Ok
            &&& t.pos == s.pos + emit_origin(some[j]).len() + emit_origins(some, j + 1).len()
            &&& t.bindings == s.bindings
            &&& same_but_values(s.module, t.module, lo, results.len() as int)
            &&& named_results(t.module, ids, results)
            &&& typed_results(t.module, ids, results)
            &&& traced_results(t.module, ids, results, some)
        }),
    decreases some.len() - j,
{
    let ids = s.module.op(op).results;
    let x = emit_origin(some[j]);
    let rest = emit_origins(some, j + 1);
    holds_in_parts(toks, s.pos, x, rest);
    let next = s.pos + x.len();
    let k = choose|k: int| 0 <= k < results.len() && results[k] == some[j];
    assert(result_ok(results[k]));
    let o = origin_of(some[j]);
    result_is_found(s.module, ids, results, 0, k);
    let m = set_origin(s.module, ids[k], o);
    assert(ids[k].spec_index() == lo + k);
    assert forall|i: int| 0 <= i < results.len() implies m.value(ids[i]).name == Some(
        (#[trigger] results[i]).name,
    ) && m.value(ids[i]).ty == results[i].ty by {
        assert(ids[i].spec_index() == lo + i);
        assert(s.module.value(ids[i]).name == Some(results[i].name));
        assert(s.module.value(ids[i]).ty == results[i].ty);
    }
    let done = some.take(j + 1);
    assert forall|i: int| 0 <= i < results.len() implies if done.contains(#[trigger] results[i]) {
        has_origin(m.value(ids[i]).provenance, results[i])
    } else {
        has_no_origin(m.value(ids[i]).provenance)
    } by {
        assert(ids[i].spec_index() == lo + i);
        assert(done =~= some.take(j).push(some[j]));
        if i == k {
            assert(done[j] == results[i]);
        } else {
            assert(m.value(ids[i]) == s.module.value(ids[i]));
            if done.contains(results[i]) {
                let q = choose|q: int| 0 <= q < done.len() && done[q] == results[i];
                if q == j {
                    assert(results[i] == results[k]);
                    if i < k {
                        assert(results[i].name != results[k].name);
                    } else {
                        assert(results[k].name != results[i].name);
                    }
                }
                assert(some.take(j)[q] == results[i]);
            } else if some.take(j).contains(results[i]) {
                let q = choose|q: int|
                    0 <= q < some.take(j).len() && some.take(j)[q] == results[i];
                assert(done[q] == results[i]);
            }
        }
    }
    if j + 1 < some.len() {
        let comma = seq![TokView::Punct(',')];
        let more = emit_origin(some[j + 1]) + emit_origins(some, j + 2);
        assert(rest =~= comma + more);
        holds_in_parts(toks, next, comma, more);
        assert(toks[next + 0].tok == comma[0]);
        origin_parses(toks, s.pos, some[j]);
        let s2 = Parsing { pos: next + 1, module: m, ..s };
        origins_parse(toks, s2, op, results, some, j + 1, lo);
    } else {
        origin_parses(toks, s.pos, some[j]);
        assert(done =~= some);
    }
}

/// Whether two modules differ only in what stands behind the regions of an
/// operation: its attributes and effect, and the types and origins of its
/// results.
pub open spec fn finishes_op(a: ModuleView, b: ModuleView, op: OperationId, t: OpTree, lo: int) -> bool {
    let n = t.results.len() as int;
    let ids = a.op(op).results;
    &&& b.name == a.name
    &&& b.version == a.version
    &&& b.body == a.body
    &&& b.capabilities == a.capabilities
    &&& b.ops == a.ops.update(
        op.spec_index(),
        OperationView {
            attributes: t.attributes,
            effect: t.effect,
            ..a.op(op)
        },
    )
    &&& b.blocks == a.blocks
    &&& b.regions == a.regions
    &&& b.values.len() == a.values.len()
    &&& forall|i: int|
        0 <= i < a.values.len() && !(lo <= i < lo + n) ==> #[trigger] b.values[i] == a.values[i]
    &&& forall|k: int|
        0 <= k < n ==> {
            let v = b.value(ids[k]);
            &&& v.name == Some((#[trigger] t.results[k]).name)
            &&& v.ty == t.results[k].ty
            &&& has_origin(v.provenance, t.results[k])
        }
}

/// What stands behind the regions of an operation is read back.
pub proof fn tail_parses(
    toks: Seq<TokenView>,
    s: Parsing,
    op: OperationId,
    t: OpTree,
    lo: int,
)
    requires
        tail_ok(t),
        names_differ(t.results),
        holds(toks, s.pos, emit_tail(t)),
        peek(toks, (s.pos + emit_tail(t).len()) as int) != TokView::Punct(':'),
        !opens_provenance(toks, (s.pos + emit_tail(t).len()) as int),
        s.module.has_op(op),
        consecutive(s.module.op(op).results, lo, t.results.len() as int),
        lo + t.results.len() <= s.module.values.len(),
        named_results(s.module, s.module.op(op).results, t.results),
        forall|k: int|
            0 <= k < t.results.len() ==> has_no_origin(
                s.module.value(#[trigger] s.module.op(op).results[k]).provenance,
            ),
    ensures
        ({
            let r = tail(toks, s, op, result_names(t.results));
            let u = r->Ok_0;
            &&& r is Ok
            &&& u.pos == s.pos + emit_tail(t).len()
            &&& u.bindings == s.bindings + crate::grammar::bind_results(
                result_names(t.results),
                s.module.op(op).results,
            )
            &&& finishes_op(s.module, u.module, op, t, lo)
        }),
        toks[s.pos].tok == TokView::Punct('{'),
        toks[s.pos + 1].tok == TokView::Ident("effect"@),
        toks[s.pos + 2].tok == TokView::Punct('='),
{
    reveal(tail);
    let names = result_names(t.results);
    let n = t.results.len() as int;
    let d = emit_dictionary(t);
    let c = emit_type_clause(t.results);
    let p = emit_provenance(t.results);
    holds_in_parts(toks, s.pos, d + c, p);
    holds_in_parts(toks, s.pos, d, c);
    let p1 = s.pos + d.len();
    let p2 = p1 + c.len();
    let p3 = p2 + p.len();
    // The dictionary.
    dictionary_parses(toks, s.pos, t);
    let o = s.module.op(op);
    let m1 = s.module.set_op(
        op,
        OperationView { attributes: t.attributes, effect: t.effect, ..o },
    );
    let s1 = Parsing { pos: p1, module: m1, ..s };
    assert(op_attributes(toks, s, op) == Ok::<Parsing, ErrorView>(s1));
    let ids = o.results;
    assert(m1.op(op).results == ids);
    // The types.
    let m2 = if n == 0 {
        m1
    } else {
        set_types(m1, ids, result_types(t.results), n)
    };
    let s2 = Parsing { pos: p2, module: m2, ..s };
    let some = interesting(t.results);
    if n == 0 {
        assert(some =~= Seq::empty()) by {
            reveal(Seq::filter);
        }
        assert(names.len() == 0);
    } else {
        type_clause_parses(toks, p1, t.results);
        types_are_set(m1, ids, result_types(t.results), n, lo);
        assert(m2.ops == m1.ops);
    }
    assert(op_types(toks, s1, op, names) == Ok::<Parsing, ErrorView>(s2));
    assert(m2.op(op).results == ids);
    assert forall|k: int| 0 <= k < n implies m2.value(ids[k]).name == Some(
        (#[trigger] t.results[k]).name,
    ) && m2.value(ids[k]).ty == t.results[k].ty && has_no_origin(m2.value(ids[k]).provenance) by {
        assert(result_types(t.results)[k] == t.results[k].ty);
        assert(s.module.value(ids[k]).name == Some(t.results[k].name));
        assert(has_no_origin(s.module.value(s.module.op(op).results[k]).provenance));
    }
    // The provenance.
    let is_some = |r: ResultTree| is_interesting(r);
    if some.len() == 0 {
        assert forall|k: int| 0 <= k < n implies has_origin(
            m2.value(ids[k]).provenance,
            #[trigger] t.results[k],
        ) by {
            if is_interesting(t.results[k]) {
                crate::printer::lemma_filter_index(t.results, is_some, k);
            }
            assert(result_ok(t.results[k]));
            one_is_one(t.results[k].confidence);
        }
        assert(tail(toks, s, op, names) is Ok);
        let u = tail(toks, s, op, names)->Ok_0;
        assert(u.module == m2);
        assert(finishes_op(s.module, m2, op, t, lo));
    } else {
        let lead = seq![TokView::Ident("provenance"@), TokView::Punct('(')];
        let x = emit_origins(some, 0);
        let close = seq![TokView::Punct(')')];
        holds_in_parts(toks, p2, lead + x, close);
        holds_in_parts(toks, p2, lead, x);
        assert(toks[p2 + 0].tok == lead[0]);
        assert(toks[p2 + 1].tok == lead[1]);
        let end = p2 + 2 + x.len();
        assert(toks[end + 0].tok == close[0]);
        assert(x =~= emit_origin(some[0]) + emit_origins(some, 1));
        assert forall|i: int| 0 <= i < some.len() implies exists|k: int|
            0 <= k < t.results.len() && t.results[k] == #[trigger] some[i] by {
            crate::printer::lemma_filter_member(t.results, is_some, i);
        }
        let s3 = Parsing { pos: p2 + 2, ..s2 };
        assert(some.take(0) =~= Seq::empty());
        assert(traced_results(m2, ids, t.results, some.take(0)));
        origins_parse(toks, s3, op, t.results, some, 0, lo);
        let u = origins(toks, s3, op)->Ok_0;
        let m3 = u.module;
        assert(m3.ops == m2.ops);
        assert forall|k: int| 0 <= k < n implies has_origin(
            m3.value(ids[k]).provenance,
            #[trigger] t.results[k],
        ) by {
            assert(result_ok(t.results[k]));
            if is_interesting(t.results[k]) {
                crate::printer::lemma_filter_index(t.results, is_some, k);
                let q = t.results.take(k).filter(is_some).len() as int;
                assert(some[q] == t.results[k]);
                assert(some.contains(t.results[k]));
            } else {
                if some.contains(t.results[k]) {
                    let q = choose|q: int| 0 <= q < some.len() && some[q] == t.results[k];
                    crate::printer::lemma_filter_member(t.results, is_some, q);
                }
                one_is_one(t.results[k].confidence);
            }
        }
        assert(finishes_op(s.module, m3, op, t, lo));
    }
}

} // verus!
