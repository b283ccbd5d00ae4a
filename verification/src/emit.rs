//! The tokens a printed program is made of.

use vstd::prelude::*;

use crate::assoc::{keys, sorted};
use crate::attribute::{bool_text, entries_text, escaped, items_text, AttributeView};
use crate::capability::CapabilityView;
use crate::effect::{EffectClass, EffectView};
use crate::lexer::{is_ident_continue, is_punct, is_space, TokView};
use crate::module::OpNameView;
use crate::number::{number_eq, Number};
use crate::provenance::{Source, Validity};
use crate::relex::{
    ends_word, is_name, is_readable, is_word, reads_int, reads_number, reads_punct,
    reads_sigil, reads_string, reads_type_name, reads_word, sigil_tok, skips_blank, stands,
    stands_in_parts, yields, yields_both,
};
use crate::text::{int_text, nat_text};
use crate::tree::{
    args_text, attributes_text, blocks_text, body_text, capabilities_text, capability_text,
    grants_text, head_text, indent_text, interesting, is_branched, is_interesting, is_labelled,
    label_text, module_text, op_text, operands_text, ops_text, origin_text, origins_text,
    region_text, regions_text, result_names_text, result_types_text, separator, tail_text,
    BlockTree, ModuleTree, OpTree, RegionTree, ResultTree,
};
use crate::types::{shape_text, DType, TypeView};

verus! {

/// Whether a text is read as some tokens wherever it stands, provided that no
/// word goes on behind it.
pub open spec fn spells(text: Seq<char>, out: Seq<TokView>) -> bool {
    forall|chars: Seq<char>, pos: int| #[trigger]
        stands(chars, pos, text) && ends_word(chars, (pos + text.len()) as int) ==> yields(
            chars,
            pos,
            out,
            pos + text.len(),
        )
}

/// Whether a text is read as some tokens wherever it stands.
pub open spec fn closed_off(text: Seq<char>, out: Seq<TokView>) -> bool {
    forall|chars: Seq<char>, pos: int| #[trigger]
        stands(chars, pos, text) ==> yields(chars, pos, out, pos + text.len())
}

/// Whether a text starts with something that ends a word.
pub open spec fn breaks(text: Seq<char>) -> bool {
    text.len() > 0 && !is_ident_continue(text[0]) && text[0] != '.'
}

proof fn closed_is_spelled(a: Seq<char>, x: Seq<TokView>)
    requires
        closed_off(a, x),
    ensures
        spells(a, x),
{
}

proof fn closed_then_spelled(a: Seq<char>, x: Seq<TokView>, b: Seq<char>, y: Seq<TokView>)
    requires
        closed_off(a, x),
        spells(b, y),
    ensures
        spells(a + b, x + y),
{
    assert forall|chars: Seq<char>, pos: int| #[trigger]
        stands(chars, pos, a + b) && ends_word(chars, (pos + (a + b).len()) as int) implies yields(
        chars,
        pos,
        x + y,
        pos + (a + b).len(),
    ) by {
        stands_in_parts(chars, pos, a, b);
        yields_both(chars, pos, x, pos + a.len(), y, pos + a.len() + b.len());
    }
}

proof fn closed_then_closed(a: Seq<char>, x: Seq<TokView>, b: Seq<char>, y: Seq<TokView>)
    requires
        closed_off(a, x),
        closed_off(b, y),
    ensures
        closed_off(a + b, x + y),
{
    assert forall|chars: Seq<char>, pos: int| #[trigger] stands(chars, pos, a + b) implies yields(
        chars,
        pos,
        x + y,
        pos + (a + b).len(),
    ) by {
        stands_in_parts(chars, pos, a, b);
        yields_both(chars, pos, x, pos + a.len(), y, pos + a.len() + b.len());
    }
}

proof fn spelled_then_closed(a: Seq<char>, x: Seq<TokView>, b: Seq<char>, y: Seq<TokView>)
    requires
        spells(a, x),
        closed_off(b, y),
        breaks(b),
    ensures
        closed_off(a + b, x + y),
{
    assert forall|chars: Seq<char>, pos: int| #[trigger] stands(chars, pos, a + b) implies yields(
        chars,
        pos,
        x + y,
        pos + (a + b).len(),
    ) by {
        stands_in_parts(chars, pos, a, b);
        assert(chars[pos + a.len() + 0] == b[0]);
        yields_both(chars, pos, x, pos + a.len(), y, pos + a.len() + b.len());
    }
}

proof fn spelled_then_spelled(a: Seq<char>, x: Seq<TokView>, b: Seq<char>, y: Seq<TokView>)
    requires
        spells(a, x),
        spells(b, y),
        breaks(b),
    ensures
        spells(a + b, x + y),
{
    assert forall|chars: Seq<char>, pos: int| #[trigger]
        stands(chars, pos, a + b) && ends_word(chars, (pos + (a + b).len()) as int) implies yields(
        chars,
        pos,
        x + y,
        pos + (a + b).len(),
    ) by {
        stands_in_parts(chars, pos, a, b);
        assert(chars[pos + a.len() + 0] == b[0]);
        yields_both(chars, pos, x, pos + a.len(), y, pos + a.len() + b.len());
    }
}

/// Nothing spells nothing.
proof fn nothing_closed()
    ensures
        closed_off(Seq::empty(), Seq::empty()),
{
    assert forall|chars: Seq<char>, pos: int| #[trigger]
        stands(chars, pos, Seq::<char>::empty()) implies yields(
        chars,
        pos,
        Seq::empty(),
        pos + Seq::<char>::empty().len(),
    ) by {
        crate::relex::yields_nothing(chars, pos);
    }
}

proof fn blank_closed(text: Seq<char>)
    requires
        forall|i: int| 0 <= i < text.len() ==> is_space(#[trigger] text[i]),
    ensures
        closed_off(text, Seq::empty()),
{
    assert forall|chars: Seq<char>, pos: int| #[trigger] stands(chars, pos, text) implies yields(
        chars,
        pos,
        Seq::empty(),
        pos + text.len(),
    ) by {
        skips_blank(chars, pos, text);
    }
}

proof fn punct_closed(c: char)
    requires
        is_punct(c),
    ensures
        closed_off(seq![c], seq![TokView::Punct(c)]),
{
    assert forall|chars: Seq<char>, pos: int| #[trigger] stands(chars, pos, seq![c]) implies yields(
        chars,
        pos,
        seq![TokView::Punct(c)],
        pos + seq![c].len(),
    ) by {
        reads_punct(chars, pos, c);
    }
}

proof fn word_spelled(s: Seq<char>)
    requires
        is_word(s),
    ensures
        spells(s, seq![TokView::Ident(s)]),
{
    assert forall|chars: Seq<char>, pos: int| #[trigger]
        stands(chars, pos, s) && ends_word(chars, (pos + s.len()) as int) implies yields(
        chars,
        pos,
        seq![TokView::Ident(s)],
        pos + s.len(),
    ) by {
        reads_word(chars, pos, s);
    }
}

proof fn sigil_spelled(sigil: char, s: Seq<char>)
    requires
        sigil == '%' || sigil == '@' || sigil == '^' || sigil == '#',
        is_name(s),
    ensures
        spells(seq![sigil] + s, seq![sigil_tok(sigil, s)]),
{
    let text = seq![sigil] + s;
    assert forall|chars: Seq<char>, pos: int| #[trigger]
        stands(chars, pos, text) && ends_word(chars, (pos + text.len()) as int) implies yields(
        chars,
        pos,
        seq![sigil_tok(sigil, s)],
        pos + text.len(),
    ) by {
        reads_sigil(chars, pos, sigil, s);
    }
}

proof fn type_name_spelled(a: Seq<char>, b: Seq<char>)
    requires
        is_word(a),
        is_word(b),
    ensures
        spells(
            seq!['!'] + (a + seq!['.'] + b),
            seq![TokView::TypeName(a + seq!['.'] + b)],
        ),
{
    let text = seq!['!'] + (a + seq!['.'] + b);
    let out = seq![TokView::TypeName(a + seq!['.'] + b)];
    assert forall|chars: Seq<char>, pos: int| #[trigger]
        stands(chars, pos, text) && ends_word(chars, (pos + text.len()) as int) implies yields(
        chars,
        pos,
        out,
        pos + text.len(),
    ) by {
        reads_type_name(chars, pos, a, b);
    }
}

proof fn string_closed(s: Seq<char>)
    ensures
        closed_off(seq!['"'] + escaped(s) + seq!['"'], seq![TokView::Str(s)]),
{
    let text = seq!['"'] + escaped(s) + seq!['"'];
    assert forall|chars: Seq<char>, pos: int| #[trigger] stands(chars, pos, text) implies yields(
        chars,
        pos,
        seq![TokView::Str(s)],
        pos + text.len(),
    ) by {
        reads_string(chars, pos, s);
    }
}

proof fn int_spelled(v: i64)
    ensures
        spells(int_text(v as int), seq![TokView::Int(v)]),
{
    let text = int_text(v as int);
    assert forall|chars: Seq<char>, pos: int| #[trigger]
        stands(chars, pos, text) && ends_word(chars, (pos + text.len()) as int) implies yields(
        chars,
        pos,
        seq![TokView::Int(v)],
        pos + text.len(),
    ) by {
        reads_int(chars, pos, v);
    }
}

proof fn number_spelled(n: Number)
    requires
        is_readable(n),
    ensures
        spells(n.literal_text(), seq![TokView::Float(n)]),
{
    let text = n.literal_text();
    assert forall|chars: Seq<char>, pos: int| #[trigger]
        stands(chars, pos, text) && ends_word(chars, (pos + text.len()) as int) implies yields(
        chars,
        pos,
        seq![TokView::Float(n)],
        pos + text.len(),
    ) by {
        reads_number(chars, pos, n);
    }
}

/// A dotted operation name.
proof fn dotted_spelled(a: Seq<char>, b: Seq<char>)
    requires
        is_word(a),
        is_word(b),
    ensures
        spells(
            a + seq!['.'] + b,
            seq![TokView::Ident(a), TokView::Punct('.'), TokView::Ident(b)],
        ),
{
    let text = a + seq!['.'] + b;
    let out = seq![TokView::Ident(a), TokView::Punct('.'), TokView::Ident(b)];
    assert forall|chars: Seq<char>, pos: int| #[trigger]
        stands(chars, pos, text) && ends_word(chars, (pos + text.len()) as int) implies yields(
        chars,
        pos,
        out,
        pos + text.len(),
    ) by {
        stands_in_parts(chars, pos, a + seq!['.'], b);
        stands_in_parts(chars, pos, a, seq!['.']);
        let dot = pos + a.len();
        assert(chars[dot + 0] == seq!['.'][0]);
        reads_word(chars, pos, a);
        reads_punct(chars, dot, '.');
        reads_word(chars, dot + 1, b);
        let x = seq![TokView::Ident(a)];
        let y = seq![TokView::Punct('.')];
        let z = seq![TokView::Ident(b)];
        yields_both(chars, pos, x, dot, y, dot + 1);
        yields_both(chars, pos, x + y, dot + 1, z, dot + 1 + b.len());
        assert(x + y + z =~= out);
    }
}

/// A space and a punctuation character, or the other way round.
proof fn spaced_closed(c: char)
    requires
        is_punct(c),
    ensures
        closed_off(seq![' ', c], seq![TokView::Punct(c)]),
        closed_off(seq![c, ' '], seq![TokView::Punct(c)]),
        closed_off(seq![' ', c, ' '], seq![TokView::Punct(c)]),
        closed_off(seq![c, '\n'], seq![TokView::Punct(c)]),
        closed_off(seq![' ', c, '\n'], seq![TokView::Punct(c)]),
{
    let none = Seq::<TokView>::empty();
    let tok = seq![TokView::Punct(c)];
    punct_closed(c);
    blank_closed(seq![' ']);
    blank_closed(seq!['\n']);
    assert(none + tok =~= tok);
    assert(tok + none =~= tok);
    closed_then_closed(seq![' '], none, seq![c], tok);
    assert(seq![' '] + seq![c] =~= seq![' ', c]);
    closed_then_closed(seq![c], tok, seq![' '], none);
    assert(seq![c] + seq![' '] =~= seq![c, ' ']);
    closed_then_closed(seq![' ', c], tok, seq![' '], none);
    assert(seq![' ', c] + seq![' '] =~= seq![' ', c, ' ']);
    closed_then_closed(seq![c], tok, seq!['\n'], none);
    assert(seq![c] + seq!['\n'] =~= seq![c, '\n']);
    closed_then_closed(seq![' ', c], tok, seq!['\n'], none);
    assert(seq![' ', c] + seq!['\n'] =~= seq![' ', c, '\n']);
}

// ------------------------------------------------------------------ effects

/// The tokens of an effect.
pub open spec fn emit_effect(e: EffectView) -> Seq<TokView> {
    match e.scope() {
        Some(Some(name)) => seq![
            TokView::Effect(e.class().text()),
            TokView::Punct('<'),
            TokView::Ident(name),
            TokView::Punct('>'),
        ],
        _ => seq![TokView::Effect(e.class().text())],
    }
}

/// Whether an effect can be read back: its scope is an identifier.
pub open spec fn effect_ok(e: EffectView) -> bool {
    e.scope() matches Some(Some(name)) ==> is_word(name)
}

/// The words of the effect classes are words.
pub proof fn class_words(class: EffectClass)
    ensures
        is_word(class.text()),
        EffectClass::named(class.text()) == Some(class),
{
    reveal_strlit("pure");
    reveal_strlit("read_external");
    reveal_strlit("write_external");
    reveal_strlit("irreversible");
    reveal_strlit("stochastic");
    crate::effect::effect_class_words_round_trip(class);
}

proof fn effect_spelled(e: EffectView)
    requires
        effect_ok(e),
    ensures
        spells(e.text(), emit_effect(e)),
{
    let class = e.class().text();
    class_words(e.class());
    reveal_strlit("#");
    reveal_strlit("<");
    reveal_strlit(">");
    assert("#"@ =~= seq!['#']);
    assert("<"@ =~= seq!['<']);
    assert(">"@ =~= seq!['>']);
    sigil_spelled('#', class);
    let head = "#"@ + class;
    let x = seq![TokView::Effect(class)];
    if let Some(Some(name)) = e.scope() {
        punct_closed('<');
        punct_closed('>');
        word_spelled(name);
        spelled_then_closed(head, x, "<"@, seq![TokView::Punct('<')]);
        let y = x + seq![TokView::Punct('<')];
        closed_then_spelled(head + "<"@, y, name, seq![TokView::Ident(name)]);
        let z = y + seq![TokView::Ident(name)];
        spelled_then_closed(head + "<"@ + name, z, ">"@, seq![TokView::Punct('>')]);
        assert(z + seq![TokView::Punct('>')] =~= emit_effect(e));
    }
}

// -------------------------------------------------------------------- types

/// The tokens of a name in angle brackets.
pub open spec fn emit_bracketed(name: Seq<char>) -> Seq<TokView> {
    seq![TokView::Punct('<'), TokView::Ident(name), TokView::Punct('>')]
}

/// The tokens of the dimensions of a tensor, each followed by a comma.
pub open spec fn emit_shape(shape: Seq<i64>) -> Seq<TokView>
    decreases shape.len(),
{
    if shape.len() == 0 {
        Seq::empty()
    } else {
        emit_shape(shape.drop_last()) + seq![TokView::Int(shape.last()), TokView::Punct(',')]
    }
}

/// The tokens of a type.
pub open spec fn emit_type(ty: TypeView) -> Seq<TokView> {
    match ty {
        TypeView::Int => seq![TokView::TypeName("core.int"@)],
        TypeView::Float => seq![TokView::TypeName("core.float"@)],
        TypeView::Bool => seq![TokView::TypeName("core.bool"@)],
        TypeView::Str => seq![TokView::TypeName("core.string"@)],
        TypeView::Plan => seq![TokView::TypeName("agent.plan"@)],
        TypeView::Memory => seq![TokView::TypeName("memory.memory"@)],
        TypeView::Unknown => seq![TokView::TypeName("core.unknown"@)],
        TypeView::Ref { resource } => seq![TokView::TypeName("tool.ref"@)] + emit_bracketed(
            resource,
        ),
        TypeView::Observation { schema } => seq![TokView::TypeName("observation.observation"@)]
            + emit_bracketed(schema),
        TypeView::ToolResult { schema } => seq![TokView::TypeName("tool.result"@)]
            + emit_bracketed(schema),
        TypeView::Tensor { shape, dtype } => seq![
            TokView::TypeName("core.tensor"@),
            TokView::Punct('<'),
        ] + emit_shape(shape) + seq![TokView::Ident(dtype.text()), TokView::Punct('>')],
    }
}

/// Whether a type can be read back: what it is a type of is an identifier.
pub open spec fn type_ok(ty: TypeView) -> bool {
    match ty {
        TypeView::Ref { resource } => is_word(resource),
        TypeView::Observation { schema } => is_word(schema),
        TypeView::ToolResult { schema } => is_word(schema),
        _ => true,
    }
}

/// The element types are words.
pub proof fn dtype_words(d: DType)
    ensures
        is_word(d.text()),
        DType::named(d.text()) == Some(d),
{
    reveal_strlit("i32");
    reveal_strlit("i64");
    reveal_strlit("f32");
    reveal_strlit("f64");
    reveal_strlit("i1");
    crate::types::dtype_words_round_trip(d);
}

proof fn simple_type_spelled(text: Seq<char>, name: Seq<char>, a: Seq<char>, b: Seq<char>)
    requires
        is_word(a),
        is_word(b),
        name =~= a + seq!['.'] + b,
        text =~= seq!['!'] + name,
    ensures
        spells(text, seq![TokView::TypeName(name)]),
{
    type_name_spelled(a, b);
}

proof fn bracketed_type_spelled(
    text: Seq<char>,
    name: Seq<char>,
    a: Seq<char>,
    b: Seq<char>,
    argument: Seq<char>,
)
    requires
        is_word(a),
        is_word(b),
        is_word(argument),
        name =~= a + seq!['.'] + b,
        text =~= seq!['!'] + name + seq!['<'],
    ensures
        spells(
            text + argument + ">"@,
            seq![TokView::TypeName(name)] + emit_bracketed(argument),
        ),
{
    reveal_strlit(">");
    assert(">"@ =~= seq!['>']);
    simple_type_spelled(seq!['!'] + name, name, a, b);
    punct_closed('<');
    punct_closed('>');
    word_spelled(argument);
    let x = seq![TokView::TypeName(name)];
    spelled_then_closed(seq!['!'] + name, x, seq!['<'], seq![TokView::Punct('<')]);
    let y = x + seq![TokView::Punct('<')];
    closed_then_spelled(text, y, argument, seq![TokView::Ident(argument)]);
    let z = y + seq![TokView::Ident(argument)];
    spelled_then_closed(text + argument, z, ">"@, seq![TokView::Punct('>')]);
    assert(z + seq![TokView::Punct('>')] =~= x + emit_bracketed(argument));
}

proof fn shape_closed(shape: Seq<i64>)
    ensures
        closed_off(shape_text(shape), emit_shape(shape)),
    decreases shape.len(),
{
    if shape.len() == 0 {
        nothing_closed();
    } else {
        let front = shape.drop_last();
        let v = shape.last();
        shape_closed(front);
        int_spelled(v);
        reveal_strlit(", ");
        assert(", "@ =~= seq![',', ' ']);
        spaced_closed(',');
        let x = emit_shape(front);
        let y = seq![TokView::Int(v)];
        let z = seq![TokView::Punct(',')];
        closed_then_spelled(shape_text(front), x, int_text(v as int), y);
        spelled_then_closed(shape_text(front) + int_text(v as int), x + y, ", "@, z);
        assert(x + y + z =~= emit_shape(shape));
    }
}

proof fn type_spelled(ty: TypeView)
    requires
        type_ok(ty),
    ensures
        spells(ty.text(), emit_type(ty)),
{
    reveal_strlit("core");
    reveal_strlit("tool");
    reveal_strlit("agent");
    reveal_strlit("memory");
    match ty {
        TypeView::Int => {
            reveal_strlit("!core.int");
            reveal_strlit("core.int");
            reveal_strlit("int");
            simple_type_spelled(ty.text(), "core.int"@, "core"@, "int"@);
        },
        TypeView::Float => {
            reveal_strlit("!core.float");
            reveal_strlit("core.float");
            reveal_strlit("float");
            simple_type_spelled(ty.text(), "core.float"@, "core"@, "float"@);
        },
        TypeView::Bool => {
            reveal_strlit("!core.bool");
            reveal_strlit("core.bool");
            reveal_strlit("bool");
            simple_type_spelled(ty.text(), "core.bool"@, "core"@, "bool"@);
        },
        TypeView::Str => {
            reveal_strlit("!core.string");
            reveal_strlit("core.string");
            reveal_strlit("string");
            simple_type_spelled(ty.text(), "core.string"@, "core"@, "string"@);
        },
        TypeView::Plan => {
            reveal_strlit("!agent.plan");
            reveal_strlit("agent.plan");
            reveal_strlit("plan");
            simple_type_spelled(ty.text(), "agent.plan"@, "agent"@, "plan"@);
        },
        TypeView::Memory => {
            reveal_strlit("!memory.memory");
            reveal_strlit("memory.memory");
            simple_type_spelled(ty.text(), "memory.memory"@, "memory"@, "memory"@);
        },
        TypeView::Unknown => {
            reveal_strlit("!core.unknown");
            reveal_strlit("core.unknown");
            reveal_strlit("unknown");
            simple_type_spelled(ty.text(), "core.unknown"@, "core"@, "unknown"@);
        },
        TypeView::Ref { resource } => {
            reveal_strlit("!tool.ref<");
            reveal_strlit("tool.ref");
            reveal_strlit("ref");
            bracketed_type_spelled("!tool.ref<"@, "tool.ref"@, "tool"@, "ref"@, resource);
        },
        TypeView::ToolResult { schema } => {
            reveal_strlit("!tool.result<");
            reveal_strlit("tool.result");
            reveal_strlit("result");
            bracketed_type_spelled(
                "!tool.result<"@,
                "tool.result"@,
                "tool"@,
                "result"@,
                schema,
            );
        },
        TypeView::Observation { schema } => {
            reveal_strlit("!observation.observation<");
            reveal_strlit("observation.observation");
            reveal_strlit("observation");
            bracketed_type_spelled(
                "!observation.observation<"@,
                "observation.observation"@,
                "observation"@,
                "observation"@,
                schema,
            );
        },
        TypeView::Tensor { shape, dtype } => {
            tensor_spelled(shape, dtype);
        },
    }
}

proof fn tensor_spelled(shape: Seq<i64>, dtype: DType)
    ensures
        spells(
            (TypeView::Tensor { shape, dtype }).text(),
            emit_type(TypeView::Tensor { shape, dtype }),
        ),
{
    reveal_strlit("!core.tensor<");
    reveal_strlit("core.tensor");
    reveal_strlit("core");
    reveal_strlit("tensor");
    reveal_strlit(">");
    assert(">"@ =~= seq!['>']);
    let name = "core.tensor"@;
    assert(name =~= "core"@ + seq!['.'] + "tensor"@);
    assert("!core.tensor<"@ =~= seq!['!'] + name + seq!['<']);
    simple_type_spelled(seq!['!'] + name, name, "core"@, "tensor"@);
    punct_closed('<');
    punct_closed('>');
    dtype_words(dtype);
    word_spelled(dtype.text());
    shape_closed(shape);
    let x = seq![TokView::TypeName(name)] + seq![TokView::Punct('<')];
    let y = emit_shape(shape);
    let z = seq![TokView::Ident(dtype.text())];
    let w = seq![TokView::Punct('>')];
    spelled_then_closed(
        seq!['!'] + name,
        seq![TokView::TypeName(name)],
        seq!['<'],
        seq![TokView::Punct('<')],
    );
    closed_then_closed("!core.tensor<"@, x, shape_text(shape), y);
    closed_then_spelled("!core.tensor<"@ + shape_text(shape), x + y, dtype.text(), z);
    spelled_then_closed(
        "!core.tensor<"@ + shape_text(shape) + dtype.text(),
        x + y + z,
        ">"@,
        w,
    );
    assert(x + y + z + w =~= emit_type(TypeView::Tensor { shape, dtype }));
}

// --------------------------------------------------------------- attributes

/// The tokens before an item of a list.
pub open spec fn emit_separator(i: int) -> Seq<TokView> {
    if i > 0 {
        seq![TokView::Punct(',')]
    } else {
        Seq::empty()
    }
}

/// The tokens of an attribute.
pub open spec fn emit_attr(a: AttributeView) -> Seq<TokView>
    decreases a, 0int,
{
    match a {
        AttributeView::Int(v) => seq![TokView::Int(v)],
        AttributeView::Float(n) => seq![TokView::Float(n)],
        AttributeView::Bool(b) => seq![TokView::Ident(bool_text(b))],
        AttributeView::Str(s) => seq![TokView::Str(s)],
        AttributeView::Effect(e) => emit_effect(e),
        AttributeView::Array(items) => seq![TokView::Punct('[')] + emit_items(items, 0) + seq![
            TokView::Punct(']'),
        ],
        AttributeView::Dict(entries) => seq![TokView::Punct('{')] + emit_entries(entries, 0) + seq![
            TokView::Punct('}'),
        ],
    }
}

/// The tokens of the items from position `i` on.
pub open spec fn emit_items(items: Seq<AttributeView>, i: int) -> Seq<TokView>
    decreases items, items.len() - i,
    via emit_items_decreases
{
    if i < 0 || i >= items.len() {
        Seq::empty()
    } else {
        emit_separator(i) + emit_attr(items[i]) + emit_items(items, i + 1)
    }
}

#[via_fn]
proof fn emit_items_decreases(items: Seq<AttributeView>, i: int) {
    if 0 <= i < items.len() {
        assert(decreases_to!(items => items[i]));
    }
}

/// The tokens of the entries from position `i` on.
pub open spec fn emit_entries(entries: Seq<(Seq<char>, AttributeView)>, i: int) -> Seq<TokView>
    decreases entries, entries.len() - i,
    via emit_entries_decreases
{
    if i < 0 || i >= entries.len() {
        Seq::empty()
    } else {
        emit_separator(i) + seq![TokView::Ident(entries[i].0), TokView::Punct('=')] + emit_attr(
            entries[i].1,
        ) + emit_entries(entries, i + 1)
    }
}

#[via_fn]
proof fn emit_entries_decreases(entries: Seq<(Seq<char>, AttributeView)>, i: int) {
    if 0 <= i < entries.len() {
        assert(decreases_to!(entries => entries[i]));
        assert(decreases_to!(entries[i] => entries[i].1));
    }
}

/// Whether an attribute can be read back: its numbers are readable, its effects
/// and keys are identifiers, its dictionaries are in key order, and an entry
/// named `effect` is an effect.
pub open spec fn attr_ok(a: AttributeView) -> bool
    decreases a,
{
    match a {
        AttributeView::Float(n) => is_readable(n),
        AttributeView::Effect(e) => effect_ok(e),
        AttributeView::Array(items) => forall|i: int|
            0 <= i < items.len() ==> attr_ok(#[trigger] items[i]),
        AttributeView::Dict(entries) => {
            &&& sorted(keys(entries))
            &&& forall|i: int|
                0 <= i < entries.len() ==> is_word((#[trigger] entries[i]).0) && attr_ok(
                    entries[i].1,
                ) && (entries[i].0 == "effect"@ ==> entries[i].1 is Effect)
        },
        _ => true,
    }
}

/// One more item of a list.
proof fn list_step(
    sep: Seq<char>,
    s: Seq<TokView>,
    item: Seq<char>,
    x: Seq<TokView>,
    rest: Seq<char>,
    y: Seq<TokView>,
)
    requires
        closed_off(sep, s),
        spells(item, x),
        spells(rest, y),
        breaks(rest) || (rest.len() == 0 && y.len() == 0),
    ensures
        spells(sep + item + rest, s + x + y),
{
    closed_then_spelled(sep, s, item, x);
    if breaks(rest) {
        spelled_then_spelled(sep + item, s + x, rest, y);
    } else {
        assert(sep + item + rest =~= sep + item);
        assert(s + x + y =~= s + x);
    }
}

/// A separator is read as such.
proof fn separator_closed(i: int)
    ensures
        closed_off(separator(i), emit_separator(i)),
        i > 0 ==> breaks(separator(i)),
{
    reveal_strlit(", ");
    assert(", "@ =~= seq![',', ' ']);
    spaced_closed(',');
    nothing_closed();
}

/// What may stand behind a text.
proof fn add_optional(a: Seq<char>, x: Seq<TokView>, b: Seq<char>, y: Seq<TokView>)
    requires
        spells(a, x),
        (b.len() == 0 && y.len() == 0) || (spells(b, y) && breaks(b)),
    ensures
        spells(a + b, x + y),
{
    if b.len() == 0 {
        assert(a + b =~= a);
        assert(x + y =~= x);
    } else {
        spelled_then_spelled(a, x, b, y);
    }
}

/// A key and what it is set to.
proof fn entry_spelled(key: Seq<char>, value: Seq<char>, x: Seq<TokView>)
    requires
        is_word(key),
        spells(value, x),
    ensures
        spells(key + " = "@ + value, seq![TokView::Ident(key), TokView::Punct('=')] + x),
{
    reveal_strlit(" = ");
    assert(" = "@ =~= seq![' ', '=', ' ']);
    spaced_closed('=');
    word_spelled(key);
    let k = seq![TokView::Ident(key)];
    let e = seq![TokView::Punct('=')];
    spelled_then_closed(key, k, " = "@, e);
    closed_then_spelled(key + " = "@, k + e, value, x);
    assert(k + e =~= seq![TokView::Ident(key), TokView::Punct('=')]);
}

pub proof fn attr_spelled(a: AttributeView)
    requires
        attr_ok(a),
    ensures
        spells(a.text(), emit_attr(a)),
    decreases a, 0int,
{
    match a {
        AttributeView::Int(v) => {
            int_spelled(v);
        },
        AttributeView::Float(n) => {
            number_spelled(n);
        },
        AttributeView::Bool(b) => {
            reveal_strlit("true");
            reveal_strlit("false");
            word_spelled(bool_text(b));
        },
        AttributeView::Str(s) => {
            reveal_strlit("\"");
            assert("\""@ =~= seq!['"']);
            string_closed(s);
            closed_is_spelled(a.text(), emit_attr(a));
        },
        AttributeView::Effect(e) => {
            effect_spelled(e);
        },
        AttributeView::Array(items) => {
            reveal_strlit("[");
            reveal_strlit("]");
            assert("["@ =~= seq!['[']);
            assert("]"@ =~= seq![']']);
            punct_closed('[');
            punct_closed(']');
            items_spelled(items, 0);
            let x = seq![TokView::Punct('[')];
            closed_then_spelled("["@, x, items_text(items, 0), emit_items(items, 0));
            spelled_then_closed(
                "["@ + items_text(items, 0),
                x + emit_items(items, 0),
                "]"@,
                seq![TokView::Punct(']')],
            );
        },
        AttributeView::Dict(entries) => {
            reveal_strlit("{");
            reveal_strlit("}");
            assert("{"@ =~= seq!['{']);
            assert("}"@ =~= seq!['}']);
            punct_closed('{');
            punct_closed('}');
            entries_spelled(entries, 0);
            let x = seq![TokView::Punct('{')];
            closed_then_spelled("{"@, x, entries_text(entries, 0), emit_entries(entries, 0));
            spelled_then_closed(
                "{"@ + entries_text(entries, 0),
                x + emit_entries(entries, 0),
                "}"@,
                seq![TokView::Punct('}')],
            );
        },
    }
}

proof fn items_spelled(items: Seq<AttributeView>, i: int)
    requires
        0 <= i,
        forall|k: int| 0 <= k < items.len() ==> attr_ok(#[trigger] items[k]),
    ensures
        spells(items_text(items, i), emit_items(items, i)),
        i > 0 && i < items.len() ==> breaks(items_text(items, i)),
        i >= items.len() ==> items_text(items, i).len() == 0 && emit_items(items, i).len() == 0,
    decreases items, items.len() - i,
{
    if i >= items.len() {
        nothing_closed();
    } else {
        assert(decreases_to!(items => items[i]));
        attr_spelled(items[i]);
        items_spelled(items, i + 1);
        separator_closed(i);
        list_step(
            separator(i),
            emit_separator(i),
            items[i].text(),
            emit_attr(items[i]),
            items_text(items, i + 1),
            emit_items(items, i + 1),
        );
        if i > 0 {
            assert(items_text(items, i)[0] == separator(i)[0]);
        }
    }
}

proof fn entries_spelled(entries: Seq<(Seq<char>, AttributeView)>, i: int)
    requires
        0 <= i,
        forall|k: int|
            0 <= k < entries.len() ==> is_word((#[trigger] entries[k]).0) && attr_ok(entries[k].1),
    ensures
        spells(entries_text(entries, i), emit_entries(entries, i)),
        i > 0 && i < entries.len() ==> breaks(entries_text(entries, i)),
        i >= entries.len() ==> entries_text(entries, i).len() == 0 && emit_entries(
            entries,
            i,
        ).len() == 0,
    decreases entries, entries.len() - i,
{
    if i >= entries.len() {
        nothing_closed();
    } else {
        assert(decreases_to!(entries => entries[i]));
        assert(decreases_to!(entries[i] => entries[i].1));
        let (key, value) = entries[i];
        attr_spelled(value);
        entries_spelled(entries, i + 1);
        separator_closed(i);
        entry_spelled(key, value.text(), emit_attr(value));
        let item = key + " = "@ + value.text();
        let x = seq![TokView::Ident(key), TokView::Punct('=')] + emit_attr(value);
        list_step(
            separator(i),
            emit_separator(i),
            item,
            x,
            entries_text(entries, i + 1),
            emit_entries(entries, i + 1),
        );
        assert(separator(i) + item + entries_text(entries, i + 1) =~= entries_text(entries, i));
        assert(emit_separator(i) + x + emit_entries(entries, i + 1) =~= emit_entries(entries, i));
        if i > 0 {
            assert(entries_text(entries, i)[0] == separator(i)[0]);
        }
    }
}

// --------------------------------------------------------------- operations

/// The tokens of value names from position `i` on.
pub open spec fn emit_names(names: Seq<Seq<char>>, i: int) -> Seq<TokView>
    decreases names.len() - i,
{
    if i < 0 || i >= names.len() {
        Seq::empty()
    } else {
        emit_separator(i) + seq![TokView::Value(names[i])] + emit_names(names, i + 1)
    }
}

/// The names of some results.
pub open spec fn result_names(results: Seq<ResultTree>) -> Seq<Seq<char>> {
    Seq::new(results.len(), |i: int| results[i].name)
}

proof fn names_spelled(names: Seq<Seq<char>>, i: int)
    requires
        0 <= i,
        forall|k: int| 0 <= k < names.len() ==> is_name(#[trigger] names[k]),
    ensures
        spells(operands_text(names, i), emit_names(names, i)),
        i > 0 && i < names.len() ==> breaks(operands_text(names, i)),
        i >= names.len() ==> operands_text(names, i).len() == 0 && emit_names(names, i).len() == 0,
    decreases names.len() - i,
{
    if i >= names.len() {
        nothing_closed();
    } else {
        names_spelled(names, i + 1);
        separator_closed(i);
        reveal_strlit("%");
        assert("%"@ =~= seq!['%']);
        sigil_spelled('%', names[i]);
        let item = "%"@ + names[i];
        list_step(
            separator(i),
            emit_separator(i),
            item,
            seq![TokView::Value(names[i])],
            operands_text(names, i + 1),
            emit_names(names, i + 1),
        );
        assert(separator(i) + item + operands_text(names, i + 1) =~= operands_text(names, i));
        if i > 0 {
            assert(operands_text(names, i)[0] == separator(i)[0]);
        }
    }
}

proof fn result_names_agree(results: Seq<ResultTree>, i: int)
    ensures
        result_names_text(results, i) == operands_text(result_names(results), i),
    decreases results.len() - i,
{
    if 0 <= i < results.len() {
        result_names_agree(results, i + 1);
    }
}

/// The tokens of the result types from position `i` on.
pub open spec fn emit_types(results: Seq<ResultTree>, i: int) -> Seq<TokView>
    decreases results.len() - i,
{
    if i < 0 || i >= results.len() {
        Seq::empty()
    } else {
        emit_separator(i) + emit_type(results[i].ty) + emit_types(results, i + 1)
    }
}

/// Whether a result can be read back.
pub open spec fn result_ok(r: ResultTree) -> bool {
    is_name(r.name) && type_ok(r.ty) && is_readable(r.confidence)
}

/// Whether all of some results can be read back.
pub open spec fn results_ok(results: Seq<ResultTree>) -> bool {
    forall|i: int| 0 <= i < results.len() ==> result_ok(#[trigger] results[i])
}

proof fn types_spelled(results: Seq<ResultTree>, i: int)
    requires
        0 <= i,
        results_ok(results),
    ensures
        spells(result_types_text(results, i), emit_types(results, i)),
        i > 0 && i < results.len() ==> breaks(result_types_text(results, i)),
        i >= results.len() ==> result_types_text(results, i).len() == 0 && emit_types(
            results,
            i,
        ).len() == 0,
    decreases results.len() - i,
{
    if i >= results.len() {
        nothing_closed();
    } else {
        types_spelled(results, i + 1);
        separator_closed(i);
        assert(result_ok(results[i]));
        type_spelled(results[i].ty);
        list_step(
            separator(i),
            emit_separator(i),
            results[i].ty.text(),
            emit_type(results[i].ty),
            result_types_text(results, i + 1),
            emit_types(results, i + 1),
        );
        if i > 0 {
            assert(result_types_text(results, i)[0] == separator(i)[0]);
        }
    }
}

/// The tokens of the attributes from position `i` on, each after a comma.
pub open spec fn emit_attributes(attributes: Seq<(Seq<char>, AttributeView)>, i: int) -> Seq<
    TokView,
>
    decreases attributes.len() - i,
{
    if i < 0 || i >= attributes.len() {
        Seq::empty()
    } else {
        seq![
            TokView::Punct(','),
            TokView::Ident(attributes[i].0),
            TokView::Punct('='),
        ] + emit_attr(attributes[i].1) + emit_attributes(attributes, i + 1)
    }
}

/// Whether the attributes of an operation can be read back: they are in key
/// order, and none is named like the declared effect.
pub open spec fn attributes_ok(attributes: Seq<(Seq<char>, AttributeView)>) -> bool {
    &&& sorted(keys(attributes))
    &&& forall|i: int|
        0 <= i < attributes.len() ==> is_word((#[trigger] attributes[i]).0) && attributes[i].0
            != "effect"@ && attr_ok(attributes[i].1)
}

proof fn attributes_spelled(attributes: Seq<(Seq<char>, AttributeView)>, i: int)
    requires
        0 <= i,
        attributes_ok(attributes),
    ensures
        spells(attributes_text(attributes, i), emit_attributes(attributes, i)),
        i < attributes.len() ==> breaks(attributes_text(attributes, i)),
        i >= attributes.len() ==> attributes_text(attributes, i).len() == 0 && emit_attributes(
            attributes,
            i,
        ).len() == 0,
    decreases attributes.len() - i,
{
    if i >= attributes.len() {
        nothing_closed();
    } else {
        let (key, value) = attributes[i];
        attributes_spelled(attributes, i + 1);
        attr_spelled(value);
        entry_spelled(key, value.text(), emit_attr(value));
        reveal_strlit(", ");
        assert(", "@ =~= seq![',', ' ']);
        spaced_closed(',');
        let item = key + " = "@ + value.text();
        let c = seq![TokView::Punct(',')];
        let x = seq![TokView::Ident(key), TokView::Punct('=')] + emit_attr(value);
        list_step(
            ", "@,
            c,
            item,
            x,
            attributes_text(attributes, i + 1),
            emit_attributes(attributes, i + 1),
        );
        assert(", "@ + item + attributes_text(attributes, i + 1) =~= attributes_text(
            attributes,
            i,
        ));
        assert(c + x + emit_attributes(attributes, i + 1) =~= emit_attributes(attributes, i));
        assert(attributes_text(attributes, i)[0] == ", "@[0]);
    }
}

/// The tokens of a provenance entry.
pub open spec fn emit_origin(r: ResultTree) -> Seq<TokView> {
    seq![TokView::Value(r.name), TokView::Punct('='), TokView::Ident(r.source.text())] + (
    if number_eq(r.confidence, Number::spec_one()) {
        Seq::empty()
    } else {
        seq![
            TokView::Ident("confidence"@),
            TokView::Punct('('),
            TokView::Float(r.confidence),
            TokView::Punct(')'),
        ]
    }) + (if r.validity == Validity::Valid {
        Seq::empty()
    } else {
        seq![TokView::Ident(r.validity.text())]
    })
}

/// The tokens of the provenance entries from position `i` on.
pub open spec fn emit_origins(results: Seq<ResultTree>, i: int) -> Seq<TokView>
    decreases results.len() - i,
{
    if i < 0 || i >= results.len() {
        Seq::empty()
    } else {
        emit_separator(i) + emit_origin(results[i]) + emit_origins(results, i + 1)
    }
}

/// The sources and validities are words.
pub proof fn provenance_words(source: Source, validity: Validity)
    ensures
        is_word(source.text()),
        Source::named(source.text()) == Some(source),
        is_word(validity.text()),
        Validity::named(validity.text()) == Some(validity),
{
    reveal_strlit("llm");
    reveal_strlit("tool");
    reveal_strlit("user");
    reveal_strlit("memory");
    reveal_strlit("derived");
    reveal_strlit("valid");
    reveal_strlit("stale");
    reveal_strlit("invalid");
    reveal_strlit("archived");
    crate::provenance::source_words_round_trip(source);
    crate::provenance::validity_words_round_trip(validity);
}

/// A word after a space.
proof fn spaced_word(s: Seq<char>)
    requires
        is_word(s),
    ensures
        spells(" "@ + s, seq![TokView::Ident(s)]),
        breaks(" "@ + s),
{
    reveal_strlit(" ");
    assert(" "@ =~= seq![' ']);
    blank_closed(" "@);
    word_spelled(s);
    closed_then_spelled(" "@, Seq::empty(), s, seq![TokView::Ident(s)]);
    assert(Seq::<TokView>::empty() + seq![TokView::Ident(s)] =~= seq![TokView::Ident(s)]);
    assert((" "@ + s)[0] == ' ');
}

/// A word after a space, and an opening bracket.
proof fn spaced_call(text: Seq<char>, s: Seq<char>)
    requires
        is_word(s),
        text =~= " "@ + s + seq!['('],
    ensures
        closed_off(text, seq![TokView::Ident(s), TokView::Punct('(')]),
        breaks(text),
{
    spaced_word(s);
    punct_closed('(');
    reveal_strlit(" ");
    spelled_then_closed(
        " "@ + s,
        seq![TokView::Ident(s)],
        seq!['('],
        seq![TokView::Punct('(')],
    );
    assert(seq![TokView::Ident(s)] + seq![TokView::Punct('(')] =~= seq![
        TokView::Ident(s),
        TokView::Punct('('),
    ]);
}

proof fn confidence_closed(n: Number)
    requires
        is_readable(n),
    ensures
        closed_off(
            " confidence("@ + n.literal_text() + ")"@,
            seq![
                TokView::Ident("confidence"@),
                TokView::Punct('('),
                TokView::Float(n),
                TokView::Punct(')'),
            ],
        ),
        breaks(" confidence("@ + n.literal_text() + ")"@),
{
    reveal_strlit(" confidence(");
    reveal_strlit("confidence");
    reveal_strlit(" ");
    reveal_strlit(")");
    assert(")"@ =~= seq![')']);
    spaced_call(" confidence("@, "confidence"@);
    number_spelled(n);
    punct_closed(')');
    let x = seq![TokView::Ident("confidence"@), TokView::Punct('(')];
    let y = seq![TokView::Float(n)];
    let z = seq![TokView::Punct(')')];
    closed_then_spelled(" confidence("@, x, n.literal_text(), y);
    spelled_then_closed(" confidence("@ + n.literal_text(), x + y, ")"@, z);
    assert(x + y + z =~= seq![
        TokView::Ident("confidence"@),
        TokView::Punct('('),
        TokView::Float(n),
        TokView::Punct(')'),
    ]);
}

proof fn origin_spelled(r: ResultTree)
    requires
        result_ok(r),
    ensures
        spells(origin_text(r), emit_origin(r)),
{
    provenance_words(r.source, r.validity);
    reveal_strlit("%");
    assert("%"@ =~= seq!['%']);
    reveal_strlit(" = ");
    assert(" = "@ =~= seq![' ', '=', ' ']);
    spaced_closed('=');
    sigil_spelled('%', r.name);
    word_spelled(r.source.text());
    let a = "%"@ + r.name;
    let x = seq![TokView::Value(r.name)];
    let e = seq![TokView::Punct('=')];
    let w = seq![TokView::Ident(r.source.text())];
    spelled_then_closed(a, x, " = "@, e);
    closed_then_spelled(a + " = "@, x + e, r.source.text(), w);
    let head = a + " = "@ + r.source.text();
    let conf = if number_eq(r.confidence, Number::spec_one()) {
        Seq::<char>::empty()
    } else {
        " confidence("@ + r.confidence.literal_text() + ")"@
    };
    let conf_toks = if number_eq(r.confidence, Number::spec_one()) {
        Seq::<TokView>::empty()
    } else {
        seq![
            TokView::Ident("confidence"@),
            TokView::Punct('('),
            TokView::Float(r.confidence),
            TokView::Punct(')'),
        ]
    };
    confidence_closed(r.confidence);
    add_optional(head, x + e + w, conf, conf_toks);
    let valid = if r.validity == Validity::Valid {
        Seq::<char>::empty()
    } else {
        " "@ + r.validity.text()
    };
    let valid_toks = if r.validity == Validity::Valid {
        Seq::<TokView>::empty()
    } else {
        seq![TokView::Ident(r.validity.text())]
    };
    spaced_word(r.validity.text());
    add_optional(head + conf, x + e + w + conf_toks, valid, valid_toks);
    assert(x + e + w =~= seq![
        TokView::Value(r.name),
        TokView::Punct('='),
        TokView::Ident(r.source.text()),
    ]);
}

proof fn origins_spelled(results: Seq<ResultTree>, i: int)
    requires
        0 <= i,
        results_ok(results),
    ensures
        spells(origins_text(results, i), emit_origins(results, i)),
        i > 0 && i < results.len() ==> breaks(origins_text(results, i)),
        i >= results.len() ==> origins_text(results, i).len() == 0 && emit_origins(
            results,
            i,
        ).len() == 0,
    decreases results.len() - i,
{
    if i >= results.len() {
        nothing_closed();
    } else {
        origins_spelled(results, i + 1);
        separator_closed(i);
        assert(result_ok(results[i]));
        origin_spelled(results[i]);
        list_step(
            separator(i),
            emit_separator(i),
            origin_text(results[i]),
            emit_origin(results[i]),
            origins_text(results, i + 1),
            emit_origins(results, i + 1),
        );
        if i > 0 {
            assert(origins_text(results, i)[0] == separator(i)[0]);
        }
    }
}

/// The tokens of the results of an operation.
pub open spec fn emit_results(results: Seq<ResultTree>) -> Seq<TokView> {
    if results.len() == 0 {
        Seq::empty()
    } else {
        emit_names(result_names(results), 0) + seq![TokView::Punct('=')]
    }
}

/// The tokens of an operation name.
pub open spec fn emit_op_name(name: OpNameView) -> Seq<TokView> {
    seq![TokView::Ident(name.dialect), TokView::Punct('.'), TokView::Ident(name.name)]
}

/// The tokens of the literal of an operation.
pub open spec fn emit_literal(literal: Option<Seq<char>>) -> Seq<TokView> {
    match literal {
        Some(s) => seq![TokView::Str(s)],
        None => Seq::empty(),
    }
}

/// The tokens of the operands of an operation.
pub open spec fn emit_operands(operands: Seq<Seq<char>>) -> Seq<TokView> {
    if operands.len() == 0 {
        Seq::empty()
    } else {
        seq![TokView::Punct('(')] + emit_names(operands, 0) + seq![TokView::Punct(')')]
    }
}

/// The tokens before the regions of an operation.
pub open spec fn emit_head(t: OpTree) -> Seq<TokView> {
    emit_results(t.results) + emit_op_name(t.name) + emit_literal(t.literal) + emit_operands(
        t.operands,
    )
}

/// Whether what stands before the regions can be read back.
pub open spec fn head_ok(t: OpTree) -> bool {
    &&& results_ok(t.results)
    &&& is_word(t.name.dialect)
    &&& is_word(t.name.name)
    &&& forall|i: int| 0 <= i < t.operands.len() ==> is_name(#[trigger] t.operands[i])
}

proof fn results_closed(results: Seq<ResultTree>)
    requires
        results_ok(results),
    ensures
        closed_off(
            if results.len() == 0 {
                Seq::empty()
            } else {
                result_names_text(results, 0) + " = "@
            },
            emit_results(results),
        ),
{
    if results.len() == 0 {
        nothing_closed();
    } else {
        let names = result_names(results);
        assert forall|k: int| 0 <= k < names.len() implies is_name(#[trigger] names[k]) by {
            assert(result_ok(results[k]));
        }
        result_names_agree(results, 0);
        names_spelled(names, 0);
        reveal_strlit(" = ");
        assert(" = "@ =~= seq![' ', '=', ' ']);
        spaced_closed('=');
        spelled_then_closed(
            operands_text(names, 0),
            emit_names(names, 0),
            " = "@,
            seq![TokView::Punct('=')],
        );
    }
}

proof fn literal_closed(s: Seq<char>)
    ensures
        closed_off(" \""@ + escaped(s) + "\""@, seq![TokView::Str(s)]),
        breaks(" \""@ + escaped(s) + "\""@),
{
    reveal_strlit(" \"");
    reveal_strlit("\"");
    let quoted = seq!['"'] + escaped(s) + seq!['"'];
    blank_closed(seq![' ']);
    string_closed(s);
    closed_then_closed(seq![' '], Seq::empty(), quoted, seq![TokView::Str(s)]);
    assert(seq![' '] + quoted =~= " \""@ + escaped(s) + "\""@);
    assert(Seq::<TokView>::empty() + seq![TokView::Str(s)] =~= seq![TokView::Str(s)]);
}

proof fn operands_closed(operands: Seq<Seq<char>>)
    requires
        operands.len() > 0,
        forall|i: int| 0 <= i < operands.len() ==> is_name(#[trigger] operands[i]),
    ensures
        closed_off("("@ + operands_text(operands, 0) + ")"@, emit_operands(operands)),
        breaks("("@ + operands_text(operands, 0) + ")"@),
{
    reveal_strlit("(");
    reveal_strlit(")");
    assert("("@ =~= seq!['(']);
    assert(")"@ =~= seq![')']);
    punct_closed('(');
    punct_closed(')');
    names_spelled(operands, 0);
    let x = seq![TokView::Punct('(')];
    closed_then_spelled("("@, x, operands_text(operands, 0), emit_names(operands, 0));
    spelled_then_closed(
        "("@ + operands_text(operands, 0),
        x + emit_names(operands, 0),
        ")"@,
        seq![TokView::Punct(')')],
    );
}

pub proof fn head_spelled(t: OpTree)
    requires
        head_ok(t),
    ensures
        spells(head_text(t), emit_head(t)),
{
    results_closed(t.results);
    let a = if t.results.len() == 0 {
        Seq::empty()
    } else {
        result_names_text(t.results, 0) + " = "@
    };
    let x = emit_results(t.results);
    reveal_strlit(".");
    assert("."@ =~= seq!['.']);
    dotted_spelled(t.name.dialect, t.name.name);
    let n = emit_op_name(t.name);
    closed_then_spelled(a, x, t.name.text(), n);
    let lit = match t.literal {
        Some(s) => " \""@ + escaped(s) + "\""@,
        None => Seq::empty(),
    };
    if let Some(s) = t.literal {
        literal_closed(s);
    }
    add_optional(a + t.name.text(), x + n, lit, emit_literal(t.literal));
    let ops = if t.operands.len() == 0 {
        Seq::empty()
    } else {
        "("@ + operands_text(t.operands, 0) + ")"@
    };
    if t.operands.len() > 0 {
        operands_closed(t.operands);
    }
    add_optional(
        a + t.name.text() + lit,
        x + n + emit_literal(t.literal),
        ops,
        emit_operands(t.operands),
    );
}

/// The tokens of the result types of an operation.
pub open spec fn emit_type_clause(results: Seq<ResultTree>) -> Seq<TokView> {
    if results.len() == 0 {
        Seq::empty()
    } else if results.len() == 1 {
        seq![TokView::Punct(':')] + emit_type(results[0].ty)
    } else {
        seq![TokView::Punct(':'), TokView::Punct('(')] + emit_types(results, 0) + seq![
            TokView::Punct(')'),
        ]
    }
}

/// The tokens of the provenance clause of an operation.
pub open spec fn emit_provenance(results: Seq<ResultTree>) -> Seq<TokView> {
    if interesting(results).len() == 0 {
        Seq::empty()
    } else {
        seq![TokView::Ident("provenance"@), TokView::Punct('(')] + emit_origins(
            interesting(results),
            0,
        ) + seq![TokView::Punct(')')]
    }
}

/// The tokens of the attribute dictionary of an operation.
pub open spec fn emit_dictionary(t: OpTree) -> Seq<TokView> {
    seq![TokView::Punct('{'), TokView::Ident("effect"@), TokView::Punct('=')] + emit_effect(
        t.effect,
    ) + emit_attributes(t.attributes, 0) + seq![TokView::Punct('}')]
}

/// The tokens after the regions of an operation.
pub open spec fn emit_tail(t: OpTree) -> Seq<TokView> {
    emit_dictionary(t) + emit_type_clause(t.results) + emit_provenance(t.results)
}

/// Whether what stands after the regions can be read back.
pub open spec fn tail_ok(t: OpTree) -> bool {
    &&& results_ok(t.results)
    &&& effect_ok(t.effect)
    &&& attributes_ok(t.attributes)
}

proof fn dictionary_closed(t: OpTree)
    requires
        tail_ok(t),
    ensures
        closed_off(
            " {effect = "@ + t.effect.text() + attributes_text(t.attributes, 0) + "}"@,
            emit_dictionary(t),
        ),
        breaks(" {effect = "@ + t.effect.text() + attributes_text(t.attributes, 0) + "}"@),
{
    reveal_strlit(" {effect = ");
    reveal_strlit("effect");
    reveal_strlit(" = ");
    reveal_strlit("}");
    assert("}"@ =~= seq!['}']);
    spaced_closed('{');
    effect_spelled(t.effect);
    entry_spelled("effect"@, t.effect.text(), emit_effect(t.effect));
    let open = seq![' ', '{'];
    let o = seq![TokView::Punct('{')];
    let entry = "effect"@ + " = "@ + t.effect.text();
    let e = seq![TokView::Ident("effect"@), TokView::Punct('=')] + emit_effect(t.effect);
    closed_then_spelled(open, o, entry, e);
    attributes_spelled(t.attributes, 0);
    add_optional(
        open + entry,
        o + e,
        attributes_text(t.attributes, 0),
        emit_attributes(t.attributes, 0),
    );
    punct_closed('}');
    spelled_then_closed(
        open + entry + attributes_text(t.attributes, 0),
        o + e + emit_attributes(t.attributes, 0),
        "}"@,
        seq![TokView::Punct('}')],
    );
    assert(open + entry =~= " {effect = "@ + t.effect.text());
    assert(o + e =~= seq![TokView::Punct('{'), TokView::Ident("effect"@), TokView::Punct('=')]
        + emit_effect(t.effect));
}

proof fn type_clause_spelled(results: Seq<ResultTree>)
    requires
        results_ok(results),
        results.len() > 0,
    ensures
        ({
            let text = if results.len() == 1 {
                " : "@ + results[0].ty.text()
            } else {
                " : ("@ + result_types_text(results, 0) + ")"@
            };
            spells(text, emit_type_clause(results)) && breaks(text)
        }),
{
    spaced_closed(':');
    assert(result_ok(results[0]));
    if results.len() == 1 {
        reveal_strlit(" : ");
        assert(" : "@ =~= seq![' ', ':', ' ']);
        type_spelled(results[0].ty);
        closed_then_spelled(
            " : "@,
            seq![TokView::Punct(':')],
            results[0].ty.text(),
            emit_type(results[0].ty),
        );
    } else {
        reveal_strlit(" : (");
        reveal_strlit(")");
        assert(")"@ =~= seq![')']);
        punct_closed('(');
        punct_closed(')');
        types_spelled(results, 0);
        let c = seq![TokView::Punct(':')];
        let o = seq![TokView::Punct('(')];
        closed_then_closed(seq![' ', ':', ' '], c, seq!['('], o);
        assert(seq![' ', ':', ' '] + seq!['('] =~= " : ("@);
        closed_then_spelled(
            " : ("@,
            c + o,
            result_types_text(results, 0),
            emit_types(results, 0),
        );
        spelled_then_closed(
            " : ("@ + result_types_text(results, 0),
            c + o + emit_types(results, 0),
            ")"@,
            seq![TokView::Punct(')')],
        );
        assert(c + o =~= seq![TokView::Punct(':'), TokView::Punct('(')]);
    }
}

proof fn provenance_closed(results: Seq<ResultTree>)
    requires
        results_ok(results),
        interesting(results).len() > 0,
    ensures
        ({
            let text = " provenance("@ + origins_text(interesting(results), 0) + ")"@;
            closed_off(text, emit_provenance(results)) && breaks(text)
        }),
{
    let some = interesting(results);
    assert forall|i: int| 0 <= i < some.len() implies result_ok(#[trigger] some[i]) by {
        crate::printer::lemma_filter_member(results, |r: ResultTree| is_interesting(r), i);
    }
    reveal_strlit(" provenance(");
    reveal_strlit("provenance");
    reveal_strlit(" ");
    reveal_strlit(")");
    assert(")"@ =~= seq![')']);
    spaced_call(" provenance("@, "provenance"@);
    punct_closed(')');
    origins_spelled(some, 0);
    let x = seq![TokView::Ident("provenance"@), TokView::Punct('(')];
    closed_then_spelled(" provenance("@, x, origins_text(some, 0), emit_origins(some, 0));
    spelled_then_closed(
        " provenance("@ + origins_text(some, 0),
        x + emit_origins(some, 0),
        ")"@,
        seq![TokView::Punct(')')],
    );
}

pub proof fn tail_closed(t: OpTree)
    requires
        tail_ok(t),
    ensures
        closed_off(tail_text(t), emit_tail(t)),
        breaks(tail_text(t)),
{
    dictionary_closed(t);
    let dict = " {effect = "@ + t.effect.text() + attributes_text(t.attributes, 0) + "}"@;
    let d = emit_dictionary(t);
    closed_is_spelled(dict, d);
    let tys = if t.results.len() == 0 {
        Seq::empty()
    } else if t.results.len() == 1 {
        " : "@ + t.results[0].ty.text()
    } else {
        " : ("@ + result_types_text(t.results, 0) + ")"@
    };
    if t.results.len() > 0 {
        type_clause_spelled(t.results);
    }
    add_optional(dict, d, tys, emit_type_clause(t.results));
    let prov = if interesting(t.results).len() == 0 {
        Seq::empty()
    } else {
        " provenance("@ + origins_text(interesting(t.results), 0) + ")"@
    };
    if interesting(t.results).len() > 0 {
        provenance_closed(t.results);
        closed_is_spelled(prov, emit_provenance(t.results));
    }
    add_optional(
        dict + tys,
        d + emit_type_clause(t.results),
        prov,
        emit_provenance(t.results),
    );
    reveal_strlit("\n");
    assert("\n"@ =~= seq!['\n']);
    blank_closed("\n"@);
    spelled_then_closed(dict + tys + prov, emit_tail(t), "\n"@, Seq::empty());
    assert(emit_tail(t) + Seq::<TokView>::empty() =~= emit_tail(t));
    assert(tail_text(t)[0] == dict[0]);
}

// ------------------------------------------------------------------ regions

/// The tokens of the block arguments from position `i` on.
pub open spec fn emit_args(args: Seq<(Seq<char>, TypeView)>, i: int) -> Seq<TokView>
    decreases args.len() - i,
{
    if i < 0 || i >= args.len() {
        Seq::empty()
    } else {
        emit_separator(i) + seq![TokView::Value(args[i].0), TokView::Punct(':')] + emit_type(
            args[i].1,
        ) + emit_args(args, i + 1)
    }
}

/// The tokens of the label of a block.
pub open spec fn emit_label(block: BlockTree, i: int) -> Seq<TokView> {
    seq![TokView::Label("bb"@ + nat_text(i as nat))] + (if block.args.len() == 0 {
        Seq::empty()
    } else {
        seq![TokView::Punct('(')] + emit_args(block.args, 0) + seq![TokView::Punct(')')]
    }) + seq![TokView::Punct(':')]
}

/// The tokens of an operation.
pub open spec fn emit_op(t: OpTree) -> Seq<TokView>
    decreases t, 1int,
{
    emit_head(t) + emit_regions(t.regions, 0) + emit_tail(t)
}

/// The tokens of the regions from position `i` on.
pub open spec fn emit_regions(regions: Seq<RegionTree>, i: int) -> Seq<TokView>
    decreases regions, regions.len() - i,
    via emit_regions_decreases
{
    if i < 0 || i >= regions.len() {
        Seq::empty()
    } else {
        seq![TokView::Punct('{')] + emit_region(regions[i]) + seq![TokView::Punct('}')]
            + emit_regions(regions, i + 1)
    }
}

#[via_fn]
proof fn emit_regions_decreases(regions: Seq<RegionTree>, i: int) {
    if 0 <= i < regions.len() {
        assert(decreases_to!(regions => regions[i]));
    }
}

/// The tokens of a module body.
pub open spec fn emit_body(t: RegionTree) -> Seq<TokView> {
    emit_blocks(t.blocks, 0, is_branched(t))
}

/// The tokens of a region of an operation, without the braces.
pub open spec fn emit_region(t: RegionTree) -> Seq<TokView>
    decreases t, 0int,
{
    emit_blocks(t.blocks, 0, is_labelled(t))
}

/// The tokens of the blocks from position `i` on.
pub open spec fn emit_blocks(blocks: Seq<BlockTree>, i: int, labelled: bool) -> Seq<TokView>
    decreases blocks, blocks.len() - i,
    via emit_blocks_decreases
{
    if i < 0 || i >= blocks.len() {
        Seq::empty()
    } else {
        (if labelled {
            emit_label(blocks[i], i)
        } else {
            Seq::empty()
        }) + emit_ops(blocks[i].ops, 0) + emit_blocks(blocks, i + 1, labelled)
    }
}

#[via_fn]
proof fn emit_blocks_decreases(blocks: Seq<BlockTree>, i: int, labelled: bool) {
    if 0 <= i < blocks.len() {
        assert(decreases_to!(blocks => blocks[i]));
        assert(decreases_to!(blocks[i] => blocks[i].ops));
    }
}

/// The tokens of the operations from position `i` on.
pub open spec fn emit_ops(ops: Seq<OpTree>, i: int) -> Seq<TokView>
    decreases ops, ops.len() - i,
    via emit_ops_decreases
{
    if i < 0 || i >= ops.len() {
        Seq::empty()
    } else {
        emit_op(ops[i]) + emit_ops(ops, i + 1)
    }
}

#[via_fn]
proof fn emit_ops_decreases(ops: Seq<OpTree>, i: int) {
    if 0 <= i < ops.len() {
        assert(decreases_to!(ops => ops[i]));
    }
}

/// Whether block arguments can be read back.
pub open spec fn args_ok(args: Seq<(Seq<char>, TypeView)>) -> bool {
    forall|i: int|
        0 <= i < args.len() ==> is_name((#[trigger] args[i]).0) && type_ok(args[i].1)
}

/// Whether every piece of an operation can be read back.
pub open spec fn op_ok(t: OpTree) -> bool
    decreases t, 1int,
{
    &&& head_ok(t)
    &&& tail_ok(t)
    &&& forall|i: int| 0 <= i < t.regions.len() ==> region_ok(#[trigger] t.regions[i])
}

/// Whether every piece of a region can be read back, and there is a block in
/// it.
pub open spec fn region_ok(t: RegionTree) -> bool
    decreases t, 0int,
{
    &&& t.blocks.len() > 0
    &&& forall|i: int| 0 <= i < t.blocks.len() ==> block_ok(#[trigger] t.blocks[i])
}

/// Whether every piece of a block can be read back.
pub open spec fn block_ok(t: BlockTree) -> bool
    decreases t, 0int,
{
    &&& args_ok(t.args)
    &&& forall|i: int| 0 <= i < t.ops.len() ==> op_ok(#[trigger] t.ops[i])
}

proof fn indent_closed(level: nat)
    ensures
        closed_off(indent_text(level), Seq::empty()),
        forall|i: int| 0 <= i < indent_text(level).len() ==> indent_text(level)[i] == ' ',
    decreases level,
{
    if level == 0 {
        nothing_closed();
    } else {
        indent_closed((level - 1) as nat);
        reveal_strlit("  ");
        blank_closed("  "@);
        closed_then_closed(
            indent_text((level - 1) as nat),
            Seq::empty(),
            "  "@,
            Seq::empty(),
        );
        assert(Seq::<TokView>::empty() + Seq::<TokView>::empty() =~= Seq::empty());
    }
}

proof fn args_spelled(args: Seq<(Seq<char>, TypeView)>, i: int)
    requires
        0 <= i,
        args_ok(args),
    ensures
        spells(args_text(args, i), emit_args(args, i)),
        i > 0 && i < args.len() ==> breaks(args_text(args, i)),
        i >= args.len() ==> args_text(args, i).len() == 0 && emit_args(args, i).len() == 0,
    decreases args.len() - i,
{
    if i >= args.len() {
        nothing_closed();
    } else {
        let (name, ty) = args[i];
        args_spelled(args, i + 1);
        separator_closed(i);
        reveal_strlit("%");
        assert("%"@ =~= seq!['%']);
        reveal_strlit(": ");
        assert(": "@ =~= seq![':', ' ']);
        sigil_spelled('%', name);
        spaced_closed(':');
        type_spelled(ty);
        let v = seq![TokView::Value(name)];
        let c = seq![TokView::Punct(':')];
        spelled_then_closed("%"@ + name, v, ": "@, c);
        closed_then_spelled("%"@ + name + ": "@, v + c, ty.text(), emit_type(ty));
        let item = "%"@ + name + ": "@ + ty.text();
        let x = v + c + emit_type(ty);
        list_step(
            separator(i),
            emit_separator(i),
            item,
            x,
            args_text(args, i + 1),
            emit_args(args, i + 1),
        );
        assert(separator(i) + item + args_text(args, i + 1) =~= args_text(args, i));
        assert(emit_separator(i) + x + emit_args(args, i + 1) =~= emit_args(args, i));
        if i > 0 {
            assert(args_text(args, i)[0] == separator(i)[0]);
        }
    }
}

proof fn label_closed(block: BlockTree, i: int, level: nat)
    requires
        args_ok(block.args),
        0 <= i,
    ensures
        closed_off(label_text(block, i, level), emit_label(block, i)),
{
    let depth = if level > 0 {
        (level - 1) as nat
    } else {
        0
    };
    indent_closed(depth);
    let name = "bb"@ + nat_text(i as nat);
    reveal_strlit("bb");
    reveal_strlit("^bb");
    crate::relex::decimals(i as nat);
    assert forall|k: int| 0 <= k < name.len() implies is_ident_continue(#[trigger] name[k]) by {
        if k >= 2 {
            assert(name[k] == nat_text(i as nat)[k - 2]);
        }
    }
    sigil_spelled('^', name);
    assert(seq!['^'] + name =~= "^bb"@ + nat_text(i as nat));
    let l = seq![TokView::Label(name)];
    closed_then_spelled(indent_text(depth), Seq::empty(), "^bb"@ + nat_text(i as nat), l);
    assert(Seq::<TokView>::empty() + l =~= l);
    let lead = indent_text(depth) + ("^bb"@ + nat_text(i as nat));
    assert(lead =~= indent_text(depth) + "^bb"@ + nat_text(i as nat));
    let args = if block.args.len() == 0 {
        Seq::empty()
    } else {
        "("@ + args_text(block.args, 0) + ")"@
    };
    let a = if block.args.len() == 0 {
        Seq::<TokView>::empty()
    } else {
        seq![TokView::Punct('(')] + emit_args(block.args, 0) + seq![TokView::Punct(')')]
    };
    if block.args.len() > 0 {
        reveal_strlit("(");
        reveal_strlit(")");
        assert("("@ =~= seq!['(']);
        assert(")"@ =~= seq![')']);
        punct_closed('(');
        punct_closed(')');
        args_spelled(block.args, 0);
        let o = seq![TokView::Punct('(')];
        closed_then_spelled("("@, o, args_text(block.args, 0), emit_args(block.args, 0));
        spelled_then_closed(
            "("@ + args_text(block.args, 0),
            o + emit_args(block.args, 0),
            ")"@,
            seq![TokView::Punct(')')],
        );
        closed_is_spelled(args, a);
    }
    add_optional(lead, l, args, a);
    reveal_strlit(":\n");
    assert(":\n"@ =~= seq![':', '\n']);
    spaced_closed(':');
    spelled_then_closed(lead + args, l + a, ":\n"@, seq![TokView::Punct(':')]);
}

pub proof fn op_closed(t: OpTree, level: nat)
    requires
        op_ok(t),
    ensures
        closed_off(op_text(t, level), emit_op(t)),
    decreases t, 1int,
{
    indent_closed(level);
    head_spelled(t);
    tail_closed(t);
    let lead = indent_text(level) + head_text(t);
    closed_then_spelled(indent_text(level), Seq::empty(), head_text(t), emit_head(t));
    assert(Seq::<TokView>::empty() + emit_head(t) =~= emit_head(t));
    regions_closed(t.regions, 0, level);
    let r = regions_text(t.regions, 0, level);
    let x = emit_regions(t.regions, 0);
    if t.regions.len() > 0 {
        closed_is_spelled(r, x);
    }
    add_optional(lead, emit_head(t), r, x);
    spelled_then_closed(lead + r, emit_head(t) + x, tail_text(t), emit_tail(t));
}

proof fn regions_closed(regions: Seq<RegionTree>, i: int, level: nat)
    requires
        0 <= i,
        forall|k: int| 0 <= k < regions.len() ==> region_ok(#[trigger] regions[k]),
    ensures
        closed_off(regions_text(regions, i, level), emit_regions(regions, i)),
        i < regions.len() ==> breaks(regions_text(regions, i, level)),
        i >= regions.len() ==> regions_text(regions, i, level).len() == 0 && emit_regions(
            regions,
            i,
        ).len() == 0,
    decreases regions, regions.len() - i,
{
    if i >= regions.len() {
        nothing_closed();
    } else {
        assert(decreases_to!(regions => regions[i]));
        assert(region_ok(regions[i]));
        region_closed(regions[i], level + 1);
        regions_closed(regions, i + 1, level);
        indent_closed(level);
        reveal_strlit(" {\n");
        reveal_strlit("}");
        assert(" {\n"@ =~= seq![' ', '{', '\n']);
        assert("}"@ =~= seq!['}']);
        spaced_closed('{');
        punct_closed('}');
        let o = seq![TokView::Punct('{')];
        let x = emit_region(regions[i]);
        let c = seq![TokView::Punct('}')];
        let body = region_text(regions[i], level + 1);
        closed_then_closed(" {\n"@, o, body, x);
        closed_then_closed(" {\n"@ + body, o + x, indent_text(level), Seq::empty());
        assert(o + x + Seq::<TokView>::empty() =~= o + x);
        closed_then_closed(" {\n"@ + body + indent_text(level), o + x, "}"@, c);
        closed_then_closed(
            " {\n"@ + body + indent_text(level) + "}"@,
            o + x + c,
            regions_text(regions, i + 1, level),
            emit_regions(regions, i + 1),
        );
        assert(regions_text(regions, i, level)[0] == " {\n"@[0]);
    }
}

proof fn region_closed(t: RegionTree, level: nat)
    requires
        forall|i: int| 0 <= i < t.blocks.len() ==> block_ok(#[trigger] t.blocks[i]),
    ensures
        closed_off(region_text(t, level), emit_region(t)),
    decreases t, 0int,
{
    blocks_closed(t.blocks, 0, level, is_labelled(t));
}

proof fn blocks_closed(blocks: Seq<BlockTree>, i: int, level: nat, labelled: bool)
    requires
        0 <= i,
        forall|k: int| 0 <= k < blocks.len() ==> block_ok(#[trigger] blocks[k]),
    ensures
        closed_off(blocks_text(blocks, i, level, labelled), emit_blocks(blocks, i, labelled)),
    decreases blocks, blocks.len() - i,
{
    if i >= blocks.len() {
        nothing_closed();
    } else {
        assert(decreases_to!(blocks => blocks[i]));
        assert(decreases_to!(blocks[i] => blocks[i].ops));
        assert(block_ok(blocks[i]));
        let label = if labelled {
            label_text(blocks[i], i, level)
        } else {
            Seq::empty()
        };
        let l = if labelled {
            emit_label(blocks[i], i)
        } else {
            Seq::empty()
        };
        nothing_closed();
        label_closed(blocks[i], i, level);
        ops_closed(blocks[i].ops, 0, level);
        blocks_closed(blocks, i + 1, level, labelled);
        let ops = ops_text(blocks[i].ops, 0, level);
        let o = emit_ops(blocks[i].ops, 0);
        closed_then_closed(label, l, ops, o);
        closed_then_closed(
            label + ops,
            l + o,
            blocks_text(blocks, i + 1, level, labelled),
            emit_blocks(blocks, i + 1, labelled),
        );
    }
}

proof fn ops_closed(ops: Seq<OpTree>, i: int, level: nat)
    requires
        0 <= i,
        forall|k: int| 0 <= k < ops.len() ==> op_ok(#[trigger] ops[k]),
    ensures
        closed_off(ops_text(ops, i, level), emit_ops(ops, i)),
    decreases ops, ops.len() - i,
{
    if i >= ops.len() {
        nothing_closed();
    } else {
        assert(decreases_to!(ops => ops[i]));
        op_closed(ops[i], level);
        ops_closed(ops, i + 1, level);
        closed_then_closed(
            op_text(ops[i], level),
            emit_op(ops[i]),
            ops_text(ops, i + 1, level),
            emit_ops(ops, i + 1),
        );
    }
}

// ------------------------------------------------------------------ modules

/// The tokens of effect classes from position `i` on.
pub open spec fn emit_grants(grants: Seq<EffectClass>, i: int) -> Seq<TokView>
    decreases grants.len() - i,
{
    if i < 0 || i >= grants.len() {
        Seq::empty()
    } else {
        emit_separator(i) + seq![TokView::Ident(grants[i].text())] + emit_grants(grants, i + 1)
    }
}

/// The token of the scope of a capability.
pub open spec fn scope_tok(scope: Option<Seq<char>>) -> TokView {
    match scope {
        Some(s) => TokView::Str(s),
        None => TokView::Punct('*'),
    }
}

/// The tokens of a capability declaration.
pub open spec fn emit_capability(c: CapabilityView) -> Seq<TokView> {
    seq![
        TokView::Ident("capability"@),
        TokView::Symbol(c.name),
        TokView::Ident("scope"@),
        TokView::Punct('('),
        scope_tok(c.scope),
        TokView::Punct(')'),
        TokView::Ident("grants"@),
        TokView::Punct('('),
    ] + emit_grants(c.grants, 0) + seq![TokView::Punct(')')] + (if c.requires_approval {
        seq![TokView::Ident("requires_approval"@)]
    } else {
        Seq::empty()
    })
}

/// The tokens of the capability declarations from position `i` on.
pub open spec fn emit_capabilities(capabilities: Seq<CapabilityView>, i: int) -> Seq<TokView>
    decreases capabilities.len() - i,
{
    if i < 0 || i >= capabilities.len() {
        Seq::empty()
    } else {
        emit_capability(capabilities[i]) + emit_capabilities(capabilities, i + 1)
    }
}

/// The tokens of a module, but for the end of input.
pub open spec fn emit_module(t: ModuleTree) -> Seq<TokView> {
    seq![
        TokView::Ident("module"@),
        TokView::Symbol(t.name),
        TokView::Ident("version"@),
        TokView::Punct('('),
        TokView::Int(t.version as i64),
        TokView::Punct(')'),
        TokView::Punct('{'),
    ] + emit_capabilities(t.capabilities, 0) + emit_body(t.body) + seq![TokView::Punct('}')]
}

/// Whether a capability declaration can be read back: it grants something.
pub open spec fn capability_ok(c: CapabilityView) -> bool {
    is_name(c.name) && c.grants.len() > 0
}

proof fn grants_spelled(grants: Seq<EffectClass>, i: int)
    requires
        0 <= i,
    ensures
        spells(grants_text(grants, i), emit_grants(grants, i)),
        i > 0 && i < grants.len() ==> breaks(grants_text(grants, i)),
        i >= grants.len() ==> grants_text(grants, i).len() == 0 && emit_grants(grants, i).len()
            == 0,
    decreases grants.len() - i,
{
    if i >= grants.len() {
        nothing_closed();
    } else {
        grants_spelled(grants, i + 1);
        separator_closed(i);
        class_words(grants[i]);
        word_spelled(grants[i].text());
        list_step(
            separator(i),
            emit_separator(i),
            grants[i].text(),
            seq![TokView::Ident(grants[i].text())],
            grants_text(grants, i + 1),
            emit_grants(grants, i + 1),
        );
        if i > 0 {
            assert(grants_text(grants, i)[0] == separator(i)[0]);
        }
    }
}

proof fn scope_closed(scope: Option<Seq<char>>)
    ensures
        ({
            let text = match scope {
                Some(s) => " scope(\""@ + escaped(s) + "\")"@,
                None => " scope(*)"@,
            };
            &&& closed_off(
                text,
                seq![
                    TokView::Ident("scope"@),
                    TokView::Punct('('),
                    scope_tok(scope),
                    TokView::Punct(')'),
                ],
            )
            &&& breaks(text)
        }),
{
    reveal_strlit("scope");
    reveal_strlit(" ");
    let lead = " "@ + "scope"@ + seq!['('];
    spaced_call(lead, "scope"@);
    punct_closed(')');
    let x = seq![TokView::Ident("scope"@), TokView::Punct('(')];
    let y = seq![scope_tok(scope)];
    let z = seq![TokView::Punct(')')];
    let all = seq![
        TokView::Ident("scope"@),
        TokView::Punct('('),
        scope_tok(scope),
        TokView::Punct(')'),
    ];
    assert(x + y + z =~= all);
    match scope {
        Some(s) => {
            reveal_strlit(" scope(\"");
            reveal_strlit("\")");
            string_closed(s);
            let quoted = seq!['"'] + escaped(s) + seq!['"'];
            closed_then_closed(lead, x, quoted, y);
            closed_then_closed(lead + quoted, x + y, seq![')'], z);
            assert(lead + quoted + seq![')'] =~= " scope(\""@ + escaped(s) + "\")"@);
        },
        None => {
            reveal_strlit(" scope(*)");
            punct_closed('*');
            closed_then_closed(lead, x, seq!['*'], y);
            closed_then_closed(lead + seq!['*'], x + y, seq![')'], z);
            assert(lead + seq!['*'] + seq![')'] =~= " scope(*)"@);
        },
    }
}

proof fn grant_list_closed(grants: Seq<EffectClass>)
    ensures
        closed_off(
            " grants("@ + grants_text(grants, 0) + ")"@,
            seq![TokView::Ident("grants"@), TokView::Punct('(')] + emit_grants(grants, 0) + seq![
                TokView::Punct(')'),
            ],
        ),
        breaks(" grants("@ + grants_text(grants, 0) + ")"@),
{
    reveal_strlit(" grants(");
    reveal_strlit("grants");
    reveal_strlit(" ");
    reveal_strlit(")");
    assert(")"@ =~= seq![')']);
    spaced_call(" grants("@, "grants"@);
    punct_closed(')');
    grants_spelled(grants, 0);
    let x = seq![TokView::Ident("grants"@), TokView::Punct('(')];
    closed_then_spelled(" grants("@, x, grants_text(grants, 0), emit_grants(grants, 0));
    spelled_then_closed(
        " grants("@ + grants_text(grants, 0),
        x + emit_grants(grants, 0),
        ")"@,
        seq![TokView::Punct(')')],
    );
}

proof fn capability_closed(c: CapabilityView)
    requires
        capability_ok(c),
    ensures
        closed_off(capability_text(c), emit_capability(c)),
{
    reveal_strlit("  capability @");
    reveal_strlit("capability");
    reveal_strlit("requires_approval");
    reveal_strlit(" requires_approval");
    reveal_strlit("\n");
    reveal_strlit(" ");
    assert(" "@ =~= seq![' ']);
    // The keyword and the name.
    blank_closed(seq![' ']);
    spaced_word("capability"@);
    let k = seq![TokView::Ident("capability"@)];
    closed_then_spelled(seq![' '], Seq::empty(), " "@ + "capability"@, k);
    assert(Seq::<TokView>::empty() + k =~= k);
    sigil_spelled('@', c.name);
    let n = seq![TokView::Symbol(c.name)];
    let word = seq![' '] + (" "@ + "capability"@);
    closed_then_spelled(seq![' '], Seq::empty(), seq!['@'] + c.name, n);
    assert(Seq::<TokView>::empty() + n =~= n);
    let name = seq![' '] + (seq!['@'] + c.name);
    assert(name[0] == ' ');
    spelled_then_spelled(word, k, name, n);
    assert(word + name =~= "  capability @"@ + c.name);
    let lead = "  capability @"@ + c.name;
    // The scope and the grants.
    let scope = match c.scope {
        Some(s) => " scope(\""@ + escaped(s) + "\")"@,
        None => " scope(*)"@,
    };
    let s = seq![
        TokView::Ident("scope"@),
        TokView::Punct('('),
        scope_tok(c.scope),
        TokView::Punct(')'),
    ];
    scope_closed(c.scope);
    spelled_then_closed(lead, k + n, scope, s);
    grant_list_closed(c.grants);
    let grants = " grants("@ + grants_text(c.grants, 0) + ")"@;
    let g = seq![TokView::Ident("grants"@), TokView::Punct('(')] + emit_grants(c.grants, 0) + seq![
        TokView::Punct(')'),
    ];
    closed_then_closed(lead + scope, k + n + s, grants, g);
    // The approval.
    let approval = if c.requires_approval {
        " requires_approval"@
    } else {
        Seq::empty()
    };
    let a = if c.requires_approval {
        seq![TokView::Ident("requires_approval"@)]
    } else {
        Seq::<TokView>::empty()
    };
    spaced_word("requires_approval"@);
    assert(" "@ + "requires_approval"@ =~= " requires_approval"@);
    closed_is_spelled(lead + scope + grants, k + n + s + g);
    add_optional(lead + scope + grants, k + n + s + g, approval, a);
    assert("\n"@ =~= seq!['\n']);
    blank_closed("\n"@);
    spelled_then_closed(
        lead + scope + grants + approval,
        k + n + s + g + a,
        "\n"@,
        Seq::empty(),
    );
    assert(k + n + s + g + a + Seq::<TokView>::empty() =~= emit_capability(c));
    assert(lead + scope + grants + approval + "\n"@ =~= capability_text(c));
}

proof fn capabilities_closed(capabilities: Seq<CapabilityView>, i: int)
    requires
        0 <= i,
        forall|k: int|
            0 <= k < capabilities.len() ==> capability_ok(#[trigger] capabilities[k]),
    ensures
        closed_off(capabilities_text(capabilities, i), emit_capabilities(capabilities, i)),
    decreases capabilities.len() - i,
{
    if i >= capabilities.len() {
        nothing_closed();
    } else {
        capability_closed(capabilities[i]);
        capabilities_closed(capabilities, i + 1);
        closed_then_closed(
            capability_text(capabilities[i]),
            emit_capability(capabilities[i]),
            capabilities_text(capabilities, i + 1),
            emit_capabilities(capabilities, i + 1),
        );
    }
}

/// Whether every piece of a module can be read back.
pub open spec fn pieces_ok(t: ModuleTree) -> bool {
    &&& is_name(t.name)
    &&& t.version <= i64::MAX
    &&& forall|k: int|
        0 <= k < t.capabilities.len() ==> capability_ok(#[trigger] t.capabilities[k])
    &&& forall|i: int| 0 <= i < t.body.blocks.len() ==> block_ok(#[trigger] t.body.blocks[i])
}

proof fn module_head_closed(t: ModuleTree)
    requires
        is_name(t.name),
        t.version <= i64::MAX,
    ensures
        closed_off(
            "module @"@ + t.name + " version("@ + nat_text(t.version as nat) + ") {\n"@,
            seq![
                TokView::Ident("module"@),
                TokView::Symbol(t.name),
                TokView::Ident("version"@),
                TokView::Punct('('),
                TokView::Int(t.version as i64),
                TokView::Punct(')'),
                TokView::Punct('{'),
            ],
        ),
{
    reveal_strlit("module @");
    reveal_strlit("module");
    reveal_strlit(" version(");
    reveal_strlit("version");
    reveal_strlit(") {\n");
    reveal_strlit(" ");
    assert(" "@ =~= seq![' ']);
    word_spelled("module"@);
    sigil_spelled('@', t.name);
    blank_closed(seq![' ']);
    let k = seq![TokView::Ident("module"@)];
    let n = seq![TokView::Symbol(t.name)];
    closed_then_spelled(seq![' '], Seq::empty(), seq!['@'] + t.name, n);
    assert(Seq::<TokView>::empty() + n =~= n);
    let name = seq![' '] + (seq!['@'] + t.name);
    assert(name[0] == ' ');
    spelled_then_spelled("module"@, k, name, n);
    let lead = "module @"@ + t.name;
    assert("module"@ + name =~= lead);
    spaced_call(" version("@, "version"@);
    let v = seq![TokView::Ident("version"@), TokView::Punct('(')];
    spelled_then_closed(lead, k + n, " version("@, v);
    int_spelled(t.version as i64);
    let number = nat_text(t.version as nat);
    assert(int_text((t.version as i64) as int) == number);
    let i = seq![TokView::Int(t.version as i64)];
    closed_then_spelled(lead + " version("@, k + n + v, number, i);
    punct_closed(')');
    spaced_closed('{');
    let c = seq![TokView::Punct(')')];
    let o = seq![TokView::Punct('{')];
    closed_then_closed(seq![')'], c, seq![' ', '{', '\n'], o);
    assert(seq![')'] + seq![' ', '{', '\n'] =~= ") {\n"@);
    spelled_then_closed(lead + " version("@ + number, k + n + v + i, ") {\n"@, c + o);
    assert(k + n + v + i + (c + o) =~= seq![
        TokView::Ident("module"@),
        TokView::Symbol(t.name),
        TokView::Ident("version"@),
        TokView::Punct('('),
        TokView::Int(t.version as i64),
        TokView::Punct(')'),
        TokView::Punct('{'),
    ]);
}

/// A printed module is read as the tokens it is made of.
pub proof fn module_closed(t: ModuleTree)
    requires
        pieces_ok(t),
    ensures
        closed_off(module_text(t), emit_module(t)),
{
    module_head_closed(t);
    capabilities_closed(t.capabilities, 0);
    blocks_closed(t.body.blocks, 0, 1, is_branched(t.body));
    let head = "module @"@ + t.name + " version("@ + nat_text(t.version as nat) + ") {\n"@;
    let h = seq![
        TokView::Ident("module"@),
        TokView::Symbol(t.name),
        TokView::Ident("version"@),
        TokView::Punct('('),
        TokView::Int(t.version as i64),
        TokView::Punct(')'),
        TokView::Punct('{'),
    ];
    let caps = capabilities_text(t.capabilities, 0);
    let c = emit_capabilities(t.capabilities, 0);
    closed_then_closed(head, h, caps, c);
    let gap = if t.capabilities.len() == 0 {
        Seq::empty()
    } else {
        "\n"@
    };
    reveal_strlit("\n");
    blank_closed(gap);
    closed_then_closed(head + caps, h + c, gap, Seq::empty());
    assert(h + c + Seq::<TokView>::empty() =~= h + c);
    let body = body_text(t.body);
    closed_then_closed(head + caps + gap, h + c, body, emit_body(t.body));
    reveal_strlit("}\n");
    assert("}\n"@ =~= seq!['}', '\n']);
    spaced_closed('}');
    closed_then_closed(
        head + caps + gap + body,
        h + c + emit_body(t.body),
        "}\n"@,
        seq![TokView::Punct('}')],
    );
}

/// The tokens of a printed module are the ones it is made of, and the end of
/// input.
pub proof fn printed_tokens(t: ModuleTree)
    requires
        pieces_ok(t),
    ensures
        ({
            let r = crate::lexer::tokens_from(module_text(t), 0);
            let toks = r->Ok_0;
            let out = emit_module(t).push(TokView::Eof);
            &&& r is Ok
            &&& toks.len() == out.len()
            &&& forall|i: int| 0 <= i < toks.len() ==> (#[trigger] toks[i]).tok == out[i]
        }),
{
    module_closed(t);
    let chars = module_text(t);
    assert(stands(chars, 0, chars));
    let n = chars.len() as int;
    assert(yields(chars, 0, emit_module(t), n));
    let rest = crate::lexer::tokens_from(chars, n);
    assert(crate::lexer::trivia_end(chars, n) == n);
    assert(rest is Ok);
    let toks = crate::lexer::tokens_from(chars, 0)->Ok_0;
    let m = emit_module(t).len() as int;
    assert(toks[m] == rest->Ok_0[0]);
}

} // verus!
