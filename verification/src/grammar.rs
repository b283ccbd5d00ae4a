//! The grammar of the textual syntax.
//!
//! ```text
//! module      := 'module' '@' ident 'version' '(' int ')' '{' capability* operation* '}'
//! capability  := 'capability' '@' ident 'scope' '(' (string | '*') ')'
//!                'grants' '(' ident (',' ident)* ')' 'requires_approval'?
//! operation   := results? op-name string? operands? region* attr-dict? types? provenance?
//! results     := '%' ident (',' '%' ident)* '='
//! operands    := '(' ('%' ident (',' '%' ident)*)? ')'
//! region      := '{' block+ '}'
//! block       := ('^' ident block-args? ':')? operation*
//! attr-dict   := '{' (ident '=' attr (',' ident '=' attr)*)? '}'
//! types       := ':' (type | '(' type (',' type)* ')')
//! provenance  := 'provenance' '(' entry (',' entry)* ')'
//! ```
//!
//! A `{` after the operands is a region unless it looks like an attribute
//! dictionary, that is, unless it is empty or starts with `ident =`. Two tokens
//! of lookahead settle it, and no other production needs more. `provenance`
//! opens a clause only before `(`, and `capability` and `requires_approval` are
//! keywords only where no `.` follows: elsewhere they name a dialect.
//!
//! Each production is a function from the tokens and a position to what it
//! reads and where it ends, or to the failure. The stream ends with an
//! end-of-input token, so a token that was matched is never the last one.

use vstd::prelude::*;

use crate::assoc::insert;
use crate::attribute::AttributeView;
use crate::capability::CapabilityView;
use crate::effect::{EffectClass, EffectView};
use crate::ids::{BlockId, OperationId, RegionId, ValueId};
use crate::lexer::{tokens_from, ErrorView, TokView, TokenView};
use crate::module::{ModuleView, OpNameView, OperationView, ResultView, ValueView};
use crate::number::Number;
use crate::provenance::{Provenance, Source, Validity};
use crate::text::nat_text;
use crate::types::{DType, TypeView};

verus! {

/// The token at a position; past the end, the last one.
pub open spec fn peek(toks: Seq<TokenView>, pos: int) -> TokView {
    if pos < toks.len() {
        toks[pos].tok
    } else {
        toks.last().tok
    }
}

/// A failure at the token at a position.
pub open spec fn fail(toks: Seq<TokenView>, pos: int, message: Seq<char>) -> ErrorView {
    ErrorView { message, span: toks[pos].span }
}

/// A failure at a token that was read and is not the one expected. At the end
/// of the input it is reported at the token before.
pub open spec fn reject(toks: Seq<TokenView>, pos: int, expected: Seq<char>) -> ErrorView {
    fail(
        toks,
        if pos < toks.len() - 1 {
            pos
        } else {
            pos - 1
        },
        "expected "@ + expected + ", found "@ + peek(toks, pos).text(),
    )
}

/// Reads a punctuation character.
pub open spec fn expect_punct(toks: Seq<TokenView>, pos: int, c: char) -> Result<int, ErrorView> {
    if peek(toks, pos) == TokView::Punct(c) {
        Ok(pos + 1)
    } else {
        Err(
            fail(
                toks,
                pos,
                "expected `"@ + seq![c] + "`, found "@ + peek(toks, pos).text(),
            ),
        )
    }
}

/// Reads a keyword.
pub open spec fn expect_keyword(toks: Seq<TokenView>, pos: int, word: Seq<char>) -> Result<
    int,
    ErrorView,
> {
    if peek(toks, pos) == TokView::Ident(word) {
        Ok(pos + 1)
    } else {
        Err(fail(toks, pos, "expected `"@ + word + "`, found "@ + peek(toks, pos).text()))
    }
}

/// Reads an identifier.
pub open spec fn expect_ident(toks: Seq<TokenView>, pos: int) -> Result<
    (Seq<char>, int),
    ErrorView,
> {
    match peek(toks, pos) {
        TokView::Ident(name) => Ok((name, pos + 1)),
        _ => Err(reject(toks, pos, "an identifier"@)),
    }
}

/// Reads a symbol.
pub open spec fn expect_symbol(toks: Seq<TokenView>, pos: int) -> Result<
    (Seq<char>, int),
    ErrorView,
> {
    match peek(toks, pos) {
        TokView::Symbol(name) => Ok((name, pos + 1)),
        _ => Err(reject(toks, pos, "a `@symbol`"@)),
    }
}

/// Reads an integer.
pub open spec fn expect_int(toks: Seq<TokenView>, pos: int) -> Result<(i64, int), ErrorView> {
    match peek(toks, pos) {
        TokView::Int(v) => Ok((v, pos + 1)),
        _ => Err(reject(toks, pos, "an integer"@)),
    }
}

/// Reads a string.
pub open spec fn expect_string(toks: Seq<TokenView>, pos: int) -> Result<
    (Seq<char>, int),
    ErrorView,
> {
    match peek(toks, pos) {
        TokView::Str(s) => Ok((s, pos + 1)),
        _ => Err(reject(toks, pos, "a string"@)),
    }
}

/// Reads a number; an integer counts as one.
pub open spec fn expect_float(toks: Seq<TokenView>, pos: int) -> Result<
    (Number, int),
    ErrorView,
> {
    match peek(toks, pos) {
        TokView::Float(v) => Ok((v, pos + 1)),
        TokView::Int(v) => Ok((Number::spec_from_int(v as int), pos + 1)),
        _ => Err(reject(toks, pos, "a number"@)),
    }
}

/// Reads a value name, described as given when it is missing.
pub open spec fn expect_value(toks: Seq<TokenView>, pos: int, expected: Seq<char>) -> Result<
    (Seq<char>, int),
    ErrorView,
> {
    match peek(toks, pos) {
        TokView::Value(name) => Ok((name, pos + 1)),
        _ => Err(reject(toks, pos, expected)),
    }
}

/// The scope in angle brackets after an effect, if there is one.
pub open spec fn effect_scope(toks: Seq<TokenView>, pos: int) -> Result<
    (Option<Seq<char>>, int),
    ErrorView,
> {
    if peek(toks, pos) == TokView::Punct('<') {
        match expect_ident(toks, pos + 1) {
            Err(e) => Err(e),
            Ok((name, p)) => match expect_punct(toks, p, '>') {
                Err(e) => Err(e),
                Ok(q) => Ok((Some(name), q)),
            },
        }
    } else {
        Ok((None, pos))
    }
}

/// An effect literal.
pub open spec fn effect(toks: Seq<TokenView>, pos: int) -> Result<(EffectView, int), ErrorView> {
    match peek(toks, pos) {
        TokView::Effect(name) => match EffectClass::named(name) {
            None => Err(
                fail(toks, pos + 1, "`#"@ + name + "` is not one of the five effects"@),
            ),
            Some(class) => match effect_scope(toks, pos + 1) {
                Err(e) => Err(e),
                Ok((scope, p)) => Ok((EffectView::of_class(class, scope), p)),
            },
        },
        _ => Err(reject(toks, pos, "an effect literal"@)),
    }
}

/// A name in angle brackets.
pub open spec fn type_argument(toks: Seq<TokenView>, pos: int) -> Result<
    (Seq<char>, int),
    ErrorView,
> {
    match expect_punct(toks, pos, '<') {
        Err(e) => Err(e),
        Ok(p) => match expect_ident(toks, p) {
            Err(e) => Err(e),
            Ok((name, q)) => match expect_punct(toks, q, '>') {
                Err(e) => Err(e),
                Ok(r) => Ok((name, r)),
            },
        },
    }
}

/// The dimensions and the element type of a tensor, after the dimensions read
/// so far.
pub open spec fn tensor_rest(toks: Seq<TokenView>, pos: int, shape: Seq<i64>) -> Result<
    (TypeView, int),
    ErrorView,
>
    decreases toks.len() - pos,
{
    if pos >= toks.len() {
        arbitrary()
    } else {
        match peek(toks, pos) {
            TokView::Int(dim) => match expect_punct(toks, pos + 1, ',') {
                Err(e) => Err(e),
                Ok(p) => if p > pos {
                    tensor_rest(toks, p, shape.push(dim))
                } else {
                    arbitrary()
                },
            },
            TokView::Ident(word) => match DType::named(word) {
                None => Err(fail(toks, pos + 1, "`"@ + word + "` is not an element type"@)),
                Some(dtype) => match expect_punct(toks, pos + 1, '>') {
                    Err(e) => Err(e),
                    Ok(p) => Ok((TypeView::Tensor { shape, dtype }, p)),
                },
            },
            other => Err(
                fail(
                    toks,
                    pos,
                    "expected a dimension or an element type, found "@ + other.text(),
                ),
            ),
        }
    }
}

/// A type.
pub open spec fn parse_type(toks: Seq<TokenView>, pos: int) -> Result<(TypeView, int), ErrorView> {
    match peek(toks, pos) {
        TokView::TypeName(name) => {
            let p = pos + 1;
            if name == "core.int"@ {
                Ok((TypeView::Int, p))
            } else if name == "core.float"@ {
                Ok((TypeView::Float, p))
            } else if name == "core.bool"@ {
                Ok((TypeView::Bool, p))
            } else if name == "core.string"@ {
                Ok((TypeView::Str, p))
            } else if name == "core.unknown"@ {
                Ok((TypeView::Unknown, p))
            } else if name == "agent.plan"@ {
                Ok((TypeView::Plan, p))
            } else if name == "memory.memory"@ {
                Ok((TypeView::Memory, p))
            } else if name == "core.tensor"@ {
                match expect_punct(toks, p, '<') {
                    Err(e) => Err(e),
                    Ok(q) => tensor_rest(toks, q, Seq::empty()),
                }
            } else if name == "tool.ref"@ {
                match type_argument(toks, p) {
                    Err(e) => Err(e),
                    Ok((resource, q)) => Ok((TypeView::Ref { resource }, q)),
                }
            } else if name == "tool.result"@ {
                match type_argument(toks, p) {
                    Err(e) => Err(e),
                    Ok((schema, q)) => Ok((TypeView::ToolResult { schema }, q)),
                }
            } else if name == "observation.observation"@ {
                match type_argument(toks, p) {
                    Err(e) => Err(e),
                    Ok((schema, q)) => Ok((TypeView::Observation { schema }, q)),
                }
            } else {
                Err(fail(toks, p, "`!"@ + name + "` is not a type of §2.1"@))
            }
        },
        _ => Err(reject(toks, pos, "a `!type`"@)),
    }
}

/// The attributes read from a dictionary, and the effect declared in it.
pub ghost struct Dictionary {
    pub attributes: Seq<(Seq<char>, AttributeView)>,
    pub effect: Option<EffectView>,
}

impl Dictionary {
    /// The dictionary with nothing in it.
    pub open spec fn empty() -> Dictionary {
        Dictionary { attributes: Seq::empty(), effect: None }
    }

    /// The dictionary as an attribute value: the effect is an ordinary entry.
    pub open spec fn as_value(self) -> AttributeView {
        match self.effect {
            Some(e) => AttributeView::Dict(
                insert(self.attributes, "effect"@, AttributeView::Effect(e)),
            ),
            None => AttributeView::Dict(self.attributes),
        }
    }
}

/// An attribute value.
pub open spec fn attr_value(toks: Seq<TokenView>, pos: int) -> Result<
    (AttributeView, int),
    ErrorView,
>
    decreases toks.len() - pos, 1int,
{
    if pos >= toks.len() {
        arbitrary()
    } else {
        match peek(toks, pos) {
            TokView::Int(v) => Ok((AttributeView::Int(v), pos + 1)),
            TokView::Float(v) => Ok((AttributeView::Float(v), pos + 1)),
            TokView::Str(v) => Ok((AttributeView::Str(v), pos + 1)),
            TokView::Effect(_) => match effect(toks, pos) {
                Err(e) => Err(e),
                Ok((v, p)) => Ok((AttributeView::Effect(v), p)),
            },
            TokView::Punct('[') => if peek(toks, pos + 1) == TokView::Punct(']') {
                Ok((AttributeView::Array(Seq::empty()), pos + 2))
            } else {
                match attr_items(toks, pos + 1, Seq::empty()) {
                    Err(e) => Err(e),
                    Ok((items, p)) => match expect_punct(toks, p, ']') {
                        Err(e) => Err(e),
                        Ok(q) => Ok((AttributeView::Array(items), q)),
                    },
                }
            },
            TokView::Punct('{') => match attr_dict(toks, pos) {
                Err(e) => Err(e),
                Ok((d, p)) => Ok((d.as_value(), p)),
            },
            other => if other == TokView::Ident("true"@) {
                Ok((AttributeView::Bool(true), pos + 1))
            } else if other == TokView::Ident("false"@) {
                Ok((AttributeView::Bool(false), pos + 1))
            } else {
                Err(fail(toks, pos, "expected an attribute value, found "@ + other.text()))
            },
        }
    }
}

/// Attribute values separated by commas, after the ones read so far.
pub open spec fn attr_items(toks: Seq<TokenView>, pos: int, items: Seq<AttributeView>) -> Result<
    (Seq<AttributeView>, int),
    ErrorView,
>
    decreases toks.len() - pos, 2int,
{
    match attr_value(toks, pos) {
        Err(e) => Err(e),
        Ok((v, p)) => if peek(toks, p) == TokView::Punct(',') {
            if pos <= p && p < toks.len() {
                attr_items(toks, p + 1, items.push(v))
            } else {
                arbitrary()
            }
        } else {
            Ok((items.push(v), p))
        },
    }
}

/// An attribute dictionary in braces.
pub open spec fn attr_dict(toks: Seq<TokenView>, pos: int) -> Result<(Dictionary, int), ErrorView>
    decreases toks.len() - pos, 0int,
{
    match expect_punct(toks, pos, '{') {
        Err(e) => Err(e),
        Ok(p) => if peek(toks, p) == TokView::Punct('}') {
            Ok((Dictionary::empty(), p + 1))
        } else if pos < toks.len() {
            match attr_entries(toks, pos + 1, Dictionary::empty()) {
                Err(e) => Err(e),
                Ok((d, q)) => match expect_punct(toks, q, '}') {
                    Err(e) => Err(e),
                    Ok(r) => Ok((d, r)),
                },
            }
        } else {
            arbitrary()
        },
    }
}

/// Dictionary entries separated by commas, after the ones read so far.
pub open spec fn attr_entries(toks: Seq<TokenView>, pos: int, d: Dictionary) -> Result<
    (Dictionary, int),
    ErrorView,
>
    decreases toks.len() - pos, 2int,
{
    match expect_ident(toks, pos) {
        Err(e) => Err(e),
        Ok((key, p)) => match expect_punct(toks, p, '=') {
            Err(e) => Err(e),
            Ok(q) => if pos >= toks.len() {
                arbitrary()
            } else {
                match attr_value(toks, pos + 2) {
                    Err(e) => Err(e),
                    Ok((v, r)) => match with_entry(toks, r, d, key, v) {
                        Err(e) => Err(e),
                        Ok(d2) => if peek(toks, r) == TokView::Punct(',') {
                            if pos <= r && r < toks.len() {
                                attr_entries(toks, r + 1, d2)
                            } else {
                                arbitrary()
                            }
                        } else {
                            Ok((d2, r))
                        },
                    },
                }
            },
        },
    }
}

/// A dictionary with one more entry; the entry named `effect` declares the
/// effect, and has to be one.
pub open spec fn with_entry(
    toks: Seq<TokenView>,
    pos: int,
    d: Dictionary,
    key: Seq<char>,
    value: AttributeView,
) -> Result<Dictionary, ErrorView> {
    if key == "effect"@ {
        match value {
            AttributeView::Effect(e) => Ok(Dictionary { effect: Some(e), ..d }),
            other => Err(
                fail(toks, pos, "`effect` must be an effect literal, found "@ + other.text()),
            ),
        }
    } else {
        Ok(Dictionary { attributes: insert(d.attributes, key, value), ..d })
    }
}

/// Effect classes separated by commas, after the ones read so far.
pub open spec fn grants(toks: Seq<TokenView>, pos: int, read: Seq<EffectClass>) -> Result<
    (Seq<EffectClass>, int),
    ErrorView,
>
    decreases toks.len() - pos,
{
    match expect_ident(toks, pos) {
        Err(e) => Err(e),
        Ok((word, p)) => match EffectClass::named(word) {
            None => Err(fail(toks, p, "`"@ + word + "` is not an effect class"@)),
            Some(class) => if peek(toks, p) == TokView::Punct(',') {
                if pos < toks.len() {
                    grants(toks, pos + 2, read.push(class))
                } else {
                    arbitrary()
                }
            } else {
                Ok((read.push(class), p))
            },
        },
    }
}

/// The scope of a capability: a string, or a star for any.
pub open spec fn capability_scope(toks: Seq<TokenView>, pos: int) -> Result<
    (Option<Seq<char>>, int),
    ErrorView,
> {
    if peek(toks, pos) == TokView::Punct('*') {
        Ok((None, pos + 1))
    } else {
        match expect_string(toks, pos) {
            Err(e) => Err(e),
            Ok((s, p)) => Ok((Some(s), p)),
        }
    }
}

/// A capability declaration.
pub open spec fn capability(toks: Seq<TokenView>, pos: int) -> Result<
    (CapabilityView, int),
    ErrorView,
> {
    match expect_keyword(toks, pos, "capability"@) {
        Err(e) => Err(e),
        Ok(p1) => match expect_symbol(toks, p1) {
            Err(e) => Err(e),
            Ok((name, p2)) => match expect_keyword(toks, p2, "scope"@) {
                Err(e) => Err(e),
                Ok(p3) => match expect_punct(toks, p3, '(') {
                    Err(e) => Err(e),
                    Ok(p4) => match capability_scope(toks, p4) {
                        Err(e) => Err(e),
                        Ok((scope, p5)) => match expect_punct(toks, p5, ')') {
                            Err(e) => Err(e),
                            Ok(p6) => capability_grants(toks, p6, name, scope),
                        },
                    },
                },
            },
        },
    }
}

/// Whether a capability declaration ends with the demand for approval at a
/// position. Before a dot the word names a dialect.
pub open spec fn asks_approval(toks: Seq<TokenView>, pos: int) -> bool {
    peek(toks, pos) == TokView::Ident("requires_approval"@) && peek(toks, pos + 1)
        != TokView::Punct('.')
}

/// The rest of a capability declaration, from its grants on.
pub open spec fn capability_grants(
    toks: Seq<TokenView>,
    pos: int,
    name: Seq<char>,
    scope: Option<Seq<char>>,
) -> Result<(CapabilityView, int), ErrorView> {
    match expect_keyword(toks, pos, "grants"@) {
        Err(e) => Err(e),
        Ok(p1) => match expect_punct(toks, p1, '(') {
            Err(e) => Err(e),
            Ok(p2) => match grants(toks, p2, Seq::empty()) {
                Err(e) => Err(e),
                Ok((classes, p3)) => match expect_punct(toks, p3, ')') {
                    Err(e) => Err(e),
                    Ok(p4) => {
                        let gated = asks_approval(toks, p4);
                        Ok(
                            (
                                CapabilityView {
                                    name,
                                    scope,
                                    grants: classes,
                                    requires_approval: gated,
                                },
                                if gated {
                                    p4 + 1
                                } else {
                                    p4
                                },
                            ),
                        )
                    },
                },
            },
        },
    }
}

/// The values in scope, each under its name; a later binding hides an earlier
/// one of the same name.
pub type Bindings = Seq<(Seq<char>, ValueId)>;

/// The value a name is bound to.
pub open spec fn bound(bindings: Bindings, name: Seq<char>) -> Option<ValueId>
    decreases bindings.len(),
{
    if bindings.len() == 0 {
        None
    } else if bindings.last().0 == name {
        Some(bindings.last().1)
    } else {
        bound(bindings.drop_last(), name)
    }
}

/// The failure for a name that is not bound.
pub open spec fn unbound(toks: Seq<TokenView>, pos: int, name: Seq<char>) -> ErrorView {
    fail(
        toks,
        pos,
        "`%"@ + name
            + "` is used before it is defined; every value must have a dominating producer (invariant I1)"@,
    )
}

/// Where the value names separated by commas that start at a position end.
pub open spec fn value_list_end(toks: Seq<TokenView>, pos: int) -> int
    decreases toks.len() - pos,
{
    if pos < toks.len() && peek(toks, pos) is Value {
        if peek(toks, pos + 1) == TokView::Punct(',') {
            value_list_end(toks, pos + 2)
        } else {
            pos + 1
        }
    } else {
        pos
    }
}

/// Result names separated by commas, after the ones read so far.
pub open spec fn result_list(toks: Seq<TokenView>, pos: int, names: Seq<Seq<char>>) -> Result<
    (Seq<Seq<char>>, int),
    ErrorView,
>
    decreases toks.len() - pos,
{
    match expect_value(toks, pos, "a result name"@) {
        Err(e) => Err(e),
        Ok((name, p)) => if peek(toks, p) == TokView::Punct(',') {
            if pos < toks.len() {
                result_list(toks, pos + 2, names.push(name))
            } else {
                arbitrary()
            }
        } else {
            Ok((names.push(name), p))
        },
    }
}

/// The result names of an operation, if a list of them and `=` comes first.
pub open spec fn results(toks: Seq<TokenView>, pos: int) -> Result<
    (Seq<Seq<char>>, int),
    ErrorView,
> {
    if peek(toks, pos) is Value && peek(toks, value_list_end(toks, pos)) == TokView::Punct('=') {
        match result_list(toks, pos, Seq::empty()) {
            Err(e) => Err(e),
            Ok((names, p)) => match expect_punct(toks, p, '=') {
                Err(e) => Err(e),
                Ok(q) => Ok((names, q)),
            },
        }
    } else {
        Ok((Seq::empty(), pos))
    }
}

/// A dotted operation name.
pub open spec fn op_name(toks: Seq<TokenView>, pos: int) -> Result<(OpNameView, int), ErrorView> {
    match expect_ident(toks, pos) {
        Err(e) => Err(e),
        Ok((dialect, p)) => match expect_punct(toks, p, '.') {
            Err(e) => Err(e),
            Ok(q) => match expect_ident(toks, q) {
                Err(e) => Err(e),
                Ok((name, r)) => Ok((OpNameView { dialect, name }, r)),
            },
        },
    }
}

/// Operands separated by commas, after the ones read so far.
pub open spec fn operand_list(
    toks: Seq<TokenView>,
    pos: int,
    bindings: Bindings,
    read: Seq<ValueId>,
) -> Result<(Seq<ValueId>, int), ErrorView>
    decreases toks.len() - pos,
{
    match expect_value(toks, pos, "`%value`"@) {
        Err(e) => Err(e),
        Ok((name, p)) => match bound(bindings, name) {
            None => Err(unbound(toks, p, name)),
            Some(id) => if peek(toks, p) == TokView::Punct(',') {
                if pos < toks.len() {
                    operand_list(toks, pos + 2, bindings, read.push(id))
                } else {
                    arbitrary()
                }
            } else {
                Ok((read.push(id), p))
            },
        },
    }
}

/// The operands of an operation, if it has a parenthesized list of them.
pub open spec fn operands(toks: Seq<TokenView>, pos: int, bindings: Bindings) -> Result<
    (Seq<ValueId>, int),
    ErrorView,
> {
    if peek(toks, pos) != TokView::Punct('(') {
        Ok((Seq::empty(), pos))
    } else if peek(toks, pos + 1) == TokView::Punct(')') {
        Ok((Seq::empty(), pos + 2))
    } else {
        match operand_list(toks, pos + 1, bindings, Seq::empty()) {
            Err(e) => Err(e),
            Ok((ids, p)) => match expect_punct(toks, p, ')') {
                Err(e) => Err(e),
                Ok(q) => Ok((ids, q)),
            },
        }
    }
}

/// What stands before the regions of an operation.
pub ghost struct Head {
    pub names: Seq<Seq<char>>,
    pub name: OpNameView,
    pub literal: Option<Seq<char>>,
    pub operands: Seq<ValueId>,
}

/// The string after an operation name, if there is one.
pub open spec fn literal(toks: Seq<TokenView>, pos: int) -> (Option<Seq<char>>, int) {
    match peek(toks, pos) {
        TokView::Str(s) => (Some(s), pos + 1),
        _ => (None, pos),
    }
}

/// The results, the name, the literal and the operands of an operation.
#[verifier::opaque]
pub open spec fn head(toks: Seq<TokenView>, pos: int, bindings: Bindings) -> Result<
    (Head, int),
    ErrorView,
> {
    match results(toks, pos) {
        Err(e) => Err(e),
        Ok((names, p1)) => match op_name(toks, p1) {
            Err(e) => Err(e),
            Ok((name, p2)) => {
                let (lit, p3) = literal(toks, p2);
                match operands(toks, p3, bindings) {
                    Err(e) => Err(e),
                    Ok((ids, p4)) => Ok(
                        (Head { names, name, literal: lit, operands: ids }, p4),
                    ),
                }
            },
        },
    }
}

/// Types separated by commas, after the ones read so far.
pub open spec fn type_list(toks: Seq<TokenView>, pos: int, read: Seq<TypeView>) -> Result<
    (Seq<TypeView>, int),
    ErrorView,
>
    decreases toks.len() - pos,
{
    match parse_type(toks, pos) {
        Err(e) => Err(e),
        Ok((ty, p)) => if peek(toks, p) == TokView::Punct(',') {
            if pos <= p && p < toks.len() {
                type_list(toks, p + 1, read.push(ty))
            } else {
                arbitrary()
            }
        } else {
            Ok((read.push(ty), p))
        },
    }
}

/// One type, or a parenthesized list of types.
pub open spec fn types(toks: Seq<TokenView>, pos: int) -> Result<(Seq<TypeView>, int), ErrorView> {
    if peek(toks, pos) != TokView::Punct('(') {
        match parse_type(toks, pos) {
            Err(e) => Err(e),
            Ok((ty, p)) => Ok((seq![ty], p)),
        }
    } else if peek(toks, pos + 1) == TokView::Punct(')') {
        Ok((Seq::empty(), pos + 2))
    } else {
        match type_list(toks, pos + 1, Seq::empty()) {
            Err(e) => Err(e),
            Ok((tys, p)) => match expect_punct(toks, p, ')') {
                Err(e) => Err(e),
                Ok(q) => Ok((tys, q)),
            },
        }
    }
}

/// A module under construction, with the position reached and the values in
/// scope.
pub ghost struct Parsing {
    pub pos: int,
    pub module: ModuleView,
    pub bindings: Bindings,
}

/// The declarations of results whose types are still to be read.
pub open spec fn undeclared_results(names: Seq<Seq<char>>) -> Seq<ResultView> {
    Seq::new(
        names.len(),
        |i: int|
            ResultView {
                name: Some(names[i]),
                ty: TypeView::Unknown,
                provenance: Provenance::trusted(Source::Derived),
            },
    )
}

/// The module with the operation of a head appended to a block.
pub open spec fn begin_op(m: ModuleView, block: BlockId, h: Head) -> ModuleView {
    m.create_op(
        h.name,
        h.literal,
        h.operands,
        undeclared_results(h.names),
        Seq::empty(),
        EffectView::Pure,
    ).append_to_block(block, m.next_op())
}

/// Whether the brace at a position opens an attribute dictionary rather than a
/// region.
pub open spec fn opens_dict(toks: Seq<TokenView>, pos: int) -> bool {
    peek(toks, pos + 1) == TokView::Punct('}') || (peek(toks, pos + 1) is Ident && peek(
        toks,
        pos + 2,
    ) == TokView::Punct('='))
}

/// The attribute dictionary of an operation, if there is one.
pub open spec fn op_attributes(toks: Seq<TokenView>, s: Parsing, op: OperationId) -> Result<
    Parsing,
    ErrorView,
> {
    if peek(toks, s.pos) != TokView::Punct('{') {
        Ok(s)
    } else {
        match attr_dict(toks, s.pos) {
            Err(e) => Err(e),
            Ok((d, p)) => {
                let o = s.module.op(op);
                Ok(
                    Parsing {
                        pos: p,
                        module: s.module.set_op(
                            op,
                            OperationView {
                                attributes: d.attributes,
                                effect: match d.effect {
                                    Some(e) => e,
                                    None => o.effect,
                                },
                                ..o
                            },
                        ),
                        ..s
                    },
                )
            },
        }
    }
}

/// The module with the types of the first `n` of some values set.
pub open spec fn set_types(m: ModuleView, ids: Seq<ValueId>, tys: Seq<TypeView>, n: int) -> ModuleView
    decreases n,
{
    if n <= 0 {
        m
    } else {
        let before = set_types(m, ids, tys, n - 1);
        before.set_value(ids[n - 1], ValueView { ty: tys[n - 1], ..before.value(ids[n - 1]) })
    }
}

/// The types of the results of an operation. They are mandatory when it has
/// results, and as many as it has.
pub open spec fn op_types(
    toks: Seq<TokenView>,
    s: Parsing,
    op: OperationId,
    names: Seq<Seq<char>>,
) -> Result<Parsing, ErrorView> {
    if peek(toks, s.pos) == TokView::Punct(':') {
        match types(toks, s.pos + 1) {
            Err(e) => Err(e),
            Ok((tys, p)) => {
                let ids = s.module.op(op).results;
                if tys.len() != ids.len() {
                    Err(
                        fail(
                            toks,
                            p,
                            "the operation declares "@ + nat_text(ids.len()) + " result(s) but "@
                                + nat_text(tys.len()) + " type(s)"@,
                        ),
                    )
                } else {
                    Ok(
                        Parsing {
                            pos: p,
                            module: set_types(s.module, ids, tys, ids.len() as int),
                            ..s
                        },
                    )
                }
            },
        }
    } else if names.len() > 0 {
        Err(
            fail(
                toks,
                s.pos,
                "`"@ + s.module.op(op).name.text() + "` produces "@ + nat_text(names.len())
                    + " result(s) and must state their types after `:`"@,
            ),
        )
    } else {
        Ok(s)
    }
}

/// The first of some values that has a name.
pub open spec fn named_value(m: ModuleView, ids: Seq<ValueId>, from: int, name: Seq<char>) -> Option<
    ValueId,
>
    decreases ids.len() - from,
{
    if from >= ids.len() {
        None
    } else if m.value(ids[from]).name == Some(name) {
        Some(ids[from])
    } else {
        named_value(m, ids, from + 1, name)
    }
}

/// The confidence of a provenance entry; full when it is not stated.
pub open spec fn confidence(toks: Seq<TokenView>, pos: int) -> Result<(Number, int), ErrorView> {
    if peek(toks, pos) == TokView::Ident("confidence"@) {
        match expect_punct(toks, pos + 1, '(') {
            Err(e) => Err(e),
            Ok(p) => match expect_float(toks, p) {
                Err(e) => Err(e),
                Ok((v, q)) => match expect_punct(toks, q, ')') {
                    Err(e) => Err(e),
                    Ok(r) => Ok((v, r)),
                },
            },
        }
    } else {
        Ok((Number::spec_one(), pos))
    }
}

/// The validity of a provenance entry; valid when it is not stated.
pub open spec fn validity(toks: Seq<TokenView>, pos: int) -> (Validity, int) {
    match peek(toks, pos) {
        TokView::Ident(word) => match Validity::named(word) {
            Some(v) => (v, pos + 1),
            None => (Validity::Valid, pos),
        },
        _ => (Validity::Valid, pos),
    }
}

/// What one provenance entry says: of which result, and what.
pub ghost struct Origin {
    pub name: Seq<char>,
    pub source: Source,
    pub confidence: Number,
    pub validity: Validity,
}

/// One provenance entry.
pub open spec fn origin(toks: Seq<TokenView>, pos: int) -> Result<(Origin, int), ErrorView> {
    match expect_value(toks, pos, "a `%result`"@) {
        Err(e) => Err(e),
        Ok((name, p1)) => match expect_punct(toks, p1, '=') {
            Err(e) => Err(e),
            Ok(p2) => match expect_ident(toks, p2) {
                Err(e) => Err(e),
                Ok((word, p3)) => match Source::named(word) {
                    None => Err(fail(toks, p3, "`"@ + word + "` is not a provenance source"@)),
                    Some(source) => match confidence(toks, p3) {
                        Err(e) => Err(e),
                        Ok((number, p4)) => {
                            let (valid, p5) = validity(toks, p4);
                            Ok((Origin { name, source, confidence: number, validity: valid }, p5))
                        },
                    },
                },
            },
        },
    }
}

/// The module with an entry recorded on the result it names.
pub open spec fn set_origin(m: ModuleView, id: ValueId, o: Origin) -> ModuleView {
    let v = m.value(id);
    m.set_value(
        id,
        ValueView {
            provenance: Provenance {
                source: o.source,
                confidence: o.confidence,
                validity: o.validity,
                ..v.provenance
            },
            ..v
        },
    )
}

/// Provenance entries separated by commas.
pub open spec fn origins(toks: Seq<TokenView>, s: Parsing, op: OperationId) -> Result<
    Parsing,
    ErrorView,
>
    decreases toks.len() - s.pos,
{
    match origin(toks, s.pos) {
        Err(e) => Err(e),
        Ok((o, p)) => match named_value(s.module, s.module.op(op).results, 0, o.name) {
            None => Err(
                fail(
                    toks,
                    p,
                    "`%"@ + o.name
                        + "` is not a result of this operation, so it has no provenance here"@,
                ),
            ),
            Some(id) => {
                let m = set_origin(s.module, id, o);
                if peek(toks, p) == TokView::Punct(',') {
                    if s.pos <= p && p < toks.len() {
                        origins(toks, Parsing { pos: p + 1, module: m, ..s }, op)
                    } else {
                        arbitrary()
                    }
                } else {
                    Ok(Parsing { pos: p, module: m, ..s })
                }
            },
        },
    }
}

/// Whether a provenance clause starts at a position. Before a dot the word names
/// a dialect; anywhere else it opens the clause.
pub open spec fn opens_provenance(toks: Seq<TokenView>, pos: int) -> bool {
    peek(toks, pos) == TokView::Ident("provenance"@) && peek(toks, pos + 1) != TokView::Punct('.')
}

/// The provenance clause of an operation, if there is one.
pub open spec fn op_provenance(toks: Seq<TokenView>, s: Parsing, op: OperationId) -> Result<
    Parsing,
    ErrorView,
> {
    if !opens_provenance(toks, s.pos) {
        Ok(s)
    } else {
        match expect_punct(toks, s.pos + 1, '(') {
            Err(e) => Err(e),
            Ok(p) => match origins(toks, Parsing { pos: p, ..s }, op) {
                Err(e) => Err(e),
                Ok(t) => match expect_punct(toks, t.pos, ')') {
                    Err(e) => Err(e),
                    Ok(q) => Ok(Parsing { pos: q, ..t }),
                },
            },
        }
    }
}

/// The results of an operation, each bound to its name.
pub open spec fn bind_results(names: Seq<Seq<char>>, ids: Seq<ValueId>) -> Bindings {
    Seq::new(
        if names.len() < ids.len() {
            names.len()
        } else {
            ids.len()
        },
        |i: int| (names[i], ids[i]),
    )
}

/// What stands after the regions of an operation. Its results become visible
/// only after the whole of it is read.
#[verifier::opaque]
pub open spec fn tail(
    toks: Seq<TokenView>,
    s: Parsing,
    op: OperationId,
    names: Seq<Seq<char>>,
) -> Result<Parsing, ErrorView> {
    match op_attributes(toks, s, op) {
        Err(e) => Err(e),
        Ok(s1) => match op_types(toks, s1, op, names) {
            Err(e) => Err(e),
            Ok(s2) => match op_provenance(toks, s2, op) {
                Err(e) => Err(e),
                Ok(s3) => Ok(
                    Parsing {
                        bindings: s3.bindings + bind_results(names, s3.module.op(op).results),
                        ..s3
                    },
                ),
            },
        },
    }
}

/// An operation, appended to a block.
pub open spec fn operation(toks: Seq<TokenView>, s: Parsing, block: BlockId) -> Result<
    Parsing,
    ErrorView,
>
    decreases toks.len() - s.pos, 0int,
{
    match head(toks, s.pos, s.bindings) {
        Err(e) => Err(e),
        Ok((h, p)) => if s.pos < p <= toks.len() {
            let op = s.module.next_op();
            match regions(
                toks,
                Parsing { pos: p, module: begin_op(s.module, block, h), ..s },
                op,
            ) {
                Err(e) => Err(e),
                Ok(t) => tail(toks, t, op, h.names),
            }
        } else {
            arbitrary()
        },
    }
}

/// The regions of an operation.
pub open spec fn regions(toks: Seq<TokenView>, s: Parsing, op: OperationId) -> Result<
    Parsing,
    ErrorView,
>
    decreases toks.len() - s.pos, 2int,
{
    if peek(toks, s.pos) == TokView::Punct('{') && !opens_dict(toks, s.pos) {
        match region(toks, s, op) {
            Err(e) => Err(e),
            Ok(t) => if s.pos < t.pos <= toks.len() {
                regions(toks, t, op)
            } else {
                arbitrary()
            },
        }
    } else {
        Ok(s)
    }
}

/// One region of an operation. What is defined in it goes out of scope with it.
pub open spec fn region(toks: Seq<TokenView>, s: Parsing, op: OperationId) -> Result<
    Parsing,
    ErrorView,
>
    decreases toks.len() - s.pos, 1int,
{
    if s.pos >= toks.len() {
        arbitrary()
    } else {
        let r = s.module.next_region();
        let inner = Parsing {
            pos: s.pos + 1,
            module: s.module.create_op_region(op),
            bindings: s.bindings,
        };
        let body = if peek(toks, s.pos + 1) is Label {
            labelled_blocks(toks, inner, r)
        } else {
            let block = inner.module.next_block();
            operations(
                toks,
                Parsing { module: inner.module.create_block(r), ..inner },
                block,
                false,
            )
        };
        match body {
            Err(e) => Err(e),
            Ok(t) => match expect_punct(toks, t.pos, '}') {
                Err(e) => Err(e),
                Ok(p) => Ok(Parsing { pos: p, module: t.module, bindings: s.bindings }),
            },
        }
    }
}

/// Blocks that each start with a label, up to the first token that is none.
pub open spec fn labelled_blocks(toks: Seq<TokenView>, s: Parsing, r: RegionId) -> Result<
    Parsing,
    ErrorView,
>
    decreases toks.len() - s.pos, 2int,
{
    if s.pos < toks.len() && peek(toks, s.pos) is Label {
        let block = s.module.next_block();
        match block_header(
            toks,
            Parsing { pos: s.pos + 1, module: s.module.create_block(r), ..s },
            block,
        ) {
            Err(e) => Err(e),
            Ok(t) => if s.pos < t.pos <= toks.len() {
                match operations(toks, t, block, true) {
                    Err(e) => Err(e),
                    Ok(u) => if t.pos <= u.pos <= toks.len() {
                        labelled_blocks(toks, u, r)
                    } else {
                        arbitrary()
                    },
                }
            } else {
                arbitrary()
            },
        }
    } else {
        Ok(s)
    }
}

/// The arguments of a block, if it has any, and the colon.
#[verifier::opaque]
pub open spec fn block_header(toks: Seq<TokenView>, s: Parsing, block: BlockId) -> Result<
    Parsing,
    ErrorView,
> {
    let args = if peek(toks, s.pos) != TokView::Punct('(') {
        Ok(s)
    } else if peek(toks, s.pos + 1) == TokView::Punct(')') {
        Ok(Parsing { pos: s.pos + 2, ..s })
    } else {
        match block_args(toks, Parsing { pos: s.pos + 1, ..s }, block) {
            Err(e) => Err(e),
            Ok(t) => match expect_punct(toks, t.pos, ')') {
                Err(e) => Err(e),
                Ok(p) => Ok(Parsing { pos: p, ..t }),
            },
        }
    };
    match args {
        Err(e) => Err(e),
        Ok(t) => match expect_punct(toks, t.pos, ':') {
            Err(e) => Err(e),
            Ok(p) => Ok(Parsing { pos: p, ..t }),
        },
    }
}

/// Block arguments separated by commas.
pub open spec fn block_args(toks: Seq<TokenView>, s: Parsing, block: BlockId) -> Result<
    Parsing,
    ErrorView,
>
    decreases toks.len() - s.pos,
{
    match expect_value(toks, s.pos, "a block argument"@) {
        Err(e) => Err(e),
        Ok((name, p1)) => match expect_punct(toks, p1, ':') {
            Err(e) => Err(e),
            Ok(p2) => match parse_type(toks, p2) {
                Err(e) => Err(e),
                Ok((ty, p3)) => {
                    let id = s.module.next_value();
                    let t = Parsing {
                        pos: p3,
                        module: s.module.add_block_arg(
                            block,
                            Some(name),
                            ty,
                            Provenance::trusted(Source::Tool),
                        ),
                        bindings: s.bindings.push((name, id)),
                    };
                    if peek(toks, p3) == TokView::Punct(',') {
                        if s.pos <= p3 && p3 < toks.len() {
                            block_args(toks, Parsing { pos: p3 + 1, ..t }, block)
                        } else {
                            arbitrary()
                        }
                    } else {
                        Ok(t)
                    }
                },
            },
        },
    }
}

/// Operations up to a closing brace, or, among labelled blocks, to a label.
pub open spec fn operations(
    toks: Seq<TokenView>,
    s: Parsing,
    block: BlockId,
    labelled: bool,
) -> Result<Parsing, ErrorView>
    decreases toks.len() - s.pos, 1int,
{
    if peek(toks, s.pos) == TokView::Punct('}') || (labelled && peek(toks, s.pos) is Label) {
        Ok(s)
    } else if peek(toks, s.pos) == TokView::Eof {
        Err(fail(toks, s.pos, "unexpected end of input inside a region"@))
    } else {
        match operation(toks, s, block) {
            Err(e) => Err(e),
            Ok(t) => if s.pos < t.pos <= toks.len() {
                operations(toks, t, block, labelled)
            } else {
                arbitrary()
            },
        }
    }
}

/// The top-level operations, up to the closing brace of the module.
pub open spec fn top_level(toks: Seq<TokenView>, s: Parsing, block: BlockId) -> Result<
    Parsing,
    ErrorView,
>
    decreases toks.len() - s.pos,
{
    if peek(toks, s.pos) == TokView::Punct('}') {
        Ok(s)
    } else if peek(toks, s.pos) == TokView::Eof {
        Err(fail(toks, s.pos, "unexpected end of input: the module is not closed"@))
    } else {
        match operation(toks, s, block) {
            Err(e) => Err(e),
            Ok(t) => if s.pos < t.pos <= toks.len() {
                top_level(toks, t, block)
            } else {
                arbitrary()
            },
        }
    }
}

/// Whether a capability declaration starts at a position. Before a dot the word
/// names a dialect.
pub open spec fn declares_capability(toks: Seq<TokenView>, pos: int) -> bool {
    peek(toks, pos) == TokView::Ident("capability"@) && peek(toks, pos + 1) != TokView::Punct('.')
}

/// Capability declarations, granted in order.
pub open spec fn capabilities(toks: Seq<TokenView>, s: Parsing) -> Result<Parsing, ErrorView>
    decreases toks.len() - s.pos,
{
    if declares_capability(toks, s.pos) {
        match capability(toks, s.pos) {
            Err(e) => Err(e),
            Ok((c, p)) => if s.pos < p <= toks.len() {
                capabilities(
                    toks,
                    Parsing {
                        pos: p,
                        module: ModuleView {
                            capabilities: s.module.capabilities.grant(c),
                            ..s.module
                        },
                        ..s
                    },
                )
            } else {
                arbitrary()
            },
        }
    } else {
        Ok(s)
    }
}

/// The version of a module; zero when it is not stated, or negative.
pub open spec fn version(toks: Seq<TokenView>, pos: int) -> Result<(u64, int), ErrorView> {
    if peek(toks, pos) == TokView::Ident("version"@) {
        match expect_punct(toks, pos + 1, '(') {
            Err(e) => Err(e),
            Ok(p) => match expect_int(toks, p) {
                Err(e) => Err(e),
                Ok((v, q)) => match expect_punct(toks, q, ')') {
                    Err(e) => Err(e),
                    Ok(r) => Ok(
                        (
                            if v >= 0 {
                                v as u64
                            } else {
                                0
                            },
                            r,
                        ),
                    ),
                },
            },
        }
    } else {
        Ok((0, pos))
    }
}

/// The module a token stream spells.
pub open spec fn module(toks: Seq<TokenView>) -> Result<ModuleView, ErrorView> {
    match expect_keyword(toks, 0, "module"@) {
        Err(e) => Err(e),
        Ok(p1) => match expect_symbol(toks, p1) {
            Err(e) => Err(e),
            Ok((name, p2)) => match version(toks, p2) {
                Err(e) => Err(e),
                Ok((number, p3)) => match expect_punct(toks, p3, '{') {
                    Err(e) => Err(e),
                    Ok(p4) => module_body(
                        toks,
                        Parsing {
                            pos: p4,
                            module: ModuleView { version: number, ..ModuleView::empty(name) },
                            bindings: Seq::empty(),
                        },
                    ),
                },
            },
        },
    }
}

/// What stands between the braces of a module, and the end of the input.
pub open spec fn module_body(toks: Seq<TokenView>, s: Parsing) -> Result<ModuleView, ErrorView> {
    match capabilities(toks, s) {
        Err(e) => Err(e),
        Ok(t) => match top_level(toks, t, BlockId(0)) {
            Err(e) => Err(e),
            Ok(u) => match expect_punct(toks, u.pos, '}') {
                Err(e) => Err(e),
                Ok(p) => if peek(toks, p) == TokView::Eof {
                    Ok(u.module)
                } else {
                    Err(
                        fail(
                            toks,
                            p,
                            "unexpected "@ + peek(toks, p).text() + " after the module"@,
                        ),
                    )
                },
            },
        },
    }
}

/// The module a source text spells.
pub open spec fn parsed(source: Seq<char>) -> Result<ModuleView, ErrorView> {
    match tokens_from(source, 0) {
        Err(e) => Err(e),
        Ok(toks) => module(toks),
    }
}

} // verus!
