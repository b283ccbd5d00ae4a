//! Recursive-descent parser for the Agent IR textual syntax.
//!
//! The [grammar](crate::grammar) says what each production reads; the parser
//! reads exactly that.

use vstd::prelude::*;
use vstd::string::*;

use crate::assoc::insert;
use crate::attribute::{attribute_view, attribute_views, Attribute, AttributeView, Attributes};
use crate::capability::Capability;
use crate::copying::copy_all;
use crate::effect::{Effect, EffectClass, EffectView, Scope};
use crate::grammar;
use crate::grammar::{Bindings, Dictionary, Head, Origin, Parsing};
use crate::ids::{BlockId, OperationId, RegionId, ValueId};
use crate::lexer::{
    token_views, tokenize, ErrorView, LexError, Span, Tok, TokView, Token, TokenView,
};
use crate::module::{result_views, Module, ModuleView, OpName, OperationView};
use crate::number::Number;
use crate::provenance::{Provenance, Source, Validity};
use crate::text::{optional_text, push_nat, same_text, texts};
use crate::types::{DType, Type, TypeView};

verus! {

/// A parse failure, with the position that caused it.
#[derive(Debug, PartialEq)]
pub struct ParseError {
    /// What was expected, and what was found.
    pub message: String,
    /// Where the parser gave up.
    pub span: Span,
}

impl View for ParseError {
    type V = ErrorView;

    open spec fn view(&self) -> ErrorView {
        ErrorView { message: self.message@, span: self.span }
    }
}

impl Clone for ParseError {
    /// A copy of the failure.
    fn clone(&self) -> (r: ParseError)
        ensures
            r@ == self@,
    {
        ParseError { message: self.message.clone(), span: self.span }
    }
}

impl ParseError {
    /// The printed form of the failure.
    pub fn to_string(&self) -> (r: String)
        ensures
            r@ == "parse error at "@ + self.span.text() + ": "@ + self.message@,
    {
        let mut out = String::from_str("parse error at ");
        self.span.push_text(&mut out);
        out.append(": ");
        out.append(self.message.as_str());
        out
    }
}

impl From<LexError> for ParseError {
    fn from(err: LexError) -> ParseError {
        ParseError { message: err.message, span: err.span }
    }
}

impl vstd::std_specs::convert::FromSpecImpl<LexError> for ParseError {
    open spec fn obeys_from_spec() -> bool {
        true
    }

    open spec fn from_spec(err: LexError) -> ParseError {
        ParseError { message: err.message, span: err.span }
    }
}

/// Three texts, one after the other.
fn join3(a: &str, b: &str, c: &str) -> (r: String)
    ensures
        r@ == a@ + b@ + c@,
{
    let mut out = String::from_str(a);
    out.append(b);
    out.append(c);
    out
}

/// Two texts, one after the other.
fn join2(a: &str, b: &str) -> (r: String)
    ensures
        r@ == a@ + b@,
{
    let mut out = String::from_str(a);
    out.append(b);
    out
}

struct Parser {
    tokens: Vec<Token>,
    pos: usize,
    module: Module,
    bindings: Vec<(String, ValueId)>,
    levels: Ghost<Seq<nat>>,
}

/// Whether a token stream ends with the end of the input.
pub open spec fn terminated(toks: Seq<TokenView>) -> bool {
    0 < toks.len() <= u32::MAX && toks.last().tok == TokView::Eof
}

impl Parser {
    spec fn toks(self) -> Seq<TokenView> {
        token_views(self.tokens@)
    }

    spec fn scope(self) -> Bindings {
        Seq::new(self.bindings@.len(), |i: int| (self.bindings@[i].0@, self.bindings@[i].1))
    }

    spec fn state(self) -> Parsing {
        Parsing { pos: self.pos as int, module: self.module@, bindings: self.scope() }
    }

    spec fn wf(self) -> bool {
        &&& terminated(self.toks())
        &&& self.pos < self.tokens@.len()
    }

    /// Whether only the position differs.
    spec fn same_but_pos(self, other: Parser) -> bool {
        &&& self.tokens == other.tokens
        &&& self.module == other.module
        &&& self.bindings == other.bindings
        &&& self.levels == other.levels
    }

    // ------------------------------------------------------------ token help

    fn peek(&self) -> (r: &Tok)
        requires
            self.wf(),
        ensures
            r@ == grammar::peek(self.toks(), self.pos as int),
    {
        &self.tokens[self.pos].tok
    }

    fn peek_at(&self, offset: usize) -> (r: &Tok)
        requires
            self.wf(),
        ensures
            r@ == grammar::peek(self.toks(), self.pos + offset),
    {
        if offset < self.tokens.len() - self.pos {
            &self.tokens[self.pos + offset].tok
        } else {
            &self.tokens[self.tokens.len() - 1].tok
        }
    }

    fn span(&self) -> (r: Span)
        requires
            self.wf(),
        ensures
            r == self.toks()[self.pos as int].span,
    {
        self.tokens[self.pos].span
    }

    fn bump(&mut self)
        requires
            old(self).wf(),
        ensures
            final(self).wf(),
            final(self).same_but_pos(*old(self)),
            final(self).pos == if old(self).pos < old(self).tokens@.len() - 1 {
                old(self).pos + 1
            } else {
                old(self).pos as int
            },
            grammar::peek(old(self).toks(), old(self).pos as int) != TokView::Eof ==> final(self).pos == old(self).pos + 1,
    {
        proof {
            assert(self.toks().last() == self.toks()[self.tokens@.len() - 1]);
        }
        if self.pos < self.tokens.len() - 1 {
            self.pos += 1;
        }
    }

    fn error(&self, message: String) -> (r: ParseError)
        requires
            self.wf(),
        ensures
            r@ == grammar::fail(self.toks(), self.pos as int, message@),
    {
        ParseError { message, span: self.span() }
    }

    /// The failure of a token that is not the one expected.
    fn unexpected(&self, expected: &str) -> (r: ParseError)
        requires
            self.wf(),
            self.pos > 0,
        ensures
            r@ == grammar::reject(self.toks(), self.pos as int, expected@),
    {
        let mut message = String::from_str("expected ");
        message.append(expected);
        message.append(", found ");
        message.append(self.peek().to_string().as_str());
        let at: usize = if self.pos < self.tokens.len() - 1 {
            self.pos
        } else {
            self.pos - 1
        };
        ParseError { message, span: self.tokens[at].span }
    }

    fn at_punct(&self, c: char) -> (r: bool)
        requires
            self.wf(),
        ensures
            r == (grammar::peek(self.toks(), self.pos as int) == TokView::Punct(c)),
    {
        match self.peek() {
            Tok::Punct(p) => *p == c,
            _ => false,
        }
    }

    fn eat_punct(&mut self, c: char) -> (r: bool)
        requires
            old(self).wf(),
        ensures
            final(self).wf(),
            final(self).same_but_pos(*old(self)),
            r == (grammar::peek(old(self).toks(), old(self).pos as int) == TokView::Punct(c)),
            final(self).pos == if r {
                old(self).pos + 1
            } else {
                old(self).pos as int
            },
    {
        if self.at_punct(c) {
            self.bump();
            true
        } else {
            false
        }
    }

    fn expect_punct(&mut self, c: char) -> (r: Result<(), ParseError>)
        requires
            old(self).wf(),
        ensures
            final(self).wf(),
            final(self).same_but_pos(*old(self)),
            match r {
                Ok(_) => grammar::expect_punct(old(self).toks(), old(self).pos as int, c) == Ok::<
                    int,
                    ErrorView,
                >(final(self).pos as int) && final(self).pos == old(self).pos + 1,
                Err(e) => grammar::expect_punct(old(self).toks(), old(self).pos as int, c)
                    == Err::<int, ErrorView>(e@),
            },
    {
        if self.eat_punct(c) {
            Ok(())
        } else {
            let mut message = String::from_str("expected `");
            message.push(c);
            assert(message@ =~= "expected `"@ + seq![c]);
            message.append("`, found ");
            message.append(self.peek().to_string().as_str());
            Err(self.error(message))
        }
    }

    fn at_keyword(&self, keyword: &str) -> (r: bool)
        requires
            self.wf(),
        ensures
            r == (grammar::peek(self.toks(), self.pos as int) == TokView::Ident(keyword@)),
    {
        match self.peek() {
            Tok::Ident(name) => same_text(name.as_str(), keyword),
            _ => false,
        }
    }

    fn eat_keyword(&mut self, keyword: &str) -> (r: bool)
        requires
            old(self).wf(),
        ensures
            final(self).wf(),
            final(self).same_but_pos(*old(self)),
            r == (grammar::peek(old(self).toks(), old(self).pos as int) == TokView::Ident(
                keyword@,
            )),
            final(self).pos == if r {
                old(self).pos + 1
            } else {
                old(self).pos as int
            },
    {
        if self.at_keyword(keyword) {
            self.bump();
            true
        } else {
            false
        }
    }

    fn expect_keyword(&mut self, keyword: &str) -> (r: Result<(), ParseError>)
        requires
            old(self).wf(),
        ensures
            final(self).wf(),
            final(self).same_but_pos(*old(self)),
            match r {
                Ok(_) => grammar::expect_keyword(
                    old(self).toks(),
                    old(self).pos as int,
                    keyword@,
                ) == Ok::<int, ErrorView>(final(self).pos as int) && final(self).pos == old(self).pos + 1,
                Err(e) => grammar::expect_keyword(
                    old(self).toks(),
                    old(self).pos as int,
                    keyword@,
                ) == Err::<int, ErrorView>(e@),
            },
    {
        if self.eat_keyword(keyword) {
            Ok(())
        } else {
            let mut message = String::from_str("expected `");
            message.append(keyword);
            message.append("`, found ");
            message.append(self.peek().to_string().as_str());
            Err(self.error(message))
        }
    }

    fn expect_ident(&mut self) -> (r: Result<String, ParseError>)
        requires
            old(self).wf(),
            old(self).pos > 0,
        ensures
            final(self).wf(),
            final(self).same_but_pos(*old(self)),
            match r {
                Ok(s) => grammar::expect_ident(old(self).toks(), old(self).pos as int) == Ok::<
                    (Seq<char>, int),
                    ErrorView,
                >((s@, final(self).pos as int)) && final(self).pos == old(self).pos + 1,
                Err(e) => grammar::expect_ident(old(self).toks(), old(self).pos as int) == Err::<
                    (Seq<char>, int),
                    ErrorView,
                >(e@),
            },
    {
        let name: Option<String> = match self.peek() {
            Tok::Ident(name) => Some(name.clone()),
            _ => None,
        };
        match name {
            Some(name) => {
                self.bump();
                Ok(name)
            },
            None => Err(self.unexpected("an identifier")),
        }
    }

    fn expect_symbol(&mut self) -> (r: Result<String, ParseError>)
        requires
            old(self).wf(),
            old(self).pos > 0,
        ensures
            final(self).wf(),
            final(self).same_but_pos(*old(self)),
            match r {
                Ok(s) => grammar::expect_symbol(old(self).toks(), old(self).pos as int) == Ok::<
                    (Seq<char>, int),
                    ErrorView,
                >((s@, final(self).pos as int)) && final(self).pos == old(self).pos + 1,
                Err(e) => grammar::expect_symbol(old(self).toks(), old(self).pos as int) == Err::<
                    (Seq<char>, int),
                    ErrorView,
                >(e@),
            },
    {
        let name: Option<String> = match self.peek() {
            Tok::Symbol(name) => Some(name.clone()),
            _ => None,
        };
        match name {
            Some(name) => {
                self.bump();
                Ok(name)
            },
            None => Err(self.unexpected("a `@symbol`")),
        }
    }

    fn expect_int(&mut self) -> (r: Result<i64, ParseError>)
        requires
            old(self).wf(),
            old(self).pos > 0,
        ensures
            final(self).wf(),
            final(self).same_but_pos(*old(self)),
            match r {
                Ok(v) => grammar::expect_int(old(self).toks(), old(self).pos as int) == Ok::<
                    (i64, int),
                    ErrorView,
                >((v, final(self).pos as int)) && final(self).pos == old(self).pos + 1,
                Err(e) => grammar::expect_int(old(self).toks(), old(self).pos as int) == Err::<
                    (i64, int),
                    ErrorView,
                >(e@),
            },
    {
        let value: Option<i64> = match self.peek() {
            Tok::Int(v) => Some(*v),
            _ => None,
        };
        match value {
            Some(v) => {
                self.bump();
                Ok(v)
            },
            None => Err(self.unexpected("an integer")),
        }
    }

    fn expect_string(&mut self) -> (r: Result<String, ParseError>)
        requires
            old(self).wf(),
            old(self).pos > 0,
        ensures
            final(self).wf(),
            final(self).same_but_pos(*old(self)),
            match r {
                Ok(s) => grammar::expect_string(old(self).toks(), old(self).pos as int) == Ok::<
                    (Seq<char>, int),
                    ErrorView,
                >((s@, final(self).pos as int)) && final(self).pos == old(self).pos + 1,
                Err(e) => grammar::expect_string(old(self).toks(), old(self).pos as int) == Err::<
                    (Seq<char>, int),
                    ErrorView,
                >(e@),
            },
    {
        let value: Option<String> = match self.peek() {
            Tok::Str(v) => Some(v.clone()),
            _ => None,
        };
        match value {
            Some(v) => {
                self.bump();
                Ok(v)
            },
            None => Err(self.unexpected("a string")),
        }
    }

    fn expect_float(&mut self) -> (r: Result<Number, ParseError>)
        requires
            old(self).wf(),
            old(self).pos > 0,
        ensures
            final(self).wf(),
            final(self).same_but_pos(*old(self)),
            match r {
                Ok(v) => grammar::expect_float(old(self).toks(), old(self).pos as int) == Ok::<
                    (Number, int),
                    ErrorView,
                >((v, final(self).pos as int)) && final(self).pos == old(self).pos + 1,
                Err(e) => grammar::expect_float(old(self).toks(), old(self).pos as int) == Err::<
                    (Number, int),
                    ErrorView,
                >(e@),
            },
    {
        let value: Option<Number> = match self.peek() {
            Tok::Float(v) => Some(*v),
            Tok::Int(v) => Some(Number::from_int(*v)),
            _ => None,
        };
        match value {
            Some(v) => {
                self.bump();
                Ok(v)
            },
            None => Err(self.unexpected("a number")),
        }
    }

    fn expect_value(&mut self, expected: &str) -> (r: Result<String, ParseError>)
        requires
            old(self).wf(),
            old(self).pos > 0,
        ensures
            final(self).wf(),
            final(self).same_but_pos(*old(self)),
            match r {
                Ok(s) => grammar::expect_value(
                    old(self).toks(),
                    old(self).pos as int,
                    expected@,
                ) == Ok::<(Seq<char>, int), ErrorView>((s@, final(self).pos as int)) && final(self).pos == old(self).pos + 1,
                Err(e) => grammar::expect_value(
                    old(self).toks(),
                    old(self).pos as int,
                    expected@,
                ) == Err::<(Seq<char>, int), ErrorView>(e@),
            },
    {
        let name: Option<String> = match self.peek() {
            Tok::Value(name) => Some(name.clone()),
            _ => None,
        };
        match name {
            Some(name) => {
                self.bump();
                Ok(name)
            },
            None => Err(self.unexpected(expected)),
        }
    }
}

impl Parser {
    // --------------------------------------------------- types and attributes

    fn parse_effect(&mut self) -> (r: Result<Effect, ParseError>)
        requires
            old(self).wf(),
            old(self).pos > 0,
        ensures
            final(self).wf(),
            final(self).same_but_pos(*old(self)),
            match r {
                Ok(v) => grammar::effect(old(self).toks(), old(self).pos as int) == Ok::<
                    (EffectView, int),
                    ErrorView,
                >((v@, final(self).pos as int)) && final(self).pos > old(self).pos,
                Err(e) => grammar::effect(old(self).toks(), old(self).pos as int) == Err::<
                    (EffectView, int),
                    ErrorView,
                >(e@),
            },
    {
        let found: Option<String> = match self.peek() {
            Tok::Effect(name) => Some(name.clone()),
            _ => None,
        };
        let name = match found {
            Some(name) => name,
            None => {
                return Err(self.unexpected("an effect literal"));
            },
        };
        self.bump();
        let class = match EffectClass::from_str(name.as_str()) {
            Ok(class) => class,
            Err(_) => {
                return Err(
                    self.error(join3("`#", name.as_str(), "` is not one of the five effects")),
                );
            },
        };
        let scope = if self.eat_punct('<') {
            let inner = match self.expect_ident() {
                Ok(inner) => inner,
                Err(e) => {
                    return Err(e);
                },
            };
            match self.expect_punct('>') {
                Ok(_) => {},
                Err(e) => {
                    return Err(e);
                },
            }
            Scope::named(inner.as_str())
        } else {
            Scope::any()
        };
        Ok(Effect::of_class(class, scope))
    }

    fn parse_type_argument(&mut self) -> (r: Result<String, ParseError>)
        requires
            old(self).wf(),
            old(self).pos > 0,
        ensures
            final(self).wf(),
            final(self).same_but_pos(*old(self)),
            match r {
                Ok(s) => grammar::type_argument(old(self).toks(), old(self).pos as int) == Ok::<
                    (Seq<char>, int),
                    ErrorView,
                >((s@, final(self).pos as int)) && final(self).pos > old(self).pos,
                Err(e) => grammar::type_argument(old(self).toks(), old(self).pos as int) == Err::<
                    (Seq<char>, int),
                    ErrorView,
                >(e@),
            },
    {
        match self.expect_punct('<') {
            Ok(_) => {},
            Err(e) => {
                return Err(e);
            },
        }
        let inner = match self.expect_ident() {
            Ok(inner) => inner,
            Err(e) => {
                return Err(e);
            },
        };
        match self.expect_punct('>') {
            Ok(_) => Ok(inner),
            Err(e) => Err(e),
        }
    }

    /// Reads the dimensions and the element type of a tensor.
    fn parse_tensor(&mut self) -> (r: Result<Type, ParseError>)
        requires
            old(self).wf(),
            old(self).pos > 0,
        ensures
            final(self).wf(),
            final(self).same_but_pos(*old(self)),
            match r {
                Ok(t) => grammar::tensor_rest(
                    old(self).toks(),
                    old(self).pos as int,
                    Seq::empty(),
                ) == Ok::<(TypeView, int), ErrorView>((t@, final(self).pos as int)) && final(self).pos > old(self).pos,
                Err(e) => grammar::tensor_rest(
                    old(self).toks(),
                    old(self).pos as int,
                    Seq::empty(),
                ) == Err::<(TypeView, int), ErrorView>(e@),
            },
    {
        let mut shape: Vec<i64> = Vec::new();
        let ghost total = grammar::tensor_rest(self.toks(), self.pos as int, Seq::empty());
        assert(shape@ =~= Seq::empty());
        loop
            invariant
                self.wf(),
                self.same_but_pos(*old(self)),
                self.pos >= old(self).pos,
                self.pos > 0,
                total == grammar::tensor_rest(old(self).toks(), old(self).pos as int, Seq::empty()),
                total == grammar::tensor_rest(self.toks(), self.pos as int, shape@),
            decreases self.tokens@.len() - self.pos,
        {
            let next = self.peek().clone();
            match next {
                Tok::Int(dim) => {
                    self.bump();
                    shape.push(dim);
                    match self.expect_punct(',') {
                        Ok(_) => {},
                        Err(e) => {
                            return Err(e);
                        },
                    }
                },
                Tok::Ident(word) => {
                    self.bump();
                    let dtype = match DType::from_word(word.as_str()) {
                        Some(dtype) => dtype,
                        None => {
                            return Err(
                                self.error(join3("`", word.as_str(), "` is not an element type")),
                            );
                        },
                    };
                    match self.expect_punct('>') {
                        Ok(_) => {},
                        Err(e) => {
                            return Err(e);
                        },
                    }
                    return Ok(Type::Tensor { shape, dtype });
                },
                other => {
                    return Err(
                        self.error(
                            join2(
                                "expected a dimension or an element type, found ",
                                other.to_string().as_str(),
                            ),
                        ),
                    );
                },
            }
        }
    }

    fn parse_type(&mut self) -> (r: Result<Type, ParseError>)
        requires
            old(self).wf(),
            old(self).pos > 0,
        ensures
            final(self).wf(),
            final(self).same_but_pos(*old(self)),
            match r {
                Ok(t) => grammar::parse_type(old(self).toks(), old(self).pos as int) == Ok::<
                    (TypeView, int),
                    ErrorView,
                >((t@, final(self).pos as int)) && final(self).pos > old(self).pos,
                Err(e) => grammar::parse_type(old(self).toks(), old(self).pos as int) == Err::<
                    (TypeView, int),
                    ErrorView,
                >(e@),
            },
    {
        let found: Option<String> = match self.peek() {
            Tok::TypeName(name) => Some(name.clone()),
            _ => None,
        };
        let word = match found {
            Some(word) => word,
            None => {
                return Err(self.unexpected("a `!type`"));
            },
        };
        self.bump();
        let name = word.as_str();
        if same_text(name, "core.int") {
            Ok(Type::Int)
        } else if same_text(name, "core.float") {
            Ok(Type::Float)
        } else if same_text(name, "core.bool") {
            Ok(Type::Bool)
        } else if same_text(name, "core.string") {
            Ok(Type::Str)
        } else if same_text(name, "core.unknown") {
            Ok(Type::Unknown)
        } else if same_text(name, "agent.plan") {
            Ok(Type::Plan)
        } else if same_text(name, "memory.memory") {
            Ok(Type::Memory)
        } else if same_text(name, "core.tensor") {
            match self.expect_punct('<') {
                Ok(_) => self.parse_tensor(),
                Err(e) => Err(e),
            }
        } else if same_text(name, "tool.ref") {
            match self.parse_type_argument() {
                Ok(inner) => Ok(Type::reference(inner.as_str())),
                Err(e) => Err(e),
            }
        } else if same_text(name, "tool.result") {
            match self.parse_type_argument() {
                Ok(inner) => Ok(Type::tool_result(inner.as_str())),
                Err(e) => Err(e),
            }
        } else if same_text(name, "observation.observation") {
            match self.parse_type_argument() {
                Ok(inner) => Ok(Type::observation(inner.as_str())),
                Err(e) => Err(e),
            }
        } else {
            Err(self.error(join3("`!", name, "` is not a type of §2.1")))
        }
    }

    fn parse_attr_value(&mut self) -> (r: Result<Attribute, ParseError>)
        requires
            old(self).wf(),
            old(self).pos > 0,
        ensures
            final(self).wf(),
            final(self).same_but_pos(*old(self)),
            match r {
                Ok(v) => grammar::attr_value(old(self).toks(), old(self).pos as int) == Ok::<
                    (AttributeView, int),
                    ErrorView,
                >((v@, final(self).pos as int)) && final(self).pos > old(self).pos,
                Err(e) => grammar::attr_value(old(self).toks(), old(self).pos as int) == Err::<
                    (AttributeView, int),
                    ErrorView,
                >(e@),
            },
        decreases old(self).tokens@.len() - old(self).pos, 1int,
    {
        broadcast use attribute_view;

        let next = self.peek().clone();
        match next {
            Tok::Int(v) => {
                self.bump();
                Ok(Attribute::Int(v))
            },
            Tok::Float(v) => {
                self.bump();
                Ok(Attribute::Float(v))
            },
            Tok::Str(v) => {
                self.bump();
                Ok(Attribute::Str(v))
            },
            Tok::Effect(_) => match self.parse_effect() {
                Ok(e) => Ok(Attribute::Effect(e)),
                Err(e) => Err(e),
            },
            Tok::Punct('[') => {
                self.bump();
                if self.eat_punct(']') {
                    let items: Vec<Attribute> = Vec::new();
                    assert(attribute_views(items@) =~= Seq::empty());
                    return Ok(Attribute::Array(items));
                }
                let items = match self.parse_attr_items() {
                    Ok(items) => items,
                    Err(e) => {
                        return Err(e);
                    },
                };
                match self.expect_punct(']') {
                    Ok(_) => Ok(Attribute::Array(items)),
                    Err(e) => Err(e),
                }
            },
            Tok::Punct('{') => {
                let (mut entries, effect) = match self.parse_attr_dict() {
                    Ok(pair) => pair,
                    Err(e) => {
                        return Err(e);
                    },
                };
                if let Some(e) = effect {
                    entries.insert(String::from_str("effect"), Attribute::Effect(e));
                }
                Ok(Attribute::Dict(entries))
            },
            other => {
                if self.at_keyword("true") {
                    self.bump();
                    return Ok(Attribute::Bool(true));
                }
                if self.at_keyword("false") {
                    self.bump();
                    return Ok(Attribute::Bool(false));
                }
                Err(
                    self.error(
                        join2("expected an attribute value, found ", other.to_string().as_str()),
                    ),
                )
            },
        }
    }

    /// Reads attribute values separated by commas.
    fn parse_attr_items(&mut self) -> (r: Result<Vec<Attribute>, ParseError>)
        requires
            old(self).wf(),
            old(self).pos > 0,
        ensures
            final(self).wf(),
            final(self).same_but_pos(*old(self)),
            match r {
                Ok(items) => grammar::attr_items(
                    old(self).toks(),
                    old(self).pos as int,
                    Seq::empty(),
                ) == Ok::<(Seq<AttributeView>, int), ErrorView>(
                    (attribute_views(items@), final(self).pos as int),
                ) && final(self).pos > old(self).pos,
                Err(e) => grammar::attr_items(
                    old(self).toks(),
                    old(self).pos as int,
                    Seq::empty(),
                ) == Err::<(Seq<AttributeView>, int), ErrorView>(e@),
            },
        decreases old(self).tokens@.len() - old(self).pos, 2int,
    {
        let mut items: Vec<Attribute> = Vec::new();
        let ghost total = grammar::attr_items(self.toks(), self.pos as int, Seq::empty());
        assert(attribute_views(items@) =~= Seq::empty());
        loop
            invariant
                self.wf(),
                self.same_but_pos(*old(self)),
                self.pos >= old(self).pos,
                self.pos > 0,
                total == grammar::attr_items(old(self).toks(), old(self).pos as int, Seq::empty()),
                total == grammar::attr_items(
                    self.toks(),
                    self.pos as int,
                    attribute_views(items@),
                ),
            decreases self.tokens@.len() - self.pos,
        {
            let ghost before = attribute_views(items@);
            let item = match self.parse_attr_value() {
                Ok(item) => item,
                Err(e) => {
                    return Err(e);
                },
            };
            items.push(item);
            assert(attribute_views(items@) =~= before.push(item@));
            if !self.eat_punct(',') {
                return Ok(items);
            }
        }
    }

    fn parse_attr_dict(&mut self) -> (r: Result<(Attributes, Option<Effect>), ParseError>)
        requires
            old(self).wf(),
            old(self).pos > 0,
        ensures
            final(self).wf(),
            final(self).same_but_pos(*old(self)),
            match r {
                Ok(pair) => grammar::attr_dict(old(self).toks(), old(self).pos as int) == Ok::<
                    (Dictionary, int),
                    ErrorView,
                >((dictionary(pair.0, pair.1), final(self).pos as int)) && final(self).pos > old(self).pos,
                Err(e) => grammar::attr_dict(old(self).toks(), old(self).pos as int) == Err::<
                    (Dictionary, int),
                    ErrorView,
                >(e@),
            },
        decreases old(self).tokens@.len() - old(self).pos, 0int,
    {
        broadcast use attribute_view;

        match self.expect_punct('{') {
            Ok(_) => {},
            Err(e) => {
                return Err(e);
            },
        }
        let mut attributes = Attributes::new();
        let mut effect: Option<Effect> = None;
        if self.eat_punct('}') {
            return Ok((attributes, effect));
        }
        let ghost start = self.pos as int;
        let ghost total = grammar::attr_entries(self.toks(), start, Dictionary::empty());
        let mut more = true;
        while more
            invariant
                self.wf(),
                self.same_but_pos(*old(self)),
                self.pos > old(self).pos,
                self.pos >= start,
                total == grammar::attr_entries(old(self).toks(), start, Dictionary::empty()),
                more ==> total == grammar::attr_entries(
                    self.toks(),
                    self.pos as int,
                    dictionary(attributes, effect),
                ),
                !more ==> total == Ok::<(Dictionary, int), ErrorView>(
                    (dictionary(attributes, effect), self.pos as int),
                ),
                start == old(self).pos + 1,
                grammar::expect_punct(old(self).toks(), old(self).pos as int, '{') == Ok::<
                    int,
                    ErrorView,
                >(start),
                grammar::peek(old(self).toks(), start) != TokView::Punct('}'),
                old(self).wf(),
            decreases self.tokens@.len() - self.pos, (if more { 1int } else { 0int }),
        {
            let key = match self.expect_ident() {
                Ok(key) => key,
                Err(e) => {
                    return Err(e);
                },
            };
            match self.expect_punct('=') {
                Ok(_) => {},
                Err(e) => {
                    return Err(e);
                },
            }
            let value = match self.parse_attr_value() {
                Ok(value) => value,
                Err(e) => {
                    return Err(e);
                },
            };
            proof {
                attribute_view(value);
            }
            if same_text(key.as_str(), "effect") {
                match value {
                    Attribute::Effect(e) => {
                        effect = Some(e);
                    },
                    other => {
                        return Err(
                            self.error(
                                join2(
                                    "`effect` must be an effect literal, found ",
                                    other.to_string().as_str(),
                                ),
                            ),
                        );
                    },
                }
            } else {
                attributes.insert(key, value);
            }
            more = self.eat_punct(',');
        }
        match self.expect_punct('}') {
            Ok(_) => Ok((attributes, effect)),
            Err(e) => Err(e),
        }
    }

    fn parse_capability(&mut self) -> (r: Result<Capability, ParseError>)
        requires
            old(self).wf(),
        ensures
            final(self).wf(),
            final(self).same_but_pos(*old(self)),
            match r {
                Ok(c) => grammar::capability(old(self).toks(), old(self).pos as int) == Ok::<
                    (crate::capability::CapabilityView, int),
                    ErrorView,
                >((c@, final(self).pos as int)) && final(self).pos > old(self).pos,
                Err(e) => grammar::capability(old(self).toks(), old(self).pos as int) == Err::<
                    (crate::capability::CapabilityView, int),
                    ErrorView,
                >(e@),
            },
    {
        match self.expect_keyword("capability") {
            Ok(_) => {},
            Err(e) => {
                return Err(e);
            },
        }
        let name = match self.expect_symbol() {
            Ok(name) => name,
            Err(e) => {
                return Err(e);
            },
        };
        match self.expect_keyword("scope") {
            Ok(_) => {},
            Err(e) => {
                return Err(e);
            },
        }
        match self.expect_punct('(') {
            Ok(_) => {},
            Err(e) => {
                return Err(e);
            },
        }
        let scope = if self.eat_punct('*') {
            Scope::any()
        } else {
            match self.expect_string() {
                Ok(s) => Scope::named(s.as_str()),
                Err(e) => {
                    return Err(e);
                },
            }
        };
        match self.expect_punct(')') {
            Ok(_) => {},
            Err(e) => {
                return Err(e);
            },
        }
        match self.expect_keyword("grants") {
            Ok(_) => {},
            Err(e) => {
                return Err(e);
            },
        }
        match self.expect_punct('(') {
            Ok(_) => {},
            Err(e) => {
                return Err(e);
            },
        }
        let grants = match self.parse_grants() {
            Ok(grants) => grants,
            Err(e) => {
                return Err(e);
            },
        };
        match self.expect_punct(')') {
            Ok(_) => {},
            Err(e) => {
                return Err(e);
            },
        }
        let capability = Capability::new(name.as_str(), scope, grants);
        let named = matches!(self.peek_at(1), Tok::Punct('.'));
        if !named && self.eat_keyword("requires_approval") {
            Ok(capability.requiring_approval())
        } else {
            Ok(capability)
        }
    }

    /// Reads effect classes separated by commas.
    fn parse_grants(&mut self) -> (r: Result<Vec<EffectClass>, ParseError>)
        requires
            old(self).wf(),
            old(self).pos > 0,
        ensures
            final(self).wf(),
            final(self).same_but_pos(*old(self)),
            match r {
                Ok(classes) => grammar::grants(
                    old(self).toks(),
                    old(self).pos as int,
                    Seq::empty(),
                ) == Ok::<(Seq<EffectClass>, int), ErrorView>((classes@, final(self).pos as int))
                    && final(self).pos > old(self).pos,
                Err(e) => grammar::grants(old(self).toks(), old(self).pos as int, Seq::empty())
                    == Err::<(Seq<EffectClass>, int), ErrorView>(e@),
            },
    {
        let mut classes: Vec<EffectClass> = Vec::new();
        let ghost total = grammar::grants(self.toks(), self.pos as int, Seq::empty());
        assert(classes@ =~= Seq::empty());
        loop
            invariant
                self.wf(),
                self.same_but_pos(*old(self)),
                self.pos >= old(self).pos,
                self.pos > 0,
                total == grammar::grants(old(self).toks(), old(self).pos as int, Seq::empty()),
                total == grammar::grants(self.toks(), self.pos as int, classes@),
            decreases self.tokens@.len() - self.pos,
        {
            let word = match self.expect_ident() {
                Ok(word) => word,
                Err(e) => {
                    return Err(e);
                },
            };
            match EffectClass::from_str(word.as_str()) {
                Ok(class) => {
                    classes.push(class);
                },
                Err(_) => {
                    return Err(
                        self.error(join3("`", word.as_str(), "` is not an effect class")),
                    );
                },
            }
            if !self.eat_punct(',') {
                return Ok(classes);
            }
        }
    }
}

/// The dictionary that some attributes and an effect make up.
spec fn dictionary(attributes: Attributes, effect: Option<Effect>) -> Dictionary {
    Dictionary {
        attributes: attributes@,
        effect: match effect {
            Some(e) => Some(e@),
            None => None,
        },
    }
}

/// What stands before the regions of an operation.
struct ParsedHead {
    names: Vec<String>,
    name: OpName,
    literal: Option<String>,
    operands: Vec<ValueId>,
}

impl View for ParsedHead {
    type V = Head;

    closed spec fn view(&self) -> Head {
        Head {
            names: texts(self.names@),
            name: self.name@,
            literal: optional_text(self.literal),
            operands: self.operands@,
        }
    }
}

/// Whether one list of bindings starts with another.
spec fn extends(longer: Bindings, shorter: Bindings) -> bool {
    shorter.len() <= longer.len() && longer.take(shorter.len() as int) == shorter
}

/// Whether every bound value exists.
spec fn bindings_in_bounds(m: ModuleView, bindings: Bindings) -> bool {
    forall|i: int| 0 <= i < bindings.len() ==> m.has_value((#[trigger] bindings[i]).1)
}

proof fn lemma_bound_in_bounds(m: ModuleView, bindings: Bindings, name: Seq<char>)
    requires
        bindings_in_bounds(m, bindings),
    ensures
        grammar::bound(bindings, name) matches Some(id) ==> m.has_value(id),
    decreases bindings.len(),
{
    if bindings.len() > 0 && bindings.last().0 != name {
        assert(bindings_in_bounds(m, bindings.drop_last())) by {
            assert forall|i: int| 0 <= i < bindings.drop_last().len() implies m.has_value(
                (#[trigger] bindings.drop_last()[i]).1,
            ) by {
                assert(m.has_value(bindings[i].1));
            }
        }
        lemma_bound_in_bounds(m, bindings.drop_last(), name);
    } else if bindings.len() > 0 {
        assert(m.has_value(bindings[bindings.len() - 1].1));
    }
}

impl Parser {
    /// Whether the parser has built a sound module so far, with no more
    /// entities than tokens read.
    spec fn good(self) -> bool {
        &&& self.wf()
        &&& self.pos > 0
        &&& self.module@.in_bounds()
        &&& self.module@.leveled(self.levels@)
        &&& self.module@.ops.len() <= self.pos
        &&& self.module@.values.len() <= self.pos
        &&& self.module@.blocks.len() <= self.pos + 1
        &&& self.module@.regions.len() <= self.pos + 1
        &&& bindings_in_bounds(self.module@, self.scope())
    }

    /// Whether the parser went on from another state: the tokens are the same,
    /// nothing built was lost, and nothing in scope went out of it.
    spec fn after(self, before: Parser) -> bool {
        &&& self.tokens == before.tokens
        &&& self.module@.ops.len() >= before.module@.ops.len()
        &&& self.module@.values.len() >= before.module@.values.len()
        &&& self.module@.blocks.len() >= before.module@.blocks.len()
        &&& crate::structure::grows(before.module@, self.module@)
        &&& extends(self.scope(), before.scope())
    }

    // ----------------------------------------------------------- value scope

    fn lookup(&self, name: &str) -> (r: Option<ValueId>)
        ensures
            r == grammar::bound(self.scope(), name@),
    {
        let mut i: usize = self.bindings.len();
        assert(self.scope().take(i as int) =~= self.scope());
        while i > 0
            invariant
                i <= self.bindings@.len(),
                self.scope().len() == self.bindings@.len(),
                grammar::bound(self.scope(), name@) == grammar::bound(
                    self.scope().take(i as int),
                    name@,
                ),
            decreases i,
        {
            i -= 1;
            assert(self.scope().take(i + 1).drop_last() =~= self.scope().take(i as int));
            if same_text(self.bindings[i].0.as_str(), name) {
                return Some(self.bindings[i].1);
            }
        }
        None
    }

    // ------------------------------------------------------------ operations

    fn parse_results(&mut self) -> (r: Result<Vec<String>, ParseError>)
        requires
            old(self).wf(),
            old(self).pos > 0,
        ensures
            final(self).wf(),
            final(self).same_but_pos(*old(self)),
            match r {
                Ok(names) => grammar::results(old(self).toks(), old(self).pos as int) == Ok::<
                    (Seq<Seq<char>>, int),
                    ErrorView,
                >((texts(names@), final(self).pos as int)) && final(self).pos >= old(self).pos
                    + names@.len(),
                Err(e) => grammar::results(old(self).toks(), old(self).pos as int) == Err::<
                    (Seq<Seq<char>>, int),
                    ErrorView,
                >(e@),
            },
    {
        let mut names: Vec<String> = Vec::new();
        assert(texts(names@) =~= Seq::empty());
        if !matches!(self.peek(), Tok::Value(_)) {
            return Ok(names);
        }
        // `%a, %b =` is a result list; `%a` on its own starts nothing, so scan
        // past the commas and look for the `=` before committing.
        let mut lookahead: usize = 0;
        let mut scanning = true;
        while scanning
            invariant
                self.wf(),
                lookahead <= self.tokens@.len() - self.pos + 1,
                scanning ==> grammar::value_list_end(self.toks(), self.pos as int)
                    == grammar::value_list_end(self.toks(), self.pos + lookahead),
                !scanning ==> grammar::value_list_end(self.toks(), self.pos as int) == self.pos
                    + lookahead,
            decreases self.tokens@.len() - self.pos + 2 - lookahead, (if scanning { 1int } else { 0int }),
        {
            if lookahead < self.tokens.len() - self.pos && matches!(
                self.peek_at(lookahead),
                Tok::Value(_)
            ) {
                assert(self.toks().last() == self.toks()[self.toks().len() - 1]);
                assert(self.pos + lookahead + 1 < self.toks().len());
                lookahead += 1;
                if matches!(self.peek_at(lookahead), Tok::Punct(',')) {
                    lookahead += 1;
                } else {
                    scanning = false;
                }
            } else {
                scanning = false;
            }
        }
        if !matches!(self.peek_at(lookahead), Tok::Punct('=')) {
            return Ok(names);
        }
        let ghost total = grammar::result_list(self.toks(), self.pos as int, Seq::empty());
        let mut more = true;
        while more
            invariant
                self.wf(),
                self.same_but_pos(*old(self)),
                self.pos >= old(self).pos + names@.len(),
                self.pos > 0,
                total == grammar::result_list(old(self).toks(), old(self).pos as int, Seq::empty()),
                more ==> total == grammar::result_list(
                    self.toks(),
                    self.pos as int,
                    texts(names@),
                ),
                !more ==> total == Ok::<(Seq<Seq<char>>, int), ErrorView>(
                    (texts(names@), self.pos as int),
                ),
                grammar::peek(old(self).toks(), old(self).pos as int) is Value,
                grammar::peek(
                    old(self).toks(),
                    grammar::value_list_end(old(self).toks(), old(self).pos as int),
                ) == TokView::Punct('='),
            decreases self.tokens@.len() - self.pos, (if more { 1int } else { 0int }),
        {
            let ghost before = texts(names@);
            let name = match self.expect_value("a result name") {
                Ok(name) => name,
                Err(e) => {
                    return Err(e);
                },
            };
            names.push(name);
            assert(texts(names@) =~= before.push(name@));
            more = self.eat_punct(',');
        }
        match self.expect_punct('=') {
            Ok(_) => Ok(names),
            Err(e) => Err(e),
        }
    }

    fn parse_operands(&mut self) -> (r: Result<Vec<ValueId>, ParseError>)
        requires
            old(self).good(),
        ensures
            final(self).wf(),
            final(self).same_but_pos(*old(self)),
            match r {
                Ok(ids) => grammar::operands(
                    old(self).toks(),
                    old(self).pos as int,
                    old(self).scope(),
                ) == Ok::<(Seq<ValueId>, int), ErrorView>((ids@, final(self).pos as int)) && final(self).pos >= old(self).pos && forall|i: int|
                    0 <= i < ids@.len() ==> old(self).module@.has_value(#[trigger] ids@[i]),
                Err(e) => grammar::operands(
                    old(self).toks(),
                    old(self).pos as int,
                    old(self).scope(),
                ) == Err::<(Seq<ValueId>, int), ErrorView>(e@),
            },
    {
        let mut ids: Vec<ValueId> = Vec::new();
        assert(ids@ =~= Seq::empty());
        if !self.eat_punct('(') {
            return Ok(ids);
        }
        if self.eat_punct(')') {
            return Ok(ids);
        }
        let ghost start = self.pos as int;
        let ghost total = grammar::operand_list(self.toks(), start, self.scope(), Seq::empty());
        let mut more = true;
        while more
            invariant
                self.wf(),
                self.same_but_pos(*old(self)),
                self.pos > old(self).pos,
                old(self).good(),
                start == old(self).pos + 1,
                grammar::peek(old(self).toks(), old(self).pos as int) == TokView::Punct('('),
                grammar::peek(old(self).toks(), start) != TokView::Punct(')'),
                total == grammar::operand_list(
                    old(self).toks(),
                    start,
                    old(self).scope(),
                    Seq::empty(),
                ),
                more ==> total == grammar::operand_list(
                    self.toks(),
                    self.pos as int,
                    self.scope(),
                    ids@,
                ),
                !more ==> total == Ok::<(Seq<ValueId>, int), ErrorView>((ids@, self.pos as int)),
                forall|i: int| 0 <= i < ids@.len() ==> old(self).module@.has_value(#[trigger] ids@[i]),
            decreases self.tokens@.len() - self.pos, (if more { 1int } else { 0int }),
        {
            let name = match self.expect_value("`%value`") {
                Ok(name) => name,
                Err(e) => {
                    return Err(e);
                },
            };
            proof {
                lemma_bound_in_bounds(self.module@, self.scope(), name@);
            }
            match self.lookup(name.as_str()) {
                Some(id) => {
                    ids.push(id);
                },
                None => {
                    return Err(
                        self.error(
                            join3(
                                "`%",
                                name.as_str(),
                                "` is used before it is defined; every value must have a dominating producer (invariant I1)",
                            ),
                        ),
                    );
                },
            }
            more = self.eat_punct(',');
        }
        match self.expect_punct(')') {
            Ok(_) => Ok(ids),
            Err(e) => Err(e),
        }
    }

    fn parse_head(&mut self) -> (r: Result<ParsedHead, ParseError>)
        requires
            old(self).good(),
        ensures
            final(self).wf(),
            final(self).same_but_pos(*old(self)),
            match r {
                Ok(h) => grammar::head(
                    old(self).toks(),
                    old(self).pos as int,
                    old(self).scope(),
                ) == Ok::<(Head, int), ErrorView>((h@, final(self).pos as int)) && final(self).pos
                    >= old(self).pos + h.names@.len() + 3 && forall|i: int|
                    0 <= i < h.operands@.len() ==> old(self).module@.has_value(
                        #[trigger] h.operands@[i],
                    ),
                Err(e) => grammar::head(
                    old(self).toks(),
                    old(self).pos as int,
                    old(self).scope(),
                ) == Err::<(Head, int), ErrorView>(e@),
            },
    {
        proof {
            reveal(grammar::head);
        }
        let names = match self.parse_results() {
            Ok(names) => names,
            Err(e) => {
                return Err(e);
            },
        };
        let dialect = match self.expect_ident() {
            Ok(dialect) => dialect,
            Err(e) => {
                return Err(e);
            },
        };
        match self.expect_punct('.') {
            Ok(_) => {},
            Err(e) => {
                return Err(e);
            },
        }
        let op_name = match self.expect_ident() {
            Ok(op_name) => op_name,
            Err(e) => {
                return Err(e);
            },
        };
        let literal: Option<String> = match self.peek() {
            Tok::Str(s) => Some(s.clone()),
            _ => None,
        };
        if literal.is_some() {
            self.bump();
        }
        assert(self.scope() == old(self).scope());
        let operands = match self.parse_operands() {
            Ok(operands) => operands,
            Err(e) => {
                return Err(e);
            },
        };
        Ok(
            ParsedHead {
                names,
                name: OpName { dialect, name: op_name },
                literal,
                operands,
            },
        )
    }

    /// Reads the attribute dictionary of an operation, if there is one.
    fn parse_op_attributes(&mut self, op: OperationId) -> (r: Result<(), ParseError>)
        requires
            old(self).good(),
            old(self).module@.has_op(op),
        ensures
            match r {
                Ok(_) => grammar::op_attributes(old(self).toks(), old(self).state(), op) == Ok::<
                    Parsing,
                    ErrorView,
                >(final(self).state()) && final(self).good() && final(self).after(*old(self))
                    && final(self).pos >= old(self).pos && final(self).bindings == old(self).bindings,
                Err(e) => grammar::op_attributes(old(self).toks(), old(self).state(), op) == Err::<
                    Parsing,
                    ErrorView,
                >(e@),
            },
    {
        assert(old(self).scope().take(old(self).scope().len() as int) =~= old(self).scope());
        if !self.at_punct('{') {
            return Ok(());
        }
        let (attributes, effect) = match self.parse_attr_dict() {
            Ok(pair) => pair,
            Err(e) => {
                return Err(e);
            },
        };
        let ghost d = dictionary(attributes, effect);
        let ghost before = self.module@;
        let operation = self.module.op_mut(op);
        operation.attributes = attributes;
        if let Some(e) = effect {
            operation.effect = e;
        }
        proof {
            let o = before.op(op);
            let o2 = OperationView {
                attributes: d.attributes,
                effect: match d.effect {
                    Some(e) => e,
                    None => o.effect,
                },
                ..o
            };
            assert(self.module@.ops =~= before.set_op(op, o2).ops);
            assert(self.module@ =~= before.set_op(op, o2));
            crate::structure::same_structure_keeps(before, self.module@, self.levels@);
        }
        Ok(())
    }

    /// Reads types separated by commas.
    fn parse_type_list(&mut self) -> (r: Result<Vec<Type>, ParseError>)
        requires
            old(self).wf(),
            old(self).pos > 0,
        ensures
            final(self).wf(),
            final(self).same_but_pos(*old(self)),
            match r {
                Ok(tys) => grammar::type_list(
                    old(self).toks(),
                    old(self).pos as int,
                    Seq::empty(),
                ) == Ok::<(Seq<TypeView>, int), ErrorView>(
                    (type_views(tys@), final(self).pos as int),
                ) && final(self).pos > old(self).pos,
                Err(e) => grammar::type_list(old(self).toks(), old(self).pos as int, Seq::empty())
                    == Err::<(Seq<TypeView>, int), ErrorView>(e@),
            },
    {
        let mut tys: Vec<Type> = Vec::new();
        let ghost total = grammar::type_list(self.toks(), self.pos as int, Seq::empty());
        assert(type_views(tys@) =~= Seq::empty());
        loop
            invariant
                self.wf(),
                self.same_but_pos(*old(self)),
                self.pos >= old(self).pos,
                self.pos > 0,
                total == grammar::type_list(old(self).toks(), old(self).pos as int, Seq::empty()),
                total == grammar::type_list(self.toks(), self.pos as int, type_views(tys@)),
            decreases self.tokens@.len() - self.pos,
        {
            let ghost before = type_views(tys@);
            let ty = match self.parse_type() {
                Ok(ty) => ty,
                Err(e) => {
                    return Err(e);
                },
            };
            tys.push(ty);
            assert(type_views(tys@) =~= before.push(ty@));
            if !self.eat_punct(',') {
                return Ok(tys);
            }
        }
    }

    /// Reads one type, or a parenthesized list of types.
    fn parse_types(&mut self) -> (r: Result<Vec<Type>, ParseError>)
        requires
            old(self).wf(),
            old(self).pos > 0,
        ensures
            final(self).wf(),
            final(self).same_but_pos(*old(self)),
            match r {
                Ok(tys) => grammar::types(old(self).toks(), old(self).pos as int) == Ok::<
                    (Seq<TypeView>, int),
                    ErrorView,
                >((type_views(tys@), final(self).pos as int)) && final(self).pos > old(self).pos,
                Err(e) => grammar::types(old(self).toks(), old(self).pos as int) == Err::<
                    (Seq<TypeView>, int),
                    ErrorView,
                >(e@),
            },
    {
        if self.eat_punct('(') {
            if self.eat_punct(')') {
                let none: Vec<Type> = Vec::new();
                assert(type_views(none@) =~= Seq::empty());
                return Ok(none);
            }
            let tys = match self.parse_type_list() {
                Ok(tys) => tys,
                Err(e) => {
                    return Err(e);
                },
            };
            match self.expect_punct(')') {
                Ok(_) => Ok(tys),
                Err(e) => Err(e),
            }
        } else {
            match self.parse_type() {
                Ok(ty) => {
                    let mut tys: Vec<Type> = Vec::new();
                    tys.push(ty);
                    assert(type_views(tys@) =~= seq![ty@]);
                    Ok(tys)
                },
                Err(e) => Err(e),
            }
        }
    }

    /// Reads the types of the results of an operation.
    fn parse_op_types(&mut self, op: OperationId, names: &Vec<String>) -> (r: Result<
        (),
        ParseError,
    >)
        requires
            old(self).good(),
            old(self).module@.has_op(op),
        ensures
            match r {
                Ok(_) => grammar::op_types(
                    old(self).toks(),
                    old(self).state(),
                    op,
                    texts(names@),
                ) == Ok::<Parsing, ErrorView>(final(self).state()) && final(self).good() && final(self).after(*old(self)) && final(self).pos >= old(self).pos && final(self).bindings
                    == old(self).bindings,
                Err(e) => grammar::op_types(
                    old(self).toks(),
                    old(self).state(),
                    op,
                    texts(names@),
                ) == Err::<Parsing, ErrorView>(e@),
            },
    {
        assert(old(self).scope().take(old(self).scope().len() as int) =~= old(self).scope());
        if self.eat_punct(':') {
            let tys = match self.parse_types() {
                Ok(tys) => tys,
                Err(e) => {
                    return Err(e);
                },
            };
            let ids = copy_all(&self.module.op(op).results);
            if tys.len() != ids.len() {
                let mut message = String::from_str("the operation declares ");
                push_nat(&mut message, ids.len() as u64);
                message.append(" result(s) but ");
                push_nat(&mut message, tys.len() as u64);
                message.append(" type(s)");
                return Err(self.error(message));
            }
            let ghost start = self.module@;
            let ghost reached = self.pos;
            let ghost views = type_views(tys@);
            proof {
                assert(start.op_in_bounds(start.ops[op.spec_index()]));
            }
            let mut i: usize = 0;
            while i < ids.len()
                invariant
                    i <= ids@.len(),
                    ids@.len() == tys@.len(),
                    views == type_views(tys@),
                    start == old(self).module@,
                    self.wf(),
                    self.same_but_module(*old(self)),
                    self.pos == reached,
                    start.in_bounds(),
                    start.leveled(self.levels@),
                    crate::structure::same_structure(start, self.module@),
                    forall|j: int| 0 <= j < ids@.len() ==> start.has_value(#[trigger] ids@[j]),
                    self.module@ == grammar::set_types(start, ids@, views, i as int),
                decreases ids@.len() - i,
            {
                let ghost current = self.module@;
                assert(start.has_value(ids@[i as int]));
                self.module.value_mut(ids[i]).ty = tys[i].clone();
                i += 1;
            }
            proof {
                crate::structure::same_structure_keeps(start, self.module@, self.levels@);
                assert(self.scope() =~= old(self).scope());
            }
            Ok(())
        } else if names.len() > 0 {
            let mut message = String::from_str("`");
            self.module.op(op).name.push_text(&mut message);
            message.append("` produces ");
            push_nat(&mut message, names.len() as u64);
            message.append(" result(s) and must state their types after `:`");
            Err(self.error(message))
        } else {
            Ok(())
        }
    }

    /// Whether only the position and the module differ.
    spec fn same_but_module(self, other: Parser) -> bool {
        &&& self.tokens == other.tokens
        &&& self.bindings == other.bindings
        &&& self.levels == other.levels
    }
}

/// The content of each type of a list.
spec fn type_views(tys: Seq<Type>) -> Seq<TypeView> {
    Seq::new(tys.len(), |i: int| tys[i]@)
}

/// What one provenance entry says.
struct ParsedOrigin {
    name: String,
    source: Source,
    confidence: Number,
    validity: Validity,
}

impl View for ParsedOrigin {
    type V = Origin;

    closed spec fn view(&self) -> Origin {
        Origin {
            name: self.name@,
            source: self.source,
            confidence: self.confidence,
            validity: self.validity,
        }
    }
}

proof fn lemma_named_value(m: ModuleView, ids: Seq<ValueId>, from: int, name: Seq<char>)
    requires
        0 <= from,
        forall|i: int| 0 <= i < ids.len() ==> m.has_value(#[trigger] ids[i]),
    ensures
        grammar::named_value(m, ids, from, name) matches Some(id) ==> m.has_value(id),
    decreases ids.len() - from,
{
    if from < ids.len() {
        assert(m.has_value(ids[from]));
        lemma_named_value(m, ids, from + 1, name);
    }
}

impl Parser {
    fn parse_origin(&mut self) -> (r: Result<ParsedOrigin, ParseError>)
        requires
            old(self).wf(),
            old(self).pos > 0,
        ensures
            final(self).wf(),
            final(self).same_but_pos(*old(self)),
            match r {
                Ok(o) => grammar::origin(old(self).toks(), old(self).pos as int) == Ok::<
                    (Origin, int),
                    ErrorView,
                >((o@, final(self).pos as int)) && final(self).pos > old(self).pos,
                Err(e) => grammar::origin(old(self).toks(), old(self).pos as int) == Err::<
                    (Origin, int),
                    ErrorView,
                >(e@),
            },
    {
        let name = match self.expect_value("a `%result`") {
            Ok(name) => name,
            Err(e) => {
                return Err(e);
            },
        };
        match self.expect_punct('=') {
            Ok(_) => {},
            Err(e) => {
                return Err(e);
            },
        }
        let word = match self.expect_ident() {
            Ok(word) => word,
            Err(e) => {
                return Err(e);
            },
        };
        let source = match Source::from_str(word.as_str()) {
            Ok(source) => source,
            Err(_) => {
                return Err(
                    self.error(join3("`", word.as_str(), "` is not a provenance source")),
                );
            },
        };
        let mut confidence = Number::one();
        if self.eat_keyword("confidence") {
            match self.expect_punct('(') {
                Ok(_) => {},
                Err(e) => {
                    return Err(e);
                },
            }
            confidence = match self.expect_float() {
                Ok(v) => v,
                Err(e) => {
                    return Err(e);
                },
            };
            match self.expect_punct(')') {
                Ok(_) => {},
                Err(e) => {
                    return Err(e);
                },
            }
        }
        let mut validity = Validity::Valid;
        let stated: Option<Validity> = match self.peek() {
            Tok::Ident(word) => match Validity::from_str(word.as_str()) {
                Ok(v) => Some(v),
                Err(_) => None,
            },
            _ => None,
        };
        if let Some(v) = stated {
            self.bump();
            validity = v;
        }
        Ok(ParsedOrigin { name, source, confidence, validity })
    }

    /// The result of an operation that has a name.
    fn result_named(&self, op: OperationId, name: &str) -> (r: Option<ValueId>)
        requires
            self.module@.in_bounds(),
            self.module@.has_op(op),
        ensures
            r == grammar::named_value(self.module@, self.module@.op(op).results, 0, name@),
    {
        let ids = &self.module.op(op).results;
        proof {
            assert(self.module@.op_in_bounds(self.module@.ops[op.spec_index()]));
        }
        let mut i: usize = 0;
        while i < ids.len()
            invariant
                i <= ids@.len(),
                ids@ == self.module@.op(op).results,
                forall|j: int| 0 <= j < ids@.len() ==> self.module@.has_value(#[trigger] ids@[j]),
                grammar::named_value(self.module@, ids@, 0, name@) == grammar::named_value(
                    self.module@,
                    ids@,
                    i as int,
                    name@,
                ),
            decreases ids@.len() - i,
        {
            assert(self.module@.has_value(ids@[i as int]));
            let value = self.module.value(ids[i]);
            if let Some(found) = &value.name {
                if same_text(found.as_str(), name) {
                    return Some(ids[i]);
                }
            }
            i += 1;
        }
        None
    }

    fn parse_provenance(&mut self, op: OperationId) -> (r: Result<(), ParseError>)
        requires
            old(self).good(),
            old(self).module@.has_op(op),
        ensures
            match r {
                Ok(_) => grammar::op_provenance(old(self).toks(), old(self).state(), op) == Ok::<
                    Parsing,
                    ErrorView,
                >(final(self).state()) && final(self).good() && final(self).after(*old(self))
                    && final(self).pos >= old(self).pos && final(self).bindings == old(self).bindings,
                Err(e) => grammar::op_provenance(old(self).toks(), old(self).state(), op) == Err::<
                    Parsing,
                    ErrorView,
                >(e@),
            },
    {
        assert(old(self).scope().take(old(self).scope().len() as int) =~= old(self).scope());
        let named = matches!(self.peek_at(1), Tok::Punct('.'));
        if named || !self.eat_keyword("provenance") {
            return Ok(());
        }
        match self.expect_punct('(') {
            Ok(_) => {},
            Err(e) => {
                return Err(e);
            },
        }
        let ghost start = self.pos as int;
        let ghost total = grammar::origins(self.toks(), self.state(), op);
        assert(self.scope() =~= old(self).scope());
        let mut more = true;
        while more
            invariant
                self.good(),
                self.same_but_module(*old(self)),
                self.scope() == old(self).scope(),
                crate::structure::same_structure(old(self).module@, self.module@),
                self.pos >= start,
                start == old(self).pos + 2,
                old(self).good(),
                old(self).module@.has_op(op),
                grammar::opens_provenance(old(self).toks(), old(self).pos as int),
                grammar::peek(old(self).toks(), old(self).pos + 1) == TokView::Punct('('),
                total == grammar::origins(
                    old(self).toks(),
                    Parsing { pos: start, ..old(self).state() },
                    op,
                ),
                more ==> total == grammar::origins(self.toks(), self.state(), op),
                !more ==> total == Ok::<Parsing, ErrorView>(self.state()),
            decreases self.tokens@.len() - self.pos, (if more { 1int } else { 0int }),
        {
            let origin = match self.parse_origin() {
                Ok(origin) => origin,
                Err(e) => {
                    return Err(e);
                },
            };
            let ghost before = self.module@;
            proof {
                assert(before.op_in_bounds(before.ops[op.spec_index()]));
                lemma_named_value(before, before.op(op).results, 0, origin.name@);
            }
            match self.result_named(op, origin.name.as_str()) {
                Some(id) => {
                    let value = self.module.value_mut(id);
                    value.provenance = Provenance {
                        source: origin.source,
                        confidence: origin.confidence,
                        validity: origin.validity,
                        ..value.provenance
                    };
                    proof {
                        assert(self.module@ =~= grammar::set_origin(before, id, origin@));
                        crate::structure::same_structure_keeps(before, self.module@, self.levels@);
                        assert(self.scope() =~= old(self).scope());
                    }
                },
                None => {
                    return Err(
                        self.error(
                            join3(
                                "`%",
                                origin.name.as_str(),
                                "` is not a result of this operation, so it has no provenance here",
                            ),
                        ),
                    );
                },
            }
            more = self.eat_punct(',');
            assert(self.scope() =~= old(self).scope());
        }
        match self.expect_punct(')') {
            Ok(_) => {
                assert(self.scope() =~= old(self).scope());
                Ok(())
            },
            Err(e) => Err(e),
        }
    }

    /// Reads what stands after the regions of an operation, and binds its
    /// results.
    fn parse_tail(&mut self, op: OperationId, names: Vec<String>) -> (r: Result<(), ParseError>)
        requires
            old(self).good(),
            old(self).module@.has_op(op),
        ensures
            match r {
                Ok(_) => grammar::tail(old(self).toks(), old(self).state(), op, texts(names@))
                    == Ok::<Parsing, ErrorView>(final(self).state()) && final(self).good() && final(self).after(*old(self)) && final(self).pos >= old(self).pos,
                Err(e) => grammar::tail(old(self).toks(), old(self).state(), op, texts(names@))
                    == Err::<Parsing, ErrorView>(e@),
            },
    {
        proof {
            reveal(grammar::tail);
        }
        match self.parse_op_attributes(op) {
            Ok(_) => {},
            Err(e) => {
                return Err(e);
            },
        }
        match self.parse_op_types(op, &names) {
            Ok(_) => {},
            Err(e) => {
                return Err(e);
            },
        }
        match self.parse_provenance(op) {
            Ok(_) => {},
            Err(e) => {
                return Err(e);
            },
        }
        // Results become visible only after the whole operation is read, which
        // is what makes `%x = op(%x)` the error it should be.
        let ids = copy_all(&self.module.op(op).results);
        let ghost bound = grammar::bind_results(texts(names@), ids@);
        let ghost start = self.scope();
        proof {
            assert(self.module@.op_in_bounds(self.module@.ops[op.spec_index()]));
            assert(start + bound.take(0) =~= start);
        }
        let mut i: usize = 0;
        while i < ids.len() && i < names.len()
            invariant
                i <= ids@.len(),
                i <= names@.len(),
                self.good(),
                old(self).good(),
                ids@ == self.module@.op(op).results,
                forall|j: int| 0 <= j < ids@.len() ==> self.module@.has_value(#[trigger] ids@[j]),
                bound == grammar::bind_results(texts(names@), ids@),
                self.scope() == start + bound.take(i as int),
                self.tokens == old(self).tokens,
                self.pos >= old(self).pos,
                self.module@.ops.len() >= old(self).module@.ops.len(),
                self.module@.values.len() >= old(self).module@.values.len(),
                self.module@.blocks.len() >= old(self).module@.blocks.len(),
                self.module@.regions.len() >= old(self).module@.regions.len(),
                start == old(self).scope(),
                grammar::tail(old(self).toks(), old(self).state(), op, texts(names@)) == Ok::<
                    Parsing,
                    ErrorView,
                >(
                    Parsing {
                        pos: self.pos as int,
                        module: self.module@,
                        bindings: start + bound,
                    },
                ),
            decreases ids@.len() - i,
        {
            let ghost before = self.scope();
            self.bindings.push((names[i].clone(), ids[i]));
            assert(self.scope() =~= before.push(bound[i as int]));
            assert(self.scope() =~= start + bound.take(i + 1));
            assert(bindings_in_bounds(self.module@, self.scope())) by {
                assert forall|j: int| 0 <= j < self.scope().len() implies self.module@.has_value(
                    (#[trigger] self.scope()[j]).1,
                ) by {
                    if j < before.len() {
                        assert(self.scope()[j] == before[j]);
                    } else {
                        assert(self.module@.has_value(ids@[i as int]));
                    }
                }
            }
            i += 1;
        }
        assert(bound.take(i as int) =~= bound);
        assert(extends(self.scope(), old(self).scope())) by {
            assert(self.scope().take(start.len() as int) =~= start);
        }
        Ok(())
    }

    fn parse_operation(&mut self, block: BlockId) -> (r: Result<OperationId, ParseError>)
        requires
            old(self).good(),
            old(self).module@.has_block(block),
        ensures
            match r {
                Ok(op) => grammar::operation(old(self).toks(), old(self).state(), block) == Ok::<
                    Parsing,
                    ErrorView,
                >(final(self).state()) && final(self).good() && final(self).after(*old(self))
                    && final(self).pos > old(self).pos && op == old(self).module@.next_op(),
                Err(e) => grammar::operation(old(self).toks(), old(self).state(), block) == Err::<
                    Parsing,
                    ErrorView,
                >(e@),
            },
        decreases old(self).tokens@.len() - old(self).pos, 0int,
    {
        let head = match self.parse_head() {
            Ok(head) => head,
            Err(e) => {
                return Err(e);
            },
        };
        // The operation is created before its regions, since a region records
        // the operation that owns it. Its attributes and result types follow
        // once the trailing clauses have been read.
        let ghost h = head@;
        let ghost before = self.module@;
        let ParsedHead { names, name, literal, operands } = head;
        let mut results: Vec<(Option<String>, Type, Provenance)> = Vec::new();
        let mut i: usize = 0;
        while i < names.len()
            invariant
                i <= names@.len(),
                results@.len() == i,
                forall|j: int|
                    0 <= j < i ==> (#[trigger] results@[j]).1@ == TypeView::Unknown
                        && results@[j].2 == Provenance::trusted(Source::Derived) && optional_text(
                        results@[j].0,
                    ) == Some(names@[j]@),
            decreases names@.len() - i,
        {
            results.push((Some(names[i].clone()), Type::Unknown, Provenance::derived()));
            i += 1;
        }
        proof {
            assert(result_views(results@) =~= grammar::undeclared_results(h.names));
        }
        let op = self.module.create_op(
            name,
            literal,
            operands,
            results,
            Attributes::new(),
            Effect::Pure,
        );
        self.module.append_to_block(block, op);
        proof {
            crate::structure::append_new_op_keeps(
                before,
                self.levels@,
                block,
                h.name,
                h.literal,
                h.operands,
                grammar::undeclared_results(h.names),
                Seq::empty(),
                EffectView::Pure,
            );
            assert(self.module@ == grammar::begin_op(before, block, h));
            assert(self.scope() =~= old(self).scope());
            assert(bindings_in_bounds(self.module@, self.scope())) by {
                assert forall|j: int| 0 <= j < self.scope().len() implies self.module@.has_value(
                    (#[trigger] self.scope()[j]).1,
                ) by {
                    assert(old(self).module@.has_value(old(self).scope()[j].1));
                }
            }
            assert(self.scope().take(self.scope().len() as int) =~= self.scope());
        }
        match self.parse_regions(op) {
            Ok(_) => {},
            Err(e) => {
                return Err(e);
            },
        }
        let ghost middle = self.scope();
        match self.parse_tail(op, names) {
            Ok(_) => {
                proof {
                    assert(self.scope().take(old(self).scope().len() as int) =~= self.scope().take(
                        middle.len() as int,
                    ).take(old(self).scope().len() as int));
                }
                Ok(op)
            },
            Err(e) => Err(e),
        }
    }

    /// Whether the `{` ahead opens an attribute dictionary rather than a region.
    fn looks_like_attr_dict(&self) -> (r: bool)
        requires
            self.wf(),
        ensures
            r == grammar::opens_dict(self.toks(), self.pos as int),
    {
        matches!(self.peek_at(1), Tok::Punct('}')) || (matches!(self.peek_at(1), Tok::Ident(_))
            && matches!(self.peek_at(2), Tok::Punct('=')))
    }

    fn parse_regions(&mut self, op: OperationId) -> (r: Result<(), ParseError>)
        requires
            old(self).good(),
            old(self).module@.has_op(op),
        ensures
            match r {
                Ok(_) => grammar::regions(old(self).toks(), old(self).state(), op) == Ok::<
                    Parsing,
                    ErrorView,
                >(final(self).state()) && final(self).good() && final(self).after(*old(self))
                    && final(self).pos >= old(self).pos,
                Err(e) => grammar::regions(old(self).toks(), old(self).state(), op) == Err::<
                    Parsing,
                    ErrorView,
                >(e@),
            },
        decreases old(self).tokens@.len() - old(self).pos, 2int,
    {
        let ghost total = grammar::regions(self.toks(), self.state(), op);
        assert(self.scope().take(self.scope().len() as int) =~= self.scope());
        while self.at_punct('{') && !self.looks_like_attr_dict()
            invariant
                self.good(),
                old(self).good(),
                self.after(*old(self)),
                self.pos >= old(self).pos,
                self.module@.has_op(op),
                total == grammar::regions(old(self).toks(), old(self).state(), op),
                total == grammar::regions(self.toks(), self.state(), op),
            decreases self.tokens@.len() - self.pos,
        {
            let ghost middle = self.scope();
            match self.parse_region(op) {
                Ok(_) => {},
                Err(e) => {
                    return Err(e);
                },
            }
            proof {
                assert(self.scope().take(old(self).scope().len() as int) =~= self.scope().take(
                    middle.len() as int,
                ).take(old(self).scope().len() as int));
            }
        }
        Ok(())
    }

    fn parse_region(&mut self, op: OperationId) -> (r: Result<(), ParseError>)
        requires
            old(self).good(),
            old(self).module@.has_op(op),
            grammar::peek(old(self).toks(), old(self).pos as int) == TokView::Punct('{'),
        ensures
            match r {
                Ok(_) => grammar::region(old(self).toks(), old(self).state(), op) == Ok::<
                    Parsing,
                    ErrorView,
                >(final(self).state()) && final(self).good() && final(self).after(*old(self))
                    && final(self).pos > old(self).pos,
                Err(e) => grammar::region(old(self).toks(), old(self).state(), op) == Err::<
                    Parsing,
                    ErrorView,
                >(e@),
            },
        decreases old(self).tokens@.len() - old(self).pos, 1int,
    {
        self.bump();
        let mark: usize = self.bindings.len();
        let ghost before = self.module@;
        let region = self.module.create_op_region(op);
        proof {
            crate::structure::create_op_region_keeps(before, self.levels@, op);
            self.levels@ = crate::structure::levels_with_region(before, self.levels@, op);
            assert(self.scope() =~= old(self).scope());
        }
        if matches!(self.peek(), Tok::Label(_)) {
            match self.parse_labelled_blocks(region) {
                Ok(_) => {},
                Err(e) => {
                    return Err(e);
                },
            }
        } else {
            let ghost inner = self.module@;
            let block = self.module.create_block(region);
            proof {
                crate::structure::create_block_keeps(inner, self.levels@, region);
                assert(self.scope() =~= old(self).scope());
            }
            match self.parse_operations(block, false) {
                Ok(_) => {},
                Err(e) => {
                    return Err(e);
                },
            }
        }
        proof {
            assert(self.module@.region(region).blocks.len() > 0);
            assert(crate::structure::grows(old(self).module@, self.module@));
        }
        let ghost filled = self.scope();
        self.bindings.truncate(mark);
        proof {
            assert(self.scope() =~= filled.take(mark as int));
            assert(bindings_in_bounds(self.module@, self.scope())) by {
                assert forall|j: int| 0 <= j < self.scope().len() implies self.module@.has_value(
                    (#[trigger] self.scope()[j]).1,
                ) by {
                    assert(self.module@.has_value(filled[j].1));
                }
            }
            assert(self.scope().take(mark as int) =~= self.scope());
        }
        match self.expect_punct('}') {
            Ok(_) => {
                assert(self.scope() =~= old(self).scope());
                Ok(())
            },
            Err(e) => Err(e),
        }
    }

    fn parse_labelled_blocks(&mut self, region: RegionId) -> (r: Result<(), ParseError>)
        requires
            old(self).good(),
            old(self).module@.has_region(region),
        ensures
            match r {
                Ok(_) => grammar::labelled_blocks(old(self).toks(), old(self).state(), region)
                    == Ok::<Parsing, ErrorView>(final(self).state()) && final(self).good()
                    && final(self).after(*old(self)) && final(self).pos >= old(self).pos && (
                grammar::peek(old(self).toks(), old(self).pos as int) is Label ==> final(self).module@.region(region).blocks.len() > 0),
                Err(e) => grammar::labelled_blocks(old(self).toks(), old(self).state(), region)
                    == Err::<Parsing, ErrorView>(e@),
            },
        decreases old(self).tokens@.len() - old(self).pos, 2int,
    {
        let ghost total = grammar::labelled_blocks(self.toks(), self.state(), region);
        assert(self.scope().take(self.scope().len() as int) =~= self.scope());
        while matches!(self.peek(), Tok::Label(_))
            invariant
                self.good(),
                old(self).good(),
                self.after(*old(self)),
                self.pos >= old(self).pos,
                self.module@.has_region(region),
                total == grammar::labelled_blocks(old(self).toks(), old(self).state(), region),
                total == grammar::labelled_blocks(self.toks(), self.state(), region),
                self.pos > old(self).pos ==> self.module@.region(region).blocks.len() > 0,
            decreases self.tokens@.len() - self.pos,
        {
            let ghost outer = self.scope();
            let ghost before = self.module@;
            let block = self.module.create_block(region);
            // The label itself is dropped; block names are regenerated on print.
            self.bump();
            proof {
                crate::structure::create_block_keeps(before, self.levels@, region);
                assert(self.scope() =~= outer);
            }
            match self.parse_block_header(block) {
                Ok(_) => {},
                Err(e) => {
                    return Err(e);
                },
            }
            let ghost middle = self.scope();
            match self.parse_operations(block, true) {
                Ok(_) => {},
                Err(e) => {
                    return Err(e);
                },
            }
            proof {
                let n = old(self).scope().len() as int;
                assert(self.scope().take(n) =~= self.scope().take(middle.len() as int).take(n));
                assert(middle.take(n) =~= middle.take(outer.len() as int).take(n));
            }
        }
        Ok(())
    }

    /// Reads the arguments of a block, if it has any, and the colon.
    fn parse_block_header(&mut self, block: BlockId) -> (r: Result<(), ParseError>)
        requires
            old(self).good(),
            old(self).module@.has_block(block),
        ensures
            match r {
                Ok(_) => grammar::block_header(old(self).toks(), old(self).state(), block) == Ok::<
                    Parsing,
                    ErrorView,
                >(final(self).state()) && final(self).good() && final(self).after(*old(self))
                    && final(self).pos > old(self).pos,
                Err(e) => grammar::block_header(old(self).toks(), old(self).state(), block)
                    == Err::<Parsing, ErrorView>(e@),
            },
    {
        proof {
            reveal(grammar::block_header);
        }
        assert(self.scope().take(self.scope().len() as int) =~= self.scope());
        if self.eat_punct('(') {
            assert(self.scope() =~= old(self).scope());
            if !self.eat_punct(')') {
                assert(self.scope() =~= old(self).scope());
                match self.parse_block_args(block) {
                    Ok(_) => {},
                    Err(e) => {
                        return Err(e);
                    },
                }
                match self.expect_punct(')') {
                    Ok(_) => {},
                    Err(e) => {
                        return Err(e);
                    },
                }
            }
        }
        match self.expect_punct(':') {
            Ok(_) => Ok(()),
            Err(e) => Err(e),
        }
    }

    /// Reads block arguments separated by commas.
    fn parse_block_args(&mut self, block: BlockId) -> (r: Result<(), ParseError>)
        requires
            old(self).good(),
            old(self).module@.has_block(block),
        ensures
            match r {
                Ok(_) => grammar::block_args(old(self).toks(), old(self).state(), block) == Ok::<
                    Parsing,
                    ErrorView,
                >(final(self).state()) && final(self).good() && final(self).after(*old(self))
                    && final(self).pos > old(self).pos,
                Err(e) => grammar::block_args(old(self).toks(), old(self).state(), block) == Err::<
                    Parsing,
                    ErrorView,
                >(e@),
            },
    {
        let ghost total = grammar::block_args(self.toks(), self.state(), block);
        assert(self.scope().take(self.scope().len() as int) =~= self.scope());
        loop
            invariant
                self.good(),
                old(self).good(),
                self.after(*old(self)),
                self.pos >= old(self).pos,
                self.module@.has_block(block),
                total == grammar::block_args(old(self).toks(), old(self).state(), block),
                total == grammar::block_args(self.toks(), self.state(), block),
            decreases self.tokens@.len() - self.pos,
        {
            let ghost outer = self.scope();
            let ghost before = self.module@;
            let name = match self.expect_value("a block argument") {
                Ok(name) => name,
                Err(e) => {
                    return Err(e);
                },
            };
            match self.expect_punct(':') {
                Ok(_) => {},
                Err(e) => {
                    return Err(e);
                },
            }
            let ty = match self.parse_type() {
                Ok(ty) => ty,
                Err(e) => {
                    return Err(e);
                },
            };
            let ghost tv = ty@;
            assert(self.scope() =~= outer);
            let value = self.module.add_block_arg(
                block,
                Some(name.clone()),
                ty,
                Provenance::from_tool(),
            );
            self.bindings.push((name, value));
            proof {
                crate::structure::add_block_arg_keeps(
                    before,
                    self.levels@,
                    block,
                    Some(name@),
                    tv,
                    Provenance::trusted(Source::Tool),
                );
                assert(self.scope() =~= outer.push((name@, value)));
                assert(bindings_in_bounds(self.module@, self.scope())) by {
                    assert forall|j: int|
                        0 <= j < self.scope().len() implies self.module@.has_value(
                        (#[trigger] self.scope()[j]).1,
                    ) by {
                        if j < outer.len() {
                            assert(before.has_value(outer[j].1));
                        }
                    }
                }
                let n = old(self).scope().len() as int;
                assert(self.scope().take(n) =~= outer.take(n));
            }
            if !self.eat_punct(',') {
                assert(self.scope() =~= outer.push((name@, value)));
                return Ok(());
            }
            assert(self.scope() =~= outer.push((name@, value)));
        }
    }

    /// Reads operations up to a closing brace, or, among labelled blocks, to a
    /// label.
    fn parse_operations(&mut self, block: BlockId, labelled: bool) -> (r: Result<(), ParseError>)
        requires
            old(self).good(),
            old(self).module@.has_block(block),
        ensures
            match r {
                Ok(_) => grammar::operations(
                    old(self).toks(),
                    old(self).state(),
                    block,
                    labelled,
                ) == Ok::<Parsing, ErrorView>(final(self).state()) && final(self).good() && final(self).after(*old(self)) && final(self).pos >= old(self).pos,
                Err(e) => grammar::operations(
                    old(self).toks(),
                    old(self).state(),
                    block,
                    labelled,
                ) == Err::<Parsing, ErrorView>(e@),
            },
        decreases old(self).tokens@.len() - old(self).pos, 1int,
    {
        let ghost total = grammar::operations(self.toks(), self.state(), block, labelled);
        assert(self.scope().take(self.scope().len() as int) =~= self.scope());
        while !self.at_punct('}') && !(labelled && matches!(self.peek(), Tok::Label(_)))
            invariant
                self.good(),
                old(self).good(),
                self.after(*old(self)),
                self.pos >= old(self).pos,
                self.module@.has_block(block),
                total == grammar::operations(old(self).toks(), old(self).state(), block, labelled),
                total == grammar::operations(self.toks(), self.state(), block, labelled),
            decreases self.tokens@.len() - self.pos,
        {
            if matches!(self.peek(), Tok::Eof) {
                return Err(
                    self.error(String::from_str("unexpected end of input inside a region")),
                );
            }
            let ghost middle = self.scope();
            match self.parse_operation(block) {
                Ok(_) => {},
                Err(e) => {
                    return Err(e);
                },
            }
            proof {
                let n = old(self).scope().len() as int;
                assert(self.scope().take(n) =~= self.scope().take(middle.len() as int).take(n));
            }
        }
        Ok(())
    }

    fn run(self) -> (r: Result<Module, ParseError>)
        requires
            self.wf(),
            self.pos == 0,
            self.module@ == ModuleView::empty("unnamed"@),
            self.bindings@.len() == 0,
            self.levels@ == seq![0nat],
        ensures
            match r {
                Ok(m) => grammar::module(self.toks()) == Ok::<ModuleView, ErrorView>(m@)
                    && m@.well_formed() && m@.complete(),
                Err(e) => grammar::module(self.toks()) == Err::<ModuleView, ErrorView>(e@),
            },
    {
        let mut parser = self;
        let ghost toks = self.toks();
        match parser.expect_keyword("module") {
            Ok(_) => {},
            Err(e) => {
                return Err(e);
            },
        }
        let name = match parser.expect_symbol() {
            Ok(name) => name,
            Err(e) => {
                return Err(e);
            },
        };
        let mut number: u64 = 0;
        if parser.eat_keyword("version") {
            match parser.expect_punct('(') {
                Ok(_) => {},
                Err(e) => {
                    return Err(e);
                },
            }
            let version = match parser.expect_int() {
                Ok(version) => version,
                Err(e) => {
                    return Err(e);
                },
            };
            match parser.expect_punct(')') {
                Ok(_) => {},
                Err(e) => {
                    return Err(e);
                },
            }
            number = if version >= 0 {
                version as u64
            } else {
                0
            };
        }
        match parser.expect_punct('{') {
            Ok(_) => {},
            Err(e) => {
                return Err(e);
            },
        }
        parser.module.name = name;
        parser.module.version = number;
        let ghost start = ModuleView { version: number, ..ModuleView::empty(name@) };
        proof {
            assert(parser.module@ =~= start);
            crate::structure::empty_is_well_formed("unnamed"@);
            crate::structure::same_structure_keeps(
                ModuleView::empty("unnamed"@),
                start,
                seq![0nat],
            );
            assert(parser.scope() =~= Seq::empty());
        }
        let ghost entry = parser.state();
        let ghost total = grammar::capabilities(toks, entry);
        while parser.at_keyword("capability") && !matches!(parser.peek_at(1), Tok::Punct('.'))
            invariant
                parser.good(),
                parser.tokens == self.tokens,
                toks == self.toks(),
                parser.module@.blocks == start.blocks,
                parser.module@.regions == start.regions,
                parser.module@.body == start.body,
                start.blocks == ModuleView::empty(name@).blocks,
                start.regions == ModuleView::empty(name@).regions,
                start.body == RegionId(0),
                parser.module@.ops.len() == 0,
                parser.module@.values.len() == 0,
                total == grammar::capabilities(toks, entry),
                total == grammar::capabilities(toks, parser.state()),
                grammar::module(toks) == grammar::module_body(toks, entry),
            decreases parser.tokens@.len() - parser.pos,
        {
            let ghost before = parser.module@;
            let capability = match parser.parse_capability() {
                Ok(capability) => capability,
                Err(e) => {
                    return Err(e);
                },
            };
            let ghost scope = parser.scope();
            parser.module.capabilities.grant(capability);
            proof {
                let after = ModuleView {
                    capabilities: before.capabilities.grant(capability@),
                    ..before
                };
                assert(parser.module@ =~= after);
                crate::structure::same_structure_keeps(before, after, parser.levels@);
                assert(parser.scope() =~= scope);
            }
        }
        let body = parser.module.body_block();
        assert(body == BlockId(0));
        let ghost middle = parser.state();
        let ghost rest = grammar::top_level(toks, middle, body);
        while !parser.at_punct('}')
            invariant
                parser.good(),
                parser.tokens == self.tokens,
                toks == self.toks(),
                body == BlockId(0),
                parser.module@.has_block(body),
                parser.module@.complete(),
                rest == grammar::top_level(toks, middle, body),
                rest == grammar::top_level(toks, parser.state(), body),
                grammar::module(toks) == grammar::module_body(toks, entry),
                grammar::capabilities(toks, entry) == Ok::<Parsing, ErrorView>(middle),
            decreases parser.tokens@.len() - parser.pos,
        {
            if matches!(parser.peek(), Tok::Eof) {
                return Err(
                    parser.error(
                        String::from_str("unexpected end of input: the module is not closed"),
                    ),
                );
            }
            match parser.parse_operation(body) {
                Ok(_) => {},
                Err(e) => {
                    return Err(e);
                },
            }
        }
        match parser.expect_punct('}') {
            Ok(_) => {},
            Err(e) => {
                return Err(e);
            },
        }
        if !matches!(parser.peek(), Tok::Eof) {
            return Err(
                parser.error(
                    join3("unexpected ", parser.peek().to_string().as_str(), " after the module"),
                ),
            );
        }
        assert(parser.module@.leveled(parser.levels@));
        Ok(parser.module)
    }
}

/// Parses a module from a token stream.
pub fn parse_tokens(tokens: Vec<Token>) -> (r: Result<Module, ParseError>)
    requires
        terminated(token_views(tokens@)),
    ensures
        match r {
            Ok(m) => grammar::module(token_views(tokens@)) == Ok::<ModuleView, ErrorView>(m@)
                && m@.well_formed() && m@.complete(),
            Err(e) => grammar::module(token_views(tokens@)) == Err::<ModuleView, ErrorView>(e@),
        },
{
    let bindings: Vec<(String, ValueId)> = Vec::new();
    let ghost flat = seq![0nat];
    let levels = Ghost(flat);
    Parser {
        tokens,
        pos: 0,
        module: Module::new("unnamed"),
        bindings,
        levels,
    }.run()
}

/// Parses a module from its textual form.
pub fn parse_module(source: &str) -> (r: Result<Module, ParseError>)
    requires
        source@.len() < u32::MAX,
    ensures
        match r {
            Ok(m) => grammar::parsed(source@) == Ok::<ModuleView, ErrorView>(m@)
                && m@.well_formed() && m@.complete(),
            Err(e) => grammar::parsed(source@) == Err::<ModuleView, ErrorView>(e@),
        },
{
    match tokenize(source) {
        Ok(tokens) => {
            proof {
                crate::lexer::streams_are_terminated(source@, 0);
            }
            parse_tokens(tokens)
        },
        Err(e) => Err(ParseError::from(e)),
    }
}

} // verus!
