//! The closed set of value types.
//!
//! A program may not invent a type, because the verifier has to be able to
//! decide, for every value, whether it is allowed to cross an effect boundary.
//! [`Type::Unknown`] is the single escape hatch: a proposed plan contains
//! values whose type is only knowable after verification.

use vstd::prelude::*;
use vstd::string::*;

use crate::text::{int_text, push_int, same_text};

verus! {

/// Element type of a [`Type::Tensor`].
#[derive(Clone, Copy, Debug, PartialEq, Eq, Hash, Structural)]
pub enum DType {
    /// 32-bit signed integer.
    I32,
    /// 64-bit signed integer.
    I64,
    /// 32-bit float.
    F32,
    /// 64-bit float.
    F64,
    /// Boolean element, printed `i1`.
    Bool,
}

impl DType {
    /// The printed form of the element type.
    pub open spec fn text(self) -> Seq<char> {
        match self {
            DType::I32 => "i32"@,
            DType::I64 => "i64"@,
            DType::F32 => "f32"@,
            DType::F64 => "f64"@,
            DType::Bool => "i1"@,
        }
    }

    /// The element type a word names, if any.
    pub open spec fn named(word: Seq<char>) -> Option<DType> {
        if word == "i32"@ {
            Some(DType::I32)
        } else if word == "i64"@ {
            Some(DType::I64)
        } else if word == "f32"@ {
            Some(DType::F32)
        } else if word == "f64"@ {
            Some(DType::F64)
        } else if word == "i1"@ {
            Some(DType::Bool)
        } else {
            None
        }
    }

    /// The element type a word names, if any.
    pub fn from_word(word: &str) -> (r: Option<DType>)
        ensures
            r == DType::named(word@),
    {
        if same_text(word, "i32") {
            Some(DType::I32)
        } else if same_text(word, "i64") {
            Some(DType::I64)
        } else if same_text(word, "f32") {
            Some(DType::F32)
        } else if same_text(word, "f64") {
            Some(DType::F64)
        } else if same_text(word, "i1") {
            Some(DType::Bool)
        } else {
            None
        }
    }

    /// The printed form of the element type.
    pub fn as_word(self) -> (r: &'static str)
        ensures
            r@ == self.text(),
    {
        match self {
            DType::I32 => "i32",
            DType::I64 => "i64",
            DType::F32 => "f32",
            DType::F64 => "f64",
            DType::Bool => "i1",
        }
    }

    /// The printed form of the element type.
    pub fn to_string(&self) -> (r: String)
        ensures
            r@ == self.text(),
    {
        String::from_str(self.as_word())
    }
}

/// The word an element type prints as names that element type.
pub proof fn dtype_words_round_trip(d: DType)
    ensures
        DType::named(d.text()) == Some(d),
{
    reveal_strlit("i32");
    reveal_strlit("i64");
    reveal_strlit("f32");
    reveal_strlit("f64");
    reveal_strlit("i1");
    assert("i32"@[1] != "i64"@[1] && "f32"@[1] != "f64"@[1]);
    assert("i32"@[0] != "f32"@[0] && "i32"@[0] != "f64"@[0]);
    assert("i64"@[0] != "f32"@[0] && "i64"@[0] != "f64"@[0]);
    assert("i1"@.len() == 2);
}

/// A value type.
#[derive(Debug, PartialEq, Eq, Hash)]
pub enum Type {
    /// Scalar integer.
    Int,
    /// Scalar float.
    Float,
    /// Scalar boolean.
    Bool,
    /// Scalar string.
    Str,
    /// A dense tensor.
    Tensor {
        /// Extent of each dimension.
        shape: Vec<i64>,
        /// Element type.
        dtype: DType,
    },
    /// A handle on an external resource (a model, a database, a candidate...).
    Ref {
        /// The name of the external resource being referred to.
        resource: String,
    },
    /// An observation carrying a named schema.
    Observation {
        /// The name of the schema the observation conforms to.
        schema: String,
    },
    /// A plan proposed by the LLM builder.
    Plan,
    /// The result of a tool call, carrying a named schema.
    ToolResult {
        /// The name of the schema the result conforms to.
        schema: String,
    },
    /// A handle into the memory store.
    Memory,
    /// Produced by the LLM, not yet typed. The verifier must resolve every
    /// `Unknown` before the value feeds a non-`Pure` operation.
    Unknown,
}

/// The mathematical content of a [`Type`].
#[verifier::ext_equal]
pub ghost enum TypeView {
    Int,
    Float,
    Bool,
    Str,
    Tensor { shape: Seq<i64>, dtype: DType },
    Ref { resource: Seq<char> },
    Observation { schema: Seq<char> },
    Plan,
    ToolResult { schema: Seq<char> },
    Memory,
    Unknown,
}

/// The dimensions of a tensor, each followed by a comma and a space.
pub open spec fn shape_text(shape: Seq<i64>) -> Seq<char>
    decreases shape.len(),
{
    if shape.len() == 0 {
        Seq::empty()
    } else {
        shape_text(shape.drop_last()) + int_text(shape.last() as int) + ", "@
    }
}

impl TypeView {
    /// The printed form of the type.
    pub open spec fn text(self) -> Seq<char> {
        match self {
            TypeView::Int => "!core.int"@,
            TypeView::Float => "!core.float"@,
            TypeView::Bool => "!core.bool"@,
            TypeView::Str => "!core.string"@,
            TypeView::Tensor { shape, dtype } => "!core.tensor<"@ + shape_text(shape)
                + dtype.text() + ">"@,
            TypeView::Ref { resource } => "!tool.ref<"@ + resource + ">"@,
            TypeView::Observation { schema } => "!observation.observation<"@ + schema + ">"@,
            TypeView::Plan => "!agent.plan"@,
            TypeView::ToolResult { schema } => "!tool.result<"@ + schema + ">"@,
            TypeView::Memory => "!memory.memory"@,
            TypeView::Unknown => "!core.unknown"@,
        }
    }

    /// Whether the type is one of the scalars.
    pub open spec fn is_scalar(self) -> bool {
        self is Int || self is Float || self is Bool || self is Str
    }
}

impl View for Type {
    type V = TypeView;

    open spec fn view(&self) -> TypeView {
        match self {
            Type::Int => TypeView::Int,
            Type::Float => TypeView::Float,
            Type::Bool => TypeView::Bool,
            Type::Str => TypeView::Str,
            Type::Tensor { shape, dtype } => TypeView::Tensor { shape: shape@, dtype: *dtype },
            Type::Ref { resource } => TypeView::Ref { resource: resource@ },
            Type::Observation { schema } => TypeView::Observation { schema: schema@ },
            Type::Plan => TypeView::Plan,
            Type::ToolResult { schema } => TypeView::ToolResult { schema: schema@ },
            Type::Memory => TypeView::Memory,
            Type::Unknown => TypeView::Unknown,
        }
    }
}

fn same_shape(a: &Vec<i64>, b: &Vec<i64>) -> (r: bool)
    ensures
        r == (a@ == b@),
{
    if a.len() != b.len() {
        return false;
    }
    let mut i: usize = 0;
    while i < a.len()
        invariant
            i <= a@.len(),
            a@.len() == b@.len(),
            forall|j: int| 0 <= j < i ==> a@[j] == b@[j],
        decreases a@.len() - i,
    {
        if a[i] != b[i] {
            return false;
        }
        i += 1;
    }
    assert(a@ =~= b@);
    true
}

impl Type {
    /// A tensor type with the given shape and element type.
    pub fn tensor(shape: Vec<i64>, dtype: DType) -> (r: Type)
        ensures
            r@ == (TypeView::Tensor { shape: shape@, dtype }),
    {
        Type::Tensor { shape, dtype }
    }

    /// A reference to an external resource.
    pub fn reference(resource: &str) -> (r: Type)
        ensures
            r@ == (TypeView::Ref { resource: resource@ }),
    {
        Type::Ref { resource: String::from_str(resource) }
    }

    /// An observation with the given schema name.
    pub fn observation(schema: &str) -> (r: Type)
        ensures
            r@ == (TypeView::Observation { schema: schema@ }),
    {
        Type::Observation { schema: String::from_str(schema) }
    }

    /// A tool result with the given schema name.
    pub fn tool_result(schema: &str) -> (r: Type)
        ensures
            r@ == (TypeView::ToolResult { schema: schema@ }),
    {
        Type::ToolResult { schema: String::from_str(schema) }
    }

    /// Whether the type is still to be resolved by the verifier.
    pub fn is_unknown(&self) -> (r: bool)
        ensures
            r == (self@ == TypeView::Unknown),
    {
        matches!(self, Type::Unknown)
    }

    /// Whether the type is one of the scalars.
    pub fn is_scalar(&self) -> (r: bool)
        ensures
            r == self@.is_scalar(),
    {
        matches!(self, Type::Int | Type::Float | Type::Bool | Type::Str)
    }

    /// Whether two types are the same.
    pub fn same(&self, other: &Type) -> (r: bool)
        ensures
            r == (self@ == other@),
    {
        match (self, other) {
            (Type::Int, Type::Int) => true,
            (Type::Float, Type::Float) => true,
            (Type::Bool, Type::Bool) => true,
            (Type::Str, Type::Str) => true,
            (Type::Plan, Type::Plan) => true,
            (Type::Memory, Type::Memory) => true,
            (Type::Unknown, Type::Unknown) => true,
            (Type::Ref { resource: a }, Type::Ref { resource: b }) => same_text(
                a.as_str(),
                b.as_str(),
            ),
            (Type::Observation { schema: a }, Type::Observation { schema: b }) => same_text(
                a.as_str(),
                b.as_str(),
            ),
            (Type::ToolResult { schema: a }, Type::ToolResult { schema: b }) => same_text(
                a.as_str(),
                b.as_str(),
            ),
            (
                Type::Tensor { shape: a, dtype: x },
                Type::Tensor { shape: b, dtype: y },
            ) => {
                *x == *y && same_shape(a, b)
            },
            _ => false,
        }
    }

    /// Appends the printed form of the type.
    pub fn push_text(&self, out: &mut String)
        ensures
            final(out)@ == old(out)@ + self@.text(),
    {
        match self {
            Type::Int => {
                out.append("!core.int");
            },
            Type::Float => {
                out.append("!core.float");
            },
            Type::Bool => {
                out.append("!core.bool");
            },
            Type::Str => {
                out.append("!core.string");
            },
            Type::Tensor { shape, dtype } => {
                out.append("!core.tensor<");
                let ghost start = out@;
                let mut i: usize = 0;
                assert(start =~= start + shape_text(shape@.take(0)));
                while i < shape.len()
                    invariant
                        i <= shape@.len(),
                        out@ == start + shape_text(shape@.take(i as int)),
                    decreases shape@.len() - i,
                {
                    push_int(out, shape[i]);
                    out.append(", ");
                    assert(shape@.take(i + 1).drop_last() =~= shape@.take(i as int));
                    assert(out@ =~= start + shape_text(shape@.take(i + 1)));
                    i += 1;
                }
                assert(shape@.take(shape@.len() as int) =~= shape@);
                out.append(dtype.as_word());
                out.append(">");
                assert(out@ =~= old(out)@ + self@.text());
            },
            Type::Ref { resource } => {
                out.append("!tool.ref<");
                out.append(resource.as_str());
                out.append(">");
                assert(out@ =~= old(out)@ + self@.text());
            },
            Type::Observation { schema } => {
                out.append("!observation.observation<");
                out.append(schema.as_str());
                out.append(">");
                assert(out@ =~= old(out)@ + self@.text());
            },
            Type::Plan => {
                out.append("!agent.plan");
            },
            Type::ToolResult { schema } => {
                out.append("!tool.result<");
                out.append(schema.as_str());
                out.append(">");
                assert(out@ =~= old(out)@ + self@.text());
            },
            Type::Memory => {
                out.append("!memory.memory");
            },
            Type::Unknown => {
                out.append("!core.unknown");
            },
        }
    }

    /// The printed form of the type.
    pub fn to_string(&self) -> (r: String)
        ensures
            r@ == self@.text(),
    {
        let mut out = String::new();
        self.push_text(&mut out);
        assert(out@ =~= self@.text());
        out
    }
}

impl Clone for Type {
    /// A copy of the type.
    fn clone(&self) -> (r: Type)
        ensures
            r@ == self@,
    {
        match self {
            Type::Int => Type::Int,
            Type::Float => Type::Float,
            Type::Bool => Type::Bool,
            Type::Str => Type::Str,
            Type::Tensor { shape, dtype } => {
                let copy: Vec<i64> = shape.clone();
                assert(copy@ =~= shape@);
                Type::Tensor { shape: copy, dtype: *dtype }
            },
            Type::Ref { resource } => Type::Ref { resource: resource.clone() },
            Type::Observation { schema } => Type::Observation { schema: schema.clone() },
            Type::Plan => Type::Plan,
            Type::ToolResult { schema } => Type::ToolResult { schema: schema.clone() },
            Type::Memory => Type::Memory,
            Type::Unknown => Type::Unknown,
        }
    }
}

} // verus!
