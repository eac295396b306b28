//! The items a bitfield declaration expands to: a struct that holds the
//! data bytes, and the methods that read and write its fields.
use vstd::prelude::*;
use crate::plan::{GetExpr, SetStmt};

verus! {

/// An attribute as written in the declaration (`#[...]`, or a doc comment),
/// with the path that names it (`derive` for `#[derive(Debug)]`, `doc` for a
/// doc comment).
#[derive(Debug, PartialEq, Eq)]
pub struct Attribute {
    pub path: Vec<u8>,
    pub text: Vec<u8>,
}

impl View for Attribute {
    type V = (Seq<u8>, Seq<u8>);

    open spec fn view(&self) -> (Seq<u8>, Seq<u8>) {
        (self.path@, self.text@)
    }
}

/// The attributes of a list, by their path and text.
pub open spec fn attrs_view(attrs: Seq<Attribute>) -> Seq<(Seq<u8>, Seq<u8>)> {
    attrs.map_values(|a: Attribute| a@)
}

/// The type of one value of a field: `bool` for one bit, otherwise the
/// smallest unsigned integer type that holds the bits.
#[derive(Clone, Copy, Debug, PartialEq, Eq, Structural)]
pub enum ValueType {
    Bool,
    U8,
    U16,
    U32,
    U64,
    U128,
}

impl ValueType {
    /// Width of the type in bits.
    pub open spec fn width(self) -> nat {
        match self {
            ValueType::Bool => 1,
            ValueType::U8 => 8,
            ValueType::U16 => 16,
            ValueType::U32 => 32,
            ValueType::U64 => 64,
            ValueType::U128 => 128,
        }
    }
}

/// The type that a getter returns and a setter takes.
#[derive(Clone, Copy, Debug, PartialEq, Eq, Structural)]
pub enum FieldType {
    Single(ValueType),
    Array(ValueType, usize),
}

/// What a method does.
#[derive(Debug)]
pub enum MethodKind {
    /// `new(data: [u8; byte_length]) -> Self`.
    New { byte_length: usize },
    /// Returns the field's value: one plan per element (one for a scalar).
    Getter { ty: FieldType, exprs: Vec<GetExpr> },
    /// Sets the field's value: one plan per element (one for a scalar).
    Setter { ty: FieldType, stmts: Vec<SetStmt> },
}

/// A method of the generated struct.
#[derive(Debug)]
pub struct Method {
    /// `Some("pub")` for a public method.
    pub vis: Option<Vec<u8>>,
    /// `Some("const")` for a `const fn`.
    pub constness: Option<Vec<u8>>,
    pub name: Vec<u8>,
    pub attrs: Vec<Attribute>,
    pub kind: MethodKind,
}

/// An `impl` block of the generated struct.
#[derive(Debug)]
pub struct ImplBlock {
    pub self_ty: Vec<u8>,
    pub items: Vec<Method>,
}

/// The generated struct. Its one field, `data: [u8; byte_length]`, is left
/// out when `byte_length` is 0.
#[derive(Debug)]
pub struct StructDecl {
    pub vis: Option<Vec<u8>>,
    pub name: Vec<u8>,
    pub attrs: Vec<Attribute>,
    /// `Some("pub")` when the data field is public.
    pub data_vis: Option<Vec<u8>>,
    pub byte_length: usize,
}

/// All that a declaration expands to: the struct, and the one `impl` block
/// that holds its methods when it has any.
#[derive(Debug)]
pub struct Expansion {
    pub decl: StructDecl,
    pub methods: Option<ImplBlock>,
}

} // verus!
