//! The declaration set handed to the transpiler.
use vstd::prelude::*;

verus! {

/// A reference to a type, as it appears in a field, an alias or a constant.
pub enum TypeRef {
    /// A possibly scoped name, one entry per path segment.
    Named(Vec<String>),
    /// A fixed-size array of the element type.
    Array(Box<TypeRef>, u64),
    /// A pointer to the pointee type.
    Pointer(Box<TypeRef>),
}

/// An integer literal, possibly negated.
#[derive(Clone, Copy)]
pub struct IntLit {
    pub negative: bool,
    pub magnitude: u128,
}

pub struct FieldDecl {
    pub name: String,
    pub ty: TypeRef,
}

pub struct StructDecl {
    pub name: String,
    /// Named fields in layout order; empty for tuple-like and unit structs.
    pub fields: Vec<FieldDecl>,
}

pub struct AliasDecl {
    pub name: String,
    pub ty: TypeRef,
}

pub struct ConstDecl {
    pub name: String,
    pub ty: TypeRef,
    pub value: IntLit,
}

/// Structs, type aliases and constants, each in declaration order.
pub struct DeclSet {
    pub structs: Vec<StructDecl>,
    pub aliases: Vec<AliasDecl>,
    pub constants: Vec<ConstDecl>,
}

} // verus!
