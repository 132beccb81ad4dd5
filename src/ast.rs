use vstd::prelude::*;

verus! {

/// How a field of a syntax-tree type holds its node type.
#[derive(Debug)]
pub enum FieldType {
    Optional(String),
    OptionalVector(String),
    Simple(String),
    Vector(String),
    VectorOfOptional(String),
}

impl FieldType {
    pub open spec fn spec_name(&self) -> Seq<char> {
        match self {
            FieldType::Optional(t) => t@,
            FieldType::OptionalVector(t) => t@,
            FieldType::Simple(t) => t@,
            FieldType::Vector(t) => t@,
            FieldType::VectorOfOptional(t) => t@,
        }
    }

    /// The name of the node type, whatever the holding.
    pub fn get_name(&self) -> (r: String)
        ensures
            r@ == self.spec_name(),
    {
        match self {
            FieldType::Optional(t) | FieldType::OptionalVector(t) | FieldType::Simple(t)
            | FieldType::Vector(t) | FieldType::VectorOfOptional(t) => t.clone(),
        }
    }
}

/// An enum of the syntax tree: its own variants (name, type, whether the type
/// takes a lifetime) and the enums whose variants it inherits.
#[derive(Debug)]
pub struct EnumType {
    pub variants: Vec<(String, String, bool)>,
    pub inherits: Vec<String>,
}

/// What a syntax-tree type is made of.
#[derive(Debug)]
pub enum InnerType {
    Enum(EnumType),
    Field(FieldType),
    Struct(Vec<AstType>),
}

/// A named syntax-tree type.
#[derive(Debug)]
pub struct AstType {
    pub name: String,
    pub has_lifetime: bool,
    pub inner: InnerType,
}

/// The syntax-tree types that the traversal is generated from.
#[derive(Debug)]
pub struct Ast {
    pub types: Vec<AstType>,
}

} // verus!
