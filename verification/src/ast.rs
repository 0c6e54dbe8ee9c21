use vstd::prelude::*;

verus! {

/// Identifier of a node of the source syntax tree.
#[derive(Clone, Copy, Debug, PartialEq, Eq, Structural)]
pub struct NodeId(pub u32);

/// Identifier of a compiled function.
#[derive(Clone, Copy, Debug, PartialEq, Eq, Structural)]
pub struct FunctionId(pub u64);

impl NodeId {
    /// The id given to nodes that have not been numbered yet.
    pub open spec fn invalid_value() -> u32 {
        u32::MAX
    }

    pub fn new(id: u32) -> (r: NodeId)
        ensures
            r.0 == id,
    {
        NodeId(id)
    }

    pub fn is_invalid(&self) -> (r: bool)
        ensures
            r == (self.0 == Self::invalid_value()),
    {
        self.0 == u32::MAX
    }
}

/// A literal of the source language.
#[derive(Debug)]
pub enum ExprLit {
    /// A value written with its type.
    TypedBits(crate::types::bit_string::TypedBits),
    /// An integer whose type is inferred, as written in the source.
    Int(String),
    Bool(bool),
}

/// Unary operators of the source language.
#[derive(Clone, Copy, Debug, PartialEq, Eq, Structural)]
pub enum UnOp {
    Neg,
    Not,
}

/// A struct member: a named field or a positional one.
#[derive(Debug)]
pub enum Member {
    Named(String),
    Unnamed(u32),
}

impl Member {
    /// A copy of this member.
    pub fn copy(&self) -> (r: Member)
        ensures
            r == *self,
    {
        match self {
            Member::Named(n) => Member::Named(n.clone()),
            Member::Unnamed(i) => Member::Unnamed(*i),
        }
    }
}

} // verus!
