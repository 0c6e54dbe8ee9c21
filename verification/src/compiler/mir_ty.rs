use vstd::prelude::*;

use crate::types::kind::Color;

verus! {

/// Number of a type variable.
#[derive(Clone, Copy, Debug, PartialEq, Eq, Structural)]
pub struct VarNum(pub u32);

/// The types that take no parameters.
#[derive(Clone, Copy, Debug, PartialEq, Eq, Structural)]
pub enum Const {
    Clock(Color),
    Length(usize),
    Integer,
    Usize,
    Empty,
}

/// The name and field names of a struct type.
#[derive(Debug)]
pub struct StructType {
    pub name: String,
    pub fields: Vec<String>,
}

/// The name and discriminant of an enum variant.
#[derive(Debug)]
pub struct VariantTag {
    pub name: String,
    pub discriminant: i64,
}

/// The name and variants of an enum type.
#[derive(Debug)]
pub struct EnumType {
    pub name: String,
    pub variants: Vec<VariantTag>,
}

} // verus!
