use vstd::prelude::*;

use core::ops::Range;

use crate::rhif::spec::{AluBinary, AluUnary};

verus! {

/// Index of a literal of a register-transfer object.
#[derive(Clone, Copy, Debug, PartialEq, Eq, Structural)]
pub struct LiteralId(pub usize);

/// Index of a register of a register-transfer object.
#[derive(Clone, Copy, Debug, PartialEq, Eq, Structural)]
pub struct RegisterId(pub usize);

/// A value read or written by an opcode: a literal or a register.
#[derive(Clone, Copy, Debug, PartialEq, Eq, Structural)]
pub enum Operand {
    Literal(LiteralId),
    Register(RegisterId),
}

impl Operand {
    pub fn is_register(&self) -> (r: bool)
        ensures
            r == (*self is Register),
    {
        matches!(self, Operand::Register(_))
    }
}

/// How a cast fills the bits it adds.
#[derive(Clone, Copy, Debug, PartialEq, Eq, Structural)]
pub enum CastKind {
    /// Reinterpret as signed.
    Signed,
    /// Reinterpret as unsigned.
    Unsigned,
    /// Change the width, keeping the signedness.
    Resize,
}

#[derive(Clone, Copy, Debug, PartialEq, Eq, Structural)]
pub struct Assign {
    pub lhs: Operand,
    pub rhs: Operand,
}

#[derive(Clone, Copy, Debug, PartialEq, Eq, Structural)]
pub struct Binary {
    pub lhs: Operand,
    pub op: AluBinary,
    pub arg1: Operand,
    pub arg2: Operand,
}

#[derive(Clone, Copy, Debug, PartialEq, Eq, Structural)]
pub struct Unary {
    pub lhs: Operand,
    pub op: AluUnary,
    pub arg1: Operand,
}

/// A pattern of a case table: a literal value, or anything.
#[derive(Clone, Copy, Debug, PartialEq, Eq, Structural)]
pub enum CaseArgument {
    Literal(LiteralId),
    Wild,
}

/// `lhs` takes the value of the first entry whose pattern matches the
/// discriminant.
#[derive(Debug)]
pub struct Case {
    pub lhs: Operand,
    pub discriminant: Operand,
    pub table: Vec<(CaseArgument, Operand)>,
}

/// `lhs` takes `arg` cast to `len` bits.
#[derive(Clone, Copy, Debug, PartialEq, Eq, Structural)]
pub struct Cast {
    pub lhs: Operand,
    pub arg: Operand,
    pub len: usize,
    pub kind: CastKind,
}

/// `lhs` takes the arguments laid side by side, the first in the lowest bits.
#[derive(Debug)]
pub struct Concat {
    pub lhs: Operand,
    pub args: Vec<Operand>,
}

/// `lhs` takes the `len` bits of `arg` starting at the bit given by `offset`.
#[derive(Clone, Copy, Debug, PartialEq, Eq, Structural)]
pub struct DynamicIndex {
    pub lhs: Operand,
    pub arg: Operand,
    pub offset: Operand,
    pub len: usize,
}

/// `lhs` takes `arg` with the `len` bits starting at the bit given by `offset`
/// replaced by `value`.
#[derive(Clone, Copy, Debug, PartialEq, Eq, Structural)]
pub struct DynamicSplice {
    pub lhs: Operand,
    pub arg: Operand,
    pub offset: Operand,
    pub len: usize,
    pub value: Operand,
}

/// `lhs` takes the bits of `arg` in `bit_range`.
#[derive(Debug)]
pub struct Index {
    pub lhs: Operand,
    pub arg: Operand,
    pub bit_range: Range<usize>,
}

/// `lhs` takes `true_value` when `cond` is set, `false_value` otherwise.
#[derive(Clone, Copy, Debug, PartialEq, Eq, Structural)]
pub struct Select {
    pub lhs: Operand,
    pub cond: Operand,
    pub true_value: Operand,
    pub false_value: Operand,
}

/// `lhs` takes `orig` with the bits in `bit_range` replaced by `value`.
#[derive(Debug)]
pub struct Splice {
    pub lhs: Operand,
    pub orig: Operand,
    pub bit_range: Range<usize>,
    pub value: Operand,
}

/// An opcode of the register-transfer form.
#[derive(Debug)]
pub enum OpCode {
    Noop,
    Assign(Assign),
    Binary(Binary),
    Case(Case),
    Cast(Cast),
    Comment(String),
    Concat(Concat),
    DynamicIndex(DynamicIndex),
    DynamicSplice(DynamicSplice),
    Index(Index),
    Select(Select),
    Splice(Splice),
    Unary(Unary),
}

} // verus!
