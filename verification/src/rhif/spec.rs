use vstd::prelude::*;

use crate::ast::{Member, NodeId};
use crate::types::bit_string::TypedBits;
use crate::types::kind::{Color, Kind};
use crate::types::path::Path;

verus! {

/// Index of a literal in an object's literal table.
#[derive(Clone, Copy, Debug, PartialEq, Eq, Structural)]
pub struct LiteralId(pub usize);

/// Index of a register in an object's register table.
#[derive(Clone, Copy, Debug, PartialEq, Eq, Structural)]
pub struct RegisterId(pub usize);

/// Index of an external (called) function.
#[derive(Clone, Copy, Debug, PartialEq, Eq, Structural)]
pub struct FuncId(pub usize);

/// A storage location of the intermediate form.
#[derive(Clone, Copy, Debug, PartialEq, Eq, Structural)]
pub enum Slot {
    Literal(LiteralId),
    Register(RegisterId),
    Empty,
}

impl Slot {
    pub fn is_empty(&self) -> (r: bool)
        ensures
            r == (*self is Empty),
    {
        matches!(self, Slot::Empty)
    }

    pub fn is_literal(&self) -> (r: bool)
        ensures
            r == (*self is Literal),
    {
        matches!(self, Slot::Literal(_))
    }

    pub fn is_reg(&self) -> (r: bool)
        ensures
            r == (*self is Register),
    {
        matches!(self, Slot::Register(_))
    }

    /// Replaces `old` with `new`, leaving other slots alone.
    pub fn rename(self, old: Slot, new: Slot) -> (r: Slot)
        ensures
            r == rename_slot(self, old, new),
    {
        if self == old {
            new
        } else {
            self
        }
    }
}

pub open spec fn rename_slot(s: Slot, old: Slot, new: Slot) -> Slot {
    if s == old {
        new
    } else {
        s
    }
}

#[derive(Clone, Copy, Debug, PartialEq, Eq, Structural)]
pub enum AluBinary {
    Add,
    Sub,
    Mul,
    BitXor,
    BitAnd,
    BitOr,
    Eq,
    Ne,
    Shl,
    Shr,
    Lt,
    Le,
    Gt,
    Ge,
    /// Addition whose result is one bit wider than the wider operand.
    XAdd,
    /// Subtraction whose signed result is one bit wider than the wider
    /// operand.
    XSub,
}

impl AluBinary {
    pub fn is_comparison(&self) -> (r: bool)
        ensures
            r == (*self is Eq || *self is Ne || *self is Lt || *self is Le || *self is Gt
                || *self is Ge),
    {
        matches!(
            self,
            AluBinary::Eq | AluBinary::Ne | AluBinary::Lt | AluBinary::Le | AluBinary::Gt
                | AluBinary::Ge
        )
    }
}

#[derive(Clone, Copy, Debug, PartialEq, Eq, Structural)]
pub enum AluUnary {
    Neg,
    Not,
    All,
    Any,
    Xor,
    Signed,
    Unsigned,
    Val,
    /// The value with one more bit, of the same sign.
    Pad,
}

#[derive(Clone, Copy, Debug, PartialEq, Eq, Structural)]
pub struct Binary {
    pub op: AluBinary,
    pub lhs: Slot,
    pub arg1: Slot,
    pub arg2: Slot,
}

#[derive(Clone, Copy, Debug, PartialEq, Eq, Structural)]
pub struct Unary {
    pub op: AluUnary,
    pub lhs: Slot,
    pub arg1: Slot,
}

#[derive(Clone, Copy, Debug, PartialEq, Eq, Structural)]
pub struct Assign {
    pub lhs: Slot,
    pub rhs: Slot,
}

/// A cast to a given width (`None` until inferred).
#[derive(Clone, Copy, Debug, PartialEq, Eq, Structural)]
pub struct Cast {
    pub lhs: Slot,
    pub arg: Slot,
    pub len: Option<usize>,
}

#[derive(Clone, Copy, Debug, PartialEq, Eq, Structural)]
pub struct Select {
    pub lhs: Slot,
    pub cond: Slot,
    pub true_value: Slot,
    pub false_value: Slot,
}

#[derive(Clone, Copy, Debug, PartialEq, Eq, Structural)]
pub struct Repeat {
    pub lhs: Slot,
    pub value: Slot,
    pub len: u64,
}

#[derive(Clone, Copy, Debug, PartialEq, Eq, Structural)]
pub struct Retime {
    pub lhs: Slot,
    pub arg: Slot,
    pub color: Option<Color>,
}

#[derive(Debug)]
pub struct Index {
    pub lhs: Slot,
    pub arg: Slot,
    pub path: Path,
}

#[derive(Debug)]
pub struct Splice {
    pub lhs: Slot,
    pub orig: Slot,
    pub path: Path,
    pub subst: Slot,
}

#[derive(Debug)]
pub struct Array {
    pub lhs: Slot,
    pub elements: Vec<Slot>,
}

#[derive(Debug)]
pub struct Tuple {
    pub lhs: Slot,
    pub fields: Vec<Slot>,
}

#[derive(Clone, Copy, Debug, PartialEq, Eq, Structural)]
pub enum CaseArgument {
    Slot(Slot),
    Wild,
}

#[derive(Debug)]
pub struct Case {
    pub lhs: Slot,
    pub discriminant: Slot,
    pub table: Vec<(CaseArgument, Slot)>,
}

#[derive(Debug)]
pub struct FieldValue {
    pub member: Member,
    pub value: Slot,
}

#[derive(Debug)]
pub struct Struct {
    pub lhs: Slot,
    pub fields: Vec<FieldValue>,
    pub rest: Option<Slot>,
    pub template: TypedBits,
}

#[derive(Debug)]
pub struct Exec {
    pub lhs: Slot,
    pub id: FuncId,
    pub args: Vec<Slot>,
}

#[derive(Clone, Copy, Debug, PartialEq, Eq, Structural)]
pub enum WrapOp {
    WrapOk,
    WrapErr,
    WrapSome,
    WrapNone,
}

#[derive(Debug)]
pub struct Wrap {
    pub lhs: Slot,
    pub op: WrapOp,
    pub arg: Slot,
    pub kind: Option<Kind>,
}

#[derive(Debug)]
pub enum OpCode {
    Noop,
    Binary(Binary),
    Unary(Unary),
    Array(Array),
    Assign(Assign),
    AsBits(Cast),
    AsSigned(Cast),
    Resize(Cast),
    Case(Case),
    Comment(String),
    Exec(Exec),
    Index(Index),
    Repeat(Repeat),
    Retime(Retime),
    Select(Select),
    Splice(Splice),
    Struct(Struct),
    Tuple(Tuple),
    Wrap(Wrap),
}

/// An opcode with the source node that produced it.
#[derive(Debug)]
pub struct LocatedOpCode {
    pub op: OpCode,
    pub id: NodeId,
}

} // verus!
