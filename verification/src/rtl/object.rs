use vstd::prelude::*;

use crate::ast::{FunctionId, NodeId};
use crate::compiler::mir::mir_impl::SymbolMap;
use crate::rtl::spec::{CaseArgument, LiteralId, OpCode, Operand, RegisterId};
use crate::types::bit_string::{BitString, BitStringView};

verus! {

/// The type of a register: its signedness and width.
#[derive(Clone, Copy, Debug, PartialEq, Eq, Structural)]
pub enum RegisterKind {
    Signed(usize),
    Unsigned(usize),
}

impl RegisterKind {
    pub open spec fn spec_len(&self) -> nat {
        match self {
            RegisterKind::Signed(n) => *n as nat,
            RegisterKind::Unsigned(n) => *n as nat,
        }
    }

    /// Width in bits.
    pub fn len(&self) -> (r: usize)
        ensures
            r == self.spec_len(),
    {
        match self {
            RegisterKind::Signed(n) => *n,
            RegisterKind::Unsigned(n) => *n,
        }
    }

    pub fn is_signed(&self) -> (r: bool)
        ensures
            r == (*self is Signed),
    {
        matches!(self, RegisterKind::Signed(_))
    }

    /// The kind of the given signedness and width.
    pub fn new(signed: bool, len: usize) -> (r: RegisterKind)
        ensures
            r == register_kind(signed, len as nat),
    {
        if signed {
            RegisterKind::Signed(len)
        } else {
            RegisterKind::Unsigned(len)
        }
    }
}

/// The register kind of the given signedness and width.
pub open spec fn register_kind(signed: bool, len: nat) -> RegisterKind {
    if signed {
        RegisterKind::Signed(len as usize)
    } else {
        RegisterKind::Unsigned(len as usize)
    }
}

/// The register kind that holds a literal.
pub open spec fn literal_kind(b: BitStringView) -> RegisterKind {
    register_kind(b.signed, b.bits.len())
}

/// An opcode with the source node and the function it came from.
#[derive(Debug)]
pub struct LocatedOpCode {
    pub op: OpCode,
    pub id: NodeId,
    pub func: FunctionId,
}

/// A function in register-transfer form: literal and register tables and a
/// straight-line list of opcodes.
#[derive(Debug)]
pub struct Object {
    /// `literals[i]` is literal `i`.
    pub literals: Vec<BitString>,
    /// `register_kind[i]` is the kind of register `i` (`None` once removed).
    pub register_kind: Vec<Option<RegisterKind>>,
    pub ops: Vec<LocatedOpCode>,
    /// The register holding each argument (`None` for arguments that carry no
    /// bits).
    pub arguments: Vec<Option<RegisterId>>,
    /// The operand holding the result (`None` when the function returns
    /// nothing).
    pub return_register: Option<Operand>,
    /// The source node of each slot of the function this was lowered from.
    pub symbols: SymbolMap,
    pub name: String,
    pub fn_id: FunctionId,
}

/// The operands an opcode mentions: the one it writes, then the ones it reads
/// (case patterns included).
pub open spec fn op_operands(op: OpCode) -> Seq<Operand> {
    match op {
        OpCode::Noop => Seq::empty(),
        OpCode::Comment(_) => Seq::empty(),
        OpCode::Assign(x) => seq![x.lhs, x.rhs],
        OpCode::Binary(x) => seq![x.lhs, x.arg1, x.arg2],
        OpCode::Unary(x) => seq![x.lhs, x.arg1],
        OpCode::Case(x) => seq![x.lhs, x.discriminant] + x.table@.map_values(
            |e: (CaseArgument, Operand)| e.1,
        ) + case_literals(x.table@),
        OpCode::Cast(x) => seq![x.lhs, x.arg],
        OpCode::Concat(x) => seq![x.lhs] + x.args@,
        OpCode::DynamicIndex(x) => seq![x.lhs, x.arg, x.offset],
        OpCode::DynamicSplice(x) => seq![x.lhs, x.arg, x.offset, x.value],
        OpCode::Index(x) => seq![x.lhs, x.arg],
        OpCode::Select(x) => seq![x.lhs, x.cond, x.true_value, x.false_value],
        OpCode::Splice(x) => seq![x.lhs, x.orig, x.value],
    }
}

/// The literals used as patterns of a case table.
pub open spec fn case_literals(t: Seq<(CaseArgument, Operand)>) -> Seq<Operand>
    decreases t.len(),
{
    if t.len() == 0 {
        Seq::empty()
    } else {
        match t.last().0 {
            CaseArgument::Literal(l) => case_literals(t.drop_last()).push(Operand::Literal(l)),
            CaseArgument::Wild => case_literals(t.drop_last()),
        }
    }
}

/// The operand exists in tables of the given sizes.
pub open spec fn operand_in(o: Operand, nlit: nat, nreg: nat) -> bool {
    match o {
        Operand::Literal(l) => l.0 < nlit,
        Operand::Register(r) => r.0 < nreg,
    }
}

/// Every operand of the opcode exists in tables of the given sizes.
pub open spec fn op_in(op: OpCode, nlit: nat, nreg: nat) -> bool {
    forall|j: int|
        0 <= j < op_operands(op).len() ==> operand_in(#[trigger] op_operands(op)[j], nlit, nreg)
}

impl Object {
    /// The operand is a literal of the table or a register that still has a
    /// kind.
    pub open spec fn has_operand(&self, o: Operand) -> bool {
        match o {
            Operand::Literal(l) => l.0 < self.literals@.len(),
            Operand::Register(r) => r.0 < self.register_kind@.len() && self.register_kind@[r.0 as int] is Some,
        }
    }

    /// The kind of an operand.
    pub open spec fn operand_kind(&self, o: Operand) -> RegisterKind {
        match o {
            Operand::Literal(l) => literal_kind(self.literals@[l.0 as int]@),
            Operand::Register(r) => self.register_kind@[r.0 as int]->Some_0,
        }
    }

    /// Every operand of every opcode, the result and the arguments exist.
    pub open spec fn wf(&self) -> bool {
        &&& forall|i: int, j: int|
            0 <= i < self.ops@.len() && 0 <= j < op_operands(self.ops@[i].op).len()
                ==> self.has_operand(#[trigger] op_operands(self.ops@[i].op)[j])
        &&& (self.return_register matches Some(o) ==> self.has_operand(o))
        &&& forall|i: int|
            0 <= i < self.arguments@.len() ==> (#[trigger] self.arguments@[i] matches Some(r)
                ==> self.has_operand(Operand::Register(r)))
    }

    /// The kind of an operand.
    pub fn kind(&self, o: Operand) -> (r: RegisterKind)
        requires
            self.has_operand(o),
        ensures
            r == self.operand_kind(o),
    {
        match o {
            Operand::Literal(l) => RegisterKind::new(
                self.literals[l.0].is_signed(),
                self.literals[l.0].len(),
            ),
            Operand::Register(r) => match self.register_kind[r.0] {
                Some(k) => k,
                None => RegisterKind::Unsigned(0),
            },
        }
    }

    /// The index the next literal gets.
    pub fn literal_max_index(&self) -> (r: LiteralId)
        ensures
            r.0 == self.literals@.len(),
    {
        LiteralId(self.literals.len())
    }

    /// The index the next register gets.
    pub fn reg_max_index(&self) -> (r: RegisterId)
        ensures
            r.0 == self.register_kind@.len(),
    {
        RegisterId(self.register_kind.len())
    }
}

} // verus!
