use vstd::prelude::*;

use core::ops::Range;

use crate::ast::NodeId;
use crate::error::{RHDLError, ICE};
use crate::rhif::spec::AluBinary;
use crate::rtl::object::{op_operands, register_kind, LocatedOpCode, Object, RegisterKind};
use crate::rtl::spec::{Binary, Cast, CastKind, Concat, Index, LiteralId, OpCode, Operand, RegisterId};
use crate::types::bit_string::{i64_value, BitString, BitStringView};
use crate::util::reversed;

use super::{allocate_literal, allocate_register};

verus! {

/// Replaces each shift by a literal amount with plain bit selection: a right
/// shift by `n` extends the argument by `n` bits and keeps the bits from `n`
/// up; a left shift by `n` keeps the low bits of the argument and puts `n`
/// zero bits below them.
#[derive(Debug)]
pub struct LowerShiftByConstant {}

/// The shift, when the opcode shifts by a literal amount.
pub open spec fn const_shift(op: OpCode) -> Option<Binary> {
    match op {
        OpCode::Binary(b) => if (b.op == AluBinary::Shl || b.op == AluBinary::Shr) && b.arg2 is Literal {
            Some(b)
        } else {
            None
        },
        _ => None,
    }
}

pub open spec fn is_const_shift(op: OpCode) -> bool {
    const_shift(op) is Some
}

pub open spec fn is_const_left_shift(op: OpCode) -> bool {
    &&& const_shift(op) is Some
    &&& const_shift(op)->Some_0.op == AluBinary::Shl
}

/// A shift amount is usable: at most 64 bits wide and not negative.
pub open spec fn amount_ok(amount: BitStringView) -> bool {
    &&& amount.bits.len() <= 64
    &&& i64_value(amount) >= 0
}

/// The error for an unusable shift amount.
pub open spec fn amount_error(amount: BitStringView, id: NodeId) -> RHDLError {
    if amount.bits.len() > 64 {
        RHDLError::IntegerOutOfRange
    } else {
        RHDLError::Compile {
            cause: ICE::ShiftOperatorRequiresUnsignedArgumentConstant { shift: i64_value(amount) as i64 },
            id,
        }
    }
}

/// The amount literal of the shift at `i`.
pub open spec fn amount_of(obj: Object, i: int) -> BitStringView {
    obj.literals@[const_shift(obj.ops@[i].op)->Some_0.arg2->Literal_0.0 as int]@
}

/// The opcode at `i` shifts by a literal whose amount is unusable.
pub open spec fn bad_shift(obj: Object, i: int) -> bool {
    &&& is_const_shift(obj.ops@[i].op)
    &&& !amount_ok(amount_of(obj, i))
}

/// `i` is the first opcode with an unusable shift amount.
pub open spec fn first_bad_shift(obj: Object, i: int) -> bool {
    &&& 0 <= i < obj.ops@.len()
    &&& bad_shift(obj, i)
    &&& forall|j: int| 0 <= j < i ==> !#[trigger] bad_shift(obj, j)
}

/// The shift at `i`, if it shifts by a usable literal amount, gives widths
/// that fit in a `usize`.
pub open spec fn shift_fits(obj: Object, i: int) -> bool {
    is_const_shift(obj.ops@[i].op) && amount_ok(amount_of(obj, i)) ==> {
        let n = i64_value(amount_of(obj, i));
        let len = obj.operand_kind(const_shift(obj.ops@[i].op)->Some_0.arg1).spec_len();
        &&& n <= usize::MAX
        &&& (const_shift(obj.ops@[i].op)->Some_0.op == AluBinary::Shr ==> len + n <= usize::MAX)
    }
}

/// Number of shifts by a literal among the first `i` opcodes.
pub open spec fn shifts_before(ops: Seq<LocatedOpCode>, i: int) -> nat
    decreases i,
{
    if i <= 0 {
        0
    } else {
        shifts_before(ops, i - 1) + if is_const_shift(ops[i - 1].op) {
            1nat
        } else {
            0nat
        }
    }
}

/// Number of left shifts by a literal among the first `i` opcodes.
pub open spec fn left_shifts_before(ops: Seq<LocatedOpCode>, i: int) -> nat
    decreases i,
{
    if i <= 0 {
        0
    } else {
        left_shifts_before(ops, i - 1) + if is_const_left_shift(ops[i - 1].op) {
            1nat
        } else {
            0nat
        }
    }
}

/// The opcodes, literal and register that opcode `k` of `a` becomes, found
/// in the tables `ops`, `lits` and `regs` of the result.
pub open spec fn op_lowered(
    a: Object,
    k: int,
    ops: Seq<LocatedOpCode>,
    lits: Seq<BitString>,
    regs: Seq<Option<RegisterKind>>,
) -> bool {
    let lop = a.ops@[k];
    let p = k + shifts_before(a.ops@, k);
    let r = (a.register_kind@.len() + shifts_before(a.ops@, k)) as int;
    let l = (a.literals@.len() + left_shifts_before(a.ops@, k)) as int;
    match const_shift(lop.op) {
        None => ops[p] == lop,
        Some(b) => {
            let n = i64_value(amount_of(a, k)) as nat;
            let arg_kind = a.operand_kind(b.arg1);
            let len = arg_kind.spec_len();
            let signed = arg_kind is Signed;
            let reg = Operand::Register(RegisterId(r as usize));
            if b.op == AluBinary::Shl {
                let lsbs = if n <= len {
                    (len - n) as nat
                } else {
                    0nat
                };
                &&& lits[l]@ == (BitStringView { signed: false, bits: Seq::new(n, |j: int| false) })
                &&& regs[r] == Some(register_kind(signed, lsbs))
                &&& ops[p] == (LocatedOpCode {
                    op: OpCode::Index(
                        Index { lhs: reg, arg: b.arg1, bit_range: Range { start: 0, end: lsbs as usize } },
                    ),
                    id: lop.id,
                    func: lop.func,
                })
                &&& ops[p + 1].id == lop.id
                &&& ops[p + 1].func == lop.func
                &&& ops[p + 1].op is Concat
                &&& ops[p + 1].op->Concat_0.lhs == b.lhs
                &&& ops[p + 1].op->Concat_0.args@ == seq![Operand::Literal(LiteralId(l as usize)), reg]
            } else {
                let ext = len + n;
                &&& regs[r] == Some(register_kind(signed, ext))
                &&& ops[p] == (LocatedOpCode {
                    op: OpCode::Cast(Cast { lhs: reg, arg: b.arg1, len: ext as usize, kind: CastKind::Resize }),
                    id: lop.id,
                    func: lop.func,
                })
                &&& ops[p + 1] == (LocatedOpCode {
                    op: OpCode::Index(
                        Index { lhs: b.lhs, arg: reg, bit_range: Range { start: n as usize, end: ext as usize } },
                    ),
                    id: lop.id,
                    func: lop.func,
                })
            }
        },
    }
}

/// `b` is `a` with every shift by a literal lowered, in order: new registers
/// and literals are appended to the tables in the order of the shifts.
pub open spec fn shifts_lowered(a: Object, b: Object) -> bool {
    let n = a.ops@.len() as int;
    &&& b.ops@.len() == n + shifts_before(a.ops@, n)
    &&& b.register_kind@.len() == a.register_kind@.len() + shifts_before(a.ops@, n)
    &&& b.literals@.len() == a.literals@.len() + left_shifts_before(a.ops@, n)
    &&& b.register_kind@.take(a.register_kind@.len() as int) == a.register_kind@
    &&& b.literals@.take(a.literals@.len() as int) == a.literals@
    &&& forall|k: int| 0 <= k < n ==> #[trigger] op_lowered(a, k, b.ops@, b.literals@, b.register_kind@)
    &&& b.arguments == a.arguments
    &&& b.return_register == a.return_register
    &&& b.symbols == a.symbols
    &&& b.name == a.name
    &&& b.fn_id == a.fn_id
}

proof fn lemma_shifts_monotone(ops: Seq<LocatedOpCode>, i: int, j: int)
    requires
        0 <= i <= j,
    ensures
        shifts_before(ops, i) <= shifts_before(ops, j),
        left_shifts_before(ops, i) <= left_shifts_before(ops, j),
        left_shifts_before(ops, j) - left_shifts_before(ops, i) <= shifts_before(ops, j) - shifts_before(ops, i),
    decreases j - i,
{
    if i < j {
        lemma_shifts_monotone(ops, i, j - 1);
    }
}

/// Lowering facts about earlier opcodes survive appending to the tables.
proof fn lemma_lowered_extend(
    a: Object,
    k: int,
    ops1: Seq<LocatedOpCode>,
    lits1: Seq<BitString>,
    regs1: Seq<Option<RegisterKind>>,
    ops2: Seq<LocatedOpCode>,
    lits2: Seq<BitString>,
    regs2: Seq<Option<RegisterKind>>,
)
    requires
        0 <= k,
        op_lowered(a, k, ops1, lits1, regs1),
        k + 1 + shifts_before(a.ops@, k + 1) <= ops1.len() <= ops2.len(),
        a.register_kind@.len() + shifts_before(a.ops@, k + 1) <= regs1.len() <= regs2.len(),
        a.literals@.len() + left_shifts_before(a.ops@, k + 1) <= lits1.len() <= lits2.len(),
        forall|j: int| 0 <= j < ops1.len() ==> ops2[j] == ops1[j],
        forall|j: int| 0 <= j < lits1.len() ==> lits2[j] == lits1[j],
        forall|j: int| 0 <= j < regs1.len() ==> regs2[j] == regs1[j],
    ensures
        op_lowered(a, k, ops2, lits2, regs2),
{
    let p = k + shifts_before(a.ops@, k);
    let r = (a.register_kind@.len() + shifts_before(a.ops@, k)) as int;
    let l = (a.literals@.len() + left_shifts_before(a.ops@, k)) as int;
    assert(ops2[p] == ops1[p]);
    if is_const_shift(a.ops@[k].op) {
        assert(ops2[p + 1] == ops1[p + 1]);
        assert(regs2[r] == regs1[r]);
        if is_const_left_shift(a.ops@[k].op) {
            assert(lits2[l] == lits1[l]);
        }
    }
}

impl LowerShiftByConstant {
    /// The shift amount held by a literal, refused when it is wider than 64
    /// bits or negative.
    fn shift_amount_as_usize(literals: &Vec<BitString>, lit: LiteralId, id: NodeId) -> (r: Result<
        usize,
        RHDLError,
    >)
        requires
            lit.0 < literals@.len(),
            amount_ok(literals@[lit.0 as int]@) ==> i64_value(literals@[lit.0 as int]@) <= usize::MAX,
        ensures
            r is Ok <==> amount_ok(literals@[lit.0 as int]@),
            r matches Ok(n) ==> n == i64_value(literals@[lit.0 as int]@),
            r matches Err(e) ==> e == amount_error(literals@[lit.0 as int]@, id),
    {
        let shift_amount = match literals[lit.0].as_i64() {
            Ok(v) => v,
            Err(e) => {
                return Err(e);
            },
        };
        if shift_amount < 0 {
            return Err(
                RHDLError::Compile {
                    cause: ICE::ShiftOperatorRequiresUnsignedArgumentConstant { shift: shift_amount },
                    id,
                },
            );
        }
        Ok(shift_amount as usize)
    }

    /// Lowers shifts by literal amounts, in the order of the opcodes. Fails
    /// at the first shift whose amount is wider than 64 bits or negative.
    pub fn run(input: Object) -> (r: Result<Object, RHDLError>)
        requires
            input.wf(),
            forall|i: int| 0 <= i < input.ops@.len() ==> #[trigger] shift_fits(input, i),
        ensures
            r is Ok <==> forall|i: int| 0 <= i < input.ops@.len() ==> !#[trigger] bad_shift(input, i),
            r matches Ok(out) ==> shifts_lowered(input, out),
            r matches Err(e) ==> exists|i: int|
                #[trigger] first_bad_shift(input, i) && e == amount_error(amount_of(input, i), input.ops@[i].id),
    {
        let ghost a = input;
        let mut obj = input;
        let mut taken: Vec<LocatedOpCode> = Vec::new();
        std::mem::swap(&mut taken, &mut obj.ops);
        let mut rev = reversed(taken);
        let n = rev.len();
        let mut i: usize = 0;
        while rev.len() > 0
            invariant
                a == input,
                n == a.ops@.len(),
                i + rev@.len() == n,
                forall|j: int| 0 <= j < rev@.len() ==> #[trigger] rev@[j] == a.ops@[n - 1 - j],
                a.wf(),
                forall|j: int| 0 <= j < a.ops@.len() ==> #[trigger] shift_fits(a, j),
                obj.ops@.len() == i + shifts_before(a.ops@, i as int),
                obj.register_kind@.len() == a.register_kind@.len() + shifts_before(a.ops@, i as int),
                obj.literals@.len() == a.literals@.len() + left_shifts_before(a.ops@, i as int),
                forall|j: int| 0 <= j < a.register_kind@.len() ==> obj.register_kind@[j] == a.register_kind@[j],
                forall|j: int| 0 <= j < a.literals@.len() ==> obj.literals@[j] == a.literals@[j],
                forall|k: int| 0 <= k < i ==> #[trigger] op_lowered(a, k, obj.ops@, obj.literals@, obj.register_kind@),
                forall|k: int| 0 <= k < i ==> !#[trigger] bad_shift(a, k),
                obj.arguments == a.arguments,
                obj.return_register == a.return_register,
                obj.symbols == a.symbols,
                obj.name == a.name,
                obj.fn_id == a.fn_id,
            decreases rev@.len(),
        {
            let lop = rev.pop().unwrap();
            let ghost ops0 = obj.ops@;
            let ghost lits0 = obj.literals@;
            let ghost regs0 = obj.register_kind@;
            proof {
                assert(lop == a.ops@[i as int]);
                assert(op_operands(a.ops@[i as int].op) == op_operands(lop.op));
            }
            let LocatedOpCode { op, id, func } = lop;
            match op {
                OpCode::Binary(Binary { op: AluBinary::Shl, lhs, arg1, arg2: Operand::Literal(lit) }) => {
                    proof {
                        assert(a.has_operand(op_operands(a.ops@[i as int].op)[1]));
                        assert(a.has_operand(op_operands(a.ops@[i as int].op)[2]));
                        assert(shift_fits(a, i as int));
                        assert(obj.literals@[lit.0 as int] == a.literals@[lit.0 as int]);
                    }
                    let shift_amount = match Self::shift_amount_as_usize(&obj.literals, lit, id) {
                        Ok(s) => s,
                        Err(e) => {
                            proof {
                                assert(first_bad_shift(a, i as int));
                            }
                            return Err(e);
                        },
                    };
                    proof {
                        match arg1 {
                            Operand::Register(rg) => {
                                assert(obj.register_kind@[rg.0 as int] == a.register_kind@[rg.0 as int]);
                            },
                            Operand::Literal(lt) => {
                                assert(obj.literals@[lt.0 as int] == a.literals@[lt.0 as int]);
                            },
                        }
                    }
                    let arg_kind = obj.kind(arg1);
                    let arg1_len = arg_kind.len();
                    let arg1_lsbs_len = arg1_len.saturating_sub(shift_amount);
                    let zero_lit = allocate_literal(&mut obj.literals, BitString::zeros(shift_amount));
                    let lsbs = allocate_register(
                        &mut obj.register_kind,
                        RegisterKind::new(arg_kind.is_signed(), arg1_lsbs_len),
                    );
                    obj.ops.push(
                        LocatedOpCode {
                            op: OpCode::Index(
                                Index {
                                    lhs: Operand::Register(lsbs),
                                    arg: arg1,
                                    bit_range: Range { start: 0, end: arg1_lsbs_len },
                                },
                            ),
                            id,
                            func,
                        },
                    );
                    obj.ops.push(
                        LocatedOpCode {
                            op: OpCode::Concat(
                                Concat { lhs, args: vec![Operand::Literal(zero_lit), Operand::Register(lsbs)] },
                            ),
                            id,
                            func,
                        },
                    );
                },
                OpCode::Binary(Binary { op: AluBinary::Shr, lhs, arg1, arg2: Operand::Literal(lit) }) => {
                    proof {
                        assert(a.has_operand(op_operands(a.ops@[i as int].op)[1]));
                        assert(a.has_operand(op_operands(a.ops@[i as int].op)[2]));
                        assert(shift_fits(a, i as int));
                        assert(obj.literals@[lit.0 as int] == a.literals@[lit.0 as int]);
                    }
                    let shift_amount = match Self::shift_amount_as_usize(&obj.literals, lit, id) {
                        Ok(s) => s,
                        Err(e) => {
                            proof {
                                assert(first_bad_shift(a, i as int));
                            }
                            return Err(e);
                        },
                    };
                    proof {
                        match arg1 {
                            Operand::Register(rg) => {
                                assert(obj.register_kind@[rg.0 as int] == a.register_kind@[rg.0 as int]);
                            },
                            Operand::Literal(lt) => {
                                assert(obj.literals@[lt.0 as int] == a.literals@[lt.0 as int]);
                            },
                        }
                    }
                    let arg_kind = obj.kind(arg1);
                    let arg1_len = arg_kind.len();
                    let arg1_ext_len = arg1_len + shift_amount;
                    let ext = allocate_register(
                        &mut obj.register_kind,
                        RegisterKind::new(arg_kind.is_signed(), arg1_ext_len),
                    );
                    obj.ops.push(
                        LocatedOpCode {
                            op: OpCode::Cast(
                                Cast { lhs: Operand::Register(ext), arg: arg1, kind: CastKind::Resize, len: arg1_ext_len },
                            ),
                            id,
                            func,
                        },
                    );
                    obj.ops.push(
                        LocatedOpCode {
                            op: OpCode::Index(
                                Index {
                                    lhs,
                                    arg: Operand::Register(ext),
                                    bit_range: Range { start: shift_amount, end: arg1_ext_len },
                                },
                            ),
                            id,
                            func,
                        },
                    );
                },
                op => {
                    obj.ops.push(LocatedOpCode { op, id, func });
                },
            }
            proof {
                assert(lop == a.ops@[i as int]);
                assert forall|k: int| 0 <= k < i implies #[trigger] op_lowered(
                    a,
                    k,
                    obj.ops@,
                    obj.literals@,
                    obj.register_kind@,
                ) by {
                    lemma_shifts_monotone(a.ops@, k + 1, i as int);
                    lemma_lowered_extend(a, k, ops0, lits0, regs0, obj.ops@, obj.literals@, obj.register_kind@);
                }
                assert(op_lowered(a, i as int, obj.ops@, obj.literals@, obj.register_kind@));
            }
            i += 1;
        }
        proof {
            assert(obj.register_kind@.take(a.register_kind@.len() as int) =~= a.register_kind@);
            assert(obj.literals@.take(a.literals@.len() as int) =~= a.literals@);
        }
        Ok(obj)
    }
}

} // verus!
