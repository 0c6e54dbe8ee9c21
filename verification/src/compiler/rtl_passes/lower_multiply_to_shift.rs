use vstd::prelude::*;

use crate::rhif::spec::AluBinary;
use crate::rtl::object::{op_operands, LocatedOpCode, Object, RegisterKind};
use crate::rtl::spec::{Binary, Cast, CastKind, LiteralId, OpCode, Operand, RegisterId};
use crate::types::bit_string::{bits_from_usize, bits_of_nat, count_ones, resize_bits, trailing_zeros_of, BitString, BitStringView};
use crate::util::{clog2, is_clog2, reversed};

use super::{allocate_literal, allocate_register};

verus! {

/// Replaces each multiplication by a literal power of two with a cast of the
/// other factor to the width of the result followed by a left shift.
#[derive(Debug)]
pub struct LowerMultiplyToShift {}

/// The opcode at `i` multiplies by a literal with exactly one bit set.
pub open spec fn pow2_mul(obj: Object, i: int) -> bool {
    match obj.ops@[i].op {
        OpCode::Binary(b) => {
            &&& b.op == AluBinary::Mul
            &&& b.arg2 is Literal
            &&& count_ones(obj.literals@[b.arg2->Literal_0.0 as int]@.bits) == 1
        },
        _ => false,
    }
}

/// Number of multiplications by a power of two among the first `i` opcodes.
pub open spec fn muls_before(obj: Object, i: int) -> nat
    decreases i,
{
    if i <= 0 {
        0
    } else {
        muls_before(obj, i - 1) + if pow2_mul(obj, i - 1) {
            1nat
        } else {
            0nat
        }
    }
}

/// The shift amount literal that replaces a factor `2^tz`: `tz` taken as a
/// byte and resized (unsigned) to `len` bits.
pub open spec fn shift_literal(tz: nat, len: nat) -> BitStringView {
    BitStringView { signed: false, bits: resize_bits(bits_of_nat(tz % 256, 8), false, len) }
}

/// The opcodes, literal and register that opcode `k` of `a` becomes, found in
/// the tables `ops`, `lits` and `regs` of the result.
pub open spec fn mul_lowered(
    a: Object,
    k: int,
    ops: Seq<LocatedOpCode>,
    lits: Seq<BitString>,
    regs: Seq<Option<RegisterKind>>,
) -> bool {
    let lop = a.ops@[k];
    let p = k + muls_before(a, k);
    let r = (a.register_kind@.len() + muls_before(a, k)) as int;
    let l = (a.literals@.len() + muls_before(a, k)) as int;
    if pow2_mul(a, k) {
        let b = lop.op->Binary_0;
        let tz = trailing_zeros_of(a.literals@[b.arg2->Literal_0.0 as int]@.bits);
        let lhs_kind = a.operand_kind(b.lhs);
        let reg = Operand::Register(RegisterId(r as usize));
        let cast_kind = if a.operand_kind(b.arg1) is Signed {
            CastKind::Signed
        } else {
            CastKind::Unsigned
        };
        &&& is_clog2(tz, lits[l]@.bits.len())
        &&& lits[l]@ == shift_literal(tz, lits[l]@.bits.len())
        &&& regs[r] == Some(lhs_kind)
        &&& ops[p] == (LocatedOpCode {
            op: OpCode::Cast(Cast { lhs: reg, arg: b.arg1, len: lhs_kind.spec_len() as usize, kind: cast_kind }),
            id: lop.id,
            func: lop.func,
        })
        &&& ops[p + 1] == (LocatedOpCode {
            op: OpCode::Binary(
                Binary { lhs: b.lhs, op: AluBinary::Shl, arg1: reg, arg2: Operand::Literal(LiteralId(l as usize)) },
            ),
            id: lop.id,
            func: lop.func,
        })
    } else {
        ops[p] == lop
    }
}

/// `b` is `a` with every multiplication by a power of two lowered, in order:
/// one literal and one register are appended for each.
pub open spec fn muls_lowered(a: Object, b: Object) -> bool {
    let n = a.ops@.len() as int;
    &&& b.ops@.len() == n + muls_before(a, n)
    &&& b.register_kind@.len() == a.register_kind@.len() + muls_before(a, n)
    &&& b.literals@.len() == a.literals@.len() + muls_before(a, n)
    &&& b.register_kind@.take(a.register_kind@.len() as int) == a.register_kind@
    &&& b.literals@.take(a.literals@.len() as int) == a.literals@
    &&& forall|k: int| 0 <= k < n ==> #[trigger] mul_lowered(a, k, b.ops@, b.literals@, b.register_kind@)
    &&& b.arguments == a.arguments
    &&& b.return_register == a.return_register
    &&& b.symbols == a.symbols
    &&& b.name == a.name
    &&& b.fn_id == a.fn_id
}

proof fn lemma_muls_monotone(a: Object, i: int, j: int)
    requires
        0 <= i <= j,
    ensures
        muls_before(a, i) <= muls_before(a, j),
    decreases j - i,
{
    if i < j {
        lemma_muls_monotone(a, i, j - 1);
    }
}

proof fn lemma_mul_lowered_extend(
    a: Object,
    k: int,
    ops1: Seq<LocatedOpCode>,
    lits1: Seq<BitString>,
    regs1: Seq<Option<RegisterKind>>,
    ops2: Seq<LocatedOpCode>,
    lits2: Seq<BitString>,
    regs2: Seq<Option<RegisterKind>>,
)
    requires
        0 <= k,
        mul_lowered(a, k, ops1, lits1, regs1),
        k + 1 + muls_before(a, k + 1) <= ops1.len() <= ops2.len(),
        a.register_kind@.len() + muls_before(a, k + 1) <= regs1.len() <= regs2.len(),
        a.literals@.len() + muls_before(a, k + 1) <= lits1.len() <= lits2.len(),
        forall|j: int| 0 <= j < ops1.len() ==> ops2[j] == ops1[j],
        forall|j: int| 0 <= j < lits1.len() ==> lits2[j] == lits1[j],
        forall|j: int| 0 <= j < regs1.len() ==> regs2[j] == regs1[j],
    ensures
        mul_lowered(a, k, ops2, lits2, regs2),
{
    let p = k + muls_before(a, k);
    let r = (a.register_kind@.len() + muls_before(a, k)) as int;
    let l = (a.literals@.len() + muls_before(a, k)) as int;
    assert(ops2[p] == ops1[p]);
    if pow2_mul(a, k) {
        assert(ops2[p + 1] == ops1[p + 1]);
        assert(regs2[r] == regs1[r]);
        assert(lits2[l] == lits1[l]);
    }
}

impl LowerMultiplyToShift {
    /// Lowers multiplications by literal powers of two, in the order of the
    /// opcodes; every other opcode is kept as it is.
    pub fn run(input: Object) -> (r: Result<Object, crate::error::RHDLError>)
        requires
            input.wf(),
        ensures
            r matches Ok(out) && muls_lowered(input, out),
    {
        let ghost a = input;
        let mut obj = input;
        let mut taken: Vec<LocatedOpCode> = Vec::new();
        std::mem::swap(&mut taken, &mut obj.ops);
        let mut rev = reversed(taken);
        let n = rev.len();
        let mut i: usize = 0;
        while rev.len() > 0
            invariant
                a == input,
                n == a.ops@.len(),
                i + rev@.len() == n,
                forall|j: int| 0 <= j < rev@.len() ==> #[trigger] rev@[j] == a.ops@[n - 1 - j],
                a.wf(),
                obj.ops@.len() == i + muls_before(a, i as int),
                obj.register_kind@.len() == a.register_kind@.len() + muls_before(a, i as int),
                obj.literals@.len() == a.literals@.len() + muls_before(a, i as int),
                forall|j: int| 0 <= j < a.register_kind@.len() ==> obj.register_kind@[j] == a.register_kind@[j],
                forall|j: int| 0 <= j < a.literals@.len() ==> obj.literals@[j] == a.literals@[j],
                forall|k: int| 0 <= k < i ==> #[trigger] mul_lowered(a, k, obj.ops@, obj.literals@, obj.register_kind@),
                obj.arguments == a.arguments,
                obj.return_register == a.return_register,
                obj.symbols == a.symbols,
                obj.name == a.name,
                obj.fn_id == a.fn_id,
            decreases rev@.len(),
        {
            let lop = rev.pop().unwrap();
            let ghost ops0 = obj.ops@;
            let ghost lits0 = obj.literals@;
            let ghost regs0 = obj.register_kind@;
            proof {
                assert(lop == a.ops@[i as int]);
                assert(op_operands(a.ops@[i as int].op) == op_operands(lop.op));
            }
            let LocatedOpCode { op, id, func } = lop;
            let mul: Option<(Binary, LiteralId)> = match &op {
                OpCode::Binary(b) => {
                    if b.op == AluBinary::Mul {
                        match b.arg2 {
                            Operand::Literal(lit) => {
                                proof {
                                    assert(a.has_operand(op_operands(a.ops@[i as int].op)[2]));
                                    assert(obj.literals@[lit.0 as int] == a.literals@[lit.0 as int]);
                                }
                                if obj.literals[lit.0].num_ones() == 1 {
                                    Some((*b, lit))
                                } else {
                                    None
                                }
                            },
                            _ => None,
                        }
                    } else {
                        None
                    }
                },
                _ => None,
            };
            match mul {
                Some((binary, lit)) => {
                    proof {
                        assert(a.has_operand(op_operands(a.ops@[i as int].op)[0]));
                        assert(a.has_operand(op_operands(a.ops@[i as int].op)[1]));
                        assert forall|o: Operand| a.has_operand(o) implies obj.has_operand(o)
                            && obj.operand_kind(o) == a.operand_kind(o) by {
                            match o {
                                Operand::Register(rg) => {
                                    assert(obj.register_kind@[rg.0 as int] == a.register_kind@[rg.0 as int]);
                                },
                                Operand::Literal(lt) => {
                                    assert(obj.literals@[lt.0 as int] == a.literals@[lt.0 as int]);
                                },
                            }
                        }
                    }
                    let trailing_zeros = obj.literals[lit.0].trailing_zeros();
                    let literal_bits = clog2(trailing_zeros);
                    let literal_bs = BitString::from_bits(false, bits_from_usize(trailing_zeros % 256, 8)).unsigned_cast(
                        literal_bits,
                    );
                    let shift = allocate_literal(&mut obj.literals, literal_bs);
                    let lhs_kind = obj.kind(binary.lhs);
                    let rhs_signed = obj.kind(binary.arg1).is_signed();
                    let r_extend = allocate_register(&mut obj.register_kind, lhs_kind);
                    obj.ops.push(
                        LocatedOpCode {
                            op: OpCode::Cast(
                                Cast {
                                    lhs: Operand::Register(r_extend),
                                    arg: binary.arg1,
                                    len: lhs_kind.len(),
                                    kind: if rhs_signed {
                                        CastKind::Signed
                                    } else {
                                        CastKind::Unsigned
                                    },
                                },
                            ),
                            id,
                            func,
                        },
                    );
                    obj.ops.push(
                        LocatedOpCode {
                            op: OpCode::Binary(
                                Binary {
                                    lhs: binary.lhs,
                                    op: AluBinary::Shl,
                                    arg1: Operand::Register(r_extend),
                                    arg2: Operand::Literal(shift),
                                },
                            ),
                            id,
                            func,
                        },
                    );
                },
                None => {
                    obj.ops.push(LocatedOpCode { op, id, func });
                },
            }
            proof {
                assert forall|k: int| 0 <= k < i implies #[trigger] mul_lowered(
                    a,
                    k,
                    obj.ops@,
                    obj.literals@,
                    obj.register_kind@,
                ) by {
                    lemma_muls_monotone(a, k + 1, i as int);
                    lemma_mul_lowered_extend(a, k, ops0, lits0, regs0, obj.ops@, obj.literals@, obj.register_kind@);
                }
                assert(mul_lowered(a, i as int, obj.ops@, obj.literals@, obj.register_kind@));
            }
            i += 1;
        }
        proof {
            assert(obj.register_kind@.take(a.register_kind@.len() as int) =~= a.register_kind@);
            assert(obj.literals@.take(a.literals@.len() as int) =~= a.literals@);
        }
        Ok(obj)
    }
}

} // verus!
