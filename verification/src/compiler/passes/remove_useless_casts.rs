use vstd::prelude::*;

use crate::error::RHDLError;
use crate::rhif::object::{ops_mapped, same_except_ops, Object};
use crate::rhif::spec::{Assign, LocatedOpCode, OpCode, Slot};
use crate::types::kind::{kv_bits, kv_is_signed, kv_is_unsigned, kv_signal_data, KindView};

verus! {

/// Replaces a cast of a literal that already has the requested width and
/// signedness by a copy.
#[derive(Debug)]
pub struct RemoveUselessCastsPass {}

/// The cast of `arg` to width `len` changes nothing: `arg` is a literal of that
/// width with the given signedness.
pub open spec fn useless_cast(obj: Object, arg: Slot, len: Option<usize>, signed: bool) -> bool {
    &&& arg matches Slot::Literal(l)
    &&& obj.has_literal(l)
    &&& len matches Some(n)
    &&& obj.literal(l).bits@.len() == n
    &&& if signed {
        kv_is_signed(obj.literal(l).kind@)
    } else {
        kv_is_unsigned(obj.literal(l).kind@)
    }
}

pub open spec fn useless_cast_removed(obj: Object, a: OpCode, b: OpCode) -> bool {
    match a {
        OpCode::AsBits(c) => if useless_cast(obj, c.arg, c.len, false) {
            b == OpCode::Assign(Assign { lhs: c.lhs, rhs: c.arg })
        } else {
            b == a
        },
        OpCode::AsSigned(c) => if useless_cast(obj, c.arg, c.len, true) {
            b == OpCode::Assign(Assign { lhs: c.lhs, rhs: c.arg })
        } else {
            b == a
        },
        _ => b == a,
    }
}

/// A cast is turned into a copy exactly when it is a cast of a present literal
/// to a width given, the literal has that many bits, and it already is of the
/// kind asked for: unsigned (looking through a signal) for `AsBits`, signed for
/// `AsSigned`; a well-formed literal then has exactly the kind `Bits(n)`
/// (resp. `Signed(n)`). Every other opcode is kept as it is.
pub proof fn law_cast_becomes_copy_only_of_a_literal_of_the_target_kind(input: Object, out: Object, i: int)
    requires
        ops_mapped(input.ops@, out.ops@, |a: OpCode, b: OpCode| useless_cast_removed(input, a, b)),
        0 <= i < input.ops@.len(),
    ensures
        match input.ops@[i].op {
            OpCode::AsBits(c) => cast_outcome(input, c.lhs, c.arg, c.len, false, out.ops@[i].op),
            OpCode::AsSigned(c) => cast_outcome(input, c.lhs, c.arg, c.len, true, out.ops@[i].op),
            a => out.ops@[i].op == a,
        },
{
    let a = input.ops@[i].op;
    let f = |a: OpCode, b: OpCode| useless_cast_removed(input, a, b);
    assert(out.ops@[i].id == input.ops@[i].id && f(input.ops@[i].op, out.ops@[i].op));
    assert(useless_cast_removed(input, a, out.ops@[i].op));
    match a {
        OpCode::AsBits(c) => lemma_kind_width(input, c.arg),
        OpCode::AsSigned(c) => lemma_kind_width(input, c.arg),
        _ => {},
    }
}

/// What becomes of a cast of `arg` to width `len` (signed or not): a copy
/// from `arg` into `lhs` when `arg` is a present literal of `len` bits whose
/// kind, looking through a signal, is already unsigned (resp. signed), and
/// then, for a literal whose bit count is the width of its kind, that kind
/// is exactly `Bits(len)` (resp. `Signed(len)`); otherwise the cast itself.
pub open spec fn cast_outcome(input: Object, lhs: Slot, arg: Slot, len: Option<usize>, signed: bool, b: OpCode) -> bool {
    let l = arg->Literal_0;
    let k = input.literal(l).kind@;
    let n = len->Some_0;
    let copies = arg is Literal && input.has_literal(l) && len is Some && input.literal(l).bits@.len() == n && if signed {
        kv_signal_data(k) is Signed
    } else {
        kv_signal_data(k) is Bits
    };
    &&& copies ==> b == OpCode::Assign(Assign { lhs, rhs: arg })
    &&& !copies ==> b is AsBits || b is AsSigned
    &&& !copies ==> (if signed { b is AsSigned } else { b is AsBits })
    &&& copies && kv_bits(k) == input.literal(l).bits@.len() ==> kv_signal_data(k) == (if signed {
        KindView::Signed(n as nat)
    } else {
        KindView::Bits(n as nat)
    })
}

proof fn lemma_kind_width(input: Object, arg: Slot)
    ensures
        arg is Literal ==> kv_bits(kv_signal_data(input.literal(arg->Literal_0).kind@)) == kv_bits(
            input.literal(arg->Literal_0).kind@,
        ),
{
    if arg is Literal {
        if let KindView::Signal(b, _) = input.literal(arg->Literal_0).kind@ {
            assert(kv_bits(input.literal(arg->Literal_0).kind@) == kv_bits(*b));
        }
    }
}

/// Is the cast of `arg` to `len` useless?
fn is_useless(obj: &Object, arg: Slot, len: Option<usize>, signed: bool) -> (r: bool)
    ensures
        r == useless_cast(*obj, arg, len, signed),
{
    match arg {
        Slot::Literal(l) => {
            if l.0 < obj.literals.len() {
                match &obj.literals[l.0] {
                    Some(v) => match len {
                        Some(n) => {
                            v.bits.len() == n && if signed {
                                v.kind.is_signed()
                            } else {
                                v.kind.is_unsigned()
                            }
                        },
                        None => false,
                    },
                    None => false,
                }
            } else {
                false
            }
        },
        _ => false,
    }
}

impl RemoveUselessCastsPass {
    pub fn name() -> (r: &'static str)
        ensures
            r@ == "remove_useless_casts"@,
    {
        "remove_useless_casts"
    }

    pub fn run(input: Object) -> (r: Result<Object, RHDLError>)
        ensures
            r matches Ok(out) && same_except_ops(input, out) && ops_mapped(
                input.ops@,
                out.ops@,
                |a: OpCode, b: OpCode| useless_cast_removed(input, a, b),
            ),
    {
        let ghost init = input;
        let mut input = input;
        let ghost orig = input.ops@;
        let mut i: usize = 0;
        while i < input.ops.len()
            invariant
                i <= input.ops.len(),
                input.ops@.len() == orig.len(),
                orig == init.ops@,
                same_except_ops(init, input),
                forall|j: int|
                    0 <= j < i ==> input.ops@[j].id == orig[j].id && useless_cast_removed(
                        init,
                        orig[j].op,
                        #[trigger] input.ops@[j].op,
                    ),
                forall|j: int| i <= j < orig.len() ==> #[trigger] input.ops@[j] == orig[j],
            decreases orig.len() - i,
        {
            proof {
                assert(input.ops@[i as int] == init.ops@[i as int]);
            }
            let replacement = match &input.ops[i].op {
                OpCode::AsBits(c) => {
                    if is_useless(&input, c.arg, c.len, false) {
                        Some(OpCode::Assign(Assign { lhs: c.lhs, rhs: c.arg }))
                    } else {
                        None
                    }
                },
                OpCode::AsSigned(c) => {
                    if is_useless(&input, c.arg, c.len, true) {
                        Some(OpCode::Assign(Assign { lhs: c.lhs, rhs: c.arg }))
                    } else {
                        None
                    }
                },
                _ => None,
            };
            if let Some(op) = replacement {
                let id = input.ops[i].id;
                input.ops.set(i, LocatedOpCode { op, id });
            }
            assert(useless_cast_removed(init, orig[i as int].op, input.ops@[i as int].op));
            i += 1;
        }
        Ok(input)
    }
}

} // verus!
