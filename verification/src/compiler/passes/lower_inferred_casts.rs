use vstd::prelude::*;

use crate::error::RHDLError;
use crate::rhif::object::{ops_mapped, same_except_ops, Object};
use crate::rhif::spec::{Cast, LocatedOpCode, OpCode};
use crate::types::kind::kv_bits;

verus! {

/// Gives every bit cast without a width the width of its destination.
#[derive(Debug)]
pub struct LowerInferredCastsPass {}

/// The width of a cast whose width is still to be inferred: that of its target.
pub open spec fn cast_inferred(obj: Object, a: OpCode, b: OpCode) -> bool {
    match a {
        OpCode::AsBits(c) => if c.len is None {
            b == OpCode::AsBits(
                Cast { lhs: c.lhs, arg: c.arg, len: Some(kv_bits(obj.slot_kind(c.lhs)->Some_0) as usize) },
            )
        } else {
            b == a
        },
        OpCode::AsSigned(c) => if c.len is None {
            b == OpCode::AsSigned(
                Cast { lhs: c.lhs, arg: c.arg, len: Some(kv_bits(obj.slot_kind(c.lhs)->Some_0) as usize) },
            )
        } else {
            b == a
        },
        _ => b == a,
    }
}

/// Every cast that needs its width inferred has a target of known kind.
pub open spec fn inferred_casts_typed(obj: Object) -> bool {
    forall|i: int|
        0 <= i < obj.ops@.len() ==> match #[trigger] obj.ops@[i].op {
            OpCode::AsBits(c) => c.len is None ==> obj.slot_ok(c.lhs),
            OpCode::AsSigned(c) => c.len is None ==> obj.slot_ok(c.lhs),
            _ => true,
        }
}

impl LowerInferredCastsPass {
    pub fn name() -> (r: &'static str)
        ensures
            r@ == "lower_inferred_casts"@,
    {
        "lower_inferred_casts"
    }

    pub fn run(input: Object) -> (r: Result<Object, RHDLError>)
        requires
            inferred_casts_typed(input),
        ensures
            r matches Ok(out) && same_except_ops(input, out) && ops_mapped(
                input.ops@,
                out.ops@,
                |a: OpCode, b: OpCode| cast_inferred(input, a, b),
            ),
    {
        let ghost init = input;
        let mut input = input;
        let ghost orig = input.ops@;
        let mut i: usize = 0;
        while i < input.ops.len()
            invariant
                i <= input.ops.len(),
                input.ops@.len() == orig.len(),
                orig == init.ops@,
                inferred_casts_typed(init),
                same_except_ops(init, input),
                forall|j: int|
                    0 <= j < i ==> input.ops@[j].id == orig[j].id && cast_inferred(
                        init,
                        orig[j].op,
                        #[trigger] input.ops@[j].op,
                    ),
                forall|j: int| i <= j < orig.len() ==> #[trigger] input.ops@[j] == orig[j],
            decreases orig.len() - i,
        {
            proof {
                assert(input.ops@[i as int] == init.ops@[i as int]);
            }
            let replacement = match &input.ops[i].op {
                OpCode::AsBits(c) => {
                    if c.len.is_none() {
                        let w = input.kind(c.lhs).bits();
                        Some(OpCode::AsBits(Cast { lhs: c.lhs, arg: c.arg, len: Some(w) }))
                    } else {
                        None
                    }
                },
                OpCode::AsSigned(c) => {
                    if c.len.is_none() {
                        let w = input.kind(c.lhs).bits();
                        Some(OpCode::AsSigned(Cast { lhs: c.lhs, arg: c.arg, len: Some(w) }))
                    } else {
                        None
                    }
                },
                _ => None,
            };
            if let Some(op) = replacement {
                let id = input.ops[i].id;
                input.ops.set(i, LocatedOpCode { op, id });
            }
            assert(cast_inferred(init, orig[i as int].op, input.ops@[i as int].op));
            i += 1;
        }
        Ok(input)
    }
}

} // verus!
