use vstd::prelude::*;

use crate::error::{RHDLError, ICE};
use crate::rhif::object::{ops_mapped, same_except_ops, Object};
use crate::rhif::spec::{LocatedOpCode, OpCode, Retime};
use crate::types::kind::KindView;

verus! {

/// Gives every retime without a clock domain the domain of its destination.
#[derive(Debug)]
pub struct LowerInferredRetimesPass {}

/// A retime whose domain is to be inferred, and whose target is not a signal.
pub open spec fn uninferable_retime(obj: Object, op: OpCode) -> bool {
    op matches OpCode::Retime(x) && x.color is None && !(obj.slot_kind(x.lhs)->Some_0 is Signal)
}

pub open spec fn retime_inferred(obj: Object, a: OpCode, b: OpCode) -> bool {
    match a {
        OpCode::Retime(x) => if x.color is None {
            b == OpCode::Retime(
                Retime { lhs: x.lhs, arg: x.arg, color: Some(obj.slot_kind(x.lhs)->Some_0->Signal_1) },
            )
        } else {
            b == a
        },
        _ => b == a,
    }
}

/// Every retime that needs its domain inferred has a target of known kind.
pub open spec fn inferred_retimes_typed(obj: Object) -> bool {
    forall|i: int|
        0 <= i < obj.ops@.len() ==> match #[trigger] obj.ops@[i].op {
            OpCode::Retime(x) => x.color is None ==> obj.slot_kind(x.lhs) is Some,
            _ => true,
        }
}

impl LowerInferredRetimesPass {
    pub fn name() -> (r: &'static str)
        ensures
            r@ == "lower_inferred_retimes"@,
    {
        "lower_inferred_retimes"
    }

    #[verifier::loop_isolation(false)]
    pub fn run(input: Object) -> (r: Result<Object, RHDLError>)
        requires
            inferred_retimes_typed(input),
        ensures
            r is Err <==> exists|i: int|
                0 <= i < input.ops@.len() && uninferable_retime(input, #[trigger] input.ops@[i].op),
            r matches Ok(out) ==> same_except_ops(input, out) && ops_mapped(
                input.ops@,
                out.ops@,
                |a: OpCode, b: OpCode| retime_inferred(input, a, b),
            ),
            r matches Err(e) ==> e matches RHDLError::Compile {
                cause: ICE::UnableToInferClockDomainForRetime,
                ..
            },
    {
        let ghost init = input;
        let mut input = input;
        let ghost orig = input.ops@;
        let mut i: usize = 0;
        while i < input.ops.len()
            invariant
                i <= input.ops.len(),
                input.ops@.len() == orig.len(),
                orig == init.ops@,
                inferred_retimes_typed(init),
                same_except_ops(init, input),
                forall|j: int| 0 <= j < i ==> !uninferable_retime(init, #[trigger] orig[j].op),
                forall|j: int|
                    0 <= j < i ==> input.ops@[j].id == orig[j].id && retime_inferred(
                        init,
                        orig[j].op,
                        #[trigger] input.ops@[j].op,
                    ),
                forall|j: int| i <= j < orig.len() ==> #[trigger] input.ops@[j] == orig[j],
            decreases orig.len() - i,
        {
            proof {
                assert(input.ops@[i as int] == init.ops@[i as int]);
            }
            let id = input.ops[i].id;
            let replacement = match &input.ops[i].op {
                OpCode::Retime(x) => {
                    if x.color.is_none() {
                        match input.kind(x.lhs).signal_clock() {
                            Some(c) => Some(OpCode::Retime(Retime { lhs: x.lhs, arg: x.arg, color: Some(c) })),
                            None => {
                                assert(uninferable_retime(init, init.ops@[i as int].op));
                                return Err(
                                    RHDLError::Compile {
                                        cause: ICE::UnableToInferClockDomainForRetime,
                                        id,
                                    },
                                );
                            },
                        }
                    } else {
                        None
                    }
                },
                _ => None,
            };
            if let Some(op) = replacement {
                input.ops.set(i, LocatedOpCode { op, id });
            }
            assert(retime_inferred(init, orig[i as int].op, input.ops@[i as int].op));
            i += 1;
        }
        assert(forall|j: int| 0 <= j < init.ops@.len() ==> !uninferable_retime(init, #[trigger] init.ops@[j].op));
        Ok(input)
    }
}

} // verus!
