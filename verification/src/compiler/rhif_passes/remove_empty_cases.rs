use vstd::prelude::*;

use crate::error::RHDLError;
use crate::rhif::object::{ops_mapped, same_except_ops, Object};
use crate::rhif::spec::{LocatedOpCode, OpCode};

verus! {

/// Removes case and select opcodes whose result goes to the empty slot.
#[derive(Debug)]
pub struct RemoveEmptyCasesPass {}

pub open spec fn unused_case_removed(a: OpCode, b: OpCode) -> bool {
    match a {
        OpCode::Case(x) => if x.lhs is Empty {
            b == OpCode::Noop
        } else {
            b == a
        },
        OpCode::Select(x) => if x.lhs is Empty {
            b == OpCode::Noop
        } else {
            b == a
        },
        _ => b == a,
    }
}

impl RemoveEmptyCasesPass {
    /// Replaces each case or select that writes the empty slot by a no-op;
    /// every other opcode, and the rest of the object, is kept.
    pub fn run(input: Object) -> (r: Result<Object, RHDLError>)
        ensures
            r matches Ok(out) && same_except_ops(input, out) && ops_mapped(
                input.ops@,
                out.ops@,
                |a: OpCode, b: OpCode| unused_case_removed(a, b),
            ),
    {
        let ghost init = input;
        let mut input = input;
        let ghost orig = input.ops@;
        let mut i: usize = 0;
        while i < input.ops.len()
            invariant
                i <= input.ops.len(),
                input.ops@.len() == orig.len(),
                orig == init.ops@,
                same_except_ops(init, input),
                forall|j: int|
                    0 <= j < i ==> input.ops@[j].id == orig[j].id && unused_case_removed(
                        orig[j].op,
                        #[trigger] input.ops@[j].op,
                    ),
                forall|j: int| i <= j < orig.len() ==> #[trigger] input.ops@[j] == orig[j],
            decreases orig.len() - i,
        {
            proof {
                assert(input.ops@[i as int] == init.ops@[i as int]);
            }
            let remove = match &input.ops[i].op {
                OpCode::Case(case) => case.lhs.is_empty(),
                OpCode::Select(select) => select.lhs.is_empty(),
                _ => false,
            };
            if remove {
                let id = input.ops[i].id;
                input.ops.set(i, LocatedOpCode { op: OpCode::Noop, id });
            }
            assert(unused_case_removed(orig[i as int].op, input.ops@[i as int].op));
            i += 1;
        }
        Ok(input)
    }
}

} // verus!
