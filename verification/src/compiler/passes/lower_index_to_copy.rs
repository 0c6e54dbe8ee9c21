use vstd::prelude::*;

use crate::error::RHDLError;
use crate::rhif::object::{ops_mapped, same_except_ops, Object};
use crate::rhif::spec::{Assign, LocatedOpCode, OpCode};

verus! {

/// Turns indexing by the empty path into a plain copy.
pub struct LowerIndexToCopy {}

/// `b` is `a`, except that an index by the empty path becomes a copy.
pub open spec fn index_lowered(a: OpCode, b: OpCode) -> bool {
    match a {
        OpCode::Index(x) => if x.path@.len() == 0 {
            b == OpCode::Assign(Assign { lhs: x.lhs, rhs: x.arg })
        } else {
            b == a
        },
        _ => b == a,
    }
}

impl LowerIndexToCopy {
    pub fn name() -> (r: &'static str)
        ensures
            r@ == "lower_index_to_copy"@,
    {
        "lower_index_to_copy"
    }

    pub fn run(input: Object) -> (r: Result<Object, RHDLError>)
        ensures
            r matches Ok(out) && same_except_ops(input, out) && ops_mapped(
                input.ops@,
                out.ops@,
                |a: OpCode, b: OpCode| index_lowered(a, b),
            ),
    {
        let ghost init = input;
        let mut input = input;
        let ghost orig = input.ops@;
        let mut i: usize = 0;
        while i < input.ops.len()
            invariant
                i <= input.ops.len(),
                input.ops@.len() == orig.len(),
                same_except_ops(init, input),
                forall|j: int| 0 <= j < i ==> input.ops@[j].id == orig[j].id && index_lowered(orig[j].op, #[trigger] input.ops@[j].op),
                forall|j: int| i <= j < orig.len() ==> #[trigger] input.ops@[j] == orig[j],
            decreases orig.len() - i,
        {
            let replacement = match &input.ops[i].op {
                OpCode::Index(x) => {
                    if x.path.is_empty() {
                        Some(OpCode::Assign(Assign { lhs: x.lhs, rhs: x.arg }))
                    } else {
                        None
                    }
                },
                _ => None,
            };
            if let Some(op) = replacement {
                let id = input.ops[i].id;
                input.ops.set(i, LocatedOpCode { op, id });
            }
            assert(index_lowered(orig[i as int].op, input.ops@[i as int].op));
            i += 1;
        }
        Ok(input)
    }
}

} // verus!
