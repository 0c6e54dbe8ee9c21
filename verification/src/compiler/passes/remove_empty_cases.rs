use vstd::prelude::*;

use crate::error::RHDLError;
use crate::rhif::object::{ops_mapped, same_except_ops, Object};
use crate::rhif::spec::{LocatedOpCode, OpCode};
use crate::types::kind::kv_is_empty;

verus! {

/// Removes case and select opcodes whose target carries no bits.
#[derive(Debug)]
pub struct RemoveEmptyCasesPass {}

pub open spec fn empty_case_removed(obj: Object, a: OpCode, b: OpCode) -> bool {
    match a {
        OpCode::Case(x) => if kv_is_empty(obj.slot_kind(x.lhs)->Some_0) {
            b == OpCode::Noop
        } else {
            b == a
        },
        OpCode::Select(x) => if kv_is_empty(obj.slot_kind(x.lhs)->Some_0) {
            b == OpCode::Noop
        } else {
            b == a
        },
        _ => b == a,
    }
}

/// The targets of all case and select opcodes have known kinds.
pub open spec fn case_targets_typed(obj: Object) -> bool {
    forall|i: int|
        0 <= i < obj.ops@.len() ==> match #[trigger] obj.ops@[i].op {
            OpCode::Case(x) => obj.slot_ok(x.lhs),
            OpCode::Select(x) => obj.slot_ok(x.lhs),
            _ => true,
        }
}

impl RemoveEmptyCasesPass {
    pub fn name() -> (r: &'static str)
        ensures
            r@ == "remove_empty_cases"@,
    {
        "remove_empty_cases"
    }

    pub fn run(input: Object) -> (r: Result<Object, RHDLError>)
        requires
            case_targets_typed(input),
        ensures
            r matches Ok(out) && same_except_ops(input, out) && ops_mapped(
                input.ops@,
                out.ops@,
                |a: OpCode, b: OpCode| empty_case_removed(input, a, b),
            ),
    {
        let ghost init = input;
        let mut input = input;
        let ghost orig = input.ops@;
        let mut i: usize = 0;
        while i < input.ops.len()
            invariant
                i <= input.ops.len(),
                input.ops@.len() == orig.len(),
                orig == init.ops@,
                case_targets_typed(init),
                same_except_ops(init, input),
                forall|j: int|
                    0 <= j < i ==> input.ops@[j].id == orig[j].id && empty_case_removed(
                        init,
                        orig[j].op,
                        #[trigger] input.ops@[j].op,
                    ),
                forall|j: int| i <= j < orig.len() ==> #[trigger] input.ops@[j] == orig[j],
            decreases orig.len() - i,
        {
            proof {
                assert(input.ops@[i as int] == init.ops@[i as int]);
            }
            let remove = match &input.ops[i].op {
                OpCode::Case(x) => input.kind(x.lhs).is_empty(),
                OpCode::Select(x) => input.kind(x.lhs).is_empty(),
                _ => false,
            };
            if remove {
                let id = input.ops[i].id;
                input.ops.set(i, LocatedOpCode { op: OpCode::Noop, id });
            }
            assert(empty_case_removed(init, orig[i as int].op, input.ops@[i as int].op));
            i += 1;
        }
        Ok(input)
    }
}

} // verus!
