use vstd::prelude::*;

use crate::error::RHDLError;
use crate::rhif::object::Object;
use crate::rhif::spec::{RegisterId, Slot};
use crate::rhif::usage::{slot_used, used_slots};

verus! {

/// Drops the registers that neither the opcodes, the arguments nor the result
/// use.
#[derive(Debug)]
pub struct RemoveUnusedRegistersPass {}

/// `out` is `obj` with the kind of each register that nothing uses removed.
pub open spec fn unused_registers_removed(obj: Object, out: Object) -> bool {
    &&& out.kind@.len() == obj.kind@.len()
    &&& forall|k: int|
        0 <= k < obj.kind@.len() ==> #[trigger] out.kind@[k] == if slot_used(
            obj,
            Slot::Register(RegisterId(k as usize)),
        ) {
            obj.kind@[k]
        } else {
            None
        }
    &&& out.literals == obj.literals
    &&& out.register_names == obj.register_names
    &&& out.ops == obj.ops
    &&& out.arguments == obj.arguments
    &&& out.return_slot == obj.return_slot
    &&& out.externals == obj.externals
    &&& out.name == obj.name
    &&& out.fn_id == obj.fn_id
}

impl RemoveUnusedRegistersPass {
    pub fn name() -> (r: &'static str)
        ensures
            r@ == "remove_unused_registers"@,
    {
        "remove_unused_registers"
    }

    pub fn run(input: Object) -> (r: Result<Object, RHDLError>)
        ensures
            r matches Ok(out) && unused_registers_removed(input, out),
    {
        let (_, used) = used_slots(&input);
        let ghost init = input;
        let mut input = input;
        let mut k: usize = 0;
        while k < input.kind.len()
            invariant
                k <= input.kind.len(),
                used@.len() == init.kind@.len(),
                input.kind@.len() == init.kind@.len(),
                forall|m: int|
                    0 <= m < used@.len() ==> #[trigger] used@[m] == slot_used(
                        init,
                        Slot::Register(RegisterId(m as usize)),
                    ),
                forall|m: int|
                    0 <= m < k ==> #[trigger] input.kind@[m] == if slot_used(
                        init,
                        Slot::Register(RegisterId(m as usize)),
                    ) {
                        init.kind@[m]
                    } else {
                        None
                    },
                forall|m: int| k <= m < input.kind@.len() ==> #[trigger] input.kind@[m] == init.kind@[m],
                input.literals == init.literals,
                input.register_names == init.register_names,
                input.ops == init.ops,
                input.arguments == init.arguments,
                input.return_slot == init.return_slot,
                input.externals == init.externals,
                input.name == init.name,
                input.fn_id == init.fn_id,
            decreases input.kind.len() - k,
        {
            if !used[k] {
                input.kind.set(k, None);
            }
            k += 1;
        }
        Ok(input)
    }
}

} // verus!
