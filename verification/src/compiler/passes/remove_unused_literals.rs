use vstd::prelude::*;

use crate::error::RHDLError;
use crate::rhif::object::Object;
use crate::rhif::spec::{LiteralId, Slot};
use crate::rhif::usage::{slot_used, used_slots};

verus! {

/// Drops the literals that neither the opcodes, the arguments nor the result
/// use.
#[derive(Debug)]
pub struct RemoveUnusedLiterals {}

/// `out` is `obj` with each literal that nothing uses removed from the table.
pub open spec fn unused_literals_removed(obj: Object, out: Object) -> bool {
    &&& out.literals@.len() == obj.literals@.len()
    &&& forall|k: int|
        0 <= k < obj.literals@.len() ==> #[trigger] out.literals@[k] == if slot_used(
            obj,
            Slot::Literal(LiteralId(k as usize)),
        ) {
            obj.literals@[k]
        } else {
            None
        }
    &&& out.kind == obj.kind
    &&& out.register_names == obj.register_names
    &&& out.ops == obj.ops
    &&& out.arguments == obj.arguments
    &&& out.return_slot == obj.return_slot
    &&& out.externals == obj.externals
    &&& out.name == obj.name
    &&& out.fn_id == obj.fn_id
}

/// Removes the unused literals of an object (shared by the passes that do so).
pub fn remove_unused_literals(input: Object) -> (out: Object)
    ensures
        unused_literals_removed(input, out),
{
    let (used, _) = used_slots(&input);
    let ghost init = input;
    let mut input = input;
    let mut k: usize = 0;
    while k < input.literals.len()
        invariant
            k <= input.literals.len(),
            used@.len() == init.literals@.len(),
            input.literals@.len() == init.literals@.len(),
            forall|m: int|
                0 <= m < used@.len() ==> #[trigger] used@[m] == slot_used(
                    init,
                    Slot::Literal(LiteralId(m as usize)),
                ),
            forall|m: int|
                0 <= m < k ==> #[trigger] input.literals@[m] == if slot_used(
                    init,
                    Slot::Literal(LiteralId(m as usize)),
                ) {
                    init.literals@[m]
                } else {
                    None
                },
            forall|m: int| k <= m < input.literals@.len() ==> #[trigger] input.literals@[m] == init.literals@[m],
            input.kind == init.kind,
            input.register_names == init.register_names,
            input.ops == init.ops,
            input.arguments == init.arguments,
            input.return_slot == init.return_slot,
            input.externals == init.externals,
            input.name == init.name,
            input.fn_id == init.fn_id,
        decreases input.literals.len() - k,
    {
        if !used[k] {
            input.literals.set(k, None);
        }
        k += 1;
    }
    input
}

impl RemoveUnusedLiterals {
    pub fn name() -> (r: &'static str)
        ensures
            r@ == "remove_unused_literals"@,
    {
        "remove_unused_literals"
    }

    pub fn description() -> (r: &'static str)
        ensures
            r@ == "Remove unused literals"@,
    {
        "Remove unused literals"
    }

    pub fn run(input: Object) -> (r: Result<Object, RHDLError>)
        ensures
            r matches Ok(out) && unused_literals_removed(input, out),
    {
        Ok(remove_unused_literals(input))
    }
}

} // verus!
