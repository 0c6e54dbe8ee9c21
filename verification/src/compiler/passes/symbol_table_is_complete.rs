use vstd::prelude::*;

use crate::compiler::mir::mir_impl::{find_slot, lookup};
use crate::error::{RHDLError, ICE};
use crate::rhif::object::Object;
use crate::rhif::remap::{op_all_slots, op_slots};
use crate::rhif::spec::{LocatedOpCode, RegisterId, Slot};

verus! {

/// Checks that the symbol table gives a source node to every slot the object
/// uses: the arguments, the result and every slot of every opcode.
#[derive(Debug)]
pub struct SymbolTableIsComplete {}

/// The slots the opcodes mention, opcode after opcode.
pub open spec fn ops_slots(ops: Seq<LocatedOpCode>) -> Seq<Slot>
    decreases ops.len(),
{
    if ops.len() == 0 {
        Seq::empty()
    } else {
        ops_slots(ops.drop_last()) + op_all_slots(ops.last().op)
    }
}

/// The slots an object uses, in the order they are checked: the arguments,
/// the result, then the slots of the opcodes.
pub open spec fn used_slot_list(obj: Object) -> Seq<Slot> {
    obj.arguments@.map_values(|r: RegisterId| Slot::Register(r)) + seq![obj.return_slot] + ops_slots(obj.ops@)
}

/// The slot has an entry in the symbol table.
pub open spec fn has_symbol(obj: Object, s: Slot) -> bool {
    lookup(obj.symbols.slot_map@, s) is Some
}

/// Every slot the object uses has an entry in the symbol table.
pub open spec fn symbols_complete(obj: Object) -> bool {
    forall|i: int| 0 <= i < used_slot_list(obj).len() ==> has_symbol(obj, #[trigger] used_slot_list(obj)[i])
}

/// `s` is the first slot of the list that has no entry.
pub open spec fn first_missing(obj: Object, s: Slot) -> bool {
    exists|i: int|
        0 <= i < used_slot_list(obj).len() && #[trigger] used_slot_list(obj)[i] == s && !has_symbol(obj, s)
            && forall|j: int| 0 <= j < i ==> has_symbol(obj, #[trigger] used_slot_list(obj)[j])
}

/// The slots an object uses, as a list.
fn used_slots_of(obj: &Object) -> (r: Vec<Slot>)
    ensures
        r@ == used_slot_list(*obj),
{
    let mut out: Vec<Slot> = Vec::new();
    let mut i: usize = 0;
    while i < obj.arguments.len()
        invariant
            i <= obj.arguments@.len(),
            out@ == obj.arguments@.take(i as int).map_values(|r: RegisterId| Slot::Register(r)),
        decreases obj.arguments.len() - i,
    {
        out.push(Slot::Register(obj.arguments[i]));
        i += 1;
        proof {
            assert(out@ =~= obj.arguments@.take(i as int).map_values(|r: RegisterId| Slot::Register(r)));
        }
    }
    proof {
        assert(obj.arguments@.take(i as int) =~= obj.arguments@);
    }
    out.push(obj.return_slot);
    let ghost head = out@;
    let mut k: usize = 0;
    while k < obj.ops.len()
        invariant
            k <= obj.ops@.len(),
            out@ == head + ops_slots(obj.ops@.take(k as int)),
        decreases obj.ops.len() - k,
    {
        let ghost before = out@;
        let s = op_slots(&obj.ops[k].op);
        let mut j: usize = 0;
        while j < s.len()
            invariant
                j <= s@.len(),
                out@ == before + s@.take(j as int),
            decreases s.len() - j,
        {
            out.push(s[j]);
            j += 1;
            proof {
                assert(out@ =~= before + s@.take(j as int));
            }
        }
        proof {
            assert(s@.take(j as int) =~= s@);
            assert(obj.ops@.take(k + 1).drop_last() =~= obj.ops@.take(k as int));
            assert(obj.ops@.take(k + 1).last() == obj.ops@[k as int]);
            assert(out@ =~= head + ops_slots(obj.ops@.take(k + 1)));
        }
        k += 1;
    }
    proof {
        assert(obj.ops@.take(k as int) =~= obj.ops@);
    }
    out
}

impl SymbolTableIsComplete {
    pub fn name() -> (r: &'static str)
        ensures
            r@ == "symbol_table_is_complete"@,
    {
        "symbol_table_is_complete"
    }

    /// Hands the object back when its symbol table is complete; otherwise
    /// reports the first used slot that has no entry, against the table's
    /// fallback node.
    pub fn run(input: Object) -> (r: Result<Object, RHDLError>)
        ensures
            r is Ok <==> symbols_complete(input),
            r matches Ok(out) ==> out == input,
            r matches Err(e) ==> e matches RHDLError::Compile { cause: ICE::SymbolTableIsIncomplete { slot }, id }
                && id == input.symbols.fallback && first_missing(input, slot),
    {
        let used = used_slots_of(&input);
        let mut i: usize = 0;
        while i < used.len()
            invariant
                i <= used@.len(),
                used@ == used_slot_list(input),
                forall|j: int| 0 <= j < i ==> has_symbol(input, #[trigger] used_slot_list(input)[j]),
            decreases used.len() - i,
        {
            let slot = used[i];
            if find_slot(&input.symbols.slot_map, slot).is_none() {
                let id = input.symbols.fallback;
                proof {
                    assert(used_slot_list(input)[i as int] == slot);
                    assert(first_missing(input, slot));
                }
                return Err(RHDLError::Compile { cause: ICE::SymbolTableIsIncomplete { slot }, id });
            }
            i += 1;
        }
        Ok(input)
    }
}

} // verus!
