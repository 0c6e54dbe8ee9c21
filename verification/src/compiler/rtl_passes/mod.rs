use vstd::prelude::*;

use crate::rtl::object::RegisterKind;
use crate::rtl::spec::{LiteralId, RegisterId};
use crate::types::bit_string::BitString;

pub mod lower_multiply_to_shift;
pub mod lower_shift_by_constant;
pub mod remove_extra_registers;

verus! {

/// Appends a register of the given kind to a register table; returns its id.
pub fn allocate_register(register_kind: &mut Vec<Option<RegisterKind>>, kind: RegisterKind) -> (r: RegisterId)
    ensures
        r.0 == old(register_kind)@.len(),
        final(register_kind)@ == old(register_kind)@.push(Some(kind)),
{
    let reg = RegisterId(register_kind.len());
    register_kind.push(Some(kind));
    reg
}

/// Appends a literal to a literal table; returns its id.
pub fn allocate_literal(literals: &mut Vec<BitString>, bs: BitString) -> (r: LiteralId)
    ensures
        r.0 == old(literals)@.len(),
        final(literals)@ == old(literals)@.push(bs),
{
    let lit = LiteralId(literals.len());
    literals.push(bs);
    lit
}

} // verus!
