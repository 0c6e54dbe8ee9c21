use vstd::prelude::*;

use crate::compiler::passes::remove_useless_casts::useless_cast_removed;
use crate::error::RHDLError;
use crate::rhif::object::{ops_mapped, same_except_ops, Object};
use crate::rhif::spec::OpCode;

verus! {

/// Replaces a cast of a literal that already has the requested width and
/// signedness by a copy.
#[derive(Debug)]
pub struct RemoveUselessCastsPass {}

/// Every literal cast by an opcode is present in the literal table.
pub open spec fn cast_literals_present(obj: Object) -> bool {
    forall|i: int|
        0 <= i < obj.ops@.len() ==> match #[trigger] obj.ops@[i].op {
            OpCode::AsBits(c) => c.arg matches crate::rhif::spec::Slot::Literal(l) ==> obj.has_literal(l),
            OpCode::AsSigned(c) => c.arg matches crate::rhif::spec::Slot::Literal(l) ==> obj.has_literal(l),
            _ => true,
        }
}

impl RemoveUselessCastsPass {
    /// Each cast of a literal whose width and signedness already match becomes
    /// an assignment of the literal; everything else is kept.
    pub fn run(input: Object) -> (r: Result<Object, RHDLError>)
        requires
            cast_literals_present(input),
        ensures
            r matches Ok(out) && same_except_ops(input, out) && ops_mapped(
                input.ops@,
                out.ops@,
                |a: OpCode, b: OpCode| useless_cast_removed(input, a, b),
            ),
    {
        crate::compiler::passes::remove_useless_casts::RemoveUselessCastsPass::run(input)
    }
}

} // verus!
