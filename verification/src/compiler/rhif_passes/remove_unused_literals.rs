use vstd::prelude::*;

use crate::compiler::passes::remove_unused_literals::{
    remove_unused_literals, unused_literals_removed,
};
use crate::error::RHDLError;
use crate::rhif::object::Object;

verus! {

/// Drops the literals that neither the opcodes, the arguments nor the result
/// use.
#[derive(Debug)]
pub struct RemoveUnusedLiterals {}

impl RemoveUnusedLiterals {
    pub fn run(input: Object) -> (r: Result<Object, RHDLError>)
        ensures
            r matches Ok(out) && unused_literals_removed(input, out),
    {
        Ok(remove_unused_literals(input))
    }
}

} // verus!
