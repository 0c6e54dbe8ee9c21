use vstd::prelude::*;

use crate::compiler::lower_rhif_to_rtl::{compile_to_rtl, lowerable, lowering, lowering_ok};
use crate::error::RHDLError;
use crate::rhif::object::Object as RhifObject;
use crate::rtl::object::Object as RtlObject;

verus! {

/// The second stage of compiling a design: the object of the top function
/// lowered to register-transfer form, its calls inlined.
pub fn compile_design_stage2(object: RhifObject) -> (r: Result<RtlObject, RHDLError>)
    requires
        lowerable(object),
    ensures
        r is Ok <==> lowering_ok(object),
        r matches Ok(out) ==> lowering(object, out) && out.wf(),
{
    compile_to_rtl(&object)
}

} // verus!
