use vstd::prelude::*;

pub mod ast;
pub mod compiler;
pub mod error;
pub mod rhif;
pub mod rtl;
pub mod types;
pub mod util;

verus! {

} // verus!
