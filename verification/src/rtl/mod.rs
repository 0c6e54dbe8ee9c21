pub mod object;
pub mod remap;
pub mod spec;

pub use object::Object;
