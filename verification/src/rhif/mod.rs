pub mod object;
pub mod remap;
pub mod spec;
pub mod usage;

pub use object::Object;
