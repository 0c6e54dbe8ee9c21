pub mod bit_string;
pub mod kind;
pub mod path;
