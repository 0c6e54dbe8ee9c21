pub mod assign_node;
pub mod check_rhif_flow;
pub mod description;
pub mod driver;
pub mod lower_rhif_to_rtl;
pub mod mir;
pub mod mir_ty;
pub mod passes;
pub mod remove_unused_literals;
pub mod rhif_passes;
pub mod rtl_passes;
mod mir_prelude;
