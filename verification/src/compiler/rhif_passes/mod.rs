pub mod check_for_rolled_types;
pub mod remove_empty_cases;
pub mod remove_extra_registers;
pub mod remove_unused_literals;
pub mod remove_useless_casts;
