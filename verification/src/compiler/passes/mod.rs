pub mod check_clock_coherence;
pub mod check_rhif_type;
pub mod lower_dynamic_indices_with_constant_arguments;
pub mod lower_index_to_copy;
pub mod lower_inferred_casts;
pub mod lower_inferred_retimes;
pub mod pre_cast_literals;
pub mod remove_empty_cases;
pub mod remove_extra_registers;
pub mod remove_unneeded_muxes;
pub mod remove_unused_literals;
pub mod remove_unused_registers;
pub mod remove_useless_casts;
pub mod symbol_table_is_complete;
