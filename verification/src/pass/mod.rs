//! The optimization passes and the pipelines made of them.
pub mod edges;
pub mod idiom_laws;
pub mod loop_division_specialize;
pub mod loop_idiom;
pub mod loop_memcpy;
pub mod loop_memory_promotion;
pub mod loop_memset;
pub mod memo_laws;
pub mod memcpy_laws;
pub mod memset_laws;
pub mod modular_recurrence;
pub mod odd_chain_group;
pub mod periodic_reduction_memoize;
pub mod piecewise_expr;
pub mod piecewise_laws;
pub mod pipeline;
pub mod pointer_recurrence_coalesce;
pub mod producer_consumer_fusion;
pub mod range_integer;
pub mod recurrence_update_sink;
pub mod recursive_inline;
pub mod recursive_memoize;
pub mod reduction_jam;
pub mod regional_global_scalar;
pub mod repeat_laws;
pub mod repeat_reduction;
pub mod repeated_overwrite;
pub mod scalar_promote;
pub mod simple_loop_unroll;
pub mod placement_laws;
pub mod simplify_cfg;
pub mod slot_laws;
pub mod stand_in_laws;
pub mod unroll_laws;
pub mod wrapper_laws;

pub use crate::pass::pipeline::{
    run_pipeline, run_pipeline_with_reduction_jam_factor, OptLevel, PassOptions,
};
