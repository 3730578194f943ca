//! The rewrite rules that come with the optimizer.

mod byte_adjustment;
mod clear_loop;
mod pointer_adjustment;

pub use byte_adjustment::add_run;
pub use byte_adjustment::add_sum;
pub use byte_adjustment::byte_adjustment_rewrite;
pub use byte_adjustment::wrap_cell_delta;
pub use byte_adjustment::ByteAdjustmentRule;
pub use clear_loop::clear_loop_rewrite;
pub use clear_loop::is_clear_loop;
pub use clear_loop::ClearLoopRule;
pub use pointer_adjustment::lemma_move_run_bounds;
pub use pointer_adjustment::move_run;
pub use pointer_adjustment::move_sum;
pub use pointer_adjustment::moves_fit;
pub use pointer_adjustment::pointer_adjustment_rewrite;
pub use pointer_adjustment::PointerAdjustmentRule;
