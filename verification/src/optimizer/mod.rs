//! Peephole optimization: an ordered list of local rewrite rules applied in
//! one pass over each sequence of a program.

pub mod laws;
mod optimization_rule;
mod optimizer;
mod rules;

pub use optimization_rule::OptimizationRule;
pub use optimizer::default_rules;
pub use optimizer::descend;
pub use optimizer::first_match;
pub use optimizer::optimize_nodes;
pub use optimizer::BuiltinRule;
pub use optimizer::Optimizer;
pub use rules::ByteAdjustmentRule;
pub use rules::ClearLoopRule;
pub use rules::PointerAdjustmentRule;
