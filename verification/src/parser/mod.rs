//! Parsing: command tokens to a syntax tree of coalesced operations.

mod error;
pub mod laws;
mod ops;
mod parser;

pub use error::parse_error_text;
pub use error::position_text;
pub use error::ParseError;
pub use ops::append_ops_text;
pub use ops::clone_op;
pub use ops::clone_ops;
pub use ops::counted_text;
pub use ops::lemma_loop_view;
pub use ops::node_of;
pub use ops::node_text;
pub use ops::nodes;
pub use ops::nodes_text;
pub use ops::well_formed;
pub use ops::BfOp;
pub use ops::Node;
pub use ops::OptimizedOp;
pub use parser::add_node;
pub use parser::add_warning;
pub use parser::byte_run;
pub use parser::clamp_warning_text;
pub use parser::lemma_net_run_bounds;
pub use parser::lemma_parse_stops_at_brackets;
pub use parser::lemma_parse_well_formed;
pub use parser::lemma_well_formed_concat;
pub use parser::move_node;
pub use parser::move_warning;
pub use parser::net_run;
pub use parser::parse_from;
pub use parser::parse_tokens;
pub use parser::pointer_run;
pub use parser::points_at_bracket;
pub use parser::stopped;
pub use parser::with_prefix;
pub use parser::ClampWarning;
pub use parser::Parsed;
pub use parser::Parser;
