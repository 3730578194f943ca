use crate::optimizer::optimization_rule::OptimizationRule;
use crate::parser::lemma_loop_view;
use crate::parser::nodes;
use crate::parser::BfOp;
use crate::parser::Node;
use crate::parser::OptimizedOp;
use vstd::prelude::*;

verus! {

/// Whether `node` is a loop whose body is a single cell change by one, up or
/// down: `[+]` or `[-]`.
pub open spec fn is_clear_loop(node: Node) -> bool {
    node == Node::Loop(seq![Node::Add(1i8)]) || node == Node::Loop(seq![Node::Add(-1i8)])
}

/// A clear loop at the front becomes one `Clear` node.
pub open spec fn clear_loop_rewrite(ops: Seq<Node>) -> Option<(Seq<Node>, nat)> {
    if ops.len() > 0 && is_clear_loop(ops[0]) {
        Some((seq![Node::Clear], 1))
    } else {
        None
    }
}

/// Rule that turns the clear loops `[+]` and `[-]` into one operation that
/// sets the cell to zero.
pub struct ClearLoopRule {}

impl OptimizationRule for ClearLoopRule {
    open spec fn rewrite(&self, ops: Seq<Node>) -> Option<(Seq<Node>, nat)> {
        clear_loop_rewrite(ops)
    }

    fn apply(&self, ops: &[BfOp]) -> (result: Option<(Vec<BfOp>, usize)>) {
        if ops.len() == 0 {
            return None;
        }
        if let BfOp::Loop(body) = &ops[0] {
            proof {
                lemma_loop_view(*body);
            }
            if body.len() == 1 {
                if let BfOp::Increment(delta) = &body[0] {
                    if *delta == 1 || *delta == -1 {
                        let replacement = vec![BfOp::Optimized(OptimizedOp::ClearCell)];
                        proof {
                            assert(nodes(body@) =~= seq![Node::Add(*delta)]);
                            assert(nodes(replacement@) =~= seq![Node::Clear]);
                        }
                        return Some((replacement, 1));
                    }
                }
                proof {
                    assert(nodes(body@)[0] == body@[0]@);
                    assert(seq![Node::Add(1i8)][0] == Node::Add(1i8));
                    assert(seq![Node::Add(-1i8)][0] == Node::Add(-1i8));
                }
            } else {
                proof {
                    assert(seq![Node::Add(1i8)].len() == 1);
                    assert(seq![Node::Add(-1i8)].len() == 1);
                }
            }
        }
        None
    }
}

} // verus!
