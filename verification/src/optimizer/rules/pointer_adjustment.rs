use crate::optimizer::optimization_rule::OptimizationRule;
use crate::parser::nodes;
use crate::parser::BfOp;
use crate::parser::Node;
use vstd::prelude::*;

verus! {

/// Index behind the run of pointer moves that holds position `from`.
pub open spec fn move_run(ops: Seq<Node>, from: int) -> int
    decreases ops.len() - from,
{
    if 0 <= from < ops.len() && ops[from] is Move {
        move_run(ops, from + 1)
    } else {
        from
    }
}

/// Sum of the shifts of the first `count` operations.
pub open spec fn move_sum(ops: Seq<Node>, count: int) -> int
    decreases count,
{
    if count <= 0 || count > ops.len() {
        0
    } else {
        move_sum(ops, count - 1) + match ops[count - 1] {
            Node::Move(delta) => delta as int,
            _ => 0,
        }
    }
}

/// Whether the sum of every prefix of the first `count` shifts is a shift
/// that a node can hold.
pub open spec fn moves_fit(ops: Seq<Node>, count: int) -> bool {
    forall|k: int| 0 <= k <= count ==> isize::MIN <= #[trigger] move_sum(ops, k) <= isize::MAX
}

/// A run of two or more pointer moves at the front becomes one move by their
/// sum, or nothing where that is zero. The rule does not match where summing
/// the run from its front leaves the range of a shift.
pub open spec fn pointer_adjustment_rewrite(ops: Seq<Node>) -> Option<(Seq<Node>, nat)> {
    let count = move_run(ops, 0);
    if count <= 1 || !moves_fit(ops, count) {
        None
    } else {
        let net = move_sum(ops, count);
        Some(
            (
                if net != 0 {
                    seq![Node::Move(net as isize)]
                } else {
                    Seq::empty()
                },
                count as nat,
            ),
        )
    }
}

/// The run that holds `from` ends at or behind it, within the operations.
pub proof fn lemma_move_run_bounds(ops: Seq<Node>, from: int)
    requires
        0 <= from <= ops.len(),
    ensures
        from <= move_run(ops, from) <= ops.len(),
    decreases ops.len() - from,
{
    if from < ops.len() && ops[from] is Move {
        lemma_move_run_bounds(ops, from + 1);
    }
}

/// Rule that merges a run of adjacent pointer moves into their net move.
///
/// `><><>` becomes `>`, `<><><` becomes `<`, and `>><<` disappears. Where the
/// shifts cannot be summed without overflow the rule does not apply.
pub struct PointerAdjustmentRule {}

impl OptimizationRule for PointerAdjustmentRule {
    open spec fn rewrite(&self, ops: Seq<Node>) -> Option<(Seq<Node>, nat)> {
        pointer_adjustment_rewrite(ops)
    }

    fn apply(&self, ops: &[BfOp]) -> (result: Option<(Vec<BfOp>, usize)>) {
        if ops.len() == 0 {
            return None;
        }
        let mut consumed: usize = 0;
        let mut shift: isize = 0;
        let ghost all = nodes(ops@);
        while consumed < ops.len() && is_pointer_increment(&ops[consumed])
            invariant
                consumed <= ops.len(),
                all == nodes(ops@),
                move_run(all, consumed as int) == move_run(all, 0),
                shift as int == move_sum(all, consumed as int),
                moves_fit(all, consumed as int),
            decreases ops.len() - consumed,
        {
            if let BfOp::PointerIncrement(count) = &ops[consumed] {
                match shift.checked_add(*count) {
                    Some(val) => shift = val,
                    None => {
                        proof {
                            lemma_move_run_bounds(all, consumed + 1);
                            assert(!(isize::MIN <= move_sum(all, consumed + 1) <= isize::MAX));
                        }
                        return None;
                    },
                }
            }
            consumed += 1;
        }
        if consumed <= 1 {
            return None;
        }
        let mut result: Vec<BfOp> = Vec::new();
        if shift != 0 {
            result.push(BfOp::PointerIncrement(shift));
        }
        proof {
            assert(nodes(result@) =~= if shift != 0 {
                seq![Node::Move(shift)]
            } else {
                Seq::empty()
            });
        }
        Some((result, consumed))
    }
}

/// Whether `op` is a pointer move.
fn is_pointer_increment(op: &BfOp) -> (yes: bool)
    ensures
        yes == (op@ is Move),
{
    match op {
        BfOp::PointerIncrement(_) => true,
        _ => false,
    }
}

} // verus!
