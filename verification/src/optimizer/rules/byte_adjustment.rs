use crate::optimizer::optimization_rule::OptimizationRule;
use crate::parser::nodes;
use crate::parser::BfOp;
use crate::parser::Node;
use vstd::prelude::*;

verus! {

/// Index behind the run of cell changes that holds position `from`.
pub open spec fn add_run(ops: Seq<Node>, from: int) -> int
    decreases ops.len() - from,
{
    if 0 <= from < ops.len() && ops[from] is Add {
        add_run(ops, from + 1)
    } else {
        from
    }
}

/// Sum of the changes of the first `count` operations.
pub open spec fn add_sum(ops: Seq<Node>, count: int) -> int
    decreases count,
{
    if count <= 0 || count > ops.len() {
        0
    } else {
        add_sum(ops, count - 1) + match ops[count - 1] {
            Node::Add(delta) => delta as int,
            _ => 0,
        }
    }
}

/// The change in `-128..=127` that equals `sum` modulo 256.
pub open spec fn wrap_cell_delta(sum: int) -> int {
    (sum + 128) % 256 - 128
}

/// A run of two or more cell changes at the front becomes one change by
/// their sum modulo 256, or nothing where that is zero.
pub open spec fn byte_adjustment_rewrite(ops: Seq<Node>) -> Option<(Seq<Node>, nat)> {
    let count = add_run(ops, 0);
    if count <= 1 {
        None
    } else {
        let net = wrap_cell_delta(add_sum(ops, count));
        Some(
            (
                if net != 0 {
                    seq![Node::Add(net as i8)]
                } else {
                    Seq::empty()
                },
                count as nat,
            ),
        )
    }
}

/// Rule that merges a run of adjacent cell changes into their net change.
///
/// `+-+-+` becomes `+`, `-+-+-` becomes `-`, and `++--` disappears. The net
/// change is taken modulo 256, as the cell is.
pub struct ByteAdjustmentRule {}

impl OptimizationRule for ByteAdjustmentRule {
    open spec fn rewrite(&self, ops: Seq<Node>) -> Option<(Seq<Node>, nat)> {
        byte_adjustment_rewrite(ops)
    }

    fn apply(&self, ops: &[BfOp]) -> (result: Option<(Vec<BfOp>, usize)>) {
        if ops.len() == 0 {
            return None;
        }
        let mut consumed: usize = 0;
        let mut net_change: i8 = 0;
        let ghost all = nodes(ops@);
        while consumed < ops.len() && is_increment(&ops[consumed])
            invariant
                consumed <= ops.len(),
                all == nodes(ops@),
                add_run(all, consumed as int) == add_run(all, 0),
                net_change as int == wrap_cell_delta(add_sum(all, consumed as int)),
            decreases ops.len() - consumed,
        {
            if let BfOp::Increment(count) = &ops[consumed] {
                let wide: i16 = net_change as i16 + *count as i16;
                net_change = if wide > 127 {
                    (wide - 256) as i8
                } else if wide < -128 {
                    (wide + 256) as i8
                } else {
                    wide as i8
                };
            }
            consumed += 1;
        }
        if consumed <= 1 {
            return None;
        }
        let mut result: Vec<BfOp> = Vec::new();
        if net_change != 0 {
            result.push(BfOp::Increment(net_change));
        }
        proof {
            assert(nodes(result@) =~= if net_change != 0 {
                seq![Node::Add(net_change)]
            } else {
                Seq::empty()
            });
        }
        Some((result, consumed))
    }
}

/// Whether `op` is a cell change.
fn is_increment(op: &BfOp) -> (yes: bool)
    ensures
        yes == (op@ is Add),
{
    match op {
        BfOp::Increment(_) => true,
        _ => false,
    }
}

} // verus!
