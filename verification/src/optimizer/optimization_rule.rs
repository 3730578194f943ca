use crate::parser::nodes;
use crate::parser::BfOp;
use crate::parser::Node;
use vstd::prelude::*;

verus! {

/// A local rewrite that the optimizer tries at each position of a sequence.
pub trait OptimizationRule {
    /// What the rule makes of the operations `ops`, looked at from their
    /// front: `None` where it does not match, else the replacement and the
    /// number of operations that it replaces.
    spec fn rewrite(&self, ops: Seq<Node>) -> Option<(Seq<Node>, nat)>;

    /// Tries the rule at the front of `ops`. A match replaces at least one
    /// operation and no more than there are.
    fn apply(&self, ops: &[BfOp]) -> (result: Option<(Vec<BfOp>, usize)>)
        ensures
            match result {
                Some((replacement, consumed)) => {
                    &&& 1 <= consumed <= ops@.len()
                    &&& self.rewrite(nodes(ops@)) == Some((nodes(replacement@), consumed as nat))
                },
                None => self.rewrite(nodes(ops@)) is None,
            },
    ;
}

/// A boxed rule is the rule in the box, so that rules of different types
/// can stand in one list.
impl<T: OptimizationRule + ?Sized> OptimizationRule for Box<T> {
    open spec fn rewrite(&self, ops: Seq<Node>) -> Option<(Seq<Node>, nat)> {
        (**self).rewrite(ops)
    }

    fn apply(&self, ops: &[BfOp]) -> (result: Option<(Vec<BfOp>, usize)>) {
        (**self).apply(ops)
    }
}

} // verus!
