use crate::interpreter::laws::equivalent;
use crate::optimizer::laws::all_sound;
use crate::optimizer::laws::lemma_clear_loop_rule_sound;
use crate::optimizer::laws::lemma_default_rules_only_clear_loops;
use crate::optimizer::laws::lemma_optimize_preserves;
use crate::optimizer::laws::lemma_optimize_twice;
use crate::optimizer::laws::only_clears_loops;
use crate::optimizer::optimization_rule::OptimizationRule;
use crate::optimizer::rules::ByteAdjustmentRule;
use crate::optimizer::rules::ClearLoopRule;
use crate::optimizer::rules::PointerAdjustmentRule;
use crate::parser::clone_op;
use crate::parser::lemma_loop_view;
use crate::parser::nodes;
use crate::parser::BfOp;
use crate::parser::Node;
use vstd::prelude::*;

verus! {

/// What the first rule from index `from` on that matches makes of `ops`.
pub open spec fn first_match<R: OptimizationRule>(
    rules: Seq<R>,
    ops: Seq<Node>,
    from: int,
) -> Option<(Seq<Node>, nat)>
    decreases rules.len() - from,
{
    if from < 0 || from >= rules.len() {
        None
    } else if rules[from].rewrite(ops) is Some {
        rules[from].rewrite(ops)
    } else {
        first_match(rules, ops, from + 1)
    }
}

/// The node that stands for `node` where no rule matched at it: a loop with
/// its body optimized on its own, any other node unchanged.
pub open spec fn descend<R: OptimizationRule>(rules: Seq<R>, node: Node) -> Node
    decreases node, 0int,
{
    match node {
        Node::Loop(body) => Node::Loop(optimize_nodes(rules, body)),
        other => other,
    }
}

/// One pass of the rules over `ops`.
///
/// At each position the first rule that matches replaces the operations it
/// consumed, and the pass goes on behind them. Where none matches, the
/// operation is kept, a loop with its body optimized in the same way.
pub open spec fn optimize_nodes<R: OptimizationRule>(rules: Seq<R>, ops: Seq<Node>) -> Seq<
    Node,
>
    decreases ops, 1int,
{
    if ops.len() == 0 {
        Seq::empty()
    } else {
        match first_match(rules, ops, 0) {
            Some((replacement, consumed)) if 1 <= consumed <= ops.len() => replacement
                + optimize_nodes(rules, ops.skip(consumed as int)),
            _ => seq![descend(rules, ops[0])] + optimize_nodes(rules, ops.skip(1)),
        }
    }
}

/// The rules that come with the optimizer, as one type.
pub enum BuiltinRule {
    ClearLoop(ClearLoopRule),
    ByteAdjustment(ByteAdjustmentRule),
    PointerAdjustment(PointerAdjustmentRule),
}

impl OptimizationRule for BuiltinRule {
    open spec fn rewrite(&self, ops: Seq<Node>) -> Option<(Seq<Node>, nat)> {
        match self {
            BuiltinRule::ClearLoop(rule) => rule.rewrite(ops),
            BuiltinRule::ByteAdjustment(rule) => rule.rewrite(ops),
            BuiltinRule::PointerAdjustment(rule) => rule.rewrite(ops),
        }
    }

    fn apply(&self, ops: &[BfOp]) -> (result: Option<(Vec<BfOp>, usize)>) {
        match self {
            BuiltinRule::ClearLoop(rule) => rule.apply(ops),
            BuiltinRule::ByteAdjustment(rule) => rule.apply(ops),
            BuiltinRule::PointerAdjustment(rule) => rule.apply(ops),
        }
    }
}

/// The default set of rules: the clear-loop rule alone.
pub open spec fn default_rules() -> Seq<BuiltinRule> {
    seq![BuiltinRule::ClearLoop(ClearLoopRule {  })]
}

/// Optimizer for programs: an ordered list of rewrite rules of type `R`.
///
/// With `Box<dyn OptimizationRule>` for `R` the list holds rules of any
/// types; `BuiltinRule` holds the rules that come with the library.
pub struct Optimizer<R: OptimizationRule = BuiltinRule> {
    rules: Vec<R>,
}

impl Optimizer<BuiltinRule> {
    /// An optimizer with the default set of rules, which are sound and do
    /// what the clear-loop rule alone does.
    pub fn new() -> (optimizer: Self)
        ensures
            optimizer.rules() == default_rules(),
            all_sound(optimizer.rules()),
            only_clears_loops(optimizer.rules()),
    {
        let mut optimizer = Self { rules: Vec::new() };
        optimizer.register_default_rules();
        proof {
            lemma_clear_loop_rule_sound();
            lemma_default_rules_only_clear_loops();
        }
        optimizer
    }

    /// Registers the default set of rules.
    fn register_default_rules(&mut self)
        requires
            old(self).rules().len() == 0,
        ensures
            final(self).rules() == default_rules(),
    {
        self.register_rule(BuiltinRule::ClearLoop(ClearLoopRule {  }));
        assert(self.rules() =~= default_rules());
    }
}

impl<R: OptimizationRule> Optimizer<R> {
    /// The registered rules, in the order in which they are tried.
    pub closed spec fn rules(&self) -> Seq<R> {
        self.rules@
    }

    /// An optimizer with no rules.
    pub fn empty() -> (optimizer: Self)
        ensures
            optimizer.rules().len() == 0,
    {
        Self { rules: Vec::new() }
    }

    /// Adds `rule` behind the rules registered so far.
    pub fn register_rule(&mut self, rule: R)
        ensures
            final(self).rules() == old(self).rules().push(rule),
    {
        self.rules.push(rule);
    }

    /// Optimizes a program: one pass of the rules over it.
    ///
    /// Where every rule is sound, what comes out is equivalent to the
    /// program. Where the rules do what the clear-loop rule alone does, as
    /// the default set does, a second pass would change nothing more.
    pub fn optimize(&self, program: Vec<BfOp>) -> (optimized: Vec<BfOp>)
        ensures
            nodes(optimized@) == optimize_nodes(self.rules(), nodes(program@)),
            all_sound(self.rules()) ==> equivalent(nodes(program@), nodes(optimized@)),
            only_clears_loops(self.rules()) ==> optimize_nodes(self.rules(), nodes(optimized@))
                == nodes(optimized@),
    {
        proof {
            if all_sound(self.rules()) {
                lemma_optimize_preserves(self.rules(), nodes(program@));
            }
            if only_clears_loops(self.rules()) {
                lemma_optimize_twice(self.rules(), nodes(program@));
            }
        }
        self.optimize_ops(program.as_slice())
    }

    /// Tries the rules in order at the front of `ops`.
    fn try_rules(&self, ops: &[BfOp]) -> (result: Option<(Vec<BfOp>, usize)>)
        ensures
            match result {
                Some((replacement, consumed)) => {
                    &&& 1 <= consumed <= ops@.len()
                    &&& first_match(self.rules(), nodes(ops@), 0) == Some(
                        (nodes(replacement@), consumed as nat),
                    )
                },
                None => first_match(self.rules(), nodes(ops@), 0) is None,
            },
    {
        let mut r: usize = 0;
        while r < self.rules.len()
            invariant
                r <= self.rules.len(),
                first_match(self.rules(), nodes(ops@), 0) == first_match(
                    self.rules(),
                    nodes(ops@),
                    r as int,
                ),
            decreases self.rules.len() - r,
        {
            match self.rules[r].apply(ops) {
                Some(found) => {
                    return Some(found);
                },
                None => {},
            }
            r += 1;
        }
        None
    }

    /// One pass of the rules over `ops`, loop bodies included.
    fn optimize_ops(&self, ops: &[BfOp]) -> (result: Vec<BfOp>)
        ensures
            nodes(result@) == optimize_nodes(self.rules(), nodes(ops@)),
        decreases ops@,
    {
        let mut result: Vec<BfOp> = Vec::with_capacity(ops.len());
        let mut i: usize = 0;
        let ghost all = nodes(ops@);
        assert(all.skip(0) =~= all);
        assert(nodes(result@) + optimize_nodes(self.rules(), all) =~= optimize_nodes(
            self.rules(),
            all,
        ));
        while i < ops.len()
            invariant
                i <= ops.len(),
                all == nodes(ops@),
                nodes(result@) + optimize_nodes(self.rules(), all.skip(i as int)) == optimize_nodes(
                    self.rules(),
                    all,
                ),
            decreases ops.len() - i,
        {
            let rest = vstd::slice::slice_subrange(ops, i, ops.len());
            let ghost before = nodes(result@);
            let ghost here = all.skip(i as int);
            assert(nodes(rest@) =~= here);
            match self.try_rules(rest) {
                Some((replacement, consumed)) => {
                    let mut replacement = replacement;
                    let ghost added = nodes(replacement@);
                    result.append(&mut replacement);
                    i += consumed;
                    proof {
                        assert(nodes(result@) =~= before + added);
                        assert(here.skip(consumed as int) =~= all.skip(i as int));
                        let tail = optimize_nodes(self.rules(), all.skip(i as int));
                        assert((before + added) + tail =~= before + (added + tail));
                    }
                },
                None => {
                    let kept = match &ops[i] {
                        BfOp::Loop(body) => {
                            let optimized_body = self.optimize_ops(body.as_slice());
                            proof {
                                lemma_loop_view(*body);
                                lemma_loop_view(optimized_body);
                            }
                            BfOp::Loop(optimized_body)
                        },
                        op => clone_op(op),
                    };
                    assert(kept@ == descend(self.rules(), here[0]));
                    result.push(kept);
                    i += 1;
                    proof {
                        let one = seq![descend(self.rules(), here[0])];
                        assert(nodes(result@) =~= before + one);
                        assert(here.skip(1) =~= all.skip(i as int));
                        let tail = optimize_nodes(self.rules(), all.skip(i as int));
                        assert((before + one) + tail =~= before + (one + tail));
                    }
                },
            }
        }
        proof {
            assert(all.skip(i as int).len() == 0);
            assert(nodes(result@) + Seq::<Node>::empty() =~= nodes(result@));
        }
        result
    }
}

} // verus!
