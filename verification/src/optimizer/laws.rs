use crate::interpreter::laws::equivalent;
use crate::interpreter::laws::lemma_clear_loop_equivalent;
use crate::interpreter::laws::lemma_equivalent_concat;
use crate::interpreter::laws::lemma_equivalent_loop;
use crate::interpreter::laws::lemma_equivalent_reflexive;
use crate::interpreter::laws::lemma_equivalent_when_both_end;
use crate::interpreter::laws::lemma_run_join;
use crate::interpreter::laws::with_cell;
use crate::interpreter::run;
use crate::interpreter::InterpreterError;
use crate::interpreter::Outcome;
use crate::interpreter::World;
use crate::optimizer::rules::add_run;
use crate::optimizer::rules::add_sum;
use crate::optimizer::rules::byte_adjustment_rewrite;
use crate::optimizer::rules::wrap_cell_delta;
use crate::optimizer::rules::ByteAdjustmentRule;
use crate::optimizer::rules::PointerAdjustmentRule;
use crate::optimizer::optimization_rule::OptimizationRule;
use crate::optimizer::optimizer::default_rules;
use crate::optimizer::optimizer::descend;
use crate::optimizer::optimizer::first_match;
use crate::optimizer::optimizer::optimize_nodes;
use crate::optimizer::optimizer::BuiltinRule;
use crate::optimizer::rules::clear_loop_rewrite;
use crate::optimizer::rules::is_clear_loop;
use crate::optimizer::rules::ClearLoopRule;
use crate::parser::Node;
use vstd::prelude::*;

verus! {

/// Whether `rule` keeps the meaning of every program: wherever it matches,
/// what it puts in place is equivalent to the operations that it replaces.
pub open spec fn sound<R: OptimizationRule>(rule: R) -> bool {
    forall|ops: Seq<Node>|
        match #[trigger] rule.rewrite(ops) {
            Some((replacement, consumed)) => 1 <= consumed <= ops.len() ==> equivalent(
                ops.take(consumed as int),
                replacement,
            ),
            None => true,
        }
}

/// Whether every rule of `rules` is sound.
pub open spec fn all_sound<R: OptimizationRule>(rules: Seq<R>) -> bool {
    forall|i: int| 0 <= i < rules.len() ==> sound(#[trigger] rules[i])
}

/// The clear-loop rule is sound.
pub proof fn lemma_clear_loop_rule_sound()
    ensures
        sound(ClearLoopRule {  }),
        sound(BuiltinRule::ClearLoop(ClearLoopRule {  })),
        all_sound(default_rules()),
{
    lemma_clear_loop_equivalent(1i8);
    lemma_clear_loop_equivalent(-1i8);
    assert forall|ops: Seq<Node>| clear_loop_rewrite(ops) is Some implies equivalent(
        ops.take(1),
        seq![Node::Clear],
    ) by {
        assert(ops.take(1) =~= seq![ops[0]]);
    }
    let rule = ClearLoopRule {  };
    assert forall|ops: Seq<Node>|
        match #[trigger] rule.rewrite(ops) {
            Some((replacement, consumed)) => 1 <= consumed <= ops.len() ==> equivalent(
                ops.take(consumed as int),
                replacement,
            ),
            None => true,
        } by {
        assert(rule.rewrite(ops) == clear_loop_rewrite(ops));
    }
    let builtin = BuiltinRule::ClearLoop(rule);
    assert forall|ops: Seq<Node>|
        match #[trigger] builtin.rewrite(ops) {
            Some((replacement, consumed)) => 1 <= consumed <= ops.len() ==> equivalent(
                ops.take(consumed as int),
                replacement,
            ),
            None => true,
        } by {
        assert(builtin.rewrite(ops) == clear_loop_rewrite(ops));
    }
    assert(default_rules()[0] == builtin);
}

/// What the first matching rule of a sound list puts in place is equivalent
/// to what it replaces.
pub proof fn lemma_first_match_sound<R: OptimizationRule>(rules: Seq<R>, ops: Seq<Node>, from: int)
    requires
        all_sound(rules),
        0 <= from,
    ensures
        match first_match(rules, ops, from) {
            Some((replacement, consumed)) => 1 <= consumed <= ops.len() ==> equivalent(
                ops.take(consumed as int),
                replacement,
            ),
            None => true,
        },
    decreases rules.len() - from,
{
    if from < rules.len() {
        if rules[from].rewrite(ops) is Some {
            assert(sound(rules[from]));
        } else {
            lemma_first_match_sound(rules, ops, from + 1);
        }
    }
}

/// Semantic equivalence for one node: where no rule matched at it, what the
/// pass keeps in its place is equivalent to it.
pub proof fn lemma_descend_preserves<R: OptimizationRule>(rules: Seq<R>, node: Node)
    requires
        all_sound(rules),
    ensures
        equivalent(seq![node], seq![descend(rules, node)]),
    decreases node, 0int,
{
    match node {
        Node::Loop(body) => {
            lemma_optimize_preserves(rules, body);
            lemma_equivalent_loop(body, optimize_nodes(rules, body));
        },
        _ => {
            lemma_equivalent_reflexive(seq![node]);
        },
    }
}

/// Semantic equivalence: a pass of sound rules over a program gives an
/// equivalent program. From every world with the pointer on the tape, and
/// so for every input and every host, the optimized program finishes or
/// fails exactly where the program itself does, with the same error, the
/// same output written, the same input left, and the same tape and pointer.
pub proof fn lemma_optimize_preserves<R: OptimizationRule>(rules: Seq<R>, ops: Seq<Node>)
    requires
        all_sound(rules),
    ensures
        equivalent(ops, optimize_nodes(rules, ops)),
    decreases ops, 1int,
{
    if ops.len() == 0 {
        lemma_equivalent_reflexive(ops);
        assert(ops =~= optimize_nodes(rules, ops));
    } else {
        lemma_first_match_sound(rules, ops, 0);
        match first_match(rules, ops, 0) {
            Some((replacement, consumed)) if 1 <= consumed <= ops.len() => {
                let rest = ops.skip(consumed as int);
                lemma_optimize_preserves(rules, rest);
                lemma_equivalent_concat(
                    ops.take(consumed as int),
                    replacement,
                    rest,
                    optimize_nodes(rules, rest),
                );
                assert(ops.take(consumed as int) + rest =~= ops);
                assert(optimize_nodes(rules, ops) == replacement + optimize_nodes(rules, rest));
            },
            _ => {
                let rest = ops.skip(1);
                lemma_descend_preserves(rules, ops[0]);
                lemma_optimize_preserves(rules, rest);
                lemma_equivalent_concat(
                    seq![ops[0]],
                    seq![descend(rules, ops[0])],
                    rest,
                    optimize_nodes(rules, rest),
                );
                assert(seq![ops[0]] + rest =~= ops);
                assert(optimize_nodes(rules, ops) == seq![descend(rules, ops[0])] + optimize_nodes(
                    rules,
                    rest,
                ));
            },
        }
    }
}

/// Semantic equivalence for the default optimizer: what it makes of a
/// program is equivalent to the program.
pub proof fn lemma_default_optimizer_preserves(ops: Seq<Node>)
    ensures
        equivalent(ops, optimize_nodes(default_rules(), ops)),
{
    lemma_clear_loop_rule_sound();
    lemma_optimize_preserves(default_rules(), ops);
}

/// Whether the rules `rules`, tried in order, do what the clear-loop rule
/// alone does.
pub open spec fn only_clears_loops<R: OptimizationRule>(rules: Seq<R>) -> bool {
    forall|ops: Seq<Node>| #[trigger] first_match(rules, ops, 0) == clear_loop_rewrite(ops)
}

/// What a pass that only clears loops makes of one node.
pub open spec fn cleared<R: OptimizationRule>(rules: Seq<R>, node: Node) -> Node {
    if is_clear_loop(node) {
        Node::Clear
    } else {
        descend(rules, node)
    }
}

/// A pass that only clears loops rewrites node by node.
pub proof fn lemma_clearing_is_pointwise<R: OptimizationRule>(rules: Seq<R>, ops: Seq<Node>)
    requires
        only_clears_loops(rules),
    ensures
        optimize_nodes(rules, ops).len() == ops.len(),
        forall|i: int|
            0 <= i < ops.len() ==> #[trigger] optimize_nodes(rules, ops)[i] == cleared(
                rules,
                ops[i],
            ),
    decreases ops.len(),
{
    if ops.len() > 0 {
        let rest = ops.skip(1);
        lemma_clearing_is_pointwise(rules, rest);
        assert(first_match(rules, ops, 0) == clear_loop_rewrite(ops));
        let out = optimize_nodes(rules, ops);
        assert(out =~= seq![cleared(rules, ops[0])] + optimize_nodes(rules, rest));
        assert forall|i: int| 0 <= i < ops.len() implies #[trigger] out[i] == cleared(
            rules,
            ops[i],
        ) by {
            if i > 0 {
                assert(out[i] == optimize_nodes(rules, rest)[i - 1]);
                assert(rest[i - 1] == ops[i]);
            }
        }
    }
}

/// Idempotence for one node of a pass that only clears loops.
pub proof fn lemma_cleared_twice<R: OptimizationRule>(rules: Seq<R>, node: Node)
    requires
        only_clears_loops(rules),
    ensures
        cleared(rules, cleared(rules, node)) == cleared(rules, node),
    decreases node, 0int,
{
    if !is_clear_loop(node) {
        match node {
            Node::Loop(body) => {
                let once = optimize_nodes(rules, body);
                lemma_optimize_twice(rules, body);
                lemma_clearing_is_pointwise(rules, body);
                if is_clear_loop(Node::Loop(once)) {
                    assert(once.len() == 1);
                    assert(once[0] == cleared(rules, body[0]));
                    let delta: i8 = if once == seq![Node::Add(1i8)] {
                        1i8
                    } else {
                        -1i8
                    };
                    assert(seq![Node::Add(delta)][0] == Node::Add(delta));
                    assert(once[0] == Node::Add(delta));
                    assert(body[0] == Node::Add(delta));
                    assert(body =~= seq![Node::Add(delta)]);
                    assert(false);
                }
            },
            _ => {},
        }
    }
}

/// Idempotence: a pass that only clears loops, applied to what it made of a
/// program, changes nothing more.
pub proof fn lemma_optimize_twice<R: OptimizationRule>(rules: Seq<R>, ops: Seq<Node>)
    requires
        only_clears_loops(rules),
    ensures
        optimize_nodes(rules, optimize_nodes(rules, ops)) == optimize_nodes(rules, ops),
    decreases ops, 1int,
{
    let once = optimize_nodes(rules, ops);
    let twice = optimize_nodes(rules, once);
    lemma_clearing_is_pointwise(rules, ops);
    lemma_clearing_is_pointwise(rules, once);
    assert forall|i: int| 0 <= i < ops.len() implies twice[i] == once[i] by {
        lemma_cleared_twice(rules, ops[i]);
        assert(once[i] == cleared(rules, ops[i]));
        assert(twice[i] == cleared(rules, once[i]));
    }
    assert(twice =~= once);
}

/// Idempotence for the default optimizer: optimizing what it made of a
/// program gives that again.
pub proof fn lemma_default_optimizer_idempotent(ops: Seq<Node>)
    ensures
        optimize_nodes(default_rules(), optimize_nodes(default_rules(), ops)) == optimize_nodes(
            default_rules(),
            ops,
        ),
{
    lemma_default_rules_only_clear_loops();
    lemma_optimize_twice(default_rules(), ops);
}

/// The default rules do what the clear-loop rule alone does.
pub proof fn lemma_default_rules_only_clear_loops()
    ensures
        only_clears_loops(default_rules()),
{
    let rules = default_rules();
    assert forall|ops: Seq<Node>| #[trigger]
        first_match(rules, ops, 0) == clear_loop_rewrite(ops) by {
        assert(rules[0].rewrite(ops) == clear_loop_rewrite(ops));
        assert(first_match(rules, ops, 1) is None);
    }
}

/// The run of cell changes that holds `from` ends within the operations,
/// and holds nothing but cell changes.
pub proof fn lemma_add_run_holds_adds(ops: Seq<Node>, from: int)
    requires
        0 <= from <= ops.len(),
    ensures
        from <= add_run(ops, from) <= ops.len(),
        forall|j: int| from <= j < add_run(ops, from) ==> (#[trigger] ops[j]) is Add,
    decreases ops.len() - from,
{
    if from < ops.len() && ops[from] is Add {
        lemma_add_run_holds_adds(ops, from + 1);
    }
}

/// The cell value that `value + sum` is modulo 256.
pub open spec fn cell_plus(value: u8, sum: int) -> u8 {
    ((value + sum) % 256) as u8
}

/// Changing a cell by `sum` and then by `delta` changes it by their sum.
pub proof fn lemma_cell_plus_step(value: u8, sum: int, delta: i8)
    ensures
        crate::interpreter::wrap_cell(cell_plus(value, sum), delta) == cell_plus(
            value,
            sum + delta,
        ),
{
    let first = (value + sum) % 256;
    let d = delta as int;
    assert((first + d) % 256 == (value + sum + d) % 256) by {
        vstd::arithmetic::div_mod::lemma_add_mod_noop(value + sum, d, 256);
        vstd::arithmetic::div_mod::lemma_add_mod_noop(first, d, 256);
        vstd::arithmetic::div_mod::lemma_mod_twice(value + sum, 256);
    }
}

/// Executing `count` cell changes one after the other changes the cell by
/// their sum modulo 256 and nothing else.
pub proof fn lemma_adds_sum_up(ops: Seq<Node>, count: int, w: World)
    requires
        w.well_formed(),
        0 <= count <= ops.len(),
        forall|j: int| 0 <= j < count ==> (#[trigger] ops[j]) is Add,
    ensures
        run(ops.take(count), w, count as nat) == Outcome::Finished(
            with_cell(w, cell_plus(w.cell(), add_sum(ops, count))),
        ),
    decreases count,
{
    if count == 0 {
        assert(with_cell(w, cell_plus(w.cell(), 0)).cells =~= w.cells);
        assert(with_cell(w, cell_plus(w.cell(), 0)) == w);
    } else {
        let front = ops.take(count - 1);
        let delta = ops[count - 1]->Add_0;
        let last = seq![Node::Add(delta)];
        assert(ops[count - 1] is Add);
        assert(ops[count - 1] == Node::Add(delta));
        lemma_adds_sum_up(ops, count - 1, w);
        let middle = with_cell(w, cell_plus(w.cell(), add_sum(ops, count - 1)));
        let end = with_cell(w, cell_plus(w.cell(), add_sum(ops, count)));
        assert(last[0] == Node::Add(delta));
        assert(last.skip(1) =~= Seq::<Node>::empty());
        assert(middle.cell() == cell_plus(w.cell(), add_sum(ops, count - 1)));
        lemma_cell_plus_step(w.cell(), add_sum(ops, count - 1), delta);
        assert(add_sum(ops, count) == add_sum(ops, count - 1) + delta);
        assert(crate::interpreter::wrap_cell(middle.cell(), delta) == cell_plus(
            w.cell(),
            add_sum(ops, count),
        ));
        assert(with_cell(middle, cell_plus(w.cell(), add_sum(ops, count))).cells =~= end.cells);
        assert(crate::interpreter::perform(Node::Add(delta), middle) == Ok::<
            World,
            InterpreterError,
        >(end));
        assert(run(last.skip(1), end, 0) == Outcome::Finished(end));
        assert(run(last, middle, 1) == run(last.skip(1), end, 0));
        lemma_run_join(front, last, w, (count - 1) as nat, middle, 1);
        assert(front + last =~= ops.take(count));
    }
}

/// The net change of a sum changes a cell as the sum does, and where it is
/// zero the cell keeps its value.
pub proof fn lemma_net_change(value: u8, sum: int)
    ensures
        -128 <= wrap_cell_delta(sum) <= 127,
        wrap_cell_delta(sum) == 0 ==> cell_plus(value, sum) == value,
        crate::interpreter::wrap_cell(value, wrap_cell_delta(sum) as i8) == cell_plus(value, sum),
{
    let net = wrap_cell_delta(sum);
    let k = (sum + 128) / 256;
    vstd::arithmetic::div_mod::lemma_fundamental_div_mod(sum + 128, 256);
    assert(sum == 256 * k + net);
    vstd::arithmetic::div_mod::lemma_mod_multiples_vanish(k, value + net, 256);
    assert((value + sum) % 256 == (value + net) % 256);
}

/// Where the rule that merges cell changes matches, what it puts in place
/// is equivalent to the run that it replaces.
pub proof fn lemma_byte_adjustment_preserves(ops: Seq<Node>)
    ensures
        match byte_adjustment_rewrite(ops) {
            Some((replacement, consumed)) => equivalent(ops.take(consumed as int), replacement),
            None => true,
        },
{
    let count = add_run(ops, 0);
    if count > 1 {
        lemma_add_run_holds_adds(ops, 0);
        let sum = add_sum(ops, count);
        let net = wrap_cell_delta(sum);
        let replacement = byte_adjustment_rewrite(ops)->Some_0.0;
        assert forall|w: World| w.well_formed() implies !(#[trigger] run(
            ops.take(count),
            w,
            count as nat,
        ) is OutOfFuel) && run(ops.take(count), w, count as nat) == run(replacement, w, 1) by {
            lemma_adds_sum_up(ops, count, w);
            lemma_net_change(w.cell(), sum);
            let end = with_cell(w, cell_plus(w.cell(), sum));
            if net == 0 {
                assert(end.cells =~= w.cells);
                assert(end == w);
            } else {
                assert(replacement[0] == Node::Add(net as i8));
                assert(replacement.skip(1) =~= Seq::<Node>::empty());
                assert(crate::interpreter::perform(Node::Add(net as i8), w) == Ok::<
                    World,
                    InterpreterError,
                >(end));
                assert(run(replacement.skip(1), end, 0) == Outcome::Finished(end));
                assert(run(replacement, w, 1) == run(replacement.skip(1), end, 0));
            }
        }
        lemma_equivalent_when_both_end(ops.take(count), replacement, count as nat, 1);
    }
}

/// The rule that merges cell changes is sound.
pub proof fn lemma_byte_adjustment_rule_sound()
    ensures
        sound(ByteAdjustmentRule {  }),
        sound(BuiltinRule::ByteAdjustment(ByteAdjustmentRule {  })),
{
    let rule = ByteAdjustmentRule {  };
    assert forall|ops: Seq<Node>|
        match #[trigger] rule.rewrite(ops) {
            Some((replacement, consumed)) => 1 <= consumed <= ops.len() ==> equivalent(
                ops.take(consumed as int),
                replacement,
            ),
            None => true,
        } by {
        assert(rule.rewrite(ops) == byte_adjustment_rewrite(ops));
        lemma_byte_adjustment_preserves(ops);
    }
    let builtin = BuiltinRule::ByteAdjustment(rule);
    assert forall|ops: Seq<Node>|
        match #[trigger] builtin.rewrite(ops) {
            Some((replacement, consumed)) => 1 <= consumed <= ops.len() ==> equivalent(
                ops.take(consumed as int),
                replacement,
            ),
            None => true,
        } by {
        assert(builtin.rewrite(ops) == byte_adjustment_rewrite(ops));
        lemma_byte_adjustment_preserves(ops);
    }
}

/// The rule that merges pointer moves is not sound: on the first cell, a
/// step to the left and one back fail, and the nothing that the rule puts
/// in their place does not.
pub proof fn lemma_pointer_adjustment_rule_not_sound()
    ensures
        !sound(PointerAdjustmentRule {  }),
{
    let rule = PointerAdjustmentRule {  };
    let ops = seq![Node::Move(-1isize), Node::Move(1isize)];
    let w = World {
        cells: seq![0u8],
        pointer: 0,
        input: Seq::empty(),
        sink: Seq::empty(),
        output: Seq::empty(),
    };
    assert(ops[0] == Node::Move(-1isize));
    assert(ops[1] == Node::Move(1isize));
    reveal_with_fuel(crate::optimizer::rules::move_run, 3);
    reveal_with_fuel(crate::optimizer::rules::move_sum, 3);
    assert(crate::optimizer::rules::move_run(ops, 0) == 2);
    assert(crate::optimizer::rules::move_sum(ops, 0) == 0);
    assert(crate::optimizer::rules::move_sum(ops, 1) == -1);
    assert(crate::optimizer::rules::move_sum(ops, 2) == 0);
    assert(crate::optimizer::rules::moves_fit(ops, 2)) by {
        assert forall|k: int| 0 <= k <= 2 implies isize::MIN
            <= #[trigger] crate::optimizer::rules::move_sum(ops, k) <= isize::MAX by {
            if k == 0 {
            } else if k == 1 {
            } else {
            }
        }
    }
    assert(rule.rewrite(ops) == Some((Seq::<Node>::empty(), 2nat)));
    assert(ops.take(2) =~= ops);
    if sound(rule) {
        assert(equivalent(ops.take(2), Seq::<Node>::empty()));
        assert(run(Seq::<Node>::empty(), w, 0) == Outcome::Finished(w));
        assert(w.well_formed());
        let other = choose|other: nat| run(ops, w, other) == run(Seq::<Node>::empty(), w, 0);
        assert(run(ops, w, other) == Outcome::Finished(w));
        assert(crate::interpreter::perform(Node::Move(-1isize), w) is Err);
        assert(false);
    }
}

/// Whether no rule matches at `node` or anywhere in it.
pub open spec fn node_settled<R: OptimizationRule>(rules: Seq<R>, node: Node) -> bool
    decreases node, 0int,
{
    match node {
        Node::Loop(body) => settled(rules, body),
        _ => true,
    }
}

/// Whether no rule matches at any position of `ops`, nor at any position of
/// a loop body in it.
pub open spec fn settled<R: OptimizationRule>(rules: Seq<R>, ops: Seq<Node>) -> bool
    decreases ops, 1int,
{
    if ops.len() == 0 {
        true
    } else {
        &&& match first_match(rules, ops, 0) {
            Some((_, consumed)) => !(1 <= consumed <= ops.len()),
            None => true,
        }
        &&& node_settled(rules, ops[0])
        &&& settled(rules, ops.skip(1))
    }
}

/// A pass leaves a node at which no rule matches as it is.
pub proof fn lemma_settled_node_is_kept<R: OptimizationRule>(rules: Seq<R>, node: Node)
    requires
        node_settled(rules, node),
    ensures
        descend(rules, node) == node,
    decreases node, 0int,
{
    match node {
        Node::Loop(body) => {
            lemma_settled_is_kept(rules, body);
        },
        _ => {},
    }
}

/// A pass leaves a program in which no rule matches as it is. So a second
/// pass changes nothing wherever the first left no match behind.
pub proof fn lemma_settled_is_kept<R: OptimizationRule>(rules: Seq<R>, ops: Seq<Node>)
    requires
        settled(rules, ops),
    ensures
        optimize_nodes(rules, ops) == ops,
    decreases ops, 1int,
{
    if ops.len() == 0 {
        assert(optimize_nodes(rules, ops) =~= ops);
    } else {
        lemma_settled_node_is_kept(rules, ops[0]);
        lemma_settled_is_kept(rules, ops.skip(1));
        assert(seq![ops[0]] + ops.skip(1) =~= ops);
    }
}

/// With no rules, nothing matches anywhere.
pub proof fn lemma_no_rules_settle_all<R: OptimizationRule>(rules: Seq<R>, ops: Seq<Node>)
    requires
        rules.len() == 0,
    ensures
        settled(rules, ops),
        optimize_nodes(rules, ops) == ops,
    decreases ops, 1int,
{
    if ops.len() > 0 {
        match ops[0] {
            Node::Loop(body) => {
                lemma_no_rules_settle_all(rules, body);
            },
            _ => {},
        }
        lemma_no_rules_settle_all(rules, ops.skip(1));
        assert(first_match(rules, ops, 0) is None);
        assert(node_settled(rules, ops[0]));
        assert(settled(rules, ops.skip(1)));
    }
    assert(settled(rules, ops));
    lemma_settled_is_kept(rules, ops);
}

} // verus!
