use bf_rs::lexer::Lexer;
use bf_rs::optimizer::BuiltinRule;
use bf_rs::optimizer::ByteAdjustmentRule;
use bf_rs::optimizer::ClearLoopRule;
use bf_rs::optimizer::OptimizationRule;
use bf_rs::optimizer::Optimizer;
use bf_rs::optimizer::PointerAdjustmentRule;
use bf_rs::parser::BfOp;
use bf_rs::parser::OptimizedOp;
use bf_rs::parser::Parser;

fn parse(source: &str) -> Vec<BfOp> {
    let mut lexer = Lexer::new(source);
    let tokens = lexer.tokenize();
    Parser::new(tokens).parse().unwrap()
}

fn clear() -> BfOp {
    BfOp::Optimized(OptimizedOp::ClearCell)
}

#[test]
fn default_optimizer_rewrites_clear_loops() {
    let optimizer = Optimizer::new();
    assert_eq!(optimizer.optimize(parse("[-]")), vec![clear()]);
    assert_eq!(optimizer.optimize(parse("[+]")), vec![clear()]);
    assert_eq!(
        optimizer.optimize(parse("+[-].[+]")),
        vec![BfOp::Increment(1), clear(), BfOp::OutputByte, clear()]
    );
}

#[test]
fn default_optimizer_descends_into_loops() {
    let optimizer = Optimizer::new();
    assert_eq!(
        optimizer.optimize(parse("[>[-]<[[+]]]")),
        vec![BfOp::Loop(vec![
            BfOp::PointerIncrement(1),
            clear(),
            BfOp::PointerIncrement(-1),
            BfOp::Loop(vec![clear()]),
        ])]
    );
}

#[test]
fn default_optimizer_leaves_other_loops_alone() {
    let optimizer = Optimizer::new();
    for source in ["[--]", "[+++]", "[]", "[->+<]", "[.]", "[-.]"] {
        assert_eq!(optimizer.optimize(parse(source)), parse(source));
    }
}

#[test]
fn empty_optimizer_changes_nothing() {
    let optimizer: Optimizer = Optimizer::empty();
    let program = parse("+[-]>[[+]<,.]");
    assert_eq!(optimizer.optimize(program.clone()), program);
}

#[test]
fn optimizing_twice_changes_nothing_more() {
    let optimizer = Optimizer::new();
    for source in ["[-]", "+[[-]>[+]<]", "[[[-]]]", "++>[-]<[->+<]", ""] {
        let once = optimizer.optimize(parse(source));
        let twice = optimizer.optimize(once.clone());
        assert_eq!(once, twice);
    }
}

#[test]
fn first_matching_rule_wins() {
    let mut optimizer: Optimizer = Optimizer::empty();
    optimizer.register_rule(BuiltinRule::ByteAdjustment(ByteAdjustmentRule {}));
    optimizer.register_rule(BuiltinRule::PointerAdjustment(PointerAdjustmentRule {}));
    optimizer.register_rule(BuiltinRule::ClearLoop(ClearLoopRule {}));
    let program = vec![
        BfOp::Increment(2),
        BfOp::Increment(-5),
        BfOp::PointerIncrement(4),
        BfOp::PointerIncrement(-4),
        BfOp::Loop(vec![BfOp::Increment(1)]),
        BfOp::Loop(vec![BfOp::Increment(1), BfOp::Increment(1), BfOp::OutputByte]),
    ];
    assert_eq!(
        optimizer.optimize(program),
        vec![
            BfOp::Increment(-3),
            clear(),
            BfOp::Loop(vec![BfOp::Increment(2), BfOp::OutputByte]),
        ]
    );
}

#[test]
fn loop_bodies_are_not_merged_with_their_surroundings() {
    let mut optimizer: Optimizer = Optimizer::empty();
    optimizer.register_rule(BuiltinRule::ByteAdjustment(ByteAdjustmentRule {}));
    let program = vec![
        BfOp::Increment(1),
        BfOp::Loop(vec![BfOp::Increment(1), BfOp::Increment(1)]),
        BfOp::Increment(1),
    ];
    assert_eq!(
        optimizer.optimize(program),
        vec![BfOp::Increment(1), BfOp::Loop(vec![BfOp::Increment(2)]), BfOp::Increment(1)]
    );
}

#[test]
fn copies_are_equal_to_what_was_copied() {
    let program = parse("+[>[-]<,.]");
    assert_eq!(bf_rs::parser::clone_ops(&program), program);
    assert_eq!(bf_rs::parser::clone_op(&program[1]), program[1]);
    assert_eq!(program[1].clone(), program[1]);
}

#[test]
fn merging_rules_can_leave_new_matches_behind() {
    let mut optimizer: Optimizer = Optimizer::empty();
    optimizer.register_rule(BuiltinRule::ByteAdjustment(ByteAdjustmentRule {}));
    optimizer.register_rule(BuiltinRule::PointerAdjustment(PointerAdjustmentRule {}));
    let program = vec![
        BfOp::Increment(3),
        BfOp::PointerIncrement(1),
        BfOp::PointerIncrement(-1),
        BfOp::Increment(4),
    ];
    let once = optimizer.optimize(program);
    assert_eq!(once, vec![BfOp::Increment(3), BfOp::Increment(4)]);
    let twice = optimizer.optimize(once);
    assert_eq!(twice, vec![BfOp::Increment(7)]);
}

#[test]
fn merging_cell_changes_alone_settles_in_one_pass() {
    let mut optimizer: Optimizer = Optimizer::empty();
    optimizer.register_rule(BuiltinRule::ByteAdjustment(ByteAdjustmentRule {}));
    let program = vec![
        BfOp::Increment(3),
        BfOp::Increment(-3),
        BfOp::Increment(100),
        BfOp::OutputByte,
        BfOp::Loop(vec![BfOp::Increment(100), BfOp::Increment(100)]),
        BfOp::Increment(1),
    ];
    let once = optimizer.optimize(program);
    assert_eq!(
        once,
        vec![
            BfOp::Increment(100),
            BfOp::OutputByte,
            BfOp::Loop(vec![BfOp::Increment(-56)]),
            BfOp::Increment(1),
        ]
    );
    assert_eq!(optimizer.optimize(once.clone()), once);
}

#[test]
fn boxed_rules_of_different_types_share_one_list() {
    let mut optimizer: Optimizer<Box<dyn OptimizationRule>> = Optimizer::empty();
    optimizer.register_rule(Box::new(ClearLoopRule {}));
    optimizer.register_rule(Box::new(ByteAdjustmentRule {}));
    optimizer.register_rule(Box::new(PointerAdjustmentRule {}));
    let program = vec![
        BfOp::Increment(1),
        BfOp::Increment(1),
        BfOp::Loop(vec![BfOp::Increment(-1)]),
        BfOp::InputByte,
        BfOp::Loop(vec![BfOp::PointerIncrement(2), BfOp::PointerIncrement(3), BfOp::OutputByte]),
    ];
    assert_eq!(
        optimizer.optimize(program),
        vec![
            BfOp::Increment(2),
            clear(),
            BfOp::InputByte,
            BfOp::Loop(vec![BfOp::PointerIncrement(5), BfOp::OutputByte]),
        ]
    );
}
