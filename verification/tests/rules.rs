use bf_rs::optimizer::ByteAdjustmentRule;
use bf_rs::optimizer::ClearLoopRule;
use bf_rs::optimizer::OptimizationRule;
use bf_rs::optimizer::PointerAdjustmentRule;
use bf_rs::parser::BfOp;
use bf_rs::parser::OptimizedOp;

/// A cell change upwards by `count`, modulo 256.
fn increment_byte(count: u8) -> BfOp {
    BfOp::Increment(count as i8)
}

/// A cell change downwards by `count`, modulo 256.
fn decrement_byte(count: u8) -> BfOp {
    BfOp::Increment((count as i8).wrapping_neg())
}

fn increment_pointer(count: isize) -> BfOp {
    BfOp::PointerIncrement(count)
}

fn decrement_pointer(count: isize) -> BfOp {
    BfOp::PointerIncrement(-count)
}

#[test]
fn test_byte_adjustment_rule() {
    let rule = ByteAdjustmentRule {};

    // Increment and decrement operations
    let ops = vec![increment_byte(5), decrement_byte(3), increment_byte(2)];
    let result = rule.apply(&ops);
    assert_eq!(result, Some((vec![increment_byte(4)], 3)));

    // No net change
    let ops = vec![increment_byte(5), decrement_byte(5)];
    let result = rule.apply(&ops);
    assert_eq!(result, Some((vec![], 2)));

    // Single operation
    let ops = vec![increment_byte(5)];
    let result = rule.apply(&ops);
    assert_eq!(result, None);

    // Empty input
    let ops: Vec<BfOp> = vec![];
    let result = rule.apply(&ops);
    assert_eq!(result, None);

    // Wrapping from positive to negative
    let ops = vec![increment_byte(255), increment_byte(2)];
    let result = rule.apply(&ops);
    assert_eq!(result, Some((vec![increment_byte(1)], 2)));

    // Wrapping from negative to positive
    let ops = vec![decrement_byte(255), decrement_byte(2)];
    let result = rule.apply(&ops);
    assert_eq!(result, Some((vec![decrement_byte(1)], 2)));

    // Large increments that wrap: (200 + 200) % 256 = 144, which is 112 downwards
    let ops = vec![increment_byte(200), increment_byte(200)];
    let result = rule.apply(&ops);
    assert_eq!(result, Some((vec![decrement_byte(112)], 2)));

    // Large decrements that wrap: -400 is 112 upwards modulo 256
    let ops = vec![decrement_byte(200), decrement_byte(200)];
    let result = rule.apply(&ops);
    assert_eq!(result, Some((vec![increment_byte(112)], 2)));
}

#[test]
fn test_pointer_adjustment_rule() {
    let rule = PointerAdjustmentRule {};

    // Basic sequence of increments and decrements: +1 - 1 + 1 = +1
    let ops = vec![increment_pointer(1), decrement_pointer(1), increment_pointer(1)];
    let result = rule.apply(&ops);
    assert_eq!(result, Some((vec![increment_pointer(1)], 3)));

    // Net left movement: -1 + 1 - 1 = -1
    let ops = vec![decrement_pointer(1), increment_pointer(1), decrement_pointer(1)];
    let result = rule.apply(&ops);
    assert_eq!(result, Some((vec![decrement_pointer(1)], 3)));

    // No net movement
    let ops = vec![increment_pointer(2), decrement_pointer(2)];
    let result = rule.apply(&ops);
    assert_eq!(result, Some((vec![], 2)));

    // Only increments
    let ops = vec![increment_pointer(3), increment_pointer(2)];
    let result = rule.apply(&ops);
    assert_eq!(result, Some((vec![increment_pointer(5)], 2)));

    // Only decrements
    let ops = vec![decrement_pointer(4), decrement_pointer(1)];
    let result = rule.apply(&ops);
    assert_eq!(result, Some((vec![decrement_pointer(5)], 2)));

    // Single operation (should not apply)
    let ops = vec![increment_pointer(1)];
    let result = rule.apply(&ops);
    assert_eq!(result, None);

    // Empty input (should not apply)
    let ops: Vec<BfOp> = vec![];
    let result = rule.apply(&ops);
    assert_eq!(result, None);

    // Sequence followed by a non-pointer operation
    let ops = vec![
        increment_pointer(1),
        decrement_pointer(1),
        increment_byte(1),
        increment_pointer(1),
    ];
    let result = rule.apply(&ops);
    assert_eq!(result, Some((vec![], 2)));

    // Overflow to the right (should return None)
    let ops = vec![BfOp::PointerIncrement(isize::MAX), increment_pointer(1)];
    let result = rule.apply(&ops);
    assert_eq!(result, None);

    // Overflow to the left (should return None)
    let ops = vec![BfOp::PointerIncrement(isize::MIN), decrement_pointer(1)];
    let result = rule.apply(&ops);
    assert_eq!(result, None);

    // Large but non-overflowing shifts
    let ops = vec![increment_pointer(100000), decrement_pointer(50000)];
    let result = rule.apply(&ops);
    assert_eq!(result, Some((vec![increment_pointer(50000)], 2)));
}

#[test]
fn pointer_adjustment_overflow_in_the_middle_of_a_run() {
    let rule = PointerAdjustmentRule {};
    let ops = vec![
        BfOp::PointerIncrement(isize::MAX),
        BfOp::PointerIncrement(1),
        BfOp::PointerIncrement(-5),
    ];
    assert_eq!(rule.apply(&ops), None);
}

#[test]
fn byte_adjustment_stops_at_other_operations() {
    let rule = ByteAdjustmentRule {};
    let ops = vec![
        BfOp::Increment(100),
        BfOp::Increment(100),
        BfOp::OutputByte,
        BfOp::Increment(1),
    ];
    assert_eq!(rule.apply(&ops), Some((vec![BfOp::Increment(-56)], 2)));
    let ops = vec![BfOp::Increment(-128), BfOp::Increment(-128)];
    assert_eq!(rule.apply(&ops), Some((vec![], 2)));
}

#[test]
fn clear_loop_rule_matches_only_loops_of_one_step() {
    let rule = ClearLoopRule {};
    let clear = vec![BfOp::Optimized(OptimizedOp::ClearCell)];

    let ops = vec![BfOp::Loop(vec![BfOp::Increment(-1)]), BfOp::OutputByte];
    assert_eq!(rule.apply(&ops), Some((clear.clone(), 1)));
    let ops = vec![BfOp::Loop(vec![BfOp::Increment(1)])];
    assert_eq!(rule.apply(&ops), Some((clear, 1)));

    assert_eq!(rule.apply(&[BfOp::Loop(vec![BfOp::Increment(2)])]), None);
    assert_eq!(rule.apply(&[BfOp::Loop(vec![BfOp::Increment(-3)])]), None);
    assert_eq!(rule.apply(&[BfOp::Loop(vec![])]), None);
    assert_eq!(
        rule.apply(&[BfOp::Loop(vec![BfOp::Increment(-1), BfOp::Increment(-1)])]),
        None
    );
    assert_eq!(rule.apply(&[BfOp::Loop(vec![BfOp::PointerIncrement(1)])]), None);
    assert_eq!(rule.apply(&[BfOp::Increment(-1)]), None);
    assert_eq!(rule.apply(&[]), None);
}
