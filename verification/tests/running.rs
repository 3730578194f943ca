use bf_rs::interpreter::Action;
use bf_rs::interpreter::Event;
use bf_rs::interpreter::Interpreter;
use bf_rs::interpreter::InterpreterError;
use bf_rs::lexer::Lexer;
use bf_rs::optimizer::Optimizer;
use bf_rs::parser::BfOp;
use bf_rs::parser::OptimizedOp;
use bf_rs::parser::Parser;

fn parse(source: &str) -> Vec<BfOp> {
    let mut lexer = Lexer::new(source);
    let tokens = lexer.tokenize();
    Parser::new(tokens).parse().unwrap()
}

/// Serves the machine from `input` until the run ends, and collects what it writes.
fn drive<'a>(
    interpreter: &mut Interpreter<'a>,
    program: &'a [BfOp],
    input: &[u8],
    budget: usize,
) -> (Result<(), InterpreterError>, Vec<u8>) {
    let mut output = Vec::new();
    let mut unread = input.iter();
    let mut action = interpreter.execute(program, budget);
    loop {
        let event = match action {
            Action::Halt => return (Ok(()), output),
            Action::Fail(e) => return (Err(e), output),
            Action::Yield => Event::Idle,
            Action::Write(byte) => {
                output.push(byte);
                Event::Written
            }
            Action::Read => match unread.next() {
                Some(byte) => Event::Byte(*byte),
                None => Event::EndOfInput,
            },
        };
        action = interpreter.resume(event, budget);
    }
}

fn run(program: &[BfOp], input: &[u8]) -> (Result<(), InterpreterError>, Vec<u8>) {
    let mut interpreter = Interpreter::new();
    drive(&mut interpreter, program, input, 1000)
}

#[test]
fn fresh_interpreter_has_thirty_thousand_zero_cells() {
    let interpreter = Interpreter::new();
    assert_eq!(interpreter.memory().len(), 30_000);
    assert!(interpreter.memory().iter().all(|cell| *cell == 0));
    assert_eq!(interpreter.pointer(), 0);
    assert_eq!(interpreter.current_cell(), 0);
}

#[test]
fn an_empty_program_halts_at_once() {
    let mut interpreter = Interpreter::new();
    assert!(matches!(interpreter.execute(&[], 0), Action::Halt));
    assert!(matches!(interpreter.resume(Event::Idle, 0), Action::Halt));
}

#[test]
fn cell_changes_wrap_around() {
    let program = vec![BfOp::Increment(-1)];
    let mut interpreter = Interpreter::new();
    assert!(matches!(interpreter.execute(&program, 10), Action::Halt));
    assert_eq!(interpreter.current_cell(), 255);

    let again = vec![BfOp::Increment(1)];
    assert!(matches!(interpreter.execute(&again, 10), Action::Halt));
    assert_eq!(interpreter.current_cell(), 0);

    let program = vec![BfOp::Increment(127), BfOp::Increment(127), BfOp::Increment(3)];
    let mut interpreter = Interpreter::new();
    assert!(matches!(interpreter.execute(&program, 10), Action::Halt));
    assert_eq!(interpreter.current_cell(), 1);

    let program = vec![BfOp::Increment(-128), BfOp::Increment(-128), BfOp::Increment(-128)];
    let mut interpreter = Interpreter::new();
    assert!(matches!(interpreter.execute(&program, 10), Action::Halt));
    assert_eq!(interpreter.current_cell(), 128);
}

#[test]
fn clear_loop_ends_at_zero_from_every_value() {
    let plain = parse("[-]");
    let optimized = Optimizer::new().optimize(parse("[-]"));
    assert_eq!(optimized, vec![BfOp::Optimized(OptimizedOp::ClearCell)]);
    for start in 0..=255u8 {
        let input = [start];
        let read = vec![BfOp::InputByte];

        let mut interpreter = Interpreter::new();
        let (result, _) = drive(&mut interpreter, &read, &input, 1000);
        assert!(result.is_ok());
        assert_eq!(interpreter.current_cell(), start);
        let (result, output) = drive(&mut interpreter, &plain, &[], 1000);
        assert!(result.is_ok());
        assert!(output.is_empty());
        assert_eq!(interpreter.current_cell(), 0);
        let plain_memory = interpreter.memory().to_vec();

        let mut interpreter = Interpreter::new();
        let (result, _) = drive(&mut interpreter, &read, &input, 1000);
        assert!(result.is_ok());
        let (result, output) = drive(&mut interpreter, &optimized, &[], 1000);
        assert!(result.is_ok());
        assert!(output.is_empty());
        assert_eq!(interpreter.current_cell(), 0);
        assert_eq!(interpreter.memory(), &plain_memory[..]);
        assert_eq!(interpreter.pointer(), 0);
    }
}

#[test]
fn plus_clear_loop_ends_at_zero_too() {
    let program = parse("+++[+]");
    let mut interpreter = Interpreter::new();
    let (result, _) = drive(&mut interpreter, &program, &[], 7);
    assert!(result.is_ok());
    assert_eq!(interpreter.current_cell(), 0);
}

#[test]
fn moving_left_of_the_first_cell_fails() {
    let program = parse("<");
    let mut interpreter = Interpreter::new();
    let action = interpreter.execute(&program, 10);
    assert!(matches!(
        action,
        Action::Fail(InterpreterError::PointerUnderflow { position: 0, attempted_move: 1 })
    ));
    assert_eq!(interpreter.pointer(), 0);
}

#[test]
fn underflow_reports_position_and_distance() {
    let program = parse(">>><<<<<");
    assert_eq!(program, vec![BfOp::PointerIncrement(-2)]);
    let program = vec![BfOp::PointerIncrement(3), BfOp::PointerIncrement(-5)];
    let (result, _) = run(&program, &[]);
    assert!(matches!(
        result,
        Err(InterpreterError::PointerUnderflow { position: 3, attempted_move: 5 })
    ));
    let program = vec![BfOp::PointerIncrement(isize::MIN)];
    let (result, _) = run(&program, &[]);
    match result {
        Err(InterpreterError::PointerUnderflow { position, attempted_move }) => {
            assert_eq!(position, 0);
            assert_eq!(attempted_move, isize::MAX as usize + 1);
        }
        other => panic!("unexpected {:?}", other),
    }
}

#[test]
fn what_was_done_before_a_failure_remains() {
    let program = parse("+++.>++<<.");
    let mut interpreter = Interpreter::new();
    let (result, output) = drive(&mut interpreter, &program, &[], 1000);
    assert!(matches!(
        result,
        Err(InterpreterError::PointerUnderflow { position: 1, attempted_move: 2 })
    ));
    assert_eq!(output, vec![3]);
    assert_eq!(interpreter.memory()[0], 3);
    assert_eq!(interpreter.memory()[1], 2);
    assert_eq!(interpreter.pointer(), 1);
}

#[test]
fn moving_back_to_the_first_cell_succeeds() {
    let program = vec![BfOp::PointerIncrement(4), BfOp::PointerIncrement(-4)];
    let mut interpreter = Interpreter::new();
    let (result, _) = drive(&mut interpreter, &program, &[], 1000);
    assert!(result.is_ok());
    assert_eq!(interpreter.pointer(), 0);
    assert_eq!(interpreter.memory().len(), 30_000);
}

#[test]
fn the_tape_grows_with_the_pointer() {
    let source = ">".repeat(30_005);
    let program = parse(&source);
    assert_eq!(program, vec![BfOp::PointerIncrement(30_005)]);
    let mut interpreter = Interpreter::new();
    let (result, _) = drive(&mut interpreter, &program, &[], 1000);
    assert!(result.is_ok());
    assert_eq!(interpreter.pointer(), 30_005);
    assert_eq!(interpreter.memory().len(), 30_006);
    assert_eq!(interpreter.current_cell(), 0);
    assert!(interpreter.memory().iter().all(|cell| *cell == 0));
}

#[test]
fn the_tape_grows_step_by_step_and_keeps_its_cells() {
    let mut program = vec![BfOp::Increment(7)];
    for _ in 0..30_010 {
        program.push(BfOp::PointerIncrement(1));
        program.push(BfOp::OutputByte);
    }
    program.push(BfOp::Increment(5));
    let mut interpreter = Interpreter::new();
    let (result, output) = drive(&mut interpreter, &program, &[], 3);
    assert!(result.is_ok());
    assert_eq!(output.len(), 30_010);
    assert!(output.iter().all(|byte| *byte == 0));
    assert_eq!(interpreter.pointer(), 30_010);
    assert_eq!(interpreter.memory().len(), 30_011);
    assert_eq!(interpreter.current_cell(), 5);
    assert_eq!(interpreter.memory()[0], 7);
}

#[test]
fn the_tape_never_shrinks() {
    let program = vec![BfOp::PointerIncrement(40_000), BfOp::PointerIncrement(-39_999)];
    let mut interpreter = Interpreter::new();
    let (result, _) = drive(&mut interpreter, &program, &[], 1000);
    assert!(result.is_ok());
    assert_eq!(interpreter.pointer(), 1);
    assert_eq!(interpreter.memory().len(), 40_001);
}

#[test]
fn a_move_past_the_last_possible_cell_fails() {
    let program = vec![BfOp::PointerIncrement(isize::MAX)];
    let mut interpreter = Interpreter::new();
    match interpreter.execute(&program, 10) {
        Action::Fail(InterpreterError::PointerOverflow { position, attempted_move }) => {
            assert_eq!(position, 0);
            assert_eq!(attempted_move, isize::MAX as usize);
        }
        other => panic!("unexpected {:?}", other),
    }
    assert_eq!(interpreter.pointer(), 0);
    assert_eq!(interpreter.memory().len(), 30_000);

    let program = vec![BfOp::PointerIncrement(5), BfOp::PointerIncrement(isize::MAX - 5)];
    let mut interpreter = Interpreter::new();
    assert!(matches!(
        interpreter.execute(&program, 10),
        Action::Fail(InterpreterError::PointerOverflow { position: 5, .. })
    ));
    assert_eq!(interpreter.pointer(), 5);
}

#[test]
fn input_at_the_end_leaves_the_cell_unchanged() {
    let program = parse("+++,");
    let mut interpreter = Interpreter::new();
    let (result, output) = drive(&mut interpreter, &program, &[], 1000);
    assert!(result.is_ok());
    assert!(output.is_empty());
    assert_eq!(interpreter.current_cell(), 3);

    let program = parse(",");
    let mut interpreter = Interpreter::new();
    let (result, _) = drive(&mut interpreter, &program, &[], 1000);
    assert!(result.is_ok());
    assert_eq!(interpreter.current_cell(), 0);
}

#[test]
fn input_is_stored_in_the_current_cell() {
    let program = parse(",>,>,");
    let mut interpreter = Interpreter::new();
    let (result, _) = drive(&mut interpreter, &program, &[65, 0], 1000);
    assert!(result.is_ok());
    assert_eq!(&interpreter.memory()[..3], &[65, 0, 0]);
    assert_eq!(interpreter.pointer(), 2);
}

#[test]
fn the_machine_waits_for_the_host_at_input_and_output() {
    let program = parse("+.,.");
    let mut interpreter = Interpreter::new();
    assert!(matches!(interpreter.execute(&program, 100), Action::Write(1)));
    assert!(matches!(interpreter.resume(Event::Idle, 100), Action::Write(1)));
    assert!(matches!(interpreter.resume(Event::Byte(9), 100), Action::Write(1)));
    assert!(matches!(interpreter.resume(Event::Written, 100), Action::Read));
    assert!(matches!(interpreter.resume(Event::Written, 100), Action::Read));
    assert!(matches!(interpreter.resume(Event::Byte(9), 100), Action::Write(9)));
    assert!(matches!(interpreter.resume(Event::Written, 100), Action::Halt));
}

#[test]
fn failed_reads_and_writes_abort_the_run() {
    let program = parse("+.,");
    let mut interpreter = Interpreter::new();
    assert!(matches!(interpreter.execute(&program, 100), Action::Write(1)));
    let cause = std::io::Error::new(std::io::ErrorKind::BrokenPipe, "closed");
    match interpreter.resume(Event::WriteFailed(cause), 100) {
        Action::Fail(InterpreterError::OutputError(e)) => {
            assert_eq!(e.kind(), std::io::ErrorKind::BrokenPipe)
        }
        other => panic!("unexpected {:?}", other),
    }

    let mut interpreter = Interpreter::new();
    assert!(matches!(interpreter.execute(&program, 100), Action::Write(1)));
    assert!(matches!(interpreter.resume(Event::Written, 100), Action::Read));
    let cause = std::io::Error::new(std::io::ErrorKind::PermissionDenied, "denied");
    match interpreter.resume(Event::ReadFailed(cause), 100) {
        Action::Fail(InterpreterError::InputError(e)) => {
            assert_eq!(e.kind(), std::io::ErrorKind::PermissionDenied)
        }
        other => panic!("unexpected {:?}", other),
    }
    assert_eq!(interpreter.current_cell(), 1);
}

#[test]
fn the_machine_yields_when_its_budget_is_used_up() {
    let program = parse("+[]");
    let mut interpreter = Interpreter::new();
    assert!(matches!(interpreter.execute(&program, 0), Action::Yield));
    assert_eq!(interpreter.current_cell(), 1);
    for _ in 0..100 {
        assert!(matches!(interpreter.resume(Event::Idle, 50), Action::Yield));
    }
    assert_eq!(interpreter.current_cell(), 1);
    assert_eq!(interpreter.pointer(), 0);
}

#[test]
fn the_budget_counts_the_steps_after_the_first() {
    let program = vec![BfOp::Increment(1), BfOp::Increment(1), BfOp::Increment(1)];
    let mut interpreter = Interpreter::new();
    assert!(matches!(interpreter.execute(&program, 1), Action::Yield));
    assert_eq!(interpreter.current_cell(), 2);
    assert!(matches!(interpreter.resume(Event::Idle, 0), Action::Yield));
    assert_eq!(interpreter.current_cell(), 3);
    assert!(matches!(interpreter.resume(Event::Idle, 0), Action::Halt));
}

#[test]
fn loops_run_while_the_cell_is_not_zero() {
    let program = parse("+++[>++<-]>.");
    let (result, output) = run(&program, &[]);
    assert!(result.is_ok());
    assert_eq!(output, vec![6]);

    let program = parse("[.]");
    let (result, output) = run(&program, &[]);
    assert!(result.is_ok());
    assert!(output.is_empty());
}

#[test]
fn hello_world_runs_the_same_with_and_without_the_optimizer() {
    let source = "++++++++[>++++[>++>+++>+++>+<<<<-]>+>+>->>+[<]<-]>>.>---.+++++++..+++.\
                  >>.<-.<.+++.------.--------.>>+.>++.";
    let program = parse(source);
    let (result, output) = run(&program, &[]);
    assert!(result.is_ok());
    assert_eq!(output, b"Hello World!\n".to_vec());

    let optimized = Optimizer::new().optimize(parse(source));
    let (result, output) = run(&optimized, &[]);
    assert!(result.is_ok());
    assert_eq!(output, b"Hello World!\n".to_vec());
}

#[test]
fn optimized_programs_behave_like_the_programs_they_came_from() {
    let sources = [
        "+++[-]+.",
        ",[-]+++.",
        ",[+].>,[[-]>+<]>.",
        "++[>+++[-]<-]>.<.",
        ",.[-]<",
        "+[[-]<]",
    ];
    for source in sources {
        let plain = parse(source);
        let optimized = Optimizer::new().optimize(parse(source));
        for input in [&[][..], &[1][..], &[200, 3][..]] {
            let mut first = Interpreter::new();
            let (plain_result, plain_output) = drive(&mut first, &plain, input, 64);
            let mut second = Interpreter::new();
            let (optimized_result, optimized_output) = drive(&mut second, &optimized, input, 64);
            assert_eq!(plain_output, optimized_output);
            assert_eq!(format!("{:?}", plain_result), format!("{:?}", optimized_result));
            assert_eq!(first.memory(), second.memory());
            assert_eq!(first.pointer(), second.pointer());
        }
    }
}

#[test]
fn merging_cell_changes_keeps_the_behaviour() {
    let mut optimizer: Optimizer = Optimizer::empty();
    optimizer.register_rule(bf_rs::optimizer::BuiltinRule::ByteAdjustment(
        bf_rs::optimizer::ByteAdjustmentRule {},
    ));
    let plain = vec![
        BfOp::Increment(100),
        BfOp::Increment(100),
        BfOp::Increment(100),
        BfOp::OutputByte,
        BfOp::Loop(vec![BfOp::Increment(-1), BfOp::Increment(-1), BfOp::OutputByte]),
    ];
    let optimized = optimizer.optimize(plain.clone());
    assert_eq!(optimized.len(), 3);
    let (plain_result, plain_output) = run(&plain, &[]);
    let (optimized_result, optimized_output) = run(&optimized, &[]);
    assert!(plain_result.is_ok() && optimized_result.is_ok());
    assert_eq!(plain_output.len(), 23);
    assert_eq!(plain_output[0], 44);
    assert_eq!(plain_output, optimized_output);
}

#[test]
fn merging_pointer_moves_can_hide_an_underflow() {
    let mut optimizer: Optimizer = Optimizer::empty();
    optimizer.register_rule(bf_rs::optimizer::BuiltinRule::PointerAdjustment(
        bf_rs::optimizer::PointerAdjustmentRule {},
    ));
    let plain = vec![BfOp::PointerIncrement(-1), BfOp::PointerIncrement(1)];
    let optimized = optimizer.optimize(plain.clone());
    assert_eq!(optimized, vec![]);
    let (plain_result, _) = run(&plain, &[]);
    let (optimized_result, _) = run(&optimized, &[]);
    assert!(matches!(
        plain_result,
        Err(InterpreterError::PointerUnderflow { position: 0, attempted_move: 1 })
    ));
    assert!(optimized_result.is_ok());
}
