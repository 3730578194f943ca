use bf_rs::lexer::Lexer;
use bf_rs::lexer::Token;
use bf_rs::parser::BfOp;
use bf_rs::parser::ClampWarning;
use bf_rs::parser::ParseError;
use bf_rs::parser::Parser;

fn parse(source: &str) -> Result<Vec<BfOp>, ParseError> {
    let mut lexer = Lexer::new(source);
    let tokens = lexer.tokenize();
    Parser::new(tokens).parse()
}

#[test]
fn lexer_keeps_the_eight_commands_in_order() {
    let mut lexer = Lexer::new("><+-.,[]");
    assert_eq!(
        lexer.tokenize(),
        vec![
            Token::IncrementPointer,
            Token::DecrementPointer,
            Token::IncrementByte,
            Token::DecrementByte,
            Token::OutputByte,
            Token::InputByte,
            Token::LoopStart,
            Token::LoopEnd,
        ]
    );
}

#[test]
fn lexer_drops_everything_else() {
    let mut lexer = Lexer::new("a + b\n\t- é [x] 12");
    assert_eq!(
        lexer.tokenize(),
        vec![Token::IncrementByte, Token::DecrementByte, Token::LoopStart, Token::LoopEnd]
    );
    assert_eq!(Lexer::new("").tokenize(), vec![]);
    assert_eq!(Lexer::new("hello world\n").tokenize(), vec![]);
}

#[test]
fn lexer_is_exhausted_after_tokenize() {
    let mut lexer = Lexer::new("+x-");
    assert_eq!(lexer.tokenize().len(), 2);
    assert_eq!(lexer.tokenize(), vec![]);
}

#[test]
fn token_symbols_round_trip() {
    for byte in 0..=255u8 {
        if let Some(token) = Token::from_byte(byte) {
            assert_eq!(token.symbol(), byte);
        } else {
            assert!(!b"><+-.,[]".contains(&byte));
        }
    }
    assert_eq!(Token::LoopStart.symbol(), b'[');
    assert!(Token::IncrementPointer.is_pointer_move());
    assert!(!Token::IncrementPointer.is_cell_change());
    assert!(Token::DecrementByte.is_cell_change());
}

#[test]
fn unmatched_loop_start_is_reported_at_its_position() {
    assert_eq!(parse("["), Err(ParseError::UnmatchedLoopStart { position: Some(0) }));
    assert_eq!(parse("+[-"), Err(ParseError::UnmatchedLoopStart { position: Some(1) }));
    assert_eq!(parse("[]["), Err(ParseError::UnmatchedLoopStart { position: Some(2) }));
}

#[test]
fn innermost_unterminated_loop_is_named() {
    assert_eq!(parse("[["), Err(ParseError::UnmatchedLoopStart { position: Some(1) }));
    assert_eq!(parse("[+[-]"), Err(ParseError::UnmatchedLoopStart { position: Some(0) }));
    assert_eq!(parse(".[.[.[."), Err(ParseError::UnmatchedLoopStart { position: Some(5) }));
}

#[test]
fn unmatched_loop_end_is_reported_at_its_position() {
    assert_eq!(parse("]"), Err(ParseError::UnmatchedLoopEnd { position: Some(0) }));
    assert_eq!(parse("[]]"), Err(ParseError::UnmatchedLoopEnd { position: Some(2) }));
    assert_eq!(parse("++]["), Err(ParseError::UnmatchedLoopEnd { position: Some(2) }));
    assert_eq!(parse("a]b"), Err(ParseError::UnmatchedLoopEnd { position: Some(0) }));
}

#[test]
fn first_error_wins() {
    assert_eq!(parse("]["), Err(ParseError::UnmatchedLoopEnd { position: Some(0) }));
    assert_eq!(parse("[]]["), Err(ParseError::UnmatchedLoopEnd { position: Some(2) }));
}

#[test]
fn nested_loops_parse() {
    assert_eq!(parse("[[]]"), Ok(vec![BfOp::Loop(vec![BfOp::Loop(vec![])])]));
    assert_eq!(
        parse("+[>[-]<.]"),
        Ok(vec![
            BfOp::Increment(1),
            BfOp::Loop(vec![
                BfOp::PointerIncrement(1),
                BfOp::Loop(vec![BfOp::Increment(-1)]),
                BfOp::PointerIncrement(-1),
                BfOp::OutputByte,
            ]),
        ])
    );
    assert_eq!(parse(""), Ok(vec![]));
    assert_eq!(parse("[][]"), Ok(vec![BfOp::Loop(vec![]), BfOp::Loop(vec![])]));
}

#[test]
fn runs_are_coalesced() {
    assert_eq!(parse("+++"), Ok(vec![BfOp::Increment(3)]));
    assert_eq!(parse("+-+"), Ok(vec![BfOp::Increment(1)]));
    assert_eq!(parse("---"), Ok(vec![BfOp::Increment(-3)]));
    assert_eq!(parse(">>><"), Ok(vec![BfOp::PointerIncrement(2)]));
    assert_eq!(parse("<<"), Ok(vec![BfOp::PointerIncrement(-2)]));
    assert_eq!(
        parse("++>>--<,."),
        Ok(vec![
            BfOp::Increment(2),
            BfOp::PointerIncrement(2),
            BfOp::Increment(-2),
            BfOp::PointerIncrement(-1),
            BfOp::InputByte,
            BfOp::OutputByte,
        ])
    );
}

#[test]
fn comments_do_not_break_a_run() {
    assert_eq!(parse("+ + +"), Ok(vec![BfOp::Increment(3)]));
    assert_eq!(parse(">\n>"), Ok(vec![BfOp::PointerIncrement(2)]));
}

#[test]
fn runs_of_net_zero_disappear() {
    assert_eq!(parse("+-"), Ok(vec![]));
    assert_eq!(parse("<>"), Ok(vec![]));
    assert_eq!(parse("++--.><"), Ok(vec![BfOp::OutputByte]));
    assert_eq!(parse("[+-]"), Ok(vec![BfOp::Loop(vec![])]));
}

#[test]
fn runs_of_different_kinds_are_kept_apart() {
    assert_eq!(parse("+>+"), Ok(vec![
        BfOp::Increment(1),
        BfOp::PointerIncrement(1),
        BfOp::Increment(1),
    ]));
    assert_eq!(parse("+.+"), Ok(vec![BfOp::Increment(1), BfOp::OutputByte, BfOp::Increment(1)]));
    assert_eq!(parse("+[+]+"), Ok(vec![
        BfOp::Increment(1),
        BfOp::Loop(vec![BfOp::Increment(1)]),
        BfOp::Increment(1),
    ]));
}

#[test]
fn cell_runs_clamp_at_the_extremes() {
    assert_eq!(parse(&"+".repeat(127)), Ok(vec![BfOp::Increment(127)]));
    assert_eq!(parse(&"+".repeat(128)), Ok(vec![BfOp::Increment(127)]));
    assert_eq!(parse(&"+".repeat(300)), Ok(vec![BfOp::Increment(127)]));
    assert_eq!(parse(&"-".repeat(128)), Ok(vec![BfOp::Increment(-128)]));
    assert_eq!(parse(&"-".repeat(129)), Ok(vec![BfOp::Increment(-128)]));
}

#[test]
fn a_clamped_run_keeps_the_bound_it_hit_last() {
    let mut source = "+".repeat(128);
    source.push_str(&"-".repeat(10));
    assert_eq!(parse(&source), Ok(vec![BfOp::Increment(127)]));

    let mut source = "+".repeat(128);
    source.push_str(&"-".repeat(300));
    assert_eq!(parse(&source), Ok(vec![BfOp::Increment(-128)]));
}

#[test]
fn parser_resumes_nowhere_after_it_is_done() {
    let mut parser = Parser::new(vec![Token::IncrementByte, Token::OutputByte]);
    assert_eq!(parser.parse(), Ok(vec![BfOp::Increment(1), BfOp::OutputByte]));
    assert_eq!(parser.parse(), Ok(vec![]));
}

fn warnings_of(source: &str) -> Vec<ClampWarning> {
    let mut lexer = Lexer::new(source);
    let tokens = lexer.tokenize();
    let mut parser = Parser::new(tokens);
    let _ = parser.parse();
    parser.warnings().to_vec()
}

#[test]
fn runs_within_range_give_no_diagnostic() {
    assert_eq!(warnings_of(""), vec![]);
    assert_eq!(warnings_of(&"+".repeat(127)), vec![]);
    assert_eq!(warnings_of(&"-".repeat(128)), vec![]);
    assert_eq!(warnings_of("+[>>-<<]."), vec![]);
}

#[test]
fn each_clamped_run_gives_one_diagnostic() {
    assert_eq!(warnings_of(&"+".repeat(128)), vec![ClampWarning::ByteOperation(127)]);
    assert_eq!(warnings_of(&"-".repeat(400)), vec![ClampWarning::ByteOperation(-128)]);

    let mut source = "+".repeat(128);
    source.push_str(&"-".repeat(300));
    assert_eq!(warnings_of(&source), vec![ClampWarning::ByteOperation(-128)]);

    let source = format!("{}[{}]{}", "+".repeat(200), "-".repeat(200), "+".repeat(3));
    assert_eq!(
        warnings_of(&source),
        vec![ClampWarning::ByteOperation(127), ClampWarning::ByteOperation(-128)]
    );
}

#[test]
fn diagnostics_before_an_error_are_kept() {
    let source = format!("{}[{}", "+".repeat(200), "-".repeat(200));
    assert_eq!(parse(&source), Err(ParseError::UnmatchedLoopStart { position: Some(200) }));
    assert_eq!(
        warnings_of(&source),
        vec![ClampWarning::ByteOperation(127), ClampWarning::ByteOperation(-128)]
    );
    let source = format!("{}]", "+".repeat(130));
    assert_eq!(warnings_of(&source), vec![ClampWarning::ByteOperation(127)]);
}

#[test]
fn diagnostics_name_the_limit() {
    assert_eq!(
        ClampWarning::ByteOperation(127).to_string(),
        "Warning: Byte operation overflowed. Clamped to 127."
    );
    assert_eq!(
        ClampWarning::ByteOperation(-128).to_string(),
        "Warning: Byte operation overflowed. Clamped to -128."
    );
    assert_eq!(
        ClampWarning::PointerMovement(isize::MAX).to_string(),
        format!("Warning: Pointer movement overflowed. Clamped to {}.", isize::MAX)
    );
    assert_eq!(
        ClampWarning::PointerMovement(isize::MIN).to_string(),
        format!("Warning: Pointer movement overflowed. Clamped to {}.", isize::MIN)
    );
}
