use crate::lexer::Token;
use crate::parser::error::ParseError;
use crate::parser::laws::balanced;
use crate::parser::laws::lemma_parses_iff_balanced;
use crate::parser::ops::lemma_loop_view;
use crate::parser::ops::nodes;
use crate::parser::ops::well_formed;
use crate::parser::ops::BfOp;
use crate::parser::ops::Node;
use crate::text::append_signed;
use crate::text::signed_text;
use vstd::prelude::*;
use vstd::string::StringExecFns;

verus! {

/// Scans a run of `up` and `down` tokens from `pos` and returns its value,
/// the position behind it, and whether the value was clamped.
///
/// The run starts with the net count `net`. Each `up` adds one and each `down`
/// takes one away, as long as the count stays within `lo..=hi`. A token that
/// would take the count past a bound leaves it where it is and records that
/// bound in `clamped`. The value of the run is the bound recorded last, or the
/// net count when none was.
pub open spec fn net_run(
    tokens: Seq<Token>,
    pos: int,
    up: Token,
    down: Token,
    lo: int,
    hi: int,
    net: int,
    clamped: Option<int>,
) -> (int, int, bool)
    decreases tokens.len() - pos,
{
    if 0 <= pos < tokens.len() && tokens[pos] == up {
        if net + 1 <= hi {
            net_run(tokens, pos + 1, up, down, lo, hi, net + 1, clamped)
        } else {
            net_run(tokens, pos + 1, up, down, lo, hi, net, Some(hi))
        }
    } else if 0 <= pos < tokens.len() && tokens[pos] == down {
        if net - 1 >= lo {
            net_run(tokens, pos + 1, up, down, lo, hi, net - 1, clamped)
        } else {
            net_run(tokens, pos + 1, up, down, lo, hi, net, Some(lo))
        }
    } else {
        (
            match clamped {
                Some(limit) => limit,
                None => net,
            },
            pos,
            clamped is Some,
        )
    }
}

/// Value, end and clamping of the run of `>` and `<` whose first token
/// stands at `pos`.
pub open spec fn pointer_run(tokens: Seq<Token>, pos: int) -> (int, int, bool)
    recommends
        0 <= pos < tokens.len(),
{
    net_run(
        tokens,
        pos + 1,
        Token::IncrementPointer,
        Token::DecrementPointer,
        isize::MIN as int,
        isize::MAX as int,
        if tokens[pos] == Token::IncrementPointer {
            1
        } else {
            -1
        },
        None,
    )
}

/// Value, end and clamping of the run of `+` and `-` whose first token
/// stands at `pos`.
pub open spec fn byte_run(tokens: Seq<Token>, pos: int) -> (int, int, bool)
    recommends
        0 <= pos < tokens.len(),
{
    net_run(
        tokens,
        pos + 1,
        Token::IncrementByte,
        Token::DecrementByte,
        i8::MIN as int,
        i8::MAX as int,
        if tokens[pos] == Token::IncrementByte {
            1
        } else {
            -1
        },
        None,
    )
}

/// The diagnostic for a run whose net count left the range of its node and
/// was clamped to the limit named.
#[derive(Debug, Clone, Copy, PartialEq, Eq, Structural)]
pub enum ClampWarning {
    /// A run of `>` and `<`.
    PointerMovement(isize),
    /// A run of `+` and `-`.
    ByteOperation(i8),
}

/// The message of a diagnostic.
pub open spec fn clamp_warning_text(warning: ClampWarning) -> Seq<char> {
    match warning {
        ClampWarning::PointerMovement(limit) => "Warning: Pointer movement overflowed. Clamped to "@
            + signed_text(limit as int) + "."@,
        ClampWarning::ByteOperation(limit) => "Warning: Byte operation overflowed. Clamped to "@
            + signed_text(limit as int) + "."@,
    }
}

impl ClampWarning {
    /// The diagnostic as a message for the user.
    pub fn to_string(&self) -> (text: String)
        ensures
            text@ == clamp_warning_text(*self),
    {
        let (mut text, limit) = match self {
            ClampWarning::PointerMovement(limit) => (
                String::from_str("Warning: Pointer movement overflowed. Clamped to "),
                *limit,
            ),
            ClampWarning::ByteOperation(limit) => (
                String::from_str("Warning: Byte operation overflowed. Clamped to "),
                *limit as isize,
            ),
        };
        append_signed(&mut text, limit);
        text.append(".");
        text
    }
}

/// What parsing a sequence gives: the operations or the first structural
/// error, the position at which parsing stopped, and the diagnostics for the
/// runs that were clamped on the way.
pub struct Parsed {
    pub result: Result<Seq<Node>, ParseError>,
    pub next: int,
    pub warnings: Seq<ClampWarning>,
}

/// `parsed` with `prefix` in front of its operations and `warned` in front
/// of its diagnostics.
pub open spec fn with_prefix(prefix: Seq<Node>, warned: Seq<ClampWarning>, parsed: Parsed) -> Parsed {
    Parsed {
        result: match parsed.result {
            Ok(ops) => Ok(prefix + ops),
            Err(e) => Err(e),
        },
        next: parsed.next,
        warnings: warned + parsed.warnings,
    }
}

/// Parsing that stops at `next` with `result` and no diagnostics.
pub open spec fn stopped(result: Result<Seq<Node>, ParseError>, next: int) -> Parsed {
    Parsed { result, next, warnings: Seq::empty() }
}

/// The diagnostic of a run of `>` and `<` with the given value: none unless
/// the run was clamped.
pub open spec fn move_warning(run: (int, int, bool)) -> Seq<ClampWarning> {
    if run.2 {
        seq![ClampWarning::PointerMovement(run.0 as isize)]
    } else {
        Seq::empty()
    }
}

/// The diagnostic of a run of `+` and `-` with the given value: none unless
/// the run was clamped.
pub open spec fn add_warning(run: (int, int, bool)) -> Seq<ClampWarning> {
    if run.2 {
        seq![ClampWarning::ByteOperation(run.0 as i8)]
    } else {
        Seq::empty()
    }
}

/// The node of a run with the given net value: none when the value is zero.
pub open spec fn move_node(net: int) -> Seq<Node> {
    if net != 0 {
        seq![Node::Move(net as isize)]
    } else {
        Seq::empty()
    }
}

/// The node of a run with the given net value: none when the value is zero.
pub open spec fn add_node(net: int) -> Seq<Node> {
    if net != 0 {
        seq![Node::Add(net as i8)]
    } else {
        Seq::empty()
    }
}

/// Parses the sequence of operations that starts at `pos`.
///
/// Outside a loop the sequence runs to the end of the tokens, and a `]` is an
/// error at its own position. Inside a loop it ends before the `]` that closes
/// the loop, or at the end of the tokens. A `[` whose body is not followed by
/// `]` is an error at the position of that `[`.
pub open spec fn parse_from(tokens: Seq<Token>, pos: int, inside_loop: bool) -> Parsed
    decreases tokens.len() - pos,
{
    if pos < 0 || pos >= tokens.len() {
        stopped(Ok(Seq::empty()), pos)
    } else {
        match tokens[pos] {
            Token::LoopEnd => if inside_loop {
                stopped(Ok(Seq::empty()), pos)
            } else {
                stopped(Err(ParseError::UnmatchedLoopEnd { position: Some(pos as usize) }), pos)
            },
            Token::IncrementPointer | Token::DecrementPointer => {
                let run = pointer_run(tokens, pos);
                if pos < run.1 <= tokens.len() {
                    with_prefix(
                        move_node(run.0),
                        move_warning(run),
                        parse_from(tokens, run.1, inside_loop),
                    )
                } else {
                    stopped(Ok(Seq::empty()), pos)
                }
            },
            Token::IncrementByte | Token::DecrementByte => {
                let run = byte_run(tokens, pos);
                if pos < run.1 <= tokens.len() {
                    with_prefix(
                        add_node(run.0),
                        add_warning(run),
                        parse_from(tokens, run.1, inside_loop),
                    )
                } else {
                    stopped(Ok(Seq::empty()), pos)
                }
            },
            Token::OutputByte => with_prefix(
                seq![Node::Output],
                Seq::empty(),
                parse_from(tokens, pos + 1, inside_loop),
            ),
            Token::InputByte => with_prefix(
                seq![Node::Input],
                Seq::empty(),
                parse_from(tokens, pos + 1, inside_loop),
            ),
            Token::LoopStart => {
                let body = parse_from(tokens, pos + 1, true);
                match body.result {
                    Err(_) => body,
                    Ok(inner) => if pos < body.next < tokens.len() && tokens[body.next]
                        == Token::LoopEnd {
                        with_prefix(
                            seq![Node::Loop(inner)],
                            body.warnings,
                            parse_from(tokens, body.next + 1, inside_loop),
                        )
                    } else {
                        Parsed {
                            result: Err(
                                ParseError::UnmatchedLoopStart { position: Some(pos as usize) },
                            ),
                            next: body.next,
                            warnings: body.warnings,
                        }
                    },
                }
            },
        }
    }
}

/// The program that a whole token sequence denotes, or its first error.
pub open spec fn parse_tokens(tokens: Seq<Token>) -> Result<Seq<Node>, ParseError> {
    parse_from(tokens, 0, false).result
}

/// A run never yields a value outside its bounds, and ends at or behind its start.
pub proof fn lemma_net_run_bounds(
    tokens: Seq<Token>,
    pos: int,
    up: Token,
    down: Token,
    lo: int,
    hi: int,
    net: int,
    clamped: Option<int>,
)
    requires
        0 <= pos <= tokens.len(),
        lo <= net <= hi,
        clamped matches Some(limit) ==> lo <= limit <= hi,
    ensures
        lo <= net_run(tokens, pos, up, down, lo, hi, net, clamped).0 <= hi,
        pos <= net_run(tokens, pos, up, down, lo, hi, net, clamped).1 <= tokens.len(),
    decreases tokens.len() - pos,
{
    if pos < tokens.len() && tokens[pos] == up {
        if net + 1 <= hi {
            lemma_net_run_bounds(tokens, pos + 1, up, down, lo, hi, net + 1, clamped);
        } else {
            lemma_net_run_bounds(tokens, pos + 1, up, down, lo, hi, net, Some(hi));
        }
    } else if pos < tokens.len() && tokens[pos] == down {
        if net - 1 >= lo {
            lemma_net_run_bounds(tokens, pos + 1, up, down, lo, hi, net - 1, clamped);
        } else {
            lemma_net_run_bounds(tokens, pos + 1, up, down, lo, hi, net, Some(lo));
        }
    }
}

/// Putting one well-formed sequence behind another gives a well-formed one.
pub proof fn lemma_well_formed_concat(front: Seq<Node>, back: Seq<Node>)
    requires
        well_formed(front),
        well_formed(back),
    ensures
        well_formed(front + back),
{
    let all = front + back;
    assert forall|i: int| 0 <= i < all.len() implies match #[trigger] all[i] {
        Node::Move(delta) => delta != 0,
        Node::Add(delta) => delta != 0,
        Node::Loop(body) => well_formed(body),
        _ => true,
    } by {
        if i < front.len() {
            assert(all[i] == front[i]);
        } else {
            assert(all[i] == back[i - front.len()]);
        }
    }
}

/// Every program that parsing yields is free of moves and changes by zero,
/// and parsing stops within the tokens.
pub proof fn lemma_parse_well_formed(tokens: Seq<Token>, pos: int, inside_loop: bool)
    requires
        0 <= pos <= tokens.len(),
    ensures
        pos <= parse_from(tokens, pos, inside_loop).next <= tokens.len(),
        parse_from(tokens, pos, inside_loop).result matches Ok(ops) ==> well_formed(ops),
    decreases tokens.len() - pos,
{
    if pos < tokens.len() {
        match tokens[pos] {
            Token::LoopEnd => {},
            Token::IncrementPointer | Token::DecrementPointer => {
                let first: int = if tokens[pos] == Token::IncrementPointer {
                    1
                } else {
                    -1
                };
                lemma_net_run_bounds(
                    tokens,
                    pos + 1,
                    Token::IncrementPointer,
                    Token::DecrementPointer,
                    isize::MIN as int,
                    isize::MAX as int,
                    first,
                    None,
                );
                let net = pointer_run(tokens, pos).0;
                let end = pointer_run(tokens, pos).1;
                lemma_parse_well_formed(tokens, end, inside_loop);
                let rest = parse_from(tokens, end, inside_loop);
                if rest.result is Ok {
                    lemma_well_formed_concat(move_node(net), rest.result->Ok_0);
                }
            },
            Token::IncrementByte | Token::DecrementByte => {
                let first: int = if tokens[pos] == Token::IncrementByte {
                    1
                } else {
                    -1
                };
                lemma_net_run_bounds(
                    tokens,
                    pos + 1,
                    Token::IncrementByte,
                    Token::DecrementByte,
                    i8::MIN as int,
                    i8::MAX as int,
                    first,
                    None,
                );
                let net = byte_run(tokens, pos).0;
                let end = byte_run(tokens, pos).1;
                lemma_parse_well_formed(tokens, end, inside_loop);
                let rest = parse_from(tokens, end, inside_loop);
                if rest.result is Ok {
                    lemma_well_formed_concat(add_node(net), rest.result->Ok_0);
                }
            },
            Token::OutputByte => {
                lemma_parse_well_formed(tokens, pos + 1, inside_loop);
                let rest = parse_from(tokens, pos + 1, inside_loop);
                if rest.result is Ok {
                    lemma_well_formed_concat(seq![Node::Output], rest.result->Ok_0);
                }
            },
            Token::InputByte => {
                lemma_parse_well_formed(tokens, pos + 1, inside_loop);
                let rest = parse_from(tokens, pos + 1, inside_loop);
                if rest.result is Ok {
                    lemma_well_formed_concat(seq![Node::Input], rest.result->Ok_0);
                }
            },
            Token::LoopStart => {
                lemma_parse_well_formed(tokens, pos + 1, true);
                let body = parse_from(tokens, pos + 1, true);
                if body.result is Ok && body.next < tokens.len() && tokens[body.next]
                    == Token::LoopEnd {
                    lemma_parse_well_formed(tokens, body.next + 1, inside_loop);
                    let rest = parse_from(tokens, body.next + 1, inside_loop);
                    if rest.result is Ok {
                        lemma_well_formed_concat(
                            seq![Node::Loop(body.result->Ok_0)],
                            rest.result->Ok_0,
                        );
                    }
                }
            },
        }
    }
}

/// Whether `error` names the position of a bracket of its kind in `tokens`.
pub open spec fn points_at_bracket(tokens: Seq<Token>, error: ParseError) -> bool {
    match error {
        ParseError::UnmatchedLoopStart { position } => position matches Some(p) && p
            < tokens.len() && tokens[p as int] == Token::LoopStart,
        ParseError::UnmatchedLoopEnd { position } => position matches Some(p) && p < tokens.len()
            && tokens[p as int] == Token::LoopEnd,
    }
}

/// An error of parsing names the position of the bracket that has no match.
/// A sequence outside a loop that parses without error is parsed to the end
/// of the tokens; one inside a loop ends at the end of the tokens or at a `]`.
pub proof fn lemma_parse_stops_at_brackets(tokens: Seq<Token>, pos: int, inside_loop: bool)
    requires
        0 <= pos <= tokens.len() <= usize::MAX,
    ensures
        parse_from(tokens, pos, inside_loop).result matches Err(e) ==> points_at_bracket(
            tokens,
            e,
        ),
        parse_from(tokens, pos, inside_loop).result is Ok ==> {
            let next = parse_from(tokens, pos, inside_loop).next;
            next == tokens.len() || (inside_loop && pos <= next < tokens.len() && tokens[next]
                == Token::LoopEnd)
        },
    decreases tokens.len() - pos,
{
    lemma_parse_well_formed(tokens, pos, inside_loop);
    if pos < tokens.len() {
        match tokens[pos] {
            Token::LoopEnd => {},
            Token::IncrementPointer | Token::DecrementPointer => {
                let first: int = if tokens[pos] == Token::IncrementPointer {
                    1
                } else {
                    -1
                };
                lemma_net_run_bounds(
                    tokens,
                    pos + 1,
                    Token::IncrementPointer,
                    Token::DecrementPointer,
                    isize::MIN as int,
                    isize::MAX as int,
                    first,
                    None,
                );
                lemma_parse_stops_at_brackets(tokens, pointer_run(tokens, pos).1, inside_loop);
            },
            Token::IncrementByte | Token::DecrementByte => {
                let first: int = if tokens[pos] == Token::IncrementByte {
                    1
                } else {
                    -1
                };
                lemma_net_run_bounds(
                    tokens,
                    pos + 1,
                    Token::IncrementByte,
                    Token::DecrementByte,
                    i8::MIN as int,
                    i8::MAX as int,
                    first,
                    None,
                );
                lemma_parse_stops_at_brackets(tokens, byte_run(tokens, pos).1, inside_loop);
            },
            Token::OutputByte | Token::InputByte => {
                lemma_parse_stops_at_brackets(tokens, pos + 1, inside_loop);
            },
            Token::LoopStart => {
                lemma_parse_well_formed(tokens, pos + 1, true);
                lemma_parse_stops_at_brackets(tokens, pos + 1, true);
                let body = parse_from(tokens, pos + 1, true);
                if body.result is Ok && body.next < tokens.len() && tokens[body.next]
                    == Token::LoopEnd {
                    lemma_parse_stops_at_brackets(tokens, body.next + 1, inside_loop);
                }
            },
        }
    }
}

/// A cursor over a token sequence that builds the program it denotes.
pub struct Parser {
    tokens: Vec<Token>,
    position: usize,
    warnings: Vec<ClampWarning>,
}

impl Parser {
    /// The tokens that the parser was made with.
    pub closed spec fn tokens(&self) -> Seq<Token> {
        self.tokens@
    }

    /// How many tokens have been consumed.
    pub closed spec fn position(&self) -> int {
        self.position as int
    }

    /// The diagnostics recorded so far.
    pub closed spec fn warned(&self) -> Seq<ClampWarning> {
        self.warnings@
    }

    /// The cursor never passes the end of the tokens.
    pub closed spec fn well_formed(&self) -> bool {
        self.position <= self.tokens@.len()
    }

    /// A parser at the start of `tokens`.
    pub fn new(tokens: Vec<Token>) -> (parser: Self)
        ensures
            parser.well_formed(),
            parser.tokens() == tokens@,
            parser.position() == 0,
            parser.warned() == Seq::<ClampWarning>::empty(),
    {
        Parser { tokens, position: 0, warnings: Vec::new() }
    }

    /// The diagnostics recorded so far: one for each run that was clamped,
    /// in the order of the runs.
    pub fn warnings(&self) -> (warnings: &[ClampWarning])
        ensures
            warnings@ == self.warned(),
    {
        self.warnings.as_slice()
    }

    /// Parses the tokens from the cursor on as a top-level sequence, and
    /// records a diagnostic for each run that was clamped.
    ///
    /// From the start of the tokens, parsing succeeds exactly where every
    /// bracket has its match.
    pub fn parse(&mut self) -> (result: Result<Vec<BfOp>, ParseError>)
        requires
            old(self).well_formed(),
        ensures
            final(self).well_formed(),
            final(self).tokens() == old(self).tokens(),
            final(self).position() == parse_from(
                old(self).tokens(),
                old(self).position(),
                false,
            ).next,
            final(self).warned() == old(self).warned() + parse_from(
                old(self).tokens(),
                old(self).position(),
                false,
            ).warnings,
            match result {
                Ok(ops) => {
                    &&& parse_from(old(self).tokens(), old(self).position(), false).result == Ok::<
                        Seq<Node>,
                        ParseError,
                    >(nodes(ops@))
                    &&& well_formed(nodes(ops@))
                },
                Err(e) => {
                    &&& parse_from(old(self).tokens(), old(self).position(), false).result == Err::<
                        Seq<Node>,
                        ParseError,
                    >(e)
                    &&& points_at_bracket(old(self).tokens(), e)
                },
            },
            result is Ok ==> final(self).position() == old(self).tokens().len(),
            old(self).position() == 0 ==> (result is Ok <==> balanced(old(self).tokens())),
    {
        proof {
            if self.position == 0 {
                lemma_parses_iff_balanced(self.tokens@);
            }
            lemma_parse_well_formed(self.tokens@, self.position as int, false);
            assert(self.tokens.len() == self.tokens@.len());
            lemma_parse_stops_at_brackets(self.tokens@, self.position as int, false);
        }
        self.parse_sequence(false)
    }

    /// Parses one sequence of operations from the cursor on: the top-level
    /// sequence, or the body of a loop up to the `]` that closes it.
    #[verifier::rlimit(60)]
    fn parse_sequence(&mut self, inside_loop: bool) -> (result: Result<Vec<BfOp>, ParseError>)
        requires
            old(self).well_formed(),
        ensures
            final(self).well_formed(),
            final(self).tokens() == old(self).tokens(),
            old(self).position() <= final(self).position(),
            final(self).position() == parse_from(
                old(self).tokens(),
                old(self).position(),
                inside_loop,
            ).next,
            final(self).warned() == old(self).warned() + parse_from(
                old(self).tokens(),
                old(self).position(),
                inside_loop,
            ).warnings,
            match result {
                Ok(ops) => parse_from(
                    old(self).tokens(),
                    old(self).position(),
                    inside_loop,
                ).result == Ok::<Seq<Node>, ParseError>(nodes(ops@)),
                Err(e) => parse_from(old(self).tokens(), old(self).position(), inside_loop).result
                    == Err::<Seq<Node>, ParseError>(e),
            },
        decreases old(self).tokens().len() - old(self).position(),
    {
        let mut ops: Vec<BfOp> = Vec::new();
        let ghost start = self.position as int;
        let ghost goal = parse_from(self.tokens@, start, inside_loop);
        let ghost base = self.warnings@;
        let ghost mut warned: Seq<ClampWarning> = Seq::empty();
        proof {
            let rest = parse_from(self.tokens@, start, inside_loop);
            assert(nodes(ops@) =~= Seq::<Node>::empty());
            assert(warned + rest.warnings =~= rest.warnings);
            if rest.result is Ok {
                assert(nodes(ops@) + rest.result->Ok_0 =~= rest.result->Ok_0);
            }
            assert(base + warned =~= base);
        }
        while self.position < self.tokens.len()
            invariant
                self.tokens@ == old(self).tokens@,
                start <= self.position <= self.tokens@.len(),
                start == old(self).position,
                base == old(self).warnings@,
                self.warnings@ == base + warned,
                goal == parse_from(self.tokens@, start, inside_loop),
                with_prefix(
                    nodes(ops@),
                    warned,
                    parse_from(self.tokens@, self.position as int, inside_loop),
                ) == goal,
            decreases self.tokens@.len() - self.position,
        {
            let token = self.tokens[self.position];
            let ghost here = self.position as int;
            let ghost before = nodes(ops@);
            let ghost warned_before = warned;
            match token {
                Token::LoopEnd => {
                    proof {
                        assert(before + Seq::<Node>::empty() =~= before);
                        assert(warned + Seq::<ClampWarning>::empty() =~= warned);
                    }
                    if inside_loop {
                        return Ok(ops);
                    } else {
                        return Err(ParseError::UnmatchedLoopEnd { position: Some(self.position) });
                    }
                },
                Token::IncrementPointer | Token::DecrementPointer => {
                    self.position += 1;
                    let net = self.count_net_pointer_ops(token);
                    if net != 0 {
                        ops.push(BfOp::PointerIncrement(net));
                    }
                    proof {
                        let run = pointer_run(self.tokens@, here);
                        let rest = parse_from(self.tokens@, self.position as int, inside_loop);
                        warned = warned_before + move_warning(run);
                        assert(nodes(ops@) =~= before + move_node(net as int));
                        assert(self.warnings@ =~= base + warned);
                        assert(warned_before + (move_warning(run) + rest.warnings) =~= warned
                            + rest.warnings);
                        if rest.result is Ok {
                            assert(before + (move_node(net as int) + rest.result->Ok_0) =~= (before
                                + move_node(net as int)) + rest.result->Ok_0);
                        }
                    }
                },
                Token::IncrementByte | Token::DecrementByte => {
                    self.position += 1;
                    let net = self.count_net_byte_ops(token);
                    if net != 0 {
                        ops.push(BfOp::Increment(net));
                    }
                    proof {
                        let run = byte_run(self.tokens@, here);
                        let rest = parse_from(self.tokens@, self.position as int, inside_loop);
                        warned = warned_before + add_warning(run);
                        assert(nodes(ops@) =~= before + add_node(net as int));
                        assert(self.warnings@ =~= base + warned);
                        assert(warned_before + (add_warning(run) + rest.warnings) =~= warned
                            + rest.warnings);
                        if rest.result is Ok {
                            assert(before + (add_node(net as int) + rest.result->Ok_0) =~= (before
                                + add_node(net as int)) + rest.result->Ok_0);
                        }
                    }
                },
                Token::OutputByte => {
                    self.position += 1;
                    ops.push(BfOp::OutputByte);
                    proof {
                        let rest = parse_from(self.tokens@, self.position as int, inside_loop);
                        assert(nodes(ops@) =~= before + seq![Node::Output]);
                        assert(warned + (Seq::<ClampWarning>::empty() + rest.warnings) =~= warned
                            + rest.warnings);
                        if rest.result is Ok {
                            assert(before + (seq![Node::Output] + rest.result->Ok_0) =~= (before
                                + seq![Node::Output]) + rest.result->Ok_0);
                        }
                    }
                },
                Token::InputByte => {
                    self.position += 1;
                    ops.push(BfOp::InputByte);
                    proof {
                        let rest = parse_from(self.tokens@, self.position as int, inside_loop);
                        assert(nodes(ops@) =~= before + seq![Node::Input]);
                        assert(warned + (Seq::<ClampWarning>::empty() + rest.warnings) =~= warned
                            + rest.warnings);
                        if rest.result is Ok {
                            assert(before + (seq![Node::Input] + rest.result->Ok_0) =~= (before
                                + seq![Node::Input]) + rest.result->Ok_0);
                        }
                    }
                },
                Token::LoopStart => {
                    let loop_start_position = self.position;
                    self.position += 1;
                    let parsed_body = self.parse_sequence(true);
                    let ghost body = parse_from(self.tokens@, here + 1, true);
                    proof {
                        warned = warned_before + body.warnings;
                        assert(self.warnings@ =~= base + warned);
                    }
                    let loop_body = match parsed_body {
                        Ok(body) => body,
                        Err(e) => {
                            return Err(e);
                        },
                    };
                    if self.position < self.tokens.len() && self.tokens[self.position]
                        == Token::LoopEnd {
                        self.position += 1;
                        proof {
                            lemma_loop_view(loop_body);
                        }
                        let ghost inner = nodes(loop_body@);
                        ops.push(BfOp::Loop(loop_body));
                        proof {
                            let rest = parse_from(self.tokens@, self.position as int, inside_loop);
                            assert(nodes(ops@) =~= before + seq![Node::Loop(inner)]);
                            assert(warned_before + (body.warnings + rest.warnings) =~= warned
                                + rest.warnings);
                            if rest.result is Ok {
                                assert(before + (seq![Node::Loop(inner)] + rest.result->Ok_0) =~= (
                                before + seq![Node::Loop(inner)]) + rest.result->Ok_0);
                            }
                        }
                    } else {
                        return Err(
                            ParseError::UnmatchedLoopStart { position: Some(loop_start_position) },
                        );
                    }
                },
            }
        }
        proof {
            assert(nodes(ops@) + Seq::<Node>::empty() =~= nodes(ops@));
            assert(warned + Seq::<ClampWarning>::empty() =~= warned);
        }
        Ok(ops)
    }

    /// Consumes the rest of a run of `>` and `<` whose first token, `token`,
    /// was consumed already, and returns the net shift of the whole run.
    fn count_net_pointer_ops(&mut self, token: Token) -> (value: isize)
        requires
            old(self).well_formed(),
            0 < old(self).position(),
            old(self).tokens()[old(self).position() - 1] == token,
            token == Token::IncrementPointer || token == Token::DecrementPointer,
        ensures
            final(self).well_formed(),
            final(self).tokens() == old(self).tokens(),
            old(self).position() <= final(self).position(),
            value as int == pointer_run(old(self).tokens(), old(self).position() - 1).0,
            final(self).position() == pointer_run(old(self).tokens(), old(self).position() - 1).1,
            final(self).warned() == old(self).warned() + move_warning(
                pointer_run(old(self).tokens(), old(self).position() - 1),
            ),
    {
        let mut net: isize = match token {
            Token::IncrementPointer => 1,
            _ => -1,
        };
        let mut clamped: Option<isize> = None;
        let ghost goal = pointer_run(self.tokens@, self.position - 1);
        while self.position < self.tokens.len() && self.tokens[self.position].is_pointer_move()
            invariant
                self.tokens@ == old(self).tokens@,
                self.warnings@ == old(self).warnings@,
                old(self).position <= self.position <= self.tokens@.len(),
                net_run(
                    self.tokens@,
                    self.position as int,
                    Token::IncrementPointer,
                    Token::DecrementPointer,
                    isize::MIN as int,
                    isize::MAX as int,
                    net as int,
                    match clamped {
                        Some(limit) => Some(limit as int),
                        None => None,
                    },
                ) == goal,
            decreases self.tokens@.len() - self.position,
        {
            match self.tokens[self.position] {
                Token::IncrementPointer => {
                    match net.checked_add(1) {
                        Some(result) => net = result,
                        None => clamped = Some(isize::MAX),
                    }
                },
                _ => {
                    match net.checked_sub(1) {
                        Some(result) => net = result,
                        None => clamped = Some(isize::MIN),
                    }
                },
            }
            self.position += 1;
        }
        match clamped {
            Some(limit) => {
                self.warnings.push(ClampWarning::PointerMovement(limit));
                limit
            },
            None => {
                assert(self.warnings@ + Seq::<ClampWarning>::empty() =~= self.warnings@);
                net
            },
        }
    }

    /// Consumes the rest of a run of `+` and `-` whose first token, `token`,
    /// was consumed already, and returns the net change of the whole run.
    fn count_net_byte_ops(&mut self, token: Token) -> (value: i8)
        requires
            old(self).well_formed(),
            0 < old(self).position(),
            old(self).tokens()[old(self).position() - 1] == token,
            token == Token::IncrementByte || token == Token::DecrementByte,
        ensures
            final(self).well_formed(),
            final(self).tokens() == old(self).tokens(),
            old(self).position() <= final(self).position(),
            value as int == byte_run(old(self).tokens(), old(self).position() - 1).0,
            final(self).position() == byte_run(old(self).tokens(), old(self).position() - 1).1,
            final(self).warned() == old(self).warned() + add_warning(
                byte_run(old(self).tokens(), old(self).position() - 1),
            ),
    {
        let mut net: i8 = match token {
            Token::IncrementByte => 1,
            _ => -1,
        };
        let mut clamped: Option<i8> = None;
        let ghost goal = byte_run(self.tokens@, self.position - 1);
        while self.position < self.tokens.len() && self.tokens[self.position].is_cell_change()
            invariant
                self.tokens@ == old(self).tokens@,
                self.warnings@ == old(self).warnings@,
                old(self).position <= self.position <= self.tokens@.len(),
                net_run(
                    self.tokens@,
                    self.position as int,
                    Token::IncrementByte,
                    Token::DecrementByte,
                    i8::MIN as int,
                    i8::MAX as int,
                    net as int,
                    match clamped {
                        Some(limit) => Some(limit as int),
                        None => None,
                    },
                ) == goal,
            decreases self.tokens@.len() - self.position,
        {
            match self.tokens[self.position] {
                Token::IncrementByte => {
                    match net.checked_add(1) {
                        Some(result) => net = result,
                        None => clamped = Some(i8::MAX),
                    }
                },
                _ => {
                    match net.checked_sub(1) {
                        Some(result) => net = result,
                        None => clamped = Some(i8::MIN),
                    }
                },
            }
            self.position += 1;
        }
        match clamped {
            Some(limit) => {
                self.warnings.push(ClampWarning::ByteOperation(limit));
                limit
            },
            None => {
                assert(self.warnings@ + Seq::<ClampWarning>::empty() =~= self.warnings@);
                net
            },
        }
    }
}

} // verus!
