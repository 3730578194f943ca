use crate::lexer::Token;
use crate::parser::error::ParseError;
use crate::parser::parser::byte_run;
use crate::parser::parser::net_run;
use crate::parser::parser::parse_from;
use crate::parser::parser::parse_tokens;
use crate::parser::parser::pointer_run;
use vstd::prelude::*;

verus! {

/// Follows the brackets from position `pos`, where `depth` loops are open,
/// to the first `]` that closes a loop that was not opened on the way, or to
/// the end of the tokens. The result is the position reached and the number
/// of loops open there, which is `-1` at such a `]`.
pub open spec fn scan(tokens: Seq<Token>, pos: int, depth: int) -> (int, int)
    decreases tokens.len() - pos,
{
    if pos < 0 || pos >= tokens.len() {
        (tokens.len() as int, depth)
    } else {
        match tokens[pos] {
            Token::LoopStart => scan(tokens, pos + 1, depth + 1),
            Token::LoopEnd => if depth <= 0 {
                (pos, -1)
            } else {
                scan(tokens, pos + 1, depth - 1)
            },
            _ => scan(tokens, pos + 1, depth),
        }
    }
}

/// Whether every bracket of `tokens` has its match.
pub open spec fn balanced(tokens: Seq<Token>) -> bool {
    scan(tokens, 0, 0) == (tokens.len() as int, 0int)
}

/// Where following the brackets stops: at a `]` within the tokens, or at
/// their end with no fewer loops open than at the start.
pub proof fn lemma_scan_stops(tokens: Seq<Token>, pos: int, depth: int)
    requires
        0 <= pos <= tokens.len(),
        0 <= depth,
    ensures
        scan(tokens, pos, depth).1 == -1 ==> pos <= scan(tokens, pos, depth).0 < tokens.len()
            && tokens[scan(tokens, pos, depth).0] == Token::LoopEnd,
        scan(tokens, pos, depth).1 != -1 ==> scan(tokens, pos, depth).0 == tokens.len() && scan(
            tokens,
            pos,
            depth,
        ).1 >= 0,
    decreases tokens.len() - pos,
{
    if pos < tokens.len() {
        match tokens[pos] {
            Token::LoopStart => lemma_scan_stops(tokens, pos + 1, depth + 1),
            Token::LoopEnd => if depth > 0 {
                lemma_scan_stops(tokens, pos + 1, depth - 1)
            },
            _ => lemma_scan_stops(tokens, pos + 1, depth),
        }
    }
}

/// With one more loop open at the start, following the brackets passes the
/// `]` at which it stopped before and goes on behind it; where it reached
/// the end before, it reaches it with one more loop open.
pub proof fn lemma_scan_one_deeper(tokens: Seq<Token>, pos: int, depth: int)
    requires
        0 <= pos <= tokens.len(),
        0 <= depth,
    ensures
        scan(tokens, pos, depth).1 == -1 ==> scan(tokens, pos, depth + 1) == scan(
            tokens,
            scan(tokens, pos, depth).0 + 1,
            0,
        ),
        scan(tokens, pos, depth).1 != -1 ==> scan(tokens, pos, depth + 1) == (
            tokens.len() as int,
            scan(tokens, pos, depth).1 + 1,
        ),
    decreases tokens.len() - pos,
{
    if pos < tokens.len() {
        match tokens[pos] {
            Token::LoopStart => lemma_scan_one_deeper(tokens, pos + 1, depth + 1),
            Token::LoopEnd => if depth > 0 {
                lemma_scan_one_deeper(tokens, pos + 1, depth - 1)
            },
            _ => lemma_scan_one_deeper(tokens, pos + 1, depth),
        }
    }
}

/// A run of `up` and `down` ends within the tokens, and following the
/// brackets from its start is following them from its end.
pub proof fn lemma_scan_skips_run(
    tokens: Seq<Token>,
    pos: int,
    up: Token,
    down: Token,
    lo: int,
    hi: int,
    net: int,
    clamped: Option<int>,
    depth: int,
)
    requires
        0 <= pos <= tokens.len(),
        up != Token::LoopStart && up != Token::LoopEnd,
        down != Token::LoopStart && down != Token::LoopEnd,
    ensures
        pos <= net_run(tokens, pos, up, down, lo, hi, net, clamped).1 <= tokens.len(),
        scan(tokens, net_run(tokens, pos, up, down, lo, hi, net, clamped).1, depth) == scan(
            tokens,
            pos,
            depth,
        ),
    decreases tokens.len() - pos,
{
    if pos < tokens.len() && tokens[pos] == up {
        if net + 1 <= hi {
            lemma_scan_skips_run(tokens, pos + 1, up, down, lo, hi, net + 1, clamped, depth);
        } else {
            lemma_scan_skips_run(tokens, pos + 1, up, down, lo, hi, net, Some(hi), depth);
        }
    } else if pos < tokens.len() && tokens[pos] == down {
        if net - 1 >= lo {
            lemma_scan_skips_run(tokens, pos + 1, up, down, lo, hi, net - 1, clamped, depth);
        } else {
            lemma_scan_skips_run(tokens, pos + 1, up, down, lo, hi, net, Some(lo), depth);
        }
    }
}

/// Parsing finds what following the brackets finds.
///
/// Where a `]` closes a loop that the sequence did not open, a sequence
/// inside a loop ends there, and one outside a loop fails there with an
/// unmatched loop end. Where there is none and every loop is closed at the
/// end, the sequence parses to the end. Where loops are left open at the
/// end, parsing fails with an unmatched loop start.
pub proof fn lemma_parse_follows_brackets(tokens: Seq<Token>, pos: int, inside_loop: bool)
    requires
        0 <= pos <= tokens.len(),
    ensures
        ({
            let parsed = parse_from(tokens, pos, inside_loop);
            let found = scan(tokens, pos, 0);
            &&& found.1 == -1 ==> parsed.next == found.0 && if inside_loop {
                parsed.result is Ok
            } else {
                parsed.result == Err::<Seq<crate::parser::Node>, ParseError>(
                    ParseError::UnmatchedLoopEnd { position: Some(found.0 as usize) },
                )
            }
            &&& found.1 == 0 ==> parsed.result is Ok && parsed.next == tokens.len()
            &&& found.1 > 0 ==> parsed.result matches Err(
                ParseError::UnmatchedLoopStart { position },
            )
        }),
    decreases tokens.len() - pos,
{
    lemma_scan_stops(tokens, pos, 0);
    if pos < tokens.len() {
        match tokens[pos] {
            Token::LoopEnd => {},
            Token::IncrementPointer | Token::DecrementPointer => {
                let first: int = if tokens[pos] == Token::IncrementPointer {
                    1
                } else {
                    -1
                };
                lemma_scan_skips_run(
                    tokens,
                    pos + 1,
                    Token::IncrementPointer,
                    Token::DecrementPointer,
                    isize::MIN as int,
                    isize::MAX as int,
                    first,
                    None,
                    0,
                );
                lemma_parse_follows_brackets(tokens, pointer_run(tokens, pos).1, inside_loop);
            },
            Token::IncrementByte | Token::DecrementByte => {
                let first: int = if tokens[pos] == Token::IncrementByte {
                    1
                } else {
                    -1
                };
                lemma_scan_skips_run(
                    tokens,
                    pos + 1,
                    Token::IncrementByte,
                    Token::DecrementByte,
                    i8::MIN as int,
                    i8::MAX as int,
                    first,
                    None,
                    0,
                );
                lemma_parse_follows_brackets(tokens, byte_run(tokens, pos).1, inside_loop);
            },
            Token::OutputByte | Token::InputByte => {
                lemma_parse_follows_brackets(tokens, pos + 1, inside_loop);
            },
            Token::LoopStart => {
                lemma_parse_follows_brackets(tokens, pos + 1, true);
                lemma_scan_stops(tokens, pos + 1, 0);
                lemma_scan_one_deeper(tokens, pos + 1, 0);
                let inner = scan(tokens, pos + 1, 0);
                if inner.1 == -1 {
                    lemma_parse_follows_brackets(tokens, inner.0 + 1, inside_loop);
                }
            },
        }
    }
}

/// Parser balance: a token sequence parses if and only if every bracket in
/// it has its match. Where it does not, the error is an unmatched loop end
/// exactly where a `]` comes first that closes no loop, at the position of
/// that `]`, and an unmatched loop start otherwise.
pub proof fn lemma_parses_iff_balanced(tokens: Seq<Token>)
    ensures
        parse_tokens(tokens) is Ok <==> balanced(tokens),
        scan(tokens, 0, 0).1 == -1 <==> parse_tokens(tokens) == Err::<
            Seq<crate::parser::Node>,
            ParseError,
        >(ParseError::UnmatchedLoopEnd { position: Some(scan(tokens, 0, 0).0 as usize) }),
        scan(tokens, 0, 0).1 > 0 <==> parse_tokens(tokens) matches Err(
            ParseError::UnmatchedLoopStart { position },
        ),
{
    lemma_parse_follows_brackets(tokens, 0, false);
    lemma_scan_stops(tokens, 0, 0);
}

} // verus!
