use vstd::prelude::*;
use vstd::string::StringExecFns;

verus! {

/// One of the eight command symbols.
#[derive(Debug, Clone, Copy, PartialEq, Eq, Structural)]
pub enum Token {
    /// `>`
    IncrementPointer,
    /// `<`
    DecrementPointer,
    /// `+`
    IncrementByte,
    /// `-`
    DecrementByte,
    /// `.`
    OutputByte,
    /// `,`
    InputByte,
    /// `[`
    LoopStart,
    /// `]`
    LoopEnd,
}

/// The token that a source byte stands for, if it is a command symbol.
pub open spec fn token_of(byte: u8) -> Option<Token> {
    if byte == 0x3e {
        Some(Token::IncrementPointer)
    } else if byte == 0x3c {
        Some(Token::DecrementPointer)
    } else if byte == 0x2b {
        Some(Token::IncrementByte)
    } else if byte == 0x2d {
        Some(Token::DecrementByte)
    } else if byte == 0x2e {
        Some(Token::OutputByte)
    } else if byte == 0x2c {
        Some(Token::InputByte)
    } else if byte == 0x5b {
        Some(Token::LoopStart)
    } else if byte == 0x5d {
        Some(Token::LoopEnd)
    } else {
        None
    }
}

/// The text that is written for a token: its one symbol.
pub open spec fn token_text(token: Token) -> Seq<char> {
    match token {
        Token::IncrementPointer => ">"@,
        Token::DecrementPointer => "<"@,
        Token::IncrementByte => "+"@,
        Token::DecrementByte => "-"@,
        Token::OutputByte => "."@,
        Token::InputByte => ","@,
        Token::LoopStart => "["@,
        Token::LoopEnd => "]"@,
    }
}

impl Token {
    /// The token as text.
    pub fn to_string(&self) -> (text: String)
        ensures
            text@ == token_text(*self),
    {
        String::from_str(
            match self {
                Token::IncrementPointer => ">",
                Token::DecrementPointer => "<",
                Token::IncrementByte => "+",
                Token::DecrementByte => "-",
                Token::OutputByte => ".",
                Token::InputByte => ",",
                Token::LoopStart => "[",
                Token::LoopEnd => "]",
            },
        )
    }

    /// Whether the token is `>` or `<`.
    pub fn is_pointer_move(self) -> (yes: bool)
        ensures
            yes == (self == Token::IncrementPointer || self == Token::DecrementPointer),
    {
        match self {
            Token::IncrementPointer | Token::DecrementPointer => true,
            _ => false,
        }
    }

    /// Whether the token is `+` or `-`.
    pub fn is_cell_change(self) -> (yes: bool)
        ensures
            yes == (self == Token::IncrementByte || self == Token::DecrementByte),
    {
        match self {
            Token::IncrementByte | Token::DecrementByte => true,
            _ => false,
        }
    }

    /// The source byte that is written for this token.
    pub open spec fn spec_symbol(self) -> u8 {
        match self {
            Token::IncrementPointer => 0x3e,
            Token::DecrementPointer => 0x3c,
            Token::IncrementByte => 0x2b,
            Token::DecrementByte => 0x2d,
            Token::OutputByte => 0x2e,
            Token::InputByte => 0x2c,
            Token::LoopStart => 0x5b,
            Token::LoopEnd => 0x5d,
        }
    }

    /// Classifies one source byte.
    pub fn from_byte(byte: u8) -> (token: Option<Token>)
        ensures
            token == token_of(byte),
    {
        match byte {
            0x3eu8 => Some(Token::IncrementPointer),
            0x3cu8 => Some(Token::DecrementPointer),
            0x2bu8 => Some(Token::IncrementByte),
            0x2du8 => Some(Token::DecrementByte),
            0x2eu8 => Some(Token::OutputByte),
            0x2cu8 => Some(Token::InputByte),
            0x5bu8 => Some(Token::LoopStart),
            0x5du8 => Some(Token::LoopEnd),
            _ => None,
        }
    }

    /// The source byte that is written for this token.
    #[verifier::when_used_as_spec(spec_symbol)]
    pub fn symbol(self) -> (byte: u8)
        ensures
            byte == self.spec_symbol(),
            token_of(byte) == Some(self),
    {
        match self {
            Token::IncrementPointer => 0x3eu8,
            Token::DecrementPointer => 0x3cu8,
            Token::IncrementByte => 0x2bu8,
            Token::DecrementByte => 0x2du8,
            Token::OutputByte => 0x2eu8,
            Token::InputByte => 0x2cu8,
            Token::LoopStart => 0x5bu8,
            Token::LoopEnd => 0x5du8,
        }
    }
}

} // verus!
