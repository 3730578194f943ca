//! Lexical analysis: source text to command tokens.

mod lexer;
mod tokens;

pub use lexer::lemma_lex_length;
pub use lexer::lemma_lex_symbols;
pub use lexer::lex;
pub use lexer::symbols;
pub use lexer::Lexer;
pub use tokens::token_of;
pub use tokens::token_text;
pub use tokens::Token;
