//! Lexical front end of a small language toolchain: turns a raw byte buffer
//! of source text into a sequence of classified tokens, pulled one at a time.

pub mod ascii;
pub mod laws;
pub mod lexer;
pub mod scan;
pub mod token;
pub mod trivia;

pub use lexer::TokenIter;
pub use token::Decimal;
pub use token::Keyword;
pub use token::Token;
pub use token::TokenizeError;
pub use token::Ty;
pub use token::Value;
