pub mod laws;
pub mod scanner;
pub mod token;

pub use scanner::scan_tokens;
pub use token::LexError;
pub use token::Token;
pub use token::TokenKind;
