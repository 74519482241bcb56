//! Tokens of the scripting language: the closed set of token kinds, the
//! line-tagged token record, and the lexical errors the scanner can report.
use vstd::prelude::*;

verus! {

/// The closed set of token kinds.
///
/// Literal variants carry their decoded value: an identifier carries its
/// name, a string literal carries the text strictly between the quotes, and
/// a number carries its exact decimal digits (a maximal run of digits,
/// optionally followed by `.` and a further maximal run of digits). Callers
/// that want a machine float parse those digits themselves; the digits
/// determine the value.
#[derive(Debug, Clone, PartialEq)]
pub enum TokenKind {
    LeftParen,
    RightParen,
    LeftBrace,
    RightBrace,
    Comma,
    Dot,
    Minus,
    Plus,
    Semicolon,
    Slash,
    Star,
    Bang,
    BangEqual,
    Equal,
    EqualEqual,
    Greater,
    GreaterEqual,
    Less,
    LessEqual,
    Identifier(String),
    StringLit(String),
    Number(String),
    And,
    Class,
    Else,
    False,
    Fun,
    For,
    If,
    Nil,
    Or,
    Print,
    Return,
    Super,
    This,
    True,
    Var,
    While,
    Eof,
}

/// The mathematical model of a token kind: the same variants, with every
/// carried text as a sequence of characters.
pub enum TokenKindModel {
    LeftParen,
    RightParen,
    LeftBrace,
    RightBrace,
    Comma,
    Dot,
    Minus,
    Plus,
    Semicolon,
    Slash,
    Star,
    Bang,
    BangEqual,
    Equal,
    EqualEqual,
    Greater,
    GreaterEqual,
    Less,
    LessEqual,
    Identifier(Seq<char>),
    StringLit(Seq<char>),
    Number(Seq<char>),
    And,
    Class,
    Else,
    False,
    Fun,
    For,
    If,
    Nil,
    Or,
    Print,
    Return,
    Super,
    This,
    True,
    Var,
    While,
    Eof,
}

impl View for TokenKind {
    type V = TokenKindModel;

    open spec fn view(&self) -> TokenKindModel {
        match self {
            TokenKind::LeftParen => TokenKindModel::LeftParen,
            TokenKind::RightParen => TokenKindModel::RightParen,
            TokenKind::LeftBrace => TokenKindModel::LeftBrace,
            TokenKind::RightBrace => TokenKindModel::RightBrace,
            TokenKind::Comma => TokenKindModel::Comma,
            TokenKind::Dot => TokenKindModel::Dot,
            TokenKind::Minus => TokenKindModel::Minus,
            TokenKind::Plus => TokenKindModel::Plus,
            TokenKind::Semicolon => TokenKindModel::Semicolon,
            TokenKind::Slash => TokenKindModel::Slash,
            TokenKind::Star => TokenKindModel::Star,
            TokenKind::Bang => TokenKindModel::Bang,
            TokenKind::BangEqual => TokenKindModel::BangEqual,
            TokenKind::Equal => TokenKindModel::Equal,
            TokenKind::EqualEqual => TokenKindModel::EqualEqual,
            TokenKind::Greater => TokenKindModel::Greater,
            TokenKind::GreaterEqual => TokenKindModel::GreaterEqual,
            TokenKind::Less => TokenKindModel::Less,
            TokenKind::LessEqual => TokenKindModel::LessEqual,
            TokenKind::Identifier(name) => TokenKindModel::Identifier(name@),
            TokenKind::StringLit(value) => TokenKindModel::StringLit(value@),
            TokenKind::Number(digits) => TokenKindModel::Number(digits@),
            TokenKind::And => TokenKindModel::And,
            TokenKind::Class => TokenKindModel::Class,
            TokenKind::Else => TokenKindModel::Else,
            TokenKind::False => TokenKindModel::False,
            TokenKind::Fun => TokenKindModel::Fun,
            TokenKind::For => TokenKindModel::For,
            TokenKind::If => TokenKindModel::If,
            TokenKind::Nil => TokenKindModel::Nil,
            TokenKind::Or => TokenKindModel::Or,
            TokenKind::Print => TokenKindModel::Print,
            TokenKind::Return => TokenKindModel::Return,
            TokenKind::Super => TokenKindModel::Super,
            TokenKind::This => TokenKindModel::This,
            TokenKind::True => TokenKindModel::True,
            TokenKind::Var => TokenKindModel::Var,
            TokenKind::While => TokenKindModel::While,
            TokenKind::Eof => TokenKindModel::Eof,
        }
    }
}

impl DeepView for TokenKind {
    type V = TokenKindModel;

    open spec fn deep_view(&self) -> TokenKindModel {
        self.view()
    }
}

/// One classified, line-tagged unit of lexical meaning.
///
/// `lexeme` is the exact source substring matched (empty for `Eof`), and
/// `line` is the 1-based line on which the token ends.
#[derive(Debug, Clone, PartialEq)]
pub struct Token {
    pub kind: TokenKind,
    pub lexeme: String,
    pub line: usize,
}

/// The mathematical model of a token.
pub struct TokenModel {
    pub kind: TokenKindModel,
    pub lexeme: Seq<char>,
    pub line: int,
}

impl View for Token {
    type V = TokenModel;

    open spec fn view(&self) -> TokenModel {
        TokenModel { kind: self.kind@, lexeme: self.lexeme@, line: self.line as int }
    }
}

impl DeepView for Token {
    type V = TokenModel;

    open spec fn deep_view(&self) -> TokenModel {
        self.view()
    }
}

impl Token {
    /// Constructs a token from its kind, its exact source text and its line.
    pub fn new(kind: TokenKind, lexeme: String, line: usize) -> (t: Token)
        ensures
            t.kind == kind,
            t.lexeme == lexeme,
            t.line == line,
    {
        Token { kind, lexeme, line }
    }
}

/// A lexical error, carrying the 1-based line number where it was detected.
#[derive(Debug, Clone, PartialEq, Eq)]
pub enum LexError {
    /// A character that matches none of the recognized token-start rules.
    UnexpectedCharacter { ch: char, line: usize },
    /// End of input was reached inside a string literal.
    UnterminatedString { line: usize },
    /// End of input was reached inside a (possibly nested) block comment.
    UnterminatedBlockComment { line: usize },
}

/// The mathematical model of a lexical error.
pub enum LexErrorModel {
    UnexpectedCharacter { ch: char, line: int },
    UnterminatedString { line: int },
    UnterminatedBlockComment { line: int },
}

impl View for LexError {
    type V = LexErrorModel;

    open spec fn view(&self) -> LexErrorModel {
        match self {
            LexError::UnexpectedCharacter { ch, line } => LexErrorModel::UnexpectedCharacter {
                ch: *ch,
                line: *line as int,
            },
            LexError::UnterminatedString { line } => LexErrorModel::UnterminatedString {
                line: *line as int,
            },
            LexError::UnterminatedBlockComment { line } => LexErrorModel::UnterminatedBlockComment {
                line: *line as int,
            },
        }
    }
}

impl DeepView for LexError {
    type V = LexErrorModel;

    open spec fn deep_view(&self) -> LexErrorModel {
        self.view()
    }
}

} // verus!
