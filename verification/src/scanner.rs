//! The scanner: a single pass over the source text that produces the ordered
//! token sequence, or the first lexical error found (the scanner is
//! fail-fast: it stops at the first error rather than collecting several).
//!
//! The behaviour is stated by the specification functions [`lex`],
//! [`scan_from`] and [`scan_step`]: `scan_step` says how one token (or one
//! skipped stretch of whitespace or comment) is read at a given position, and
//! `scan_from` folds the steps into the full token sequence, ending in `Eof`.
use vstd::prelude::*;
use vstd::string::StrSliceExecFns;
use vstd::string::StringExecFns;

use crate::token::LexError;
use crate::token::LexErrorModel;
use crate::token::Token;
use crate::token::TokenKind;
use crate::token::TokenKindModel;
use crate::token::TokenModel;

verus! {

// ---------------------------------------------------------------------------
// Character classes
// ---------------------------------------------------------------------------
/// An ASCII decimal digit.
pub open spec fn is_digit_char(c: char) -> bool {
    '0' as u32 <= c as u32 <= '9' as u32
}

/// An ASCII letter or underscore: what may start an identifier.
pub open spec fn is_alpha_char(c: char) -> bool {
    ||| 'a' as u32 <= c as u32 <= 'z' as u32
    ||| 'A' as u32 <= c as u32 <= 'Z' as u32
    ||| c == '_'
}

/// A letter, digit or underscore: what may continue an identifier.
pub open spec fn is_alnum_char(c: char) -> bool {
    is_alpha_char(c) || is_digit_char(c)
}

fn is_digit(c: char) -> (r: bool)
    ensures
        r == is_digit_char(c),
{
    let u = c as u32;
    '0' as u32 <= u && u <= '9' as u32
}

fn is_alpha(c: char) -> (r: bool)
    ensures
        r == is_alpha_char(c),
{
    let u = c as u32;
    ('a' as u32 <= u && u <= 'z' as u32) || ('A' as u32 <= u && u <= 'Z' as u32) || c == '_'
}

fn is_alnum(c: char) -> (r: bool)
    ensures
        r == is_alnum_char(c),
{
    is_alpha(c) || is_digit(c)
}

// ---------------------------------------------------------------------------
// Where maximal runs end
// ---------------------------------------------------------------------------
/// The end of the maximal run of identifier characters starting at `i`.
pub open spec fn ident_end(s: Seq<char>, i: int) -> int
    decreases s.len() - i
        when 0 <= i <= s.len()
{
    if i < s.len() && is_alnum_char(s[i]) {
        ident_end(s, i + 1)
    } else {
        i
    }
}

/// The end of the maximal run of digits starting at `i`.
pub open spec fn digits_end(s: Seq<char>, i: int) -> int
    decreases s.len() - i
        when 0 <= i <= s.len()
{
    if i < s.len() && is_digit_char(s[i]) {
        digits_end(s, i + 1)
    } else {
        i
    }
}

/// The first index at or after `i` holding a newline, or the end of input:
/// where a `//` comment's body ends.
pub open spec fn line_comment_end(s: Seq<char>, i: int) -> int
    decreases s.len() - i
        when 0 <= i <= s.len()
{
    if i < s.len() && s[i] != '\n' {
        line_comment_end(s, i + 1)
    } else {
        i
    }
}

/// The first index at or after `i` holding a closing quote, or the end of
/// input if the string literal is unterminated.
pub open spec fn string_end(s: Seq<char>, i: int) -> int
    decreases s.len() - i
        when 0 <= i <= s.len()
{
    if i < s.len() && s[i] != '"' {
        string_end(s, i + 1)
    } else {
        i
    }
}

/// The index just after the `*/` that closes `depth` open block comments,
/// starting at `i`, or `None` if the input ends first. Block comments nest:
/// each `/*` inside raises the depth, each `*/` lowers it.
pub open spec fn block_end(s: Seq<char>, i: int, depth: int) -> Option<int>
    decreases s.len() - i
        when 0 <= i <= s.len()
{
    if depth <= 0 {
        Some(i)
    } else if i >= s.len() {
        None
    } else if s[i] == '*' && i + 1 < s.len() && s[i + 1] == '/' {
        block_end(s, i + 2, depth - 1)
    } else if s[i] == '/' && i + 1 < s.len() && s[i + 1] == '*' {
        block_end(s, i + 2, depth + 1)
    } else {
        block_end(s, i + 1, depth)
    }
}

/// How many newline characters `s` holds in the half-open range `[from, to)`.
pub open spec fn count_newlines(s: Seq<char>, from: int, to: int) -> int
    decreases to - from
{
    if to <= from {
        0
    } else {
        count_newlines(s, from, to - 1) + if 0 <= to - 1 < s.len() && s[to - 1] == '\n' {
            1int
        } else {
            0int
        }
    }
}

// ---------------------------------------------------------------------------
// Keywords
// ---------------------------------------------------------------------------
/// Classifies a maximal identifier run: one of the sixteen reserved words,
/// or an identifier carrying its name. Case-sensitive and total.
pub open spec fn keyword_kind(w: Seq<char>) -> TokenKindModel {
    if w == "and"@ {
        TokenKindModel::And
    } else if w == "class"@ {
        TokenKindModel::Class
    } else if w == "else"@ {
        TokenKindModel::Else
    } else if w == "false"@ {
        TokenKindModel::False
    } else if w == "fun"@ {
        TokenKindModel::Fun
    } else if w == "for"@ {
        TokenKindModel::For
    } else if w == "if"@ {
        TokenKindModel::If
    } else if w == "nil"@ {
        TokenKindModel::Nil
    } else if w == "or"@ {
        TokenKindModel::Or
    } else if w == "print"@ {
        TokenKindModel::Print
    } else if w == "return"@ {
        TokenKindModel::Return
    } else if w == "super"@ {
        TokenKindModel::Super
    } else if w == "this"@ {
        TokenKindModel::This
    } else if w == "true"@ {
        TokenKindModel::True
    } else if w == "var"@ {
        TokenKindModel::Var
    } else if w == "while"@ {
        TokenKindModel::While
    } else {
        TokenKindModel::Identifier(w)
    }
}

/// The kind of a token spelled by a single character, where one exists.
pub open spec fn single_kind(c: char) -> Option<TokenKindModel> {
    match c {
        '(' => Some(TokenKindModel::LeftParen),
        ')' => Some(TokenKindModel::RightParen),
        '{' => Some(TokenKindModel::LeftBrace),
        '}' => Some(TokenKindModel::RightBrace),
        ',' => Some(TokenKindModel::Comma),
        '.' => Some(TokenKindModel::Dot),
        '-' => Some(TokenKindModel::Minus),
        '+' => Some(TokenKindModel::Plus),
        ';' => Some(TokenKindModel::Semicolon),
        '*' => Some(TokenKindModel::Star),
        _ => None,
    }
}

// ---------------------------------------------------------------------------
// One scanning step
// ---------------------------------------------------------------------------
/// What one scanning step at position `i` does: emits a token reaching to
/// `end`, silently skips to `end`, or fails.
pub enum LexStep {
    Emit { kind: TokenKindModel, end: int },
    Skip { end: int },
    Fail { err: LexErrorModel },
}

/// Reads one token, or one stretch of whitespace or comment, at position `i`
/// of `s` (which must be in range), on line `line`.
///
/// Two-character operators take the `=` greedily (maximal munch); `/`
/// distinguishes line comments, block comments and division; a digit starts
/// a number whose `.` is consumed only when a digit follows; a letter or
/// underscore starts an identifier run classified by [`keyword_kind`];
/// `"` starts a string whose value is the text strictly between the quotes.
pub open spec fn scan_step(s: Seq<char>, i: int, line: int) -> LexStep
    recommends
        0 <= i < s.len(),
{
    let c = s[i];
    match single_kind(c) {
        Some(kind) => LexStep::Emit { kind, end: i + 1 },
        None => if c == '!' {
            if i + 1 < s.len() && s[i + 1] == '=' {
                LexStep::Emit { kind: TokenKindModel::BangEqual, end: i + 2 }
            } else {
                LexStep::Emit { kind: TokenKindModel::Bang, end: i + 1 }
            }
        } else if c == '=' {
            if i + 1 < s.len() && s[i + 1] == '=' {
                LexStep::Emit { kind: TokenKindModel::EqualEqual, end: i + 2 }
            } else {
                LexStep::Emit { kind: TokenKindModel::Equal, end: i + 1 }
            }
        } else if c == '<' {
            if i + 1 < s.len() && s[i + 1] == '=' {
                LexStep::Emit { kind: TokenKindModel::LessEqual, end: i + 2 }
            } else {
                LexStep::Emit { kind: TokenKindModel::Less, end: i + 1 }
            }
        } else if c == '>' {
            if i + 1 < s.len() && s[i + 1] == '=' {
                LexStep::Emit { kind: TokenKindModel::GreaterEqual, end: i + 2 }
            } else {
                LexStep::Emit { kind: TokenKindModel::Greater, end: i + 1 }
            }
        } else if c == '/' {
            if i + 1 < s.len() && s[i + 1] == '/' {
                LexStep::Skip { end: line_comment_end(s, i + 2) }
            } else if i + 1 < s.len() && s[i + 1] == '*' {
                match block_end(s, i + 2, 1) {
                    Some(j) => LexStep::Skip { end: j },
                    None => LexStep::Fail {
                        err: LexErrorModel::UnterminatedBlockComment {
                            line: line + count_newlines(s, i, s.len() as int),
                        },
                    },
                }
            } else {
                LexStep::Emit { kind: TokenKindModel::Slash, end: i + 1 }
            }
        } else if c == ' ' || c == '\t' || c == '\r' || c == '\n' {
            LexStep::Skip { end: i + 1 }
        } else if c == '"' {
            let j = string_end(s, i + 1);
            if j >= s.len() {
                LexStep::Fail {
                    err: LexErrorModel::UnterminatedString {
                        line: line + count_newlines(s, i, s.len() as int),
                    },
                }
            } else {
                LexStep::Emit { kind: TokenKindModel::StringLit(s.subrange(i + 1, j)), end: j + 1 }
            }
        } else if is_digit_char(c) {
            let j = digits_end(s, i);
            if j < s.len() && s[j] == '.' && j + 1 < s.len() && is_digit_char(s[j + 1]) {
                let k = digits_end(s, j + 1);
                LexStep::Emit { kind: TokenKindModel::Number(s.subrange(i, k)), end: k }
            } else {
                LexStep::Emit { kind: TokenKindModel::Number(s.subrange(i, j)), end: j }
            }
        } else if is_alpha_char(c) {
            let j = ident_end(s, i);
            LexStep::Emit { kind: keyword_kind(s.subrange(i, j)), end: j }
        } else {
            LexStep::Fail { err: LexErrorModel::UnexpectedCharacter { ch: c, line } }
        },
    }
}

/// The step at `i` stays inside the input and makes progress.
pub open spec fn step_in_bounds(s: Seq<char>, i: int, line: int) -> bool {
    match scan_step(s, i, line) {
        LexStep::Emit { kind, end } => i < end <= s.len(),
        LexStep::Skip { end } => i < end <= s.len(),
        LexStep::Fail { err } => true,
    }
}

// ---------------------------------------------------------------------------
// Bounds of the helper functions
// ---------------------------------------------------------------------------
pub proof fn lemma_ident_end(s: Seq<char>, i: int)
    requires
        0 <= i <= s.len(),
    ensures
        i <= ident_end(s, i) <= s.len(),
        forall|k: int| i <= k < ident_end(s, i) ==> is_alnum_char(s[k]),
        ident_end(s, i) < s.len() ==> !is_alnum_char(s[ident_end(s, i)]),
    decreases s.len() - i,
{
    if i < s.len() && is_alnum_char(s[i]) {
        lemma_ident_end(s, i + 1);
    }
}

pub proof fn lemma_digits_end(s: Seq<char>, i: int)
    requires
        0 <= i <= s.len(),
    ensures
        i <= digits_end(s, i) <= s.len(),
        forall|k: int| i <= k < digits_end(s, i) ==> is_digit_char(s[k]),
        digits_end(s, i) < s.len() ==> !is_digit_char(s[digits_end(s, i)]),
    decreases s.len() - i,
{
    if i < s.len() && is_digit_char(s[i]) {
        lemma_digits_end(s, i + 1);
    }
}

pub proof fn lemma_line_comment_end(s: Seq<char>, i: int)
    requires
        0 <= i <= s.len(),
    ensures
        i <= line_comment_end(s, i) <= s.len(),
        forall|k: int| i <= k < line_comment_end(s, i) ==> s[k] != '\n',
        line_comment_end(s, i) < s.len() ==> s[line_comment_end(s, i)] == '\n',
    decreases s.len() - i,
{
    if i < s.len() && s[i] != '\n' {
        lemma_line_comment_end(s, i + 1);
    }
}

pub proof fn lemma_string_end(s: Seq<char>, i: int)
    requires
        0 <= i <= s.len(),
    ensures
        i <= string_end(s, i) <= s.len(),
        forall|k: int| i <= k < string_end(s, i) ==> s[k] != '"',
        string_end(s, i) < s.len() ==> s[string_end(s, i)] == '"',
    decreases s.len() - i,
{
    if i < s.len() && s[i] != '"' {
        lemma_string_end(s, i + 1);
    }
}

pub proof fn lemma_block_end(s: Seq<char>, i: int, depth: int)
    requires
        0 <= i <= s.len(),
    ensures
        block_end(s, i, depth) matches Some(j) ==> i <= j <= s.len(),
    decreases s.len() - i,
{
    if depth <= 0 {
    } else if i >= s.len() {
    } else if s[i] == '*' && i + 1 < s.len() && s[i + 1] == '/' {
        lemma_block_end(s, i + 2, depth - 1);
    } else if s[i] == '/' && i + 1 < s.len() && s[i + 1] == '*' {
        lemma_block_end(s, i + 2, depth + 1);
    } else {
        lemma_block_end(s, i + 1, depth);
    }
}

pub proof fn lemma_count_newlines_bounds(s: Seq<char>, from: int, to: int)
    requires
        from <= to,
    ensures
        0 <= count_newlines(s, from, to) <= to - from,
    decreases to - from,
{
    if from < to {
        lemma_count_newlines_bounds(s, from, to - 1);
    }
}

pub proof fn lemma_count_newlines_split(s: Seq<char>, a: int, b: int, c: int)
    requires
        a <= b <= c,
    ensures
        count_newlines(s, a, c) == count_newlines(s, a, b) + count_newlines(s, b, c),
    decreases c - b,
{
    if b < c {
        lemma_count_newlines_split(s, a, b, c - 1);
    }
}

pub proof fn lemma_no_newlines(s: Seq<char>, from: int, to: int)
    requires
        from <= to,
        forall|k: int| from <= k < to && 0 <= k < s.len() ==> s[k] != '\n',
    ensures
        count_newlines(s, from, to) == 0,
    decreases to - from,
{
    if from < to {
        lemma_no_newlines(s, from, to - 1);
    }
}

/// Every step reads at least one character and stays inside the input.
pub proof fn lemma_step_bounds(s: Seq<char>, i: int, line: int)
    requires
        0 <= i < s.len(),
    ensures
        step_in_bounds(s, i, line),
{
    let c = s[i];
    if single_kind(c) is Some {
    } else if c == '/' {
        if i + 1 < s.len() && s[i + 1] == '/' {
            lemma_line_comment_end(s, i + 2);
        } else if i + 1 < s.len() && s[i + 1] == '*' {
            lemma_block_end(s, i + 2, 1);
        }
    } else if c == '"' {
        lemma_string_end(s, i + 1);
    } else if is_digit_char(c) {
        lemma_digits_end(s, i);
        assert(digits_end(s, i) == digits_end(s, i + 1));
        let j = digits_end(s, i);
        if j < s.len() && s[j] == '.' && j + 1 < s.len() && is_digit_char(s[j + 1]) {
            lemma_digits_end(s, j + 1);
        }
    } else if is_alpha_char(c) {
        lemma_ident_end(s, i);
        assert(ident_end(s, i) == ident_end(s, i + 1));
    }
}

// ---------------------------------------------------------------------------
// The specification of scanning
// ---------------------------------------------------------------------------
/// The token sequence produced from position `i` of `s` on line `line`, or
/// the first lexical error. The sequence always ends with one `Eof` token
/// whose lexeme is empty. A token's line is the line on which it ends.
pub open spec fn scan_from(s: Seq<char>, i: int, line: int) -> Result<Seq<TokenModel>, LexErrorModel>
    decreases s.len() - i
        when 0 <= i <= s.len()
{
    if i >= s.len() {
        Ok(seq![TokenModel { kind: TokenKindModel::Eof, lexeme: Seq::empty(), line }])
    } else {
        proof {
            lemma_step_bounds(s, i, line);
        }
        match scan_step(s, i, line) {
            LexStep::Fail { err } => Err(err),
            LexStep::Skip { end } => scan_from(s, end, line + count_newlines(s, i, end)),
            LexStep::Emit { kind, end } => {
                let line2 = line + count_newlines(s, i, end);
                match scan_from(s, end, line2) {
                    Ok(rest) => Ok(
                        seq![TokenModel { kind, lexeme: s.subrange(i, end), line: line2 }] + rest,
                    ),
                    Err(e) => Err(e),
                }
            },
        }
    }
}

/// What scanning a whole source unit means: the token sequence of `s`,
/// scanned from its start on line 1, or the first lexical error.
pub open spec fn lex(s: Seq<char>) -> Result<Seq<TokenModel>, LexErrorModel> {
    scan_from(s, 0, 1)
}

/// The model of an executable scan result.
pub open spec fn result_model(r: Result<Vec<Token>, LexError>) -> Result<
    Seq<TokenModel>,
    LexErrorModel,
> {
    match r {
        Ok(v) => Ok(v.deep_view()),
        Err(e) => Err(e@),
    }
}

// ---------------------------------------------------------------------------
// Executable helpers
// ---------------------------------------------------------------------------
/// The token kind spelled by a single character, where one exists.
fn single_token(c: char) -> (r: Option<TokenKind>)
    ensures
        match r {
            Some(kind) => single_kind(c) == Some(kind@),
            None => single_kind(c) is None,
        },
{
    match c {
        '(' => Some(TokenKind::LeftParen),
        ')' => Some(TokenKind::RightParen),
        '{' => Some(TokenKind::LeftBrace),
        '}' => Some(TokenKind::RightBrace),
        ',' => Some(TokenKind::Comma),
        '.' => Some(TokenKind::Dot),
        '-' => Some(TokenKind::Minus),
        '+' => Some(TokenKind::Plus),
        ';' => Some(TokenKind::Semicolon),
        '*' => Some(TokenKind::Star),
        _ => None,
    }
}

/// Classifies a scanned identifier run: a reserved word, or an identifier.
fn word_kind(w: &String) -> (k: TokenKind)
    ensures
        k@ == keyword_kind(w@),
{
    if *w == String::from_str("and") {
        TokenKind::And
    } else if *w == String::from_str("class") {
        TokenKind::Class
    } else if *w == String::from_str("else") {
        TokenKind::Else
    } else if *w == String::from_str("false") {
        TokenKind::False
    } else if *w == String::from_str("fun") {
        TokenKind::Fun
    } else if *w == String::from_str("for") {
        TokenKind::For
    } else if *w == String::from_str("if") {
        TokenKind::If
    } else if *w == String::from_str("nil") {
        TokenKind::Nil
    } else if *w == String::from_str("or") {
        TokenKind::Or
    } else if *w == String::from_str("print") {
        TokenKind::Print
    } else if *w == String::from_str("return") {
        TokenKind::Return
    } else if *w == String::from_str("super") {
        TokenKind::Super
    } else if *w == String::from_str("this") {
        TokenKind::This
    } else if *w == String::from_str("true") {
        TokenKind::True
    } else if *w == String::from_str("var") {
        TokenKind::Var
    } else if *w == String::from_str("while") {
        TokenKind::While
    } else {
        TokenKind::Identifier(w.clone())
    }
}

/// Slices the lexeme `[start, end)` out of the source and appends the token.
fn push_token(tokens: &mut Vec<Token>, source: &str, start: usize, end: usize, kind: TokenKind, line: usize)
    requires
        start <= end <= source@.len(),
    ensures
        final(tokens).deep_view() == old(tokens).deep_view().push(
            TokenModel {
                kind: kind@,
                lexeme: source@.subrange(start as int, end as int),
                line: line as int,
            },
        ),
{
    let lexeme = source.substring_char(start, end).to_owned();
    let t = Token::new(kind, lexeme, line);
    tokens.push(t);
    proof {
        assert(tokens.deep_view() =~= old(tokens).deep_view().push(t@));
    }
}

// ---------------------------------------------------------------------------
// Relating one executable step to the specification
// ---------------------------------------------------------------------------
/// Prepends an already-scanned prefix to the outcome of the remaining scan.
pub open spec fn glue(
    prefix: Seq<TokenModel>,
    rest: Result<Seq<TokenModel>, LexErrorModel>,
) -> Result<Seq<TokenModel>, LexErrorModel> {
    match rest {
        Ok(r) => Ok(prefix + r),
        Err(e) => Err(e),
    }
}

/// Taking one emitting step keeps the glued scan result, moves the cursor
/// forward, and advances the line count by the newlines the token spans.
proof fn lemma_advance_emit(
    s: Seq<char>,
    i: int,
    line: int,
    kind: TokenKindModel,
    end: int,
    prefix: Seq<TokenModel>,
)
    requires
        0 <= i < s.len(),
        scan_step(s, i, line) == (LexStep::Emit { kind, end }),
        line == 1 + count_newlines(s, 0, i),
    ensures
        i < end <= s.len(),
        glue(prefix, scan_from(s, i, line)) == glue(
            prefix.push(
                TokenModel {
                    kind,
                    lexeme: s.subrange(i, end),
                    line: line + count_newlines(s, i, end),
                },
            ),
            scan_from(s, end, line + count_newlines(s, i, end)),
        ),
        line + count_newlines(s, i, end) == 1 + count_newlines(s, 0, end),
        line <= line + count_newlines(s, i, end) <= 1 + end,
{
    lemma_step_bounds(s, i, line);
    lemma_count_newlines_split(s, 0, i, end);
    lemma_count_newlines_bounds(s, i, end);
    lemma_count_newlines_bounds(s, 0, i);
    let line2 = line + count_newlines(s, i, end);
    let tok = TokenModel { kind, lexeme: s.subrange(i, end), line: line2 };
    match scan_from(s, end, line2) {
        Ok(rest) => {
            assert(prefix + (seq![tok] + rest) =~= prefix.push(tok) + rest);
        },
        Err(e) => {},
    }
}

/// Taking one skipping step keeps the glued scan result and advances the
/// line count by the newlines the skipped stretch spans.
proof fn lemma_advance_skip(s: Seq<char>, i: int, line: int, end: int, prefix: Seq<TokenModel>)
    requires
        0 <= i < s.len(),
        scan_step(s, i, line) == (LexStep::Skip { end }),
        line == 1 + count_newlines(s, 0, i),
    ensures
        i < end <= s.len(),
        glue(prefix, scan_from(s, i, line)) == glue(
            prefix,
            scan_from(s, end, line + count_newlines(s, i, end)),
        ),
        line + count_newlines(s, i, end) == 1 + count_newlines(s, 0, end),
        line <= line + count_newlines(s, i, end) <= 1 + end,
{
    lemma_step_bounds(s, i, line);
    lemma_count_newlines_split(s, 0, i, end);
    lemma_count_newlines_bounds(s, i, end);
    lemma_count_newlines_bounds(s, 0, i);
}

/// A failing step makes the whole scan fail with that error.
proof fn lemma_advance_fail(s: Seq<char>, i: int, line: int, err: LexErrorModel)
    requires
        0 <= i < s.len(),
        scan_step(s, i, line) == (LexStep::Fail { err }),
    ensures
        scan_from(s, i, line) == Err::<Seq<TokenModel>, LexErrorModel>(err),
{
}

// ---------------------------------------------------------------------------
// The scanner
// ---------------------------------------------------------------------------
/// Scans a whole source unit into its token sequence, ending in one `Eof`
/// token, or reports the first lexical error: exactly [`lex`] on the
/// source's characters. The length bound keeps the 1-based line counter
/// representable.
#[verifier::loop_isolation(false)]
pub fn scan_tokens(source: &str) -> (r: Result<Vec<Token>, LexError>)
    requires
        source@.len() < usize::MAX,
    ensures
        result_model(r) == lex(source@),
{
    let ghost s = source@;
    let n = source.unicode_len();
    let mut tokens: Vec<Token> = Vec::new();
    let mut i: usize = 0;
    let mut line: usize = 1;
    proof {
        assert(tokens.deep_view() =~= Seq::<TokenModel>::empty());
        match scan_from(s, 0, 1) {
            Ok(r0) => {
                assert(Seq::<TokenModel>::empty() + r0 =~= r0);
            },
            Err(_) => {},
        }
    }
    while i < n
        invariant
            source@ == s,
            n == s.len(),
            s.len() < usize::MAX,
            i <= n,
            line as int == 1 + count_newlines(s, 0, i as int),
            lex(s) == glue(tokens.deep_view(), scan_from(s, i as int, line as int)),
        decreases n - i,
    {
        let ghost prefix = tokens.deep_view();
        let ghost gi = i as int;
        let ghost gline = line as int;
        let c = source.get_char(i);
        if let Some(kind) = single_token(c) {
            proof {
                lemma_no_newlines(s, gi, gi + 1);
                lemma_advance_emit(s, gi, gline, kind@, gi + 1, prefix);
            }
            push_token(&mut tokens, source, i, i + 1, kind, line);
            i = i + 1;
        } else {
            match c {
                '!' => {
                    if i + 1 < n && source.get_char(i + 1) == '=' {
                        proof {
                            lemma_no_newlines(s, gi, gi + 2);
                            lemma_advance_emit(s, gi, gline, TokenKindModel::BangEqual, gi + 2, prefix);
                        }
                        push_token(&mut tokens, source, i, i + 2, TokenKind::BangEqual, line);
                        i = i + 2;
                    } else {
                        proof {
                            lemma_no_newlines(s, gi, gi + 1);
                            lemma_advance_emit(s, gi, gline, TokenKindModel::Bang, gi + 1, prefix);
                        }
                        push_token(&mut tokens, source, i, i + 1, TokenKind::Bang, line);
                        i = i + 1;
                    }
                },
                '=' => {
                    if i + 1 < n && source.get_char(i + 1) == '=' {
                        proof {
                            lemma_no_newlines(s, gi, gi + 2);
                            lemma_advance_emit(s, gi, gline, TokenKindModel::EqualEqual, gi + 2, prefix);
                        }
                        push_token(&mut tokens, source, i, i + 2, TokenKind::EqualEqual, line);
                        i = i + 2;
                    } else {
                        proof {
                            lemma_no_newlines(s, gi, gi + 1);
                            lemma_advance_emit(s, gi, gline, TokenKindModel::Equal, gi + 1, prefix);
                        }
                        push_token(&mut tokens, source, i, i + 1, TokenKind::Equal, line);
                        i = i + 1;
                    }
                },
                '<' => {
                    if i + 1 < n && source.get_char(i + 1) == '=' {
                        proof {
                            lemma_no_newlines(s, gi, gi + 2);
                            lemma_advance_emit(s, gi, gline, TokenKindModel::LessEqual, gi + 2, prefix);
                        }
                        push_token(&mut tokens, source, i, i + 2, TokenKind::LessEqual, line);
                        i = i + 2;
                    } else {
                        proof {
                            lemma_no_newlines(s, gi, gi + 1);
                            lemma_advance_emit(s, gi, gline, TokenKindModel::Less, gi + 1, prefix);
                        }
                        push_token(&mut tokens, source, i, i + 1, TokenKind::Less, line);
                        i = i + 1;
                    }
                },
                '>' => {
                    if i + 1 < n && source.get_char(i + 1) == '=' {
                        proof {
                            lemma_no_newlines(s, gi, gi + 2);
                            lemma_advance_emit(s, gi, gline, TokenKindModel::GreaterEqual, gi + 2, prefix);
                        }
                        push_token(&mut tokens, source, i, i + 2, TokenKind::GreaterEqual, line);
                        i = i + 2;
                    } else {
                        proof {
                            lemma_no_newlines(s, gi, gi + 1);
                            lemma_advance_emit(s, gi, gline, TokenKindModel::Greater, gi + 1, prefix);
                        }
                        push_token(&mut tokens, source, i, i + 1, TokenKind::Greater, line);
                        i = i + 1;
                    }
                },
                '/' => {
                    if i + 1 < n && source.get_char(i + 1) == '/' {
                        // A line comment: skip to the end of the line.
                        let mut j = i + 2;
                        while j < n && source.get_char(j) != '\n'
                            invariant
                                gi + 2 <= j <= n,
                                line_comment_end(s, gi + 2) == line_comment_end(s, j as int),
                            decreases n - j,
                        {
                            j = j + 1;
                        }
                        proof {
                            assert(line_comment_end(s, j as int) == j as int);
                            assert(scan_step(s, gi, gline) == (LexStep::Skip { end: j as int }));
                            lemma_line_comment_end(s, gi + 2);
                            lemma_no_newlines(s, gi, j as int);
                            lemma_advance_skip(s, gi, gline, j as int, prefix);
                        }
                        i = j;
                    } else if i + 1 < n && source.get_char(i + 1) == '*' {
                        // A block comment: skip to the matching `*/`,
                        // honouring nesting and counting newlines.
                        let mut j = i + 2;
                        let mut depth: usize = 1;
                        let mut line2 = line;
                        proof {
                            assert(count_newlines(s, 0, gi + 1) == count_newlines(s, 0, gi));
                            assert(count_newlines(s, 0, gi + 2) == count_newlines(s, 0, gi + 1));
                        }
                        while depth > 0 && j < n
                            invariant
                                gi + 2 <= j <= n,
                                depth <= j,
                                line2 as int == 1 + count_newlines(s, 0, j as int),
                                depth >= 1 ==> block_end(s, gi + 2, 1) == block_end(
                                    s,
                                    j as int,
                                    depth as int,
                                ),
                                depth == 0 ==> block_end(s, gi + 2, 1) == Some(j as int),
                            decreases n - j,
                        {
                            let c2 = source.get_char(j);
                            if c2 == '*' && j + 1 < n && source.get_char(j + 1) == '/' {
                                proof {
                                    assert(count_newlines(s, 0, j as int + 1) == count_newlines(s, 0, j as int));
                                    assert(count_newlines(s, 0, j as int + 2) == count_newlines(s, 0, j as int + 1));
                                    assert(block_end(s, j as int, depth as int) == block_end(
                                        s,
                                        j as int + 2,
                                        depth as int - 1,
                                    ));
                                }
                                depth = depth - 1;
                                j = j + 2;
                            } else if c2 == '/' && j + 1 < n && source.get_char(j + 1) == '*' {
                                proof {
                                    assert(count_newlines(s, 0, j as int + 1) == count_newlines(s, 0, j as int));
                                    assert(count_newlines(s, 0, j as int + 2) == count_newlines(s, 0, j as int + 1));
                                    assert(block_end(s, j as int, depth as int) == block_end(
                                        s,
                                        j as int + 2,
                                        depth as int + 1,
                                    ));
                                }
                                depth = depth + 1;
                                j = j + 2;
                            } else {
                                if c2 == '\n' {
                                    proof {
                                        lemma_count_newlines_bounds(s, 0, j as int);
                                    }
                                    line2 = line2 + 1;
                                }
                                j = j + 1;
                            }
                        }
                        if depth > 0 {
                            proof {
                                assert(block_end(s, j as int, depth as int) is None);
                                lemma_count_newlines_split(s, 0, gi, n as int);
                                let err = LexErrorModel::UnterminatedBlockComment {
                                    line: gline + count_newlines(s, gi, n as int),
                                };
                                assert(scan_step(s, gi, gline) == (LexStep::Fail { err }));
                                lemma_advance_fail(s, gi, gline, err);
                            }
                            return Err(LexError::UnterminatedBlockComment { line: line2 });
                        }
                        proof {
                            assert(scan_step(s, gi, gline) == (LexStep::Skip { end: j as int }));
                            lemma_advance_skip(s, gi, gline, j as int, prefix);
                            lemma_count_newlines_split(s, 0, gi, j as int);
                        }
                        i = j;
                        line = line2;
                    } else {
                        proof {
                            lemma_no_newlines(s, gi, gi + 1);
                            lemma_advance_emit(s, gi, gline, TokenKindModel::Slash, gi + 1, prefix);
                        }
                        push_token(&mut tokens, source, i, i + 1, TokenKind::Slash, line);
                        i = i + 1;
                    }
                },
                ' ' | '\t' | '\r' => {
                    proof {
                        assert(scan_step(s, gi, gline) == (LexStep::Skip { end: gi + 1 }));
                        lemma_no_newlines(s, gi, gi + 1);
                        lemma_advance_skip(s, gi, gline, gi + 1, prefix);
                    }
                    i = i + 1;
                },
                '\n' => {
                    proof {
                        assert(scan_step(s, gi, gline) == (LexStep::Skip { end: gi + 1 }));
                        assert(count_newlines(s, gi, gi) == 0);
                        assert(count_newlines(s, gi, gi + 1) == 1);
                        lemma_advance_skip(s, gi, gline, gi + 1, prefix);
                    }
                    line = line + 1;
                    i = i + 1;
                },
                '"' => {
                    // A string literal: runs to the closing quote and may
                    // span several lines.
                    let mut j = i + 1;
                    let mut line2 = line;
                    proof {
                        assert(count_newlines(s, 0, gi + 1) == count_newlines(s, 0, gi));
                    }
                    while j < n && source.get_char(j) != '"'
                        invariant
                            gi + 1 <= j <= n,
                            string_end(s, gi + 1) == string_end(s, j as int),
                            line2 as int == 1 + count_newlines(s, 0, j as int),
                        decreases n - j,
                    {
                        if source.get_char(j) == '\n' {
                            proof {
                                lemma_count_newlines_bounds(s, 0, j as int);
                            }
                            line2 = line2 + 1;
                        }
                        j = j + 1;
                    }
                    proof {
                        assert(string_end(s, j as int) == j as int);
                    }
                    if j == n {
                        proof {
                            lemma_count_newlines_split(s, 0, gi, n as int);
                            let err = LexErrorModel::UnterminatedString {
                                line: gline + count_newlines(s, gi, n as int),
                            };
                            assert(scan_step(s, gi, gline) == (LexStep::Fail { err }));
                            lemma_advance_fail(s, gi, gline, err);
                        }
                        return Err(LexError::UnterminatedString { line: line2 });
                    }
                    let value = source.substring_char(i + 1, j).to_owned();
                    proof {
                        let kind = TokenKindModel::StringLit(s.subrange(gi + 1, j as int));
                        assert(scan_step(s, gi, gline) == (LexStep::Emit { kind, end: j as int + 1 }));
                        lemma_advance_emit(s, gi, gline, kind, j as int + 1, prefix);
                        lemma_count_newlines_split(s, 0, gi, j as int + 1);
                        assert(count_newlines(s, 0, j as int + 1) == count_newlines(s, 0, j as int));
                    }
                    push_token(&mut tokens, source, i, j + 1, TokenKind::StringLit(value), line2);
                    i = j + 1;
                    line = line2;
                },
                other => {
                    if is_digit(other) {
                        // A number: a maximal run of digits, optionally a
                        // `.` followed by a further maximal run of digits.
                        let mut j = i + 1;
                        proof {
                            assert(digits_end(s, gi) == digits_end(s, gi + 1));
                        }
                        while j < n && is_digit(source.get_char(j))
                            invariant
                                gi < j <= n,
                                digits_end(s, gi) == digits_end(s, j as int),
                            decreases n - j,
                        {
                            j = j + 1;
                        }
                        proof {
                            assert(digits_end(s, j as int) == j as int);
                        }
                        let mut end = j;
                        if j < n && source.get_char(j) == '.' {
                            if j + 1 < n && is_digit(source.get_char(j + 1)) {
                                let mut k = j + 2;
                                proof {
                                    assert(digits_end(s, j as int + 1) == digits_end(s, j as int + 2));
                                }
                                while k < n && is_digit(source.get_char(k))
                                    invariant
                                        j + 2 <= k <= n,
                                        digits_end(s, j as int + 1) == digits_end(s, k as int),
                                    decreases n - k,
                                {
                                    k = k + 1;
                                }
                                proof {
                                    assert(digits_end(s, k as int) == k as int);
                                }
                                end = k;
                            }
                        }
                        let digits = source.substring_char(i, end).to_owned();
                        proof {
                            let kind = TokenKindModel::Number(s.subrange(gi, end as int));
                            assert(scan_step(s, gi, gline) == (LexStep::Emit { kind, end: end as int }));
                            lemma_digits_end(s, gi);
                            if end as int > digits_end(s, gi) {
                                lemma_digits_end(s, digits_end(s, gi) + 1);
                            }
                            assert forall|k: int| gi <= k < end as int implies s[k] != '\n' by {
                                if k < digits_end(s, gi) {
                                } else if k == digits_end(s, gi) {
                                } else {
                                }
                            }
                            lemma_no_newlines(s, gi, end as int);
                            lemma_advance_emit(s, gi, gline, kind, end as int, prefix);
                        }
                        push_token(&mut tokens, source, i, end, TokenKind::Number(digits), line);
                        i = end;
                    } else if is_alpha(other) {
                        // An identifier or reserved word: a maximal run of
                        // letters, digits and underscores.
                        let mut j = i + 1;
                        proof {
                            assert(ident_end(s, gi) == ident_end(s, gi + 1));
                        }
                        while j < n && is_alnum(source.get_char(j))
                            invariant
                                gi < j <= n,
                                ident_end(s, gi) == ident_end(s, j as int),
                            decreases n - j,
                        {
                            j = j + 1;
                        }
                        proof {
                            assert(ident_end(s, j as int) == j as int);
                        }
                        let word = source.substring_char(i, j).to_owned();
                        let kind = word_kind(&word);
                        proof {
                            assert(scan_step(s, gi, gline) == (LexStep::Emit {
                                kind: keyword_kind(s.subrange(gi, j as int)),
                                end: j as int,
                            }));
                            lemma_ident_end(s, gi);
                            lemma_no_newlines(s, gi, j as int);
                            lemma_advance_emit(s, gi, gline, keyword_kind(s.subrange(gi, j as int)), j as int, prefix);
                        }
                        push_token(&mut tokens, source, i, j, kind, line);
                        i = j;
                    } else {
                        proof {
                            let err = LexErrorModel::UnexpectedCharacter { ch: other, line: gline };
                            assert(scan_step(s, gi, gline) == (LexStep::Fail { err }));
                            lemma_advance_fail(s, gi, gline, err);
                        }
                        return Err(LexError::UnexpectedCharacter { ch: other, line });
                    }
                },
            }
        }
    }
    let ghost prefix = tokens.deep_view();
    let t = Token::new(TokenKind::Eof, String::new(), line);
    tokens.push(t);
    proof {
        let eof_model = TokenModel {
            kind: TokenKindModel::Eof,
            lexeme: Seq::empty(),
            line: line as int,
        };
        assert(scan_from(s, i as int, line as int) == Ok::<Seq<TokenModel>, LexErrorModel>(
            seq![eof_model],
        ));
        assert(t@ == eof_model);
        assert(tokens.deep_view() =~= prefix.push(eof_model));
        assert(prefix + seq![eof_model] =~= prefix.push(eof_model));
    }
    Ok(tokens)
}

} // verus!
