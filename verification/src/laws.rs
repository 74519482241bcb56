//! Laws of the scanner, proved from the specification in [`crate::scanner`]:
//! re-lexing a token's lexeme in isolation reproduces the token; inputs made
//! of nothing but whitespace and comments scan to exactly the `Eof` token;
//! and every successful scan is a non-empty sequence that ends in exactly
//! one `Eof` token and carries non-decreasing, positive line numbers.
use vstd::prelude::*;

use crate::scanner::block_end;
use crate::scanner::count_newlines;
use crate::scanner::digits_end;
use crate::scanner::ident_end;
use crate::scanner::is_alnum_char;
use crate::scanner::is_alpha_char;
use crate::scanner::is_digit_char;
use crate::scanner::keyword_kind;
use crate::scanner::lemma_block_end;
use crate::scanner::lemma_count_newlines_bounds;
use crate::scanner::lemma_count_newlines_split;
use crate::scanner::lemma_digits_end;
use crate::scanner::lemma_ident_end;
use crate::scanner::lemma_line_comment_end;
use crate::scanner::lemma_step_bounds;
use crate::scanner::lemma_string_end;
use crate::scanner::lex;
use crate::scanner::line_comment_end;
use crate::scanner::scan_from;
use crate::scanner::scan_step;
use crate::scanner::single_kind;
use crate::scanner::string_end;
use crate::scanner::LexStep;
use crate::token::LexErrorModel;
use crate::token::TokenKindModel;
use crate::token::TokenModel;

verus! {

// ---------------------------------------------------------------------------
// Where maximal runs end, read off from the characters
// ---------------------------------------------------------------------------
proof fn lemma_digits_end_is(s: Seq<char>, a: int, m: int)
    requires
        0 <= a <= m <= s.len(),
        forall|k: int| a <= k < m ==> is_digit_char(s[k]),
        m == s.len() || !is_digit_char(s[m]),
    ensures
        digits_end(s, a) == m,
    decreases m - a,
{
    if a < m {
        lemma_digits_end_is(s, a + 1, m);
    }
}

proof fn lemma_ident_end_is(s: Seq<char>, a: int, m: int)
    requires
        0 <= a <= m <= s.len(),
        forall|k: int| a <= k < m ==> is_alnum_char(s[k]),
        m == s.len() || !is_alnum_char(s[m]),
    ensures
        ident_end(s, a) == m,
    decreases m - a,
{
    if a < m {
        lemma_ident_end_is(s, a + 1, m);
    }
}

proof fn lemma_string_end_is(s: Seq<char>, a: int, m: int)
    requires
        0 <= a <= m <= s.len(),
        forall|k: int| a <= k < m ==> s[k] != '"',
        m == s.len() || s[m] == '"',
    ensures
        string_end(s, a) == m,
    decreases m - a,
{
    if a < m {
        lemma_string_end_is(s, a + 1, m);
    }
}

// ---------------------------------------------------------------------------
// Idempotence of re-lexing
// ---------------------------------------------------------------------------
/// An emitting step taken out of its context behaves the same: scanning the
/// token's own text from its start emits the same kind and consumes all of
/// it.
proof fn lemma_step_relex(
    s: Seq<char>,
    i: int,
    line: int,
    kind: TokenKindModel,
    end: int,
    line0: int,
)
    requires
        0 <= i < s.len(),
        scan_step(s, i, line) == (LexStep::Emit { kind, end }),
    ensures
        i < end <= s.len(),
        scan_step(s.subrange(i, end), 0, line0) == (LexStep::Emit { kind, end: end - i }),
{
    lemma_step_bounds(s, i, line);
    let u = s.subrange(i, end);
    let c = s[i];
    assert(u[0] == c);
    if single_kind(c) is Some {
    } else if c == '!' || c == '=' || c == '<' || c == '>' {
        if i + 1 < s.len() && s[i + 1] == '=' && end == i + 2 {
            assert(u[1] == '=');
        }
    } else if c == '/' {
        // An emitting step on `/` is division alone: a comment would skip.
        assert(u.len() == 1);
    } else if c == '"' {
        let j = string_end(s, i + 1);
        lemma_string_end(s, i + 1);
        assert forall|k: int| 1 <= k < j - i implies u[k] != '"' by {
            assert(u[k] == s[i + k]);
        }
        assert(u[j - i] == s[j]);
        lemma_string_end_is(u, 1, j - i);
        assert(u.subrange(1, j - i) =~= s.subrange(i + 1, j));
    } else if is_digit_char(c) {
        let j = digits_end(s, i);
        lemma_digits_end(s, i);
        if j < s.len() && s[j] == '.' && j + 1 < s.len() && is_digit_char(s[j + 1]) {
            let m = digits_end(s, j + 1);
            lemma_digits_end(s, j + 1);
            assert(end == m);
            assert forall|k: int| 0 <= k < j - i implies is_digit_char(u[k]) by {
                assert(u[k] == s[i + k]);
            }
            assert(u[j - i] == s[j]);
            lemma_digits_end_is(u, 0, j - i);
            assert forall|k: int| j - i + 1 <= k < m - i implies is_digit_char(u[k]) by {
                assert(u[k] == s[i + k]);
            }
            assert(u[j - i + 1] == s[j + 1]);
            lemma_digits_end_is(u, j - i + 1, m - i);
            assert(u.subrange(0, m - i) =~= s.subrange(i, m));
        } else {
            assert(end == j);
            assert forall|k: int| 0 <= k < j - i implies is_digit_char(u[k]) by {
                assert(u[k] == s[i + k]);
            }
            lemma_digits_end_is(u, 0, j - i);
            assert(u.subrange(0, j - i) =~= s.subrange(i, j));
        }
    } else if is_alpha_char(c) {
        let j = ident_end(s, i);
        lemma_ident_end(s, i);
        assert(end == j);
        assert forall|k: int| 0 <= k < j - i implies is_alnum_char(u[k]) by {
            assert(u[k] == s[i + k]);
        }
        lemma_ident_end_is(u, 0, j - i);
        assert(u.subrange(0, j - i) =~= s.subrange(i, j));
    }
}

/// A token's kind and lexeme re-lex to exactly that token followed by `Eof`.
pub open spec fn relexes(kind: TokenKindModel, lexeme: Seq<char>) -> bool {
    match lex(lexeme) {
        Ok(toks) => toks.len() == 2 && toks[0].kind == kind && toks[0].lexeme == lexeme
            && toks[1].kind == TokenKindModel::Eof,
        Err(_) => false,
    }
}

proof fn lemma_token_relex(s: Seq<char>, i: int, line: int, kind: TokenKindModel, end: int)
    requires
        0 <= i < s.len(),
        scan_step(s, i, line) == (LexStep::Emit { kind, end }),
    ensures
        i < end <= s.len(),
        relexes(kind, s.subrange(i, end)),
{
    lemma_step_relex(s, i, line, kind, end, 1);
    let u = s.subrange(i, end);
    lemma_step_bounds(u, 0, 1);
    let line2 = 1 + count_newlines(u, 0, u.len() as int);
    assert(scan_from(u, u.len() as int, line2) == Ok::<Seq<TokenModel>, LexErrorModel>(
        seq![TokenModel { kind: TokenKindModel::Eof, lexeme: Seq::empty(), line: line2 }],
    ));
    assert(u.subrange(0, u.len() as int) =~= u);
    let t0 = TokenModel { kind, lexeme: u, line: line2 };
    let t1 = TokenModel { kind: TokenKindModel::Eof, lexeme: Seq::empty(), line: line2 };
    assert(seq![t0] + seq![t1] =~= seq![t0, t1]);
    assert(lex(u) == Ok::<Seq<TokenModel>, LexErrorModel>(seq![t0, t1]));
}

proof fn lemma_relex_all(s: Seq<char>, i: int, line: int, toks: Seq<TokenModel>)
    requires
        0 <= i <= s.len(),
        scan_from(s, i, line) == Ok::<Seq<TokenModel>, LexErrorModel>(toks),
    ensures
        forall|k: int| 0 <= k < toks.len() - 1 ==> #[trigger] relexes(toks[k].kind, toks[k].lexeme),
    decreases s.len() - i,
{
    if i < s.len() {
        lemma_step_bounds(s, i, line);
        match scan_step(s, i, line) {
            LexStep::Fail { err } => {},
            LexStep::Skip { end } => {
                lemma_relex_all(s, end, line + count_newlines(s, i, end), toks);
            },
            LexStep::Emit { kind, end } => {
                let line2 = line + count_newlines(s, i, end);
                match scan_from(s, end, line2) {
                    Ok(rest) => {
                        lemma_relex_all(s, end, line2, rest);
                        lemma_token_relex(s, i, line, kind, end);
                        assert forall|k: int| 0 <= k < toks.len() - 1 implies #[trigger] relexes(
                            toks[k].kind,
                            toks[k].lexeme,
                        ) by {
                            if k > 0 {
                                assert(toks[k] == rest[k - 1]);
                            }
                        }
                    },
                    Err(_) => {},
                }
            },
        }
    }
}

/// Idempotence of re-lexing: take any successful scan and any of its tokens
/// but the final `Eof`; scanning that token's exact lexeme text in isolation
/// yields exactly that token — same kind, hence same decoded value, and same
/// lexeme — followed by `Eof`.
pub proof fn lemma_relex_idempotent(s: Seq<char>, toks: Seq<TokenModel>, k: int)
    requires
        lex(s) == Ok::<Seq<TokenModel>, LexErrorModel>(toks),
        0 <= k < toks.len() - 1,
    ensures
        relexes(toks[k].kind, toks[k].lexeme),
{
    lemma_relex_all(s, 0, 1, toks);
}

// ---------------------------------------------------------------------------
// Total coverage of whitespace and comments
// ---------------------------------------------------------------------------
/// The input from position `i` on consists solely of whitespace and
/// (well-formed, possibly nested) comments.
pub open spec fn trivia_from(s: Seq<char>, i: int) -> bool
    decreases s.len() - i
        when 0 <= i <= s.len()
{
    if i >= s.len() {
        true
    } else if s[i] == ' ' || s[i] == '\t' || s[i] == '\r' || s[i] == '\n' {
        trivia_from(s, i + 1)
    } else if s[i] == '/' && i + 1 < s.len() && s[i + 1] == '/' {
        proof {
            lemma_line_comment_end(s, i + 2);
        }
        trivia_from(s, line_comment_end(s, i + 2))
    } else if s[i] == '/' && i + 1 < s.len() && s[i + 1] == '*' {
        match block_end(s, i + 2, 1) {
            Some(j) => {
                proof {
                    lemma_block_end(s, i + 2, 1);
                }
                trivia_from(s, j)
            },
            None => false,
        }
    } else {
        false
    }
}

proof fn lemma_trivia_from(s: Seq<char>, i: int, line: int)
    requires
        0 <= i <= s.len(),
        trivia_from(s, i),
    ensures
        scan_from(s, i, line) == Ok::<Seq<TokenModel>, LexErrorModel>(
            seq![TokenModel {
                kind: TokenKindModel::Eof,
                lexeme: Seq::empty(),
                line: line + count_newlines(s, i, s.len() as int),
            }],
        ),
    decreases s.len() - i,
{
    let len = s.len() as int;
    if i >= s.len() {
        assert(count_newlines(s, i, len) == 0);
    } else {
        lemma_step_bounds(s, i, line);
        let c = s[i];
        if c == ' ' || c == '\t' || c == '\r' || c == '\n' {
            assert(scan_step(s, i, line) == (LexStep::Skip { end: i + 1 }));
            lemma_trivia_from(s, i + 1, line + count_newlines(s, i, i + 1));
            lemma_count_newlines_split(s, i, i + 1, len);
        } else if c == '/' && i + 1 < s.len() && s[i + 1] == '/' {
            let j = line_comment_end(s, i + 2);
            lemma_line_comment_end(s, i + 2);
            assert(scan_step(s, i, line) == (LexStep::Skip { end: j }));
            lemma_trivia_from(s, j, line + count_newlines(s, i, j));
            lemma_count_newlines_split(s, i, j, len);
        } else {
            let j = block_end(s, i + 2, 1)->Some_0;
            lemma_block_end(s, i + 2, 1);
            assert(scan_step(s, i, line) == (LexStep::Skip { end: j }));
            lemma_trivia_from(s, j, line + count_newlines(s, i, j));
            lemma_count_newlines_split(s, i, j, len);
        }
    }
}

/// Total coverage: an input consisting solely of whitespace and comments
/// scans to exactly one token, the `Eof`, on the input's final line.
pub proof fn lemma_trivia_scans_to_eof(s: Seq<char>)
    requires
        trivia_from(s, 0),
    ensures
        lex(s) == Ok::<Seq<TokenModel>, LexErrorModel>(
            seq![TokenModel {
                kind: TokenKindModel::Eof,
                lexeme: Seq::empty(),
                line: 1 + count_newlines(s, 0, s.len() as int),
            }],
        ),
{
    lemma_trivia_from(s, 0, 1);
}

// ---------------------------------------------------------------------------
// Shape of every successful scan
// ---------------------------------------------------------------------------
proof fn lemma_scan_from_shape(s: Seq<char>, i: int, line: int, toks: Seq<TokenModel>)
    requires
        0 <= i <= s.len(),
        1 <= line,
        scan_from(s, i, line) == Ok::<Seq<TokenModel>, LexErrorModel>(toks),
    ensures
        toks.len() >= 1,
        toks[toks.len() - 1].kind == TokenKindModel::Eof,
        toks[toks.len() - 1].lexeme == Seq::<char>::empty(),
        forall|k: int| 0 <= k < toks.len() ==> #[trigger] toks[k].line >= line,
        forall|k: int| 0 <= k < toks.len() - 1 ==> #[trigger] toks[k].line <= toks[k + 1].line,
        forall|k: int| 0 <= k < toks.len() - 1 ==> #[trigger] toks[k].kind != TokenKindModel::Eof,
    decreases s.len() - i,
{
    if i < s.len() {
        lemma_step_bounds(s, i, line);
        match scan_step(s, i, line) {
            LexStep::Fail { err } => {},
            LexStep::Skip { end } => {
                lemma_count_newlines_bounds(s, i, end);
                lemma_scan_from_shape(s, end, line + count_newlines(s, i, end), toks);
            },
            LexStep::Emit { kind, end } => {
                lemma_count_newlines_bounds(s, i, end);
                let line2 = line + count_newlines(s, i, end);
                match scan_from(s, end, line2) {
                    Ok(rest) => {
                        lemma_scan_from_shape(s, end, line2, rest);
                        lemma_emit_not_eof(s, i, line, kind, end);
                        assert(toks[toks.len() - 1] == rest[rest.len() - 1]);
                        assert forall|k: int| 0 <= k < toks.len() implies #[trigger] toks[k].line
                            >= line by {
                            if k > 0 {
                                assert(toks[k] == rest[k - 1]);
                            }
                        }
                        assert forall|k: int| 0 <= k < toks.len() - 1 implies #[trigger] toks[k].line
                            <= toks[k + 1].line by {
                            if k > 0 {
                                assert(toks[k] == rest[k - 1]);
                                assert(toks[k + 1] == rest[k]);
                            } else {
                                assert(toks[1] == rest[0]);
                            }
                        }
                        assert forall|k: int| 0 <= k < toks.len() - 1 implies #[trigger] toks[k].kind
                            != TokenKindModel::Eof by {
                            if k > 0 {
                                assert(toks[k] == rest[k - 1]);
                            }
                        }
                    },
                    Err(_) => {},
                }
            },
        }
    }
}

/// No emitting step produces the `Eof` kind: `Eof` is appended exactly once,
/// at the end of input.
proof fn lemma_emit_not_eof(s: Seq<char>, i: int, line: int, kind: TokenKindModel, end: int)
    requires
        0 <= i < s.len(),
        scan_step(s, i, line) == (LexStep::Emit { kind, end }),
    ensures
        kind != TokenKindModel::Eof,
{
}

/// Every successful scan is non-empty, ends with `Eof` (exactly once, with
/// an empty lexeme), and tags tokens with positive, non-decreasing line
/// numbers.
pub proof fn lemma_token_stream_invariants(s: Seq<char>, toks: Seq<TokenModel>)
    requires
        lex(s) == Ok::<Seq<TokenModel>, LexErrorModel>(toks),
    ensures
        toks.len() >= 1,
        toks[toks.len() - 1].kind == TokenKindModel::Eof,
        toks[toks.len() - 1].lexeme == Seq::<char>::empty(),
        forall|k: int| 0 <= k < toks.len() ==> #[trigger] toks[k].line >= 1,
        forall|k: int| 0 <= k < toks.len() - 1 ==> #[trigger] toks[k].line <= toks[k + 1].line,
        forall|k: int| 0 <= k < toks.len() - 1 ==> #[trigger] toks[k].kind != TokenKindModel::Eof,
{
    lemma_scan_from_shape(s, 0, 1, toks);
}

} // verus!
