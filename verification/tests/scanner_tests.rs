use lox_scanner::scan_tokens;
use lox_scanner::LexError;
use lox_scanner::Token;
use lox_scanner::TokenKind;

fn kinds(source: &str) -> Vec<TokenKind> {
    scan_tokens(source)
        .expect("scan should succeed")
        .into_iter()
        .map(|t| t.kind)
        .collect()
}

#[test]
fn empty_input_is_just_eof() {
    let toks = scan_tokens("").expect("scan should succeed");
    assert_eq!(toks.len(), 1);
    assert_eq!(toks[0].kind, TokenKind::Eof);
    assert_eq!(toks[0].lexeme, "");
    assert_eq!(toks[0].line, 1);
}

#[test]
fn single_character_punctuation() {
    assert_eq!(
        kinds("(){},.-+;*"),
        vec![
            TokenKind::LeftParen,
            TokenKind::RightParen,
            TokenKind::LeftBrace,
            TokenKind::RightBrace,
            TokenKind::Comma,
            TokenKind::Dot,
            TokenKind::Minus,
            TokenKind::Plus,
            TokenKind::Semicolon,
            TokenKind::Star,
            TokenKind::Eof,
        ]
    );
}

#[test]
fn operator_maximal_munch() {
    // "!=" is one token, not BANG then EQUAL.
    assert_eq!(kinds("!="), vec![TokenKind::BangEqual, TokenKind::Eof]);
    assert_eq!(kinds("!"), vec![TokenKind::Bang, TokenKind::Eof]);
    assert_eq!(kinds("=="), vec![TokenKind::EqualEqual, TokenKind::Eof]);
    assert_eq!(kinds("="), vec![TokenKind::Equal, TokenKind::Eof]);
    assert_eq!(kinds("<="), vec![TokenKind::LessEqual, TokenKind::Eof]);
    assert_eq!(kinds("<"), vec![TokenKind::Less, TokenKind::Eof]);
    assert_eq!(kinds(">="), vec![TokenKind::GreaterEqual, TokenKind::Eof]);
    assert_eq!(kinds(">"), vec![TokenKind::Greater, TokenKind::Eof]);
    assert_eq!(
        kinds("! ="),
        vec![TokenKind::Bang, TokenKind::Equal, TokenKind::Eof]
    );
}

#[test]
fn slash_is_division_when_not_a_comment() {
    assert_eq!(kinds("/"), vec![TokenKind::Slash, TokenKind::Eof]);
    assert_eq!(
        kinds("6/3"),
        vec![
            TokenKind::Number("6".to_string()),
            TokenKind::Slash,
            TokenKind::Number("3".to_string()),
            TokenKind::Eof,
        ]
    );
}

#[test]
fn keyword_vs_identifier_boundary() {
    // "classy" is one identifier, not the keyword "class" plus a tail.
    assert_eq!(
        kinds("classy"),
        vec![TokenKind::Identifier("classy".to_string()), TokenKind::Eof]
    );
    assert_eq!(kinds("class"), vec![TokenKind::Class, TokenKind::Eof]);
}

#[test]
fn all_sixteen_keywords() {
    assert_eq!(
        kinds("and class else false fun for if nil or print return super this true var while"),
        vec![
            TokenKind::And,
            TokenKind::Class,
            TokenKind::Else,
            TokenKind::False,
            TokenKind::Fun,
            TokenKind::For,
            TokenKind::If,
            TokenKind::Nil,
            TokenKind::Or,
            TokenKind::Print,
            TokenKind::Return,
            TokenKind::Super,
            TokenKind::This,
            TokenKind::True,
            TokenKind::Var,
            TokenKind::While,
            TokenKind::Eof,
        ]
    );
}

#[test]
fn identifiers_with_underscores_and_digits() {
    assert_eq!(
        kinds("_tally mark_7"),
        vec![
            TokenKind::Identifier("_tally".to_string()),
            TokenKind::Identifier("mark_7".to_string()),
            TokenKind::Eof,
        ]
    );
}

#[test]
fn keywords_are_case_sensitive() {
    assert_eq!(
        kinds("Class CLASS"),
        vec![
            TokenKind::Identifier("Class".to_string()),
            TokenKind::Identifier("CLASS".to_string()),
            TokenKind::Eof,
        ]
    );
}

#[test]
fn line_tracking() {
    // The three identifiers sit on lines 1, 2, 3; so does the trailing Eof.
    let toks = scan_tokens("a\nb\nc").expect("scan should succeed");
    let tagged: Vec<(TokenKind, usize)> = toks.into_iter().map(|t| (t.kind, t.line)).collect();
    assert_eq!(
        tagged,
        vec![
            (TokenKind::Identifier("a".to_string()), 1),
            (TokenKind::Identifier("b".to_string()), 2),
            (TokenKind::Identifier("c".to_string()), 3),
            (TokenKind::Eof, 3),
        ]
    );
}

#[test]
fn number_dot_disambiguation() {
    // "1.2" is one number; "1." is the number 1 followed by DOT.
    let toks = scan_tokens("1.2").expect("scan should succeed");
    assert_eq!(toks.len(), 2);
    match &toks[0].kind {
        TokenKind::Number(digits) => {
            assert_eq!(digits, "1.2");
            assert_eq!(digits.parse::<f64>().unwrap(), 1.2);
        }
        other => panic!("expected a number, got {:?}", other),
    }
    assert_eq!(toks[0].lexeme, "1.2");

    let toks = scan_tokens("1.").expect("scan should succeed");
    let kinds: Vec<TokenKind> = toks.iter().map(|t| t.kind.clone()).collect();
    assert_eq!(
        kinds,
        vec![
            TokenKind::Number("1".to_string()),
            TokenKind::Dot,
            TokenKind::Eof,
        ]
    );
    match &toks[0].kind {
        TokenKind::Number(digits) => assert_eq!(digits.parse::<f64>().unwrap(), 1.0),
        other => panic!("expected a number, got {:?}", other),
    }
}

#[test]
fn numbers_with_leading_zeros_and_runs() {
    assert_eq!(
        kinds("007 12.50"),
        vec![
            TokenKind::Number("007".to_string()),
            TokenKind::Number("12.50".to_string()),
            TokenKind::Eof,
        ]
    );
    // A number run stops at the first non-digit.
    assert_eq!(
        kinds("123abc"),
        vec![
            TokenKind::Number("123".to_string()),
            TokenKind::Identifier("abc".to_string()),
            TokenKind::Eof,
        ]
    );
    // Only one dot can belong to a number.
    assert_eq!(
        kinds("1..2"),
        vec![
            TokenKind::Number("1".to_string()),
            TokenKind::Dot,
            TokenKind::Dot,
            TokenKind::Number("2".to_string()),
            TokenKind::Eof,
        ]
    );
    // The sign is not part of the number.
    assert_eq!(
        kinds("-5"),
        vec![
            TokenKind::Minus,
            TokenKind::Number("5".to_string()),
            TokenKind::Eof,
        ]
    );
}

#[test]
fn string_literal_decoding() {
    // The decoded value drops the quotes; the lexeme keeps them.
    let toks = scan_tokens("\"hi there\"").expect("scan should succeed");
    assert_eq!(toks.len(), 2);
    assert_eq!(toks[0].kind, TokenKind::StringLit("hi there".to_string()));
    assert_eq!(toks[0].lexeme, "\"hi there\"");
    assert_eq!(toks[1].kind, TokenKind::Eof);
}

#[test]
fn string_spanning_lines_counts_them() {
    let toks = scan_tokens("\"a\nb\" x").expect("scan should succeed");
    assert_eq!(toks[0].kind, TokenKind::StringLit("a\nb".to_string()));
    assert_eq!(toks[0].line, 2);
    assert_eq!(toks[1].kind, TokenKind::Identifier("x".to_string()));
    assert_eq!(toks[1].line, 2);
}

#[test]
fn unterminated_string_error() {
    assert_eq!(
        scan_tokens("\"abc"),
        Err(LexError::UnterminatedString { line: 1 })
    );
}

#[test]
fn unterminated_string_reports_final_line() {
    assert_eq!(
        scan_tokens("\n\"a\nbc"),
        Err(LexError::UnterminatedString { line: 3 })
    );
}

#[test]
fn line_comment_runs_to_end_of_line() {
    assert_eq!(
        kinds("a // b c d\ne"),
        vec![
            TokenKind::Identifier("a".to_string()),
            TokenKind::Identifier("e".to_string()),
            TokenKind::Eof,
        ]
    );
    // A line comment at the very end of input is fine.
    assert_eq!(kinds("// just a comment"), vec![TokenKind::Eof]);
}

#[test]
fn nested_block_comments() {
    // The whole region, nested comment included, is skipped.
    assert_eq!(
        kinds("/* a /* b */ c */ print"),
        vec![TokenKind::Print, TokenKind::Eof]
    );
}

#[test]
fn block_comment_counts_lines() {
    let toks = scan_tokens("/* a\nb */ c").expect("scan should succeed");
    assert_eq!(toks[0].kind, TokenKind::Identifier("c".to_string()));
    assert_eq!(toks[0].line, 2);
}

#[test]
fn unterminated_block_comment_error() {
    assert_eq!(
        scan_tokens("/* open"),
        Err(LexError::UnterminatedBlockComment { line: 1 })
    );
    // A nested comment that closes only the inner level stays open.
    assert_eq!(
        scan_tokens("/* a /* b */"),
        Err(LexError::UnterminatedBlockComment { line: 1 })
    );
    assert_eq!(
        scan_tokens("/*\n\n"),
        Err(LexError::UnterminatedBlockComment { line: 3 })
    );
}

#[test]
fn whitespace_and_comments_only_yield_just_eof() {
    // Total coverage: whitespace and comments produce no tokens at all.
    assert_eq!(kinds(""), vec![TokenKind::Eof]);
    assert_eq!(kinds(" \t\r\n  \n"), vec![TokenKind::Eof]);
    assert_eq!(kinds("// c\n/* x /* y */ z */ \t"), vec![TokenKind::Eof]);
}

#[test]
fn unexpected_character_error() {
    assert_eq!(
        scan_tokens("@"),
        Err(LexError::UnexpectedCharacter { ch: '@', line: 1 })
    );
    assert_eq!(
        scan_tokens("a\n\n#"),
        Err(LexError::UnexpectedCharacter { ch: '#', line: 3 })
    );
}

#[test]
fn scanning_stops_at_the_first_error() {
    // Fail-fast policy: the error is reported, not the tokens before it.
    assert_eq!(
        scan_tokens("var x @ y"),
        Err(LexError::UnexpectedCharacter { ch: '@', line: 1 })
    );
}

#[test]
fn relexing_a_lexeme_reproduces_the_token() {
    // Idempotence of re-lexing, on concrete values: scanning any single
    // token's exact lexeme in isolation gives that token and Eof.
    let source = "fun add(a, b) { return a + b; } // sum\nprint add(1.5, \"x\") != nil;";
    let toks = scan_tokens(source).expect("scan should succeed");
    assert!(toks.len() > 1);
    for t in &toks[..toks.len() - 1] {
        let again = scan_tokens(&t.lexeme).expect("a lexeme should re-scan");
        assert_eq!(again.len(), 2, "lexeme {:?}", t.lexeme);
        assert_eq!(again[0].kind, t.kind, "lexeme {:?}", t.lexeme);
        assert_eq!(again[0].lexeme, t.lexeme);
        assert_eq!(again[1].kind, TokenKind::Eof);
    }
}

#[test]
fn token_stream_shape() {
    // Non-empty, Eof exactly once and last, lines non-decreasing.
    let toks = scan_tokens("a\n\"s1\ns2\"\n/* c\n*/ b == 3.25").expect("scan should succeed");
    assert!(!toks.is_empty());
    assert_eq!(toks.last().unwrap().kind, TokenKind::Eof);
    assert_eq!(toks.last().unwrap().lexeme, "");
    for w in toks.windows(2) {
        assert!(w[0].line <= w[1].line);
        assert_ne!(w[0].kind, TokenKind::Eof);
    }
}

#[test]
fn token_new_builds_the_record() {
    let t = Token::new(TokenKind::Plus, "+".to_string(), 4);
    assert_eq!(t.kind, TokenKind::Plus);
    assert_eq!(t.lexeme, "+");
    assert_eq!(t.line, 4);
}

#[test]
fn lexemes_keep_the_raw_text() {
    let toks = scan_tokens("while (i <= 10)").expect("scan should succeed");
    let lexemes: Vec<&str> = toks.iter().map(|t| t.lexeme.as_str()).collect();
    assert_eq!(lexemes, vec!["while", "(", "i", "<=", "10", ")", ""]);
}
