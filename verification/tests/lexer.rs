use c0m::lexer::{contains_bidi_control, line_col_fit, tokenize, Lexer, Token};
use c0m::SourceSpan;

fn kinds(src: &str) -> Vec<Token> {
    tokenize(src, 0)
        .expect("should tokenize cleanly")
        .into_iter()
        .map(|(t, _)| t)
        .collect()
}

fn error_message(src: &str) -> String {
    match tokenize(src, 0) {
        Ok(_) => panic!("expected a lexing error"),
        Err(e) => e.message,
    }
}

#[test]
fn rejects_bidi_override() {
    let src = "let x = 1;\u{202E}// hidden";
    assert!(contains_bidi_control(src).is_some());
}

#[test]
fn accepts_clean_source() {
    let src = "let x = 1;";
    assert!(contains_bidi_control(src).is_none());
}

#[test]
fn tokenize_basic_punctuation() {
    let src = "( ) { } -> => == != && || ..";
    let tokens: Vec<Token> = tokenize(src, 0)
        .expect("Should tokenize cleanly")
        .into_iter()
        .map(|(t, _)| t)
        .collect();
    assert_eq!(
        tokens,
        vec![
            Token::LParen,
            Token::RParen,
            Token::LBrace,
            Token::RBrace,
            Token::Arrow,
            Token::FatArrow,
            Token::EqEq,
            Token::NotEq,
            Token::AndAnd,
            Token::OrOr,
            Token::DotDot,
            Token::Eof,
        ]
    );
}

#[test]
fn tokenizes_identifiers_keywords_and_numbers() {
    let src = "fn main mut count 42 3.14 0..10 _";
    let tokens: Vec<Token> = tokenize(src, 0)
        .expect("should tokenize cleanly")
        .into_iter()
        .map(|(t, _)| t)
        .collect();
    // A float literal carries its source text; its value is what
    // `str::parse::<f64>` makes of it.
    match &tokens[5] {
        Token::FloatLit(text) => assert_eq!(text.parse::<f64>().unwrap(), 3.14),
        other => panic!("expected a float literal, got {:?}", other),
    }
    assert_eq!(tokens, vec![
        Token::Fn,
        Token::Ident("main".to_string()),
        Token::Mut,
        Token::Ident("count".to_string()),
        Token::IntLit(42),
        Token::FloatLit("3.14".to_string()),
        Token::IntLit(0),
        Token::DotDot,
        Token::IntLit(10),
        Token::Underscore,
        Token::Eof,
    ]);
}

#[test]
fn tokenizes_strings_and_bools() {
    let src = r#"let s = "hello\nworld"; let b = true; let c = false;"#;
    let tokens: Vec<Token> = tokenize(src, 0)
        .expect("should tokenize cleanly")
        .into_iter()
        .map(|(t, _)| t)
        .collect();
    assert_eq!(tokens, vec![
        Token::Let, Token::Ident("s".to_string()), Token::Eq,
        Token::StringLit("hello\nworld".to_string()), Token::Semicolon,
        Token::Let, Token::Ident("b".to_string()), Token::Eq,
        Token::BoolLit(true), Token::Semicolon,
        Token::Let, Token::Ident("c".to_string()), Token::Eq,
        Token::BoolLit(false), Token::Semicolon,
        Token::Eof,
    ]);
}

#[test]
fn unterminated_string_is_an_error() {
    let src = r#"let s = "oops"#;
    assert!(tokenize(src, 0).is_err());
}

#[test]
fn tokenizes_char_literals() {
    let src = "'a' '\\n' '\\'' 'é'";
    let tokens: Vec<Token> = tokenize(src, 0)
        .expect("should tokenize cleanly")
        .into_iter()
        .map(|(t, _)| t)
        .collect();
    assert_eq!(tokens, vec![
        Token::CharLit('a'),
        Token::CharLit('\n'),
        Token::CharLit('\''),
        Token::CharLit('é'),
        Token::Eof,
    ]);
}

#[test]
fn rejects_malformed_char_literals() {
    assert!(tokenize("''", 0).is_err());   // empty
    assert!(tokenize("'ab'", 0).is_err()); // more than one character
    assert!(tokenize("'a", 0).is_err());   // unterminated
}

#[test]
fn bidi_offset_is_the_byte_index_of_the_first_control() {
    // "é" is two bytes, so U+2066 starts at byte 3.
    assert_eq!(contains_bidi_control("aé\u{2066}x\u{202E}"), Some(3));
    assert_eq!(contains_bidi_control("\u{200F}"), Some(0));
    // U+202C (pop directional formatting) is not in the list.
    assert_eq!(contains_bidi_control("a\u{202C}b"), None);
    assert_eq!(contains_bidi_control(""), None);
}

#[test]
fn all_bidi_controls_are_found() {
    for c in ['\u{202A}', '\u{202B}', '\u{202D}', '\u{202E}', '\u{2066}', '\u{2067}', '\u{2068}', '\u{2069}', '\u{200F}'] {
        let s = format!("xy{}", c);
        assert_eq!(contains_bidi_control(&s), Some(2));
    }
}

#[test]
fn all_operators_and_delimiters() {
    assert_eq!(
        kinds("[ ] , ; : + - * / % @ = ! < > <= >= & -"),
        vec![
            Token::LBracket, Token::RBracket, Token::Comma, Token::Semicolon, Token::Colon,
            Token::Plus, Token::Minus, Token::Star, Token::Slash, Token::Percent, Token::At,
            Token::Eq, Token::Not, Token::Lt, Token::Gt, Token::LtEq, Token::GtEq, Token::Amp,
            Token::Minus, Token::Eof,
        ]
    );
}

#[test]
fn all_keywords() {
    assert_eq!(
        kinds("fn let mut if else loop for parallel match return true false _ _x iff"),
        vec![
            Token::Fn, Token::Let, Token::Mut, Token::If, Token::Else, Token::Loop, Token::For,
            Token::Parallel, Token::Match, Token::Return, Token::BoolLit(true),
            Token::BoolLit(false), Token::Underscore, Token::Ident("_x".to_string()),
            Token::Ident("iff".to_string()), Token::Eof,
        ]
    );
}

#[test]
fn spans_record_line_column_offset_and_length() {
    let toks = tokenize("let x\n  = 12;", 77).unwrap();
    let spans: Vec<SourceSpan> = toks.iter().map(|(_, s)| *s).collect();
    let sp = |line, col, byte_offset, length| SourceSpan { file_hash: 77, line, col, byte_offset, length };
    assert_eq!(spans, vec![
        sp(1, 1, 0, 3),
        sp(1, 5, 4, 1),
        sp(2, 3, 8, 1),
        sp(2, 5, 10, 2),
        sp(2, 7, 12, 1),
        sp(2, 8, 13, 0),
    ]);
}

#[test]
fn empty_source_is_just_eof() {
    let toks = tokenize("", 5).unwrap();
    assert_eq!(toks.len(), 1);
    assert_eq!(toks[0].0, Token::Eof);
    assert_eq!(toks[0].1, SourceSpan { file_hash: 5, line: 1, col: 1, byte_offset: 0, length: 0 });
}

#[test]
fn comments_and_whitespace_are_skipped() {
    assert_eq!(
        kinds("a // one\n\t// two\r\n b // end"),
        vec![Token::Ident("a".to_string()), Token::Ident("b".to_string()), Token::Eof]
    );
}

#[test]
fn eof_is_last_and_only_last() {
    let toks = kinds("x + 1 // c");
    assert_eq!(toks.last(), Some(&Token::Eof));
    assert_eq!(toks.iter().filter(|t| **t == Token::Eof).count(), 1);
}

#[test]
fn string_escapes_are_decoded() {
    assert_eq!(
        kinds(r#""a\tb\r\0\\\"c" "héllo""#),
        vec![
            Token::StringLit("a\tb\r\0\\\"c".to_string()),
            Token::StringLit("héllo".to_string()),
            Token::Eof,
        ]
    );
}

#[test]
fn char_escapes_and_wide_chars() {
    assert_eq!(
        kinds("'\\t' '\\r' '\\0' '\\\\' '€' '😀'"),
        vec![
            Token::CharLit('\t'), Token::CharLit('\r'), Token::CharLit('\0'),
            Token::CharLit('\\'), Token::CharLit('€'), Token::CharLit('😀'), Token::Eof,
        ]
    );
}

#[test]
fn integer_bounds() {
    assert_eq!(kinds("9223372036854775807"), vec![Token::IntLit(i64::MAX), Token::Eof]);
    assert_eq!(kinds("007"), vec![Token::IntLit(7), Token::Eof]);
    assert_eq!(
        error_message("9223372036854775808"),
        "integer literal '9223372036854775808' out of range"
    );
}

#[test]
fn dot_without_digit_is_not_a_float() {
    assert_eq!(kinds("1..2"), vec![Token::IntLit(1), Token::DotDot, Token::IntLit(2), Token::Eof]);
    assert_eq!(error_message("1."), "unexpected character '.'");
}

#[test]
fn error_messages_and_spans() {
    assert_eq!(error_message("\"abc"), "unterminated string literal");
    assert_eq!(error_message("\"ab\ncd\""), "unterminated string literal (raw newline — use \\n)");
    assert_eq!(error_message("\"ab\\"), "unterminated escape sequence in string literal");
    assert_eq!(error_message("\"a\\q\""), "unknown escape sequence '\\q'");
    assert_eq!(error_message("'\\q'"), "unknown escape sequence '\\q'");
    assert_eq!(error_message("''"), "empty character literal");
    assert_eq!(error_message("'ab'"), "character literal must contain exactly one character");
    assert_eq!(error_message("'a"), "character literal must contain exactly one character");
    assert_eq!(error_message("'"), "unterminated character literal");
    assert_eq!(error_message("'\\"), "unterminated character literal");
    assert_eq!(error_message("x | y"), "unexpected character '|'");
    assert_eq!(error_message("x # y"), "unexpected character '#'");
    // A non-ASCII byte outside a literal is reported as the Latin-1 char of
    // its first byte.
    assert_eq!(error_message("é"), "unexpected character '\u{c3}'");

    let err = tokenize("let s = \"oops", 9).unwrap_err();
    assert_eq!(err.span, SourceSpan { file_hash: 9, line: 1, col: 9, byte_offset: 8, length: 5 });
}

#[test]
fn bidi_outside_string_literals_is_an_error() {
    let msg = "Unicode bidirectional control character outside a string literal";
    assert_eq!(error_message("let x = 1;\u{202E}"), msg);
    assert_eq!(error_message("x // \u{202E}"), msg);
    assert_eq!(error_message("'\u{2066}'"), msg);
    // Inside a string literal it is text.
    assert_eq!(kinds("\"\u{202E}\""), vec![Token::StringLit("\u{202E}".to_string()), Token::Eof]);
    // Other non-ASCII characters are fine in comments and char literals.
    assert_eq!(kinds("// é\n'é'"), vec![Token::CharLit('é'), Token::Eof]);
}

#[test]
fn bidi_error_spans() {
    // In a comment: the span is the control character itself.
    let err = tokenize("a\n  // x\u{2067}y", 4).unwrap_err();
    assert_eq!(err.span, SourceSpan { file_hash: 4, line: 2, col: 7, byte_offset: 8, length: 3 });
    // Where a token would start.
    let err = tokenize("\u{200F}", 0).unwrap_err();
    assert_eq!(err.span, SourceSpan { file_hash: 0, line: 1, col: 1, byte_offset: 0, length: 3 });
    // In a char literal: the literal read so far.
    let err = tokenize(" '\u{202A}'", 0).unwrap_err();
    assert_eq!(err.span, SourceSpan { file_hash: 0, line: 1, col: 2, byte_offset: 1, length: 4 });
}

#[test]
fn line_col_fit_accepts_ordinary_sources() {
    assert!(line_col_fit(""));
    assert!(line_col_fit("fn main() {\n}\n"));
}

#[test]
fn lexer_new_starts_at_the_beginning() {
    let _lexer = Lexer::new("fn", 3);
}

#[test]
fn literal_spans_cover_quotes_and_encoded_value() {
    let src = "'é' \"a\\tb\" '\\n' main";
    let toks = tokenize(src, 0).unwrap();
    let bytes = src.as_bytes();
    let text = |i: usize| {
        let sp = toks[i].1;
        &bytes[sp.byte_offset as usize..(sp.byte_offset + sp.length) as usize]
    };
    assert_eq!(toks[0].0, Token::CharLit('é'));
    assert_eq!(text(0), "'é'".as_bytes());
    assert_eq!(toks[1].0, Token::StringLit("a\tb".to_string()));
    assert_eq!(text(1), "\"a\\tb\"".as_bytes());
    assert_eq!(toks[2].0, Token::CharLit('\n'));
    assert_eq!(text(2), "'\\n'".as_bytes());
    assert_eq!(toks[3].0, Token::Ident("main".to_string()));
    assert_eq!(text(3), b"main");
}

#[test]
fn errors_are_reported_in_source_order() {
    assert_eq!(error_message("# \u{202E}"), "unexpected character '#'");
    assert_eq!(
        error_message("\u{202E} #"),
        "Unicode bidirectional control character outside a string literal"
    );
}
