use lax::{CaptureReporter, Lax, Scanner, StderrReporter, Token, TokenType};

struct Outcome {
    tokens: Vec<Token>,
    had_error: bool,
    messages: Vec<String>,
    lines: Vec<usize>,
}

fn scan(source: &[u8]) -> Outcome {
    let lax = Lax::new(CaptureReporter::new(), "test");
    let mut scanner = Scanner::new(lax, source);
    let tokens = scanner.scan_tokens();
    let lax = scanner.into_lax();
    let diagnostics = &lax.reporter().diagnostics;
    Outcome {
        tokens,
        had_error: lax.had_error(),
        messages: diagnostics.iter().map(|d| d.message.clone()).collect(),
        lines: diagnostics.iter().map(|d| d.line).collect(),
    }
}

fn kinds(tokens: &[Token]) -> Vec<TokenType> {
    tokens.iter().map(|t| t.token_type).collect()
}

#[test]
fn blank_input_yields_only_eof() {
    let source = b"  \t\r\n\n ";
    let out = scan(source);
    assert_eq!(kinds(&out.tokens), vec![TokenType::Eof]);
    assert_eq!(out.tokens[0].line, 2);
    assert_eq!(out.tokens[0].start, source.len());
    assert_eq!(out.tokens[0].end, source.len());
    assert!(!out.had_error);
}

#[test]
fn empty_input_yields_only_eof() {
    let out = scan(b"");
    assert_eq!(kinds(&out.tokens), vec![TokenType::Eof]);
    assert_eq!(out.tokens[0].line, 0);
    assert!(!out.had_error);
}

#[test]
fn operators_classify_to_their_own_categories() {
    let cases: Vec<(&[u8], TokenType)> = vec![
        (b"!=", TokenType::BangEqual),
        (b"!", TokenType::Bang),
        (b"<=", TokenType::LessEqual),
        (b"<", TokenType::Less),
        (b">=", TokenType::GreaterEqual),
        (b">", TokenType::Greater),
        (b"==", TokenType::EqualEqual),
        (b"=", TokenType::Equal),
    ];
    for (source, kind) in cases {
        let out = scan(source);
        assert_eq!(kinds(&out.tokens), vec![kind, TokenType::Eof]);
        assert_eq!(out.tokens[0].end - out.tokens[0].start, source.len());
    }
}

#[test]
fn two_character_operator_wins_only_with_adjacent_equal() {
    let out = scan(b"!== ! =");
    assert_eq!(
        kinds(&out.tokens),
        vec![TokenType::BangEqual, TokenType::Equal, TokenType::Bang, TokenType::Equal, TokenType::Eof]
    );
}

#[test]
fn punctuation_and_slash() {
    let out = scan(b"(){},.-+;*/");
    assert_eq!(
        kinds(&out.tokens),
        vec![
            TokenType::LeftParen,
            TokenType::RightParen,
            TokenType::LeftBrace,
            TokenType::RightBrace,
            TokenType::Comma,
            TokenType::Dot,
            TokenType::Minus,
            TokenType::Plus,
            TokenType::Semicolon,
            TokenType::Star,
            TokenType::Slash,
            TokenType::Eof,
        ]
    );
}

#[test]
fn comment_then_print_on_next_line() {
    let out = scan(b"// a comment\nprint");
    assert_eq!(kinds(&out.tokens), vec![TokenType::Print, TokenType::Eof]);
    assert_eq!(out.tokens[0].line, 1);
    assert_eq!(out.tokens[1].line, 1);
    assert!(!out.had_error);
}

#[test]
fn comment_runs_to_end_of_input() {
    let out = scan(b"1 // no newline after this");
    assert_eq!(kinds(&out.tokens), vec![TokenType::Number, TokenType::Eof]);
}

#[test]
fn string_payload_excludes_quotes() {
    let source = b"\"hi\"";
    let out = scan(source);
    assert_eq!(kinds(&out.tokens), vec![TokenType::String, TokenType::Eof]);
    assert_eq!(out.tokens[0].string_content(source), Some(b"hi".to_vec()));
    assert_eq!(out.tokens[0].lexeme(source), b"\"hi\"".to_vec());
    assert!(!out.had_error);
}

#[test]
fn unterminated_string_stops_scanning() {
    let out = scan(b"\"a\nb");
    assert_eq!(kinds(&out.tokens), vec![TokenType::Eof]);
    assert!(out.had_error);
    assert_eq!(out.messages, vec!["unterminated string".to_string()]);
    assert_eq!(out.lines, vec![1]);
    assert_eq!(out.tokens[0].line, 1);
}

#[test]
fn unterminated_string_keeps_earlier_tokens() {
    let out = scan(b"var x = \"open ( )");
    assert_eq!(
        kinds(&out.tokens),
        vec![TokenType::Var, TokenType::Identifier, TokenType::Equal, TokenType::Eof]
    );
    assert!(out.had_error);
}

#[test]
fn multi_line_string_counts_its_newlines() {
    let source = b"\"a\nb\" x";
    let out = scan(source);
    assert_eq!(kinds(&out.tokens), vec![TokenType::String, TokenType::Identifier, TokenType::Eof]);
    assert_eq!(out.tokens[0].line, 0);
    assert_eq!(out.tokens[1].line, 1);
    assert_eq!(out.tokens[0].string_content(source), Some(b"a\nb".to_vec()));
}

#[test]
fn number_with_fraction() {
    let source = b"123.45";
    let out = scan(source);
    assert_eq!(kinds(&out.tokens), vec![TokenType::Number, TokenType::Eof]);
    let text = out.tokens[0].lexeme(source);
    assert_eq!(text, b"123.45".to_vec());
    let value: f64 = fast_float::parse(&text).unwrap();
    assert_eq!(value, 123.45);
}

#[test]
fn trailing_dot_is_not_absorbed() {
    let source = b"123.";
    let out = scan(source);
    assert_eq!(kinds(&out.tokens), vec![TokenType::Number, TokenType::Dot, TokenType::Eof]);
    let text = out.tokens[0].lexeme(source);
    assert_eq!(text, b"123".to_vec());
    let value: f64 = fast_float::parse(&text).unwrap();
    assert_eq!(value, 123.0);
    assert_eq!(out.tokens[1].start, 3);
}

#[test]
fn keyword_is_matched_whole_word_only() {
    let source = b"for forest";
    let out = scan(source);
    assert_eq!(kinds(&out.tokens), vec![TokenType::For, TokenType::Identifier, TokenType::Eof]);
    assert_eq!(out.tokens[1].lexeme(source), b"forest".to_vec());
}

#[test]
fn every_keyword_is_recognised() {
    let source = b"and class else false fun for if nil or print return super this true var while";
    let out = scan(source);
    assert_eq!(
        kinds(&out.tokens),
        vec![
            TokenType::And,
            TokenType::Class,
            TokenType::Else,
            TokenType::False,
            TokenType::Fun,
            TokenType::For,
            TokenType::If,
            TokenType::Nil,
            TokenType::Or,
            TokenType::Print,
            TokenType::Return,
            TokenType::Super,
            TokenType::This,
            TokenType::True,
            TokenType::Var,
            TokenType::While,
            TokenType::Eof,
        ]
    );
}

#[test]
fn keyword_lookup_is_case_sensitive() {
    let out = scan(b"And PRINT _if if_ x9");
    assert_eq!(
        kinds(&out.tokens),
        vec![
            TokenType::Identifier,
            TokenType::Identifier,
            TokenType::Identifier,
            TokenType::Identifier,
            TokenType::Identifier,
            TokenType::Eof,
        ]
    );
}

#[test]
fn unexpected_character_is_skipped() {
    let out = scan(b"a @ b\n#");
    assert_eq!(kinds(&out.tokens), vec![TokenType::Identifier, TokenType::Identifier, TokenType::Eof]);
    assert!(out.had_error);
    assert_eq!(
        out.messages,
        vec!["unexpected character".to_string(), "unexpected character".to_string()]
    );
    assert_eq!(out.lines, vec![0, 1]);
}

#[test]
fn scans_of_identical_buffers_agree() {
    let first: Vec<u8> = b"var x = 12.5; // note\nprint \"s\" <= y;".to_vec();
    let second = first.clone();
    let a = scan(&first);
    let b = scan(&second);
    assert_eq!(a.tokens, b.tokens);
    assert_eq!(a.had_error, b.had_error);
}

#[test]
fn spans_increase_without_overlap() {
    let source = b"fun f(a, b) { return a >= b; } // end";
    let out = scan(source);
    let n = out.tokens.len();
    assert_eq!(out.tokens[n - 1].token_type, TokenType::Eof);
    for k in 0..n - 1 {
        assert!(out.tokens[k].start < out.tokens[k].end);
        assert!(out.tokens[k].end <= source.len());
        assert_ne!(out.tokens[k].token_type, TokenType::Eof);
        if k + 1 < n - 1 {
            assert!(out.tokens[k].end <= out.tokens[k + 1].start);
        }
    }
}

#[test]
fn string_content_is_none_for_other_tokens() {
    let source = b"name";
    let out = scan(source);
    assert_eq!(out.tokens[0].string_content(source), None);
}

#[test]
fn second_scan_of_a_session_yields_only_eof() {
    let lax = Lax::new(CaptureReporter::new(), "test");
    let mut scanner = Scanner::new(lax, b"x");
    let first = scanner.scan_tokens();
    assert_eq!(kinds(&first), vec![TokenType::Identifier, TokenType::Eof]);
    let second = scanner.scan_tokens();
    assert_eq!(kinds(&second), vec![TokenType::Eof]);
}

#[test]
fn error_flag_is_sticky_with_any_reporter() {
    let lax = Lax::new(StderrReporter::new(), "chunk");
    let mut scanner = Scanner::new(lax, b"$ x");
    let tokens = scanner.scan_tokens();
    assert_eq!(kinds(&tokens), vec![TokenType::Identifier, TokenType::Eof]);
    assert!(scanner.lax().had_error());
}

#[test]
fn capture_reporter_records_chunk_name() {
    let lax = Lax::new(CaptureReporter::new(), "repl");
    let mut scanner = Scanner::new(lax, b"?");
    scanner.scan_tokens();
    let lax = scanner.into_lax();
    let d = &lax.reporter().diagnostics;
    assert_eq!(d.len(), 1);
    assert_eq!(d[0].chunk_name, "repl");
    assert_eq!(d[0].location, "");
    assert_eq!(d[0].line, 0);
}

#[test]
fn token_lines_count_preceding_newlines() {
    let source = b"a\n// c\n\"x\ny\" b\n\n1";
    let out = scan(source);
    assert_eq!(
        kinds(&out.tokens),
        vec![TokenType::Identifier, TokenType::String, TokenType::Identifier, TokenType::Number, TokenType::Eof]
    );
    let lines: Vec<usize> = out.tokens.iter().map(|t| t.line).collect();
    assert_eq!(lines, vec![0, 2, 3, 5, 5]);
}

#[test]
fn session_error_reaches_the_reporter() {
    let mut lax = Lax::new(CaptureReporter::new(), "chunk");
    assert!(!lax.had_error());
    lax.error(7, "boom");
    assert!(lax.had_error());
    let d = &lax.reporter().diagnostics;
    assert_eq!(d.len(), 1);
    assert_eq!(d[0].chunk_name, "chunk");
    assert_eq!(d[0].line, 7);
    assert_eq!(d[0].location, "");
    assert_eq!(d[0].message, "boom");
}

#[test]
fn identical_buffers_report_identical_diagnostics() {
    let first: Vec<u8> = b"a @\n# \"open".to_vec();
    let second = first.clone();
    let a = scan(&first);
    let b = scan(&second);
    assert_eq!(a.tokens, b.tokens);
    assert_eq!(a.messages, b.messages);
    assert_eq!(a.lines, b.lines);
    assert_eq!(
        a.messages,
        vec![
            "unexpected character".to_string(),
            "unexpected character".to_string(),
            "unterminated string".to_string()
        ]
    );
    assert_eq!(a.lines, vec![0, 1, 1]);
}

#[test]
fn unexpected_byte_does_not_abort() {
    let out = scan(b"@(");
    assert_eq!(kinds(&out.tokens), vec![TokenType::LeftParen, TokenType::Eof]);
    assert_eq!(out.messages, vec!["unexpected character".to_string()]);
    assert_eq!(out.lines, vec![0]);
}
