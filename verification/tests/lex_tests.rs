use ngx_lex::NgxToken;
use ngx_lex::lex;

fn check_values(tokens: &[NgxToken], expected: &[(&str, usize)]) {
    assert_eq!(
        tokens.len(),
        expected.len(),
        "token count mismatch: got {:?}",
        tokens.iter().map(|t| (t.value.clone(), t.line)).collect::<Vec<_>>()
    );
    for (token, (value, line)) in tokens.iter().zip(expected.iter()) {
        assert_eq!(&token.value, value);
        assert_eq!(&token.line, line);
        assert!(token.error.is_none());
    }
}

#[test]
fn test_lex() {
    let config = "events {\n    worker_connections 1024;\n}\n\nhttp {\n    server {\n        listen 127.0.0.1:8080;\n        server_name default_server;\n        location / {\n            return 200 \"foo bar baz\";\n        }\n    }\n}\n";
    let tokens = lex(config);
    check_values(
        &tokens,
        &[
            ("events", 1),
            ("{", 1),
            ("worker_connections", 2),
            ("1024", 2),
            (";", 2),
            ("}", 3),
            ("http", 5),
            ("{", 5),
            ("server", 6),
            ("{", 6),
            ("listen", 7),
            ("127.0.0.1:8080", 7),
            (";", 7),
            ("server_name", 8),
            ("default_server", 8),
            (";", 8),
            ("location", 9),
            ("/", 9),
            ("{", 9),
            ("return", 10),
            ("200", 10),
            ("foo bar baz", 10),
            (";", 10),
            ("}", 11),
            ("}", 12),
            ("}", 13),
        ],
    );
}

#[test]
fn comments_interleaved_with_directives() {
    let config = "events {\n    worker_connections 1024;\n}\n#comment\nhttp {\n    server {\n        listen 127.0.0.1:8080; #listen\n        server_name default_server;\n        location / { ## this is brace\n            # location /\n            return 200 \"foo bar baz\";\n        }\n    }\n}\n";
    let tokens = lex(config);
    check_values(
        &tokens,
        &[
            ("events", 1),
            ("{", 1),
            ("worker_connections", 2),
            ("1024", 2),
            (";", 2),
            ("}", 3),
            ("#comment", 4),
            ("http", 5),
            ("{", 5),
            ("server", 6),
            ("{", 6),
            ("listen", 7),
            ("127.0.0.1:8080", 7),
            (";", 7),
            ("#listen", 7),
            ("server_name", 8),
            ("default_server", 8),
            (";", 8),
            ("location", 9),
            ("/", 9),
            ("{", 9),
            ("## this is brace", 9),
            ("# location /", 10),
            ("return", 11),
            ("200", 11),
            ("foo bar baz", 11),
            (";", 11),
            ("}", 12),
            ("}", 13),
            ("}", 14),
        ],
    );
}

#[test]
fn comment_ends_before_newline() {
    let tokens = lex("# hello\nworld;");
    check_values(&tokens, &[("# hello", 1), ("world", 2), (";", 2)]);
    assert!(!tokens[0].is_quoted);
}

#[test]
fn comment_at_end_of_input() {
    let tokens = lex("# hi");
    check_values(&tokens, &[("# hi", 1)]);
}

#[test]
fn hash_inside_word_is_ordinary() {
    let tokens = lex("foo#bar;");
    check_values(&tokens, &[("foo#bar", 1), (";", 1)]);
}

#[test]
fn quoted_string_keeps_spaces() {
    let tokens = lex("return 200 \"foo bar baz\";");
    check_values(&tokens, &[("return", 1), ("200", 1), ("foo bar baz", 1), (";", 1)]);
    assert!(!tokens[0].is_quoted);
    assert!(!tokens[1].is_quoted);
    assert!(tokens[2].is_quoted);
    assert!(!tokens[3].is_quoted);
}

#[test]
fn escaped_delimiter_collapses() {
    let tokens = lex("'it\\'s'");
    check_values(&tokens, &[("it's", 1)]);
    assert!(tokens[0].is_quoted);
}

#[test]
fn quote_inside_word_is_ordinary() {
    let tokens = lex("foo'bar baz;");
    check_values(&tokens, &[("foo'bar", 1), ("baz", 1), (";", 1)]);
    assert!(!tokens[0].is_quoted);
}

#[test]
fn escaped_quotes_outside_strings_stay_escaped() {
    let tokens = lex("\\\"abc\\\";");
    check_values(&tokens, &[("\\\"abc\\\"", 1), (";", 1)]);
}

#[test]
fn structural_nesting() {
    let tokens = lex("events { worker_connections 1024; }");
    check_values(
        &tokens,
        &[
            ("events", 1),
            ("{", 1),
            ("worker_connections", 1),
            ("1024", 1),
            (";", 1),
            ("}", 1),
        ],
    );
}

#[test]
fn quoted_braces_are_inert() {
    let tokens = lex("log_format fmt \"{ }\";");
    check_values(&tokens, &[("log_format", 1), ("fmt", 1), ("{ }", 1), (";", 1)]);
    assert!(tokens[2].is_quoted);
}

#[test]
fn line_continuation_merges_lines() {
    let tokens = lex("foo\\\nbar baz;");
    check_values(&tokens, &[("foobar", 1), ("baz", 1), (";", 1)]);
}

#[test]
fn line_continuation_keeps_later_line_numbers() {
    let tokens = lex("a\\\nb\nc;");
    check_values(&tokens, &[("ab", 1), ("c", 2), (";", 2)]);
}

#[test]
fn whitespace_runs_collapse() {
    let tokens = lex("a \t \n\n  b;");
    check_values(&tokens, &[("a", 1), ("b", 3), (";", 3)]);
    for t in &tokens {
        assert!(!t.value.is_empty());
    }
}

#[test]
fn carriage_returns_are_dropped() {
    let tokens = lex("a\r\nb;");
    check_values(&tokens, &[("a", 1), ("b", 2), (";", 2)]);
    let tokens = lex("a\rb;");
    check_values(&tokens, &[("ab", 1), (";", 1)]);
}

#[test]
fn parameter_expansion_stays_one_token() {
    let tokens = lex("try_files /abc/${uri} =404;");
    check_values(&tokens, &[("try_files", 1), ("/abc/${uri}", 1), ("=404", 1), (";", 1)]);
}

#[test]
fn parameter_expansion_keeps_internal_whitespace() {
    let tokens = lex("set ${a b}c;");
    check_values(&tokens, &[("set", 1), ("${a b}c", 1), (";", 1)]);
}

#[test]
fn dollar_without_brace_is_ordinary() {
    let tokens = lex("return $host;");
    check_values(&tokens, &[("return", 1), ("$host", 1), (";", 1)]);
}

#[test]
fn empty_input_yields_no_tokens() {
    let tokens = lex("");
    assert!(tokens.is_empty());
}

#[test]
fn empty_quoted_string_is_kept() {
    let tokens = lex("\"\";");
    assert_eq!(tokens.len(), 2);
    assert_eq!(tokens[0].value, "");
    assert!(tokens[0].is_quoted);
    assert!(tokens[0].error.is_none());
    assert_eq!(tokens[1].value, ";");
}

#[test]
fn unterminated_quote_emits_partial_content() {
    let tokens = lex("\"abc");
    check_values(&tokens, &[("abc", 1)]);
    assert!(tokens[0].is_quoted);
}

#[test]
fn unexpected_closing_brace_is_the_only_token() {
    let tokens = lex("}");
    assert_eq!(tokens.len(), 1);
    assert_eq!(tokens[0].value, "");
    let err = tokens[0].error.as_ref().expect("error token expected");
    assert_eq!(err.what, "unexpected '}'");
    assert_eq!(err.line, 1);
}

#[test]
fn unexpected_closing_brace_discards_earlier_tokens() {
    let tokens = lex("foo;\n}\n");
    assert_eq!(tokens.len(), 1);
    let err = tokens[0].error.as_ref().expect("error token expected");
    assert_eq!(err.what, "unexpected '}'");
    assert_eq!(err.line, 2);
}

#[test]
fn unterminated_block_appends_one_error() {
    let tokens = lex("events {\nfoo;\n");
    assert_eq!(tokens.len(), 5);
    check_values(&tokens[..4], &[("events", 1), ("{", 1), ("foo", 2), (";", 2)]);
    let err = tokens[4].error.as_ref().expect("error token expected");
    assert_eq!(err.what, "unexpected end of file, expecting '}'");
    assert_eq!(err.line, 2);
    assert_eq!(tokens[4].value, "");
}

#[test]
fn balanced_input_gets_no_error_token() {
    let tokens = lex("a { b { } } c;");
    for t in &tokens {
        assert!(t.error.is_none());
    }
    check_values(
        &tokens,
        &[
            ("a", 1),
            ("{", 1),
            ("b", 1),
            ("{", 1),
            ("}", 1),
            ("}", 1),
            ("c", 1),
            (";", 1),
        ],
    );
}

#[test]
fn word_value_retokenizes_to_itself() {
    let first = lex("hello ");
    assert_eq!(first.len(), 1);
    let again = lex(&format!("{} ", first[0].value));
    assert_eq!(again.len(), 1);
    assert_eq!(again[0].value, first[0].value);
    assert_eq!(again[0].line, 1);
    assert!(!again[0].is_quoted);
}

#[test]
fn quoted_value_retokenizes_to_itself() {
    let first = lex("\"a b\" ");
    assert_eq!(first.len(), 1);
    assert!(first[0].is_quoted);
    let again = lex(&format!("\"{}\" ", first[0].value));
    assert_eq!(again.len(), 1);
    assert_eq!(again[0].value, first[0].value);
    assert!(again[0].is_quoted);
}

#[test]
fn lone_trailing_backslash_is_a_word() {
    let tokens = lex("a \\");
    check_values(&tokens, &[("a", 1), ("\\", 1)]);
}
