use ngx_lex::CharLine;
use ngx_lex::NgxToken;
use ngx_lex::Unit;
use ngx_lex::balance_braces;
use ngx_lex::escape_chars;
use ngx_lex::lex;
use ngx_lex::line_count;
use ngx_lex::read_chars;
use ngx_lex::tokenize;

fn word(value: &str, line: usize) -> NgxToken {
    NgxToken { value: value.to_string(), line, is_quoted: false, error: None }
}

fn quoted(value: &str, line: usize) -> NgxToken {
    NgxToken { value: value.to_string(), line, is_quoted: true, error: None }
}

#[test]
fn read_chars_keeps_every_character() {
    assert_eq!(read_chars("ab c\n"), vec!['a', 'b', ' ', 'c', '\n']);
    assert_eq!(read_chars(""), Vec::<char>::new());
}

#[test]
fn escape_chars_pairs_escapes_and_drops_continuations() {
    let input: Vec<char> = "a\\n\\\nb\r".chars().collect();
    let units = escape_chars(&input);
    assert_eq!(
        units,
        vec![
            Unit { escaped: false, ch: 'a' },
            Unit { escaped: true, ch: 'n' },
            Unit { escaped: false, ch: 'b' },
        ]
    );
}

#[test]
fn escape_chars_drops_carriage_return_inside_pair() {
    let input: Vec<char> = "a\\\r\nb".chars().collect();
    let units = escape_chars(&input);
    assert_eq!(
        units,
        vec![Unit { escaped: false, ch: 'a' }, Unit { escaped: false, ch: 'b' }]
    );
}

#[test]
fn escape_chars_keeps_lone_trailing_backslash() {
    let input: Vec<char> = "a\\".chars().collect();
    let units = escape_chars(&input);
    assert_eq!(
        units,
        vec![Unit { escaped: false, ch: 'a' }, Unit { escaped: false, ch: '\\' }]
    );
}

#[test]
fn line_count_advances_after_each_newline() {
    let input: Vec<char> = "a\nb".chars().collect();
    let annotated = line_count(&escape_chars(&input));
    assert_eq!(
        annotated,
        vec![
            CharLine { escaped: false, ch: 'a', line: 1 },
            CharLine { escaped: false, ch: '\n', line: 1 },
            CharLine { escaped: false, ch: 'b', line: 2 },
        ]
    );
}

#[test]
fn tokenize_never_validates_braces() {
    let tokens = tokenize("}");
    assert_eq!(tokens.len(), 1);
    assert_eq!(tokens[0].value, "}");
    assert!(tokens[0].error.is_none());
}

#[test]
fn balance_braces_ignores_quoted_braces() {
    let input = vec![word("a", 1), quoted("}", 1), word(";", 1)];
    let out = balance_braces(input.clone());
    assert_eq!(out, input);
}

#[test]
fn balance_braces_counts_only_structural_tokens() {
    let input = vec![word("{x}", 1), word(";", 1)];
    let out = balance_braces(input.clone());
    assert_eq!(out, input);
}

#[test]
fn dense_escapes_stay_verbatim_in_words() {
    let tokens = lex("if ($request_method = P\\{O\\)\\###\\;ST ) {\n}\n");
    let values: Vec<&str> = tokens.iter().map(|t| t.value.as_str()).collect();
    assert_eq!(
        values,
        vec!["if", "($request_method", "=", "P\\{O\\)\\###\\;ST", ")", "{", "}"]
    );
    for t in &tokens {
        assert!(t.error.is_none());
    }
}

#[test]
fn dense_escapes_stay_verbatim_in_comments() {
    let tokens = lex("user nobody;\n# hello\\n\\\\n worlddd \\#\\\\\\# dfsf\nevents;");
    let values: Vec<&str> = tokens.iter().map(|t| t.value.as_str()).collect();
    assert_eq!(
        values,
        vec![
            "user",
            "nobody",
            ";",
            "# hello\\n\\\\n worlddd \\#\\\\\\# dfsf",
            "events",
            ";",
        ]
    );
    assert_eq!(tokens[3].line, 2);
    assert_eq!(tokens[4].line, 3);
}

#[test]
fn quoted_value_with_escapes_keeps_non_delimiter_pairs() {
    let tokens = lex("return 200 \"Ser\\\" ' ' ver\\\\ \\ $host\";");
    assert_eq!(tokens.len(), 4);
    assert_eq!(tokens[2].value, "Ser\" ' ' ver\\\\ \\ $host");
    assert!(tokens[2].is_quoted);
}

#[test]
fn statement_split_across_lines() {
    let tokens = lex("location /sta;\n tus {\n}");
    let pairs: Vec<(&str, usize)> = tokens.iter().map(|t| (t.value.as_str(), t.line)).collect();
    assert_eq!(
        pairs,
        vec![
            ("location", 1),
            ("/sta", 1),
            (";", 1),
            ("tus", 2),
            ("{", 2),
            ("}", 3),
        ]
    );
}
