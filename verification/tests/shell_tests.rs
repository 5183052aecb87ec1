use croner::shell::{get_command, parse_command, parse_command_full, TokenError};

#[test]
fn empty_command_returns_empty_vec() {
    assert_eq!(get_command(""), Vec::<String>::new());
}

#[test]
fn single_token_fast_path() {
    assert_eq!(get_command("ls"), vec!["ls"]);
}

#[test]
fn whitespace_split_fast_path() {
    assert_eq!(get_command("ls -la /tmp"), vec!["ls", "-la", "/tmp"]);
}

#[test]
fn quoted_strings_single_quotes() {
    assert_eq!(
        get_command("echo 'hello world'"),
        vec!["echo", "hello world"]
    );
}

#[test]
fn quoted_strings_double_quotes() {
    assert_eq!(
        get_command("echo \"hello world\""),
        vec!["echo", "hello world"]
    );
}

#[test]
fn escaped_characters_in_double_quotes() {
    assert_eq!(
        get_command("echo \"line1\\nline2\""),
        vec!["echo", "line1\nline2"]
    );
}

#[test]
fn escaped_characters_outside_quotes() {
    assert_eq!(
        get_command("echo line1\\nline2"),
        vec!["echo", "line1\nline2"]
    );
}

#[test]
fn mixed_quoting_and_args() {
    assert_eq!(
        get_command("cmd 'arg with spaces' plain \"another one\""),
        vec!["cmd", "arg with spaces", "plain", "another one"]
    );
}

#[test]
fn multiple_spaces_are_ignored_between_tokens() {
    assert_eq!(get_command("ls     -la   /tmp"), vec!["ls", "-la", "/tmp"]);
}

#[test]
fn utf8_token_is_parsed_correctly() {
    assert_eq!(get_command("echo café"), vec!["echo", "café"]);
}

#[test]
fn dangling_backslash_returns_error() {
    assert_eq!(get_command("echo \\"), Vec::<String>::new());
}

#[test]
fn unclosed_single_quote_returns_error() {
    assert_eq!(get_command("echo 'oops"), Vec::<String>::new());
}

#[test]
fn unclosed_double_quote_returns_error() {
    assert_eq!(get_command("echo \"oops"), Vec::<String>::new());
}

#[test]
fn invalid_utf8_token_returns_error_unix() {
    let bytes = vec![0xff, 0xfe, b'a'];
    let input = String::from_utf8_lossy(&bytes).to_string();
    let parsed = get_command(&format!("echo {}", input));

    assert_eq!(parsed.first().map(String::as_str), Some("echo"));
}

#[test]
fn strict_surface_reports_each_error() {
    assert_eq!(parse_command("echo \\"), Err(TokenError::DanglingBackslash));
    assert_eq!(parse_command("echo \"a\\"), Err(TokenError::DanglingBackslash));
    assert_eq!(parse_command("echo 'oops"), Err(TokenError::UnclosedQuote));
    assert_eq!(parse_command("echo \"oops"), Err(TokenError::UnclosedQuote));
    assert_eq!(
        parse_command_full(&[b'a', b' ', 0xff, b' ', b'\'']),
        Err(TokenError::InvalidUtf8)
    );
    assert_eq!(parse_command_full(&[b'a', b' ', 0xff]), Err(TokenError::InvalidUtf8));
    assert_eq!(parse_command_full(&[b'"', 0xc3, b'"']), Err(TokenError::InvalidUtf8));
}

#[test]
fn error_messages() {
    assert_eq!(
        TokenError::DanglingBackslash.message(),
        "dangling backslash at end of input"
    );
    assert_eq!(TokenError::UnclosedQuote.message(), "unclosed quote");
    assert_eq!(TokenError::InvalidUtf8.message(), "invalid utf-8 in token");
}

#[test]
fn strict_surface_agrees_with_lenient_one_on_success() {
    let input = "cmd 'arg with spaces' plain \"another one\"";
    assert_eq!(parse_command(input), Ok(get_command(input)));
}

#[test]
fn short_paths_agree_with_the_general_tokenizer() {
    for input in ["ls", "ls -la /tmp", "  a\tb\nc\r\x0b\x0cd  ", "echo café", "   ", "x "] {
        assert_eq!(parse_command(input), parse_command_full(input.as_bytes()), "{:?}", input);
    }
    assert_eq!(get_command("  a\tb\nc\r\x0b\x0cd  "), vec!["a", "b", "c", "d"]);
    assert_eq!(get_command("   "), Vec::<String>::new());
}

#[test]
fn only_ascii_whitespace_separates_arguments() {
    assert_eq!(get_command("a b\u{2003}c"), vec!["a", "b\u{2003}c"]);
    assert_eq!(get_command("a\u{a0}b"), vec!["a\u{a0}b"]);
    assert_eq!(get_command("'x' b\u{2003}c"), vec!["x", "b\u{2003}c"]);
}

#[test]
fn escapes_translate_n_t_r_and_pass_others_through() {
    assert_eq!(get_command("a\\tb"), vec!["a\tb"]);
    assert_eq!(get_command("a\\rb"), vec!["a\rb"]);
    assert_eq!(get_command("a\\ b"), vec!["a b"]);
    assert_eq!(get_command("a\\\\b"), vec!["a\\b"]);
    assert_eq!(get_command("\"a\\\"b\""), vec!["a\"b"]);
    assert_eq!(get_command("\\é"), vec!["é"]);
}

#[test]
fn single_quotes_take_backslashes_literally() {
    assert_eq!(get_command("'a\\nb'"), vec!["a\\nb"]);
    assert_eq!(get_command("'a\"b'"), vec!["a\"b"]);
}

#[test]
fn adjacent_quoted_pieces_form_one_argument() {
    assert_eq!(get_command("a'b c'\"d e\"f"), vec!["ab cd ef"]);
}

#[test]
fn empty_quotes_give_no_argument() {
    assert_eq!(get_command("echo ''"), vec!["echo"]);
    assert_eq!(get_command("a \"\" b"), vec!["a", "b"]);
}
