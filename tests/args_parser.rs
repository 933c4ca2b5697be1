use rshell::args_parser::parse_args;

#[test]
fn test_basic() {
    assert_eq!(parse_args("echo hello world"), vec!["echo", "hello", "world"]);
}

#[test]
fn test_single_quotes() {
    assert_eq!(parse_args("echo 'hello world' foo"), vec!["echo", "hello world", "foo"]);
}

#[test]
fn test_only_single_quoted() {
    assert_eq!(parse_args("'just one quoted arg'"), vec!["just one quoted arg"]);
}

#[test]
fn test_mixed_quoted_and_unquoted() {
    assert_eq!(
        parse_args("cmd 'arg with space' another"),
        vec!["cmd", "arg with space", "another"]
    );
}

#[test]
fn test_multiple_spaces() {
    assert_eq!(parse_args("   echo    foo   bar "), vec!["echo", "foo", "bar"]);
}

#[test]
fn test_empty_input() {
    assert_eq!(parse_args(""), Vec::<String>::new());
}

#[test]
fn test_only_spaces() {
    assert_eq!(parse_args("     "), Vec::<String>::new());
}

#[test]
fn test_unclosed_quote() {
    assert_eq!(parse_args("echo 'unclosed quote"), vec!["echo", "unclosed quote"]);
}

#[test]
fn test_nested_single_quotes_ignored() {
    assert_eq!(parse_args("echo 'it is 'not' nested'"), vec!["echo", "it is not nested"]);
}

#[test]
fn test_complex_paths() {
    let input = "cat \"/tmp/'file name' with spaces\"";
    let args = parse_args(input);
    assert_eq!(args, vec!["cat", "/tmp/'file name' with spaces"]);
}

#[test]
fn test_backslashes_in_double_quotes() {
    let input = r#"echo "a\\b" "a\"b" "a\$b" "a\`b" "a\zb""#;
    let parsed = parse_args(input);

    assert_eq!(
        parsed,
        vec![
            "echo".to_string(),
            "a\\b".to_string(),
            "a\"b".to_string(),
            "a$b".to_string(),
            "a`b".to_string(),
            "a\\zb".to_string(),
        ]
    );
}

#[test]
fn newline_counts_as_space() {
    assert_eq!(parse_args("echo a\nb"), vec!["echo", "a", "b"]);
    assert_eq!(parse_args("echo 'a\nb'"), vec!["echo", "a b"]);
}

#[test]
fn backslash_outside_quotes_escapes_next() {
    assert_eq!(parse_args("echo a\\ b \\'x\\'"), vec!["echo", "a b", "'x'"]);
}

#[test]
fn single_quotes_inert_in_double_quotes() {
    assert_eq!(parse_args("echo \"it's\""), vec!["echo", "it's"]);
}

#[test]
fn unterminated_escape_keeps_token() {
    assert_eq!(parse_args("echo ab\\"), vec!["echo", "ab"]);
    assert_eq!(parse_args("echo \"ab\\"), vec!["echo", "ab"]);
}

#[test]
fn retokenizing_joined_plain_tokens_is_stable() {
    let first = parse_args("  ls   -la  /tmp ");
    let again = parse_args(&first.join(" "));
    assert_eq!(first, again);
}

#[test]
fn four_spaces_give_nothing() {
    assert!(parse_args("    ").is_empty());
}
