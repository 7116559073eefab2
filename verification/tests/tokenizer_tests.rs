use my_shell::tokenizer::parse_command_args;

fn tokens(line: &str) -> (String, Vec<String>) {
    let parsed = parse_command_args(line);
    (parsed.name, parsed.args)
}

#[test]
fn single_quoted_argument_keeps_spaces() {
    let (name, args) = tokens("echo 'a b' c");
    assert_eq!(name, "echo");
    assert_eq!(args, vec!["a b".to_string(), "c".to_string()]);
}

#[test]
fn escaped_double_quote_is_preserved() {
    let (name, args) = tokens("echo \"say \\\"hi\\\"\"");
    assert_eq!(name, "echo");
    assert_eq!(args, vec!["say \"hi\"".to_string()]);
}

#[test]
fn empty_line_gives_empty_name_and_no_args() {
    let (name, args) = tokens("");
    assert_eq!(name, "");
    assert!(args.is_empty());
}

#[test]
fn blank_line_gives_empty_name_and_no_args() {
    let (name, args) = tokens("   ");
    assert_eq!(name, "");
    assert!(args.is_empty());
}

#[test]
fn runs_of_spaces_produce_no_empty_arguments() {
    let (name, args) = tokens("echo   a    b");
    assert_eq!(name, "echo");
    assert_eq!(args, vec!["a".to_string(), "b".to_string()]);
}

#[test]
fn backslash_outside_quotes_escapes_anything() {
    let (name, args) = tokens("echo a\\ b x\\yz");
    assert_eq!(name, "echo");
    assert_eq!(args, vec!["a b".to_string(), "xyz".to_string()]);
}

#[test]
fn backslash_in_single_quotes_is_literal() {
    let (name, args) = tokens("echo 'a\\nb'");
    assert_eq!(name, "echo");
    assert_eq!(args, vec!["a\\nb".to_string()]);
}

#[test]
fn backslash_in_double_quotes_escapes_only_special_characters() {
    let (name, args) = tokens("echo \"a\\\\b\" \"c\\nd\" \"e\\$f\"");
    assert_eq!(name, "echo");
    assert_eq!(
        args,
        vec!["a\\b".to_string(), "c\\nd".to_string(), "e$f".to_string()]
    );
}

#[test]
fn quote_of_the_other_kind_is_literal() {
    let (name, args) = tokens("echo \"it's\" 'say \"hi\"'");
    assert_eq!(name, "echo");
    assert_eq!(args, vec!["it's".to_string(), "say \"hi\"".to_string()]);
}

#[test]
fn unterminated_quote_is_recovered_permissively() {
    let (name, args) = tokens("echo 'abc");
    assert_eq!(name, "echo");
    assert_eq!(args, vec!["abc".to_string()]);
}

#[test]
fn adjacent_quoted_pieces_merge_into_one_token() {
    // Adjacent quoted pieces merge into one token.
    let (name, args) = tokens("echo 'a'\"b\"");
    assert_eq!(name, "echo");
    assert_eq!(args, vec!["ab".to_string()]);
}

#[test]
fn rejoining_simple_tokens_and_retokenizing_is_identity() {
    let (name, args) = tokens("cmd   one  two three");
    let mut joined = name.clone();
    for a in &args {
        joined.push(' ');
        joined.push_str(a);
    }
    let (name2, args2) = tokens(&joined);
    assert_eq!(name, name2);
    assert_eq!(args, args2);
}
