use my_shell::command::{
    get_built_in_commands, parse_u8_decimal, MyShellCommand, PathAndType, ShellErrors,
};
use my_shell::utils::{locate_command_in_paths, split_path, SearchDir};

fn dir(path: &str, entries: &[&str]) -> SearchDir {
    SearchDir {
        path: path.to_string(),
        readable: true,
        entries: entries.iter().map(|e| e.to_string()).collect(),
    }
}

fn unreadable(path: &str) -> SearchDir {
    SearchDir {
        path: path.to_string(),
        readable: false,
        entries: Vec::new(),
    }
}

#[test]
fn builtins_are_exit_echo_type() {
    let names = get_built_in_commands();
    assert_eq!(
        names,
        vec!["exit".to_string(), "echo".to_string(), "type".to_string()]
    );
}

#[test]
fn exit_with_valid_code_is_builtin_with_that_code() {
    let dirs: Vec<SearchDir> = Vec::new();
    let cmd = MyShellCommand::try_parse("exit 200", &dirs);
    assert_eq!(cmd, MyShellCommand::Exit(200));
}

#[test]
fn exit_with_invalid_code_is_reported_invalid() {
    let dirs: Vec<SearchDir> = Vec::new();
    let cmd = MyShellCommand::try_parse("exit xx", &dirs);
    assert_eq!(cmd, MyShellCommand::Invalid);
}

#[test]
fn exit_without_code_is_reported_invalid() {
    let dirs: Vec<SearchDir> = Vec::new();
    let cmd = MyShellCommand::try_parse("exit", &dirs);
    assert_eq!(cmd, MyShellCommand::Invalid);
}

#[test]
fn unsigned_byte_parsing_is_exact() {
    assert_eq!(parse_u8_decimal(&"0".to_string()), Some(0));
    assert_eq!(parse_u8_decimal(&"255".to_string()), Some(255));
    assert_eq!(parse_u8_decimal(&"007".to_string()), Some(7));
    assert_eq!(parse_u8_decimal(&"+200".to_string()), Some(200));
    assert_eq!(parse_u8_decimal(&"256".to_string()), None);
    assert_eq!(parse_u8_decimal(&"".to_string()), None);
    assert_eq!(parse_u8_decimal(&"+".to_string()), None);
    assert_eq!(parse_u8_decimal(&"12a".to_string()), None);
    assert_eq!(parse_u8_decimal(&"-1".to_string()), None);
    assert_eq!(parse_u8_decimal(&"99999999999999999999".to_string()), None);
}

#[test]
fn executable_is_found_in_the_first_directory_listing_it() {
    let dirs = vec![dir("/bin", &["cp", "mv"]), dir("/usr/bin", &["ls"])];
    let cmd = MyShellCommand::try_parse("ls", &dirs);
    match cmd {
        MyShellCommand::ExternalProgram(e) => {
            assert_eq!(e.name, "ls");
            assert_eq!(e.path, "/usr/bin/ls");
            assert!(e.args.is_empty());
        }
        other => panic!("expected an external program, got {:?}", other),
    }
}

#[test]
fn earlier_directory_takes_precedence() {
    let dirs = vec![dir("/bin", &["ls"]), dir("/usr/bin", &["ls"])];
    let cmd = MyShellCommand::try_parse("ls -l", &dirs);
    match cmd {
        MyShellCommand::ExternalProgram(e) => {
            assert_eq!(e.path, "/bin/ls");
            assert_eq!(e.args, vec!["-l".to_string()]);
        }
        other => panic!("expected an external program, got {:?}", other),
    }
}

#[test]
fn unreadable_directory_is_skipped_not_fatal() {
    let dirs = vec![unreadable("/secret"), dir("/usr/bin", &["ls"])];
    let cmd = MyShellCommand::try_parse("ls", &dirs);
    match cmd {
        MyShellCommand::ExternalProgram(e) => assert_eq!(e.path, "/usr/bin/ls"),
        other => panic!("expected an external program, got {:?}", other),
    }
}

#[test]
fn unknown_command_is_invalid() {
    let dirs = vec![dir("/bin", &["cp"])];
    let cmd = MyShellCommand::try_parse("nosuch", &dirs);
    assert_eq!(cmd, MyShellCommand::Invalid);
}

#[test]
fn empty_line_is_no_command() {
    let dirs = vec![dir("/bin", &["cp"])];
    let cmd = MyShellCommand::try_parse("", &dirs);
    assert_eq!(cmd, MyShellCommand::Invalid);
}

#[test]
fn builtin_takes_precedence_over_like_named_executable() {
    let dirs = vec![dir("/bin", &["echo"])];
    let cmd = MyShellCommand::try_parse("echo hi", &dirs);
    assert_eq!(cmd, MyShellCommand::Echo("hi".to_string()));
}

#[test]
fn echo_joins_arguments_with_single_spaces() {
    let dirs: Vec<SearchDir> = Vec::new();
    let cmd = MyShellCommand::try_parse("echo 'a b'   c", &dirs);
    assert_eq!(cmd, MyShellCommand::Echo("a b c".to_string()));
    let cmd = MyShellCommand::try_parse("echo", &dirs);
    assert_eq!(cmd, MyShellCommand::Echo("".to_string()));
}

#[test]
fn type_reports_builtins() {
    let dirs: Vec<SearchDir> = Vec::new();
    let cmd = MyShellCommand::try_parse("type echo", &dirs);
    assert_eq!(
        cmd,
        MyShellCommand::Type(Ok(PathAndType {
            path: None,
            command: "echo".to_string(),
        }))
    );
}

#[test]
fn type_reports_externals_with_their_path() {
    let dirs = vec![dir("/bin", &["cp"]), dir("/usr/bin", &["ls"])];
    let cmd = MyShellCommand::try_parse("type ls", &dirs);
    assert_eq!(
        cmd,
        MyShellCommand::Type(Ok(PathAndType {
            path: Some("/usr/bin/ls".to_string()),
            command: "ls".to_string(),
        }))
    );
}

#[test]
fn type_reports_unknown_names_as_not_found() {
    let dirs = vec![dir("/bin", &["cp"])];
    let cmd = MyShellCommand::try_parse("type nosuch", &dirs);
    assert_eq!(cmd, MyShellCommand::Type(Err("nosuch".to_string())));
}

#[test]
fn type_without_argument_is_invalid() {
    let dirs: Vec<SearchDir> = Vec::new();
    let cmd = MyShellCommand::try_parse("type", &dirs);
    assert_eq!(cmd, MyShellCommand::Invalid);
}

#[test]
fn scan_errors_tell_whether_any_files_were_seen() {
    let name = "nosuch".to_string();
    let with_entries = vec![dir("/bin", &["cp"])];
    assert_eq!(
        locate_command_in_paths(&with_entries, &name, None),
        Err(ShellErrors::FileNotFoundInPath)
    );
    let no_entries = vec![unreadable("/secret"), dir("/empty", &[])];
    assert_eq!(
        locate_command_in_paths(&no_entries, &name, None),
        Err(ShellErrors::NoFilesInPATH)
    );
    assert_eq!(
        ShellErrors::FileNotFoundInPath.message(),
        "File is not in $PATH"
    );
    assert_eq!(
        ShellErrors::NoFilesInPATH.message(),
        "No executable files were found in $PATH"
    );
}

#[test]
fn search_path_splits_at_every_colon() {
    assert_eq!(
        split_path("/bin:/usr/bin"),
        vec!["/bin".to_string(), "/usr/bin".to_string()]
    );
    assert_eq!(
        split_path("a::b"),
        vec!["a".to_string(), "".to_string(), "b".to_string()]
    );
    assert_eq!(split_path(""), vec!["".to_string()]);
}
