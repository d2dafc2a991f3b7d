use seqrun::command::parse_command;
use seqrun::exitcode::RunError;

#[test]
fn splits_program_and_arguments() {
    let (program, args) = parse_command("echo hello world").expect("should parse");
    assert_eq!(program, "echo");
    assert_eq!(args, vec!["hello".to_string(), "world".to_string()]);
}

#[test]
fn honors_shell_style_quoting() {
    let (program, args) = parse_command("grep 'two words' \"a b\" c\\ d").expect("should parse");
    assert_eq!(program, "grep");
    assert_eq!(args, vec!["two words".to_string(), "a b".to_string(), "c d".to_string()]);
}

#[test]
fn rejects_empty_command_string() {
    let err = parse_command("").unwrap_err();
    assert!(matches!(err, RunError::Parse));
    let err = parse_command("   ").unwrap_err();
    assert!(matches!(err, RunError::Parse));
}

#[test]
fn rejects_unterminated_quote() {
    let err = parse_command("echo 'unterminated").unwrap_err();
    assert!(matches!(err, RunError::Parse));
}

#[test]
fn command_with_no_arguments_gets_empty_list() {
    let (program, args) = parse_command("true").expect("should parse");
    assert_eq!(program, "true");
    assert!(args.is_empty());
}
