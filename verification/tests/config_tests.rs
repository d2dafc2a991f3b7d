use seqrun::exitcode::ExitMode;
use seqrun::exitcode::NextStep;
use seqrun::exitcode::RunError;
use seqrun::exitcode::error_exit_code;
use seqrun::exitcode::next_step;
use seqrun::exitcode::parse_buffer_size;
use seqrun::exitcode::status_to_exit_code;

#[test]
fn parses_mirror_exit_mode() {
    assert!(matches!(ExitMode::parse("mirror"), Ok(ExitMode::Mirror)));
}

#[test]
fn parses_integer_exit_mode() {
    assert!(matches!(ExitMode::parse("300"), Ok(ExitMode::Fixed(300))));
    assert!(matches!(ExitMode::parse("-1"), Ok(ExitMode::Fixed(-1))));
}

#[test]
fn rejects_invalid_exit_mode() {
    assert!(ExitMode::parse("not-an-int").is_err());
}

#[test]
fn exit_mode_accepts_extreme_codes() {
    assert!(matches!(ExitMode::parse("+5"), Ok(ExitMode::Fixed(5))));
    assert!(matches!(ExitMode::parse("2147483647"), Ok(ExitMode::Fixed(2147483647))));
    assert!(matches!(ExitMode::parse("-2147483648"), Ok(ExitMode::Fixed(-2147483648))));
    assert!(ExitMode::parse("2147483648").is_err());
    assert!(ExitMode::parse("-2147483649").is_err());
    assert!(ExitMode::parse("").is_err());
    assert!(ExitMode::parse("-").is_err());
    assert!(ExitMode::parse("Mirror").is_err());
}

#[test]
fn exit_mode_selects_reported_code() {
    let fixed = ExitMode::Fixed(7);
    assert_eq!(fixed.code(42), 7);
    let mirror = ExitMode::Mirror;
    assert_eq!(mirror.code(42), 42);
}

#[test]
fn buffer_size_accepts_positive_integers() {
    assert_eq!(parse_buffer_size("10"), Ok(10));
    assert_eq!(parse_buffer_size("+10000"), Ok(10000));
    assert_eq!(parse_buffer_size("1"), Ok(1));
}

#[test]
fn buffer_size_rejects_zero_and_garbage() {
    assert!(parse_buffer_size("0").is_err());
    assert!(parse_buffer_size("").is_err());
    assert!(parse_buffer_size("-5").is_err());
    assert!(parse_buffer_size("ten").is_err());
    assert!(parse_buffer_size("99999999999999999999999999999").is_err());
}

#[test]
fn normal_exit_code_is_used_verbatim() {
    assert_eq!(status_to_exit_code(Some(0), None), 0);
    assert_eq!(status_to_exit_code(Some(7), None), 7);
    assert_eq!(status_to_exit_code(Some(3), Some(9)), 3);
}

#[test]
fn signal_termination_maps_to_128_plus_signal() {
    assert_eq!(status_to_exit_code(None, Some(15)), 143);
    assert_eq!(status_to_exit_code(None, Some(9)), 137);
}

#[test]
fn unknown_termination_defaults_to_one() {
    assert_eq!(status_to_exit_code(None, None), 1);
}

#[test]
fn runner_errors_map_to_distinct_codes() {
    assert_eq!(error_exit_code(&RunError::Parse), 2);
    assert_eq!(error_exit_code(&RunError::SpawnNotFound), 127);
    assert_eq!(error_exit_code(&RunError::SpawnOther), 126);
    assert_eq!(error_exit_code(&RunError::Read), 125);
    assert_eq!(error_exit_code(&RunError::Wait), 125);
    assert_eq!(error_exit_code(&RunError::ReaderPanic), 125);
    assert_eq!(error_exit_code(&RunError::MissingPipe), 125);
}

#[test]
fn sequencer_continues_only_on_success() {
    assert_eq!(next_step(&ExitMode::Fixed(1), 0), NextStep::Continue);
    assert_eq!(next_step(&ExitMode::Fixed(1), 9), NextStep::Stop(1));
    assert_eq!(next_step(&ExitMode::Mirror, 9), NextStep::Stop(9));
}
