use headr::get_args;
use headr::ParseError;

fn sv(args: &[&str]) -> Vec<String> {
    args.iter().map(|s| s.to_string()).collect()
}

#[test]
fn no_arguments_defaults_to_stdin_and_ten_lines() {
    let cfg = get_args(&sv(&[])).unwrap();
    assert_eq!(cfg.files, vec!["-".to_string()]);
    assert_eq!(cfg.lines, 10);
    assert_eq!(cfg.bytes, None);
}

#[test]
fn positional_arguments_become_files_in_order() {
    let cfg = get_args(&sv(&["a.txt", "b.txt", "c.txt"])).unwrap();
    assert_eq!(
        cfg.files,
        vec!["a.txt".to_string(), "b.txt".to_string(), "c.txt".to_string()]
    );
    assert_eq!(cfg.lines, 10);
    assert_eq!(cfg.bytes, None);
}

#[test]
fn dash_alone_is_a_file() {
    let cfg = get_args(&sv(&["-"])).unwrap();
    assert_eq!(cfg.files, vec!["-".to_string()]);
}

#[test]
fn options_only_still_default_to_stdin() {
    let cfg = get_args(&sv(&["-n", "2"])).unwrap();
    assert_eq!(cfg.files, vec!["-".to_string()]);
    assert_eq!(cfg.lines, 2);
}

#[test]
fn short_lines_with_separate_value() {
    let cfg = get_args(&sv(&["-n", "3", "f.txt"])).unwrap();
    assert_eq!(cfg.lines, 3);
    assert_eq!(cfg.bytes, None);
    assert_eq!(cfg.files, vec!["f.txt".to_string()]);
}

#[test]
fn long_lines_with_separate_value() {
    let cfg = get_args(&sv(&["--lines", "4"])).unwrap();
    assert_eq!(cfg.lines, 4);
}

#[test]
fn long_lines_with_equals_value() {
    let cfg = get_args(&sv(&["--lines=5"])).unwrap();
    assert_eq!(cfg.lines, 5);
}

#[test]
fn short_lines_with_attached_value() {
    let cfg = get_args(&sv(&["-n7", "f.txt"])).unwrap();
    assert_eq!(cfg.lines, 7);
}

#[test]
fn zero_lines_is_accepted() {
    let cfg = get_args(&sv(&["-n", "0"])).unwrap();
    assert_eq!(cfg.lines, 0);
}

#[test]
fn short_bytes_with_separate_value() {
    let cfg = get_args(&sv(&["-c", "5", "f.txt"])).unwrap();
    assert_eq!(cfg.bytes, Some(5));
    assert_eq!(cfg.lines, 10);
}

#[test]
fn long_bytes_with_equals_value() {
    let cfg = get_args(&sv(&["--bytes=9"])).unwrap();
    assert_eq!(cfg.bytes, Some(9));
}

#[test]
fn short_bytes_with_attached_zero() {
    let cfg = get_args(&sv(&["-c0"])).unwrap();
    assert_eq!(cfg.bytes, Some(0));
}

#[test]
fn lines_then_bytes_is_a_conflict() {
    let err = get_args(&sv(&["-n", "3", "-c", "5"])).unwrap_err();
    assert_eq!(err, ParseError::ConflictingOptions);
}

#[test]
fn bytes_then_lines_is_a_conflict() {
    let err = get_args(&sv(&["-c5", "-n3"])).unwrap_err();
    assert_eq!(err, ParseError::ConflictingOptions);
}

#[test]
fn conflict_in_mixed_forms() {
    let err = get_args(&sv(&["--bytes=1", "--lines", "2", "f.txt"])).unwrap_err();
    assert_eq!(err, ParseError::ConflictingOptions);
}

#[test]
fn repeated_lines_option_is_rejected() {
    let err = get_args(&sv(&["-n", "3", "-n", "4"])).unwrap_err();
    assert_eq!(err, ParseError::DuplicateOption);
}

#[test]
fn repeated_bytes_option_is_rejected() {
    let err = get_args(&sv(&["-c", "1", "--bytes=2"])).unwrap_err();
    assert_eq!(err, ParseError::DuplicateOption);
}

#[test]
fn trailing_option_without_value_is_rejected() {
    let err = get_args(&sv(&["f.txt", "-n"])).unwrap_err();
    assert_eq!(err, ParseError::MissingValue);
}

#[test]
fn non_numeric_count_is_rejected() {
    let err = get_args(&sv(&["-n", "abc"])).unwrap_err();
    assert_eq!(err, ParseError::InvalidCount);
}

#[test]
fn empty_equals_count_is_rejected() {
    let err = get_args(&sv(&["--lines="])).unwrap_err();
    assert_eq!(err, ParseError::InvalidCount);
}

#[test]
fn negative_count_is_rejected() {
    let err = get_args(&sv(&["-n", "-3"])).unwrap_err();
    assert_eq!(err, ParseError::InvalidCount);
}

#[test]
fn overflowing_count_is_rejected() {
    let err = get_args(&sv(&["-n", "99999999999999999999999999"])).unwrap_err();
    assert_eq!(err, ParseError::InvalidCount);
}

#[test]
fn largest_count_is_accepted() {
    let max = usize::MAX.to_string();
    let cfg = get_args(&sv(&["-n", &max])).unwrap();
    assert_eq!(cfg.lines, usize::MAX);
}

#[test]
fn unknown_long_option_is_rejected() {
    let err = get_args(&sv(&["--frobnicate"])).unwrap_err();
    assert_eq!(err, ParseError::UnknownOption);
}

#[test]
fn unknown_short_option_is_rejected() {
    let err = get_args(&sv(&["-x"])).unwrap_err();
    assert_eq!(err, ParseError::UnknownOption);
}

#[test]
fn first_problem_wins_over_later_conflict() {
    let err = get_args(&sv(&["-n", "oops", "-c", "5"])).unwrap_err();
    assert_eq!(err, ParseError::InvalidCount);
}
