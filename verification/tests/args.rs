use grpnice::args::parse_args;
use grpnice::args::str_eq;
use grpnice::args::ArgError;
use std::collections::VecDeque;

fn deque(items: &[&str]) -> VecDeque<String> {
    items.iter().map(|s| s.to_string()).collect()
}

#[test]
fn pid_alone_defaults_adjustment() {
    assert_eq!(parse_args(&mut deque(&["1234"])), Ok((1234, 10)));
}

#[test]
fn adjustment_flag_taken() {
    assert_eq!(parse_args(&mut deque(&["-n", "5", "99"])), Ok((99, 5)));
}

#[test]
fn negative_adjustment_taken() {
    assert_eq!(parse_args(&mut deque(&["-n", "-5", "1"])), Ok((1, -5)));
}

#[test]
fn later_adjustment_wins() {
    assert_eq!(parse_args(&mut deque(&["-n", "1", "-n", "2", "7"])), Ok((7, 2)));
}

#[test]
fn help_requested() {
    assert_eq!(parse_args(&mut deque(&["-h"])), Err(ArgError::PrintHelp));
    assert_eq!(parse_args(&mut deque(&["-n", "5", "-h"])), Err(ArgError::PrintHelp));
}

#[test]
fn version_requested() {
    assert_eq!(parse_args(&mut deque(&["-v"])), Err(ArgError::PrintVersion));
}

#[test]
fn no_arguments() {
    assert_eq!(parse_args(&mut deque(&[])), Err(ArgError::InsufficientArgs));
}

#[test]
fn flag_without_value() {
    assert_eq!(parse_args(&mut deque(&["-n"])), Err(ArgError::InsufficientArgs));
}

#[test]
fn bad_pid() {
    assert_eq!(parse_args(&mut deque(&["abc"])), Err(ArgError::ParseError));
    assert_eq!(parse_args(&mut deque(&["-1"])), Err(ArgError::ParseError));
}

#[test]
fn bad_adjustment() {
    assert_eq!(parse_args(&mut deque(&["-n", "x", "5"])), Err(ArgError::ParseError));
}

#[test]
fn str_eq_compares_by_contents() {
    assert!(str_eq("ab", "ab"));
    assert!(str_eq("", ""));
    assert!(!str_eq("ab", "ac"));
    assert!(!str_eq("a", "ab"));
}
