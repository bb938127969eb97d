use logbuddy::args::ArgError;
use logbuddy::args::CliRequest;
use logbuddy::args::parse_count;
use logbuddy::scanner::Config;

fn argv(parts: &[&str]) -> Vec<Vec<u8>> {
    parts.iter().map(|p| p.as_bytes().to_vec()).collect()
}

fn parse(parts: &[&str]) -> Result<CliRequest, ArgError> {
    Config::from_args(&argv(parts))
}

fn scan(parts: &[&str]) -> Config {
    match parse(parts) {
        Ok(CliRequest::Scan(c)) => c,
        _ => panic!("expected a scan request"),
    }
}

#[test]
fn full_flag_set_is_parsed() {
    let c = scan(&["--path", "./logs", "--ext", ".log", "--top", "3", "--find", "error"]);
    assert_eq!(c.path, b"./logs".to_vec());
    assert_eq!(c.ext, Some(b".log".to_vec()));
    assert_eq!(c.top, 3);
    assert_eq!(c.find, Some(b"error".to_vec()));
}

#[test]
fn defaults_when_only_path_given() {
    let c = scan(&["--path", "dir"]);
    assert_eq!(c.path, b"dir".to_vec());
    assert_eq!(c.ext, None);
    assert_eq!(c.top, 10);
    assert_eq!(c.find, None);
}

#[test]
fn later_flags_override_earlier_ones() {
    let c = scan(&["--path", "a", "--path", "b", "--top", "1", "--top", "2"]);
    assert_eq!(c.path, b"b".to_vec());
    assert_eq!(c.top, 2);
}

#[test]
fn help_flags_win() {
    assert!(matches!(parse(&["--help"]), Ok(CliRequest::Help)));
    assert!(matches!(parse(&["-h"]), Ok(CliRequest::Help)));
    assert!(matches!(parse(&["--path", "p", "--help"]), Ok(CliRequest::Help)));
}

#[test]
fn missing_path_is_an_error() {
    assert!(matches!(parse(&[]), Err(ArgError::MissingPath)));
    assert!(matches!(parse(&["--top", "3"]), Err(ArgError::MissingPath)));
}

#[test]
fn unknown_flag_is_an_error() {
    match parse(&["--path", "p", "--bogus"]) {
        Err(ArgError::UnknownFlag(f)) => assert_eq!(f, b"--bogus".to_vec()),
        _ => panic!("expected an unknown-flag error"),
    }
}

#[test]
fn missing_value_is_an_error() {
    match parse(&["--path"]) {
        Err(ArgError::MissingValue(f)) => assert_eq!(f, b"--path".to_vec()),
        _ => panic!("expected a missing-value error"),
    }
    assert!(matches!(parse(&["--path", "p", "--find"]), Err(ArgError::MissingValue(_))));
}

#[test]
fn bad_top_is_an_error() {
    assert!(matches!(parse(&["--path", "p", "--top", "abc"]), Err(ArgError::InvalidTop)));
    assert!(matches!(parse(&["--path", "p", "--top", "-1"]), Err(ArgError::InvalidTop)));
    assert!(matches!(parse(&["--path", "p", "--top", ""]), Err(ArgError::InvalidTop)));
    assert!(matches!(parse(&["--path", "p", "--top", "+"]), Err(ArgError::InvalidTop)));
    assert!(matches!(parse(&["--path", "p", "--top", "1 2"]), Err(ArgError::InvalidTop)));
}

#[test]
fn top_accepts_plus_sign_and_leading_zeros() {
    assert_eq!(scan(&["--path", "p", "--top", "+7"]).top, 7);
    assert_eq!(scan(&["--path", "p", "--top", "007"]).top, 7);
    assert_eq!(scan(&["--path", "p", "--top", "0"]).top, 0);
}

#[test]
fn oversized_top_is_an_error() {
    assert!(matches!(
        parse(&["--path", "p", "--top", "99999999999999999999999"]),
        Err(ArgError::InvalidTop)
    ));
}

#[test]
fn parse_count_edges() {
    assert_eq!(parse_count(&b"0".to_vec()), Some(0));
    assert_eq!(parse_count(&b"42".to_vec()), Some(42));
    assert_eq!(parse_count(&b"+42".to_vec()), Some(42));
    assert_eq!(parse_count(&b"".to_vec()), None);
    assert_eq!(parse_count(&b"+".to_vec()), None);
    assert_eq!(parse_count(&b"4x".to_vec()), None);
    assert_eq!(parse_count(&b"++4".to_vec()), None);
    let max = usize::MAX.to_string();
    assert_eq!(parse_count(&max.as_bytes().to_vec()), Some(usize::MAX));
    let over = format!("{}0", usize::MAX);
    assert_eq!(parse_count(&over.as_bytes().to_vec()), None);
}
