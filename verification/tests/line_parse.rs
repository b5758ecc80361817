use dotenv::error::Error;
use dotenv::errors::{IoError, IoErrorKind, VarError};
use dotenv::line::parse_line;
use dotenv::quoted::QuoteState;
use dotenv::vars::{Context, Environment};

#[test]
fn parse_line_records_values() {
    let env = Environment::new();
    let mut ctx = Context::new();
    assert_eq!(
        parse_line("export FOO=bar", &env, &mut ctx).unwrap(),
        Some(("FOO".to_string(), "bar".to_string()))
    );
    assert_eq!(ctx.get("FOO"), Some(Some("bar".to_string())));
    assert_eq!(
        parse_line("EMPTY=", &env, &mut ctx).unwrap(),
        Some(("EMPTY".to_string(), String::new()))
    );
    assert_eq!(ctx.get("EMPTY"), Some(None));
    assert_eq!(ctx.get("NONE"), None);
    assert_eq!(
        parse_line("USE=${FOO}-$FOO", &env, &mut ctx).unwrap(),
        Some(("USE".to_string(), "bar-bar".to_string()))
    );
}

#[test]
fn parse_line_skips_blank_and_comment_lines() {
    let env = Environment::new();
    let mut ctx = Context::new();
    assert_eq!(parse_line("   ", &env, &mut ctx).unwrap(), None);
    assert_eq!(parse_line("  # KEY=1", &env, &mut ctx).unwrap(), None);
    assert_eq!(ctx.get("KEY"), None);
}

#[test]
fn parse_line_error_offsets_are_bytes() {
    let env = Environment::new();
    let mut ctx = Context::new();
    match parse_line("KEY\u{3000}x", &env, &mut ctx) {
        Err(Error::LineParse(text, pos)) => {
            assert_eq!(text, "KEY\u{3000}x");
            assert_eq!(pos, 6);
        }
        _ => panic!("expected a parse failure"),
    }
    match parse_line("KEY=\"\u{e9}", &env, &mut ctx) {
        Err(Error::LineParse(text, pos)) => {
            assert_eq!(text, "\"\u{e9}");
            assert_eq!(pos, 2);
        }
        _ => panic!("expected a parse failure"),
    }
    assert_eq!(
        parse_line("export =1", &env, &mut ctx).unwrap(),
        Some(("export".to_string(), "1".to_string()))
    );
    match parse_line("export  1", &env, &mut ctx) {
        Err(Error::LineParse(_, pos)) => assert_eq!(pos, 8),
        _ => panic!("expected a parse failure"),
    }
}

#[test]
fn parse_line_unicode_alphanumeric_names() {
    let mut env = Environment::new();
    env.set("\u{e9}t\u{e9}", "summer");
    let mut ctx = Context::new();
    assert_eq!(
        parse_line("S=$\u{e9}t\u{e9}!", &env, &mut ctx).unwrap(),
        Some(("S".to_string(), "summer!".to_string()))
    );
}

#[test]
fn parse_line_error_message() {
    let err = Error::LineParse("abc".to_string(), 3);
    assert_eq!(err.message(), "Failed to parse 'abc' at line 3");
    assert!(!err.is_not_found());
}

#[test]
fn quote_state_follows_quotes() {
    assert_eq!(QuoteState::Close.next_state("A=\"abc"), QuoteState::WeakOpen);
    assert_eq!(QuoteState::Close.next_state("A='a\\'"), QuoteState::StrongOpen);
    assert_eq!(QuoteState::WeakOpen.next_state("x\"\n"), QuoteState::Close);
    assert_eq!(QuoteState::Close.next_state("a\\"), QuoteState::Escape);
    assert_eq!(QuoteState::Escape.next_state("\n"), QuoteState::Close);
}

#[test]
fn quote_state_reads_pieces_in_turn() {
    let whole = QuoteState::Close.next_state("A=\"x\\\"y\nB='z");
    let pieces = QuoteState::Close.next_state("A=\"x\\").next_state("\"y\nB='z");
    assert_eq!(whole, pieces);
    assert_eq!(whole, QuoteState::WeakOpen);
}

#[test]
fn line_errors_other_variants() {
    let err = Error::Io(IoError::new(IoErrorKind::NotFound, "missing".to_string()));
    assert!(err.is_not_found());
    assert_eq!(err.message(), "missing");
    let err = Error::EnvVar(VarError::NotPresent);
    assert!(!err.is_not_found());
    assert_eq!(err.message(), "environment variable not found");
}

#[test]
fn vars_latest_assignment_wins() {
    let mut env = Environment::new();
    env.set("A", "1");
    env.set("B", "x");
    env.set("A", "2");
    assert_eq!(env.get("A"), Some("2".to_string()));
    assert_eq!(env.get("B"), Some("x".to_string()));
    assert_eq!(env.get("C"), None);
    assert_eq!(env.len(), 3);
    assert_eq!(env.entry(0), ("A".to_string(), "1".to_string()));
}
