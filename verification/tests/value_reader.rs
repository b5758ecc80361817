use dotenv::iter::Iter;
use dotenv::line::{parse_line, StepOutcome, SubstitutionMode, ValueReader};
use dotenv::quoted::QuoteState;
use dotenv::reader;
use dotenv::vars::{Context, Environment};

fn read(reader: &mut ValueReader, text: &str, env: &Environment, ctx: &Context) -> Vec<StepOutcome> {
    text.chars()
        .map(|c| reader.step(c, c.is_alphanumeric(), env, ctx))
        .collect()
}

#[test]
fn value_reader_substitutes_ascii_names() {
    let mut env = Environment::new();
    env.set("AB1", "x");
    let ctx = Context::new();
    let mut r = ValueReader::new();
    let steps = read(&mut r, "v$AB1-", &env, &ctx);
    assert!(steps.iter().all(|s| *s == StepOutcome::Continue));
    assert_eq!(r.output.iter().collect::<String>(), "vx-");
    assert!(r.mode == SubstitutionMode::Idle);
    assert!(r.name.is_empty());
}

#[test]
fn value_reader_name_ends_where_the_flag_says() {
    let mut env = Environment::new();
    env.set("A", "1");
    env.set("AB", "2");
    let ctx = Context::new();
    let mut r = ValueReader::new();
    assert!(r.step('$', false, &env, &ctx) == StepOutcome::Continue);
    assert!(r.step('A', true, &env, &ctx) == StepOutcome::Continue);
    // `B` is taken as the end of the name here: `$A` is substituted and `B` kept.
    assert!(r.step('B', false, &env, &ctx) == StepOutcome::Continue);
    assert_eq!(r.output.iter().collect::<String>(), "1B");

    let mut r = ValueReader::new();
    assert!(r.step('$', false, &env, &ctx) == StepOutcome::Continue);
    assert!(r.step('A', true, &env, &ctx) == StepOutcome::Continue);
    assert!(r.step('B', true, &env, &ctx) == StepOutcome::Continue);
    assert_eq!(r.name.iter().collect::<String>(), "AB");
    assert!(r.output.is_empty());
}

#[test]
fn value_reader_stops_at_an_inline_comment_and_fails_on_text_after_a_blank() {
    let env = Environment::new();
    let ctx = Context::new();
    let mut r = ValueReader::new();
    assert_eq!(
        read(&mut r, "ab #", &env, &ctx),
        vec![StepOutcome::Continue, StepOutcome::Continue, StepOutcome::Continue, StepOutcome::Stop]
    );
    assert_eq!(r.output.iter().collect::<String>(), "ab");
    assert!(r.expecting_end);

    let mut r = ValueReader::new();
    assert_eq!(
        read(&mut r, "a b", &env, &ctx),
        vec![StepOutcome::Continue, StepOutcome::Continue, StepOutcome::Fail]
    );
    assert_eq!(r.output.iter().collect::<String>(), "a");
}

#[test]
fn value_reader_escapes_and_quotes() {
    let env = Environment::new();
    let ctx = Context::new();
    let mut r = ValueReader::new();
    let steps = read(&mut r, "\"a\\n\\\"b\"'$c'", &env, &ctx);
    assert!(steps.iter().all(|s| *s == StepOutcome::Continue));
    assert_eq!(r.output.iter().collect::<String>(), "a\n\"b$c");
    assert!(!r.weak_quote && !r.strong_quote && !r.escaped);

    let mut r = ValueReader::new();
    assert_eq!(read(&mut r, "\\x", &env, &ctx), vec![StepOutcome::Continue, StepOutcome::Fail]);
    assert!(r.escaped);
}

#[test]
fn reader_load_first_entry_wins() {
    let mut env = Environment::new();
    env.set("KEEP", "old");
    reader::Dotenv::new("A=1\nKEEP=new\nA=2\nB=$A\n".to_string()).load(&mut env).unwrap();
    assert_eq!(env.get("A"), Some("1".to_string()));
    assert_eq!(env.get("KEEP"), Some("old".to_string()));
    assert_eq!(env.get("B"), Some("1".to_string()));
    assert_eq!(env.get("C"), None);
    assert_eq!(env.len(), 3);
}

#[test]
fn iter_load_first_entry_wins_before_a_failure() {
    let mut env = Environment::new();
    assert!(Iter::new("A=1\nA=2\nB=\\x\nC=3\n".to_string()).load(&mut env).is_err());
    assert_eq!(env.get("A"), Some("1".to_string()));
    assert_eq!(env.get("B"), None);
    assert_eq!(env.get("C"), None);
    assert_eq!(env.len(), 1);
}

#[test]
fn quote_states_open_and_close() {
    assert_eq!(QuoteState::Close.next_state("plain text"), QuoteState::Close);
    assert_eq!(QuoteState::Close.next_state("\"abc"), QuoteState::WeakOpen);
    assert_eq!(QuoteState::Close.next_state("\"abc\""), QuoteState::Close);
    assert_eq!(QuoteState::Close.next_state("'abc"), QuoteState::StrongOpen);
    assert_eq!(QuoteState::Close.next_state("'abc'"), QuoteState::Close);
}

#[test]
fn line_parser_skips_exactly_blank_and_comment_lines() {
    let env = Environment::new();
    let mut ctx = Context::new();
    assert_eq!(parse_line("", &env, &mut ctx).unwrap(), None);
    assert_eq!(parse_line(" \t ", &env, &mut ctx).unwrap(), None);
    assert_eq!(parse_line("\t# A=1", &env, &mut ctx).unwrap(), None);
    assert_eq!(
        parse_line("A=1 # note", &env, &mut ctx).unwrap(),
        Some(("A".to_string(), "1".to_string()))
    );
    assert!(parse_line("x # note", &env, &mut ctx).is_err());
}
