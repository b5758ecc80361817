use dotenv::{Dotenv, Environment};

fn entries(content: &str, env: &Environment) -> Vec<(String, String)> {
    let dotenv = Dotenv::new(content.to_string());
    let mut iter = dotenv.iter(env);
    let mut out = Vec::new();
    while let Some((key, value)) = iter.next() {
        out.push((key.to_string(), value));
    }
    out
}

fn pairs(list: &[(&str, &str)]) -> Vec<(String, String)> {
    list.iter().map(|(k, v)| (k.to_string(), v.to_string())).collect()
}

#[test]
fn iter_reads_entries_in_order() {
    let env = Environment::new();
    assert_eq!(entries("FOO=bar\nBAZ=qux\n", &env), pairs(&[("FOO", "bar"), ("BAZ", "qux")]));
}

#[test]
fn iter_substitutes_variables() {
    let env = Environment::new();
    assert_eq!(
        entries("A=hello\nB=$A\nC=${A}\nD=${MISSING:-default}\nE=${MISSING:-$A}x\n", &env),
        pairs(&[("A", "hello"), ("B", "hello"), ("C", "hello"), ("D", "default"), ("E", "hellox")])
    );
}

#[test]
fn iter_nested_fallbacks() {
    let env = Environment::new();
    assert_eq!(
        entries("A=a\nB=${X:-${Y:-$A}-z}\n", &env),
        pairs(&[("A", "a"), ("B", "a-z")])
    );
}

#[test]
fn iter_quote_styles() {
    let env = Environment::new();
    assert_eq!(
        entries("A=x\nS='a $A \\n'\nD=\"a\\nb $A\"\nT=`x $A`\n", &env),
        pairs(&[("A", "x"), ("S", "a $A \\n"), ("D", "a\nb x"), ("T", "x $A")])
    );
}

#[test]
fn iter_multi_line_values() {
    let env = Environment::new();
    assert_eq!(
        entries("K=\"line1\nline2\"\nS='a\nb'\nN=1\n", &env),
        pairs(&[("K", "line1\nline2"), ("S", "a\nb"), ("N", "1")])
    );
}

#[test]
fn iter_export_prefix() {
    let env = Environment::new();
    assert_eq!(
        entries("export FOO=1\nexport=2\nexport\tBAR = 3\n", &env),
        pairs(&[("FOO", "1"), ("export", "2"), ("BAR", "3")])
    );
}

#[test]
fn iter_comments() {
    let env = Environment::new();
    assert_eq!(
        entries("# comment\n\n  # indented\nA=1 # inline\nB=\"x\" # after quotes\nC=#\n", &env),
        pairs(&[("A", "1"), ("B", "x"), ("C", "")])
    );
}

#[test]
fn iter_unquoted_escapes() {
    let env = Environment::new();
    assert_eq!(
        entries("A=a\\nb\nB=a\\$b\nC=a\\\\b\n", &env),
        pairs(&[("A", "a\\nb"), ("B", "a$b"), ("C", "a\\b")])
    );
}

#[test]
fn iter_double_quoted_escapes() {
    let env = Environment::new();
    assert_eq!(
        entries("A=\"x\\ry\"\nB=\"\\$HOME\"\nC=\"a\\\\b\"\n", &env),
        pairs(&[("A", "x\ry"), ("B", "$HOME"), ("C", "a\\b")])
    );
}

#[test]
fn iter_drops_content_after_unknown_escape() {
    let env = Environment::new();
    assert_eq!(
        entries("A=\"abc\\xdef\"\nB=a$ b\nC=a\\rb\n", &env),
        pairs(&[("A", "abc"), ("B", "a"), ("C", "a")])
    );
}

#[test]
fn iter_environment_first() {
    let mut env = Environment::new();
    env.set("A", "env");
    assert_eq!(
        entries("A=file\nB=$A\n", &env),
        pairs(&[("A", "file"), ("B", "env")])
    );
}

#[test]
fn iter_empty_value_counts_as_unset() {
    let mut env = Environment::new();
    env.set("A", "");
    assert_eq!(
        entries("A=file\nB=${A:-fb}\nC=$A.\n", &env),
        pairs(&[("A", "file"), ("B", "fb"), ("C", ".")])
    );
}

#[test]
fn iter_stops_at_unclosed_quote() {
    let env = Environment::new();
    let dotenv = Dotenv::new("A=1\nB='open\nC=3\n".to_string());
    let mut iter = dotenv.iter(&env);
    assert_eq!(iter.next(), Some(("A", "1".to_string())));
    assert_eq!(iter.next(), None);
    assert_eq!(iter.next(), None);
}

#[test]
fn iter_goes_on_where_a_failure_left_the_input() {
    let env = Environment::new();
    let dotenv = Dotenv::new("KEY X=1\n".to_string());
    let mut iter = dotenv.iter(&env);
    assert_eq!(iter.next(), None);
    assert_eq!(iter.next(), Some(("X", "1".to_string())));
    assert_eq!(iter.next(), None);
}

#[test]
fn iter_rejects_key_starting_with_digit() {
    let env = Environment::new();
    assert_eq!(entries("1A=x\nB=y\n", &env), pairs(&[]));
}

#[test]
fn iter_normalizes_line_endings_and_bom() {
    let env = Environment::new();
    assert_eq!(
        entries("\u{feff}A=1\r\nB=2\rC=3", &env),
        pairs(&[("A", "1"), ("B", "2"), ("C", "3")])
    );
}

#[test]
fn iter_carriage_return_line_feed_after_comment() {
    let env = Environment::new();
    assert_eq!(entries("# a\r\nA=1\n", &env), pairs(&[("A", "1")]));
}

#[test]
fn iter_trims_unquoted_values() {
    let env = Environment::new();
    assert_eq!(
        entries("A =   spaced value   \nB=\u{3000}wide\u{3000}\n", &env),
        pairs(&[("A", "spaced value"), ("B", "wide")])
    );
}

#[test]
fn load_keeps_existing_variables() {
    let mut env = Environment::new();
    env.set("A", "keep");
    Dotenv::new("A=new\nB=$A\nC=3\n".to_string()).load(&mut env);
    assert_eq!(env.get("A"), Some("keep".to_string()));
    assert_eq!(env.get("B"), Some("keep".to_string()));
    assert_eq!(env.get("C"), Some("3".to_string()));
}

#[test]
fn load_override_replaces_existing_variables() {
    let mut env = Environment::new();
    env.set("A", "keep");
    Dotenv::new("A=new\nB=$A\n".to_string()).load_override(&mut env);
    assert_eq!(env.get("A"), Some("new".to_string()));
    assert_eq!(env.get("B"), Some("new".to_string()));
}

#[test]
fn load_sees_variables_set_before() {
    let mut env = Environment::new();
    Dotenv::new("A=1\nA=2\nB=$A\n".to_string()).load(&mut env);
    assert_eq!(env.get("A"), Some("1".to_string()));
    assert_eq!(env.get("B"), Some("1".to_string()));
    assert_eq!(env.len(), 2);
}

const BAD_ENV: &str = r#"
A=foo bar
B="notenough
C='toomany''
D=valid
export NOT_SET
E=valid
"#;

#[test]
fn test_bad_env() {
    let env = Environment::new();
    let dotenv = Dotenv::new(BAD_ENV.to_string());

    let mut all = Vec::new();
    let mut iter = dotenv.iter(&env);
    while let Some(item) = iter.next() {
        all.push(item);
    }
    assert_eq!(
        vec![
            ("A", "foo bar".into()),
            ("B", "\"notenough".into()),
            ("C", "toomany".into())
        ],
        all
    );

    let mut iter = dotenv.iter(&env);
    assert_eq!(Some(("A", "foo bar".into())), iter.next());
    assert_eq!(Some(("B", "\"notenough".into())), iter.next());
    assert_eq!(Some(("C", "toomany".into())), iter.next());

    // The stray quote after `C` does not parse; the iterator stays there.
    assert_eq!(None, iter.next());
    assert_eq!(None, iter.next());
}

#[test]
fn iter_unclosed_double_quote_is_unquoted_text() {
    let mut env = Environment::new();
    env.set("X", "x");
    assert_eq!(
        entries("A=\"a $X # note\nB=2\n", &env),
        pairs(&[("A", "\"a x"), ("B", "2")])
    );
}
