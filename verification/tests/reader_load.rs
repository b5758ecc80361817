use dotenv::error::Error;
use dotenv::iter::Iter;
use dotenv::reader::Dotenv;
use dotenv::vars::Environment;

#[test]
fn test_expand() {
    let mut env = Environment::new();
    env.set("KEY", "value");
    env.set("KEY1", "value1");

    let expr_list = [
        "$ZZZ", "$KEY", "$KEY1", "${KEY}1", "$KEY_U", "${KEY_U}", "\\$KEY",
    ];

    let expected_list = [
        "",
        "value",
        "value1",
        "value1",
        "value_U",
        "value+UUID",
        "$KEY",
    ];

    let expr = expr_list.join(">>");
    let expected = expected_list.join(">>");

    let contents = format!(
        r#"
KEY1=new_value1
KEY_U=$KEY+UUID

WITHOUT_QUOTES={}
WEAK_QUOTED="{}"
STRONG_QUOTED='{}'
"#,
        expr, expr, expr
    );

    Dotenv::new(contents).load(&mut env).unwrap();
    assert_eq!(env.get("KEY").unwrap(), "value");
    assert_eq!(env.get("KEY1").unwrap(), "value1");
    assert_eq!(env.get("KEY_U").unwrap(), "value+UUID");
    assert_eq!(env.get("WITHOUT_QUOTES").unwrap(), expected);
    assert_eq!(env.get("WEAK_QUOTED").unwrap(), expected);
    assert_eq!(env.get("STRONG_QUOTED").unwrap(), expr);
}

#[test]
fn reader_load_stops_at_first_failure() {
    let mut env = Environment::new();
    let res = Dotenv::new("A=1\nB=\"open\nC=3".to_string()).load(&mut env);
    match res {
        Err(Error::LineParse(text, n)) => {
            assert_eq!(text, "B=\"open\nC=3");
            assert_eq!(n, 11);
        }
        _ => panic!("expected a parse failure"),
    }
    assert_eq!(env.get("A"), Some("1".to_string()));
    assert_eq!(env.get("C"), None);
}

#[test]
fn iter_load_sets_only_missing_variables() {
    let mut env = Environment::new();
    env.set("TEST_KEY", "old");
    Iter::new("TEST_KEY=test_val\nOTHER=x\n".to_string()).load(&mut env).unwrap();
    assert_eq!(env.get("TEST_KEY").unwrap(), "old");
    assert_eq!(env.get("OTHER").unwrap(), "x");
}

#[test]
fn iter_yields_entries_and_failures() {
    let env = Environment::new();
    let mut iter = Iter::new("A=1\nbad line\nB=2\n".to_string());
    assert_eq!(iter.next(&env).unwrap().unwrap(), ("A".to_string(), "1".to_string()));
    assert!(iter.next(&env).unwrap().is_err());
    assert_eq!(iter.next(&env).unwrap().unwrap(), ("B".to_string(), "2".to_string()));
    assert!(iter.next(&env).is_none());
}

#[test]
fn reader_joins_lines_inside_quotes() {
    let env = Environment::new();
    let mut reader = Dotenv::new("A=\"one\ntwo\"\r\nB='x'\n".to_string());
    assert_eq!(
        reader.next(&env).unwrap().unwrap(),
        ("A".to_string(), "one\ntwo".to_string())
    );
    assert_eq!(reader.next(&env).unwrap().unwrap(), ("B".to_string(), "x".to_string()));
    assert!(reader.next(&env).is_none());
}
