use msh::ast::NameValuePair;
use msh::environment::Environment;
use msh::expand::ExpandError;
use msh::word::{Quote, Word};

fn unquoted(s: &str) -> Word {
    Word::unquoted(s.as_bytes().to_vec())
}

fn env_with(vars: &[(&str, &str)]) -> Environment {
    let mut env = Environment::new();
    for (name, value) in vars {
        env.set_exported_value(name.as_bytes().to_vec(), value.as_bytes().to_vec());
    }
    env
}

#[test]
fn tilde_expansion() {
    let env = env_with(&[("HOME", "/home/tester")]);
    assert_eq!(unquoted("~").expand(&env).unwrap(), b"/home/tester".to_vec());
    assert_eq!(
        unquoted("~/Desktop").expand(&env).unwrap(),
        b"/home/tester/Desktop".to_vec(),
    );

    for quote in [Quote::Single, Quote::Double] {
        assert_eq!(
            Word::new(b"~".to_vec(), Some(quote)).expand(&env).unwrap(),
            b"~".to_vec(),
        );
    }
}

#[test]
fn tilde_expansion_user() {
    // The root user's home directory comes from the password database.
    let env = env_with(&[("HOME", "/home/tester")]);
    let expanded = unquoted("~root").expand(&env).unwrap();
    assert_eq!(expanded, b"/root".to_vec());
    let expanded = unquoted("~root/Downloads").expand(&env).unwrap();
    assert_eq!(expanded, b"/root/Downloads".to_vec());
}

#[test]
fn tilde_unknown_user_left_alone() {
    let env = env_with(&[("HOME", "/home/tester")]);
    assert_eq!(
        unquoted("~nosuchuserzzz").expand(&env).unwrap(),
        b"~nosuchuserzzz".to_vec(),
    );
    assert_eq!(
        unquoted("~nosuchuserzzz/docs").expand(&env).unwrap(),
        b"~nosuchuserzzz/docs".to_vec(),
    );
}

#[test]
fn env_var_expansion() {
    let vars = [("FOO", "bar"), ("ONE", "1"), ("HOST", "www.example.com")];
    let mut with_home = vec![("HOME", "/home/tester")];
    with_home.extend_from_slice(&vars);
    let env = env_with(&with_home);

    for (name, value) in &vars {
        for input in [format!("${name}"), format!("${{{name}}}")] {
            for quote in [None, Some(Quote::Single), Some(Quote::Double)] {
                let word = Word::new(input.as_bytes().to_vec(), quote);
                let expanded = word.expand(&env).unwrap();
                match quote {
                    None | Some(Quote::Double) => {
                        assert_eq!(expanded, value.as_bytes().to_vec())
                    }
                    Some(Quote::Single) => assert_eq!(expanded, input.as_bytes().to_vec()),
                }
            }
        }
    }
}

#[test]
fn name_value_pairs() {
    let word = unquoted("FOO=bar");
    assert_eq!(
        word.parse_name_value_pair(),
        Some(NameValuePair::new(unquoted("FOO"), unquoted("bar"))),
    );

    for quote in [Quote::Single, Quote::Double] {
        let q = match quote {
            Quote::Single => "'",
            Quote::Double => "\"",
        };
        let word = unquoted(&format!("FOO={q}bar{q}"));
        assert_eq!(
            word.parse_name_value_pair(),
            Some(NameValuePair::new(
                unquoted("FOO"),
                Word::new(b"bar".to_vec(), Some(quote)),
            )),
        );
    }
}

#[test]
fn name_value_pair_edges() {
    assert_eq!(
        unquoted("NAME=").parse_name_value_pair(),
        Some(NameValuePair::new(unquoted("NAME"), unquoted(""))),
    );
    assert_eq!(unquoted("=x").parse_name_value_pair(), None);
    assert_eq!(unquoted("noequals").parse_name_value_pair(), None);
    assert_eq!(unquoted("1BAD=x").parse_name_value_pair(), None);
    assert_eq!(
        Word::new(b"A=b".to_vec(), Some(Quote::Double)).parse_name_value_pair(),
        None,
    );
}

#[test]
fn double_quote_without_dollar_is_identity() {
    let env = env_with(&[("HOME", "/h")]);
    let content = b"plain text, no references: ~ { } 123".to_vec();
    let word = Word::new(content.clone(), Some(Quote::Double));
    assert_eq!(word.expand(&env).unwrap(), content);
}

#[test]
fn expansion_is_complete() {
    let env = env_with(&[("HOME", "/h"), ("A", "one"), ("B", "two")]);
    let expanded = unquoted("$A/$B/literal").expand(&env).unwrap();
    assert_eq!(expanded, b"one/two/literal".to_vec());
    // No `$` that could begin a reference survives expansion.
    for (i, b) in expanded.iter().enumerate() {
        assert!(*b != b'$' || i == expanded.len() - 1);
    }
    // A trailing `$` is literal.
    assert_eq!(unquoted("x$").expand(&env).unwrap(), b"x$".to_vec());
}

#[test]
fn unset_variable_expands_to_nothing() {
    let env = env_with(&[("HOME", "/h")]);
    assert_eq!(unquoted("a${UNSET}b").expand(&env).unwrap(), b"ab".to_vec());
}

#[test]
fn expansion_errors() {
    let env = env_with(&[("HOME", "/h")]);
    assert_eq!(
        unquoted("${OOPS").expand(&env),
        Err(ExpandError::MissingClosingBrace(b"OOPS".to_vec())),
    );
    assert_eq!(
        unquoted("$%").expand(&env),
        Err(ExpandError::InvalidName(Vec::new())),
    );
    assert_eq!(
        unquoted("${1BAD}").expand(&env),
        Err(ExpandError::InvalidName(b"1BAD".to_vec())),
    );
}
