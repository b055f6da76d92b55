use msh::ast::{IfStmt, NameValuePair, Stmt};
use msh::command::Command;
use msh::parser::parse;
use msh::word::Word;
use msh::ast::Exportable;
use msh::redirect::{Redirect, WriteMode};

fn unquoted(s: &str) -> Word {
    Word::unquoted(s.as_bytes().to_vec())
}

fn cmd(name: &str, args: &[&str]) -> Command {
    Command::new(
        unquoted(name),
        args.iter().map(|a| unquoted(a)).collect(),
    )
}

#[test]
fn simple() {
    assert_eq!(
        parse(b"ls\n").unwrap(),
        vec![Stmt::Command(Command::from_name(unquoted("ls")))],
    );
}

#[test]
fn parser_empty() {
    assert_eq!(parse(b"\n").unwrap(), Vec::new());
}

#[test]
fn arguments() {
    assert_eq!(
        parse(b"cat /etc/hosts /etc/passwd\n").unwrap(),
        vec![Stmt::Command(cmd("cat", &["/etc/hosts", "/etc/passwd"]))],
    );
}

#[test]
fn ignores_consecutive_spaces() {
    assert_eq!(
        parse(b"/bin/echo 1  2   3\n").unwrap(),
        vec![Stmt::Command(cmd("/bin/echo", &["1", "2", "3"]))],
    );
}

#[test]
fn ignores_leading_and_trailing_spaces() {
    assert_eq!(
        parse(b"  cat   \n").unwrap(),
        vec![Stmt::Command(Command::from_name(unquoted("cat")))],
    );
}

#[test]
fn semicolon_and_lf_ends_stmt() {
    assert_eq!(
        parse(b"echo 1; echo 2\necho 3\n").unwrap(),
        vec![
            Stmt::Command(cmd("echo", &["1"])),
            Stmt::Command(cmd("echo", &["2"])),
            Stmt::Command(cmd("echo", &["3"])),
        ],
    );
}

#[test]
fn assignment() {
    assert_eq!(
        parse(b"FOO=bar one=ONE").unwrap(),
        vec![Stmt::Assignment(vec![
            NameValuePair::new(unquoted("FOO"), unquoted("bar")),
            NameValuePair::new(unquoted("one"), unquoted("ONE")),
        ])],
    );
}

#[test]
fn command_with_assignment() {
    let mut command = cmd("./server", &["--http"]);
    command.set_env(vec![NameValuePair::new(unquoted("PORT"), unquoted("8000"))]);
    assert_eq!(
        parse(b"PORT=8000 ./server --http").unwrap(),
        vec![Stmt::Command(command)]
    );
}

#[test]
fn parser_if_stmt() {
    assert_eq!(
        parse(b"if true { echo truthy }\n").unwrap(),
        vec![Stmt::If(IfStmt::new(
            Command::from_name(unquoted("true")),
            vec![Stmt::Command(cmd("echo", &["truthy"]))],
            None,
        ))],
    );
}

#[test]
fn parser_multiline_nested_if_else_stmt() {
    let src = br#"
if /bin/a {
  echo a
} else if /bin/b {
  echo b
  echo 2
  if true {
    exit
  }
} else {
  echo c
}
"#;
    assert_eq!(
        parse(src).unwrap(),
        vec![Stmt::If(IfStmt::new(
            Command::from_name(unquoted("/bin/a")),
            vec![Stmt::Command(cmd("echo", &["a"]))],
            Some(vec![Stmt::If(IfStmt::new(
                Command::from_name(unquoted("/bin/b")),
                vec![
                    Stmt::Command(cmd("echo", &["b"])),
                    Stmt::Command(cmd("echo", &["2"])),
                    Stmt::If(IfStmt::new(
                        Command::from_name(unquoted("true")),
                        vec![Stmt::Command(Command::from_name(unquoted("exit")))],
                        None,
                    )),
                ],
                Some(vec![Stmt::Command(cmd("echo", &["c"]))]),
            ))]),
        ))],
    );
}

#[test]
fn parser_pipeline() {
    let mut command = cmd("echo", &["Hello", "world"]);
    command.set_pipeline(cmd("rg", &["world"]));
    assert_eq!(
        parse(b"echo Hello world | rg world\n").unwrap(),
        vec![Stmt::Command(command)],
    );
}

#[test]
fn empty_value_is_valid_assignment() {
    assert_eq!(
        parse(b"NAME=\n").unwrap(),
        vec![Stmt::Assignment(vec![NameValuePair::new(
            unquoted("NAME"),
            unquoted(""),
        )])],
    );
}

#[test]
fn export_statement() {
    assert_eq!(
        parse(b"export FOO=bar BAZ\n").unwrap(),
        vec![Stmt::Export(vec![
            Exportable::new(unquoted("FOO"), Some(unquoted("bar"))),
            Exportable::new(unquoted("BAZ"), None),
        ])],
    );
    assert!(parse(b"export\n").is_err());
    assert!(parse(b"export 1BAD\n").is_err());
}

#[test]
fn redirects_interleave_with_arguments() {
    let mut command = cmd("sort", &["b"]);
    command.add_redirect(Redirect::InFile(unquoted("a")));
    command.add_redirect(Redirect::OutFile(unquoted("c"), WriteMode::Truncate));
    assert_eq!(
        parse(b"sort <a b >c\n").unwrap(),
        vec![Stmt::Command(command)],
    );
}

#[test]
fn parse_errors() {
    assert!(parse(b"if true { echo a\n").is_err());
    assert!(parse(b"| cat\n").is_err());
    assert!(parse(b"echo |\n").is_err());
}
