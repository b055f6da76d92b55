use msh::lexer::{lex_all, Kind, Lexer, Token};
use msh::word::{Quote, Word};
use msh::redirect::{Redirect, WriteMode};

fn kinds(src: &[u8]) -> Vec<Kind> {
    lex_all(src)
        .unwrap()
        .into_iter()
        .map(|t| t.kind)
        .collect()
}

fn unquoted(s: &str) -> Word {
    Word::unquoted(s.as_bytes().to_vec())
}

#[test]
fn command() {
    let tokens = kinds(b"cat /etc/hosts /etc/passwd");
    assert_eq!(
        tokens,
        vec![
            Kind::Word(unquoted("cat")),
            Kind::Word(unquoted("/etc/hosts")),
            Kind::Word(unquoted("/etc/passwd")),
            Kind::Semi,
        ],
    );
}

#[test]
fn lexer_empty() {
    let tokens = kinds(b"\n");
    assert_eq!(tokens, Vec::new());
}

#[test]
fn double_quotes() {
    let tokens = kinds(br#"echo "I'm quoted""#);
    assert_eq!(
        tokens,
        vec![
            Kind::Word(unquoted("echo")),
            Kind::Word(Word::new(b"I'm quoted".to_vec(), Some(Quote::Double))),
            Kind::Semi,
        ]
    );
}

#[test]
fn double_quotes_unclosed() {
    let mut lexer = Lexer::new(br#"echo "Missing closing quote"#);
    assert_eq!(
        lexer.next().unwrap().unwrap().kind,
        Kind::Word(unquoted("echo"))
    );
    assert!(lexer.next().unwrap().is_err());
}

#[test]
fn lexer_if_stmt() {
    let tokens = kinds(b"if true { echo truthy }\n");
    assert_eq!(
        tokens,
        vec![
            Kind::Word(unquoted("if")),
            Kind::Word(unquoted("true")),
            Kind::LeftBrace,
            Kind::Word(unquoted("echo")),
            Kind::Word(unquoted("truthy")),
            Kind::Semi,
            Kind::RightBrace,
            Kind::Semi,
        ],
    );
}

#[test]
fn empty_body() {
    let tokens = kinds(b"if false { }\n");
    assert_eq!(
        tokens,
        vec![
            Kind::Word(unquoted("if")),
            Kind::Word(unquoted("false")),
            Kind::LeftBrace,
            Kind::RightBrace,
            Kind::Semi,
        ],
    );
}

#[test]
fn lexer_multiline_nested_if_else_stmt() {
    let src = br#"if /bin/a {
  echo a
} else if /bin/b {
  echo b
  echo 2
  if true {
    exit
  }
} else {
  echo c
}
"#;
    let tokens: Vec<Token> = lex_all(src).unwrap();
    assert_eq!(
        tokens,
        vec![
            Token::new(Kind::Word(unquoted("if")), 1),
            Token::new(Kind::Word(unquoted("/bin/a")), 1),
            Token::new(Kind::LeftBrace, 1),
            Token::new(Kind::Word(unquoted("echo")), 2),
            Token::new(Kind::Word(unquoted("a")), 2),
            Token::new(Kind::Semi, 2),
            Token::new(Kind::RightBrace, 3),
            Token::new(Kind::Word(unquoted("else")), 3),
            Token::new(Kind::Word(unquoted("if")), 3),
            Token::new(Kind::Word(unquoted("/bin/b")), 3),
            Token::new(Kind::LeftBrace, 3),
            Token::new(Kind::Word(unquoted("echo")), 4),
            Token::new(Kind::Word(unquoted("b")), 4),
            Token::new(Kind::Semi, 4),
            Token::new(Kind::Word(unquoted("echo")), 5),
            Token::new(Kind::Word(unquoted("2")), 5),
            Token::new(Kind::Semi, 5),
            Token::new(Kind::Word(unquoted("if")), 6),
            Token::new(Kind::Word(unquoted("true")), 6),
            Token::new(Kind::LeftBrace, 6),
            Token::new(Kind::Word(unquoted("exit")), 7),
            Token::new(Kind::Semi, 7),
            Token::new(Kind::RightBrace, 8),
            Token::new(Kind::Semi, 8),
            Token::new(Kind::RightBrace, 9),
            Token::new(Kind::Word(unquoted("else")), 9),
            Token::new(Kind::LeftBrace, 9),
            Token::new(Kind::Word(unquoted("echo")), 10),
            Token::new(Kind::Word(unquoted("c")), 10),
            Token::new(Kind::Semi, 10),
            Token::new(Kind::RightBrace, 11),
            Token::new(Kind::Semi, 11),
        ],
    );
}

#[test]
fn lexer_pipeline() {
    let tokens = kinds(b"echo foo | cat\n");
    assert_eq!(
        tokens,
        vec![
            Kind::Word(unquoted("echo")),
            Kind::Word(unquoted("foo")),
            Kind::Pipe,
            Kind::Word(unquoted("cat")),
            Kind::Semi,
        ],
    );
}

#[test]
fn leading_blank_lines_emit_no_tokens() {
    assert_eq!(kinds(b"\n\n\n"), Vec::new());
    assert_eq!(
        kinds(b"\n\n\necho\n"),
        vec![Kind::Word(unquoted("echo")), Kind::Semi],
    );
}

#[test]
fn lone_semicolon_emits_no_tokens() {
    assert_eq!(kinds(b";"), Vec::new());
    assert_eq!(kinds(b";;;\n;"), Vec::new());
}

#[test]
fn stream_ends_in_semi_iff_nonempty() {
    assert_eq!(*kinds(b"a").last().unwrap(), Kind::Semi);
    assert_eq!(*kinds(b"a;b\n\nc").last().unwrap(), Kind::Semi);
    assert_eq!(kinds(b" \t \n ; "), Vec::new());
}

#[test]
fn braces_with_blank_lines_between() {
    // A space on the blank line makes the separator an explicit Semi.
    assert_eq!(
        kinds(b"{\n \n}"),
        vec![Kind::LeftBrace, Kind::Semi, Kind::RightBrace, Kind::Semi],
    );
    // Pure terminators after `{` are absorbed by the brace itself.
    assert_eq!(
        kinds(b"{\n\n}"),
        vec![Kind::LeftBrace, Kind::RightBrace, Kind::Semi],
    );
}

#[test]
fn redirect_tokens() {
    assert_eq!(
        kinds(b"sort <in.txt >out.txt 2>>err.txt >&2 2>&1\n"),
        vec![
            Kind::Word(unquoted("sort")),
            Kind::Redirect(Redirect::InFile(unquoted("in.txt"))),
            Kind::Redirect(Redirect::OutFile(unquoted("out.txt"), WriteMode::Truncate)),
            Kind::Redirect(Redirect::ErrFile(unquoted("err.txt"), WriteMode::Append)),
            Kind::Redirect(Redirect::OutErr),
            Kind::Redirect(Redirect::ErrOut),
            Kind::Semi,
        ],
    );
}

#[test]
fn explicit_stream_selectors() {
    assert_eq!(
        kinds(b"x 0<in 1>out 2>err\n"),
        vec![
            Kind::Word(unquoted("x")),
            Kind::Redirect(Redirect::InFile(unquoted("in"))),
            Kind::Redirect(Redirect::OutFile(unquoted("out"), WriteMode::Truncate)),
            Kind::Redirect(Redirect::ErrFile(unquoted("err"), WriteMode::Truncate)),
            Kind::Semi,
        ],
    );
    // Digits not followed by their operator stay ordinary words.
    assert_eq!(
        kinds(b"12 0x 2\n"),
        vec![
            Kind::Word(unquoted("12")),
            Kind::Word(unquoted("0x")),
            Kind::Word(unquoted("2")),
            Kind::Semi,
        ],
    );
}

#[test]
fn special_bytes_inside_words_are_literal() {
    // `>` and `{` only begin tokens; inside a word they are plain bytes.
    assert_eq!(
        kinds(b"a>out\n"),
        vec![Kind::Word(unquoted("a>out")), Kind::Semi],
    );
    assert_eq!(
        kinds(b"x{y}\n"),
        vec![Kind::Word(unquoted("x{y}")), Kind::Semi],
    );
    assert_eq!(
        kinds(b"a|b\n"),
        vec![Kind::Word(unquoted("a|b")), Kind::Semi],
    );
}

#[test]
fn quoted_redirect_location() {
    assert_eq!(
        kinds(b"x >'out file'\n"),
        vec![
            Kind::Word(unquoted("x")),
            Kind::Redirect(Redirect::OutFile(
                Word::new(b"out file".to_vec(), Some(Quote::Single)),
                WriteMode::Truncate,
            )),
            Kind::Semi,
        ],
    );
    assert!(lex_all(b"x >'unterminated\n").is_err());
}

#[test]
fn redirect_errors() {
    assert!(lex_all(b"cat <&1\n").is_err());
    assert!(lex_all(b"cat >&1\n").is_err());
    assert!(lex_all(b"cat 2>&2\n").is_err());
    assert!(lex_all(b"cat >>&2\n").is_err());
    assert!(lex_all(b"cat >\n").is_err());
}
