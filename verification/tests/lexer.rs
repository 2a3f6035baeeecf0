use unix_shell::lex::{lex, Token};

fn word(s: &str) -> Token {
    Token::Str(String::from(s))
}

#[test]
fn words_and_operators() {
    let toks = lex(&String::from("ls -l | cat > b < a & x")).unwrap();
    assert_eq!(
        toks,
        vec![
            word("ls"),
            word("-l"),
            Token::Pipe,
            word("cat"),
            Token::RightRedirect,
            word("b"),
            Token::LeftRedirect,
            word("a"),
            Token::Background,
            word("x"),
        ]
    );
}

#[test]
fn operators_split_words_without_spaces() {
    let toks = lex(&String::from("a|b>c<d&e")).unwrap();
    assert_eq!(
        toks,
        vec![
            word("a"),
            Token::Pipe,
            word("b"),
            Token::RightRedirect,
            word("c"),
            Token::LeftRedirect,
            word("d"),
            Token::Background,
            word("e"),
        ]
    );
}

#[test]
fn empty_words_are_never_emitted() {
    assert_eq!(lex(&String::from("")).unwrap(), vec![]);
    assert_eq!(lex(&String::from("   ")).unwrap(), vec![]);
    assert_eq!(
        lex(&String::from(" | ")).unwrap(),
        vec![Token::Pipe]
    );
}

#[test]
fn quotes_make_operators_literal() {
    let toks = lex(&String::from("echo \"a | b > c\"")).unwrap();
    assert_eq!(toks, vec![word("echo"), word("a | b > c")]);
}

#[test]
fn quote_characters_are_not_part_of_the_word() {
    // the quotes only toggle raw mode: they do not end the word
    let toks = lex(&String::from("a\"b c\"d")).unwrap();
    assert_eq!(toks, vec![word("ab cd")]);
}

#[test]
fn backslash_escapes_the_next_character() {
    let toks = lex(&String::from("a\\|b \\\"c\\\" \\\\")).unwrap();
    assert_eq!(toks, vec![word("a|b"), word("\"c\""), word("\\")]);
}

#[test]
fn trailing_backslash_is_a_lexer_error() {
    assert!(lex(&String::from("abc\\")).is_none());
}

#[test]
fn newline_flushes_and_nul_stops() {
    assert_eq!(lex(&String::from("ab\ncd")).unwrap(), vec![word("ab"), word("cd")]);
    assert_eq!(lex(&String::from("ab\0cd")).unwrap(), vec![word("ab")]);
}

#[test]
fn empty_quotes_emit_no_token() {
    assert_eq!(lex(&String::from("\"\"")).unwrap(), vec![]);
    // an empty quoted span leaves the surrounding word whole
    assert_eq!(lex(&String::from("a\"\"b")).unwrap(), vec![word("ab")]);
}

fn rejoin(toks: &[Token]) -> String {
    let mut out = String::new();
    let mut first = true;
    for t in toks {
        if !first {
            out.push(' ');
        }
        first = false;
        match t {
            Token::Str(w) => out.push_str(w),
            Token::Pipe => out.push('|'),
            Token::RightRedirect => out.push('>'),
            Token::LeftRedirect => out.push('<'),
            Token::Background => out.push('&'),
        }
    }
    out
}

#[test]
fn relexing_the_rejoined_words_is_idempotent() {
    for line in ["ls|ls", "  a   b|c>d  ", "x & y", "one", "", "a>b<c|d&"] {
        let toks = lex(&String::from(line)).unwrap();
        let rejoined = rejoin(&toks);
        let again = lex(&rejoined).unwrap();
        assert_eq!(toks, again);
    }
}
