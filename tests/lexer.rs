use citati::latex::{LexStep, Lexer, Token};

fn expect_cite(step: LexStep, key: &str, cmd: &str) {
    match step {
        LexStep::Token(Token::Citation(c)) => {
            assert_eq!(c.key, key);
            assert_eq!(c.cite_cmd, cmd);
        }
        _ => panic!("expected a citation of {key}"),
    }
}

fn expect_other(step: LexStep) {
    assert!(matches!(step, LexStep::Token(Token::Other)));
}

fn expect_done(step: LexStep) {
    assert!(matches!(step, LexStep::Done));
}

#[test]
fn every_key_of_a_list_is_returned() {
    let mut lexer = Lexer::from_str("\\cite{a, b,,c }\n\\textcite{d}\n", "/doc");
    expect_cite(lexer.next_token(), "a", "cite");
    expect_cite(lexer.next_token(), "b", "cite");
    expect_cite(lexer.next_token(), "c", "cite");
    expect_cite(lexer.next_token(), "d", "textcite");
    expect_done(lexer.next_token());
    expect_done(lexer.next_token());
}

#[test]
fn comments_hide_citations() {
    let mut lexer = Lexer::from_str("% \\cite{x}\ntext % \\cite{y}\n50\\% \\parencite{z}\n", "/doc");
    expect_other(lexer.next_token());
    expect_other(lexer.next_token());
    expect_cite(lexer.next_token(), "z", "parencite");
    expect_done(lexer.next_token());
}

#[test]
fn malformed_directives_are_other() {
    let mut lexer = Lexer::from_str("\\cite{a\n\\input{chapter\n\\citep{b}\n\\cite{ , }\n", "/doc");
    expect_other(lexer.next_token());
    expect_other(lexer.next_token());
    expect_other(lexer.next_token());
    expect_other(lexer.next_token());
    expect_done(lexer.next_token());
}

#[test]
fn inclusion_is_visited_before_the_rest_of_the_root() {
    let mut lexer = Lexer::from_str("intro\n\\input{chapter}\nafter \\cite{z}\n", "/doc");
    expect_other(lexer.next_token());
    match lexer.next_token() {
        LexStep::Include(path) => assert_eq!(path, "/doc/chapter.tex"),
        _ => panic!("expected an inclusion"),
    }
    lexer.enter("\\cite{k}\n", "/doc");
    expect_cite(lexer.next_token(), "k", "cite");
    expect_cite(lexer.next_token(), "z", "cite");
    expect_done(lexer.next_token());
}

#[test]
fn inclusion_keeps_an_existing_suffix_and_nests() {
    let mut lexer = Lexer::from_str("\\input{ parts/one.tex }\n", "/doc");
    match lexer.next_token() {
        LexStep::Include(path) => assert_eq!(path, "/doc/parts/one.tex"),
        _ => panic!("expected an inclusion"),
    }
    lexer.enter("\\input{two}\n\\cite{a}\n", "/doc/parts");
    match lexer.next_token() {
        LexStep::Include(path) => assert_eq!(path, "/doc/parts/two.tex"),
        _ => panic!("expected a nested inclusion"),
    }
    lexer.enter("", "/doc/parts");
    expect_cite(lexer.next_token(), "a", "cite");
    expect_done(lexer.next_token());
}
