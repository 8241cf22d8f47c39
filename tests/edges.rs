use citati::escape::is_escaped;
use citati::hollow::HollowCitations;
use citati::keys::key_less;
use citati::latex::{LexStep, Lexer, Token};
use citati::paths::resolve_input;
use citati::queries::{check_article_fields, check_bib_pages, unused_citations};
use citati::sanitize::{comments_in_citation_blocks, strip_comments};
use citati::sources::{Bib, CitationSource};

#[test]
fn empty_sources() {
    assert_eq!(strip_comments(""), "");
    assert!(comments_in_citation_blocks("").is_empty());
    let mut lexer = Lexer::from_str("", "/doc");
    assert!(matches!(lexer.next_token(), LexStep::Done));
    let src = CitationSource::new(vec![], vec![]);
    assert!(unused_citations(&src).is_empty());
    let bib_only = CitationSource::from_bib(vec![]);
    assert!(check_bib_pages(&bib_only).is_empty());
    assert!(check_article_fields(&bib_only).is_empty());
}

#[test]
fn escape_ignores_backslashes_before_other_text() {
    assert!(!is_escaped("\\\\\\x"));
    assert!(is_escaped("x\\\\\\"));
}

#[test]
fn keys_order_by_character() {
    assert!(key_less("a", "b"));
    assert!(key_less("ab", "abc"));
    assert!(!key_less("abc", "ab"));
    assert!(!key_less("same", "same"));
    assert!(key_less("Z", "a"));
    assert!(key_less("z", "\u{e9}"));
}

#[test]
fn hollow_from_keys_drops_repeats() {
    let h = HollowCitations::<Bib>::from_keys(vec!["b".to_string(), "a".to_string(), "b".to_string()]);
    assert_eq!(h.list_sorted(), vec!["a".to_string(), "b".to_string()]);
    assert!(h.contains(&"a".to_string()));
    assert!(!h.contains(&"c".to_string()));
}

#[test]
fn resolved_paths() {
    assert_eq!(resolve_input("/doc", "ch"), "/doc/ch.tex");
    assert_eq!(resolve_input("/doc", "ch.tex"), "/doc/ch.tex");
    assert_eq!(resolve_input("/doc", "/abs/ch"), "/abs/ch.tex");
}

#[test]
fn citation_after_other_text_on_the_line() {
    let mut lexer = Lexer::from_str("See \\autocite{x} and \\cite{y}.\n", "/doc");
    match lexer.next_token() {
        LexStep::Token(Token::Citation(c)) => {
            assert_eq!(c.key, "x");
            assert_eq!(c.cite_cmd, "autocite");
        }
        _ => panic!("expected a citation"),
    }
    assert!(matches!(lexer.next_token(), LexStep::Done));
}

#[test]
fn duplicate_key_is_a_grammar_error() {
    assert!(citati::bib::parse_bib("@misc{a, title={A}}\n@misc{a, title={B}}\n").is_err());
}
