use citati::bib::{gather_bib_entries, parse_bib, BibCitation, SourceError};
use citati::cli::{Group, Query};
use citati::full::Citations;
use citati::gather::gather_citations;
use citati::hollow::HollowCitations;
use citati::latex::{LexStep, Lexer, Token};
use citati::queries::{
    check_article_fields, check_bib_pages, is_page_range, report_article, report_pages,
    undefined_citations, unused_citations,
};
use citati::sources::{Abstract, Bib, CitationSource, LaTeX};

fn lex(text: &str) -> Vec<Token> {
    let mut lexer = Lexer::from_str(text, "/doc");
    let mut tokens = Vec::new();
    loop {
        match lexer.next_token() {
            LexStep::Token(t) => tokens.push(t),
            LexStep::Include(_) => panic!("no inclusion expected"),
            LexStep::Done => break,
        }
    }
    tokens
}

fn bib(text: &str) -> Vec<BibCitation> {
    match parse_bib(text) {
        Ok(v) => v,
        Err(_) => panic!("bibliography should parse"),
    }
}

#[test]
fn unused_and_undefined_scenario() {
    let tokens = lex("\\cite{a,b}\n\\textcite{c}\n");
    let entries = bib("@misc{a, title={A}}\n@misc{c, title={C}}\n@misc{d, title={D}}\n");
    let src = CitationSource::new(tokens, entries);
    assert_eq!(unused_citations(&src), vec!["d".to_string()]);
    assert_eq!(undefined_citations(&src), vec!["b".to_string()]);
}

#[test]
fn unused_is_sorted() {
    let tokens = lex("\\cite{m}\n");
    let entries = bib("@misc{z, title={Z}}\n@misc{m, title={M}}\n@misc{b, title={B}}\n@misc{a2, title={A}}\n");
    let src = CitationSource::new(tokens, entries);
    assert_eq!(unused_citations(&src), vec!["a2".to_string(), "b".to_string(), "z".to_string()]);
}

#[test]
fn page_range_format() {
    assert!(is_page_range("123--145"));
    assert!(is_page_range("12\u{2013}34"));
    assert!(!is_page_range("123-145"));
    assert!(!is_page_range("123\u{2013}14a"));
    assert!(!is_page_range("--145"));
    assert!(!is_page_range("123--"));
    assert!(!is_page_range(""));
}

#[test]
fn malformed_pages_are_reported() {
    let entries = bib("@article{x, pages={123-145}}\n@article{y, pages={123--145}}\n@book{w, pages={7a}}\n@misc{v, title={No pages}}\n");
    let src = CitationSource::from_bib(entries);
    assert_eq!(check_bib_pages(&src), vec!["w (7a)".to_string(), "x (123-145)".to_string()]);
}

#[test]
fn report_pages_shows_the_raw_value() {
    let c = BibCitation {
        key: "k".to_string(),
        entry_type: "article".to_string(),
        fields: vec![("pages".to_string(), "1\"2".to_string())],
    };
    assert_eq!(report_pages(&c), "k (1\"2)");
}

#[test]
fn article_missing_doi_and_pages() {
    let entries = bib("@article{k, volume={1}, number={2}}\n@article{full, volume={1}, number={2}, pages={1--2}, doi={10.1/x}}\n@book{b, title={T}}\n");
    let src = CitationSource::from_bib(entries);
    assert_eq!(check_article_fields(&src), vec!["k (missing: pages, doi)".to_string()]);
}

#[test]
fn report_article_lists_every_missing_field() {
    let c = BibCitation { key: "e".to_string(), entry_type: "article".to_string(), fields: vec![] };
    assert_eq!(report_article(&c), "e (missing: volume, number, pages, doi)");
}

#[test]
fn bibliography_keys_in_order() {
    let keys = match gather_bib_entries("@misc{b, title={B}} % trailing\n@misc{a, title={A}}\n") {
        Ok(k) => k,
        Err(_) => panic!("should parse"),
    };
    assert_eq!(keys, vec!["b".to_string(), "a".to_string()]);
}

#[test]
fn grammar_error_is_reported() {
    assert!(matches!(parse_bib("@article{a, title={unclosed}\n"), Err(SourceError::Grammar(_))));
}

#[test]
fn fields_of_a_record() {
    let entries = bib("@Article{k, Pages={3--4}, volume={2}}\n");
    assert_eq!(entries.len(), 1);
    let c = &entries[0];
    assert_eq!(c.entry_type(), "article");
    assert!(c.has_field("pages"));
    assert!(!c.has_field("doi"));
    assert!(c.has_fields(&["pages", "volume"]));
    assert!(!c.has_fields(&["pages", "doi"]));
    assert_eq!(c.get("pages"), Some("3\u{2013}4".to_string()));
    assert_eq!(c.get("doi"), None);
}

#[test]
fn hollow_collection_operations() {
    let mut a = HollowCitations::<Bib>::new();
    assert!(a.insert("b".to_string()));
    assert!(a.insert("a".to_string()));
    assert!(!a.insert("b".to_string()));
    assert!(a.insert("c".to_string()));
    let mut b = HollowCitations::<LaTeX>::new();
    b.insert("c".to_string());
    b.insert("x".to_string());
    let d: HollowCitations<Abstract> = a.difference(b);
    assert_eq!(d.list_sorted(), vec!["a".to_string(), "b".to_string()]);
    assert_eq!(a.list_sorted(), vec!["a".to_string(), "b".to_string(), "c".to_string()]);
}

#[test]
fn full_collection_of_the_document() {
    let tokens = lex("\\cite{b}\n\\textcite{a,b}\n");
    let src = CitationSource::new(tokens, vec![]);
    let cites: Citations<LaTeX> = gather_citations(&src);
    let list = cites.list_sorted();
    assert_eq!(list.len(), 2);
    assert_eq!(list[0].key, "a");
    assert_eq!(list[0].cite_cmds, vec!["textcite".to_string()]);
    assert_eq!(list[1].key, "b");
    assert_eq!(list[1].cite_cmds, vec!["cite".to_string(), "textcite".to_string()]);
}

#[test]
fn full_collection_filter() {
    let entries = bib("@misc{b, title={B}}\n@article{a, title={A}}\n@article{c, title={C}}\n");
    let src = CitationSource::from_bib(entries);
    let all: Citations<Bib> = gather_citations(&src);
    let articles = all.filter(|c: &BibCitation| c.entry_type == "article");
    let keys: Vec<String> = articles.list_sorted().iter().map(|c| c.key.clone()).collect();
    assert_eq!(keys, vec!["a".to_string(), "c".to_string()]);
}

#[test]
fn group_selects_one_query() {
    let g = Group { unused: false, pages: true, article: true };
    assert!(matches!(g.query(), Some(Query::Pages)));
    let none = Group { unused: false, pages: false, article: false };
    assert!(none.query().is_none());
}
