use citati::bib::{parse_bib, SourceError};

fn links_refused(src: &str) -> bool {
    matches!(parse_bib(src), Err(SourceError::UnresolvableLinks))
}

#[test]
fn self_crossref_is_refused() {
    assert!(links_refused("@book{a, title={A}, crossref = {a}}\n"));
}

#[test]
fn crossref_cycle_is_refused() {
    assert!(links_refused("@book{a, crossref={b}}\n@book{b, crossref={a}}\n"));
}

#[test]
fn xdata_cycle_through_alias_is_refused() {
    assert!(links_refused("@book{a, ids={b, c}, xdata={c}}\n"));
}

#[test]
fn abbreviation_cycle_is_refused() {
    assert!(links_refused("@string{x = y}\n@string{y = x}\n@misc{m, title = x}\n"));
}

#[test]
fn link_field_that_is_not_plain_is_refused() {
    assert!(links_refused("@book{a, crossref = {x y}}\n@book{b, title={B}}\n"));
}

#[test]
fn acyclic_crossref_is_resolved() {
    let entries = match parse_bib(
        "@inproceedings{p, crossref={proc}, title={T}}\n@proceedings{proc, title={Proc}}\n@string{j = {Journal}}\n@article{q, journal = j}\n",
    ) {
        Ok(v) => v,
        Err(_) => panic!("should parse"),
    };
    let keys: Vec<String> = entries.iter().map(|e| e.key.clone()).collect();
    assert_eq!(keys, vec!["p".to_string(), "proc".to_string(), "q".to_string()]);
}

#[test]
fn crossref_through_alias_is_resolved() {
    assert!(parse_bib("@book{a, ids = {b, c}}\n@book{d, crossref={c}}\n").is_ok());
}

#[test]
fn unicode_crossref_is_resolved() {
    assert!(parse_bib("@inbook{a, crossref = {m\u{fc}ller}, title={A}}\n@book{m\u{fc}ller, title={B}}\n").is_ok());
}

#[test]
fn inherited_year_with_spaced_sign_is_refused() {
    assert!(links_refused("@article{a, crossref = {b}}\n@book{b, year = {+ 2020}}\n"));
}

#[test]
fn inherited_zero_month_is_refused() {
    assert!(links_refused("@inproceedings{a, crossref = {b}}\n@proceedings{b, year = {2020}, month = {0}}\n"));
}

#[test]
fn inherited_date_field_is_refused() {
    assert!(links_refused("@inproceedings{a, crossref = {b}}\n@proceedings{b, date = {2020}}\n"));
}

#[test]
fn inherited_plain_date_is_resolved() {
    assert!(parse_bib("@inproceedings{a, crossref = {b}}\n@proceedings{b, year = {2020}, month = {may}}\n").is_ok());
}
