//! The reconciliation queries: bibliography entries that the document never cites, cited keys
//! that the bibliography lacks, entries whose page range is malformed, and articles that miss
//! required fields. Each returns its report lines, sorted by key.

use vstd::prelude::*;
use crate::bib::{field_value, has_field_named, BibCitation, EntryView};
use crate::full::Citations;
use crate::gather::{gather_citations, GatherCitations};
use crate::hollow::HollowCitations;
use crate::keys::sorted_keys;
use crate::latex::Token;
use crate::sources::{cited_keys, entry_keys, last_entry, token_lexemes, Bib, CitationSource, LaTeX};

verus! {

/// The keys that the bibliography of `src` defines.
pub open spec fn defined_keys(src: &CitationSource) -> Set<Seq<char>> {
    entry_keys(src.bib->0@.map_values(|c: BibCitation| c@))
}

/// The keys that the document of `src` cites.
pub open spec fn used_keys(src: &CitationSource) -> Set<Seq<char>> {
    cited_keys(token_lexemes(src.latex->0@))
}

/// The views of a sequence of strings.
pub open spec fn views(v: Seq<String>) -> Seq<Seq<char>> {
    v.map_values(|s: String| s@)
}

/// The keys that the bibliography defines and the document does not cite, in increasing
/// order.
pub fn unused_citations(src: &CitationSource) -> (r: Vec<String>)
    requires
        src.latex is Some,
        src.bib is Some,
    ensures
        sorted_keys(views(r@)),
        views(r@).to_set() == defined_keys(src).difference(used_keys(src)),
{
    let citations = gather_citations::<HollowCitations<LaTeX>>(src);
    let bib_entries = gather_citations::<HollowCitations<Bib>>(src);
    let unused = bib_entries.difference(citations);
    unused.list_sorted()
}

/// The keys that the document cites and the bibliography does not define, in increasing
/// order.
pub fn undefined_citations(src: &CitationSource) -> (r: Vec<String>)
    requires
        src.latex is Some,
        src.bib is Some,
    ensures
        sorted_keys(views(r@)),
        views(r@).to_set() == used_keys(src).difference(defined_keys(src)),
{
    let citations = gather_citations::<HollowCitations<LaTeX>>(src);
    let bib_entries = gather_citations::<HollowCitations<Bib>>(src);
    let undefined = citations.difference(bib_entries);
    undefined.list_sorted()
}

/// A key that the unused-entries query reports is defined by the bibliography, and no
/// citation token of the document carries it.
pub proof fn lemma_unused_defined_and_uncited(src: &CitationSource, k: Seq<char>)
    requires
        src.latex is Some,
        src.bib is Some,
        defined_keys(src).difference(used_keys(src)).contains(k),
    ensures
        defined_keys(src).contains(k),
        forall|i: int|
            0 <= i < src.latex->0@.len() ==> !(#[trigger] src.latex->0@[i] matches Token::Citation(c)
                && c.key@ == k),
{
    let ls = token_lexemes(src.latex->0@);
    assert forall|i: int| 0 <= i < src.latex->0@.len() implies !(#[trigger] src.latex->0@[i] matches Token::Citation(c)
        && c.key@ == k) by {
        match src.latex->0@[i] {
            Token::Citation(c) => {
                if c.key@ == k {
                    assert(ls[i] is Cite && ls[i]->Cite_0 == k);
                    assert(cited_keys(ls).contains(k));
                }
            },
            Token::Other => {},
        }
    }
}

/// An ASCII digit.
pub open spec fn is_digit(c: char) -> bool {
    '0' <= c <= '9'
}

/// The position after the run of digits of `s` that starts at `j`.
pub open spec fn digits_end(s: Seq<char>, j: int) -> int
    decreases s.len() - j,
{
    if j < 0 || j >= s.len() {
        s.len() as int
    } else if is_digit(s[j]) {
        digits_end(s, j + 1)
    } else {
        j
    }
}

/// Where the second number of a page range starts: after a `--` or an en dash at `a`, or
/// -1 when neither is there.
pub open spec fn after_separator(v: Seq<char>, a: int) -> int {
    if 0 <= a && a + 1 < v.len() && v[a] == '-' && v[a + 1] == '-' {
        a + 2
    } else if 0 <= a < v.len() && v[a] == '\u{2013}' {
        a + 1
    } else {
        -1
    }
}

/// A well-formed page range: digits, a double hyphen or an en dash, digits, and nothing
/// else.
pub open spec fn pages_well_formed(v: Seq<char>) -> bool {
    let a = digits_end(v, 0);
    let b = after_separator(v, a);
    &&& a > 0
    &&& 0 < b < v.len()
    &&& digits_end(v, b) == v.len()
}

/// The name of the page field.
pub open spec fn pages_name() -> Seq<char> {
    seq!['p', 'a', 'g', 'e', 's']
}

/// The entry has a page field, and its value is not a well-formed page range.
pub open spec fn bad_pages(e: EntryView) -> bool {
    field_value(e.2, pages_name()) matches Some(v) && !pages_well_formed(v)
}

/// The position after the run of digits of `s` that starts at `j`.
fn find_digits_end(s: &Vec<char>, j: usize) -> (r: usize)
    requires
        j <= s@.len(),
    ensures
        r == digits_end(s@, j as int),
        j <= r <= s@.len(),
{
    let mut r = j;
    while r < s.len() && '0' <= s[r] && s[r] <= '9'
        invariant
            j <= r <= s@.len(),
            digits_end(s@, r as int) == digits_end(s@, j as int),
        decreases s@.len() - r,
    {
        r = r + 1;
    }
    r
}

/// Whether `pages` is a well-formed page range: digits, `--` or an en dash, digits.
pub fn is_page_range(pages: &str) -> (r: bool)
    ensures
        r == pages_well_formed(pages@),
{
    let v = crate::text::chars_of(pages);
    let n = v.len();
    let a = find_digits_end(&v, 0);
    if a == 0 {
        return false;
    }
    let b = if n - a >= 2 && v[a] == '-' && v[a + 1] == '-' {
        a + 2
    } else if a < n && v[a] == '\u{2013}' {
        a + 1
    } else {
        return false;
    };
    if b >= n {
        return false;
    }
    find_digits_end(&v, b) == n
}

/// The report line of an entry with a malformed page range: the key, then the raw page
/// value in parentheses.
pub open spec fn pages_report(e: EntryView) -> Seq<char> {
    let v = match field_value(e.2, pages_name()) {
        Some(v) => v,
        None => Seq::empty(),
    };
    e.0 + seq![' ', '('] + v + seq![')']
}

/// The report line for `citation`, whose page range is malformed.
pub fn report_pages(citation: &BibCitation) -> (r: String)
    ensures
        r@ == pages_report(citation@),
{
    proof {
        reveal_strlit("pages");
        reveal_strlit(" (");
        reveal_strlit(")");
        assert("pages"@ == pages_name());
    }
    let pages = match citation.get("pages") {
        Some(p) => p,
        None => String::new(),
    };
    let mut r = citation.key.clone();
    r.append(" (");
    r.append(pages.as_str());
    r.append(")");
    assert(" ("@ == seq![' ', '('] && ")"@ == seq![')']);
    r
}

/// Whether `citation` has a page field whose value is not a well-formed page range.
pub fn has_bad_pages(citation: &BibCitation) -> (b: bool)
    ensures
        b == bad_pages(citation@),
{
    proof {
        reveal_strlit("pages");
        assert("pages"@ == pages_name());
    }
    match citation.get("pages") {
        Some(p) => !is_page_range(p.as_str()),
        None => false,
    }
}

/// `recs` are the last entries of the keys that `src`'s bibliography defines, those whose
/// entry `p` accepts, in increasing order of key.
pub open spec fn selection(src: &CitationSource, recs: Seq<EntryView>, p: spec_fn(EntryView) -> bool) -> bool {
    let es = src.bib->0@.map_values(|c: BibCitation| c@);
    &&& sorted_keys(recs.map_values(|e: EntryView| e.0))
    &&& recs.map_values(|e: EntryView| e.0).to_set() == defined_keys(src).filter(
        |k: Seq<char>| p(last_entry(es, k)->0),
    )
    &&& forall|i: int| 0 <= i < recs.len() ==> last_entry(es, #[trigger] recs[i].0) == Some(recs[i])
}

/// `recs` are the last entries of the keys that `src`'s bibliography defines whose page
/// field is malformed, in increasing order of key.
pub open spec fn bad_pages_selection(src: &CitationSource, recs: Seq<EntryView>) -> bool {
    selection(src, recs, |e: EntryView| bad_pages(e))
}

/// The records of a collection, in order.
pub open spec fn records(c: Seq<(Seq<char>, BibCitation)>) -> Seq<EntryView> {
    c.map_values(|e: (Seq<char>, BibCitation)| e.1@)
}

/// The report lines of the entries of `src`'s bibliography whose page field is malformed,
/// in increasing order of key; where a key repeats, its last entry stands.
pub fn check_bib_pages(src: &CitationSource) -> (r: Vec<String>)
    requires
        src.bib is Some,
    ensures
        exists|recs: Seq<EntryView>|
            #[trigger] bad_pages_selection(src, recs) && recs.len() == r@.len()
                && forall|i: int| 0 <= i < recs.len() ==> r@[i]@ == pages_report(#[trigger] recs[i]),
{
    let bib_entries = gather_citations::<Citations<Bib>>(src);
    let bad = bib_entries.filter(has_bad_pages);
    let list = bad.list_sorted();
    let mut r: Vec<String> = Vec::new();
    let mut i: usize = 0;
    while i < list.len()
        invariant
            i <= list@.len(),
            r@.len() == i,
            list@.len() == bad@.len(),
            forall|j: int| 0 <= j < list@.len() ==> *list@[j] == #[trigger] bad@[j].1,
            forall|j: int| 0 <= j < i ==> (#[trigger] r@[j])@ == pages_report(bad@[j].1@),
        decreases list@.len() - i,
    {
        r.push(report_pages(list[i]));
        i = i + 1;
    }
    proof {
        lemma_filtered_records(src, bib_entries, bad, |e: EntryView| bad_pages(e));
        let recs = records(bad@);
        assert(bad_pages_selection(src, recs));
        assert forall|i: int| 0 <= i < recs.len() implies r@[i]@ == pages_report(#[trigger] recs[i]) by {
            assert(recs[i] == bad@[i].1@);
        }
    }
    r
}

/// The fields that an article must have.
pub open spec fn article_fields() -> Seq<Seq<char>> {
    seq![
        seq!['v', 'o', 'l', 'u', 'm', 'e'],
        seq!['n', 'u', 'm', 'b', 'e', 'r'],
        pages_name(),
        seq!['d', 'o', 'i'],
    ]
}

/// The names among `names` that no field is named, in the order of `names`.
pub open spec fn missing_from(fields: Seq<(Seq<char>, Seq<char>)>, names: Seq<Seq<char>>) -> Seq<
    Seq<char>,
>
    decreases names.len(),
{
    if names.len() == 0 {
        Seq::empty()
    } else {
        let m = missing_from(fields, names.drop_last());
        if has_field_named(fields, names.last()) {
            m
        } else {
            m.push(names.last())
        }
    }
}

/// The article fields that entry `e` lacks, in the order of [`article_fields`].
pub open spec fn missing_article_fields(e: EntryView) -> Seq<Seq<char>> {
    missing_from(e.2, article_fields())
}

/// The entry is an article that lacks one of the article fields.
pub open spec fn lacks_article_fields(e: EntryView) -> bool {
    e.1 == seq!['a', 'r', 't', 'i', 'c', 'l', 'e'] && missing_article_fields(e).len() > 0
}

/// Names separated by a comma and a space.
pub open spec fn join_names(ns: Seq<Seq<char>>) -> Seq<char>
    decreases ns.len(),
{
    if ns.len() == 0 {
        Seq::empty()
    } else if ns.len() == 1 {
        ns[0]
    } else {
        join_names(ns.drop_last()) + seq![',', ' '] + ns.last()
    }
}

/// The report line of an article that lacks fields: the key, then the missing fields.
pub open spec fn article_report(e: EntryView) -> Seq<char> {
    e.0 + seq![' ', '(', 'm', 'i', 's', 's', 'i', 'n', 'g', ':', ' '] + join_names(
        missing_article_fields(e),
    ) + seq![')']
}

/// The fields that an article must have.
fn article_field_names() -> (r: Vec<&'static str>)
    ensures
        r@.map_values(|s: &str| s@) == article_fields(),
{
    proof {
        reveal_strlit("volume");
        reveal_strlit("number");
        reveal_strlit("pages");
        reveal_strlit("doi");
    }
    let r = vec!["volume", "number", "pages", "doi"];
    assert("volume"@ =~= seq!['v', 'o', 'l', 'u', 'm', 'e']);
    assert("number"@ =~= seq!['n', 'u', 'm', 'b', 'e', 'r']);
    assert("pages"@ =~= pages_name());
    assert("doi"@ =~= seq!['d', 'o', 'i']);
    assert(r@.map_values(|s: &str| s@) =~= article_fields());
    r
}

/// The article fields that `citation` lacks.
fn missing_fields(citation: &BibCitation) -> (r: Vec<&'static str>)
    ensures
        r@.map_values(|s: &str| s@) == missing_article_fields(citation@),
{
    let names = article_field_names();
    let mut r: Vec<&'static str> = Vec::new();
    let mut i: usize = 0;
    while i < names.len()
        invariant
            i <= names@.len(),
            names@.map_values(|s: &str| s@) == article_fields(),
            r@.map_values(|s: &str| s@) == missing_from(
                citation@.2,
                article_fields().take(i as int),
            ),
        decreases names@.len() - i,
    {
        let ghost prev = r@;
        proof {
            let t = article_fields().take(i + 1);
            assert(t.drop_last() =~= article_fields().take(i as int));
            assert(t.last() == names@[i as int]@);
        }
        if !citation.has_field(names[i]) {
            r.push(names[i]);
            assert(r@.map_values(|s: &str| s@) =~= prev.map_values(|s: &str| s@).push(
                names@[i as int]@,
            ));
        }
        i = i + 1;
    }
    assert(article_fields().take(4) =~= article_fields());
    r
}

/// The report line for `citation`, an article that lacks fields. An article that lacks
/// none has nothing to report and is not accepted.
pub fn report_article(citation: &BibCitation) -> (r: String)
    requires
        missing_article_fields(citation@).len() > 0,
    ensures
        r@ == article_report(citation@),
{
    let missing = missing_fields(citation);
    let ghost ms = missing@.map_values(|s: &str| s@);
    proof {
        reveal_strlit(" (missing: ");
        reveal_strlit(", ");
        reveal_strlit(")");
        assert(" (missing: "@ =~= seq![' ', '(', 'm', 'i', 's', 's', 'i', 'n', 'g', ':', ' ']);
        assert(", "@ =~= seq![',', ' ']);
        assert(")"@ =~= seq![')']);
    }
    let mut r = citation.key.clone();
    r.append(" (missing: ");
    r.append(missing[0]);
    assert(ms.take(1) =~= seq![ms[0]]);
    let mut j: usize = 1;
    while j < missing.len()
        invariant
            1 <= j <= missing@.len(),
            ms == missing@.map_values(|s: &str| s@),
            ", "@ == seq![',', ' '],
            r@ == citation@.0 + seq![' ', '(', 'm', 'i', 's', 's', 'i', 'n', 'g', ':', ' ']
                + join_names(ms.take(j as int)),
        decreases missing@.len() - j,
    {
        r.append(", ");
        r.append(missing[j]);
        assert(ms.take(j + 1).drop_last() =~= ms.take(j as int));
        j = j + 1;
    }
    r.append(")");
    assert(ms.take(ms.len() as int) == ms);
    r
}

/// Whether `citation` is an article that lacks one of the article fields.
pub fn lacks_required_article_fields(citation: &BibCitation) -> (b: bool)
    ensures
        b == lacks_article_fields(citation@),
{
    proof {
        reveal_strlit("article");
        assert("article"@ =~= seq!['a', 'r', 't', 'i', 'c', 'l', 'e']);
    }
    let article = String::from_str("article");
    if citation.entry_type != article {
        return false;
    }
    let names = article_field_names();
    let has_all = citation.has_fields(names.as_slice());
    proof {
        lemma_missing_from(citation@.2, article_fields());
    }
    !has_all
}

proof fn lemma_missing_from(fields: Seq<(Seq<char>, Seq<char>)>, names: Seq<Seq<char>>)
    ensures
        missing_from(fields, names).len() == 0 <==> forall|i: int|
            0 <= i < names.len() ==> has_field_named(fields, #[trigger] names[i]),
    decreases names.len(),
{
    if names.len() > 0 {
        let init = names.drop_last();
        lemma_missing_from(fields, init);
        if missing_from(fields, names).len() == 0 {
            assert forall|i: int| 0 <= i < names.len() implies has_field_named(
                fields,
                #[trigger] names[i],
            ) by {
                if i < names.len() - 1 {
                    assert(names[i] == init[i]);
                }
            }
        }
        if forall|i: int| 0 <= i < names.len() ==> has_field_named(fields, #[trigger] names[i]) {
            assert(has_field_named(fields, names[names.len() - 1]));
            assert forall|i: int| 0 <= i < init.len() implies has_field_named(
                fields,
                #[trigger] init[i],
            ) by {
                assert(names[i] == init[i]);
            }
        }
    }
}

/// `recs` are the last entries of the keys that `src`'s bibliography defines that are
/// articles lacking a field, in increasing order of key.
pub open spec fn article_selection(src: &CitationSource, recs: Seq<EntryView>) -> bool {
    selection(src, recs, |e: EntryView| lacks_article_fields(e))
}

/// The report lines of the articles of `src`'s bibliography that lack required fields, in
/// increasing order of key; where a key repeats, its last entry stands.
pub fn check_article_fields(src: &CitationSource) -> (r: Vec<String>)
    requires
        src.bib is Some,
    ensures
        exists|recs: Seq<EntryView>|
            #[trigger] article_selection(src, recs) && recs.len() == r@.len()
                && forall|i: int| 0 <= i < recs.len() ==> r@[i]@ == article_report(#[trigger] recs[i]),
{
    let bib_entries = gather_citations::<Citations<Bib>>(src);
    let lacking = bib_entries.filter(lacks_required_article_fields);
    let list = lacking.list_sorted();
    let mut r: Vec<String> = Vec::new();
    let mut i: usize = 0;
    while i < list.len()
        invariant
            i <= list@.len(),
            r@.len() == i,
            list@.len() == lacking@.len(),
            forall|j: int| 0 <= j < list@.len() ==> *list@[j] == #[trigger] lacking@[j].1,
            forall|j: int| 0 <= j < list@.len() ==> lacks_article_fields(#[trigger] lacking@[j].1@),
            forall|j: int| 0 <= j < i ==> (#[trigger] r@[j])@ == article_report(lacking@[j].1@),
        decreases list@.len() - i,
    {
        assert(lacks_article_fields(lacking@[i as int].1@));
        r.push(report_article(list[i]));
        i = i + 1;
    }
    proof {
        lemma_filtered_records(src, bib_entries, lacking, |e: EntryView| lacks_article_fields(e));
        let recs = records(lacking@);
        assert(article_selection(src, recs));
        assert forall|i: int| 0 <= i < recs.len() implies r@[i]@ == article_report(#[trigger] recs[i]) by {
            assert(recs[i] == lacking@[i].1@);
        }
    }
    r
}

proof fn lemma_last_entry_key(es: Seq<EntryView>, k: Seq<char>)
    ensures
        last_entry(es, k) matches Some(e) ==> e.0 == k,
    decreases es.len(),
{
    if es.len() > 0 && es.last().0 != k {
        lemma_last_entry_key(es.drop_last(), k);
    }
}

/// What a filter of the bibliography's full collection by `p` holds: the last entry of each
/// defined key that `p` accepts, in increasing order of key.
proof fn lemma_filtered_records(
    src: &CitationSource,
    all: Citations<Bib>,
    kept: Citations<Bib>,
    p: spec_fn(EntryView) -> bool,
)
    requires
        src.bib is Some,
        <Citations<Bib> as GatherCitations>::gathered(src, &all),
        kept.wf(),
        forall|i: int| 0 <= i < kept@.len() ==> all@.contains(#[trigger] kept@[i]) && p(kept@[i].1@),
        forall|j: int| 0 <= j < all@.len() ==> kept@.contains(#[trigger] all@[j]) || !p(all@[j].1@),
    ensures
        records(kept@).len() == kept@.len(),
        selection(src, records(kept@), p),
{
    let es = src.bib->0@.map_values(|c: BibCitation| c@);
    let recs = records(kept@);
    let rk = recs.map_values(|e: EntryView| e.0);
    kept.lemma_sorted();
    assert forall|i: int| 0 <= i < recs.len() implies last_entry(es, #[trigger] recs[i].0) == Some(recs[i])
        && recs[i].0 == kept@[i].0 by {
        let j = choose|j: int| 0 <= j < all@.len() && all@[j] == kept@[i];
        lemma_last_entry_key(es, all@[j].0);
    }
    assert(rk =~= kept.key_seq());
    let target = defined_keys(src).filter(|k: Seq<char>| p(last_entry(es, k)->0));
    assert forall|k: Seq<char>| rk.to_set().contains(k) <==> target.contains(k) by {
        if rk.to_set().contains(k) {
            let i = choose|i: int| 0 <= i < rk.len() && rk[i] == k;
            let j = choose|j: int| 0 <= j < all@.len() && all@[j] == kept@[i];
            assert(all.key_seq()[j] == k);
            assert(all.key_seq().to_set().contains(k));
        }
        if target.contains(k) {
            assert(all.key_seq().to_set().contains(k));
            let j = choose|j: int| 0 <= j < all.key_seq().len() && all.key_seq()[j] == k;
            assert(all@[j].0 == k);
            assert(last_entry(es, all@[j].0) == Some(all@[j].1@));
            let i = choose|i: int| 0 <= i < kept@.len() && kept@[i] == all@[j];
            assert(rk[i] == k);
        }
    }
    assert(rk.to_set() =~= target);
}

} // verus!
