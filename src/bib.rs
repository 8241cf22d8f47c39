//! Bibliography records: the sanitized source is parsed by biblatex, and each entry is kept
//! as plain values (key, entry type and fields).

use vstd::prelude::*;
use biblatex::ChunksExt;
use crate::links::{links_resolvable, links_safe, parse_outline, raw_outline};
use crate::sanitize::{strip_comments, stripped};

verus! {

#[verifier::external_type_specification]
#[verifier::external_body]
pub struct ExParseError(biblatex::ParseError);

/// An entry as plain values: key, entry type name, and fields with their values.
pub type EntryView = (Seq<char>, Seq<char>, Seq<(Seq<char>, Seq<char>)>);

/// The entries that biblatex's `Bibliography::parse` finds in `src`, in order, or `None`
/// when it rejects `src`.
pub uninterp spec fn parsed_bibliography(src: Seq<char>) -> Option<Seq<EntryView>>;

/// A bibliography entry: its citation key, the name of its entry type (`article`, `book`,
/// ...), and its fields, each name with its value.
pub struct BibCitation {
    pub key: String,
    pub entry_type: String,
    pub fields: Vec<(String, String)>,
}

impl View for BibCitation {
    type V = EntryView;

    open spec fn view(&self) -> EntryView {
        (self.key@, self.entry_type@, self.fields@.map_values(|f: (String, String)| (f.0@, f.1@)))
    }
}

/// The value of the first field named `name`, if there is one.
pub open spec fn field_value(fields: Seq<(Seq<char>, Seq<char>)>, name: Seq<char>) -> Option<
    Seq<char>,
>
    decreases fields.len(),
{
    if fields.len() == 0 {
        None
    } else if fields[0].0 == name {
        Some(fields[0].1)
    } else {
        field_value(fields.drop_first(), name)
    }
}

/// Whether a field is named `name`.
pub open spec fn has_field_named(fields: Seq<(Seq<char>, Seq<char>)>, name: Seq<char>) -> bool {
    exists|i: int| 0 <= i < fields.len() && #[trigger] fields[i].0 == name
}

/// The keys of the entries are pairwise distinct.
pub open spec fn distinct_keys(es: Seq<EntryView>) -> bool {
    forall|i: int, j: int| 0 <= i < j < es.len() ==> #[trigger] es[i].0 != #[trigger] es[j].0
}

/// The bibliography errors.
pub enum SourceError {
    /// The source does not parse, even once its comments are stripped.
    Grammar(biblatex::ParseError),
    /// A `crossref`, `xdata` or `ids` field is not plain text, or cross-references or
    /// abbreviations refer to one another in a cycle, which biblatex would follow forever.
    UnresolvableLinks,
}

/// Relies on biblatex's `Bibliography::parse`, which runs `RawBibliography::parse` and then
/// resolves abbreviations and cross-references. It fails on text it cannot parse, and on a
/// repeated key; otherwise it gives the entries in the order of the source. Each entry is
/// taken apart into its key, the name that `EntryType`'s `Display` writes for its type, and
/// its fields with their values as `format_verbatim` writes them, which is what
/// `Entry::get_as::<String>` returns.
///
/// Resolution recurses through abbreviations that use abbreviations, and through the
/// entries that `crossref` and `xdata` name, without a guard against cycles; and an entry
/// that needs a date takes it from the entry it names through `Date::parse_three_fields`,
/// whose integer parsing unwraps. The links must therefore be safe: plain link fields
/// parse to their own text, so every entry that resolution looks up is one that
/// [`links_safe`] counts as linked; neither recursion can loop; and a linked entry has no
/// `date` field, a plain `year`, and a month of letters or a non-zero number of one or two
/// ASCII digits, which that parser reads without fault.
#[verifier::external_body]
fn parse_entries(src: &str) -> (r: Result<Vec<BibCitation>, biblatex::ParseError>)
    requires
        raw_outline(src@) matches Some(o) && links_safe(o),
    ensures
        r is Ok <==> parsed_bibliography(src@) is Some,
        r matches Ok(v) ==> v@.map_values(|c: BibCitation| c@) == parsed_bibliography(src@)->0,
        r matches Ok(v) ==> distinct_keys(v@.map_values(|c: BibCitation| c@)),
{
    let bib = biblatex::Bibliography::parse(src)?;
    Ok(bib.iter().map(|e| BibCitation {
        key: e.key.clone(),
        entry_type: e.entry_type.to_string(),
        fields: e.fields.iter().map(|(k, v)| (k.clone(), v.format_verbatim())).collect(),
    }).collect())
}

/// Sanitized bibliography source `c` parses, and its links are safe to resolve.
pub open spec fn bib_accepted(c: Seq<char>) -> bool {
    &&& raw_outline(c) matches Some(o) && links_safe(o)
    &&& parsed_bibliography(c) is Some
}

/// The entries of bibliography source `src`, parsed once its comments are stripped. A
/// source whose links could loop is refused before it reaches the parser.
pub fn parse_bib(src: &str) -> (r: Result<Vec<BibCitation>, SourceError>)
    ensures
        r is Ok <==> bib_accepted(stripped(src@)),
        r matches Err(SourceError::UnresolvableLinks) <==> (raw_outline(stripped(src@)) matches Some(
            o,
        ) && !links_safe(o)),
        r matches Ok(v) ==> v@.map_values(|c: BibCitation| c@) == parsed_bibliography(
            stripped(src@),
        )->0,
        r matches Ok(v) ==> distinct_keys(v@.map_values(|c: BibCitation| c@)),
{
    let clean = strip_comments(src);
    let outline = match parse_outline(clean.as_str()) {
        Ok(o) => o,
        Err(e) => {
            return Err(SourceError::Grammar(e));
        },
    };
    if !links_resolvable(&outline) {
        return Err(SourceError::UnresolvableLinks);
    }
    match parse_entries(clean.as_str()) {
        Ok(v) => Ok(v),
        Err(e) => Err(SourceError::Grammar(e)),
    }
}

/// The keys of the entries of bibliography source `src`, in the order of the source.
pub fn gather_bib_entries(src: &str) -> (r: Result<Vec<String>, SourceError>)
    ensures
        r is Ok <==> bib_accepted(stripped(src@)),
        r matches Ok(keys) ==> keys@.map_values(|k: String| k@) == parsed_bibliography(
            stripped(src@),
        )->0.map_values(|e: EntryView| e.0),
        r matches Ok(keys) ==> forall|i: int, j: int|
            0 <= i < j < keys@.len() ==> #[trigger] keys@[i]@ != #[trigger] keys@[j]@,
{
    let entries = parse_bib(src)?;
    let mut keys: Vec<String> = Vec::new();
    let mut i: usize = 0;
    while i < entries.len()
        invariant
            i <= entries@.len(),
            keys@.map_values(|k: String| k@) == entries@.take(i as int).map_values(
                |c: BibCitation| c@.0,
            ),
        decreases entries@.len() - i,
    {
        let ghost prev = keys@;
        let k = entries[i].key.clone();
        keys.push(k);
        assert(keys@.map_values(|k: String| k@) =~= prev.map_values(|k: String| k@).push(k@));
        assert(entries@.take(i + 1) =~= entries@.take(i as int).push(entries@[i as int]));
        i = i + 1;
    }
    proof {
        let es = entries@;
        assert(es.take(es.len() as int) == es);
        let ev = es.map_values(|c: BibCitation| c@);
        assert forall|i: int, j: int| 0 <= i < j < keys@.len() implies #[trigger] keys@[i]@
            != #[trigger] keys@[j]@ by {
            assert(keys@.map_values(|k: String| k@)[i] == ev[i].0);
            assert(keys@.map_values(|k: String| k@)[j] == ev[j].0);
        }
        assert(es.map_values(|c: BibCitation| c@.0) =~= es.map_values(|c: BibCitation| c@).map_values(
            |e: EntryView| e.0,
        ));
    }
    Ok(keys)
}

impl BibCitation {
    /// The value of the field named `field`, if the entry has one.
    pub fn get(&self, field: &str) -> (r: Option<String>)
        ensures
            r matches Some(v) ==> field_value(self@.2, field@) == Some(v@),
            r is None ==> field_value(self@.2, field@) is None,
    {
        let name = field.to_owned();
        let mut i: usize = 0;
        assert(self@.2.skip(0) == self@.2);
        while i < self.fields.len()
            invariant
                i <= self.fields@.len(),
                name@ == field@,
                field_value(self@.2, field@) == field_value(self@.2.skip(i as int), field@),
            decreases self.fields@.len() - i,
        {
            assert(self@.2.skip(i as int).drop_first() == self@.2.skip(i + 1));
            if self.fields[i].0 == name {
                return Some(self.fields[i].1.clone());
            }
            i = i + 1;
        }
        None
    }

    /// Whether the entry has a field named `field`.
    pub fn has_field(&self, field: &str) -> (r: bool)
        ensures
            r == has_field_named(self@.2, field@),
    {
        let name = field.to_owned();
        let mut i: usize = 0;
        while i < self.fields.len()
            invariant
                i <= self.fields@.len(),
                name@ == field@,
                forall|j: int| 0 <= j < i ==> self@.2[j].0 != field@,
            decreases self.fields@.len() - i,
        {
            if self.fields[i].0 == name {
                assert(self@.2[i as int].0 == field@);
                return true;
            }
            i = i + 1;
        }
        false
    }

    /// Whether the entry has a field of every name in `fields`.
    pub fn has_fields(&self, fields: &[&str]) -> (r: bool)
        ensures
            r == forall|i: int| 0 <= i < fields@.len() ==> has_field_named(self@.2, fields@[i]@),
    {
        let mut i: usize = 0;
        while i < fields.len()
            invariant
                i <= fields@.len(),
                forall|j: int| 0 <= j < i ==> has_field_named(self@.2, fields@[j]@),
            decreases fields@.len() - i,
        {
            if !self.has_field(fields[i]) {
                return false;
            }
            i = i + 1;
        }
        true
    }

    /// A copy of the entry.
    pub fn duplicate(&self) -> (r: BibCitation)
        ensures
            r@ == self@,
    {
        let mut fields: Vec<(String, String)> = Vec::new();
        let mut i: usize = 0;
        while i < self.fields.len()
            invariant
                i <= self.fields@.len(),
                fields@.map_values(|f: (String, String)| (f.0@, f.1@)) == self@.2.take(i as int),
            decreases self.fields@.len() - i,
        {
            let ghost prev = fields@;
            let f = (self.fields[i].0.clone(), self.fields[i].1.clone());
            fields.push(f);
            assert(fields@.map_values(|f: (String, String)| (f.0@, f.1@)) =~= prev.map_values(
                |f: (String, String)| (f.0@, f.1@),
            ).push((f.0@, f.1@)));
            assert(self@.2.take(i + 1) =~= self@.2.take(i as int).push(self@.2[i as int]));
            i = i + 1;
        }
        assert(self@.2.take(self@.2.len() as int) == self@.2);
        BibCitation { key: self.key.clone(), entry_type: self.entry_type.clone(), fields }
    }

    /// The name of the entry's type.
    pub fn entry_type(&self) -> (r: String)
        ensures
            r@ == self@.1,
    {
        self.entry_type.clone()
    }
}

} // verus!
