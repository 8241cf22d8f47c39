//! Cross-references inside a bibliography, read from its raw form before biblatex resolves
//! them: `crossref` and `xdata` name other entries, `ids` gives an entry more names, and
//! `@string` abbreviations use one another. biblatex follows these links without a guard,
//! so a bibliography is only handed to it when they cannot loop.

use vstd::prelude::*;
use biblatex::{Field, Pair, RawBibliography, RawChunk};
use crate::graph::{acyclic, is_acyclic};
use crate::text::{
    chars_of, find_char, index_of, is_white, is_white_char, lemma_index_of_bounds, string_of_range,
};

verus! {

/// A piece of a raw field value: literal text, or the use of an abbreviation.
pub enum RawPiece {
    Text(String),
    Abbr(String),
}

/// A raw field, or an abbreviation's definition: its name and the pieces of its value.
pub struct RawField {
    pub name: String,
    pub value: Vec<RawPiece>,
}

/// A raw entry: its key and fields.
pub struct EntryOutline {
    pub key: String,
    pub fields: Vec<RawField>,
}

/// A bibliography before abbreviations and cross-references are resolved.
pub struct BibOutline {
    pub abbreviations: Vec<RawField>,
    pub entries: Vec<EntryOutline>,
}

pub enum PieceView {
    Text(Seq<char>),
    Abbr(Seq<char>),
}

pub type FieldView = (Seq<char>, Seq<PieceView>);

pub type EntryOutlineView = (Seq<char>, Seq<FieldView>);

/// Abbreviation definitions, then entries.
pub type OutlineView = (Seq<FieldView>, Seq<EntryOutlineView>);

impl View for RawPiece {
    type V = PieceView;

    open spec fn view(&self) -> PieceView {
        match self {
            RawPiece::Text(s) => PieceView::Text(s@),
            RawPiece::Abbr(s) => PieceView::Abbr(s@),
        }
    }
}

impl View for RawField {
    type V = FieldView;

    open spec fn view(&self) -> FieldView {
        (self.name@, self.value@.map_values(|p: RawPiece| p@))
    }
}

impl View for EntryOutline {
    type V = EntryOutlineView;

    open spec fn view(&self) -> EntryOutlineView {
        (self.key@, self.fields@.map_values(|f: RawField| f@))
    }
}

impl View for BibOutline {
    type V = OutlineView;

    open spec fn view(&self) -> OutlineView {
        (
            self.abbreviations@.map_values(|f: RawField| f@),
            self.entries@.map_values(|e: EntryOutline| e@),
        )
    }
}

/// What biblatex's `RawBibliography::parse` finds in `src`, or `None` when it rejects `src`.
pub uninterp spec fn raw_outline(src: Seq<char>) -> Option<OutlineView>;

/// Relies on biblatex's `RawBibliography::parse`, which fails on text it cannot parse and
/// otherwise gives the `@string` definitions and the entries in the order of the source,
/// each field with the pieces of its value.
#[verifier::external_body]
pub(crate) fn parse_outline(src: &str) -> (r: Result<BibOutline, biblatex::ParseError>)
    ensures
        r is Ok <==> raw_outline(src@) is Some,
        r matches Ok(o) ==> o@ == raw_outline(src@)->0,
{
    let raw = RawBibliography::parse(src)?;
    let pieces = |f: &Field| f.iter().map(|c| match c.v {
        RawChunk::Normal(s) => RawPiece::Text(s.into()),
        RawChunk::Abbreviation(s) => RawPiece::Abbr(s.into()),
    }).collect();
    let pairs = |ps: &[Pair]| ps.iter().map(|p| RawField { name: p.key.v.into(), value: pieces(&p.value.v) }).collect();
    Ok(BibOutline {
        abbreviations: pairs(&raw.abbreviations),
        entries: raw.entries.iter().map(|e| EntryOutline { key: e.v.key.v.into(), fields: pairs(&e.v.fields) }).collect(),
    })
}

pub open spec fn crossref_word() -> Seq<char> {
    seq!['c', 'r', 'o', 's', 's', 'r', 'e', 'f']
}

pub open spec fn xdata_word() -> Seq<char> {
    seq!['x', 'd', 'a', 't', 'a']
}

pub open spec fn ids_word() -> Seq<char> {
    seq!['i', 'd', 's']
}

/// Character `a` of a field name stands for `w` once ASCII letters are lowercased, as
/// biblatex lowercases field names.
pub open spec fn lower_matches(a: char, w: char) -> bool {
    a == w || ('A' <= a <= 'Z' && a as u32 + 32 == w as u32)
}

/// Field name `name` is `word`, in any ASCII case.
pub open spec fn named(name: Seq<char>, word: Seq<char>) -> bool {
    name.len() == word.len() && forall|q: int| 0 <= q < name.len() ==> lower_matches(name[q], word[q])
}

pub open spec fn is_link_field(name: Seq<char>) -> bool {
    named(name, crossref_word()) || named(name, xdata_word()) || named(name, ids_word())
}

pub open spec fn is_list_field(name: Seq<char>) -> bool {
    named(name, xdata_word()) || named(name, ids_word())
}

/// A character that biblatex's field parser keeps as it is: anything but whitespace, a
/// backslash, a dollar sign and a brace. (A hyphen is kept too, unless another follows it.)
pub open spec fn plain_char(c: char) -> bool {
    !is_white(c) && c != '\\' && c != '$' && c != '{' && c != '}'
}

/// Text whose parsed value is the text itself: plain characters, no double hyphen, and in a
/// list commas, each followed by at most one space.
pub open spec fn plain_text(t: Seq<char>, list: bool) -> bool {
    forall|q: int|
        0 <= q < t.len() ==> {
            &&& plain_char(t[q]) || (list && t[q] == ',') || (list && t[q] == ' ' && q > 0 && t[q
                - 1] == ',')
            &&& t[q] == '-' ==> !(q + 1 < t.len() && t[q + 1] == '-')
        }
}

/// A field whose value is one piece of plain text.
pub open spec fn plain_field(f: FieldView) -> bool {
    &&& f.1.len() == 1
    &&& f.1[0] is Text
    &&& plain_text(f.1[0]->Text_0, is_list_field(f.0))
}

/// Every cross-reference field of every entry is plain.
pub open spec fn links_plain(es: Seq<EntryOutlineView>) -> bool {
    forall|i: int, k: int|
        0 <= i < es.len() && 0 <= k < es[i].1.len() && is_link_field(#[trigger] es[i].1[k].0)
            ==> plain_field(es[i].1[k])
}

/// The items of a list from position `j` on, split at commas, a space after a comma dropped.
pub open spec fn list_items_from(t: Seq<char>, j: int) -> Seq<Seq<char>>
    decreases t.len() - j,
{
    if j < 0 || j > t.len() {
        Seq::empty()
    } else {
        let e = index_of(t, ',', j);
        let piece = t.subrange(j, e);
        let item = if piece.len() > 0 && piece[0] == ' ' {
            piece.drop_first()
        } else {
            piece
        };
        if e < t.len() {
            proof {
                lemma_index_of_bounds(t, ',', j);
            }
            seq![item] + list_items_from(t, e + 1)
        } else {
            seq![item]
        }
    }
}

/// The entries that a plain field names: the one of `crossref`, the items of `xdata`.
pub open spec fn field_targets(f: FieldView) -> Seq<Seq<char>> {
    if named(f.0, crossref_word()) {
        seq![f.1[0]->Text_0]
    } else if named(f.0, xdata_word()) {
        list_items_from(f.1[0]->Text_0, 0)
    } else {
        Seq::empty()
    }
}

/// The other names that a plain field gives its entry: the items of `ids`.
pub open spec fn field_aliases(f: FieldView) -> Seq<Seq<char>> {
    if named(f.0, ids_word()) {
        list_items_from(f.1[0]->Text_0, 0)
    } else {
        Seq::empty()
    }
}

/// The entries that fields name, in order.
pub open spec fn targets_of(fs: Seq<FieldView>) -> Seq<Seq<char>>
    decreases fs.len(),
{
    if fs.len() == 0 {
        Seq::empty()
    } else {
        targets_of(fs.drop_last()) + field_targets(fs.last())
    }
}

/// The other names that fields give, in order.
pub open spec fn aliases_of(fs: Seq<FieldView>) -> Seq<Seq<char>>
    decreases fs.len(),
{
    if fs.len() == 0 {
        Seq::empty()
    } else {
        aliases_of(fs.drop_last()) + field_aliases(fs.last())
    }
}

/// The names that an entry answers to.
pub open spec fn names_of(e: EntryOutlineView) -> Seq<Seq<char>> {
    seq![e.0] + aliases_of(e.1)
}

/// Some name is in both `a` and `b`.
pub open spec fn share(a: Seq<Seq<char>>, b: Seq<Seq<char>>) -> bool {
    exists|t: Seq<char>| a.contains(t) && #[trigger] b.contains(t)
}

/// Entry `i` may draw on entry `j`: one of the names that `i` refers to is a name of `j`.
pub open spec fn entry_edge(es: Seq<EntryOutlineView>, i: int, j: int) -> bool {
    share(targets_of(es[i].1), names_of(es[j]))
}

/// Abbreviation definition `i` uses the name that definition `j` defines.
pub open spec fn abbr_edge(abbrs: Seq<FieldView>, i: int, j: int) -> bool {
    abbrs[i].1.contains(PieceView::Abbr(abbrs[j].0))
}

pub open spec fn date_word() -> Seq<char> {
    seq!['d', 'a', 't', 'e']
}

pub open spec fn year_word() -> Seq<char> {
    seq!['y', 'e', 'a', 'r']
}

pub open spec fn month_word() -> Seq<char> {
    seq!['m', 'o', 'n', 't', 'h']
}

/// A month that biblatex reads without fault: a name of letters, or a number of one or two
/// ASCII digits that is not zero.
pub open spec fn month_text_ok(t: Seq<char>) -> bool {
    ||| t.len() > 0 && forall|q: int| 0 <= q < t.len() ==> crate::text::is_letter(#[trigger] t[q])
    ||| {
        &&& 1 <= t.len() <= 2
        &&& forall|q: int| 0 <= q < t.len() ==> '0' <= #[trigger] t[q] <= '9'
        &&& exists|q: int| 0 <= q < t.len() && #[trigger] t[q] != '0'
    }
}

/// A field of an entry that another draws on, as far as dates go: no `date` field, whose
/// parser is not used here, a plain `year`, and a `month` that reads without fault.
pub open spec fn date_safe_field(f: FieldView) -> bool {
    &&& !named(f.0, date_word())
    &&& named(f.0, year_word()) ==> plain_field(f)
    &&& named(f.0, month_word()) ==> f.1.len() == 1 && f.1[0] is Text && month_text_ok(
        f.1[0]->Text_0,
    )
}

/// The date fields of an entry can be read without fault when another entry inherits its date.
pub open spec fn date_safe(e: EntryOutlineView) -> bool {
    forall|k: int| 0 <= k < e.1.len() ==> date_safe_field(#[trigger] e.1[k])
}

/// Every entry that some entry may draw on has date fields that read without fault.
pub open spec fn targets_date_safe(es: Seq<EntryOutlineView>) -> bool {
    forall|i: int, j: int|
        0 <= i < es.len() && 0 <= j < es.len() && #[trigger] entry_graph(es)(i, j) ==> date_safe(es[j])
}

/// The links of the outline are safe to resolve: cross-reference fields are plain, neither
/// entries nor abbreviations refer to one another in a cycle, and the dates that entries
/// inherit read without fault.
pub open spec fn links_safe(o: OutlineView) -> bool {
    &&& links_plain(o.1)
    &&& acyclic(o.1.len() as int, entry_graph(o.1))
    &&& targets_date_safe(o.1)
    &&& acyclic(o.0.len() as int, abbr_graph(o.0))
}

/// The graph of [`entry_edge`].
pub open spec fn entry_graph(es: Seq<EntryOutlineView>) -> spec_fn(int, int) -> bool {
    |i: int, j: int| entry_edge(es, i, j)
}

/// The graph of [`abbr_edge`].
pub open spec fn abbr_graph(abbrs: Seq<FieldView>) -> spec_fn(int, int) -> bool {
    |i: int, j: int| abbr_edge(abbrs, i, j)
}

/// Whether field name `name` is `word` in any ASCII case.
fn is_named(name: &String, word: &str) -> (r: bool)
    ensures
        r == named(name@, word@),
{
    let a = chars_of(name.as_str());
    let w = chars_of(word);
    if a.len() != w.len() {
        return false;
    }
    let mut q: usize = 0;
    while q < a.len()
        invariant
            a@ == name@,
            w@ == word@,
            a@.len() == w@.len(),
            q <= a@.len(),
            forall|p: int| 0 <= p < q ==> lower_matches(a@[p], w@[p]),
        decreases a@.len() - q,
    {
        let c = a[q];
        let d = w[q];
        if !(c == d || ('A' <= c && c <= 'Z' && (c as u32) + 32 == d as u32)) {
            return false;
        }
        q = q + 1;
    }
    true
}

/// Which of `crossref`, `xdata` and `ids` the field name `name` is.
fn link_kind(name: &String) -> (r: (bool, bool, bool))
    ensures
        r.0 == named(name@, crossref_word()),
        r.1 == named(name@, xdata_word()),
        r.2 == named(name@, ids_word()),
{
    proof {
        reveal_strlit("crossref");
        reveal_strlit("xdata");
        reveal_strlit("ids");
        assert("crossref"@ =~= crossref_word());
        assert("xdata"@ =~= xdata_word());
        assert("ids"@ =~= ids_word());
    }
    (is_named(name, "crossref"), is_named(name, "xdata"), is_named(name, "ids"))
}

fn is_plain_char(c: char) -> (r: bool)
    ensures
        r == plain_char(c),
{
    !is_white_char(c) && c != '\\' && c != '$' && c != '{' && c != '}'
}

/// Whether `t` is plain text, in a list when `list` holds.
fn is_plain_text(t: &String, list: bool) -> (r: bool)
    ensures
        r == plain_text(t@, list),
{
    let v = chars_of(t.as_str());
    let n = v.len();
    let mut q: usize = 0;
    while q < n
        invariant
            v@ == t@,
            n == v@.len(),
            q <= n,
            forall|p: int|
                0 <= p < q ==> {
                    &&& plain_char(v@[p]) || (list && v@[p] == ',') || (list && v@[p] == ' ' && p
                        > 0 && v@[p - 1] == ',')
                    &&& v@[p] == '-' ==> !(p + 1 < v@.len() && v@[p + 1] == '-')
                },
        decreases n - q,
    {
        let c = v[q];
        let ok = is_plain_char(c) || (list && c == ',') || (list && c == ' ' && q > 0 && v[q
            - 1] == ',');
        if !ok {
            return false;
        }
        if c == '-' && q + 1 < n && v[q + 1] == '-' {
            return false;
        }
        q = q + 1;
    }
    true
}

/// Whether field `f` is plain, in a list when `list` holds.
fn is_plain_field(f: &RawField, list: bool) -> (r: bool)
    requires
        list == is_list_field(f@.0),
    ensures
        r == plain_field(f@),
{
    if f.value.len() != 1 {
        return false;
    }
    match &f.value[0] {
        RawPiece::Text(t) => is_plain_text(t, list),
        RawPiece::Abbr(_) => false,
    }
}

/// The items of list `t`.
fn list_items(t: &String) -> (r: Vec<String>)
    ensures
        r@.map_values(|k: String| k@) == list_items_from(t@, 0),
{
    let v = chars_of(t.as_str());
    let mut r: Vec<String> = Vec::new();
    let mut j: usize = 0;
    let mut done = false;
    while !done
        invariant
            v@ == t@,
            j <= v@.len(),
            !done ==> list_items_from(v@, 0) == r@.map_values(|k: String| k@) + list_items_from(
                v@,
                j as int,
            ),
            done ==> list_items_from(v@, 0) == r@.map_values(|k: String| k@),
        decreases v@.len() - j + if done { 0int } else { 1int },
    {
        let e = find_char(&v, ',', j);
        let a = if e > j && v[j] == ' ' {
            j + 1
        } else {
            j
        };
        let ghost before = r@.map_values(|k: String| k@);
        let item = string_of_range(&v, a, e);
        proof {
            let piece = v@.subrange(j as int, e as int);
            if piece.len() > 0 && piece[0] == ' ' {
                assert(piece.drop_first() =~= v@.subrange(a as int, e as int));
            } else {
                assert(piece =~= v@.subrange(a as int, e as int));
            }
        }
        r.push(item);
        assert(r@.map_values(|k: String| k@) =~= before.push(item@));
        if e < v.len() {
            j = e + 1;
        } else {
            done = true;
        }
    }
    r
}

/// Appends the views of `b` to `a`.
fn extend(a: &mut Vec<String>, b: Vec<String>)
    ensures
        final(a)@.map_values(|k: String| k@) == old(a)@.map_values(|k: String| k@) + b@.map_values(
            |k: String| k@,
        ),
{
    let mut i: usize = 0;
    while i < b.len()
        invariant
            i <= b@.len(),
            a@.map_values(|k: String| k@) == old(a)@.map_values(|k: String| k@) + b@.take(
                i as int,
            ).map_values(|k: String| k@),
        decreases b@.len() - i,
    {
        let ghost prev = a@.map_values(|k: String| k@);
        let k = b[i].clone();
        a.push(k);
        assert(a@.map_values(|k: String| k@) =~= prev.push(k@));
        assert(b@.take(i + 1).map_values(|k: String| k@) =~= b@.take(i as int).map_values(
            |k: String| k@,
        ).push(b@[i as int]@));
        i = i + 1;
    }
    assert(b@.take(b@.len() as int) == b@);
}

/// The entries that the fields of `e` name (`want_targets`), or the other names they give
/// `e` (otherwise).
fn entry_links(e: &EntryOutline, want_targets: bool) -> (r: Vec<String>)
    requires
        forall|k: int| 0 <= k < e@.1.len() && is_link_field(#[trigger] e@.1[k].0) ==> plain_field(e@.1[k]),
    ensures
        want_targets ==> r@.map_values(|k: String| k@) == targets_of(e@.1),
        !want_targets ==> r@.map_values(|k: String| k@) == aliases_of(e@.1),
{
    let mut r: Vec<String> = Vec::new();
    let mut k: usize = 0;
    while k < e.fields.len()
        invariant
            k <= e@.1.len(),
            forall|k: int| 0 <= k < e@.1.len() && is_link_field(#[trigger] e@.1[k].0) ==> plain_field(e@.1[k]),
            want_targets ==> r@.map_values(|k: String| k@) == targets_of(e@.1.take(k as int)),
            !want_targets ==> r@.map_values(|k: String| k@) == aliases_of(e@.1.take(k as int)),
        decreases e@.1.len() - k,
    {
        let f = &e.fields[k];
        assert(f@ == e@.1[k as int]);
        let (cr, xd, ids) = link_kind(&f.name);
        proof {
            if cr || xd || ids {
                assert(is_link_field(e@.1[k as int].0));
                assert(plain_field(e@.1[k as int]));
                assert(f.value@.len() == 1);
            }
        }
        let got: Vec<String> = if want_targets && cr {
            match &f.value[0] {
                RawPiece::Text(t) => {
                    let mut one = Vec::new();
                    one.push(t.clone());
                    assert(one@.map_values(|k: String| k@) =~= seq![t@]);
                    one
                },
                RawPiece::Abbr(_) => Vec::new(),
            }
        } else if (want_targets && xd && !cr) || (!want_targets && ids) {
            match &f.value[0] {
                RawPiece::Text(t) => list_items(t),
                RawPiece::Abbr(_) => Vec::new(),
            }
        } else {
            Vec::new()
        };
        proof {
            assert(e@.1.take(k + 1).drop_last() =~= e@.1.take(k as int));
            assert(e@.1.take(k + 1).last() == f@);
            if !(want_targets && cr) && !((want_targets && xd && !cr) || (!want_targets && ids)) {
                assert(got@.map_values(|k: String| k@) =~= Seq::<Seq<char>>::empty());
            }
        }
        extend(&mut r, got);
        proof {
            let fv = f@;
            if want_targets {
                assert(targets_of(e@.1.take(k + 1)) == targets_of(e@.1.take(k as int)) + field_targets(fv));
            } else {
                assert(aliases_of(e@.1.take(k + 1)) == aliases_of(e@.1.take(k as int)) + field_aliases(fv));
            }
        }
        k = k + 1;
    }
    assert(e@.1.take(e@.1.len() as int) == e@.1);
    r
}

/// Whether `a` and `b` share a name.
fn shares(a: &Vec<String>, b: &Vec<String>) -> (r: bool)
    ensures
        r == share(a@.map_values(|k: String| k@), b@.map_values(|k: String| k@)),
{
    let ghost av = a@.map_values(|k: String| k@);
    let ghost bv = b@.map_values(|k: String| k@);
    let mut i: usize = 0;
    while i < a.len()
        invariant
            i <= a@.len(),
            av == a@.map_values(|k: String| k@),
            bv == b@.map_values(|k: String| k@),
            forall|p: int, q: int| 0 <= p < i && 0 <= q < bv.len() ==> av[p] != bv[q],
        decreases a@.len() - i,
    {
        let mut j: usize = 0;
        while j < b.len()
            invariant
                i < a@.len(),
                j <= b@.len(),
                av == a@.map_values(|k: String| k@),
                bv == b@.map_values(|k: String| k@),
                forall|q: int| 0 <= q < j ==> av[i as int] != bv[q],
            decreases b@.len() - j,
        {
            if a[i] == b[j] {
                assert(av[i as int] == bv[j as int]);
                assert(av.contains(av[i as int]) && bv.contains(av[i as int]));
                return true;
            }
            j = j + 1;
        }
        i = i + 1;
    }
    proof {
        if share(av, bv) {
            let t = choose|t: Seq<char>| av.contains(t) && #[trigger] bv.contains(t);
            let p = choose|p: int| 0 <= p < av.len() && av[p] == t;
            let q = choose|q: int| 0 <= q < bv.len() && bv[q] == t;
        }
    }
    false
}

/// Whether abbreviation value `v` uses `name`.
fn uses_abbr(v: &Vec<RawPiece>, name: &String) -> (r: bool)
    ensures
        r == v@.map_values(|p: RawPiece| p@).contains(PieceView::Abbr(name@)),
{
    let ghost vv = v@.map_values(|p: RawPiece| p@);
    let mut i: usize = 0;
    while i < v.len()
        invariant
            i <= v@.len(),
            vv == v@.map_values(|p: RawPiece| p@),
            forall|p: int| 0 <= p < i ==> vv[p] != PieceView::Abbr(name@),
        decreases v@.len() - i,
    {
        match &v[i] {
            RawPiece::Abbr(s) => {
                if *s == *name {
                    assert(vv[i as int] == PieceView::Abbr(name@));
                    return true;
                }
            },
            RawPiece::Text(_) => {},
        }
        i = i + 1;
    }
    false
}

/// Whether every cross-reference field of `o` is plain.
fn all_links_plain(o: &BibOutline) -> (r: bool)
    ensures
        r == links_plain(o@.1),
{
    let ghost es = o@.1;
    let mut i: usize = 0;
    while i < o.entries.len()
        invariant
            i <= o.entries@.len(),
            es == o@.1,
            forall|a: int, k: int|
                0 <= a < i && 0 <= k < es[a].1.len() && is_link_field(#[trigger] es[a].1[k].0)
                    ==> plain_field(es[a].1[k]),
        decreases o.entries@.len() - i,
    {
        let e = &o.entries[i];
        assert(e@ == es[i as int]);
        let mut k: usize = 0;
        while k < e.fields.len()
            invariant
                i < o.entries@.len(),
                es == o@.1,
                e@ == es[i as int],
                k <= e@.1.len(),
                forall|a: int, k: int|
                    0 <= a < i && 0 <= k < es[a].1.len() && is_link_field(#[trigger] es[a].1[k].0)
                        ==> plain_field(es[a].1[k]),
                forall|q: int|
                    0 <= q < k && is_link_field(#[trigger] es[i as int].1[q].0) ==> plain_field(
                        es[i as int].1[q],
                    ),
            decreases e@.1.len() - k,
        {
            let f = &e.fields[k];
            assert(f@ == es[i as int].1[k as int]);
            let (cr, xd, ids) = link_kind(&f.name);
            if (cr || xd || ids) && !is_plain_field(f, xd || ids) {
                assert(is_link_field(es[i as int].1[k as int].0));
                assert(!plain_field(es[i as int].1[k as int]));
                return false;
            }
            k = k + 1;
        }
        i = i + 1;
    }
    true
}

/// Whether the links of `o` cannot loop when biblatex resolves them.
pub fn links_resolvable(o: &BibOutline) -> (r: bool)
    ensures
        r == links_safe(o@),
{
    if !all_links_plain(o) {
        return false;
    }
    let ghost es = o@.1;
    let n = o.entries.len();
    let mut targets: Vec<Vec<String>> = Vec::new();
    let mut names: Vec<Vec<String>> = Vec::new();
    let mut i: usize = 0;
    while i < n
        invariant
            n == es.len(),
            es == o@.1,
            links_plain(es),
            i <= n,
            targets@.len() == i,
            names@.len() == i,
            forall|a: int| 0 <= a < i ==> (#[trigger] targets@[a])@.map_values(|k: String| k@) == targets_of(es[a].1),
            forall|a: int| 0 <= a < i ==> (#[trigger] names@[a])@.map_values(|k: String| k@) == names_of(es[a]),
        decreases n - i,
    {
        let e = &o.entries[i];
        assert(e@ == es[i as int]);
        let t = entry_links(e, true);
        let aliases = entry_links(e, false);
        let mut nm: Vec<String> = Vec::new();
        nm.push(e.key.clone());
        assert(nm@.map_values(|k: String| k@) =~= seq![e@.0]);
        extend(&mut nm, aliases);
        targets.push(t);
        names.push(nm);
        i = i + 1;
    }
    let mut adj: Vec<Vec<usize>> = Vec::new();
    let mut i: usize = 0;
    while i < n
        invariant
            n == es.len(),
            es == o@.1,
            i <= n,
            targets@.len() == n,
            names@.len() == n,
            forall|a: int| 0 <= a < n ==> (#[trigger] targets@[a])@.map_values(|k: String| k@) == targets_of(es[a].1),
            forall|a: int| 0 <= a < n ==> (#[trigger] names@[a])@.map_values(|k: String| k@) == names_of(es[a]),
            adj@.len() == i,
            forall|a: int, k: int| 0 <= a < i && 0 <= k < adj@[a]@.len() ==> #[trigger] adj@[a]@[k] < n,
            forall|a: int, b: int|
                0 <= a < i && 0 <= b < n ==> (#[trigger] entry_graph(es)(a, b) <==> adj@[a]@.contains(b as usize)),
        decreases n - i,
    {
        let mut row: Vec<usize> = Vec::new();
        let mut j: usize = 0;
        while j < n
            invariant
                n == es.len(),
                i < n,
                j <= n,
                targets@.len() == n,
                names@.len() == n,
                forall|a: int| 0 <= a < n ==> (#[trigger] targets@[a])@.map_values(|k: String| k@) == targets_of(es[a].1),
                forall|a: int| 0 <= a < n ==> (#[trigger] names@[a])@.map_values(|k: String| k@) == names_of(es[a]),
                forall|k: int| 0 <= k < row@.len() ==> #[trigger] row@[k] < j,
                forall|b: int| 0 <= b < j ==> (#[trigger] entry_graph(es)(i as int, b) <==> row@.contains(b as usize)),
            decreases n - j,
        {
            let ghost before = row@;
            if shares(&targets[i], &names[j]) {
                row.push(j);
                assert(row@[before.len() as int] == j);
            }
            proof {
                assert forall|b: int| 0 <= b < j + 1 implies (#[trigger] entry_graph(es)(i as int, b)
                    <==> row@.contains(b as usize)) by {
                    if b < j {
                        if before.contains(b as usize) {
                            let k = choose|k: int| 0 <= k < before.len() && before[k] == b as usize;
                            assert(row@[k] == b as usize);
                        }
                        if row@.contains(b as usize) {
                            let k = choose|k: int| 0 <= k < row@.len() && row@[k] == b as usize;
                            if k < before.len() {
                                assert(before[k] == b as usize);
                            }
                        }
                    } else {
                        if row@.contains(b as usize) && row@.len() == before.len() {
                            let k = choose|k: int| 0 <= k < row@.len() && row@[k] == b as usize;
                        }
                    }
                }
            }
            j = j + 1;
        }
        adj.push(row);
        i = i + 1;
    }
    if !is_acyclic(&adj, Ghost(entry_graph(es))) {
        return false;
    }
    let mut j: usize = 0;
    while j < n
        invariant
            n == es.len(),
            es == o@.1,
            j <= n,
            adj@.len() == n,
            forall|a: int, b: int|
                0 <= a < n && 0 <= b < n ==> (#[trigger] entry_graph(es)(a, b) <==> adj@[a]@.contains(b as usize)),
            forall|a: int, b: int|
                0 <= a < n && 0 <= b < j && #[trigger] entry_graph(es)(a, b) ==> date_safe(es[b]),
        decreases n - j,
    {
        assert(o.entries@[j as int]@ == es[j as int]);
        if !entry_dates_safe(&o.entries[j]) {
            let mut a: usize = 0;
            while a < n
                invariant
                    n == es.len(),
                    j < n,
                    a <= n,
                    adj@.len() == n,
                    forall|a: int, b: int|
                        0 <= a < n && 0 <= b < n ==> (#[trigger] entry_graph(es)(a, b) <==> adj@[a]@.contains(b as usize)),
                    forall|p: int| 0 <= p < a ==> !(#[trigger] entry_graph(es)(p, j as int)),
                    !date_safe(es[j as int]),
                    es == o@.1,
                decreases n - a,
            {
                if contains_index(&adj[a], j) {
                    assert(entry_graph(es)(a as int, j as int));
                    assert(!targets_date_safe(es));
                    return false;
                }
                a = a + 1;
            }
        }
        j = j + 1;
    }
    let ghost ab = o@.0;
    let m = o.abbreviations.len();
    let mut adj2: Vec<Vec<usize>> = Vec::new();
    let mut i: usize = 0;
    while i < m
        invariant
            m == ab.len(),
            ab == o@.0,
            i <= m,
            adj2@.len() == i,
            forall|a: int, k: int| 0 <= a < i && 0 <= k < adj2@[a]@.len() ==> #[trigger] adj2@[a]@[k] < m,
            forall|a: int, b: int|
                0 <= a < i && 0 <= b < m ==> (#[trigger] abbr_graph(ab)(a, b) <==> adj2@[a]@.contains(b as usize)),
        decreases m - i,
    {
        let mut row: Vec<usize> = Vec::new();
        let mut j: usize = 0;
        while j < m
            invariant
                m == ab.len(),
                ab == o@.0,
                i < m,
                j <= m,
                forall|k: int| 0 <= k < row@.len() ==> #[trigger] row@[k] < j,
                forall|b: int| 0 <= b < j ==> (#[trigger] abbr_graph(ab)(i as int, b) <==> row@.contains(b as usize)),
            decreases m - j,
        {
            let ghost before = row@;
            assert(o.abbreviations@[i as int]@ == ab[i as int]);
            assert(o.abbreviations@[j as int]@ == ab[j as int]);
            if uses_abbr(&o.abbreviations[i].value, &o.abbreviations[j].name) {
                row.push(j);
                assert(row@[before.len() as int] == j);
            }
            proof {
                assert forall|b: int| 0 <= b < j + 1 implies (#[trigger] abbr_graph(ab)(i as int, b)
                    <==> row@.contains(b as usize)) by {
                    if b < j {
                        if before.contains(b as usize) {
                            let k = choose|k: int| 0 <= k < before.len() && before[k] == b as usize;
                            assert(row@[k] == b as usize);
                        }
                        if row@.contains(b as usize) {
                            let k = choose|k: int| 0 <= k < row@.len() && row@[k] == b as usize;
                            if k < before.len() {
                                assert(before[k] == b as usize);
                            }
                        }
                    } else {
                        if row@.contains(b as usize) && row@.len() == before.len() {
                            let k = choose|k: int| 0 <= k < row@.len() && row@[k] == b as usize;
                        }
                    }
                }
            }
            j = j + 1;
        }
        adj2.push(row);
        i = i + 1;
    }
    is_acyclic(&adj2, Ghost(abbr_graph(ab)))
}

/// Whether `v` holds `x`.
fn contains_index(v: &Vec<usize>, x: usize) -> (r: bool)
    ensures
        r == v@.contains(x),
{
    let mut i: usize = 0;
    while i < v.len()
        invariant
            i <= v@.len(),
            forall|p: int| 0 <= p < i ==> v@[p] != x,
        decreases v@.len() - i,
    {
        if v[i] == x {
            assert(v@[i as int] == x);
            return true;
        }
        i = i + 1;
    }
    false
}

/// Whether `t` is a month that biblatex reads without fault.
fn is_month_ok(t: &String) -> (r: bool)
    ensures
        r == month_text_ok(t@),
{
    let v = chars_of(t.as_str());
    let n = v.len();
    if n == 0 {
        return false;
    }
    let mut letters = true;
    let mut digits = true;
    let mut nonzero = false;
    let mut q: usize = 0;
    while q < n
        invariant
            v@ == t@,
            n == v@.len(),
            q <= n,
            letters <==> forall|p: int| 0 <= p < q ==> crate::text::is_letter(#[trigger] v@[p]),
            digits <==> forall|p: int| 0 <= p < q ==> '0' <= #[trigger] v@[p] <= '9',
            nonzero <==> exists|p: int| 0 <= p < q && #[trigger] v@[p] != '0',
        decreases n - q,
    {
        let c = v[q];
        if !crate::text::is_letter_char(c) {
            letters = false;
        }
        if !('0' <= c && c <= '9') {
            digits = false;
        }
        if c != '0' {
            nonzero = true;
            assert(v@[q as int] != '0');
        }
        q = q + 1;
    }
    letters || (n <= 2 && digits && nonzero)
}

/// Whether the date fields of `e` read without fault when another entry inherits its date.
fn entry_dates_safe(e: &EntryOutline) -> (r: bool)
    ensures
        r == date_safe(e@),
{
    proof {
        reveal_strlit("date");
        reveal_strlit("year");
        reveal_strlit("month");
        assert("date"@ =~= date_word());
        assert("year"@ =~= year_word());
        assert("month"@ =~= month_word());
    }
    let mut k: usize = 0;
    while k < e.fields.len()
        invariant
            k <= e@.1.len(),
            "date"@ == date_word(),
            "year"@ == year_word(),
            "month"@ == month_word(),
            forall|p: int| 0 <= p < k ==> date_safe_field(#[trigger] e@.1[p]),
        decreases e@.1.len() - k,
    {
        let f = &e.fields[k];
        assert(f@ == e@.1[k as int]);
        if is_named(&f.name, "date") {
            return false;
        }
        if is_named(&f.name, "year") && !is_plain_field(f, false) {
            return false;
        }
        if is_named(&f.name, "month") {
            if f.value.len() != 1 {
                return false;
            }
            match &f.value[0] {
                RawPiece::Text(t) => {
                    if !is_month_ok(t) {
                        return false;
                    }
                },
                RawPiece::Abbr(_) => {
                    return false;
                },
            }
        }
        k = k + 1;
    }
    true
}

} // verus!
