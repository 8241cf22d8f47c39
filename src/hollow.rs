//! Hollow citation collections: the set of keys of one source, and nothing more.

use vstd::prelude::*;
use crate::keys::{
    key_less, key_lt, lemma_key_lt_irreflexive, lemma_key_lt_total, lemma_key_lt_transitive,
    sorted_keys,
};
use crate::bib::{BibCitation, EntryView};
use crate::gather::GatherCitations;
use crate::latex::{Lexeme, Token};
use crate::sources::{
    cited_keys, entry_keys, token_lexemes, Abstract, Bib, CitationSource, LaTeX, Source,
};

verus! {

/// The keys of the citations of source `S`, held in increasing order without repeats.
pub struct HollowCitations<S: Source> {
    data: Vec<String>,
    _source: core::marker::PhantomData<S>,
}

impl<S: Source> View for HollowCitations<S> {
    type V = Seq<Seq<char>>;

    /// The keys in increasing order.
    closed spec fn view(&self) -> Seq<Seq<char>> {
        self.data@.map_values(|k: String| k@)
    }
}

impl<S: Source> HollowCitations<S> {
    /// The keys are held in increasing order.
    pub closed spec fn wf(&self) -> bool {
        sorted_keys(self@)
    }

    /// The set of keys.
    pub open spec fn keys(&self) -> Set<Seq<char>> {
        self@.to_set()
    }

    /// An empty collection.
    pub fn new() -> (r: Self)
        ensures
            r.wf(),
            r.keys() == Set::<Seq<char>>::empty(),
    {
        let r = HollowCitations { data: Vec::new(), _source: core::marker::PhantomData };
        assert(r@ =~= Seq::empty());
        assert(r.keys() =~= Set::empty());
        r
    }

    /// The collection of `keys`, repeats dropped.
    pub fn from_keys(keys: Vec<String>) -> (r: Self)
        ensures
            r.wf(),
            r.keys() == keys@.map_values(|k: String| k@).to_set(),
    {
        let mut r = Self::new();
        let ghost ks = keys@.map_values(|k: String| k@);
        let mut keys = keys;
        let mut n = keys.len();
        while n > 0
            invariant
                n == keys@.len(),
                n <= ks.len(),
                forall|j: int| 0 <= j < n ==> #[trigger] keys@[j]@ == ks[j],
                r.wf(),
                r.keys() == ks.skip(n as int).to_set(),
            decreases n,
        {
            let k = keys.pop().unwrap();
            proof {
                assert(k@ == ks[n - 1]);
                assert(ks.skip(n - 1) =~= seq![k@] + ks.skip(n as int));
                let t = ks.skip(n - 1);
                let u = ks.skip(n as int);
                assert forall|x: Seq<char>| t.to_set().contains(x) <==> u.to_set().insert(k@).contains(x) by {
                    if t.to_set().contains(x) {
                        let i = choose|i: int| 0 <= i < t.len() && #[trigger] t[i] == x;
                        if i > 0 {
                            assert(u[i - 1] == x);
                        }
                    }
                    if u.to_set().contains(x) {
                        let i = choose|i: int| 0 <= i < u.len() && #[trigger] u[i] == x;
                        assert(t[i + 1] == x);
                    }
                    if x == k@ {
                        assert(t[0] == x);
                    }
                }
                assert(t.to_set() =~= u.to_set().insert(k@));
            }
            r.insert(k);
            n = n - 1;
        }
        assert(ks.skip(0) == ks);
        r
    }

    /// Whether `key` is in the collection.
    pub fn contains(&self, key: &String) -> (r: bool)
        ensures
            r == self.keys().contains(key@),
    {
        let mut i: usize = 0;
        while i < self.data.len()
            invariant
                i <= self.data@.len(),
                forall|j: int| 0 <= j < i ==> self@[j] != key@,
            decreases self.data@.len() - i,
        {
            if self.data[i] == *key {
                assert(self@[i as int] == key@);
                return true;
            }
            i = i + 1;
        }
        proof {
            if self.keys().contains(key@) {
                let j = choose|j: int| 0 <= j < self@.len() && self@[j] == key@;
            }
        }
        false
    }

    /// Adds `citation`; returns whether it was not there before.
    pub fn insert(&mut self, citation: String) -> (r: bool)
        requires
            old(self).wf(),
        ensures
            final(self).wf(),
            final(self).keys() == old(self).keys().insert(citation@),
            r == !old(self).keys().contains(citation@),
    {
        let ghost s = self@;
        let ghost c = citation@;
        let mut p: usize = 0;
        while p < self.data.len()
            invariant
                p <= self.data@.len(),
                c == citation@,
                self@ == s,
                sorted_keys(s),
                forall|j: int| 0 <= j < p ==> key_lt(#[trigger] s[j], c),
            ensures
                p <= self.data@.len(),
                p < self.data@.len() ==> !key_lt(s[p as int], c),
                forall|j: int| 0 <= j < p ==> key_lt(#[trigger] s[j], c),
            decreases self.data@.len() - p,
        {
            assert(s[p as int] == self.data@[p as int]@);
            if !key_less(self.data[p].as_str(), citation.as_str()) {
                break;
            }
            p = p + 1;
        }
        if p < self.data.len() && self.data[p] == citation {
            proof {
                assert(s[p as int] == c);
                assert(s.to_set().contains(c));
                assert(s.to_set().insert(c) =~= s.to_set());
            }
            return false;
        }
        proof {
            if p < s.len() {
                assert(s[p as int] == self.data@[p as int]@);
                assert(!key_lt(s[p as int], c));
                assert(s[p as int] != c);
            }
            assert forall|j: int| p <= j < s.len() implies key_lt(c, #[trigger] s[j]) by {
                lemma_key_lt_total(s[p as int], c);
                if j > p {
                    lemma_key_lt_transitive(c, s[p as int], s[j]);
                }
            }
            assert forall|j: int| 0 <= j < s.len() implies s[j] != c by {
                lemma_key_lt_irreflexive(c);
            }
        }
        self.data.insert(p, citation);
        proof {
            let t = s.insert(p as int, c);
            assert(self@ =~= t);
            assert forall|i: int, j: int| 0 <= i < j < t.len() implies key_lt(
                #[trigger] t[i],
                #[trigger] t[j],
            ) by {
                if i < p && j > p {
                    lemma_key_lt_transitive(t[i], c, t[j]);
                }
            }
            lemma_insert_to_set(s, p as int, c);
        }
        true
    }

    /// The keys of this collection that are not in `other`. The result belongs to no single
    /// source.
    pub fn difference<R: Source>(&self, other: HollowCitations<R>) -> (r: HollowCitations<
        Abstract,
    >)
        requires
            self.wf(),
        ensures
            r.wf(),
            r.keys() == self.keys().difference(other.keys()),
    {
        let mut r = HollowCitations::<Abstract>::new();
        let mut i: usize = 0;
        while i < self.data.len()
            invariant
                i <= self.data@.len(),
                r.wf(),
                r.keys() == self@.take(i as int).to_set().difference(other.keys()),
            decreases self.data@.len() - i,
        {
            let ghost before = self@.take(i as int);
            assert(self@[i as int] == self.data@[i as int]@);
            if !other.contains(&self.data[i]) {
                r.insert(self.data[i].clone());
            }
            proof {
                assert(self@.take(i + 1) == before.push(self@[i as int]));
                before.lemma_push_to_set_commute(self@[i as int]);
            }
            i = i + 1;
        }
        assert(self@.take(self@.len() as int) == self@);
        r
    }

    /// The keys in increasing order.
    pub fn list_sorted(&self) -> (r: Vec<String>)
        requires
            self.wf(),
        ensures
            sorted_keys(r@.map_values(|k: String| k@)),
            r@.map_values(|k: String| k@).to_set() == self.keys(),
    {
        let mut r: Vec<String> = Vec::new();
        let mut i: usize = 0;
        while i < self.data.len()
            invariant
                i <= self.data@.len(),
                r@.map_values(|k: String| k@) == self@.take(i as int),
            decreases self.data@.len() - i,
        {
            let ghost prev = r@;
            let k = self.data[i].clone();
            r.push(k);
            assert(r@ == prev.push(k));
            assert(r@.map_values(|k: String| k@) =~= prev.map_values(|k: String| k@).push(k@));
            assert(self@.take(i + 1) =~= self@.take(i as int).push(self@[i as int]));
            i = i + 1;
        }
        assert(self@.take(self@.len() as int) == self@);
        r
    }
}

impl GatherCitations for HollowCitations<LaTeX> {
    open spec fn can_gather(src: &CitationSource) -> bool {
        src.latex is Some
    }

    /// The keys that the document cites.
    open spec fn gathered(src: &CitationSource, r: &Self) -> bool {
        &&& r.wf()
        &&& r.keys() == cited_keys(token_lexemes(src.latex->0@))
    }

    fn gather(src: &CitationSource) -> (r: Self) {
        let tokens = match &src.latex {
            Some(t) => t,
            None => {
                return HollowCitations::new();
            },
        };
        let mut r = HollowCitations::<LaTeX>::new();
        let mut i: usize = 0;
        while i < tokens.len()
            invariant
                i <= tokens@.len(),
                r.wf(),
                r.keys() == cited_keys(token_lexemes(tokens@.take(i as int))),
            decreases tokens@.len() - i,
        {
            let ghost prev = tokens@.take(i as int);
            proof {
                assert(tokens@.take(i + 1) == prev.push(tokens@[i as int]));
                assert(token_lexemes(tokens@.take(i + 1)) =~= token_lexemes(prev).push(
                    tokens@[i as int].lexeme(),
                ));
            }
            match &tokens[i] {
                Token::Citation(c) => {
                    r.insert(c.key.clone());
                    proof {
                        lemma_cited_keys_push(token_lexemes(prev), tokens@[i as int].lexeme());
                    }
                },
                Token::Other => {
                    proof {
                        lemma_cited_keys_push(token_lexemes(prev), tokens@[i as int].lexeme());
                    }
                },
            }
            i = i + 1;
        }
        assert(tokens@.take(tokens@.len() as int) == tokens@);
        r
    }
}

impl GatherCitations for HollowCitations<Bib> {
    open spec fn can_gather(src: &CitationSource) -> bool {
        src.bib is Some
    }

    /// The keys that the bibliography defines.
    open spec fn gathered(src: &CitationSource, r: &Self) -> bool {
        &&& r.wf()
        &&& r.keys() == entry_keys(src.bib->0@.map_values(|c: BibCitation| c@))
    }

    fn gather(src: &CitationSource) -> (r: Self) {
        let entries = match &src.bib {
            Some(b) => b,
            None => {
                return HollowCitations::new();
            },
        };
        let mut keys: Vec<String> = Vec::new();
        let mut i: usize = 0;
        while i < entries.len()
            invariant
                i <= entries@.len(),
                keys@.map_values(|k: String| k@) == entries@.take(i as int).map_values(
                    |c: BibCitation| c@,
                ).map_values(|e: EntryView| e.0),
            decreases entries@.len() - i,
        {
            let ghost prev = keys@;
            let k = entries[i].key.clone();
            keys.push(k);
            proof {
                assert(keys@.map_values(|k: String| k@) =~= prev.map_values(|k: String| k@).push(
                    k@,
                ));
                assert(entries@.take(i + 1).map_values(|c: BibCitation| c@).map_values(
                    |e: EntryView| e.0,
                ) =~= entries@.take(i as int).map_values(|c: BibCitation| c@).map_values(
                    |e: EntryView| e.0,
                ).push(entries@[i as int]@.0));
            }
            i = i + 1;
        }
        assert(entries@.take(entries@.len() as int) == entries@);
        Self::from_keys(keys)
    }
}

proof fn lemma_cited_keys_push(ls: Seq<Lexeme>, x: Lexeme)
    ensures
        cited_keys(ls.push(x)) == match x {
            Lexeme::Cite(k, _) => cited_keys(ls).insert(k),
            _ => cited_keys(ls),
        },
{
    let t = ls.push(x);
    assert forall|k: Seq<char>| cited_keys(t).contains(k) <==> (match x {
        Lexeme::Cite(key, _) => cited_keys(ls).insert(key),
        _ => cited_keys(ls),
    }).contains(k) by {
        if cited_keys(t).contains(k) {
            let i = choose|i: int| 0 <= i < t.len() && #[trigger] t[i] is Cite && t[i]->Cite_0 == k;
            if i < ls.len() {
                assert(ls[i] == t[i]);
            }
        }
        if cited_keys(ls).contains(k) {
            let i = choose|i: int| 0 <= i < ls.len() && #[trigger] ls[i] is Cite && ls[i]->Cite_0 == k;
            assert(t[i] == ls[i]);
        }
        if x is Cite && x->Cite_0 == k {
            assert(t[ls.len() as int] == x);
        }
    }
    assert(cited_keys(t) =~= match x {
        Lexeme::Cite(k, _) => cited_keys(ls).insert(k),
        _ => cited_keys(ls),
    });
}

proof fn lemma_insert_to_set(s: Seq<Seq<char>>, p: int, c: Seq<char>)
    requires
        0 <= p <= s.len(),
    ensures
        s.insert(p, c).to_set() == s.to_set().insert(c),
{
    let t = s.insert(p, c);
    assert forall|x: Seq<char>| t.to_set().contains(x) <==> s.to_set().insert(c).contains(x) by {
        if t.to_set().contains(x) {
            let i = choose|i: int| 0 <= i < t.len() && t[i] == x;
            if i < p {
                assert(s[i] == x);
            } else if i > p {
                assert(s[i - 1] == x);
            }
        }
        if s.to_set().contains(x) {
            let i = choose|i: int| 0 <= i < s.len() && s[i] == x;
            if i < p {
                assert(t[i] == x);
            } else {
                assert(t[i + 1] == x);
            }
        }
        if x == c {
            assert(t[p] == x);
        }
    }
    assert(t.to_set() =~= s.to_set().insert(c));
}

} // verus!
