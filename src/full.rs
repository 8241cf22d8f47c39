//! Full citation collections: each key with the record of its source.

use vstd::prelude::*;
use crate::bib::{BibCitation, EntryView};
use crate::gather::GatherCitations;
use crate::hollow::HollowCitations;
use crate::keys::{key_lt, sorted_keys};
use crate::latex::{LaTeXCitation, Token};
use crate::sources::{
    cite_cmds_of, cited_keys, entry_keys, last_entry, token_lexemes, Bib, CitationSource, LaTeX,
    Source,
};

verus! {

/// The citations of source `S`: each key once, in increasing order, with its record.
pub struct Citations<S: Source> {
    keys: Vec<String>,
    values: Vec<S::CitationType>,
}

impl<S: Source> View for Citations<S> {
    type V = Seq<(Seq<char>, S::CitationType)>;

    /// The keys with their records, in increasing order of key.
    closed spec fn view(&self) -> Seq<(Seq<char>, S::CitationType)> {
        Seq::new(self.values@.len(), |i: int| (self.keys@[i]@, self.values@[i]))
    }
}

impl<S: Source> Citations<S> {
    /// Keys and records pair up, and the keys are in increasing order.
    pub closed spec fn wf(&self) -> bool {
        &&& self.keys@.len() == self.values@.len()
        &&& sorted_keys(self.key_seq())
    }

    /// The keys, in increasing order.
    pub open spec fn key_seq(&self) -> Seq<Seq<char>> {
        self@.map_values(|e: (Seq<char>, S::CitationType)| e.0)
    }

    pub proof fn lemma_sorted(&self)
        requires
            self.wf(),
        ensures
            sorted_keys(self.key_seq()),
    {
    }

    fn from_parts(keys: Vec<String>, values: Vec<S::CitationType>) -> (r: Self)
        requires
            keys@.len() == values@.len(),
            sorted_keys(keys@.map_values(|k: String| k@)),
        ensures
            r.wf(),
            r.key_seq() == keys@.map_values(|k: String| k@),
            forall|i: int| 0 <= i < values@.len() ==> #[trigger] r@[i].1 == values@[i],
    {
        let r = Citations { keys, values };
        assert(r.key_seq() =~= keys@.map_values(|k: String| k@));
        r
    }

    /// The records, in increasing order of key.
    pub fn list_sorted(&self) -> (r: Vec<&S::CitationType>)
        requires
            self.wf(),
        ensures
            r@.len() == self@.len(),
            forall|i: int| 0 <= i < r@.len() ==> *r@[i] == #[trigger] self@[i].1,
    {
        let mut r: Vec<&S::CitationType> = Vec::new();
        let mut i: usize = 0;
        while i < self.values.len()
            invariant
                self.wf(),
                i <= self.values@.len(),
                r@.len() == i,
                forall|j: int| 0 <= j < i ==> *r@[j] == #[trigger] self@[j].1,
            decreases self.values@.len() - i,
        {
            r.push(&self.values[i]);
            i = i + 1;
        }
        r
    }

    /// The citations whose record `predicate` accepts, with their keys; the others are
    /// dropped.
    pub fn filter<F: Fn(&S::CitationType) -> bool>(self, predicate: F) -> (r: Self)
        requires
            self.wf(),
            forall|v: &S::CitationType| #[trigger] predicate.requires((v,)),
        ensures
            r.wf(),
            forall|i: int|
                0 <= i < r@.len() ==> self@.contains(#[trigger] r@[i]) && predicate.ensures(
                    (&r@[i].1,),
                    true,
                ),
            forall|j: int|
                0 <= j < self@.len() ==> r@.contains(#[trigger] self@[j]) || predicate.ensures(
                    (&self@[j].1,),
                    false,
                ),
    {
        let ghost all = self@;
        let ghost n = all.len();
        let Citations { mut keys, mut values } = self;
        let mut rk: Vec<String> = Vec::new();
        let mut rv: Vec<S::CitationType> = Vec::new();
        while values.len() > 0
            invariant
                keys@.len() == values@.len(),
                rk@.len() == rv@.len(),
                values@.len() + rv@.len() == n,
                all.len() == n,
                forall|j: int| 0 <= j < values@.len() ==> (keys@[j]@, values@[j]) == #[trigger] all[j],
                forall|j: int|
                    0 <= j < rv@.len() ==> (rk@[j]@, rv@[j]) == #[trigger] all[n - 1 - j],
            decreases values@.len(),
        {
            let v = values.pop().unwrap();
            let k = keys.pop().unwrap();
            rk.push(k);
            rv.push(v);
        }
        let mut ok: Vec<String> = Vec::new();
        let mut ov: Vec<S::CitationType> = Vec::new();
        let ghost mut t: int = 0;
        while rv.len() > 0
            invariant
                rk@.len() == rv@.len(),
                ok@.len() == ov@.len(),
                rv@.len() + t == n,
                0 <= t <= n,
                all.len() == n,
                sorted_keys(all.map_values(|e: (Seq<char>, S::CitationType)| e.0)),
                forall|v: &S::CitationType| #[trigger] predicate.requires((v,)),
                forall|j: int|
                    0 <= j < rv@.len() ==> (rk@[j]@, rv@[j]) == #[trigger] all[n - 1 - j],
                sorted_keys(ok@.map_values(|k: String| k@)),
                forall|i: int| #![trigger ok@[i]]
                    0 <= i < ok@.len() ==> exists|j: int|
                        0 <= j < t && #[trigger] all[j] == (ok@[i]@, ov@[i]) && predicate.ensures(
                            (&all[j].1,),
                            true,
                        ),
                forall|j: int| #![trigger all[j]]
                    0 <= j < t ==> (exists|i: int|
                        0 <= i < ok@.len() && (ok@[i]@, ov@[i]) == #[trigger] all[j])
                        || predicate.ensures((&all[j].1,), false),
            decreases rv@.len(),
        {
            let ghost prv = rv@;
            let ghost prk = rk@;
            assert((prk[prv.len() - 1]@, prv[prv.len() - 1]) == all[n - 1 - (prv.len() - 1)]);
            let v = rv.pop().unwrap();
            let k = rk.pop().unwrap();
            assert((k@, v) == all[t]);
            let keep = predicate(&v);
            if keep {
                proof {
                    let ks = all.map_values(|e: (Seq<char>, S::CitationType)| e.0);
                    let okv = ok@.map_values(|k: String| k@);
                    assert forall|i: int| 0 <= i < okv.len() implies key_lt(#[trigger] okv[i], k@) by {
                        let j = choose|j: int|
                            0 <= j < t && #[trigger] all[j] == (ok@[i]@, ov@[i])
                                && predicate.ensures((&all[j].1,), true);
                        assert(ks[j] == ok@[i]@ && ks[t] == k@);
                    }
                }
                let ghost pk = ok@;
                let ghost pv = ov@;
                ok.push(k);
                ov.push(v);
                proof {
                    assert(ok@.map_values(|k: String| k@) =~= pk.map_values(|k: String| k@).push(
                        k@,
                    ));
                    assert forall|i: int| #![trigger ok@[i]] 0 <= i < ok@.len() implies exists|j: int|
                        0 <= j < t + 1 && #[trigger] all[j] == (ok@[i]@, ov@[i])
                            && predicate.ensures((&all[j].1,), true) by {
                        if i < pk.len() {
                            let j = choose|j: int|
                                0 <= j < t && #[trigger] all[j] == (pk[i]@, pv[i])
                                    && predicate.ensures((&all[j].1,), true);
                            assert(all[j] == (ok@[i]@, ov@[i]));
                            assert(0 <= j < t + 1);
                        } else {
                            assert(all[t] == (ok@[i]@, ov@[i]));
                            assert(v == all[t].1);
                            assert(predicate.ensures((&v,), true));
                            assert(predicate.ensures((&all[t].1,), true));
                            assert(0 <= t < t + 1);
                        }
                    }
                    assert forall|j: int| #![trigger all[j]] 0 <= j < t + 1 implies (exists|i: int|
                        0 <= i < ok@.len() && (ok@[i]@, ov@[i]) == #[trigger] all[j])
                        || predicate.ensures((&all[j].1,), false) by {
                        if j < t {
                            if exists|i: int| 0 <= i < pk.len() && (pk[i]@, pv[i]) == #[trigger] all[j] {
                                let i = choose|i: int| 0 <= i < pk.len() && (pk[i]@, pv[i]) == #[trigger] all[j];
                                assert((ok@[i]@, ov@[i]) == all[j]);
                            }
                        } else {
                            let i = pk.len() as int;
                            assert((ok@[i]@, ov@[i]) == all[j]);
                        }
                    }
                }
            }
            proof {
                t = t + 1;
            }
        }
        let ghost okv = ok@;
        let ghost ovv = ov@;
        let r = Citations { keys: ok, values: ov };
        proof {
            assert(r.key_seq() =~= r.keys@.map_values(|k: String| k@));
            assert forall|i: int| 0 <= i < r@.len() implies r@[i] == (okv[i]@, ovv[i]) by {}
            assert forall|i: int| 0 <= i < r@.len() implies all.contains(#[trigger] r@[i])
                && predicate.ensures((&r@[i].1,), true) by {
                assert(r@[i] == (okv[i]@, ovv[i]));
                let j = choose|j: int|
                    0 <= j < t && #[trigger] all[j] == (okv[i]@, ovv[i]) && predicate.ensures(
                        (&all[j].1,),
                        true,
                    );
                assert(0 <= j < all.len() && all[j] == r@[i]);
            }
            assert forall|j: int| 0 <= j < all.len() implies r@.contains(#[trigger] all[j])
                || predicate.ensures((&all[j].1,), false) by {
                if exists|i: int| 0 <= i < okv.len() && (okv[i]@, ovv[i]) == #[trigger] all[j] {
                    let i = choose|i: int|
                        0 <= i < okv.len() && (okv[i]@, ovv[i]) == #[trigger] all[j];
                    assert(r@[i] == all[j]);
                }
            }
        }
        r
    }
}

/// The commands under which `tokens` cite `key`, in order.
fn cite_cmds_for(tokens: &Vec<Token>, key: &String) -> (r: Vec<String>)
    ensures
        r@.map_values(|c: String| c@) == cite_cmds_of(token_lexemes(tokens@), key@),
{
    let mut r: Vec<String> = Vec::new();
    let mut i: usize = 0;
    while i < tokens.len()
        invariant
            i <= tokens@.len(),
            r@.map_values(|c: String| c@) == cite_cmds_of(token_lexemes(tokens@.take(i as int)), key@),
        decreases tokens@.len() - i,
    {
        let ghost prev = r@;
        proof {
            assert(token_lexemes(tokens@.take(i + 1)).drop_last() =~= token_lexemes(tokens@.take(i as int)));
            assert(token_lexemes(tokens@.take(i + 1)).last() == tokens@[i as int].lexeme());
        }
        match &tokens[i] {
            Token::Citation(c) => {
                if c.key == *key {
                    let cmd = c.cite_cmd.clone();
                    r.push(cmd);
                    assert(r@.map_values(|c: String| c@) =~= prev.map_values(|c: String| c@).push(cmd@));
                }
            },
            Token::Other => {},
        }
        i = i + 1;
    }
    assert(tokens@.take(tokens@.len() as int) == tokens@);
    r
}

impl GatherCitations for Citations<LaTeX> {
    open spec fn can_gather(src: &CitationSource) -> bool {
        src.latex is Some
    }

    /// Each cited key, with the commands that cite it in the order of the document.
    open spec fn gathered(src: &CitationSource, r: &Self) -> bool {
        let ls = token_lexemes(src.latex->0@);
        &&& r.wf()
        &&& r.key_seq().to_set() == cited_keys(ls)
        &&& forall|i: int|
            0 <= i < r@.len() ==> (#[trigger] r@[i]).1.key@ == r@[i].0
                && r@[i].1.cite_cmds@.map_values(|c: String| c@) == cite_cmds_of(ls, r@[i].0)
    }

    fn gather(src: &CitationSource) -> (r: Self) {
        let cited = HollowCitations::<LaTeX>::gather(src);
        let keys = cited.list_sorted();
        let tokens = match &src.latex {
            Some(t) => t,
            None => {
                return Citations::from_parts(Vec::new(), Vec::new());
            },
        };
        let mut ks: Vec<String> = Vec::new();
        let mut values: Vec<LaTeXCitation> = Vec::new();
        let mut i: usize = 0;
        while i < keys.len()
            invariant
                i <= keys@.len(),
                ks@.len() == i,
                values@.len() == i,
                ks@.map_values(|k: String| k@) == keys@.take(i as int).map_values(|k: String| k@),
                forall|j: int|
                    0 <= j < i ==> (#[trigger] values@[j]).key@ == keys@[j]@
                        && values@[j].cite_cmds@.map_values(|c: String| c@) == cite_cmds_of(
                        token_lexemes(tokens@),
                        keys@[j]@,
                    ),
            decreases keys@.len() - i,
        {
            let cite_cmds = cite_cmds_for(tokens, &keys[i]);
            let ghost prev = ks@;
            ks.push(keys[i].clone());
            values.push(LaTeXCitation { key: keys[i].clone(), cite_cmds });
            assert(ks@.map_values(|k: String| k@) =~= prev.map_values(|k: String| k@).push(keys@[i as int]@));
            assert(keys@.take(i + 1).map_values(|k: String| k@) =~= keys@.take(i as int).map_values(|k: String| k@).push(keys@[i as int]@));
            i = i + 1;
        }
        assert(keys@.take(keys@.len() as int) == keys@);
        let r = Citations::from_parts(ks, values);
        assert forall|i: int| 0 <= i < r@.len() implies r@[i].0 == keys@[i]@ by {
            assert(r.key_seq()[i] == r@[i].0);
        }
        r
    }
}

proof fn lemma_last_entry_some(es: Seq<EntryView>, k: Seq<char>)
    requires
        es.map_values(|e: EntryView| e.0).contains(k),
    ensures
        last_entry(es, k) matches Some(e) && e.0 == k,
    decreases es.len(),
{
    let ks = es.map_values(|e: EntryView| e.0);
    if es.last().0 != k {
        let i = choose|i: int| 0 <= i < ks.len() && #[trigger] ks[i] == k;
        assert(es.drop_last().map_values(|e: EntryView| e.0)[i] == k);
        lemma_last_entry_some(es.drop_last(), k);
    }
}

/// The index of the last entry with key `key`.
fn last_with_key(entries: &Vec<BibCitation>, key: &String) -> (r: Option<usize>)
    ensures
        r is None <==> last_entry(entries@.map_values(|c: BibCitation| c@), key@) is None,
        r matches Some(j) ==> j < entries@.len() && last_entry(
            entries@.map_values(|c: BibCitation| c@),
            key@,
        ) == Some(entries@[j as int]@),
{
    let ghost es = entries@.map_values(|c: BibCitation| c@);
    let mut j = entries.len();
    assert(es.take(j as int) == es);
    while j > 0
        invariant
            j <= entries@.len(),
            es == entries@.map_values(|c: BibCitation| c@),
            last_entry(es, key@) == last_entry(es.take(j as int), key@),
        decreases j,
    {
        assert(es.take(j as int).drop_last() == es.take(j - 1));
        assert(es.take(j as int).last() == entries@[j - 1]@);
        if entries[j - 1].key == *key {
            return Some(j - 1);
        }
        j = j - 1;
    }
    None
}

impl GatherCitations for Citations<Bib> {
    open spec fn can_gather(src: &CitationSource) -> bool {
        src.bib is Some
    }

    /// Each defined key with its entry; where a key repeats, the last entry stands.
    open spec fn gathered(src: &CitationSource, r: &Self) -> bool {
        let es = src.bib->0@.map_values(|c: BibCitation| c@);
        &&& r.wf()
        &&& r.key_seq().to_set() == entry_keys(es)
        &&& forall|i: int| 0 <= i < r@.len() ==> last_entry(es, r@[i].0) == Some((#[trigger] r@[i]).1@)
    }

    fn gather(src: &CitationSource) -> (r: Self) {
        let defined = HollowCitations::<Bib>::gather(src);
        let keys = defined.list_sorted();
        let entries = match &src.bib {
            Some(b) => b,
            None => {
                return Citations::from_parts(Vec::new(), Vec::new());
            },
        };
        let ghost es = entries@.map_values(|c: BibCitation| c@);
        let mut ks: Vec<String> = Vec::new();
        let mut values: Vec<BibCitation> = Vec::new();
        let mut i: usize = 0;
        while i < keys.len()
            invariant
                i <= keys@.len(),
                es == entries@.map_values(|c: BibCitation| c@),
                keys@.map_values(|k: String| k@).to_set() == entry_keys(es),
                ks@.len() == i,
                values@.len() == i,
                ks@.map_values(|k: String| k@) == keys@.take(i as int).map_values(|k: String| k@),
                forall|j: int| 0 <= j < i ==> last_entry(es, keys@[j]@) == Some((#[trigger] values@[j])@),
            decreases keys@.len() - i,
        {
            proof {
                assert(keys@.map_values(|k: String| k@)[i as int] == keys@[i as int]@);
                assert(keys@.map_values(|k: String| k@).to_set().contains(keys@[i as int]@));
                lemma_last_entry_some(es, keys@[i as int]@);
            }
            let j = last_with_key(entries, &keys[i]);
            let e = match j {
                Some(j) => entries[j].duplicate(),
                None => {
                    return Citations::from_parts(Vec::new(), Vec::new());
                },
            };
            let ghost prev = ks@;
            ks.push(keys[i].clone());
            values.push(e);
            assert(ks@.map_values(|k: String| k@) =~= prev.map_values(|k: String| k@).push(keys@[i as int]@));
            assert(keys@.take(i + 1).map_values(|k: String| k@) =~= keys@.take(i as int).map_values(|k: String| k@).push(keys@[i as int]@));
            i = i + 1;
        }
        assert(keys@.take(keys@.len() as int) == keys@);
        let r = Citations::from_parts(ks, values);
        assert forall|i: int| 0 <= i < r@.len() implies r@[i].0 == keys@[i]@ by {
            assert(r.key_seq()[i] == r@[i].0);
        }
        r
    }
}

} // verus!
