//! The sources that citations come from, as marker types, and the source descriptor that
//! collections gather from.

use vstd::prelude::*;
use crate::bib::{BibCitation, EntryView};
use crate::latex::{LaTeXCitation, Lexeme, Token};

verus! {

/// A type that marks where the citations of a collection come from; `CitationType` is what
/// a citation from there carries.
pub trait Source {
    type CitationType;
}

/// Citations that LaTeX source uses.
pub struct LaTeX;

/// Citations that a bibliography defines.
pub struct Bib;

/// Citations of no single source, such as the result of a set operation.
pub struct Abstract;

impl Source for LaTeX {
    type CitationType = LaTeXCitation;
}

impl Source for Bib {
    type CitationType = BibCitation;
}

impl Source for Abstract {
    type CitationType = ();
}

/// Where citations are gathered from: the tokens of a LaTeX document (the root and the
/// files it includes), and the entries of a bibliography.
pub struct CitationSource {
    pub latex: Option<Vec<Token>>,
    pub bib: Option<Vec<BibCitation>>,
}

impl CitationSource {
    /// A source with both a document and a bibliography.
    pub fn new(latex: Vec<Token>, bib: Vec<BibCitation>) -> (r: Self)
        ensures
            r.latex == Some(latex),
            r.bib == Some(bib),
    {
        CitationSource { latex: Some(latex), bib: Some(bib) }
    }

    /// A source with a bibliography alone.
    pub fn from_bib(bib: Vec<BibCitation>) -> (r: Self)
        ensures
            r.latex is None,
            r.bib == Some(bib),
    {
        CitationSource { latex: None, bib: Some(bib) }
    }
}

/// The lexemes of a sequence of tokens.
pub open spec fn token_lexemes(ts: Seq<Token>) -> Seq<Lexeme> {
    ts.map_values(|t: Token| t.lexeme())
}

/// The keys that a sequence of lexemes cites.
pub open spec fn cited_keys(ls: Seq<Lexeme>) -> Set<Seq<char>> {
    Set::new(|k: Seq<char>| exists|i: int| 0 <= i < ls.len() && #[trigger] ls[i] is Cite && ls[i]->Cite_0 == k)
}

/// The commands under which a sequence of lexemes cites `k`, in order.
pub open spec fn cite_cmds_of(ls: Seq<Lexeme>, k: Seq<char>) -> Seq<Seq<char>>
    decreases ls.len(),
{
    if ls.len() == 0 {
        Seq::empty()
    } else {
        let rest = cite_cmds_of(ls.drop_last(), k);
        match ls.last() {
            Lexeme::Cite(key, cmd) => if key == k {
                rest.push(cmd)
            } else {
                rest
            },
            _ => rest,
        }
    }
}

/// The keys of a sequence of bibliography entries.
pub open spec fn entry_keys(es: Seq<EntryView>) -> Set<Seq<char>> {
    es.map_values(|e: EntryView| e.0).to_set()
}

/// The last entry with key `k`, the one that stands when keys repeat.
pub open spec fn last_entry(es: Seq<EntryView>, k: Seq<char>) -> Option<EntryView>
    decreases es.len(),
{
    if es.len() == 0 {
        None
    } else if es.last().0 == k {
        Some(es.last())
    } else {
        last_entry(es.drop_last(), k)
    }
}

} // verus!
