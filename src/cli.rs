//! The choice among the checks that a run performs.

use vstd::prelude::*;

verus! {

/// The checks that can be asked for; one run performs one of them.
pub struct Group {
    /// Bibliography entries that the LaTeX source does not cite.
    pub unused: bool,
    /// Bibliography entries whose page field is malformed.
    pub pages: bool,
    /// Articles that lack required fields.
    pub article: bool,
}

/// One check.
pub enum Query {
    Unused,
    Pages,
    Article,
}

impl Group {
    /// The check to perform: the first one asked for, in the order unused, pages, article;
    /// `None` when none is.
    pub fn query(&self) -> (r: Option<Query>)
        ensures
            r == if self.unused {
                Some(Query::Unused)
            } else if self.pages {
                Some(Query::Pages)
            } else if self.article {
                Some(Query::Article)
            } else {
                None
            },
    {
        if self.unused {
            Some(Query::Unused)
        } else if self.pages {
            Some(Query::Pages)
        } else if self.article {
            Some(Query::Article)
        } else {
            None
        }
    }
}

} // verus!
