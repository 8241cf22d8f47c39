//! Gathering a collection of citations from a [`CitationSource`], once per kind of source.

use vstd::prelude::*;
use crate::sources::CitationSource;

verus! {

/// A collection that can be gathered from a citation source.
pub trait GatherCitations: Sized {
    /// `src` holds what gathering needs.
    spec fn can_gather(src: &CitationSource) -> bool;

    /// `r` is the collection that `src` gives.
    spec fn gathered(src: &CitationSource, r: &Self) -> bool;

    fn gather(src: &CitationSource) -> (r: Self)
        requires
            Self::can_gather(src),
        ensures
            Self::gathered(src, &r),
    ;
}

/// Gathers a collection of type `T` from `src`.
pub fn gather_citations<T: GatherCitations>(src: &CitationSource) -> (r: T)
    requires
        T::can_gather(src),
    ensures
        T::gathered(src, &r),
{
    T::gather(src)
}

} // verus!
