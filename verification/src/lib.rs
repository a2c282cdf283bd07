//! Combinators for sequences of fallible results.
//!
//! A *fallible sequence* yields elements that are each either a success
//! payload or an error payload.  The [`TryIterator`] trait captures such a
//! sequence together with the specification-level sequence of elements it has
//! yet to yield, [`TryIter`] lifts any `Vec` of results into one, and
//! [`TryIteratorExt`] provides the combinator surface: transformations of the
//! success and error payloads, short-circuiting predicates and reductions,
//! and a single-slot lookahead adapter, [`TryPeekable`].

mod ext;
mod laws;
mod try_iter;
mod try_peekable;

pub use ext::TryIteratorExt;
pub use ext::all_ok;
pub use ext::filter_mapped;
pub use ext::filtered;
pub use ext::first_err_at;
pub use ext::max_by_folded;
pub use ext::max_by_key_folded;
pub use ext::min_by_folded;
pub use ext::min_by_key_folded;
pub use ext::payloads;
pub use ext::spec_max_from;
pub use ext::spec_min_from;
pub use ext::lemma_max_by_folded_exact;
pub use ext::lemma_min_by_folded_exact;
pub use laws::lemma_all_ok_element;
pub use laws::lemma_filter_mapped_failure_free;
pub use laws::lemma_map_ok_failure_free;
pub use laws::lemma_filtered_failure_free;
pub use laws::lemma_filter_mapped_exact;
pub use laws::lemma_filtered_exact;
pub use laws::lemma_filter_is_filter_map;
pub use laws::plain_filter_mapped;
pub use laws::spec_filter;
pub use laws::spec_filter_map;
pub use laws::plain_filtered;
pub use try_iter::TryIter;
pub use try_peekable::TryPeekable;
pub use try_peekable::folded;

use vstd::prelude::*;

verus! {

/// Marker trait for the sequence types this crate's combinators accept.
pub trait Sealed {}

/// A sequence of fallible results: each element is either a success value of
/// type [`Self::Ok`] or an error value of type [`Self::Err`].
///
/// The specification function [`remaining`](Self::remaining) gives the
/// elements the sequence has yet to yield, in order.  [`next`](Self::next)
/// yields exactly the head of that sequence and advances past it; errors are
/// ordinary elements here, so advancing past a failure neither stops the
/// sequence nor repeats the failure.
pub trait TryIterator: Sealed + Sized {
    /// The type of successful values yielded by this sequence.
    type Ok;

    /// The type of failures yielded by this sequence.
    type Err;

    /// The internal invariant of the sequence.
    spec fn wf(&self) -> bool;

    /// The elements this sequence has yet to yield, in order.
    spec fn remaining(&self) -> Seq<Result<Self::Ok, Self::Err>>;

    /// Yield the next element, or `None` once the sequence is exhausted.
    fn next(&mut self) -> (r: Option<Result<Self::Ok, Self::Err>>)
        requires
            old(self).wf(),
        ensures
            final(self).wf(),
            old(self).remaining().len() == 0 ==> r is None && final(self).remaining()
                == old(self).remaining(),
            old(self).remaining().len() > 0 ==> r == Some(old(self).remaining().first())
                && final(self).remaining() == old(self).remaining().drop_first(),
    ;

    /// Bounds on the number of elements still to be yielded: a lower bound,
    /// and an upper bound when one is known.
    fn size_hint(&self) -> (r: (usize, Option<usize>))
        requires
            self.wf(),
        ensures
            r.0 <= self.remaining().len(),
            r.1 matches Some(hi) ==> self.remaining().len() <= hi,
    ;
}

} // verus!
