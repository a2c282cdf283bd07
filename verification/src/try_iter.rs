//! A fallible sequence backed by a vector of results.

use crate::{Sealed, TryIterator};
use vstd::prelude::*;

verus! {

/// A fallible sequence read out of a vector of results, in order.
///
/// Any enumerable source of `Result` elements can be lifted into the
/// combinator surface by collecting it into a `Vec` and calling
/// [`TryIter::from_vec`].  The transformation combinators of
/// [`TryIteratorExt`](crate::TryIteratorExt) also return their output in this
/// form.
#[derive(Clone, Debug)]
pub struct TryIter<O, E> {
    /// The elements not yet yielded, in reverse order, so that the next
    /// element can be moved out by `pop`.
    rest: Vec<Result<O, E>>,
}

impl<O, E> TryIter<O, E> {
    /// Lift a vector of results into a fallible sequence that yields the
    /// vector's elements in order.
    pub fn from_vec(v: Vec<Result<O, E>>) -> (r: TryIter<O, E>)
        ensures
            r.wf(),
            r.remaining() == v@,
    {
        let ghost orig = v@;
        let mut v = v;
        let mut rest: Vec<Result<O, E>> = Vec::new();
        loop
            invariant
                v@ + rest@.reverse() =~= orig,
            ensures
                rest@.reverse() =~= orig,
            decreases v@.len(),
        {
            match v.pop() {
                Some(x) => {
                    proof {
                        assert(v@.push(x).drop_last() =~= v@);
                        assert(rest@.push(x).reverse() =~= seq![x] + rest@.reverse());
                    }
                    rest.push(x);
                }
                None => {
                    break;
                }
            }
        }
        let r = TryIter { rest };
        proof {
            assert(r.remaining() =~= v@ + r.rest@.reverse());
        }
        r
    }
}

impl<O, E> Sealed for TryIter<O, E> {}

impl<O, E> TryIterator for TryIter<O, E> {
    type Ok = O;

    type Err = E;

    closed spec fn wf(&self) -> bool {
        true
    }

    closed spec fn remaining(&self) -> Seq<Result<O, E>> {
        self.rest@.reverse()
    }

    fn next(&mut self) -> (r: Option<Result<O, E>>) {
        let r = self.rest.pop();
        proof {
            if old(self).rest@.len() > 0 {
                assert(old(self).remaining().first() == old(self).rest@.last());
                assert(self.rest@.reverse() =~= old(self).rest@.reverse().drop_first());
            } else {
                assert(self.rest@.reverse() =~= old(self).rest@.reverse());
            }
        }
        r
    }

    fn size_hint(&self) -> (r: (usize, Option<usize>))
        ensures
            r.0 == self.remaining().len(),
            r.1 == Some(self.remaining().len() as usize),
    {
        let n = self.rest.len();
        (n, Some(n))
    }
}

} // verus!

