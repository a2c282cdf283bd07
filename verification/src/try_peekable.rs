//! A lookahead adapter over a fallible sequence.

use crate::{Sealed, TryIterator};
use vstd::prelude::*;

verus! {

/// A fallible sequence with a single-slot cache that supports peeking at the
/// next success value without consuming it.
///
/// The cache holds at most one element and is in one of three states:
/// nothing buffered, a peeked success value buffered, or
/// end-of-sequence observed.  A failure is *never* stored in the cache:
/// [`try_peek`](TryPeekable::try_peek) surfaces it once and leaves the cache
/// empty, so the next peek or consume call queries the wrapped sequence
/// again.
///
/// This `struct` is created by the
/// [`try_peekable`](crate::TryIteratorExt::try_peekable) method on
/// [`TryIteratorExt`](crate::TryIteratorExt).
#[derive(Clone, Debug)]
pub struct TryPeekable<I: TryIterator> {
    iter: I,
    /// Remember a peeked value, even if it was `None`.
    peeked: Option<Option<I::Ok>>,
}

impl<I: TryIterator> TryPeekable<I> {
    /// Whether the cache holds anything at all (a buffered success value or
    /// an observed end-of-sequence).
    pub closed spec fn cache_filled(&self) -> bool {
        self.peeked is Some
    }

    /// The cache contents: `None` when nothing is buffered, `Some(Some(v))`
    /// when the success value `v` is buffered, `Some(None)` when
    /// end-of-sequence has been observed.
    pub closed spec fn cache(&self) -> Option<Option<I::Ok>> {
        self.peeked
    }

    /// View the next success value without consuming it.
    ///
    /// If the cache is filled, the cached view is returned and the wrapped
    /// sequence is not touched, so peeking twice in a row returns the
    /// identical value both times.  Otherwise one element is pulled: a
    /// success is cached and a reference to it returned, end-of-sequence is
    /// cached and `Ok(None)` returned, and a failure is returned directly
    /// *without* being cached, so the failure is surfaced exactly once and
    /// the next call queries the wrapped sequence again.
    pub fn try_peek(&mut self) -> (r: Result<Option<&I::Ok>, I::Err>)
        requires
            old(self).wf(),
        ensures
            final(self).wf(),
            old(self).cache_filled() ==> *final(self) == *old(self),
            r is Ok ==> final(self).cache_filled(),
            r is Ok ==> final(self).remaining() == old(self).remaining(),
            r matches Ok(Some(v)) ==> old(self).remaining().len() > 0
                && old(self).remaining().first() == Ok::<I::Ok, I::Err>(*v)
                && final(self).cache() == Some(Some(*v)),
            r matches Ok(None) ==> old(self).remaining().len() == 0,
            old(self).remaining().len() == 0 ==> r == Ok::<Option<&I::Ok>, I::Err>(None),
            r matches Err(e) ==> !old(self).cache_filled()
                && old(self).remaining().len() > 0
                && old(self).remaining().first() == Err::<I::Ok, I::Err>(e)
                && !final(self).cache_filled()
                && final(self).remaining() == old(self).remaining().drop_first(),
            (!old(self).cache_filled() && old(self).remaining().len() > 0
                && old(self).remaining().first() is Err) <==> (r is Err),
    {
        if self.peeked.is_none() {
            match self.iter.next() {
                Some(Ok(v)) => {
                    self.peeked = Some(Some(v));
                }
                Some(Err(e)) => {
                    return Err(e);
                }
                None => {
                    self.peeked = Some(None);
                }
            }
        }
        proof {
            if self.cache() matches Some(Some(v)) {
                assert(self.remaining() =~= old(self).remaining());
            }
        }
        match &self.peeked {
            Some(Some(v)) => Ok(Some(v)),
            _ => Ok(None),
        }
    }

    /// View the next success value without consuming it, through a mutable
    /// reference: writing through the reference replaces the cached value,
    /// which a later consume or peek will then observe.
    ///
    /// Identical to [`try_peek`](TryPeekable::try_peek) except for the access
    /// mode; in particular a failure is surfaced exactly once and never
    /// cached.
    pub fn try_peek_mut(&mut self) -> (r: Result<Option<&mut I::Ok>, I::Err>)
        requires
            old(self).wf(),
        ensures
            final(self).wf(),
            r matches Ok(Some(m)) ==> old(self).remaining().len() > 0
                && old(self).remaining().first() == Ok::<I::Ok, I::Err>(*m)
                && final(self).cache() == Some(Some(*final(m)))
                && final(self).remaining() == seq![Ok::<I::Ok, I::Err>(*final(m))] + old(
                self,
            ).remaining().drop_first(),
            r matches Ok(None) ==> old(self).remaining().len() == 0 && final(self).cache()
                == Some(None::<I::Ok>) && final(self).remaining() == old(self).remaining(),
            old(self).remaining().len() == 0 ==> r == Ok::<Option<&mut I::Ok>, I::Err>(None),
            r matches Err(e) ==> !old(self).cache_filled()
                && old(self).remaining().len() > 0
                && old(self).remaining().first() == Err::<I::Ok, I::Err>(e)
                && !final(self).cache_filled()
                && final(self).remaining() == old(self).remaining().drop_first(),
            (!old(self).cache_filled() && old(self).remaining().len() > 0
                && old(self).remaining().first() is Err) <==> (r is Err),
    {
        if self.peeked.is_none() {
            match self.iter.next() {
                Some(Ok(v)) => {
                    self.peeked = Some(Some(v));
                }
                Some(Err(e)) => {
                    return Err(e);
                }
                None => {
                    self.peeked = Some(None);
                }
            }
        }
        match &mut self.peeked {
            Some(Some(v)) => Ok(Some(v)),
            _ => Ok(None),
        }
    }

    pub(crate) fn new(iter: I) -> (r: TryPeekable<I>)
        requires
            iter.wf(),
        ensures
            r.wf(),
            !r.cache_filled(),
            r.remaining() == iter.remaining(),
    {
        TryPeekable { iter, peeked: None }
    }
}

/// One possible outcome of folding the elements of `s` into `init` with `f`,
/// front to back: `out` is reachable when each step's result is a value the
/// function `f` may return for the accumulator so far and the next element.
pub open spec fn folded<T, Acc, F: Fn(Acc, T) -> Acc>(f: F, s: Seq<T>, init: Acc, out: Acc) -> bool
    decreases s.len(),
{
    if s.len() == 0 {
        out == init
    } else {
        exists|mid: Acc|
            #[trigger] call_ensures(f, (init, s.first()), mid) && folded(
                f,
                s.drop_first(),
                mid,
                out,
            )
    }
}

proof fn lemma_folded_push<T, Acc, F: Fn(Acc, T) -> Acc>(
    f: F,
    s: Seq<T>,
    init: Acc,
    mid: Acc,
    x: T,
    out: Acc,
)
    requires
        folded(f, s, init, mid),
        call_ensures(f, (mid, x), out),
    ensures
        folded(f, s.push(x), init, out),
    decreases s.len(),
{
    if s.len() == 0 {
        assert(s.push(x).drop_first() =~= s);
        assert(call_ensures(f, (init, s.push(x).first()), out) && folded(
            f,
            s.push(x).drop_first(),
            out,
            out,
        ));
    } else {
        let m1 = choose|m1: Acc|
            #[trigger] call_ensures(f, (init, s.first()), m1) && folded(
                f,
                s.drop_first(),
                m1,
                mid,
            );
        lemma_folded_push(f, s.drop_first(), m1, mid, x, out);
        assert(s.push(x).drop_first() =~= s.drop_first().push(x));
        assert(call_ensures(f, (init, s.push(x).first()), m1) && folded(
            f,
            s.push(x).drop_first(),
            m1,
            out,
        ));
    }
}

impl<I: TryIterator> TryPeekable<I> {
    /// Consume the whole sequence and return how many elements it held,
    /// failures included.
    pub fn count(self) -> (r: usize)
        requires
            self.wf(),
            self.remaining().len() <= usize::MAX,
        ensures
            r == self.remaining().len(),
    {
        let ghost total = self.remaining().len();
        let mut it = self;
        let mut n: usize = match it.peeked.take() {
            Some(None) => {
                return 0;
            }
            Some(Some(_)) => 1,
            None => 0,
        };
        loop
            invariant
                it.iter.wf(),
                n + it.iter.remaining().len() == total,
                total <= usize::MAX,
            ensures
                n == total,
            decreases it.iter.remaining().len(),
        {
            match it.iter.next() {
                Some(_) => {
                    n = n + 1;
                }
                None => {
                    break;
                }
            }
        }
        n
    }

    /// Consume and return the element at position `n` of the elements still
    /// to be yielded, consuming everything before it as well; `None` when
    /// fewer than `n + 1` elements were left, in which case the sequence is
    /// exhausted.
    pub fn nth(&mut self, n: usize) -> (r: Option<Result<I::Ok, I::Err>>)
        requires
            old(self).wf(),
        ensures
            final(self).wf(),
            n < old(self).remaining().len() ==> r == Some(old(self).remaining()[n as int])
                && final(self).remaining() == old(self).remaining().skip(n as int + 1),
            n >= old(self).remaining().len() ==> r is None && final(self).remaining().len() == 0,
    {
        let ghost s = old(self).remaining();
        let mut k: usize = n;
        loop
            invariant
                self.wf(),
                s == old(self).remaining(),
                k <= n,
                n as int - k as int <= s.len(),
                self.remaining() == s.skip(n as int - k as int),
            decreases k,
        {
            let ghost pre = self.remaining();
            match self.next() {
                None => {
                    return None;
                }
                Some(x) => {
                    proof {
                        assert(self.remaining() =~= s.skip(n as int - k as int + 1));
                    }
                    if k == 0 {
                        return Some(x);
                    }
                    k = k - 1;
                }
            }
        }
    }

    /// Consume the whole sequence and return its last element, or `None`
    /// when no element was left.
    pub fn last(self) -> (r: Option<Result<I::Ok, I::Err>>)
        requires
            self.wf(),
        ensures
            self.remaining().len() == 0 ==> r is None,
            self.remaining().len() > 0 ==> r == Some(self.remaining().last()),
    {
        let ghost s = self.remaining();
        let mut it = self;
        let mut latest: Option<Result<I::Ok, I::Err>> = None;
        let ghost mut done: Seq<Result<I::Ok, I::Err>> = Seq::empty();
        loop
            invariant
                it.wf(),
                done + it.remaining() == s,
                done.len() == 0 ==> latest is None,
                done.len() > 0 ==> latest == Some(done.last()),
            ensures
                done == s,
                done.len() == 0 ==> latest is None,
                done.len() > 0 ==> latest == Some(done.last()),
            decreases it.remaining().len(),
        {
            match it.next() {
                Some(x) => {
                    latest = Some(x);
                    proof {
                        done = done.push(x);
                        assert(done + it.remaining() =~= s);
                    }
                }
                None => {
                    proof {
                        assert(done =~= s);
                    }
                    break;
                }
            }
        }
        latest
    }

    /// Consume the whole sequence, folding every element, failures included,
    /// into an accumulator with `f`.
    pub fn fold<Acc, F: Fn(Acc, Result<I::Ok, I::Err>) -> Acc>(self, init: Acc, f: F) -> (r: Acc)
        requires
            self.wf(),
            forall|acc: Acc, i: int|
                0 <= i < self.remaining().len() ==> call_requires(f, (acc, self.remaining()[i])),
        ensures
            folded(f, self.remaining(), init, r),
    {
        let ghost s = self.remaining();
        let mut it = self;
        let mut acc = init;
        let ghost mut done: Seq<Result<I::Ok, I::Err>> = Seq::empty();
        loop
            invariant
                it.wf(),
                done + it.remaining() == s,
                folded(f, done, init, acc),
                forall|a: Acc, i: int| 0 <= i < s.len() ==> call_requires(f, (a, s[i])),
            ensures
                done == s,
                folded(f, done, init, acc),
            decreases it.remaining().len(),
        {
            match it.next() {
                Some(x) => {
                    proof {
                        assert(s[done.len() as int] == x);
                    }
                    let next_acc = f(acc, x);
                    proof {
                        lemma_folded_push(f, done, init, acc, x, next_acc);
                        done = done.push(x);
                        assert(done + it.remaining() =~= s);
                    }
                    acc = next_acc;
                }
                None => {
                    proof {
                        assert(done =~= s);
                    }
                    break;
                }
            }
        }
        acc
    }
}

impl<I: TryIterator> Sealed for TryPeekable<I> {}

impl<I: TryIterator> TryIterator for TryPeekable<I> {
    type Ok = I::Ok;

    type Err = I::Err;

    closed spec fn wf(&self) -> bool {
        &&& self.iter.wf()
        &&& self.peeked == Some(None::<I::Ok>) ==> self.iter.remaining().len() == 0
    }

    closed spec fn remaining(&self) -> Seq<Result<I::Ok, I::Err>> {
        match self.peeked {
            Some(Some(v)) => seq![Ok::<I::Ok, I::Err>(v)] + self.iter.remaining(),
            Some(None) => Seq::empty(),
            None => self.iter.remaining(),
        }
    }

    fn next(&mut self) -> (r: Option<Result<I::Ok, I::Err>>) {
        match self.peeked.take() {
            Some(Some(peeked)) => {
                proof {
                    assert(self.remaining() =~= old(self).remaining().drop_first());
                }
                Some(Ok(peeked))
            }
            Some(None) => {
                proof {
                    assert(self.remaining() =~= old(self).remaining());
                }
                None
            }
            None => self.iter.next(),
        }
    }

    fn size_hint(&self) -> (r: (usize, Option<usize>))
        ensures
            self.cache() == Some(None::<I::Ok>) ==> r == (0usize, Some(0usize)),
    {
        match &self.peeked {
            Some(None) => (0, Some(0)),
            Some(Some(_)) => {
                let (lo, hi) = self.iter.size_hint();
                let lo = lo.saturating_add(1);
                let hi = match hi {
                    Some(x) => x.checked_add(1),
                    None => None,
                };
                (lo, hi)
            }
            None => self.iter.size_hint(),
        }
    }
}

} // verus!
