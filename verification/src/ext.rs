//! The combinator surface over fallible sequences.

use crate::{TryIter, TryIterator, TryPeekable};
use core::cmp::Ordering;
use vstd::prelude::*;
use vstd::std_specs::cmp::OrdSpec;

verus! {

/// Whether every element of the sequence is a success.
pub open spec fn all_ok<O, E>(s: Seq<Result<O, E>>) -> bool {
    forall|i: int| 0 <= i < s.len() ==> s[i] is Ok
}

/// Whether the sequence's first failure stands at index `k`.
pub open spec fn first_err_at<O, E>(s: Seq<Result<O, E>>, k: int) -> bool {
    &&& 0 <= k < s.len()
    &&& s[k] is Err
    &&& forall|i: int| 0 <= i < k ==> s[i] is Ok
}

/// One possible output `t` of filtering-and-mapping the elements of `s`
/// through the effectful function `f`: a source failure passes through in
/// place; a success value `v` is offered to `f` and is replaced by the new
/// payload `f` keeps for it, dropped when `f` keeps nothing, or replaced by
/// the failure `f` raised.
pub open spec fn filter_mapped<O, T, E, F: Fn(O) -> Result<Option<T>, E>>(
    f: F,
    s: Seq<Result<O, E>>,
    t: Seq<Result<T, E>>,
) -> bool
    decreases s.len(),
{
    if s.len() == 0 {
        t.len() == 0
    } else {
        match s.last() {
            Err(e) => t.len() > 0 && t.last() == Err::<T, E>(e) && filter_mapped(
                f,
                s.drop_last(),
                t.drop_last(),
            ),
            Ok(v) => exists|fr: Result<Option<T>, E>|
                #[trigger] call_ensures(f, (v,), fr) && (match fr {
                    Ok(Some(x)) => t.len() > 0 && t.last() == Ok::<T, E>(x) && filter_mapped(
                        f,
                        s.drop_last(),
                        t.drop_last(),
                    ),
                    Ok(None) => filter_mapped(f, s.drop_last(), t),
                    Err(e2) => t.len() > 0 && t.last() == Err::<T, E>(e2) && filter_mapped(
                        f,
                        s.drop_last(),
                        t.drop_last(),
                    ),
                }),
        }
    }
}

/// One possible output `t` of filtering the elements of `s` through the
/// effectful predicate `p`: a source failure passes through in place; a
/// success value is kept unchanged when `p` accepts it, dropped when `p`
/// rejects it, or replaced by the failure `p` raised.
pub open spec fn filtered<O, E, P: Fn(&O) -> Result<bool, E>>(
    p: P,
    s: Seq<Result<O, E>>,
    t: Seq<Result<O, E>>,
) -> bool
    decreases s.len(),
{
    if s.len() == 0 {
        t.len() == 0
    } else {
        match s.last() {
            Err(e) => t.len() > 0 && t.last() == Err::<O, E>(e) && filtered(
                p,
                s.drop_last(),
                t.drop_last(),
            ),
            Ok(v) => exists|pr: Result<bool, E>|
                #[trigger] call_ensures(p, (&v,), pr) && (match pr {
                    Ok(true) => t.len() > 0 && t.last() == Ok::<O, E>(v) && filtered(
                        p,
                        s.drop_last(),
                        t.drop_last(),
                    ),
                    Ok(false) => filtered(p, s.drop_last(), t),
                    Err(e2) => t.len() > 0 && t.last() == Err::<O, E>(e2) && filtered(
                        p,
                        s.drop_last(),
                        t.drop_last(),
                    ),
                }),
        }
    }
}

/// The success payload of each element of `s`, position by position.
/// Meaningful on the positions where the element is a success.
pub open spec fn payloads<O, E>(s: Seq<Result<O, E>>) -> Seq<O> {
    s.map_values(|x: Result<O, E>| x->Ok_0)
}

/// One possible result of folding a maximum through the values `xs` with the
/// comparator `cmp`, starting from `acc`: at each step the new value replaces
/// the accumulator unless the comparator orders the accumulator strictly
/// greater, so of values that compare equal the last one wins.
pub open spec fn max_by_folded<O, F: Fn(&O, &O) -> Ordering>(
    cmp: F,
    acc: O,
    xs: Seq<O>,
    out: O,
) -> bool
    decreases xs.len(),
{
    if xs.len() == 0 {
        out == acc
    } else {
        exists|ord: Ordering|
            #[trigger] call_ensures(cmp, (&acc, &xs.first()), ord) && max_by_folded(
                cmp,
                if ord == Ordering::Greater {
                    acc
                } else {
                    xs.first()
                },
                xs.drop_first(),
                out,
            )
    }
}

/// One possible result of folding a minimum through the values `xs` with the
/// comparator `cmp`, starting from `acc`: at each step the new value replaces
/// the accumulator unless the comparator orders the accumulator strictly
/// less, so of values that compare equal the last one wins.
pub open spec fn min_by_folded<O, F: Fn(&O, &O) -> Ordering>(
    cmp: F,
    acc: O,
    xs: Seq<O>,
    out: O,
) -> bool
    decreases xs.len(),
{
    if xs.len() == 0 {
        out == acc
    } else {
        exists|ord: Ordering|
            #[trigger] call_ensures(cmp, (&acc, &xs.first()), ord) && min_by_folded(
                cmp,
                if ord == Ordering::Less {
                    acc
                } else {
                    xs.first()
                },
                xs.drop_first(),
                out,
            )
    }
}

/// The maximum of `acc` and the values `xs` under the specification-level
/// ordering of `O`, the last of equally-extreme values winning.
pub open spec fn spec_max_from<O: Ord>(acc: O, xs: Seq<O>) -> O
    decreases xs.len(),
{
    if xs.len() == 0 {
        acc
    } else {
        spec_max_from(
            if acc.cmp_spec(&xs.first()) == Ordering::Greater {
                acc
            } else {
                xs.first()
            },
            xs.drop_first(),
        )
    }
}

/// The minimum of `acc` and the values `xs` under the specification-level
/// ordering of `O`, the last of equally-extreme values winning.
pub open spec fn spec_min_from<O: Ord>(acc: O, xs: Seq<O>) -> O
    decreases xs.len(),
{
    if xs.len() == 0 {
        acc
    } else {
        spec_min_from(
            if acc.cmp_spec(&xs.first()) == Ordering::Less {
                acc
            } else {
                xs.first()
            },
            xs.drop_first(),
        )
    }
}

/// One possible result of folding a maximum through the values `xs` with the
/// key function `f` and the ordering of the key type `K`, starting from
/// `acc`: at each step the new value replaces the accumulator unless the
/// accumulator's key is ordered strictly greater, so of values whose keys
/// compare equal the last one wins.
pub open spec fn max_by_key_folded<O, K: Ord, F: Fn(&O) -> K>(
    f: F,
    acc: O,
    xs: Seq<O>,
    out: O,
) -> bool
    decreases xs.len(),
{
    if xs.len() == 0 {
        out == acc
    } else {
        exists|ka: K, kx: K, ord: Ordering|
            {
                &&& #[trigger] call_ensures(f, (&acc,), ka)
                &&& #[trigger] call_ensures(f, (&xs.first(),), kx)
                &&& #[trigger] call_ensures(K::cmp, (&kx, &ka), ord)
                &&& max_by_key_folded(
                    f,
                    if ord == Ordering::Less {
                        acc
                    } else {
                        xs.first()
                    },
                    xs.drop_first(),
                    out,
                )
            }
    }
}

/// One possible result of folding a minimum through the values `xs` with the
/// key function `f` and the ordering of the key type `K`, starting from
/// `acc`: at each step the new value replaces the accumulator unless the
/// accumulator's key is ordered strictly less, so of values whose keys
/// compare equal the last one wins.
pub open spec fn min_by_key_folded<O, K: Ord, F: Fn(&O) -> K>(
    f: F,
    acc: O,
    xs: Seq<O>,
    out: O,
) -> bool
    decreases xs.len(),
{
    if xs.len() == 0 {
        out == acc
    } else {
        exists|ka: K, kx: K, ord: Ordering|
            {
                &&& #[trigger] call_ensures(f, (&acc,), ka)
                &&& #[trigger] call_ensures(f, (&xs.first(),), kx)
                &&& #[trigger] call_ensures(K::cmp, (&kx, &ka), ord)
                &&& min_by_key_folded(
                    f,
                    if ord == Ordering::Greater {
                        acc
                    } else {
                        xs.first()
                    },
                    xs.drop_first(),
                    out,
                )
            }
    }
}

/// When the comparator agrees with the specification-level ordering of `O`,
/// folding a maximum through it is deterministic: the one reachable result
/// is [`spec_max_from`].
pub proof fn lemma_max_by_folded_exact<O: Ord, F: Fn(&O, &O) -> Ordering>(
    cmp: F,
    acc: O,
    xs: Seq<O>,
    out: O,
)
    requires
        max_by_folded(cmp, acc, xs, out),
        forall|a: O, b: O, r: Ordering| #[trigger]
            call_ensures(cmp, (&a, &b), r) ==> r == a.cmp_spec(&b),
    ensures
        out == spec_max_from(acc, xs),
    decreases xs.len(),
{
    if xs.len() == 0 {
    } else {
        let ord = choose|ord: Ordering|
            #[trigger] call_ensures(cmp, (&acc, &xs.first()), ord) && max_by_folded(
                cmp,
                if ord == Ordering::Greater {
                    acc
                } else {
                    xs.first()
                },
                xs.drop_first(),
                out,
            );
        lemma_max_by_folded_exact(
            cmp,
            if ord == Ordering::Greater {
                acc
            } else {
                xs.first()
            },
            xs.drop_first(),
            out,
        );
    }
}

/// When the comparator agrees with the specification-level ordering of `O`,
/// folding a minimum through it is deterministic: the one reachable result
/// is [`spec_min_from`].
pub proof fn lemma_min_by_folded_exact<O: Ord, F: Fn(&O, &O) -> Ordering>(
    cmp: F,
    acc: O,
    xs: Seq<O>,
    out: O,
)
    requires
        min_by_folded(cmp, acc, xs, out),
        forall|a: O, b: O, r: Ordering| #[trigger]
            call_ensures(cmp, (&a, &b), r) ==> r == a.cmp_spec(&b),
    ensures
        out == spec_min_from(acc, xs),
    decreases xs.len(),
{
    if xs.len() == 0 {
    } else {
        let ord = choose|ord: Ordering|
            #[trigger] call_ensures(cmp, (&acc, &xs.first()), ord) && min_by_folded(
                cmp,
                if ord == Ordering::Less {
                    acc
                } else {
                    xs.first()
                },
                xs.drop_first(),
                out,
            );
        lemma_min_by_folded_exact(
            cmp,
            if ord == Ordering::Less {
                acc
            } else {
                xs.first()
            },
            xs.drop_first(),
            out,
        );
    }
}

/// Extension methods on every fallible sequence: transformations of success
/// and error payloads, short-circuiting predicates and reductions, and the
/// lookahead adapter.
///
/// The transformation combinators evaluate the sequence strictly and hand
/// back their output as a [`TryIter`]; the order in which successes and
/// failures interleave is preserved exactly.  The predicates and reductions
/// advance the sequence only up to their short-circuit point, so the elements
/// after that point stay available in the underlying sequence.
pub trait TryIteratorExt: TryIterator {
    /// Attempt to retrieve the next value from the sequence, lifting the
    /// error if one occurs.  The sequence is left positioned past the yielded
    /// element, so a failure is raised once and not re-raised afterwards.
    fn try_next(&mut self) -> (r: Result<Option<Self::Ok>, Self::Err>)
        requires
            old(self).wf(),
        ensures
            final(self).wf(),
            old(self).remaining().len() == 0 ==> r == Ok::<Option<Self::Ok>, Self::Err>(None)
                && final(self).remaining() == old(self).remaining(),
            old(self).remaining().len() > 0 ==> final(self).remaining() == old(
                self,
            ).remaining().drop_first() && (match old(self).remaining().first() {
                Ok(v) => r == Ok::<Option<Self::Ok>, Self::Err>(Some(v)),
                Err(e) => r == Err::<Option<Self::Ok>, Self::Err>(e),
            }),
    {
        match self.next() {
            None => Ok(None),
            Some(Ok(v)) => Ok(Some(v)),
            Some(Err(e)) => Err(e),
        }
    }

    /// Wrap the sequence in a new sequence that converts every failure into
    /// the error type `E2`.  Success values pass through untouched, at their
    /// original positions, and the conversion never touches the success path.
    fn err_into<E2>(self) -> (r: TryIter<Self::Ok, E2>) where Self::Err: Into<E2>
        requires
            self.wf(),
        ensures
            r.wf(),
            r.remaining().len() == self.remaining().len(),
            forall|i: int|
                0 <= i < self.remaining().len() ==> (match self.remaining()[i] {
                    Ok(v) => #[trigger] r.remaining()[i] == Ok::<Self::Ok, E2>(v),
                    Err(e) => r.remaining()[i] is Err && call_ensures(
                        <Self::Err as Into<E2>>::into,
                        (e,),
                        r.remaining()[i]->Err_0,
                    ),
                }),
    {
        let ghost s = self.remaining();
        let mut it = self;
        let mut out: Vec<Result<Self::Ok, E2>> = Vec::new();
        loop
            invariant
                it.wf(),
                it.remaining() == s.skip(out@.len() as int),
                out@.len() <= s.len(),
                forall|i: int|
                    0 <= i < out@.len() ==> (match s[i] {
                        Ok(v) => #[trigger] out@[i] == Ok::<Self::Ok, E2>(v),
                        Err(e) => out@[i] is Err && call_ensures(
                            <Self::Err as Into<E2>>::into,
                            (e,),
                            out@[i]->Err_0,
                        ),
                    }),
            ensures
                out@.len() == s.len(),
                forall|i: int|
                    0 <= i < out@.len() ==> (match s[i] {
                        Ok(v) => #[trigger] out@[i] == Ok::<Self::Ok, E2>(v),
                        Err(e) => out@[i] is Err && call_ensures(
                            <Self::Err as Into<E2>>::into,
                            (e,),
                            out@[i]->Err_0,
                        ),
                    }),
            decreases it.remaining().len(),
        {
            let ghost pos = out@.len() as int;
            match it.next() {
                Some(Ok(v)) => {
                    proof {
                        assert(s[pos] == Ok::<Self::Ok, Self::Err>(v));
                    }
                    out.push(Ok(v));
                }
                Some(Err(e)) => {
                    proof {
                        assert(s[pos] == Err::<Self::Ok, Self::Err>(e));
                    }
                    let e2: E2 = e.into();
                    out.push(Err(e2));
                }
                None => {
                    break;
                }
            }
            proof {
                assert(it.remaining() =~= s.skip(out@.len() as int));
            }
        }
        TryIter::from_vec(out)
    }

    /// Wrap the sequence in a new sequence that maps every success value
    /// through `f`; the function itself may fail, and its failure takes the
    /// element's place.  Failures of the underlying sequence pass through
    /// unchanged, at their original positions.
    fn map_ok<T, F: Fn(Self::Ok) -> Result<T, Self::Err>>(self, f: F) -> (r: TryIter<
        T,
        Self::Err,
    >)
        requires
            self.wf(),
            forall|i: int|
                0 <= i < self.remaining().len() && self.remaining()[i] is Ok ==> call_requires(
                    f,
                    (self.remaining()[i]->Ok_0,),
                ),
        ensures
            r.wf(),
            r.remaining().len() == self.remaining().len(),
            forall|i: int|
                0 <= i < self.remaining().len() ==> (match self.remaining()[i] {
                    Ok(v) => call_ensures(f, (v,), #[trigger] r.remaining()[i]),
                    Err(e) => r.remaining()[i] == Err::<T, Self::Err>(e),
                }),
    {
        let ghost s = self.remaining();
        let mut it = self;
        let mut out: Vec<Result<T, Self::Err>> = Vec::new();
        loop
            invariant
                it.wf(),
                forall|i: int|
                    0 <= i < s.len() && s[i] is Ok ==> call_requires(f, (s[i]->Ok_0,)),
                it.remaining() == s.skip(out@.len() as int),
                out@.len() <= s.len(),
                forall|i: int|
                    0 <= i < out@.len() ==> (match s[i] {
                        Ok(v) => call_ensures(f, (v,), #[trigger] out@[i]),
                        Err(e) => out@[i] == Err::<T, Self::Err>(e),
                    }),
            ensures
                out@.len() == s.len(),
                forall|i: int|
                    0 <= i < out@.len() ==> (match s[i] {
                        Ok(v) => call_ensures(f, (v,), #[trigger] out@[i]),
                        Err(e) => out@[i] == Err::<T, Self::Err>(e),
                    }),
            decreases it.remaining().len(),
        {
            let ghost pos = out@.len() as int;
            match it.next() {
                Some(Ok(v)) => {
                    proof {
                        assert(s[pos] == Ok::<Self::Ok, Self::Err>(v));
                    }
                    let y = f(v);
                    out.push(y);
                }
                Some(Err(e)) => {
                    proof {
                        assert(s[pos] == Err::<Self::Ok, Self::Err>(e));
                    }
                    out.push(Err(e));
                }
                None => {
                    break;
                }
            }
            proof {
                assert(it.remaining() =~= s.skip(out@.len() as int));
            }
        }
        TryIter::from_vec(out)
    }

    /// Wrap the sequence in a new sequence that maps every failure value
    /// through `f`.  Success values pass through untouched, at their original
    /// positions.
    fn map_err<E2, F: Fn(Self::Err) -> E2>(self, f: F) -> (r: TryIter<Self::Ok, E2>)
        requires
            self.wf(),
            forall|i: int|
                0 <= i < self.remaining().len() && self.remaining()[i] is Err ==> call_requires(
                    f,
                    (self.remaining()[i]->Err_0,),
                ),
        ensures
            r.wf(),
            r.remaining().len() == self.remaining().len(),
            forall|i: int|
                0 <= i < self.remaining().len() ==> (match self.remaining()[i] {
                    Ok(v) => #[trigger] r.remaining()[i] == Ok::<Self::Ok, E2>(v),
                    Err(e) => r.remaining()[i] is Err && call_ensures(
                        f,
                        (e,),
                        r.remaining()[i]->Err_0,
                    ),
                }),
    {
        let ghost s = self.remaining();
        let mut it = self;
        let mut out: Vec<Result<Self::Ok, E2>> = Vec::new();
        loop
            invariant
                it.wf(),
                forall|i: int|
                    0 <= i < s.len() && s[i] is Err ==> call_requires(f, (s[i]->Err_0,)),
                it.remaining() == s.skip(out@.len() as int),
                out@.len() <= s.len(),
                forall|i: int|
                    0 <= i < out@.len() ==> (match s[i] {
                        Ok(v) => #[trigger] out@[i] == Ok::<Self::Ok, E2>(v),
                        Err(e) => out@[i] is Err && call_ensures(f, (e,), out@[i]->Err_0),
                    }),
            ensures
                out@.len() == s.len(),
                forall|i: int|
                    0 <= i < out@.len() ==> (match s[i] {
                        Ok(v) => #[trigger] out@[i] == Ok::<Self::Ok, E2>(v),
                        Err(e) => out@[i] is Err && call_ensures(f, (e,), out@[i]->Err_0),
                    }),
            decreases it.remaining().len(),
        {
            let ghost pos = out@.len() as int;
            match it.next() {
                Some(Ok(v)) => {
                    proof {
                        assert(s[pos] == Ok::<Self::Ok, Self::Err>(v));
                    }
                    out.push(Ok(v));
                }
                Some(Err(e)) => {
                    proof {
                        assert(s[pos] == Err::<Self::Ok, Self::Err>(e));
                    }
                    let e2 = f(e);
                    out.push(Err(e2));
                }
                None => {
                    break;
                }
            }
            proof {
                assert(it.remaining() =~= s.skip(out@.len() as int));
            }
        }
        TryIter::from_vec(out)
    }

    /// Do something with each success value of the sequence, afterwards
    /// passing the element on unchanged.
    fn inspect_ok<F: Fn(&Self::Ok)>(self, f: F) -> (r: TryIter<Self::Ok, Self::Err>)
        requires
            self.wf(),
            forall|i: int|
                0 <= i < self.remaining().len() && self.remaining()[i] is Ok ==> call_requires(
                    f,
                    (&self.remaining()[i]->Ok_0,),
                ),
        ensures
            r.wf(),
            r.remaining() == self.remaining(),
    {
        let ghost s = self.remaining();
        let mut it = self;
        let mut out: Vec<Result<Self::Ok, Self::Err>> = Vec::new();
        loop
            invariant
                it.wf(),
                forall|i: int|
                    0 <= i < s.len() && s[i] is Ok ==> call_requires(f, (&s[i]->Ok_0,)),
                it.remaining() == s.skip(out@.len() as int),
                out@.len() <= s.len(),
                out@ == s.take(out@.len() as int),
            ensures
                out@ == s,
            decreases it.remaining().len(),
        {
            let ghost pos = out@.len() as int;
            match it.next() {
                Some(Ok(v)) => {
                    proof {
                        assert(s[pos] == Ok::<Self::Ok, Self::Err>(v));
                    }
                    f(&v);
                    out.push(Ok(v));
                }
                Some(Err(e)) => {
                    proof {
                        assert(s[pos] == Err::<Self::Ok, Self::Err>(e));
                    }
                    out.push(Err(e));
                }
                None => {
                    proof {
                        assert(out@ =~= s);
                    }
                    break;
                }
            }
            proof {
                assert(it.remaining() =~= s.skip(out@.len() as int));
                assert(out@ =~= s.take(out@.len() as int));
            }
        }
        TryIter::from_vec(out)
    }

    /// Do something with each error value of the sequence, afterwards
    /// passing the element on unchanged.
    fn inspect_err<F: Fn(&Self::Err)>(self, f: F) -> (r: TryIter<Self::Ok, Self::Err>)
        requires
            self.wf(),
            forall|i: int|
                0 <= i < self.remaining().len() && self.remaining()[i] is Err ==> call_requires(
                    f,
                    (&self.remaining()[i]->Err_0,),
                ),
        ensures
            r.wf(),
            r.remaining() == self.remaining(),
    {
        let ghost s = self.remaining();
        let mut it = self;
        let mut out: Vec<Result<Self::Ok, Self::Err>> = Vec::new();
        loop
            invariant
                it.wf(),
                forall|i: int|
                    0 <= i < s.len() && s[i] is Err ==> call_requires(f, (&s[i]->Err_0,)),
                it.remaining() == s.skip(out@.len() as int),
                out@.len() <= s.len(),
                out@ == s.take(out@.len() as int),
            ensures
                out@ == s,
            decreases it.remaining().len(),
        {
            let ghost pos = out@.len() as int;
            match it.next() {
                Some(Ok(v)) => {
                    proof {
                        assert(s[pos] == Ok::<Self::Ok, Self::Err>(v));
                    }
                    out.push(Ok(v));
                }
                Some(Err(e)) => {
                    proof {
                        assert(s[pos] == Err::<Self::Ok, Self::Err>(e));
                    }
                    f(&e);
                    out.push(Err(e));
                }
                None => {
                    proof {
                        assert(out@ =~= s);
                    }
                    break;
                }
            }
            proof {
                assert(it.remaining() =~= s.skip(out@.len() as int));
                assert(out@ =~= s.take(out@.len() as int));
            }
        }
        TryIter::from_vec(out)
    }

    /// Wrap the sequence in a new sequence that filters and maps the success
    /// values through the effectful function `f`: a kept payload takes the
    /// element's place, a dropped payload leaves no element, and a failure
    /// raised by `f` takes the element's place.  Failures of the underlying
    /// sequence pass through unchanged and are never offered to `f`.
    ///
    /// This is the foundational filtering primitive;
    /// [`try_filter`](TryIteratorExt::try_filter) is defined in terms of it.
    fn try_filter_map<T, F: Fn(Self::Ok) -> Result<Option<T>, Self::Err>>(self, f: F) -> (r:
        TryIter<T, Self::Err>)
        requires
            self.wf(),
            forall|i: int|
                0 <= i < self.remaining().len() && self.remaining()[i] is Ok ==> call_requires(
                    f,
                    (self.remaining()[i]->Ok_0,),
                ),
        ensures
            r.wf(),
            filter_mapped(f, self.remaining(), r.remaining()),
    {
        let ghost s = self.remaining();
        let mut it = self;
        let mut out: Vec<Result<T, Self::Err>> = Vec::new();
        let ghost mut seen: int = 0;
        loop
            invariant
                it.wf(),
                forall|i: int|
                    0 <= i < s.len() && s[i] is Ok ==> call_requires(f, (s[i]->Ok_0,)),
                0 <= seen <= s.len(),
                it.remaining() == s.skip(seen),
                filter_mapped(f, s.take(seen), out@),
            ensures
                filter_mapped(f, s, out@),
            decreases it.remaining().len(),
        {
            match it.next() {
                Some(Ok(v)) => {
                    proof {
                        assert(s[seen] == Ok::<Self::Ok, Self::Err>(v));
                    }
                    let y = f(v);
                    proof {
                        assert(s.take(seen + 1).last() == Ok::<Self::Ok, Self::Err>(v));
                        assert(s.take(seen + 1).drop_last() =~= s.take(seen));
                    }
                    match y {
                        Ok(Some(x)) => {
                            proof {
                                assert(out@.push(Ok::<T, Self::Err>(x)).drop_last() =~= out@);
                                assert(call_ensures(
                                    f,
                                    (v,),
                                    Ok::<Option<T>, Self::Err>(Some(x)),
                                ));
                            }
                            out.push(Ok(x));
                        }
                        Ok(None) => {
                            proof {
                                assert(call_ensures(f, (v,), Ok::<Option<T>, Self::Err>(None)));
                            }
                        }
                        Err(e2) => {
                            proof {
                                assert(out@.push(Err::<T, Self::Err>(e2)).drop_last() =~= out@);
                                assert(call_ensures(f, (v,), Err::<Option<T>, Self::Err>(e2)));
                            }
                            out.push(Err(e2));
                        }
                    }
                    proof {
                        seen = seen + 1;
                    }
                }
                Some(Err(e)) => {
                    proof {
                        assert(s[seen] == Err::<Self::Ok, Self::Err>(e));
                        assert(s.take(seen + 1).last() == Err::<Self::Ok, Self::Err>(e));
                        assert(s.take(seen + 1).drop_last() =~= s.take(seen));
                        assert(out@.push(Err::<T, Self::Err>(e)).drop_last() =~= out@);
                    }
                    out.push(Err(e));
                    proof {
                        seen = seen + 1;
                    }
                }
                None => {
                    proof {
                        assert(s.take(seen) =~= s);
                    }
                    break;
                }
            }
            proof {
                assert(it.remaining() =~= s.skip(seen));
            }
        }
        TryIter::from_vec(out)
    }

    /// Wrap the sequence in a new sequence that filters the success values
    /// through the effectful predicate: an accepted value passes through
    /// unchanged, a rejected one leaves no element, and a failure raised by
    /// the predicate takes the element's place.  Failures of the underlying
    /// sequence pass through unchanged and are never offered to the
    /// predicate.
    ///
    /// Plain filtering is the special case of
    /// [`try_filter_map`](TryIteratorExt::try_filter_map) that keeps an
    /// accepted payload unchanged instead of mapping it.
    fn try_filter<P: Fn(&Self::Ok) -> Result<bool, Self::Err>>(self, predicate: P) -> (r: TryIter<
        Self::Ok,
        Self::Err,
    >)
        requires
            self.wf(),
            forall|i: int|
                0 <= i < self.remaining().len() && self.remaining()[i] is Ok ==> call_requires(
                    predicate,
                    (&self.remaining()[i]->Ok_0,),
                ),
        ensures
            r.wf(),
            filtered(predicate, self.remaining(), r.remaining()),
    {
        let ghost s = self.remaining();
        let mut it = self;
        let mut out: Vec<Result<Self::Ok, Self::Err>> = Vec::new();
        let ghost mut seen: int = 0;
        loop
            invariant
                it.wf(),
                forall|i: int|
                    0 <= i < s.len() && s[i] is Ok ==> call_requires(predicate, (&s[i]->Ok_0,)),
                0 <= seen <= s.len(),
                it.remaining() == s.skip(seen),
                filtered(predicate, s.take(seen), out@),
            ensures
                filtered(predicate, s, out@),
            decreases it.remaining().len(),
        {
            match it.next() {
                Some(Ok(v)) => {
                    proof {
                        assert(s[seen] == Ok::<Self::Ok, Self::Err>(v));
                    }
                    let keep = predicate(&v);
                    proof {
                        assert(s.take(seen + 1).last() == Ok::<Self::Ok, Self::Err>(v));
                        assert(s.take(seen + 1).drop_last() =~= s.take(seen));
                    }
                    match keep {
                        Ok(true) => {
                            proof {
                                assert(out@.push(Ok::<Self::Ok, Self::Err>(v)).drop_last()
                                    =~= out@);
                                assert(call_ensures(
                                    predicate,
                                    (&v,),
                                    Ok::<bool, Self::Err>(true),
                                ));
                            }
                            out.push(Ok(v));
                        }
                        Ok(false) => {
                            proof {
                                assert(call_ensures(
                                    predicate,
                                    (&v,),
                                    Ok::<bool, Self::Err>(false),
                                ));
                            }
                        }
                        Err(e2) => {
                            proof {
                                assert(out@.push(Err::<Self::Ok, Self::Err>(e2)).drop_last()
                                    =~= out@);
                                assert(call_ensures(predicate, (&v,), Err::<bool, Self::Err>(e2)));
                            }
                            out.push(Err(e2));
                        }
                    }
                    proof {
                        seen = seen + 1;
                    }
                }
                Some(Err(e)) => {
                    proof {
                        assert(s[seen] == Err::<Self::Ok, Self::Err>(e));
                        assert(s.take(seen + 1).last() == Err::<Self::Ok, Self::Err>(e));
                        assert(s.take(seen + 1).drop_last() =~= s.take(seen));
                        assert(out@.push(Err::<Self::Ok, Self::Err>(e)).drop_last() =~= out@);
                    }
                    out.push(Err(e));
                    proof {
                        seen = seen + 1;
                    }
                }
                None => {
                    proof {
                        assert(s.take(seen) =~= s);
                    }
                    break;
                }
            }
            proof {
                assert(it.remaining() =~= s.skip(seen));
            }
        }
        TryIter::from_vec(out)
    }

    /// Whether the effectful predicate `f` holds of every success value.
    ///
    /// Short-circuiting: traversal stops at the first failure (from the
    /// sequence or from `f`), which is returned, and at the first success
    /// value the predicate rejects, which yields `Ok(false)`.  Elements after
    /// the stopping point are left unconsumed, so the caller may continue
    /// draining the sequence afterwards.
    fn try_all<F: Fn(Self::Ok) -> Result<bool, Self::Err>>(&mut self, f: F) -> (r: Result<
        bool,
        Self::Err,
    >)
        requires
            old(self).wf(),
            forall|i: int|
                0 <= i < old(self).remaining().len() && old(self).remaining()[i] is Ok
                    ==> call_requires(f, (old(self).remaining()[i]->Ok_0,)),
        ensures
            final(self).wf(),
            r == Ok::<bool, Self::Err>(true) ==> final(self).remaining().len() == 0 && (forall|
                i: int,
            |
                0 <= i < old(self).remaining().len() ==> (#[trigger] old(self).remaining()[i]) is Ok
                    && call_ensures(
                    f,
                    (old(self).remaining()[i]->Ok_0,),
                    Ok::<bool, Self::Err>(true),
                )),
            r == Ok::<bool, Self::Err>(false) ==> exists|k: int|
                {
                    &&& 0 <= k < old(self).remaining().len()
                    &&& forall|i: int|
                        0 <= i < k ==> (#[trigger] old(self).remaining()[i]) is Ok && call_ensures(
                            f,
                            (old(self).remaining()[i]->Ok_0,),
                            Ok::<bool, Self::Err>(true),
                        )
                    &&& (#[trigger] old(self).remaining()[k]) is Ok
                    &&& call_ensures(
                        f,
                        (old(self).remaining()[k]->Ok_0,),
                        Ok::<bool, Self::Err>(false),
                    )
                    &&& final(self).remaining() == old(self).remaining().skip(k + 1)
                },
            r matches Err(e) ==> exists|k: int|
                {
                    &&& 0 <= k < old(self).remaining().len()
                    &&& forall|i: int|
                        0 <= i < k ==> (#[trigger] old(self).remaining()[i]) is Ok && call_ensures(
                            f,
                            (old(self).remaining()[i]->Ok_0,),
                            Ok::<bool, Self::Err>(true),
                        )
                    &&& (match #[trigger] old(self).remaining()[k] {
                        Err(e0) => e0 == e,
                        Ok(v) => call_ensures(f, (v,), Err::<bool, Self::Err>(e)),
                    })
                    &&& final(self).remaining() == old(self).remaining().skip(k + 1)
                },
    {
        let ghost s = old(self).remaining();
        let ghost mut seen: int = 0;
        loop
            invariant
                self.wf(),
                s == old(self).remaining(),
                0 <= seen <= s.len(),
                self.remaining() == s.skip(seen),
                forall|i: int|
                    0 <= i < s.len() && s[i] is Ok ==> call_requires(f, (s[i]->Ok_0,)),
                forall|i: int|
                    0 <= i < seen ==> (#[trigger] s[i]) is Ok && call_ensures(
                        f,
                        (s[i]->Ok_0,),
                        Ok::<bool, Self::Err>(true),
                    ),
            decreases self.remaining().len(),
        {
            match self.next() {
                None => {
                    return Ok(true);
                }
                Some(Ok(v)) => {
                    proof {
                        assert(s[seen] == Ok::<Self::Ok, Self::Err>(v));
                        assert(self.remaining() =~= s.skip(seen + 1));
                    }
                    match f(v) {
                        Ok(true) => {
                            proof {
                                seen = seen + 1;
                            }
                        }
                        Ok(false) => {
                            return Ok(false);
                        }
                        Err(e) => {
                            return Err(e);
                        }
                    }
                }
                Some(Err(e)) => {
                    proof {
                        assert(s[seen] == Err::<Self::Ok, Self::Err>(e));
                        assert(self.remaining() =~= s.skip(seen + 1));
                    }
                    return Err(e);
                }
            }
        }
    }

    /// Whether the effectful predicate `f` holds of some success value.
    ///
    /// Short-circuiting: traversal stops at the first failure (from the
    /// sequence or from `f`), which is returned, and at the first success
    /// value the predicate accepts, which yields `Ok(true)`.  Elements after
    /// the stopping point are left unconsumed, so the caller may continue
    /// draining the sequence afterwards.
    fn try_any<F: Fn(Self::Ok) -> Result<bool, Self::Err>>(&mut self, f: F) -> (r: Result<
        bool,
        Self::Err,
    >)
        requires
            old(self).wf(),
            forall|i: int|
                0 <= i < old(self).remaining().len() && old(self).remaining()[i] is Ok
                    ==> call_requires(f, (old(self).remaining()[i]->Ok_0,)),
        ensures
            final(self).wf(),
            r == Ok::<bool, Self::Err>(false) ==> final(self).remaining().len() == 0 && (forall|
                i: int,
            |
                0 <= i < old(self).remaining().len() ==> (#[trigger] old(self).remaining()[i]) is Ok
                    && call_ensures(
                    f,
                    (old(self).remaining()[i]->Ok_0,),
                    Ok::<bool, Self::Err>(false),
                )),
            r == Ok::<bool, Self::Err>(true) ==> exists|k: int|
                {
                    &&& 0 <= k < old(self).remaining().len()
                    &&& forall|i: int|
                        0 <= i < k ==> (#[trigger] old(self).remaining()[i]) is Ok && call_ensures(
                            f,
                            (old(self).remaining()[i]->Ok_0,),
                            Ok::<bool, Self::Err>(false),
                        )
                    &&& (#[trigger] old(self).remaining()[k]) is Ok
                    &&& call_ensures(
                        f,
                        (old(self).remaining()[k]->Ok_0,),
                        Ok::<bool, Self::Err>(true),
                    )
                    &&& final(self).remaining() == old(self).remaining().skip(k + 1)
                },
            r matches Err(e) ==> exists|k: int|
                {
                    &&& 0 <= k < old(self).remaining().len()
                    &&& forall|i: int|
                        0 <= i < k ==> (#[trigger] old(self).remaining()[i]) is Ok && call_ensures(
                            f,
                            (old(self).remaining()[i]->Ok_0,),
                            Ok::<bool, Self::Err>(false),
                        )
                    &&& (match #[trigger] old(self).remaining()[k] {
                        Err(e0) => e0 == e,
                        Ok(v) => call_ensures(f, (v,), Err::<bool, Self::Err>(e)),
                    })
                    &&& final(self).remaining() == old(self).remaining().skip(k + 1)
                },
    {
        let ghost s = old(self).remaining();
        let ghost mut seen: int = 0;
        loop
            invariant
                self.wf(),
                s == old(self).remaining(),
                0 <= seen <= s.len(),
                self.remaining() == s.skip(seen),
                forall|i: int|
                    0 <= i < s.len() && s[i] is Ok ==> call_requires(f, (s[i]->Ok_0,)),
                forall|i: int|
                    0 <= i < seen ==> (#[trigger] s[i]) is Ok && call_ensures(
                        f,
                        (s[i]->Ok_0,),
                        Ok::<bool, Self::Err>(false),
                    ),
            decreases self.remaining().len(),
        {
            match self.next() {
                None => {
                    return Ok(false);
                }
                Some(Ok(v)) => {
                    proof {
                        assert(s[seen] == Ok::<Self::Ok, Self::Err>(v));
                        assert(self.remaining() =~= s.skip(seen + 1));
                    }
                    match f(v) {
                        Ok(false) => {
                            proof {
                                seen = seen + 1;
                            }
                        }
                        Ok(true) => {
                            return Ok(true);
                        }
                        Err(e) => {
                            return Err(e);
                        }
                    }
                }
                Some(Err(e)) => {
                    proof {
                        assert(s[seen] == Err::<Self::Ok, Self::Err>(e));
                        assert(self.remaining() =~= s.skip(seen + 1));
                    }
                    return Err(e);
                }
            }
        }
    }

    /// Consume a sequence of pairs, splitting each pair into two vectors,
    /// one per position.
    ///
    /// Short-circuiting: the first failure encountered is returned in place
    /// of a result, the accumulated vectors are discarded, and the elements
    /// after the failure are left unconsumed.  A sequence without failures is
    /// consumed entirely and yields both vectors.
    fn try_unzip<A, B>(&mut self) -> (r: Result<(Vec<A>, Vec<B>), Self::Err>) where
        Self: TryIterator<Ok = (A, B)>,

        requires
            old(self).wf(),
        ensures
            final(self).wf(),
            all_ok(old(self).remaining()) <==> (r is Ok),
            r matches Ok(pair) ==> {
                &&& final(self).remaining().len() == 0
                &&& pair.0@.len() == old(self).remaining().len()
                &&& pair.1@.len() == old(self).remaining().len()
                &&& forall|i: int|
                    0 <= i < old(self).remaining().len() ==> (#[trigger] old(
                        self,
                    ).remaining()[i]) is Ok && pair.0@[i] == old(self).remaining()[i]->Ok_0.0
                        && pair.1@[i] == old(self).remaining()[i]->Ok_0.1
            },
            r matches Err(e) ==> exists|k: int|
                {
                    &&& #[trigger] first_err_at(old(self).remaining(), k)
                    &&& old(self).remaining()[k]->Err_0 == e
                    &&& final(self).remaining() == old(self).remaining().skip(k + 1)
                },
    {
        let ghost s = old(self).remaining();
        let ghost mut seen: int = 0;
        let mut left_list: Vec<A> = Vec::new();
        let mut right_list: Vec<B> = Vec::new();
        loop
            invariant
                self.wf(),
                s == old(self).remaining(),
                0 <= seen <= s.len(),
                self.remaining() == s.skip(seen),
                left_list@.len() == seen,
                right_list@.len() == seen,
                forall|i: int|
                    0 <= i < seen ==> (#[trigger] s[i]) is Ok && left_list@[i] == s[i]->Ok_0.0
                        && right_list@[i] == s[i]->Ok_0.1,
            decreases self.remaining().len(),
        {
            match self.next() {
                None => {
                    return Ok((left_list, right_list));
                }
                Some(Ok(couple)) => {
                    proof {
                        assert(s[seen] == Ok::<(A, B), Self::Err>(couple));
                        assert(self.remaining() =~= s.skip(seen + 1));
                    }
                    let (l, rgt) = couple;
                    left_list.push(l);
                    right_list.push(rgt);
                    proof {
                        seen = seen + 1;
                    }
                }
                Some(Err(e)) => {
                    proof {
                        assert(s[seen] == Err::<(A, B), Self::Err>(e));
                        assert(self.remaining() =~= s.skip(seen + 1));
                        assert(first_err_at(s, seen));
                    }
                    return Err(e);
                }
            }
        }
    }

    /// Consume the sequence and return the success value that gives the
    /// maximum with respect to the comparison function; of several equally
    /// maximum values the last is returned, and an empty sequence yields
    /// `Ok(None)`.  The first failure encountered aborts the reduction and is
    /// returned in its place.
    #[verifier::loop_isolation(false)]
    fn try_max_by<F: Fn(&Self::Ok, &Self::Ok) -> Ordering>(self, compare: F) -> (r: Result<
        Option<Self::Ok>,
        Self::Err,
    >)
        requires
            self.wf(),
            forall|a: Self::Ok, b: Self::Ok| call_requires(compare, (&a, &b)),
        ensures
            all_ok(self.remaining()) <==> (r is Ok),
            r == Ok::<Option<Self::Ok>, Self::Err>(None::<Self::Ok>) <==> (
            self.remaining().len() == 0),
            r matches Ok(Some(m)) ==> self.remaining().len() > 0 && payloads(
                self.remaining(),
            ).contains(m) && max_by_folded(
                compare,
                payloads(self.remaining()).first(),
                payloads(self.remaining()).drop_first(),
                m,
            ),
            r matches Err(e) ==> exists|k: int|
                #[trigger] first_err_at(self.remaining(), k) && self.remaining()[k]->Err_0 == e,
    {
        let ghost s = self.remaining();
        let ghost pl = payloads(s);
        let mut it = self;
        let mut acc = match it.next() {
            None => {
                return Ok(None);
            }
            Some(Err(e)) => {
                proof {
                    assert(first_err_at(s, 0));
                }
                return Err(e);
            }
            Some(Ok(v)) => v,
        };
        let ghost mut seen: int = 1;
        proof {
            assert(pl.first() == acc);
        }
        loop
            invariant
                it.wf(),
                s.len() > 0,
                pl == payloads(s),
                1 <= seen <= s.len(),
                it.remaining() == s.skip(seen),
                forall|i: int| 0 <= i < seen ==> (#[trigger] s[i]) is Ok,
                pl.contains(acc),
                forall|a: Self::Ok, b: Self::Ok| call_requires(compare, (&a, &b)),
                forall|o: Self::Ok| #[trigger]
                    max_by_folded(compare, acc, pl.skip(seen), o) ==> max_by_folded(
                        compare,
                        pl.first(),
                        pl.skip(1),
                        o,
                    ),
            decreases it.remaining().len(),
        {
            match it.next() {
                None => {
                    proof {
                        assert(pl.skip(seen).len() == 0);
                        assert(max_by_folded(compare, acc, pl.skip(seen), acc));
                    }
                    return Ok(Some(acc));
                }
                Some(Err(e)) => {
                    proof {
                        assert(first_err_at(s, seen));
                    }
                    return Err(e);
                }
                Some(Ok(x)) => {
                    proof {
                        assert(s[seen] == Ok::<Self::Ok, Self::Err>(x));
                        assert(it.remaining() =~= s.skip(seen + 1));
                        assert(pl[seen] == x);
                        assert(pl.skip(seen).first() == x);
                        assert(pl.skip(seen).drop_first() =~= pl.skip(seen + 1));
                    }
                    let ghost accpre = acc;
                    let ord = compare(&acc, &x);
                    match ord {
                        Ordering::Greater => {}
                        _ => {
                            acc = x;
                        }
                    }
                    proof {
                        assert forall|o: Self::Ok| #[trigger]
                            max_by_folded(compare, acc, pl.skip(seen + 1), o) implies max_by_folded(
                            compare,
                            pl.first(),
                            pl.skip(1),
                            o,
                        ) by {
                            assert(call_ensures(compare, (&accpre, &pl.skip(seen as int).first()), ord));
                            assert(max_by_folded(compare, accpre, pl.skip(seen), o));
                        };
                        seen = seen + 1;
                    }
                }
            }
        }
    }

    /// Consume the sequence and return the success value that gives the
    /// minimum with respect to the comparison function; of several equally
    /// minimum values the last is returned, and an empty sequence yields
    /// `Ok(None)`.  The first failure encountered aborts the reduction and is
    /// returned in its place.
    #[verifier::loop_isolation(false)]
    fn try_min_by<F: Fn(&Self::Ok, &Self::Ok) -> Ordering>(self, compare: F) -> (r: Result<
        Option<Self::Ok>,
        Self::Err,
    >)
        requires
            self.wf(),
            forall|a: Self::Ok, b: Self::Ok| call_requires(compare, (&a, &b)),
        ensures
            all_ok(self.remaining()) <==> (r is Ok),
            r == Ok::<Option<Self::Ok>, Self::Err>(None::<Self::Ok>) <==> (
            self.remaining().len() == 0),
            r matches Ok(Some(m)) ==> self.remaining().len() > 0 && payloads(
                self.remaining(),
            ).contains(m) && min_by_folded(
                compare,
                payloads(self.remaining()).first(),
                payloads(self.remaining()).drop_first(),
                m,
            ),
            r matches Err(e) ==> exists|k: int|
                #[trigger] first_err_at(self.remaining(), k) && self.remaining()[k]->Err_0 == e,
    {
        let ghost s = self.remaining();
        let ghost pl = payloads(s);
        let mut it = self;
        let mut acc = match it.next() {
            None => {
                return Ok(None);
            }
            Some(Err(e)) => {
                proof {
                    assert(first_err_at(s, 0));
                }
                return Err(e);
            }
            Some(Ok(v)) => v,
        };
        let ghost mut seen: int = 1;
        proof {
            assert(pl.first() == acc);
        }
        loop
            invariant
                it.wf(),
                s.len() > 0,
                pl == payloads(s),
                1 <= seen <= s.len(),
                it.remaining() == s.skip(seen),
                forall|i: int| 0 <= i < seen ==> (#[trigger] s[i]) is Ok,
                pl.contains(acc),
                forall|a: Self::Ok, b: Self::Ok| call_requires(compare, (&a, &b)),
                forall|o: Self::Ok| #[trigger]
                    min_by_folded(compare, acc, pl.skip(seen), o) ==> min_by_folded(
                        compare,
                        pl.first(),
                        pl.skip(1),
                        o,
                    ),
            decreases it.remaining().len(),
        {
            match it.next() {
                None => {
                    proof {
                        assert(pl.skip(seen).len() == 0);
                        assert(min_by_folded(compare, acc, pl.skip(seen), acc));
                    }
                    return Ok(Some(acc));
                }
                Some(Err(e)) => {
                    proof {
                        assert(first_err_at(s, seen));
                    }
                    return Err(e);
                }
                Some(Ok(x)) => {
                    proof {
                        assert(s[seen] == Ok::<Self::Ok, Self::Err>(x));
                        assert(it.remaining() =~= s.skip(seen + 1));
                        assert(pl[seen] == x);
                        assert(pl.skip(seen).first() == x);
                        assert(pl.skip(seen).drop_first() =~= pl.skip(seen + 1));
                    }
                    let ghost accpre = acc;
                    let ord = compare(&acc, &x);
                    match ord {
                        Ordering::Less => {}
                        _ => {
                            acc = x;
                        }
                    }
                    proof {
                        assert forall|o: Self::Ok| #[trigger]
                            min_by_folded(compare, acc, pl.skip(seen + 1), o) implies min_by_folded(
                            compare,
                            pl.first(),
                            pl.skip(1),
                            o,
                        ) by {
                            assert(call_ensures(compare, (&accpre, &pl.skip(seen as int).first()), ord));
                            assert(min_by_folded(compare, accpre, pl.skip(seen), o));
                        };
                        seen = seen + 1;
                    }
                }
            }
        }
    }

    /// Consume the sequence and return the maximum success value under the
    /// ordering of [`Self::Ok`](TryIterator::Ok); of several equally maximum
    /// values the last is returned, and an empty sequence yields `Ok(None)`.
    /// The first failure encountered aborts the reduction and is returned in
    /// its place.
    fn try_max(self) -> (r: Result<Option<Self::Ok>, Self::Err>) where Self::Ok: Ord
        requires
            self.wf(),
        ensures
            all_ok(self.remaining()) <==> (r is Ok),
            r == Ok::<Option<Self::Ok>, Self::Err>(None::<Self::Ok>) <==> (
            self.remaining().len() == 0),
            r matches Ok(Some(m)) ==> self.remaining().len() > 0 && payloads(
                self.remaining(),
            ).contains(m),
            Self::Ok::obeys_cmp_spec() ==> (r matches Ok(Some(m)) ==> m == spec_max_from(
                payloads(self.remaining()).first(),
                payloads(self.remaining()).drop_first(),
            )),
            r matches Err(e) ==> exists|k: int|
                #[trigger] first_err_at(self.remaining(), k) && self.remaining()[k]->Err_0 == e,
    {
        let ghost s = self.remaining();
        let compare = |a: &Self::Ok, b: &Self::Ok| -> (o: Ordering)
            ensures
                Self::Ok::obeys_cmp_spec() ==> o == (*a).cmp_spec(b),
            { a.cmp(b) };
        let r = self.try_max_by(compare);
        proof {
            if Self::Ok::obeys_cmp_spec() && r is Ok && r->Ok_0 is Some {
                let m = r->Ok_0->0;
                assert forall|a: Self::Ok, b: Self::Ok, o: Ordering| #[trigger]
                    call_ensures(compare, (&a, &b), o) implies o == a.cmp_spec(&b) by {}
                lemma_max_by_folded_exact(
                    compare,
                    payloads(s).first(),
                    payloads(s).drop_first(),
                    m,
                );
            }
        }
        r
    }

    /// Consume the sequence and return the minimum success value under the
    /// ordering of [`Self::Ok`](TryIterator::Ok); of several equally minimum
    /// values the last is returned, and an empty sequence yields `Ok(None)`.
    /// The first failure encountered aborts the reduction and is returned in
    /// its place.
    fn try_min(self) -> (r: Result<Option<Self::Ok>, Self::Err>) where Self::Ok: Ord
        requires
            self.wf(),
        ensures
            all_ok(self.remaining()) <==> (r is Ok),
            r == Ok::<Option<Self::Ok>, Self::Err>(None::<Self::Ok>) <==> (
            self.remaining().len() == 0),
            r matches Ok(Some(m)) ==> self.remaining().len() > 0 && payloads(
                self.remaining(),
            ).contains(m),
            Self::Ok::obeys_cmp_spec() ==> (r matches Ok(Some(m)) ==> m == spec_min_from(
                payloads(self.remaining()).first(),
                payloads(self.remaining()).drop_first(),
            )),
            r matches Err(e) ==> exists|k: int|
                #[trigger] first_err_at(self.remaining(), k) && self.remaining()[k]->Err_0 == e,
    {
        let ghost s = self.remaining();
        let compare = |a: &Self::Ok, b: &Self::Ok| -> (o: Ordering)
            ensures
                Self::Ok::obeys_cmp_spec() ==> o == (*a).cmp_spec(b),
            { a.cmp(b) };
        let r = self.try_min_by(compare);
        proof {
            if Self::Ok::obeys_cmp_spec() && r is Ok && r->Ok_0 is Some {
                let m = r->Ok_0->0;
                assert forall|a: Self::Ok, b: Self::Ok, o: Ordering| #[trigger]
                    call_ensures(compare, (&a, &b), o) implies o == a.cmp_spec(&b) by {}
                lemma_min_by_folded_exact(
                    compare,
                    payloads(s).first(),
                    payloads(s).drop_first(),
                    m,
                );
            }
        }
        r
    }

    /// Consume the sequence and return the success value that gives the
    /// maximum key under the key function `f`; of several values whose keys
    /// are equally maximum the last is returned, and an empty sequence yields
    /// `Ok(None)`.  The first failure encountered aborts the reduction and is
    /// returned in its place.
    #[verifier::loop_isolation(false)]
    fn try_max_by_key<K: Ord, F: Fn(&Self::Ok) -> K>(self, f: F) -> (r: Result<
        Option<Self::Ok>,
        Self::Err,
    >)
        requires
            self.wf(),
            forall|a: Self::Ok| call_requires(f, (&a,)),
        ensures
            all_ok(self.remaining()) <==> (r is Ok),
            r == Ok::<Option<Self::Ok>, Self::Err>(None::<Self::Ok>) <==> (
            self.remaining().len() == 0),
            r matches Ok(Some(m)) ==> self.remaining().len() > 0 && payloads(
                self.remaining(),
            ).contains(m) && max_by_key_folded(
                f,
                payloads(self.remaining()).first(),
                payloads(self.remaining()).drop_first(),
                m,
            ),
            r matches Err(e) ==> exists|k: int|
                #[trigger] first_err_at(self.remaining(), k) && self.remaining()[k]->Err_0 == e,
    {
        let ghost s = self.remaining();
        let ghost pl = payloads(s);
        let mut it = self;
        let mut acc = match it.next() {
            None => {
                return Ok(None);
            }
            Some(Err(e)) => {
                proof {
                    assert(first_err_at(s, 0));
                }
                return Err(e);
            }
            Some(Ok(v)) => v,
        };
        let ghost mut seen: int = 1;
        proof {
            assert(pl.first() == acc);
        }
        loop
            invariant
                it.wf(),
                s.len() > 0,
                1 <= seen <= s.len(),
                it.remaining() == s.skip(seen),
                forall|i: int| 0 <= i < seen ==> (#[trigger] s[i]) is Ok,
                pl.contains(acc),
                forall|o: Self::Ok| #[trigger]
                    max_by_key_folded(f, acc, pl.skip(seen), o) ==> max_by_key_folded(
                        f,
                        pl.first(),
                        pl.skip(1),
                        o,
                    ),
            decreases it.remaining().len(),
        {
            match it.next() {
                None => {
                    proof {
                        assert(pl.skip(seen).len() == 0);
                        assert(max_by_key_folded(f, acc, pl.skip(seen), acc));
                    }
                    return Ok(Some(acc));
                }
                Some(Err(e)) => {
                    proof {
                        assert(first_err_at(s, seen));
                    }
                    return Err(e);
                }
                Some(Ok(x)) => {
                    proof {
                        assert(s[seen] == Ok::<Self::Ok, Self::Err>(x));
                        assert(it.remaining() =~= s.skip(seen + 1));
                        assert(pl[seen] == x);
                        assert(pl.skip(seen).first() == x);
                        assert(pl.skip(seen).drop_first() =~= pl.skip(seen + 1));
                    }
                    let ghost accpre = acc;
                    let key_acc = f(&acc);
                    let key_new = f(&x);
                    let ord = key_new.cmp(&key_acc);
                    match ord {
                        Ordering::Less => {}
                        _ => {
                            acc = x;
                        }
                    }
                    proof {
                        assert forall|o: Self::Ok| #[trigger]
                            max_by_key_folded(f, acc, pl.skip(seen + 1), o) implies
                            max_by_key_folded(f, pl.first(), pl.skip(1), o) by {
                            assert(call_ensures(f, (&accpre,), key_acc));
                            assert(call_ensures(f, (&pl.skip(seen as int).first(),), key_new));
                            assert(call_ensures(K::cmp, (&key_new, &key_acc), ord));
                            assert(max_by_key_folded(f, accpre, pl.skip(seen), o));
                        };
                        seen = seen + 1;
                    }
                }
            }
        }
    }

    /// Consume the sequence and return the success value that gives the
    /// minimum key under the key function `f`; of several values whose keys
    /// are equally minimum the last is returned, and an empty sequence yields
    /// `Ok(None)`.  The first failure encountered aborts the reduction and is
    /// returned in its place.
    #[verifier::loop_isolation(false)]
    fn try_min_by_key<K: Ord, F: Fn(&Self::Ok) -> K>(self, f: F) -> (r: Result<
        Option<Self::Ok>,
        Self::Err,
    >)
        requires
            self.wf(),
            forall|a: Self::Ok| call_requires(f, (&a,)),
        ensures
            all_ok(self.remaining()) <==> (r is Ok),
            r == Ok::<Option<Self::Ok>, Self::Err>(None::<Self::Ok>) <==> (
            self.remaining().len() == 0),
            r matches Ok(Some(m)) ==> self.remaining().len() > 0 && payloads(
                self.remaining(),
            ).contains(m) && min_by_key_folded(
                f,
                payloads(self.remaining()).first(),
                payloads(self.remaining()).drop_first(),
                m,
            ),
            r matches Err(e) ==> exists|k: int|
                #[trigger] first_err_at(self.remaining(), k) && self.remaining()[k]->Err_0 == e,
    {
        let ghost s = self.remaining();
        let ghost pl = payloads(s);
        let mut it = self;
        let mut acc = match it.next() {
            None => {
                return Ok(None);
            }
            Some(Err(e)) => {
                proof {
                    assert(first_err_at(s, 0));
                }
                return Err(e);
            }
            Some(Ok(v)) => v,
        };
        let ghost mut seen: int = 1;
        proof {
            assert(pl.first() == acc);
        }
        loop
            invariant
                it.wf(),
                s.len() > 0,
                1 <= seen <= s.len(),
                it.remaining() == s.skip(seen),
                forall|i: int| 0 <= i < seen ==> (#[trigger] s[i]) is Ok,
                pl.contains(acc),
                forall|o: Self::Ok| #[trigger]
                    min_by_key_folded(f, acc, pl.skip(seen), o) ==> min_by_key_folded(
                        f,
                        pl.first(),
                        pl.skip(1),
                        o,
                    ),
            decreases it.remaining().len(),
        {
            match it.next() {
                None => {
                    proof {
                        assert(pl.skip(seen).len() == 0);
                        assert(min_by_key_folded(f, acc, pl.skip(seen), acc));
                    }
                    return Ok(Some(acc));
                }
                Some(Err(e)) => {
                    proof {
                        assert(first_err_at(s, seen));
                    }
                    return Err(e);
                }
                Some(Ok(x)) => {
                    proof {
                        assert(s[seen] == Ok::<Self::Ok, Self::Err>(x));
                        assert(it.remaining() =~= s.skip(seen + 1));
                        assert(pl[seen] == x);
                        assert(pl.skip(seen).first() == x);
                        assert(pl.skip(seen).drop_first() =~= pl.skip(seen + 1));
                    }
                    let ghost accpre = acc;
                    let key_acc = f(&acc);
                    let key_new = f(&x);
                    let ord = key_new.cmp(&key_acc);
                    match ord {
                        Ordering::Greater => {}
                        _ => {
                            acc = x;
                        }
                    }
                    proof {
                        assert forall|o: Self::Ok| #[trigger]
                            min_by_key_folded(f, acc, pl.skip(seen + 1), o) implies
                            min_by_key_folded(f, pl.first(), pl.skip(1), o) by {
                            assert(call_ensures(f, (&accpre,), key_acc));
                            assert(call_ensures(f, (&pl.skip(seen as int).first(),), key_new));
                            assert(call_ensures(K::cmp, (&key_new, &key_acc), ord));
                            assert(min_by_key_folded(f, accpre, pl.skip(seen), o));
                        };
                        seen = seen + 1;
                    }
                }
            }
        }
    }

    /// Wrap the sequence in the lookahead adapter, which supports peeking at
    /// the next success value without consuming it.
    fn try_peekable(self) -> (r: TryPeekable<Self>)
        requires
            self.wf(),
        ensures
            r.wf(),
            !r.cache_filled(),
            r.remaining() == self.remaining(),
    {
        TryPeekable::new(self)
    }
}

impl<I: TryIterator> TryIteratorExt for I {

}


} // verus!
