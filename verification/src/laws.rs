//! Laws relating the combinators on failure-free sequences to the same
//! combinator logic on the plain sequence of success payloads.

use crate::ext::{all_ok, filter_mapped, filtered, payloads};
use vstd::prelude::*;

verus! {

/// On a failure-free sequence, every element is the success of the payload
/// standing at the same position: contracts stated over the elements of the
/// fallible sequence reduce, position by position, to statements over the
/// plain sequence of payloads.
pub proof fn lemma_all_ok_element<O, E>(s: Seq<Result<O, E>>, i: int)
    requires
        all_ok(s),
        0 <= i < s.len(),
    ensures
        s[i] == Ok::<O, E>(payloads(s)[i]),
{
}

/// On a failure-free sequence, mapping the success values is the same as
/// mapping the plain sequence of payloads: position by position, each output
/// element is a result the function may return for the payload standing at
/// the same position.
pub proof fn lemma_map_ok_failure_free<O, T, E, F: Fn(O) -> Result<T, E>>(
    f: F,
    s: Seq<Result<O, E>>,
    t: Seq<Result<T, E>>,
)
    requires
        all_ok(s),
        t.len() == s.len(),
        forall|i: int|
            0 <= i < s.len() ==> (match s[i] {
                Ok(v) => call_ensures(f, (v,), #[trigger] t[i]),
                Err(e) => t[i] == Err::<T, E>(e),
            }),
    ensures
        forall|i: int|
            0 <= i < t.len() ==> call_ensures(f, (payloads(s)[i],), #[trigger] t[i]),
{
    assert forall|i: int| 0 <= i < t.len() implies call_ensures(
        f,
        (payloads(s)[i],),
        #[trigger] t[i],
    ) by {
        lemma_all_ok_element(s, i);
    }
}

/// One possible output `t` of filtering-and-mapping the plain values `xs`
/// through the effectful function `f`: each value is replaced by the new
/// payload `f` keeps for it, dropped when `f` keeps nothing, or replaced by
/// the failure `f` raised.
pub open spec fn plain_filter_mapped<O, T, E, F: Fn(O) -> Result<Option<T>, E>>(
    f: F,
    xs: Seq<O>,
    t: Seq<Result<T, E>>,
) -> bool
    decreases xs.len(),
{
    if xs.len() == 0 {
        t.len() == 0
    } else {
        exists|fr: Result<Option<T>, E>|
            #[trigger] call_ensures(f, (xs.last(),), fr) && (match fr {
                Ok(Some(x)) => t.len() > 0 && t.last() == Ok::<T, E>(x) && plain_filter_mapped(
                    f,
                    xs.drop_last(),
                    t.drop_last(),
                ),
                Ok(None) => plain_filter_mapped(f, xs.drop_last(), t),
                Err(e2) => t.len() > 0 && t.last() == Err::<T, E>(e2) && plain_filter_mapped(
                    f,
                    xs.drop_last(),
                    t.drop_last(),
                ),
            })
    }
}

/// One possible output `t` of filtering the plain values `xs` through the
/// effectful predicate `p`: each value is kept unchanged when `p` accepts it,
/// dropped when `p` rejects it, or replaced by the failure `p` raised.
pub open spec fn plain_filtered<O, E, P: Fn(&O) -> Result<bool, E>>(
    p: P,
    xs: Seq<O>,
    t: Seq<Result<O, E>>,
) -> bool
    decreases xs.len(),
{
    if xs.len() == 0 {
        t.len() == 0
    } else {
        exists|pr: Result<bool, E>|
            #[trigger] call_ensures(p, (&xs.last(),), pr) && (match pr {
                Ok(true) => t.len() > 0 && t.last() == Ok::<O, E>(xs.last()) && plain_filtered(
                    p,
                    xs.drop_last(),
                    t.drop_last(),
                ),
                Ok(false) => plain_filtered(p, xs.drop_last(), t),
                Err(e2) => t.len() > 0 && t.last() == Err::<O, E>(e2) && plain_filtered(
                    p,
                    xs.drop_last(),
                    t.drop_last(),
                ),
            })
    }
}

/// The output of filtering-and-mapping the elements of `s` through the exact
/// function `g`: a source failure passes through in place; a success payload
/// is replaced by the new payload `g` keeps for it, dropped when `g` keeps
/// nothing, or replaced by the failure `g` raises.
pub open spec fn spec_filter_map<O, T, E>(
    g: spec_fn(O) -> Result<Option<T>, E>,
    s: Seq<Result<O, E>>,
) -> Seq<Result<T, E>>
    decreases s.len(),
{
    if s.len() == 0 {
        Seq::empty()
    } else {
        let rest = spec_filter_map(g, s.drop_last());
        match s.last() {
            Err(e) => rest.push(Err(e)),
            Ok(v) => match g(v) {
                Ok(Some(x)) => rest.push(Ok(x)),
                Ok(None) => rest,
                Err(e2) => rest.push(Err(e2)),
            },
        }
    }
}

/// When the function agrees with the exact function `g` on every input,
/// filtering-and-mapping through it is deterministic: the one reachable
/// output is [`spec_filter_map`].
pub proof fn lemma_filter_mapped_exact<O, T, E, F: Fn(O) -> Result<Option<T>, E>>(
    f: F,
    g: spec_fn(O) -> Result<Option<T>, E>,
    s: Seq<Result<O, E>>,
    t: Seq<Result<T, E>>,
)
    requires
        filter_mapped(f, s, t),
        forall|v: O, res: Result<Option<T>, E>| #[trigger]
            call_ensures(f, (v,), res) ==> res == g(v),
    ensures
        t == spec_filter_map(g, s),
    decreases s.len(),
{
    if s.len() == 0 {
        assert(t =~= spec_filter_map(g, s));
    } else {
        let rest = spec_filter_map(g, s.drop_last());
        match s.last() {
            Err(e) => {
                lemma_filter_mapped_exact(f, g, s.drop_last(), t.drop_last());
                assert(t =~= rest.push(Err::<T, E>(e)));
            }
            Ok(v) => {
                let fr = choose|fr: Result<Option<T>, E>|
                    #[trigger] call_ensures(f, (v,), fr) && (match fr {
                        Ok(Some(x)) => t.len() > 0 && t.last() == Ok::<T, E>(x) && filter_mapped(
                            f,
                            s.drop_last(),
                            t.drop_last(),
                        ),
                        Ok(None) => filter_mapped(f, s.drop_last(), t),
                        Err(e2) => t.len() > 0 && t.last() == Err::<T, E>(e2) && filter_mapped(
                            f,
                            s.drop_last(),
                            t.drop_last(),
                        ),
                    });
                assert(fr == g(v));
                match fr {
                    Ok(Some(x)) => {
                        lemma_filter_mapped_exact(f, g, s.drop_last(), t.drop_last());
                        assert(t =~= rest.push(Ok::<T, E>(x)));
                    }
                    Ok(None) => {
                        lemma_filter_mapped_exact(f, g, s.drop_last(), t);
                    }
                    Err(e2) => {
                        lemma_filter_mapped_exact(f, g, s.drop_last(), t.drop_last());
                        assert(t =~= rest.push(Err::<T, E>(e2)));
                    }
                }
            }
        }
    }
}

/// The output of filtering the elements of `s` through the exact predicate
/// `g`: a source failure passes through in place; a success value is kept
/// unchanged when `g` accepts it, dropped when `g` rejects it, or replaced by
/// the failure `g` raises.
pub open spec fn spec_filter<O, E>(
    g: spec_fn(O) -> Result<bool, E>,
    s: Seq<Result<O, E>>,
) -> Seq<Result<O, E>>
    decreases s.len(),
{
    if s.len() == 0 {
        Seq::empty()
    } else {
        let rest = spec_filter(g, s.drop_last());
        match s.last() {
            Err(e) => rest.push(Err(e)),
            Ok(v) => match g(v) {
                Ok(true) => rest.push(Ok(v)),
                Ok(false) => rest,
                Err(e2) => rest.push(Err(e2)),
            },
        }
    }
}

/// When the predicate agrees with the exact predicate `g` on every input,
/// filtering through it is deterministic: the one reachable output is
/// [`spec_filter`].
pub proof fn lemma_filtered_exact<O, E, P: Fn(&O) -> Result<bool, E>>(
    p: P,
    g: spec_fn(O) -> Result<bool, E>,
    s: Seq<Result<O, E>>,
    t: Seq<Result<O, E>>,
)
    requires
        filtered(p, s, t),
        forall|v: O, res: Result<bool, E>| #[trigger]
            call_ensures(p, (&v,), res) ==> res == g(v),
    ensures
        t == spec_filter(g, s),
    decreases s.len(),
{
    if s.len() == 0 {
        assert(t =~= spec_filter(g, s));
    } else {
        let rest = spec_filter(g, s.drop_last());
        match s.last() {
            Err(e) => {
                lemma_filtered_exact(p, g, s.drop_last(), t.drop_last());
                assert(t =~= rest.push(Err::<O, E>(e)));
            }
            Ok(v) => {
                let pr = choose|pr: Result<bool, E>|
                    #[trigger] call_ensures(p, (&v,), pr) && (match pr {
                        Ok(true) => t.len() > 0 && t.last() == Ok::<O, E>(v) && filtered(
                            p,
                            s.drop_last(),
                            t.drop_last(),
                        ),
                        Ok(false) => filtered(p, s.drop_last(), t),
                        Err(e2) => t.len() > 0 && t.last() == Err::<O, E>(e2) && filtered(
                            p,
                            s.drop_last(),
                            t.drop_last(),
                        ),
                    });
                assert(pr == g(v));
                match pr {
                    Ok(true) => {
                        lemma_filtered_exact(p, g, s.drop_last(), t.drop_last());
                        assert(t =~= rest.push(Ok::<O, E>(v)));
                    }
                    Ok(false) => {
                        lemma_filtered_exact(p, g, s.drop_last(), t);
                    }
                    Err(e2) => {
                        lemma_filtered_exact(p, g, s.drop_last(), t.drop_last());
                        assert(t =~= rest.push(Err::<O, E>(e2)));
                    }
                }
            }
        }
    }
}

/// Plain filtering is the special case of filtering-and-mapping that keeps
/// an accepted payload unchanged: the exact filter of `s` under `g` equals
/// the exact filter-map of `s` under the function that keeps a value `g`
/// accepts, drops a value `g` rejects, and raises the failure `g` raises.
pub proof fn lemma_filter_is_filter_map<O, E>(
    g: spec_fn(O) -> Result<bool, E>,
    s: Seq<Result<O, E>>,
)
    ensures
        spec_filter(g, s) == spec_filter_map(
            (|v: O|
                match g(v) {
                    Ok(true) => Ok(Some(v)),
                    Ok(false) => Ok(None),
                    Err(e) => Err(e),
                }),
            s,
        ),
    decreases s.len(),
{
    if s.len() == 0 {
    } else {
        lemma_filter_is_filter_map(g, s.drop_last());
    }
}

/// On a failure-free sequence, filtering-and-mapping the fallible sequence
/// is the same as filtering-and-mapping the plain sequence of its payloads.
pub proof fn lemma_filter_mapped_failure_free<O, T, E, F: Fn(O) -> Result<Option<T>, E>>(
    f: F,
    s: Seq<Result<O, E>>,
    t: Seq<Result<T, E>>,
)
    requires
        all_ok(s),
    ensures
        filter_mapped(f, s, t) <==> plain_filter_mapped(f, payloads(s), t),
    decreases s.len(),
{
    if s.len() == 0 {
    } else {
        assert(s.last() == Ok::<O, E>(payloads(s).last()));
        assert(payloads(s).drop_last() =~= payloads(s.drop_last()));
        assert(all_ok(s.drop_last())) by {
            assert(forall|i: int|
                0 <= i < s.drop_last().len() ==> #[trigger] s.drop_last()[i] == s[i]);
        }
        lemma_filter_mapped_failure_free(f, s.drop_last(), t);
        lemma_filter_mapped_failure_free(f, s.drop_last(), t.drop_last());
    }
}

/// On a failure-free sequence, filtering the fallible sequence is the same
/// as filtering the plain sequence of its payloads.
pub proof fn lemma_filtered_failure_free<O, E, P: Fn(&O) -> Result<bool, E>>(
    p: P,
    s: Seq<Result<O, E>>,
    t: Seq<Result<O, E>>,
)
    requires
        all_ok(s),
    ensures
        filtered(p, s, t) <==> plain_filtered(p, payloads(s), t),
    decreases s.len(),
{
    if s.len() == 0 {
    } else {
        assert(s.last() == Ok::<O, E>(payloads(s).last()));
        assert(payloads(s).drop_last() =~= payloads(s.drop_last()));
        assert(all_ok(s.drop_last())) by {
            assert(forall|i: int|
                0 <= i < s.drop_last().len() ==> #[trigger] s.drop_last()[i] == s[i]);
        }
        lemma_filtered_failure_free(p, s.drop_last(), t);
        lemma_filtered_failure_free(p, s.drop_last(), t.drop_last());
    }
}

} // verus!

