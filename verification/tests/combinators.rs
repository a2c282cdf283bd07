use tryiter::{TryIter, TryIteratorExt};

#[derive(Debug, Clone, Copy, PartialEq, Eq)]
struct E;

fn drain<O: PartialEq + std::fmt::Debug, Er: PartialEq + std::fmt::Debug>(
    mut it: TryIter<O, Er>,
) -> Vec<Result<O, Er>> {
    let mut out = Vec::new();
    loop {
        match it.try_next() {
            Ok(Some(v)) => out.push(Ok(v)),
            Ok(None) => return out,
            Err(e) => out.push(Err(e)),
        }
    }
}

#[test]
fn next_success_yields_then_raises_once() {
    let mut iter = TryIter::from_vec(vec![Ok(1), Ok(2), Err(E)]);
    assert_eq!(iter.try_next(), Ok(Some(1)));
    assert_eq!(iter.try_next(), Ok(Some(2)));
    assert_eq!(iter.try_next(), Err(E));
    // a subsequent call does not re-raise the failure
    assert_eq!(iter.try_next(), Ok(None));
}

#[test]
fn try_all_short_circuits_and_leaves_tail() {
    let mut iter = TryIter::from_vec(vec![Ok(1), Ok(2), Err(E), Ok(3)]);
    assert_eq!(iter.try_all(|x| Ok(x < 4)), Err(E));
    // the element after the short-circuit point is still available
    assert_eq!(iter.try_next(), Ok(Some(3)));
    assert_eq!(iter.try_next(), Ok(None));
}

#[test]
fn try_all_stops_at_first_false() {
    let mut iter = TryIter::from_vec(vec![Ok(1), Ok(2), Ok(3), Err(E)]);
    assert_eq!(iter.try_all(|x| Ok(x != 2)), Ok(false));
    assert_eq!(iter.try_next(), Ok(Some(3)));
    assert_eq!(iter.try_next(), Err(E));
}

#[test]
fn try_any_stops_at_first_true() {
    let mut iter = TryIter::from_vec(vec![Ok(1), Ok(2), Ok(3), Err(E)]);
    assert_eq!(iter.try_any(|x| Ok(x == 2)), Ok(true));
    assert_eq!(iter.try_next(), Ok(Some(3)));

    let mut iter = TryIter::from_vec(vec![Ok(1), Ok(2), Err(E), Ok(3)]);
    assert_eq!(iter.try_any(|x| Ok(x == 3)), Err(E));

    let mut iter = TryIter::from_vec(vec![Ok::<i32, E>(1), Ok(2)]);
    assert_eq!(iter.try_any(|x| Ok(x > 4)), Ok(false));
}

#[test]
fn map_then_filter_map_halves_evens() {
    let iter = TryIter::from_vec(vec![Ok(1), Ok(6), Err(E)]);
    let halves = iter.map_ok(|x| Ok(x)).try_filter_map(|x| {
        let ret = if x % 2 == 0 { Some(x / 2) } else { None };
        Ok(ret)
    });
    // the odd value 1 is dropped, not erred
    assert_eq!(drain(halves), vec![Ok(3), Err(E)]);
}

#[test]
fn try_filter_keeps_evens_and_errors() {
    let iter = TryIter::from_vec(vec![Ok(1), Ok(2), Ok(3), Err(E)]);
    let evens = iter.try_filter(|x| Ok(x % 2 == 0));
    assert_eq!(drain(evens), vec![Ok(2), Err(E)]);
}

#[test]
fn try_filter_predicate_failure_replaces_element() {
    let iter = TryIter::from_vec(vec![Ok(1), Ok(2), Ok(3)]);
    let filtered = iter.try_filter(|x| if *x == 2 { Err(E) } else { Ok(true) });
    assert_eq!(drain(filtered), vec![Ok(1), Err(E), Ok(3)]);
}

#[test]
fn map_ok_maps_and_propagates_closure_failure() {
    let mapped = TryIter::from_vec(vec![Ok(5), Err(5)]).map_ok(|x| Ok(x * 2));
    assert_eq!(drain(mapped), vec![Ok(10), Err(5)]);

    let failing = TryIter::from_vec(vec![Ok(5), Err(3)]).map_ok(|_| Err::<i32, i32>(7));
    assert_eq!(drain(failing), vec![Err(7), Err(3)]);
}

#[test]
fn map_err_maps_only_failures() {
    let mapped = TryIter::from_vec(vec![Ok(5), Err(5)]).map_err(|x| x * 2);
    assert_eq!(drain(mapped), vec![Ok(5), Err(10)]);
}

#[test]
fn err_into_converts_error_type() {
    let converted = TryIter::from_vec(vec![Ok(()), Err(5i32)]).err_into::<i64>();
    assert_eq!(drain(converted), vec![Ok(()), Err(5i64)]);
}

#[test]
fn inspect_taps_pass_elements_through() {
    let seen_ok = std::cell::Cell::new(0);
    let seen_err = std::cell::Cell::new(0);
    let tapped = TryIter::from_vec(vec![Ok(5), Err(3), Err(9), Ok(7), Ok(2)])
        .inspect_ok(|_x| seen_ok.set(seen_ok.get() + 1))
        .inspect_err(|_e| seen_err.set(seen_err.get() + 1));
    assert_eq!(drain(tapped), vec![Ok(5), Err(3), Err(9), Ok(7), Ok(2)]);
    assert_eq!(seen_ok.get(), 3);
    assert_eq!(seen_err.get(), 2);
}

#[test]
fn try_unzip_splits_pairs() {
    let successful: Vec<Result<(i32, i32), String>> = vec![Ok((1, 2)), Ok((3, 4)), Ok((5, 6))];
    let unzipped = TryIter::from_vec(successful).try_unzip();
    assert_eq!(unzipped, Ok((vec![1, 3, 5], vec![2, 4, 6])));
}

#[test]
fn try_unzip_stops_at_failure() {
    let mut iter = TryIter::from_vec(vec![Ok((1, 2)), Err(E), Ok((5, 6))]);
    let unzipped: Result<(Vec<i32>, Vec<i32>), E> = iter.try_unzip();
    assert_eq!(unzipped, Err(E));
    // the element after the failure was never consumed
    assert_eq!(iter.try_next(), Ok(Some((5, 6))));
}

#[test]
fn try_max_and_min() {
    let v = vec![Ok(5), Ok(3), Ok(9), Ok(7), Ok(2)];
    let max: Result<_, i32> = TryIter::from_vec(v.clone()).try_max();
    assert_eq!(max, Ok(Some(9)));
    let min: Result<_, i32> = TryIter::from_vec(v).try_min();
    assert_eq!(min, Ok(Some(2)));

    let v = vec![Ok(5), Err(3), Err(9), Ok(7), Ok(2)];
    assert_eq!(TryIter::from_vec(v.clone()).try_max(), Err(3));
    assert_eq!(TryIter::from_vec(v).try_min(), Err(3));

    let empty: Vec<Result<i32, i32>> = vec![];
    assert_eq!(TryIter::from_vec(empty.clone()).try_max(), Ok(None));
    assert_eq!(TryIter::from_vec(empty).try_min(), Ok(None));
}

#[test]
fn try_max_by_prefers_last_of_ties() {
    let v = vec![Ok((5, 0)), Ok((9, 0)), Ok((7, 0)), Ok((9, -1)), Ok((8, 0))];
    let max: Result<_, i32> = TryIter::from_vec(v).try_max_by(|x, y| x.0.cmp(&y.0));
    assert_eq!(max, Ok(Some((9, -1))));

    let v = vec![Ok((5, 0)), Ok((9, 0)), Err(7), Err(9), Ok((8, 0))];
    let max = TryIter::from_vec(v).try_max_by(|x, y| x.0.cmp(&y.0));
    assert_eq!(max, Err(7));
}

#[test]
fn try_min_by_selects_minimum() {
    let v = vec![Ok((5, 0)), Ok((9, 0)), Ok((7, 0)), Ok((9, -1)), Ok((8, 0))];
    let min: Result<_, i32> = TryIter::from_vec(v).try_min_by(|x, y| x.0.cmp(&y.0));
    assert_eq!(min, Ok(Some((5, 0))));

    let v = vec![Ok((5, 0)), Ok((9, 0)), Err(7), Err(9), Ok((8, 0))];
    let min = TryIter::from_vec(v).try_min_by(|x, y| x.0.cmp(&y.0));
    assert_eq!(min, Err(7));
}

#[test]
fn try_min_by_prefers_last_of_ties() {
    let v: Vec<Result<(i32, i32), E>> = vec![Ok((5, 0)), Ok((7, 0)), Ok((5, -1))];
    let min = TryIter::from_vec(v).try_min_by(|x, y| x.0.cmp(&y.0));
    assert_eq!(min, Ok(Some((5, -1))));
}

#[test]
fn try_max_by_key_prefers_last_of_ties() {
    let v = vec![Ok((5, 0)), Ok((9, 0)), Ok((7, 0)), Ok((9, -1)), Ok((8, 0))];
    let max: Result<_, i32> = TryIter::from_vec(v).try_max_by_key(|p| p.0);
    assert_eq!(max, Ok(Some((9, -1))));

    // a failure injected before the second 9 takes the result's place
    let v = vec![Ok((5, 0)), Ok((9, 0)), Ok((7, 0)), Err(E), Ok((9, -1)), Ok((8, 0))];
    let max = TryIter::from_vec(v).try_max_by_key(|p| p.0);
    assert_eq!(max, Err(E));
}

#[test]
fn try_min_by_key_selects_minimum() {
    let v = vec![Ok((5, 0)), Ok((9, 0)), Ok((7, 0)), Ok((9, -1)), Ok((8, 0))];
    let min: Result<_, i32> = TryIter::from_vec(v).try_min_by_key(|p| p.0);
    assert_eq!(min, Ok(Some((5, 0))));

    let v = vec![Ok((5, 0)), Ok((9, 0)), Err(7), Err(9), Ok((8, 0))];
    let min = TryIter::from_vec(v).try_min_by_key(|p| p.0);
    assert_eq!(min, Err(7));
}

#[test]
fn empty_sequence_edge_cases() {
    let empty: Vec<Result<i32, E>> = vec![];
    let mut iter = TryIter::from_vec(empty.clone());
    assert_eq!(iter.try_next(), Ok(None));
    assert_eq!(iter.try_all(|_| Ok(false)), Ok(true));
    assert_eq!(iter.try_any(|_| Ok(true)), Ok(false));

    let unzipped: Result<(Vec<i32>, Vec<i32>), E> =
        TryIter::from_vec(Vec::new()).try_unzip();
    assert_eq!(unzipped, Ok((vec![], vec![])));
}
