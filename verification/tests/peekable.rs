use tryiter::{TryIter, TryIterator, TryIteratorExt};

#[derive(Debug, Clone, Copy, PartialEq, Eq)]
struct E;

#[test]
fn peek_caches_and_never_stores_errors() {
    let mut peek = TryIter::from_vec(vec![Ok(1), Err(E), Ok(2)]).try_peekable();

    // peeking twice in a row returns the identical cached value both times
    assert_eq!(peek.try_peek(), Ok(Some(&1)));
    assert_eq!(peek.try_peek(), Ok(Some(&1)));
    assert_eq!(peek.try_next(), Ok(Some(1)));

    // the failure is surfaced once and not cached ...
    assert_eq!(peek.try_peek(), Err(E));
    // ... so the next peek reaches the element behind it
    assert_eq!(peek.try_peek(), Ok(Some(&2)));
    assert_eq!(peek.try_peek(), Ok(Some(&2)));
    assert_eq!(peek.try_next(), Ok(Some(2)));

    assert_eq!(peek.try_next(), Ok(None));
    assert_eq!(peek.try_peek(), Ok(None));
}

#[test]
fn peek_mut_updates_the_buffered_value() {
    let mut peek = TryIter::from_vec(vec![Ok(1), Err(E), Ok(2)]).try_peekable();

    assert_eq!(peek.try_peek_mut(), Ok(Some(&mut 1)));
    if let Ok(Some(v)) = peek.try_peek_mut() {
        *v = 5;
    }
    assert_eq!(peek.try_next(), Ok(Some(5)));
    assert_eq!(peek.try_peek_mut(), Err(E));
    assert_eq!(peek.try_peek_mut(), Ok(Some(&mut 2)));
}

#[test]
fn next_consumes_without_peeking() {
    let mut peek = TryIter::from_vec(vec![Ok(1), Err(E), Ok(2)]).try_peekable();
    assert_eq!(peek.next(), Some(Ok(1)));
    assert_eq!(peek.next(), Some(Err(E)));
    assert_eq!(peek.next(), Some(Ok(2)));
    assert_eq!(peek.next(), None);
}

#[test]
fn count_includes_a_buffered_element() {
    let peek = TryIter::from_vec(vec![Ok(1), Err(E), Ok(2)]).try_peekable();
    assert_eq!(peek.count(), 3);

    let mut peek = TryIter::from_vec(vec![Ok::<i32, E>(1), Ok(2), Ok(3)]).try_peekable();
    assert_eq!(peek.try_peek(), Ok(Some(&1)));
    assert_eq!(peek.count(), 3);

    let mut peek = TryIter::from_vec(Vec::<Result<i32, E>>::new()).try_peekable();
    assert_eq!(peek.try_peek(), Ok(None));
    assert_eq!(peek.count(), 0);
}

#[test]
fn nth_accounts_for_the_buffer() {
    let mut peek = TryIter::from_vec(vec![Ok(1), Err(E), Ok(3), Ok(4)]).try_peekable();
    assert_eq!(peek.try_peek(), Ok(Some(&1)));
    assert_eq!(peek.nth(0), Some(Ok(1)));
    assert_eq!(peek.nth(1), Some(Ok(3)));
    assert_eq!(peek.nth(5), None);
}

#[test]
fn last_accounts_for_the_buffer() {
    let peek = TryIter::from_vec(vec![Ok(1), Err(E), Ok(3)]).try_peekable();
    assert_eq!(peek.last(), Some(Ok(3)));

    let mut peek = TryIter::from_vec(vec![Ok::<i32, E>(7)]).try_peekable();
    assert_eq!(peek.try_peek(), Ok(Some(&7)));
    assert_eq!(peek.last(), Some(Ok(7)));

    let mut peek = TryIter::from_vec(Vec::<Result<i32, E>>::new()).try_peekable();
    assert_eq!(peek.try_peek(), Ok(None));
    assert_eq!(peek.last(), None);
}

#[test]
fn size_hint_accounts_for_the_buffer() {
    let mut peek = TryIter::from_vec(vec![Ok::<i32, E>(1), Ok(2)]).try_peekable();
    assert_eq!(peek.size_hint(), (2, Some(2)));
    assert_eq!(peek.try_peek(), Ok(Some(&1)));
    assert_eq!(peek.size_hint(), (2, Some(2)));
    assert_eq!(peek.next(), Some(Ok(1)));
    assert_eq!(peek.next(), Some(Ok(2)));
    assert_eq!(peek.try_peek(), Ok(None));
    assert_eq!(peek.size_hint(), (0, Some(0)));
}

#[test]
fn fold_includes_a_buffered_element() {
    let mut peek = TryIter::from_vec(vec![Ok(1), Ok(2), Err(E), Ok(4)]).try_peekable();
    assert_eq!(peek.try_peek(), Ok(Some(&1)));
    let sum = peek.fold(0, |acc, x| match x {
        Ok(v) => acc + v,
        Err(_) => acc,
    });
    assert_eq!(sum, 7);
}
