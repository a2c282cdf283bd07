use tryiter::{TryIter, TryIteratorExt};

#[derive(Debug, Clone, Copy, PartialEq, Eq)]
struct MyErr;

fn example_next(vals: Vec<Result<i32, MyErr>>) -> Result<(), MyErr> {
    for result in vals {
        let result = result?;
        println!("{}", result);
    }
    Ok(())
}

fn example_try_next(vals: Vec<Result<i32, MyErr>>) -> Result<(), MyErr> {
    let mut iter = TryIter::from_vec(vals);
    while let Some(result) = iter.try_next()? {
        println!("{}", result);
    }
    Ok(())
}

#[test]
fn test_sanity() {
    let vals = vec![Ok(1), Ok(2), Ok(3), Err(MyErr), Ok(4)];

    example_next(vals.clone()).expect_err("error");
    example_try_next(vals.clone()).expect_err("error");

    // TryIteratorExt also provides helpful Result friendly methods:
    let vals: Vec<Result<i32, MyErr>> = vec![Ok(1), Ok(2), Ok(3), Ok(4)];

    // assert that all elements are less than 5
    assert_eq!(TryIter::from_vec(vals.clone()).try_all(|x| Ok(x < 5)), Ok(true));

    // is any element equal to 3?
    assert_eq!(TryIter::from_vec(vals.clone()).try_any(|x| Ok(x == 3)), Ok(true));

    // do a series of fallible operations
    let mut iter = TryIter::from_vec(vals.clone())
        .map_ok(|x| Ok(x * 2))
        .try_filter(|x| Ok(*x < 4));
    while let Some(val) = iter.try_next().expect("error") {
        println!("{}", val);
    }

    // Unzip a sequence of results of pairs
    let couples = vec![Ok((1, 2)), Ok((3, 4)), Ok((5, 6)), Err(MyErr), Ok((9, 10))];
    let first_three: Vec<Result<(i32, i32), MyErr>> = couples.iter().cloned().take(3).collect();
    let (left_3, _right_3): (Vec<_>, Vec<_>) =
        TryIter::from_vec(first_three).try_unzip().unwrap();
    assert_eq!(left_3, vec![1, 3, 5]);
    let erroneous: Result<(Vec<i32>, Vec<i32>), MyErr> =
        TryIter::from_vec(couples).try_unzip();
    assert_eq!(erroneous, Err(MyErr));

    // raise an error during processing
    TryIter::from_vec(vals.clone())
        .map_ok(|_| Err::<i32, _>(MyErr))
        .try_next()
        .expect_err("error");
}
