use lttb::bucket::fit;

/// Where the buckets begin: the ideal bucket size times the bucket number, cut
/// off to a whole number, plus one.
fn rounded_starts(n: usize, threshold: usize) -> Vec<usize> {
    let every = ((n - 2) as f64) / ((threshold - 2) as f64);
    (0..threshold)
        .map(|k| ((k as f64 * every) as usize).saturating_add(1))
        .collect()
}

#[test]
fn starts_of_small_series() {
    assert_eq!(vec![1, 4, 7], rounded_starts(5, 3));
    assert_eq!(vec![1, 5, 9, 13], rounded_starts(10, 4));
    assert_eq!(vec![1, 3, 6, 9, 11], rounded_starts(10, 5));
    assert!(fit(&rounded_starts(5, 3), 5, 3));
    assert!(fit(&rounded_starts(10, 4), 10, 4));
    assert!(fit(&rounded_starts(10, 5), 10, 5));
}

#[test]
fn starts_where_the_product_is_rounded_down() {
    // Exact arithmetic would give 16 and 116 here.
    assert_eq!(15, rounded_starts(17, 13)[11]);
    assert_eq!(vec![113, 114, 115, 117], rounded_starts(117, 102)[98..].to_vec());
    assert!(fit(&rounded_starts(17, 13), 17, 13));
    assert!(fit(&rounded_starts(117, 102), 117, 102));
}

#[test]
fn rounded_starts_fit_every_short_series() {
    for n in 4..200usize {
        for threshold in 3..n {
            assert!(fit(&rounded_starts(n, threshold), n, threshold));
        }
    }
}

#[test]
fn fit_wants_an_entry_for_every_bucket_and_two_more() {
    assert!(fit(&vec![1, 4, 7], 5, 3));
    assert!(!fit(&vec![], 5, 3));
    assert!(!fit(&vec![1, 4], 5, 3));
    assert!(!fit(&vec![1, 4, 7, 9], 5, 3));
    assert!(!fit(&vec![1, 4, 7], 5, 4));
}

#[test]
fn fit_wants_at_least_one_bucket() {
    assert!(!fit(&vec![], 5, 0));
    assert!(!fit(&vec![1], 5, 1));
    assert!(!fit(&vec![1, 4], 5, 2));
}

#[test]
fn fit_wants_buckets_between_the_first_and_the_last_point() {
    assert!(!fit(&vec![0, 4, 7], 5, 3));
    assert!(fit(&vec![2, 4, 7], 5, 3));
    assert!(fit(&vec![1, 4, 4], 5, 3));
    assert!(!fit(&vec![1, 5, 7], 5, 3));
    assert!(!fit(&vec![1, 4, 7], 4, 3));
    assert!(!fit(&vec![1, 4, 7], 0, 3));
    assert!(fit(&vec![1, 2, 3, usize::MAX], 4, 4));
}

#[test]
fn fit_wants_buckets_that_are_not_empty() {
    assert!(fit(&vec![1, 3, 5, 7], 6, 4));
    assert!(!fit(&vec![1, 1, 5, 7], 6, 4));
    assert!(!fit(&vec![3, 1, 5, 7], 6, 4));
    assert!(!fit(&vec![1, 5, 5, 7], 6, 4));
    assert!(!fit(&vec![1, 3, 5, 4], 6, 4));
    assert!(fit(&vec![1, 3, 5, 5], 6, 4));
}

#[test]
fn rounded_starts_fit_long_series() {
    for &n in &[1000usize, 65_536, 1_000_003] {
        for &threshold in &[3usize, 4, 17, n / 3, n / 2, n - 2, n - 1] {
            let starts = rounded_starts(n, threshold);
            assert!(fit(&starts, n, threshold));
            assert_eq!(1, starts[0]);
            assert!(starts[threshold - 1] >= n);
        }
    }
}
