use lttb::downsample::largest_triangle;
use lttb::{lttb, DataPoint, SampleError};

/// Where the buckets begin: the ideal bucket size times the bucket number, cut
/// off to a whole number, plus one.
fn starts(n: usize, threshold: usize) -> Vec<usize> {
    if threshold < 3 || threshold >= n {
        return Vec::new();
    }
    let every = ((n - 2) as f64) / ((threshold - 2) as f64);
    (0..threshold)
        .map(|k| ((k as f64 * every) as usize).saturating_add(1))
        .collect()
}

fn sample(data: Vec<DataPoint>, threshold: usize) -> Vec<DataPoint> {
    let starts = starts(data.len(), threshold);
    lttb(data, threshold, starts).unwrap()
}

fn series(points: &[(i64, i64)]) -> Vec<DataPoint> {
    let mut out = Vec::new();
    for &(x, y) in points {
        out.push(DataPoint::new(x, y));
    }
    out
}

fn five() -> Vec<DataPoint> {
    series(&[(0, 10), (1, 12), (2, 8), (3, 10), (4, 12)])
}

fn zigzag() -> Vec<DataPoint> {
    let mut out = Vec::new();
    for i in 0..20i64 {
        out.push(DataPoint::new(i, (i * i * 7 + i * 13) % 31 - 15));
    }
    out
}

#[test]
fn lttb_test() {
    let mut dps = vec![];
    dps.push(DataPoint::new(0, 10));
    dps.push(DataPoint::new(1, 12));
    dps.push(DataPoint::new(2, 8));
    dps.push(DataPoint::new(3, 10));
    dps.push(DataPoint::new(4, 12));

    let mut expected = vec![];
    expected.push(DataPoint::new(0, 10));
    expected.push(DataPoint::new(2, 8));
    expected.push(DataPoint::new(4, 12));

    assert_eq!(Ok(expected), lttb(dps, 3, starts(5, 3)));
}

#[test]
fn threshold_above_length_returns_input() {
    assert_eq!(five(), sample(five(), 10));
    assert_eq!(five(), sample(five(), 6));
    assert_eq!(five(), sample(five(), usize::MAX));
}

#[test]
fn threshold_equal_to_length_returns_input() {
    assert_eq!(five(), sample(five(), 5));
}

#[test]
fn threshold_zero_returns_input() {
    assert_eq!(five(), sample(five(), 0));
}

#[test]
fn threshold_one_returns_input() {
    assert_eq!(five(), sample(five(), 1));
    assert_eq!(series(&[(3, 4), (5, 6)]), sample(series(&[(3, 4), (5, 6)]), 1));
}

#[test]
fn short_series_are_returned_as_they_are() {
    for threshold in 0..5 {
        assert_eq!(Vec::<DataPoint>::new(), sample(Vec::new(), threshold));
        assert_eq!(series(&[(7, -7)]), sample(series(&[(7, -7)]), threshold));
        assert_eq!(series(&[(7, -7), (8, 1)]), sample(series(&[(7, -7), (8, 1)]), threshold));
    }
}

#[test]
fn threshold_two_keeps_first_and_last() {
    assert_eq!(series(&[(0, 10), (4, 12)]), sample(five(), 2));
    assert_eq!(series(&[(0, -15), (19, 0)]), sample(zigzag(), 2));
    assert_eq!(series(&[(1, 1), (3, 3)]), sample(series(&[(1, 1), (2, 2), (3, 3)]), 2));
}

#[test]
fn three_points_from_the_zigzag() {
    assert_eq!(series(&[(0, -15), (2, 8), (19, 0)]), sample(zigzag(), 3));
}

#[test]
fn seven_points_from_the_zigzag() {
    let expected = series(&[(0, -15), (2, 8), (7, -15), (8, 10), (14, -11), (18, 7), (19, 0)]);
    assert_eq!(expected, sample(zigzag(), 7));
}

#[test]
fn all_but_one_point_from_the_zigzag() {
    let mut expected = zigzag();
    expected.remove(17);
    assert_eq!(expected, sample(zigzag(), 19));
}

#[test]
fn collinear_series_keeps_first_of_each_bucket() {
    let mut line = Vec::new();
    for i in 0..10i64 {
        line.push(DataPoint::new(i, 2 * i + 1));
    }
    assert_eq!(series(&[(0, 1), (1, 3), (5, 11), (9, 19)]), sample(line.clone(), 4));
    assert_eq!(series(&[(0, 1), (1, 3), (3, 7), (6, 13), (9, 19)]), sample(line, 5));
}

#[test]
fn constant_series_keeps_first_of_each_bucket() {
    let mut flat = Vec::new();
    for i in 0..12i64 {
        flat.push(DataPoint::new(i, 5));
    }
    assert_eq!(series(&[(0, 5), (1, 5), (6, 5), (11, 5)]), sample(flat, 4));
}

#[test]
fn equal_areas_keep_first_candidate() {
    let tie = series(&[(0, 0), (1, 1), (2, -1), (3, 1), (4, 0)]);
    assert_eq!(series(&[(0, 0), (1, 1), (4, 0)]), sample(tie, 3));
}

#[test]
fn later_candidate_needs_strictly_larger_area() {
    let rising = series(&[(0, 0), (1, 1), (2, 1), (3, 2), (4, 0)]);
    assert_eq!(series(&[(0, 0), (3, 2), (4, 0)]), sample(rising, 3));
}

#[test]
fn output_length_equals_threshold() {
    for threshold in 2..20 {
        assert_eq!(threshold, sample(zigzag(), threshold).len());
    }
}

#[test]
fn endpoints_are_kept() {
    for threshold in 0..25 {
        let out = sample(zigzag(), threshold);
        assert_eq!(DataPoint::new(0, -15), out[0]);
        assert_eq!(DataPoint::new(19, 0), out[out.len() - 1]);
    }
}

#[test]
fn output_is_a_subsequence_in_order() {
    let input = zigzag();
    for threshold in 2..20 {
        let out = sample(input.clone(), threshold);
        let mut from = 0;
        for p in out {
            let mut found = false;
            while from < input.len() && !found {
                found = input[from] == p;
                from += 1;
            }
            assert!(found);
        }
    }
}

#[test]
fn sampling_a_sampled_series_again_returns_it() {
    let once = sample(zigzag(), 7);
    assert_eq!(once.clone(), sample(once, 7));
}

#[test]
fn sampling_a_sampled_series_with_a_lower_threshold() {
    let once = sample(zigzag(), 7);
    let expected = series(&[(0, -15), (2, 8), (7, -15), (18, 7), (19, 0)]);
    assert_eq!(expected, sample(once, 5));
}

#[test]
fn extreme_coordinates_are_compared_exactly() {
    let (min, max) = (i64::MIN, i64::MAX);
    let wild = series(&[
        (min, min),
        (min, max),
        (0, min),
        (max, max),
        (-1, 0),
        (max, min),
        (min, 0),
        (max, max),
    ]);
    assert_eq!(series(&[(min, min), (min, max), (max, max)]), sample(wild.clone(), 3));
    assert_eq!(
        series(&[(min, min), (min, max), (max, min), (max, max)]),
        sample(wild.clone(), 4)
    );
    assert_eq!(
        series(&[(min, min), (min, max), (max, max), (max, min), (max, max)]),
        sample(wild, 5)
    );
}

#[test]
fn order_of_x_is_not_required() {
    let jumbled = series(&[(5, 1), (3, 9), (8, -4), (1, 1), (9, 9), (2, -7), (7, 0)]);
    assert_eq!(series(&[(5, 1), (3, 9), (2, -7), (7, 0)]), sample(jumbled, 4));
}

#[test]
fn largest_triangle_in_a_bucket() {
    let data = five();
    assert_eq!(2, largest_triangle(&data, 0, (4, 5), (1, 4)));
    assert_eq!(1, largest_triangle(&data, 0, (4, 5), (1, 2)));
    assert_eq!(3, largest_triangle(&data, 0, (4, 5), (3, 4)));
    assert_eq!(0, largest_triangle(&data, 2, (3, 5), (0, 2)));
    assert_eq!(1, largest_triangle(&data, 2, (3, 5), (1, 2)));
}

#[test]
fn largest_triangle_without_a_mean_keeps_the_first() {
    let data = five();
    assert_eq!(1, largest_triangle(&data, 0, (4, 4), (1, 4)));
    assert_eq!(0, largest_triangle(&data, 4, (0, 0), (0, 5)));
}

#[test]
fn largest_triangle_keeps_the_first_of_equals() {
    let tie = series(&[(0, 0), (1, 1), (2, -1), (3, 1), (4, 0)]);
    assert_eq!(1, largest_triangle(&tie, 0, (4, 5), (1, 4)));
    assert_eq!(2, largest_triangle(&tie, 0, (4, 5), (2, 4)));
}

#[test]
fn rounded_boundary_below_a_whole_number() {
    // 115 / 100 is rounded down, and 100 times the rounded ratio stays below
    // 115: the last bucket holds index 114 alone.
    let mut data = Vec::new();
    for k in 0..117i64 {
        data.push(DataPoint::new(k, 0));
    }
    data[115] = DataPoint::new(115, 1000);
    let out = sample(data, 102);
    assert_eq!(102, out.len());
    assert_eq!(DataPoint::new(113, 0), out[99]);
    assert_eq!(DataPoint::new(114, 0), out[100]);
    assert_eq!(DataPoint::new(116, 0), out[101]);
}

#[test]
fn starts_are_taken_as_given() {
    let tall = series(&[(0, 0), (1, 5), (2, 0), (3, 9), (4, 0), (5, 0)]);
    assert_eq!(
        Ok(series(&[(0, 0), (1, 5), (3, 9), (5, 0)])),
        lttb(tall.clone(), 4, vec![1, 3, 5, 7])
    );
    assert_eq!(
        Ok(series(&[(0, 0), (1, 5), (3, 9), (5, 0)])),
        lttb(tall.clone(), 4, vec![1, 2, 5, 6])
    );
    assert_eq!(
        Ok(series(&[(0, 0), (3, 9), (4, 0), (5, 0)])),
        lttb(tall, 4, vec![1, 4, 5, 5])
    );
}

#[test]
fn starts_that_do_not_fit_are_reported() {
    let data = five();
    assert_eq!(Err(SampleError::Boundaries), lttb(data.clone(), 3, vec![]));
    assert_eq!(Err(SampleError::Boundaries), lttb(data.clone(), 3, vec![1, 4]));
    assert_eq!(Err(SampleError::Boundaries), lttb(data.clone(), 3, vec![1, 4, 7, 9]));
    assert_eq!(Err(SampleError::Boundaries), lttb(data.clone(), 3, vec![0, 4, 7]));
    assert_eq!(Err(SampleError::Boundaries), lttb(data.clone(), 3, vec![1, 5, 7]));
    assert_eq!(Err(SampleError::Boundaries), lttb(data.clone(), 3, vec![1, 4, 3]));
    assert_eq!(Err(SampleError::Boundaries), lttb(data.clone(), 4, vec![1, 1, 4, 7]));
    assert_eq!(Err(SampleError::Boundaries), lttb(data.clone(), 4, vec![2, 1, 4, 7]));
    assert!(lttb(data.clone(), 3, vec![1, 4, 4]).is_ok());
    assert_eq!(Err(SampleError::Boundaries), lttb(data.clone(), 3, vec![4, 4, 9]));
    assert!(lttb(data, 3, vec![3, 4, usize::MAX]).is_ok());
}

#[test]
fn starts_are_not_looked_at_without_buckets() {
    let data = five();
    assert_eq!(Ok(five()), lttb(data.clone(), 0, vec![9, 9]));
    assert_eq!(Ok(five()), lttb(data.clone(), 1, vec![]));
    assert_eq!(Ok(five()), lttb(data.clone(), 5, vec![0]));
    assert_eq!(Ok(five()), lttb(data.clone(), 9, vec![3, 2, 1]));
    assert_eq!(Ok(series(&[(0, 10), (4, 12)])), lttb(data.clone(), 2, vec![]));
    assert_eq!(Ok(series(&[(0, 10), (4, 12)])), lttb(data, 2, vec![7, 0]));
}
