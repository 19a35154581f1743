use stats::antimodes;
use stats::mad;
use stats::median;
use stats::mode;
use stats::modes;
use stats::quartiles;
use stats::Unsorted;

fn collect_unsorted(values: Vec<i64>) -> Unsorted {
    let mut u = Unsorted::new();
    u.add_all(&values);
    u
}

fn as_f64(r: Option<i128>) -> Option<f64> {
    r.map(|v| v as f64 / 4.0)
}

fn as_f64_triple(r: Option<(i128, i128, i128)>) -> Option<(f64, f64, f64)> {
    r.map(|(a, b, c)| (a as f64 / 4.0, b as f64 / 4.0, c as f64 / 4.0))
}

#[test]
fn test_cardinality_empty() {
    let mut unsorted: Unsorted = Unsorted::new();
    assert_eq!(unsorted.cardinality(false, 1), 0);
}

#[test]
fn test_cardinality_single_element() {
    let mut unsorted = Unsorted::new();
    unsorted.add(5);
    assert_eq!(unsorted.cardinality(false, 1), 1);
}

#[test]
fn test_cardinality_unique_elements() {
    let mut unsorted = collect_unsorted(vec![1, 2, 3, 4, 5]);
    assert_eq!(unsorted.cardinality(false, 1), 5);
}

#[test]
fn test_cardinality_duplicate_elements() {
    let mut unsorted = collect_unsorted(vec![1, 2, 2, 3, 3, 3, 4, 4, 4, 4]);
    assert_eq!(unsorted.cardinality(false, 1), 4);
}

#[test]
fn test_cardinality_all_same() {
    let mut unsorted = collect_unsorted(vec![1; 100]);
    assert_eq!(unsorted.cardinality(false, 1), 1);
}

#[test]
fn test_cardinality_large_range() {
    let mut unsorted = collect_unsorted((0..1_000_000).collect());
    assert_eq!(unsorted.cardinality(false, 1), 1_000_000);
}

#[test]
fn test_cardinality_large_range_sequential() {
    let mut unsorted = collect_unsorted((0..1_000_000).collect());
    assert_eq!(unsorted.cardinality(false, 2_000_000), 1_000_000);
}

#[test]
fn test_cardinality_presorted() {
    let mut unsorted = collect_unsorted(vec![1, 2, 3, 4, 5]);
    unsorted.sort();
    assert_eq!(unsorted.cardinality(true, 1), 5);
}

#[test]
fn default_parallel_threshold_value() {
    assert_eq!(stats::DEFAULT_PARALLEL_THRESHOLD, 10_000);
}

#[test]
fn test_cardinality_all_thresholds() {
    // A duplicate-free batch of length N has cardinality N under every
    // execution strategy.
    let samples: Vec<i64> = vec![12, 7, 3, 42, 8, 1, 30, 25, 18, 5, 60, 2];
    for threshold in [0usize, 1, 2, 50_000] {
        let mut unsorted = collect_unsorted(samples.clone());
        assert_eq!(unsorted.cardinality(false, threshold), 12);
    }
}

#[test]
fn median_stream() {
    assert_eq!(as_f64(median(vec![3, 5, 7, 9])), Some(6.0));
    assert_eq!(as_f64(median(vec![3, 5, 7])), Some(5.0));
}

#[test]
fn median_unsorted_input() {
    // The same medians must come out of a shuffled batch.
    assert_eq!(as_f64(median(vec![9, 3, 7, 5])), Some(6.0));
    assert_eq!(as_f64(median(vec![7, 3, 5])), Some(5.0));
    assert_eq!(median(Vec::new()), None);
}

#[test]
fn median_extreme_samples() {
    assert_eq!(median(vec![i64::MAX, i64::MAX]), Some(4 * (i64::MAX as i128)));
    assert_eq!(median(vec![i64::MIN]), Some(4 * (i64::MIN as i128)));
    assert_eq!(as_f64(median(vec![i64::MIN, i64::MIN + 1])), Some(i64::MIN as f64 + 0.5));
}

#[test]
fn mad_stream() {
    assert_eq!(as_f64(mad(vec![3, 5, 7, 9], None)), Some(2.0));
    assert_eq!(
        as_f64(mad(
            vec![
                86, 60, 95, 39, 49, 12, 56, 82, 92, 24, 33, 28, 46, 34, 100, 39, 100, 38, 50, 61,
                39, 88, 5, 13, 64,
            ],
            None,
        )),
        Some(16.0)
    );
}

#[test]
fn mad_stream_precalc_median() {
    let data = vec![3, 5, 7, 9];
    let median1 = median(data.clone());
    assert_eq!(as_f64(mad(data, median1)), Some(2.0));

    let data2 = vec![
        86, 60, 95, 39, 49, 12, 56, 82, 92, 24, 33, 28, 46, 34, 100, 39, 100, 38, 50, 61, 39, 88,
        5, 13, 64,
    ];
    let median2 = median(data2.clone());
    assert_eq!(as_f64(mad(data2, median2)), Some(16.0));
}

#[test]
fn mode_stream() {
    assert_eq!(mode(vec![3, 5, 7, 9]), None);
    assert_eq!(mode(vec![3, 3, 3, 3]), Some(3));
    assert_eq!(mode(vec![3, 3, 3, 4]), Some(3));
    assert_eq!(mode(vec![4, 3, 3, 3]), Some(3));
    assert_eq!(mode(vec![1, 1, 2, 3, 3]), None);
}

#[test]
fn modes_stream() {
    assert_eq!(modes(vec![3, 5, 7, 9]), (vec![], 0, 0));
    assert_eq!(modes(vec![3, 3, 3, 3]), (vec![3], 1, 4));
    assert_eq!(modes(vec![3, 3, 4, 4]), (vec![3, 4], 2, 2));
    assert_eq!(modes(vec![4, 3, 3, 3]), (vec![3], 1, 3));
    assert_eq!(modes(vec![1, 1, 2, 2]), (vec![1, 2], 2, 2));
    let vec: Vec<i64> = vec![];
    assert_eq!(modes(vec), (vec![], 0, 0));
}

#[test]
fn antimodes_stream() {
    assert_eq!(antimodes(vec![3, 5, 7, 9]), (vec![3, 5, 7, 9], 4, 1));
    assert_eq!(
        antimodes(vec![1, 2, 3, 4, 5, 6, 7, 8, 9, 10, 11, 12, 13]),
        (vec![1, 2, 3, 4, 5, 6, 7, 8, 9, 10], 13, 1)
    );
    assert_eq!(antimodes(vec![1, 3, 3, 3]), (vec![1], 1, 1));
    assert_eq!(antimodes(vec![3, 3, 4, 4]), (vec![3, 4], 2, 2));
    assert_eq!(
        antimodes(vec![
            3, 3, 4, 4, 5, 5, 6, 6, 7, 7, 8, 8, 9, 9, 10, 10, 11, 11, 12, 12, 13, 13, 14, 14, 15,
            15,
        ]),
        // we only show the first 10 of the 13 antimodes
        (vec![3, 4, 5, 6, 7, 8, 9, 10, 11, 12], 13, 2)
    );
    assert_eq!(
        antimodes(vec![
            3, 3, 8, 8, 9, 9, 10, 10, 11, 11, 12, 12, 4, 4, 5, 5, 6, 6, 7, 7, 13, 13, 14, 14, 15,
            15,
        ]),
        (vec![3, 4, 5, 6, 7, 8, 9, 10, 11, 12], 13, 2)
    );
    assert_eq!(antimodes(vec![3, 3, 3, 4]), (vec![4], 1, 1));
    assert_eq!(antimodes(vec![4, 3, 3, 3]), (vec![4], 1, 1));
    assert_eq!(antimodes(vec![1, 1, 2, 2]), (vec![1, 2], 2, 2));
    let vec: Vec<i64> = vec![];
    assert_eq!(antimodes(vec), (vec![], 0, 0));
}

#[test]
fn antimodes_single_distinct_value() {
    // A single distinct value is its own least frequent value.
    assert_eq!(antimodes(vec![3, 3, 3, 3]), (vec![3], 1, 4));
}

#[test]
fn quartiles_stream() {
    assert_eq!(as_f64_triple(quartiles(vec![3, 5, 7])), Some((3., 5., 7.)));
    assert_eq!(as_f64_triple(quartiles(vec![3, 5, 7, 9])), Some((4., 6., 8.)));
    assert_eq!(as_f64_triple(quartiles(vec![1, 2, 7, 11])), Some((1.5, 4.5, 9.)));
    assert_eq!(as_f64_triple(quartiles(vec![3, 5, 7, 9, 12])), Some((4., 7., 10.5)));
    assert_eq!(as_f64_triple(quartiles(vec![2, 2, 3, 8, 10])), Some((2., 3., 9.)));
    assert_eq!(as_f64_triple(quartiles(vec![3, 5, 7, 9, 12, 20])), Some((5., 8., 12.)));
    assert_eq!(as_f64_triple(quartiles(vec![0, 2, 4, 8, 10, 11])), Some((2., 6., 10.)));
    assert_eq!(as_f64_triple(quartiles(vec![3, 5, 7, 9, 12, 20, 21])), Some((5., 9., 20.)));
    assert_eq!(as_f64_triple(quartiles(vec![1, 5, 6, 6, 7, 10, 19])), Some((5., 6., 10.)));
}

#[test]
fn quartiles_few_samples() {
    assert_eq!(quartiles(Vec::new()), None);
    assert_eq!(quartiles(vec![1]), None);
    assert_eq!(quartiles(vec![1, 2]), None);
}
