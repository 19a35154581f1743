use stats::merge_all;
use stats::Commute;
use stats::MinMax;
use stats::Unsorted;

fn collect_unsorted(values: Vec<i64>) -> Unsorted {
    let mut u = Unsorted::new();
    u.add_all(&values);
    u
}

#[test]
fn merge_all_empty_is_no_result() {
    let parts: Vec<Unsorted> = Vec::new();
    assert!(merge_all(parts).is_none());
}

#[test]
fn merge_all_singleton_is_unchanged() {
    let part = collect_unsorted(vec![3, 9, 5, 7]);
    let mut reduced = merge_all(vec![part]).unwrap();
    assert_eq!(reduced.to_vec(), vec![3, 9, 5, 7]);
    assert_eq!(reduced.cardinality(false, 1), 4);

    let mut single: MinMax<u32> = MinMax::new();
    single.add(4);
    single.add(9);
    let reduced_minmax = merge_all(vec![single]).unwrap();
    assert_eq!(reduced_minmax.min(), Some(&4u32));
    assert_eq!(reduced_minmax.max(), Some(&9u32));
    assert_eq!(reduced_minmax.len(), 2);
}

#[test]
fn merge_all_folds_partitions() {
    let parts = vec![
        collect_unsorted(vec![1, 2, 3]),
        collect_unsorted(vec![2, 4, 6]),
        collect_unsorted(vec![3, 6, 9]),
    ];
    let mut reduced = merge_all(parts).unwrap();
    assert_eq!(reduced.len(), 9);
    assert_eq!(reduced.cardinality(false, 1), 6);
}

#[test]
fn unsorted_concat_matches_merge() {
    // One pass over the whole data and a merge of two partition aggregates
    // agree on cardinality, median and mode.
    let a = vec![5, 1, 5, 9];
    let b = vec![3, 5, 1];

    let mut whole = collect_unsorted(a.clone());
    whole.add_all(&b);

    let mut merged = collect_unsorted(a);
    merged.merge(collect_unsorted(b));

    assert_eq!(merged.cardinality(false, 1), whole.cardinality(false, 1));
    assert_eq!(merged.median(), whole.median());
    assert_eq!(merged.mode(), whole.mode());
}

#[test]
fn unsorted_merge_commutes() {
    let x = vec![2, 8, 2];
    let y = vec![4, 2, 6];

    let mut xy = collect_unsorted(x.clone());
    xy.merge(collect_unsorted(y.clone()));
    let mut yx = collect_unsorted(y);
    yx.merge(collect_unsorted(x));

    assert_eq!(xy.cardinality(false, 1), yx.cardinality(false, 1));
    assert_eq!(xy.median(), yx.median());
    assert_eq!(xy.modes(), yx.modes());
    assert_eq!(xy.antimodes(), yx.antimodes());
}

#[test]
fn unsorted_merge_associates() {
    let x = vec![1, 4];
    let y = vec![4, 2];
    let z = vec![3, 4, 0];

    let mut left = collect_unsorted(x.clone());
    left.merge(collect_unsorted(y.clone()));
    left.merge(collect_unsorted(z.clone()));

    let mut yz = collect_unsorted(y);
    yz.merge(collect_unsorted(z));
    let mut right = collect_unsorted(x);
    right.merge(yz);

    assert_eq!(left.to_vec(), right.to_vec());
    assert_eq!(left.median(), right.median());
    assert_eq!(left.mode(), right.mode());
}

#[test]
fn merge_clears_sort_flag() {
    // A merged aggregate re-sorts lazily before its next ordered query.
    let mut u = collect_unsorted(vec![1, 2, 3]);
    u.sort();
    u.merge(collect_unsorted(vec![0]));
    assert_eq!(u.median().map(|q| q as f64 / 4.0), Some(1.5));
}

#[test]
fn unsorted_round_trip_parts() {
    let mut u = collect_unsorted(vec![4, 1, 3]);
    u.sort();
    let stored = u.to_vec();
    assert_eq!(stored, vec![1, 3, 4]);
    let mut decoded = Unsorted::from_parts(stored, true);
    assert_eq!(decoded.cardinality(true, 0), 3);

    let m = MinMax::<u32>::from_parts(3, Some(1), Some(4));
    assert_eq!(m.min(), Some(&1u32));
    assert_eq!(m.max(), Some(&4u32));
    assert_eq!(m.len(), 3);
}
