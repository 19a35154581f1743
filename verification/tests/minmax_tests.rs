use stats::Commute;
use stats::MinMax;

fn collect_minmax(values: Vec<u32>) -> MinMax<u32> {
    let mut m = MinMax::new();
    for v in values {
        m.add(v);
    }
    m
}

#[test]
fn minmax() {
    let minmax: MinMax<u32> = collect_minmax(vec![1u32, 4, 2, 3, 10]);
    assert_eq!(minmax.min(), Some(&1u32));
    assert_eq!(minmax.max(), Some(&10u32));
}

#[test]
fn minmax_empty() {
    let minmax: MinMax<u32> = MinMax::new();
    assert!(minmax.is_empty());
}

#[test]
fn minmax_merge_empty() {
    let mut mx1: MinMax<u32> = collect_minmax(vec![1, 4, 2, 3, 10]);
    assert_eq!(mx1.min(), Some(&1u32));
    assert_eq!(mx1.max(), Some(&10u32));

    mx1.merge(MinMax::default());
    assert_eq!(mx1.min(), Some(&1u32));
    assert_eq!(mx1.max(), Some(&10u32));
}

#[test]
fn minmax_concat_matches_merge() {
    let a = vec![5u32, 9, 1];
    let b = vec![7u32, 0, 3];
    let mut whole = collect_minmax(a.clone());
    for v in b.clone() {
        whole.add(v);
    }
    let mut merged = collect_minmax(a);
    merged.merge(collect_minmax(b));
    assert_eq!(merged.min(), whole.min());
    assert_eq!(merged.max(), whole.max());
    assert_eq!(merged.len(), whole.len());
}

#[test]
fn minmax_merge_commutes_and_associates() {
    let x = vec![4u32, 8];
    let y = vec![2u32, 6];
    let z = vec![9u32, 5];

    let mut xy = collect_minmax(x.clone());
    xy.merge(collect_minmax(y.clone()));
    let mut yx = collect_minmax(y.clone());
    yx.merge(collect_minmax(x.clone()));
    assert_eq!(xy.min(), yx.min());
    assert_eq!(xy.max(), yx.max());
    assert_eq!(xy.len(), yx.len());

    let mut left = xy;
    left.merge(collect_minmax(z.clone()));
    let mut right = collect_minmax(x);
    let mut yz = collect_minmax(y);
    yz.merge(collect_minmax(z));
    right.merge(yz);
    assert_eq!(left.min(), right.min());
    assert_eq!(left.max(), right.max());
    assert_eq!(left.len(), right.len());
}

#[test]
fn minmax_signed_samples() {
    let mut m: MinMax<i64> = MinMax::new();
    m.add(-3);
    m.add(i64::MAX);
    m.add(i64::MIN);
    assert_eq!(m.min(), Some(&i64::MIN));
    assert_eq!(m.max(), Some(&i64::MAX));
    assert_eq!(m.len(), 3);
    assert!(!m.is_empty());
}
