//! A commutative aggregate for lazily sorted sequences of data.
//!
//! Samples are buffered as they arrive; the buffer is sorted at most once per
//! batch of mutations, immediately before the first statistic that needs
//! order. Cardinality, median, median absolute deviation, quartiles, mode and
//! antimodes are all derived from the sorted buffer.
//!
//! Quantile-valued statistics (median, MAD, quartiles) are returned scaled by
//! four: averaging two neighbouring samples halves once, and the median of
//! deviations halves a second time, so a factor of four is the smallest one
//! that keeps every such result an exact integer.

use vstd::prelude::*;
use vstd::relations::{sorted_by, total_ordering};
use vstd::seq_lib::lemma_sorted_unique;

use rayon::iter::ParallelIterator;
use rayon::slice::ParallelSlice;
use rayon::slice::ParallelSliceMut;

use crate::commute::Commute;

verus! {

/// Buffers of at least this many samples use the data-parallel passes, when
/// the caller leaves the choice to the library.
pub const DEFAULT_PARALLEL_THRESHOLD: usize = 10_000;

/// The ascending order on samples, as a specification-level relation.
pub open spec fn i64_le() -> spec_fn(i64, i64) -> bool {
    |x: i64, y: i64| x <= y
}

/// The ascending order on scaled deviations.
pub open spec fn i128_le() -> spec_fn(i128, i128) -> bool {
    |x: i128, y: i128| x <= y
}

pub proof fn lemma_i64_le_total_ordering()
    ensures
        total_ordering(i64_le()),
{
    assert forall|x: i64| #[trigger] i64_le()(x, x) by {}
    assert forall|x: i64, y: i64| #[trigger] i64_le()(x, y) || #[trigger] i64_le()(y, x) by {}
}

pub proof fn lemma_i128_le_total_ordering()
    ensures
        total_ordering(i128_le()),
{
    assert forall|x: i128| #[trigger] i128_le()(x, x) by {}
    assert forall|x: i128, y: i128| #[trigger] i128_le()(x, y) || #[trigger] i128_le()(y, x) by {}
}

/// A sample buffer in ascending order.
pub open spec fn is_ascending(s: Seq<i64>) -> bool {
    sorted_by(s, i64_le())
}

/// The ascending reordering of a sample buffer.
pub open spec fn sorted_of(s: Seq<i64>) -> Seq<i64> {
    s.sort_by(i64_le())
}

/// How often the value `v` occurs among the samples `s`.
pub open spec fn freq(s: Seq<i64>, v: i64) -> nat {
    s.to_multiset().count(v)
}

/// The number of distinct values among the samples `s`.
pub open spec fn distinct_count(s: Seq<i64>) -> nat {
    s.to_set().len()
}

/// The number of positions of `s` whose value differs from its predecessor.
pub open spec fn change_points(s: Seq<i64>) -> nat
    decreases s.len(),
{
    if s.len() <= 1 {
        0
    } else {
        change_points(s.drop_last()) + (if s.last() != s[s.len() - 2] {
            1nat
        } else {
            0nat
        })
    }
}

/// Buffers with the same sample multiset have the same value set.
pub proof fn lemma_multiset_eq_set_eq(a: Seq<i64>, b: Seq<i64>)
    requires
        a.to_multiset() == b.to_multiset(),
    ensures
        a.to_set() == b.to_set(),
{
    broadcast use vstd::seq_lib::group_to_multiset_ensures;

    assert forall|v: i64| a.contains(v) <==> b.contains(v) by {
        assert(a.contains(v) <==> a.to_multiset().count(v) > 0);
        assert(b.contains(v) <==> b.to_multiset().count(v) > 0);
    }
    assert(a.to_set() =~= b.to_set());
}

/// Buffers with the same sample multiset give every value the same frequency.
pub proof fn lemma_multiset_eq_freq_eq(a: Seq<i64>, b: Seq<i64>)
    requires
        a.to_multiset() == b.to_multiset(),
    ensures
        forall|v: i64| #[trigger] freq(a, v) == freq(b, v),
{
}

proof fn lemma_change_points_bound(s: Seq<i64>)
    ensures
        s.len() > 0 ==> change_points(s) + 1 <= s.len(),
    decreases s.len(),
{
    if s.len() > 1 {
        lemma_change_points_bound(s.drop_last());
    }
}

/// Ahead of a sorted buffer's last element only equals of it can sit, so in a
/// sorted buffer the runs of equal values are contiguous: one value change per
/// distinct value after the first.
pub proof fn lemma_change_points_distinct(s: Seq<i64>)
    requires
        is_ascending(s),
    ensures
        s.len() == 0 ==> distinct_count(s) == 0,
        s.len() > 0 ==> distinct_count(s) == change_points(s) + 1,
    decreases s.len(),
{
    broadcast use vstd::set::group_set_axioms, vstd::seq_lib::seq_to_set_is_finite;

    if s.len() == 0 {
        s.lemma_cardinality_of_empty_set_is_0();
    } else if s.len() == 1 {
        assert(s.to_set() =~= Set::empty().insert(s[0])) by {
            assert forall|v: i64| s.contains(v) <==> v == s[0] by {
                if s.contains(v) {
                    let i = choose|i: int| 0 <= i < s.len() && s[i] == v;
                    assert(i == 0);
                }
                if v == s[0] {
                    assert(s[0] == v);
                }
            }
        }
    } else {
        let t = s.drop_last();
        let x = s.last();
        assert(is_ascending(t)) by {
            assert forall|i: int, j: int| 0 <= i < j < t.len() implies #[trigger] i64_le()(
                t[i],
                t[j],
            ) by {
                assert(i64_le()(s[i], s[j]));
            }
        }
        lemma_change_points_distinct(t);
        assert(s.to_set() =~= t.to_set().insert(x)) by {
            assert forall|v: i64| s.contains(v) <==> (t.contains(v) || v == x) by {
                if s.contains(v) {
                    let i = choose|i: int| 0 <= i < s.len() && s[i] == v;
                    if i < s.len() - 1 {
                        assert(t[i] == v);
                    }
                }
                if t.contains(v) {
                    let i = choose|i: int| 0 <= i < t.len() && t[i] == v;
                    assert(s[i] == v);
                }
                if v == x {
                    assert(s[s.len() - 1] == v);
                }
            }
        }
        if x == s[s.len() - 2] {
            assert(t.contains(x)) by {
                assert(t[s.len() - 2] == x);
            }
        } else {
            assert(!t.contains(x)) by {
                if t.contains(x) {
                    let i = choose|i: int| 0 <= i < t.len() && t[i] == x;
                    if i < s.len() - 2 {
                        assert(i64_le()(s[i], s[s.len() - 2]));
                        assert(i64_le()(s[s.len() - 2], s[s.len() - 1]));
                    }
                }
            }
        }
    }
}

/// Relies on rayon's `par_sort_unstable`: it sorts the slice in place, and an
/// unstable sort of plain integers is exactly an ascending rearrangement of
/// the same multiset of values.
#[verifier::external_body]
fn par_sort_i64(data: &mut Vec<i64>)
    ensures
        is_ascending(final(data)@),
        final(data)@.to_multiset() == old(data)@.to_multiset(),
{
    data.as_mut_slice().par_sort_unstable();
}

/// Relies on rayon's `par_sort_unstable`, as `par_sort_i64` does, for the
/// buffer of scaled deviations.
#[verifier::external_body]
fn par_sort_i128(data: &mut Vec<i128>)
    ensures
        sorted_by(final(data)@, i128_le()),
        final(data)@.to_multiset() == old(data)@.to_multiset(),
{
    data.as_mut_slice().par_sort_unstable();
}

/// Relies on rayon's `par_windows`: the windows of width two are exactly the
/// adjacent pairs of the slice, so summing one per unequal pair counts the
/// positions whose value differs from its predecessor.
#[verifier::external_body]
fn par_count_changes(data: &Vec<i64>) -> (r: u64)
    ensures
        r == change_points(data@),
{
    data.as_slice().par_windows(2).map(|w| u64::from(w[0] != w[1])).sum::<u64>()
}

/// A commutative data structure for lazily sorted sequences of data.
///
/// The sort does not occur until statistics need to be computed.
#[derive(Clone, PartialEq, Eq)]
pub struct Unsorted {
    data: Vec<i64>,
    sorted: bool,
}

impl View for Unsorted {
    type V = Seq<i64>;

    closed spec fn view(&self) -> Seq<i64> {
        self.data@
    }
}

impl Unsorted {
    /// Whether the buffer is known to be sorted; any mutation clears this.
    pub closed spec fn sorted_flag(self) -> bool {
        self.sorted
    }

    /// The sort flag is never set while the buffer is out of order.
    pub open spec fn wf(self) -> bool {
        self.sorted_flag() ==> is_ascending(self@)
    }

    /// Create initial empty state.
    pub fn new() -> (r: Unsorted)
        ensures
            r@ == Seq::<i64>::empty(),
            r.sorted_flag(),
            r.wf(),
    {
        let r = Unsorted { data: Vec::new(), sorted: true };
        proof {
            assert(r@ =~= Seq::<i64>::empty());
        }
        r
    }

    /// Add a new element to the set.
    pub fn add(&mut self, v: i64)
        ensures
            final(self)@ == old(self)@.push(v),
            !final(self).sorted_flag(),
            final(self).wf(),
    {
        self.sorted = false;
        self.data.push(v);
    }

    /// Add every sample of a batch, in order.
    pub fn add_all(&mut self, samples: &Vec<i64>)
        ensures
            final(self)@ == old(self)@ + samples@,
            !final(self).sorted_flag(),
            final(self).wf(),
    {
        self.sorted = false;
        let n = samples.len();
        let mut i: usize = 0;
        proof {
            assert(self@ =~= old(self)@ + samples@.subrange(0, 0));
        }
        while i < n
            invariant
                i <= n,
                n == samples@.len(),
                self@ == old(self)@ + samples@.subrange(0, i as int),
                !self.sorted_flag(),
            decreases n - i,
        {
            self.data.push(samples[i]);
            proof {
                assert(self@ =~= old(self)@ + samples@.subrange(0, i + 1));
            }
            i += 1;
        }
        proof {
            assert(samples@.subrange(0, n as int) =~= samples@);
        }
    }

    /// Return the number of data points.
    pub fn len(&self) -> (r: usize)
        ensures
            r == self@.len(),
    {
        self.data.len()
    }

    /// Returns true if there are no data points.
    pub fn is_empty(&self) -> (r: bool)
        ensures
            r == (self@.len() == 0),
    {
        self.data.is_empty()
    }

    /// Whether the buffer is currently marked as sorted: set by `sort`,
    /// cleared by any mutation.
    pub fn sorted_hint(&self) -> (r: bool)
        ensures
            r == self.sorted_flag(),
    {
        self.sorted
    }

    /// Bring the buffer into ascending order; a no-op on a buffer that is
    /// already known to be sorted.
    pub fn sort(&mut self)
        requires
            old(self).wf(),
        ensures
            final(self)@ == sorted_of(old(self)@),
            final(self).sorted_flag(),
            final(self).wf(),
    {
        proof {
            lemma_i64_le_total_ordering();
            old(self)@.lemma_sort_by_ensures(i64_le());
        }
        if !self.sorted {
            par_sort_i64(&mut self.data);
            self.sorted = true;
            proof {
                lemma_sorted_unique(self@, sorted_of(old(self)@), i64_le());
            }
        } else {
            proof {
                lemma_sorted_unique(self@, sorted_of(old(self)@), i64_le());
            }
        }
    }

    /// Record that the buffer is sorted without scanning it; the caller
    /// vouches for the order.
    fn already_sorted(&mut self)
        requires
            is_ascending(old(self)@),
        ensures
            final(self)@ == old(self)@,
            final(self).sorted_flag(),
            final(self).wf(),
    {
        self.sorted = true;
    }

    /// Returns the cardinality of the data.
    ///
    /// Set `sorted` to `true` only if the buffer really is in ascending
    /// order: the internal sort is then skipped. `parallel_threshold` picks
    /// the execution strategy: `0` forces the sequential pass, `1` applies
    /// the built-in threshold, `2` forces the parallel pass, and any other
    /// value is itself the minimum buffer size for going parallel.
    pub fn cardinality(&mut self, sorted: bool, parallel_threshold: usize) -> (r: u64)
        requires
            old(self).wf(),
            sorted ==> is_ascending(old(self)@),
        ensures
            final(self).wf(),
            r == distinct_count(old(self)@),
            old(self)@.len() <= 1 ==> final(self)@ == old(self)@ && final(self).sorted_flag()
                == old(self).sorted_flag(),
            old(self)@.len() >= 2 && sorted ==> final(self)@ == old(self)@
                && final(self).sorted_flag(),
            old(self)@.len() >= 2 && !sorted ==> final(self)@ == sorted_of(old(self)@)
                && final(self).sorted_flag(),
    {
        let len = self.data.len();
        if len == 0 {
            proof {
                self@.lemma_cardinality_of_empty_set_is_0();
            }
            return 0;
        }
        if len == 1 {
            proof {
                broadcast use vstd::set::group_set_axioms, vstd::seq_lib::seq_to_set_is_finite;

                assert(self@.to_set() =~= Set::empty().insert(self@[0])) by {
                    assert forall|v: i64| self@.contains(v) <==> v == self@[0] by {
                        if self@.contains(v) {
                            let i = choose|i: int| 0 <= i < self@.len() && self@[i] == v;
                            assert(i == 0);
                        }
                        if v == self@[0] {
                            assert(self@[0] == v);
                        }
                    }
                }
            }
            return 1;
        }

        if sorted {
            self.already_sorted();
        } else {
            self.sort();
        }
        proof {
            broadcast use vstd::seq_lib::group_to_multiset_ensures;

            lemma_i64_le_total_ordering();
            old(self)@.lemma_sort_by_ensures(i64_le());
            assert(self@.to_multiset().len() == self@.len());
            assert(old(self)@.to_multiset().len() == old(self)@.len());
            assert(self@.len() == len);
            lemma_multiset_eq_set_eq(self@, old(self)@);
            lemma_change_points_distinct(self@);
            lemma_change_points_bound(self@);
        }

        let use_parallel = if parallel_threshold == 0 {
            false
        } else if parallel_threshold == 1 {
            len > DEFAULT_PARALLEL_THRESHOLD
        } else if parallel_threshold == 2 {
            true
        } else {
            len > parallel_threshold
        };

        if use_parallel {
            let changes = par_count_changes(&self.data);
            changes + 1
        } else {
            count_runs_sequential(&self.data)
        }
    }
}

/// The median of a sorted buffer, scaled by four: four times the middle
/// element of an odd-length buffer, twice the sum of the two central elements
/// of an even-length one.
pub open spec fn median_quarters(s: Seq<i64>) -> int
    recommends
        s.len() > 0,
{
    let n = s.len() as int;
    if n % 2 == 1 {
        4 * s[n / 2]
    } else {
        2 * (s[n / 2 - 1] + s[n / 2])
    }
}

/// The exact quartiles of a sorted buffer of at least three samples, scaled
/// by four. Three samples are the quartiles themselves; otherwise the buffer
/// splits into four equal-weighted parts by case analysis on the length
/// modulo four, averaging the two neighbours wherever a split falls between
/// elements.
pub open spec fn quartiles_quarters(s: Seq<i64>) -> (int, int, int)
    recommends
        s.len() >= 3,
{
    let n = s.len() as int;
    if n == 3 {
        (4 * s[0], 4 * s[1], 4 * s[2])
    } else {
        let r = n % 4;
        let k = (n - r) / 4;
        if r == 0 {
            (2 * (s[k - 1] + s[k]), 2 * (s[2 * k - 1] + s[2 * k]), 2 * (s[3 * k - 1] + s[3 * k]))
        } else if r == 1 {
            (2 * (s[k - 1] + s[k]), 4 * s[2 * k], 2 * (s[3 * k] + s[3 * k + 1]))
        } else if r == 2 {
            (4 * s[k], 2 * (s[2 * k] + s[2 * k + 1]), 4 * s[3 * k + 1])
        } else {
            (4 * s[k], 4 * s[2 * k + 1], 4 * s[3 * k + 2])
        }
    }
}

/// The absolute deviation of the sample `x` from the median `m`, both scaled
/// by four.
pub open spec fn abs_diff_quarters(m: int, x: i64) -> int {
    if m - 4 * x < 0 {
        4 * x - m
    } else {
        m - 4 * x
    }
}

/// All absolute deviations of the samples from the median `m`, scaled by
/// four, in sample order.
pub open spec fn deviations_quarters(s: Seq<i64>, m: int) -> Seq<i128> {
    s.map_values(|x: i64| abs_diff_quarters(m, x) as i128)
}

/// The median absolute deviation of the samples around the median `m`,
/// scaled by four: the median of the sorted deviation sequence.
pub open spec fn mad_quarters(s: Seq<i64>, m: int) -> int
    recommends
        s.len() > 0,
{
    let d = deviations_quarters(s, m).sort_by(i128_le());
    let n = d.len() as int;
    if n % 2 == 1 {
        d[n / 2] as int
    } else {
        (d[n / 2 - 1] + d[n / 2]) / 2
    }
}

/// The median of a sorted buffer, scaled by four.
fn median_on_sorted(data: &Vec<i64>) -> (r: Option<i128>)
    ensures
        data@.len() == 0 ==> r is None,
        data@.len() > 0 ==> (r matches Some(m) && m == median_quarters(data@)),
{
    let n = data.len();
    if n == 0 {
        return None;
    }
    if n % 2 == 1 {
        let v = data[n / 2];
        Some(4 * (v as i128))
    } else {
        let a = data[n / 2 - 1];
        let b = data[n / 2];
        Some(2 * ((a as i128) + (b as i128)))
    }
}

/// The quartiles of a sorted buffer, scaled by four.
fn quartiles_on_sorted(data: &Vec<i64>) -> (r: Option<(i128, i128, i128)>)
    ensures
        data@.len() <= 2 ==> r is None,
        data@.len() >= 3 ==> (r matches Some(q) && {
            let (q1, q2, q3) = quartiles_quarters(data@);
            q.0 == q1 && q.1 == q2 && q.2 == q3
        }),
{
    let n = data.len();
    if n <= 2 {
        return None;
    }
    if n == 3 {
        return Some((4 * (data[0] as i128), 4 * (data[1] as i128), 4 * (data[2] as i128)));
    }
    let r = n % 4;
    let k = (n - r) / 4;
    if r == 0 {
        Some(
            (
                2 * ((data[k - 1] as i128) + (data[k] as i128)),
                2 * ((data[2 * k - 1] as i128) + (data[2 * k] as i128)),
                2 * ((data[3 * k - 1] as i128) + (data[3 * k] as i128)),
            ),
        )
    } else if r == 1 {
        Some(
            (
                2 * ((data[k - 1] as i128) + (data[k] as i128)),
                4 * (data[2 * k] as i128),
                2 * ((data[3 * k] as i128) + (data[3 * k + 1] as i128)),
            ),
        )
    } else if r == 2 {
        Some(
            (
                4 * (data[k] as i128),
                2 * ((data[2 * k] as i128) + (data[2 * k + 1] as i128)),
                4 * (data[3 * k + 1] as i128),
            ),
        )
    } else {
        Some(
            (
                4 * (data[k] as i128),
                4 * (data[2 * k + 1] as i128),
                4 * (data[3 * k + 2] as i128),
            ),
        )
    }
}

/// The median absolute deviation around `m` of the samples in the buffer,
/// scaled by four. The deviations need an order of their own, so they are
/// collected and sorted independently of the sample buffer.
fn mad_around(data: &Vec<i64>, m: i128) -> (r: i128)
    requires
        data@.len() > 0,
        4 * i64::MIN <= m <= 4 * i64::MAX,
    ensures
        r == mad_quarters(data@, m as int),
{
    let ghost dev_spec = deviations_quarters(data@, m as int);
    let n = data.len();
    let mut devs: Vec<i128> = Vec::new();
    let mut i: usize = 0;
    proof {
        assert(devs@ =~= deviations_quarters(data@.subrange(0, 0), m as int));
    }
    while i < n
        invariant
            i <= n,
            n == data@.len(),
            4 * i64::MIN <= m <= 4 * i64::MAX,
            devs@ == deviations_quarters(data@.subrange(0, i as int), m as int),
        decreases n - i,
    {
        let x = data[i];
        let d4 = m - 4 * (x as i128);
        let a = if d4 < 0 {
            -d4
        } else {
            d4
        };
        devs.push(a);
        proof {
            assert(devs@ =~= deviations_quarters(data@.subrange(0, i + 1), m as int));
        }
        i += 1;
    }
    proof {
        assert(data@.subrange(0, n as int) =~= data@);
        assert(devs@ == dev_spec);
    }
    par_sort_i128(&mut devs);
    proof {
        broadcast use vstd::seq_lib::group_to_multiset_ensures;

        lemma_i128_le_total_ordering();
        dev_spec.lemma_sort_by_ensures(i128_le());
        lemma_sorted_unique(devs@, dev_spec.sort_by(i128_le()), i128_le());
        assert(devs@.to_multiset().len() == devs@.len());
        assert(dev_spec.to_multiset().len() == dev_spec.len());
        assert(devs@.len() == n);
        assert forall|j: int| 0 <= j < devs@.len() implies 0 <= #[trigger] devs@[j] <= 8 * (
        i64::MAX as int) + 4 by {
            assert(devs@.contains(devs@[j]));
            assert(devs@.to_multiset().count(devs@[j]) > 0);
            assert(dev_spec.to_multiset().count(devs@[j]) > 0);
            assert(dev_spec.contains(devs@[j]));
            let l = choose|l: int| 0 <= l < dev_spec.len() && dev_spec[l] == devs@[j];
            assert(dev_spec[l] == abs_diff_quarters(m as int, data@[l]) as i128);
        }
    }
    let dn = devs.len();
    if dn % 2 == 1 {
        devs[dn / 2]
    } else {
        let a = devs[dn / 2 - 1];
        let b = devs[dn / 2];
        let s = (a + b) as u128;
        (s / 2) as i128
    }
}

impl Unsorted {
    /// Returns the median of the data, scaled by four.
    ///
    /// `None` is returned if and only if there is no data.
    pub fn median(&mut self) -> (r: Option<i128>)
        requires
            old(self).wf(),
        ensures
            r is None <==> old(self)@.len() == 0,
            old(self)@.len() > 0 ==> (r matches Some(m) && m == median_quarters(
                sorted_of(old(self)@),
            )) && final(self)@ == sorted_of(old(self)@) && final(self).sorted_flag(),
            old(self)@.len() == 0 ==> final(self)@ == old(self)@ && final(self).sorted_flag()
                == old(self).sorted_flag(),
            final(self).wf(),
    {
        if self.data.is_empty() {
            return None;
        }
        self.sort();
        proof {
            broadcast use vstd::seq_lib::group_to_multiset_ensures;

            lemma_i64_le_total_ordering();
            old(self)@.lemma_sort_by_ensures(i64_le());
            assert(self@.to_multiset().len() == self@.len());
            assert(old(self)@.to_multiset().len() == old(self)@.len());
        }
        median_on_sorted(&self.data)
    }

    /// Returns the quartiles of the data, scaled by four.
    ///
    /// `None` is returned when fewer than three samples are present.
    pub fn quartiles(&mut self) -> (r: Option<(i128, i128, i128)>)
        requires
            old(self).wf(),
        ensures
            r is None <==> old(self)@.len() <= 2,
            old(self)@.len() >= 3 ==> (r matches Some(q) && {
                let (q1, q2, q3) = quartiles_quarters(sorted_of(old(self)@));
                q.0 == q1 && q.1 == q2 && q.2 == q3
            }),
            old(self)@.len() > 0 ==> final(self)@ == sorted_of(old(self)@)
                && final(self).sorted_flag(),
            old(self)@.len() == 0 ==> final(self)@ == old(self)@ && final(self).sorted_flag()
                == old(self).sorted_flag(),
            final(self).wf(),
    {
        if self.data.is_empty() {
            return None;
        }
        self.sort();
        proof {
            broadcast use vstd::seq_lib::group_to_multiset_ensures;

            lemma_i64_le_total_ordering();
            old(self)@.lemma_sort_by_ensures(i64_le());
            assert(self@.to_multiset().len() == self@.len());
            assert(old(self)@.to_multiset().len() == old(self)@.len());
        }
        quartiles_on_sorted(&self.data)
    }

    /// Returns the median absolute deviation of the data, scaled by four.
    ///
    /// A caller that already knows the median (scaled by four) may pass it
    /// in; the primary buffer is then left untouched and the given value is
    /// used as the centre. Otherwise the median is computed first, which
    /// sorts the buffer. `None` is returned if and only if there is no data.
    pub fn mad(&mut self, existing_median: Option<i128>) -> (r: Option<i128>)
        requires
            old(self).wf(),
            existing_median matches Some(m) ==> 4 * i64::MIN <= m <= 4 * i64::MAX,
        ensures
            r is None <==> old(self)@.len() == 0,
            old(self)@.len() > 0 && existing_median is Some ==> (r matches Some(v) && v
                == mad_quarters(old(self)@, existing_median->0 as int)) && final(self)@ == old(
                self,
            )@ && final(self).sorted_flag() == old(self).sorted_flag(),
            old(self)@.len() > 0 && existing_median is None ==> (r matches Some(v) && v
                == mad_quarters(
                sorted_of(old(self)@),
                median_quarters(sorted_of(old(self)@)),
            )) && final(self)@ == sorted_of(old(self)@) && final(self).sorted_flag(),
            old(self)@.len() == 0 ==> final(self)@ == old(self)@ && final(self).sorted_flag()
                == old(self).sorted_flag(),
            final(self).wf(),
    {
        if self.data.is_empty() {
            return None;
        }
        match existing_median {
            Some(m) => Some(mad_around(&self.data, m)),
            None => {
                let m = match self.median() {
                    Some(m) => m,
                    None => {
                        return None;
                    },
                };
                proof {
                    broadcast use vstd::seq_lib::group_to_multiset_ensures;

                    lemma_i64_le_total_ordering();
                    old(self)@.lemma_sort_by_ensures(i64_le());
                    assert(self@.to_multiset().len() == self@.len());
                    assert(old(self)@.to_multiset().len() == old(self)@.len());
                    assert(self@.len() > 0);
                    let s = self@;
                    let n = s.len() as int;
                    if n % 2 == 1 {
                        assert(m == 4 * s[n / 2]);
                        assert(i64::MIN <= s[n / 2] <= i64::MAX);
                    } else {
                        assert(m == 2 * (s[n / 2 - 1] + s[n / 2]));
                    }
                }
                Some(mad_around(&self.data, m))
            },
        }
    }
}

/// One sequential pass comparing each element to its predecessor.
fn count_runs_sequential(data: &Vec<i64>) -> (r: u64)
    ensures
        data@.len() == 0 ==> r == 0,
        data@.len() > 0 ==> r == change_points(data@) + 1,
{
    let n = data.len();
    let mut count: u64 = 0;
    let mut i: usize = 0;
    while i < n
        invariant
            i <= n,
            n == data@.len(),
            i == 0 ==> count == 0,
            i > 0 ==> count == change_points(data@.subrange(0, i as int)) + 1,
            count <= i,
        decreases n - i,
    {
        if i == 0 || data[i] != data[i - 1] {
            count = count + 1;
        }
        proof {
            let p = data@.subrange(0, i as int);
            let p2 = data@.subrange(0, i + 1);
            assert(p2.drop_last() =~= p);
            assert(p2.last() == data@[i as int]);
            if i > 0 {
                assert(p2[i - 1] == data@[i - 1]);
            }
        }
        i += 1;
    }
    proof {
        assert(data@.subrange(0, n as int) =~= data@);
    }
    count
}

/// Pairwise strictly increasing values: an ascending enumeration of a set.
pub open spec fn strictly_ascending(s: Seq<i64>) -> bool {
    forall|i: int, j: int| 0 <= i < j < s.len() ==> s[i] < s[j]
}

/// The run table of a sorted buffer: one entry per distinct value, in
/// ascending order, carrying that value's frequency in the whole buffer.
pub open spec fn runs_wf(s: Seq<i64>, runs: Seq<(i64, usize)>) -> bool {
    &&& (forall|i: int, j: int|
        #![trigger runs[i], runs[j]]
        0 <= i < j < runs.len() ==> runs[i].0 < runs[j].0)
    &&& (forall|i: int|
        0 <= i < runs.len() ==> freq(s, (#[trigger] runs[i]).0) == runs[i].1 && 1 <= runs[i].1
            <= s.len())
    &&& (forall|i: int| 0 <= i < runs.len() ==> s.contains((#[trigger] runs[i]).0))
    &&& (forall|v: i64|
        #[trigger] s.contains(v) ==> exists|i: int|
            0 <= i < runs.len() && (#[trigger] runs[i]).0 == v)
    &&& runs.len() == distinct_count(s)
}

/// One pass over a sorted buffer, collecting each maximal run of equal
/// adjacent values as one distinct value with its frequency.
fn runs_of_sorted(data: &Vec<i64>) -> (runs: Vec<(i64, usize)>)
    requires
        is_ascending(data@),
    ensures
        runs_wf(data@, runs@),
{
    let n = data.len();
    let mut runs: Vec<(i64, usize)> = Vec::new();
    let mut i: usize = 0;
    proof {
        broadcast use vstd::set::group_set_axioms, vstd::seq_lib::seq_to_set_is_finite;

        data@.subrange(0, 0).lemma_cardinality_of_empty_set_is_0();
        assert(runs_wf(data@.subrange(0, 0), runs@));
    }
    while i < n
        invariant
            i <= n,
            n == data@.len(),
            is_ascending(data@),
            runs_wf(data@.subrange(0, i as int), runs@),
            i == 0 ==> runs@.len() == 0,
            i > 0 ==> runs@.len() > 0 && runs@.last().0 == data@[i - 1],
        decreases n - i,
    {
        let x = data[i];
        let ghost p = data@.subrange(0, i as int);
        let ghost p2 = data@.subrange(0, i + 1);
        proof {
            broadcast use
                vstd::set::group_set_axioms,
                vstd::seq_lib::seq_to_set_is_finite,
                vstd::seq_lib::group_to_multiset_ensures,
                vstd::multiset::group_multiset_axioms;

            assert(p2.drop_last() =~= p);
            assert(p2 =~= p.push(x));
            assert(p.push(x).to_multiset() =~= p.to_multiset().insert(x));
            assert(p2.to_set() =~= p.to_set().insert(x)) by {
                assert forall|v: i64| p2.contains(v) <==> (p.contains(v) || v == x) by {
                    if p2.contains(v) {
                        let l = choose|l: int| 0 <= l < p2.len() && p2[l] == v;
                        if l < p2.len() - 1 {
                            assert(p[l] == v);
                        }
                    }
                    if p.contains(v) {
                        let l = choose|l: int| 0 <= l < p.len() && p[l] == v;
                        assert(p2[l] == v);
                    }
                    if v == x {
                        assert(p2[p2.len() - 1] == v);
                    }
                }
            }
            // every element of the sorted prefix is bounded by its last one
            if i > 0 {
                assert forall|l: int| 0 <= l < p.len() implies #[trigger] p[l] <= data@[i - 1] by {
                    if l < i - 1 {
                        assert(i64_le()(data@[l], data@[i - 1]));
                    }
                }
                assert(i64_le()(data@[i - 1], data@[i as int]));
            }
        }
        let rl = runs.len();
        if rl > 0 && runs[rl - 1].0 == x {
            let c = runs[rl - 1].1;
            proof {
                assert(c == freq(p, x));
                assert(c <= p.len());
            }
            let ghost runs0 = runs@;
            runs[rl - 1] = (x, c + 1);
            proof {
                broadcast use
                    vstd::set::group_set_axioms,
                    vstd::seq_lib::seq_to_set_is_finite,
                    vstd::seq_lib::group_to_multiset_ensures,
                    vstd::multiset::group_multiset_axioms;

                assert(p.contains(x)) by {
                    assert(p.to_multiset().count(x) > 0);
                }
                assert(p2.to_set() =~= p.to_set());
                assert(runs@.len() == runs0.len());
                assert forall|l: int| 0 <= l < runs@.len() implies (#[trigger] runs@[l]).0
                    == runs0[l].0 by {
                    if l == runs@.len() - 1 {
                        assert(runs0[l].0 == x);
                    }
                }
                assert forall|l: int| 0 <= l < runs@.len() implies freq(p2, (
                #[trigger] runs@[l]).0) == runs@[l].1 && 1 <= runs@[l].1 <= p2.len() by {
                    if l < runs@.len() - 1 {
                        assert(runs@[l] == runs0[l]);
                        assert(runs0[l].0 < runs0[runs0.len() - 1].0);
                        assert(runs@[l].0 != x);
                        assert(freq(p2, runs@[l].0) == freq(p, runs@[l].0));
                    } else {
                        assert(runs@[l] == (x, (c + 1) as usize));
                        assert(freq(p2, x) == freq(p, x) + 1);
                    }
                }
                assert forall|v: i64| #[trigger] p2.contains(v) implies exists|l: int|
                    0 <= l < runs@.len() && (#[trigger] runs@[l]).0 == v by {
                    if p.contains(v) {
                        let l = choose|l: int| 0 <= l < runs0.len() && (#[trigger] runs0[l]).0 == v;
                        assert(runs@[l].0 == v);
                    } else {
                        assert(v == x);
                        assert(runs@[runs@.len() - 1].0 == x);
                    }
                }
                assert(runs_wf(p2, runs@));
            }
        } else {
            proof {
                broadcast use
                    vstd::set::group_set_axioms,
                    vstd::seq_lib::seq_to_set_is_finite,
                    vstd::seq_lib::group_to_multiset_ensures,
                    vstd::multiset::group_multiset_axioms;

                assert(!p.contains(x)) by {
                    if p.contains(x) {
                        let l = choose|l: int| 0 <= l < p.len() && p[l] == x;
                        assert(p[l] <= data@[i - 1]);
                    }
                }
                assert(freq(p, x) == 0) by {
                    assert(!p.contains(x) ==> p.to_multiset().count(x) == 0);
                }
                // all existing run values sit in the prefix, hence below x
                assert forall|l: int| 0 <= l < runs@.len() implies (#[trigger] runs@[l]).0
                    < x by {
                    assert(p.contains(runs@[l].0));
                    let e = choose|e: int| 0 <= e < p.len() && p[e] == runs@[l].0;
                    assert(p[e] <= data@[i - 1]);
                    assert(runs@[l].0 != x);
                }
            }
            let ghost runs0 = runs@;
            runs.push((x, 1));
            proof {
                broadcast use
                    vstd::set::group_set_axioms,
                    vstd::seq_lib::seq_to_set_is_finite,
                    vstd::seq_lib::group_to_multiset_ensures,
                    vstd::multiset::group_multiset_axioms;

                assert forall|l: int| 0 <= l < runs@.len() implies freq(p2, (
                #[trigger] runs@[l]).0) == runs@[l].1 && 1 <= runs@[l].1 <= p2.len() by {
                    if l < runs@.len() - 1 {
                        assert(runs@[l] == runs0[l]);
                        assert(runs@[l].0 < x);
                        assert(freq(p2, runs@[l].0) == freq(p, runs@[l].0));
                    } else {
                        assert(runs@[l] == (x, 1usize));
                        assert(freq(p2, x) == freq(p, x) + 1);
                    }
                }
                assert forall|v: i64| #[trigger] p2.contains(v) implies exists|l: int|
                    0 <= l < runs@.len() && (#[trigger] runs@[l]).0 == v by {
                    if p.contains(v) {
                        let l = choose|l: int| 0 <= l < runs0.len() && (#[trigger] runs0[l]).0 == v;
                        assert(runs@[l].0 == v);
                    } else {
                        assert(v == x);
                        assert(runs@[runs@.len() - 1].0 == x);
                    }
                }
                assert(runs_wf(p2, runs@));
            }
        }
        i += 1;
    }
    proof {
        assert(data@.subrange(0, n as int) =~= data@);
    }
    runs
}

/// `v` is the unique most frequent value and actually repeats.
pub open spec fn is_unique_mode(s: Seq<i64>, v: i64) -> bool {
    freq(s, v) >= 2 && forall|w: i64| w != v ==> #[trigger] freq(s, w) < freq(s, v)
}

/// What `modes` returns: every distinct value tied at the maximal frequency
/// `occ`, in ascending order — or nothing at all when no value repeats, in
/// which case `occ` is reported as zero.
pub open spec fn modes_post(s: Seq<i64>, vals: Seq<i64>, cnt: int, occ: int) -> bool {
    &&& cnt == vals.len()
    &&& strictly_ascending(vals)
    &&& (occ == 0 <==> vals.len() == 0)
    &&& ((forall|v: i64| #[trigger] freq(s, v) <= 1) <==> occ == 0)
    &&& (occ != 0 ==> occ >= 2)
    &&& (occ != 0 ==> (forall|v: i64| #[trigger] freq(s, v) <= occ))
    &&& (occ != 0 ==> (exists|v: i64| #[trigger] freq(s, v) == occ))
    &&& (forall|v: i64| #[trigger] vals.contains(v) ==> freq(s, v) == occ)
    &&& (occ != 0 ==> (forall|v: i64| (#[trigger] freq(s, v)) == occ ==> vals.contains(v)))
}

/// The distinct values attaining the minimal frequency `occ`.
pub open spec fn qualifiers(s: Seq<i64>, occ: int) -> Set<i64> {
    Set::new(|v: i64| freq(s, v) == occ)
}

/// What `antimodes` returns: the first ten of the distinct values tied at
/// the minimal frequency `occ`, in ascending order, with `cnt` reporting how
/// many such values there are in all. The minimal frequency is at least one,
/// so only an empty buffer reports nothing.
pub open spec fn antimodes_post(s: Seq<i64>, vals: Seq<i64>, cnt: int, occ: int) -> bool {
    &&& strictly_ascending(vals)
    &&& (s.len() == 0 ==> vals.len() == 0 && cnt == 0 && occ == 0)
    &&& (s.len() > 0 ==> {
        &&& occ >= 1
        &&& (forall|v: i64| #[trigger] s.contains(v) ==> freq(s, v) >= occ)
        &&& (exists|v: i64| #[trigger] freq(s, v) == occ)
        &&& cnt == qualifiers(s, occ).len()
        &&& vals.len() == (if cnt <= 10 {
            cnt
        } else {
            10int
        })
        &&& (forall|a: int| 0 <= a < vals.len() ==> freq(s, #[trigger] vals[a]) == occ)
        &&& (forall|v: i64, a: int|
            #![trigger freq(s, v), vals[a]]
            0 <= a < vals.len() && freq(s, v) == occ && v < vals[a] ==> vals.contains(v))
    })
}

/// Equal sample multisets make every mode-related statement agree.
pub proof fn lemma_unique_mode_transfer(s1: Seq<i64>, s2: Seq<i64>)
    requires
        s1.to_multiset() == s2.to_multiset(),
    ensures
        forall|v: i64| #[trigger] is_unique_mode(s1, v) ==> is_unique_mode(s2, v),
        forall|v: i64| #[trigger] is_unique_mode(s2, v) ==> is_unique_mode(s1, v),
{
    lemma_multiset_eq_freq_eq(s1, s2);
    assert forall|v: i64| #[trigger] is_unique_mode(s1, v) implies is_unique_mode(s2, v) by {
        assert forall|w: i64| w != v implies #[trigger] freq(s2, w) < freq(s2, v) by {
            assert(freq(s1, w) < freq(s1, v));
        }
    }
    assert forall|v: i64| #[trigger] is_unique_mode(s2, v) implies is_unique_mode(s1, v) by {
        assert forall|w: i64| w != v implies #[trigger] freq(s1, w) < freq(s1, v) by {
            assert(freq(s2, w) < freq(s2, v));
        }
    }
}

pub proof fn lemma_modes_post_transfer(s1: Seq<i64>, s2: Seq<i64>, vals: Seq<i64>, cnt: int, occ: int)
    requires
        s1.to_multiset() == s2.to_multiset(),
        modes_post(s1, vals, cnt, occ),
    ensures
        modes_post(s2, vals, cnt, occ),
{
    lemma_multiset_eq_freq_eq(s1, s2);
    if occ == 0 {
        assert forall|v: i64| #[trigger] freq(s2, v) <= 1 by {
            assert(freq(s1, v) <= 1);
        }
    } else {
        let w = choose|v: i64| #[trigger] freq(s1, v) == occ;
        assert(freq(s2, w) == occ);
        assert(!(forall|v: i64| #[trigger] freq(s2, v) <= 1)) by {
            assert(freq(s2, w) >= 2);
        }
        assert forall|v: i64| #[trigger] freq(s2, v) <= occ by {
            assert(freq(s1, v) <= occ);
        }
        assert forall|v: i64| (#[trigger] freq(s2, v)) == occ implies vals.contains(v) by {
            assert(freq(s1, v) == occ);
        }
    }
    assert forall|v: i64| #[trigger] vals.contains(v) implies freq(s2, v) == occ by {
        assert(freq(s1, v) == occ);
    }
}

pub proof fn lemma_antimodes_post_transfer(
    s1: Seq<i64>,
    s2: Seq<i64>,
    vals: Seq<i64>,
    cnt: int,
    occ: int,
)
    requires
        s1.to_multiset() == s2.to_multiset(),
        antimodes_post(s1, vals, cnt, occ),
    ensures
        antimodes_post(s2, vals, cnt, occ),
{
    broadcast use vstd::seq_lib::group_to_multiset_ensures;

    lemma_multiset_eq_freq_eq(s1, s2);
    lemma_multiset_eq_set_eq(s1, s2);
    assert(s1.to_multiset().len() == s1.len());
    assert(s2.to_multiset().len() == s2.len());
    if s2.len() > 0 {
        assert forall|v: i64| #[trigger] s2.contains(v) implies freq(s2, v) >= occ by {
            assert(s2.to_multiset().count(v) > 0);
            assert(s1.contains(v));
            assert(freq(s1, v) >= occ);
        }
        let w = choose|v: i64| #[trigger] freq(s1, v) == occ;
        assert(freq(s2, w) == occ);
        assert(qualifiers(s2, occ) =~= qualifiers(s1, occ)) by {
            assert forall|v: i64| freq(s2, v) == occ <==> freq(s1, v) == occ by {
                assert(freq(s1, v) == freq(s2, v));
            }
        }
        assert forall|a: int| 0 <= a < vals.len() implies freq(s2, #[trigger] vals[a]) == occ by {
            assert(freq(s1, vals[a]) == occ);
        }
        assert forall|v: i64, a: int|
            #![trigger freq(s2, v), vals[a]]
            0 <= a < vals.len() && freq(s2, v) == occ && v < vals[a] implies vals.contains(v) by {
            assert(freq(s1, v) == occ);
        }
    }
}

/// The greatest run length of a run table.
fn max_run_count(runs: &Vec<(i64, usize)>) -> (m: usize)
    requires
        runs@.len() > 0,
    ensures
        exists|idx: int| 0 <= idx < runs@.len() && (#[trigger] runs@[idx]).1 == m,
        forall|idx: int| 0 <= idx < runs@.len() ==> (#[trigger] runs@[idx]).1 <= m,
{
    let mut m = runs[0].1;
    let mut j: usize = 1;
    while j < runs.len()
        invariant
            1 <= j <= runs@.len(),
            exists|idx: int| 0 <= idx < j && (#[trigger] runs@[idx]).1 == m,
            forall|idx: int| 0 <= idx < j ==> (#[trigger] runs@[idx]).1 <= m,
        decreases runs@.len() - j,
    {
        if runs[j].1 > m {
            m = runs[j].1;
        }
        j += 1;
    }
    m
}

/// The smallest run length of a run table.
fn min_run_count(runs: &Vec<(i64, usize)>) -> (m: usize)
    requires
        runs@.len() > 0,
    ensures
        exists|idx: int| 0 <= idx < runs@.len() && (#[trigger] runs@[idx]).1 == m,
        forall|idx: int| 0 <= idx < runs@.len() ==> (#[trigger] runs@[idx]).1 >= m,
{
    let mut m = runs[0].1;
    let mut j: usize = 1;
    while j < runs.len()
        invariant
            1 <= j <= runs@.len(),
            exists|idx: int| 0 <= idx < j && (#[trigger] runs@[idx]).1 == m,
            forall|idx: int| 0 <= idx < j ==> (#[trigger] runs@[idx]).1 >= m,
        decreases runs@.len() - j,
    {
        if runs[j].1 < m {
            m = runs[j].1;
        }
        j += 1;
    }
    m
}

/// The unique most frequent value of a sorted buffer, if one repeats.
fn mode_on_sorted(data: &Vec<i64>) -> (r: Option<i64>)
    requires
        is_ascending(data@),
    ensures
        match r {
            Some(v) => is_unique_mode(data@, v),
            None => forall|v: i64| !is_unique_mode(data@, v),
        },
{
    let ghost s = data@;
    let runs = runs_of_sorted(data);
    let rn = runs.len();
    if rn == 0 {
        proof {
            broadcast use vstd::seq_lib::group_to_multiset_ensures;

            s.lemma_cardinality_of_empty_set_is_0();
            assert forall|v: i64| !is_unique_mode(s, v) by {
                assert(!s.contains(v));
                assert(freq(s, v) == 0);
            }
        }
        return None;
    }
    let occ = max_run_count(&runs);
    proof {
        broadcast use vstd::seq_lib::group_to_multiset_ensures;

        assert forall|v: i64| #[trigger] freq(s, v) <= occ by {
            if s.contains(v) {
                let idx = choose|idx: int| 0 <= idx < runs@.len() && (#[trigger] runs@[idx]).0 == v;
                assert(freq(s, v) == runs@[idx].1);
            } else {
                assert(freq(s, v) == 0);
            }
        }
    }
    if occ <= 1 {
        proof {
            assert forall|v: i64| !is_unique_mode(s, v) by {
                assert(freq(s, v) <= occ);
            }
        }
        return None;
    }
    let mut attain: usize = 0;
    let mut first: i64 = 0;
    let ghost mut fidx: int = 0;
    let ghost mut sidx: int = 0;
    let mut j: usize = 0;
    while j < rn
        invariant
            j <= rn,
            rn == runs@.len(),
            runs_wf(s, runs@),
            attain <= j,
            attain == 0 ==> forall|idx: int| 0 <= idx < j ==> (#[trigger] runs@[idx]).1 != occ,
            attain >= 1 ==> 0 <= fidx < j && runs@[fidx].1 == occ && runs@[fidx].0 == first,
            attain == 1 ==> forall|idx: int|
                0 <= idx < j && (#[trigger] runs@[idx]).1 == occ ==> idx == fidx,
            attain >= 2 ==> 0 <= fidx < sidx < j && runs@[sidx].1 == occ,
        decreases rn - j,
    {
        if runs[j].1 == occ {
            if attain == 0 {
                first = runs[j].0;
                proof {
                    fidx = j as int;
                }
            } else if attain == 1 {
                proof {
                    sidx = j as int;
                }
            }
            attain += 1;
        }
        j += 1;
    }
    proof {
        let widx = choose|idx: int| 0 <= idx < runs@.len() && (#[trigger] runs@[idx]).1 == occ;
        assert(attain >= 1);
    }
    if attain == 1 {
        proof {
            broadcast use vstd::seq_lib::group_to_multiset_ensures;

            assert(freq(s, first) == occ);
            assert forall|w: i64| w != first implies #[trigger] freq(s, w) < freq(s, first) by {
                if s.contains(w) {
                    let idx = choose|idx: int|
                        0 <= idx < runs@.len() && (#[trigger] runs@[idx]).0 == w;
                    assert(idx != fidx);
                    assert(runs@[idx].1 != occ);
                    assert(freq(s, w) == runs@[idx].1 <= occ);
                } else {
                    assert(freq(s, w) == 0);
                }
            }
        }
        Some(first)
    } else {
        proof {
            assert(attain >= 2);
            let a = runs@[fidx].0;
            let b = runs@[sidx].0;
            assert(a != b);
            assert(freq(s, a) == occ && freq(s, b) == occ);
            assert forall|v: i64| !is_unique_mode(s, v) by {
                if is_unique_mode(s, v) {
                    assert(freq(s, v) <= occ);
                    if v != a {
                        assert(freq(s, a) < freq(s, v));
                    } else {
                        assert(freq(s, b) < freq(s, v));
                    }
                }
            }
        }
        None
    }
}

/// All values tied at the maximal frequency of a sorted buffer.
fn modes_on_sorted(data: &Vec<i64>) -> (r: (Vec<i64>, usize, u32))
    requires
        is_ascending(data@),
        data@.len() <= u32::MAX,
    ensures
        modes_post(data@, r.0@, r.1 as int, r.2 as int),
{
    let ghost s = data@;
    let runs = runs_of_sorted(data);
    let rn = runs.len();
    if rn == 0 {
        proof {
            broadcast use vstd::seq_lib::group_to_multiset_ensures;

            s.lemma_cardinality_of_empty_set_is_0();
            assert forall|v: i64| #[trigger] freq(s, v) <= 1 by {
                assert(!s.contains(v));
                assert(freq(s, v) == 0);
            }
        }
        return (Vec::new(), 0, 0);
    }
    let occ = max_run_count(&runs);
    proof {
        broadcast use vstd::seq_lib::group_to_multiset_ensures;

        assert forall|v: i64| #[trigger] freq(s, v) <= occ by {
            if s.contains(v) {
                let idx = choose|idx: int| 0 <= idx < runs@.len() && (#[trigger] runs@[idx]).0 == v;
                assert(freq(s, v) == runs@[idx].1);
            } else {
                assert(freq(s, v) == 0);
            }
        }
    }
    if occ <= 1 {
        proof {
            assert forall|v: i64| #[trigger] freq(s, v) <= 1 by {
                assert(freq(s, v) <= occ);
            }
        }
        return (Vec::new(), 0, 0);
    }
    let mut vals: Vec<i64> = Vec::new();
    let ghost mut srcs: Seq<int> = Seq::empty();
    let mut j: usize = 0;
    while j < rn
        invariant
            j <= rn,
            rn == runs@.len(),
            runs_wf(s, runs@),
            strictly_ascending(vals@),
            vals@.len() <= j,
            srcs.len() == vals@.len(),
            forall|a: int|
                0 <= a < vals@.len() ==> 0 <= #[trigger] srcs[a] && srcs[a] < j && vals@[a]
                    == runs@[srcs[a]].0 && runs@[srcs[a]].1 == occ,
            forall|idx: int|
                0 <= idx < j && (#[trigger] runs@[idx]).1 == occ ==> vals@.contains(runs@[idx].0),
        decreases rn - j,
    {
        if runs[j].1 == occ {
            let ghost vals0 = vals@;
            vals.push(runs[j].0);
            proof {
                srcs = srcs.push(j as int);
                assert forall|a: int, b: int|
                    #![trigger vals@[a], vals@[b]]
                    0 <= a < b < vals@.len() implies vals@[a] < vals@[b] by {
                    if b < vals@.len() - 1 {
                        assert(vals0[a] < vals0[b]);
                    } else {
                        assert(vals@[a] == runs@[srcs[a]].0);
                        assert(runs@[srcs[a]].0 < runs@[j as int].0);
                    }
                }
                assert forall|idx: int|
                    0 <= idx < j + 1 && (#[trigger] runs@[idx]).1 == occ implies vals@.contains(
                    runs@[idx].0,
                ) by {
                    if idx < j {
                        assert(vals0.contains(runs@[idx].0));
                        let a = choose|a: int| 0 <= a < vals0.len() && vals0[a] == runs@[idx].0;
                        assert(vals@[a] == runs@[idx].0);
                    } else {
                        assert(vals@[vals@.len() - 1] == runs@[idx].0);
                    }
                }
            }
        }
        j += 1;
    }
    let cnt = vals.len();
    proof {
        broadcast use vstd::seq_lib::group_to_multiset_ensures;

        assert forall|v: i64| #[trigger] vals@.contains(v) implies freq(s, v) == occ by {
            let a = choose|a: int| 0 <= a < vals@.len() && vals@[a] == v;
            assert(freq(s, v) == runs@[srcs[a]].1);
        }
        assert forall|v: i64| (#[trigger] freq(s, v)) == occ implies vals@.contains(v) by {
            assert(s.to_multiset().count(v) > 0);
            assert(s.contains(v));
            let idx = choose|idx: int| 0 <= idx < runs@.len() && (#[trigger] runs@[idx]).0 == v;
            assert(runs@[idx].1 == freq(s, v));
        }
        let widx = choose|idx: int| 0 <= idx < runs@.len() && (#[trigger] runs@[idx]).1 == occ;
        assert(freq(s, runs@[widx].0) == occ);
        assert(vals@.contains(runs@[widx].0));
        assert(vals@.len() > 0);
    }
    (vals, cnt, occ as u32)
}

/// The first ten values tied at the minimal frequency of a sorted buffer,
/// with the true number of such values.
fn antimodes_on_sorted(data: &Vec<i64>) -> (r: (Vec<i64>, usize, u32))
    requires
        is_ascending(data@),
        data@.len() <= u32::MAX,
    ensures
        antimodes_post(data@, r.0@, r.1 as int, r.2 as int),
{
    let ghost s = data@;
    let runs = runs_of_sorted(data);
    let rn = runs.len();
    if rn == 0 {
        proof {
            s.lemma_cardinality_of_empty_set_is_0();
        }
        return (Vec::new(), 0, 0);
    }
    let occ = min_run_count(&runs);
    let mut vals: Vec<i64> = Vec::new();
    let mut cnt: usize = 0;
    let ghost mut qseq: Seq<i64> = Seq::empty();
    let ghost mut qsrcs: Seq<int> = Seq::empty();
    let mut j: usize = 0;
    while j < rn
        invariant
            j <= rn,
            rn == runs@.len(),
            runs_wf(s, runs@),
            occ >= 1,
            forall|idx: int| 0 <= idx < runs@.len() ==> (#[trigger] runs@[idx]).1 >= occ,
            cnt == qseq.len(),
            cnt <= j,
            strictly_ascending(qseq),
            qsrcs.len() == qseq.len(),
            forall|a: int|
                0 <= a < qseq.len() ==> 0 <= #[trigger] qsrcs[a] && qsrcs[a] < j && qseq[a]
                    == runs@[qsrcs[a]].0 && runs@[qsrcs[a]].1 == occ,
            forall|idx: int|
                0 <= idx < j && (#[trigger] runs@[idx]).1 == occ ==> qseq.contains(runs@[idx].0),
            vals@ == (if qseq.len() <= 10 {
                qseq
            } else {
                qseq.subrange(0, 10)
            }),
        decreases rn - j,
    {
        if runs[j].1 == occ {
            let ghost qseq0 = qseq;
            proof {
                qseq = qseq.push(runs@[j as int].0);
                qsrcs = qsrcs.push(j as int);
            }
            if vals.len() < 10 {
                vals.push(runs[j].0);
            }
            cnt += 1;
            proof {
                assert forall|a: int, b: int|
                    #![trigger qseq[a], qseq[b]]
                    0 <= a < b < qseq.len() implies qseq[a] < qseq[b] by {
                    if b < qseq.len() - 1 {
                        assert(qseq0[a] < qseq0[b]);
                    } else {
                        assert(qseq[a] == runs@[qsrcs[a]].0);
                        assert(runs@[qsrcs[a]].0 < runs@[j as int].0);
                    }
                }
                assert forall|idx: int|
                    0 <= idx < j + 1 && (#[trigger] runs@[idx]).1 == occ implies qseq.contains(
                    runs@[idx].0,
                ) by {
                    if idx < j {
                        assert(qseq0.contains(runs@[idx].0));
                        let a = choose|a: int| 0 <= a < qseq0.len() && qseq0[a] == runs@[idx].0;
                        assert(qseq[a] == runs@[idx].0);
                    } else {
                        assert(qseq[qseq.len() - 1] == runs@[idx].0);
                    }
                }
                if qseq.len() <= 10 {
                    assert(vals@ =~= qseq);
                } else {
                    assert(vals@ =~= qseq.subrange(0, 10));
                }
            }
        }
        j += 1;
    }
    proof {
        broadcast use
            vstd::set::group_set_axioms,
            vstd::seq_lib::seq_to_set_is_finite,
            vstd::seq_lib::group_to_multiset_ensures;

        assert(distinct_count(s) == rn);
        s.lemma_cardinality_of_empty_set_is_0();
        assert(s.len() > 0);
        // the minimal run length is attained
        let widx = choose|idx: int| 0 <= idx < runs@.len() && (#[trigger] runs@[idx]).1 == occ;
        assert(freq(s, runs@[widx].0) == occ);
        // every present value occurs at least occ times
        assert forall|v: i64| #[trigger] s.contains(v) implies freq(s, v) >= occ by {
            let idx = choose|idx: int| 0 <= idx < runs@.len() && (#[trigger] runs@[idx]).0 == v;
            assert(freq(s, v) == runs@[idx].1);
        }
        // the qualifier count is exact
        assert forall|v: i64| #[trigger] qseq.contains(v) implies freq(s, v) == occ by {
            let a = choose|a: int| 0 <= a < qseq.len() && qseq[a] == v;
            assert(freq(s, v) == runs@[qsrcs[a]].1);
        }
        assert forall|v: i64| (#[trigger] freq(s, v)) == occ implies qseq.contains(v) by {
            assert(s.to_multiset().count(v) > 0);
            assert(s.contains(v));
            let idx = choose|idx: int| 0 <= idx < runs@.len() && (#[trigger] runs@[idx]).0 == v;
            assert(runs@[idx].1 == freq(s, v));
        }
        assert(qseq.no_duplicates()) by {
            assert forall|a: int, b: int|
                0 <= a < qseq.len() && 0 <= b < qseq.len() && a != b implies qseq[a]
                != qseq[b] by {
                if a < b {
                    assert(qseq[a] < qseq[b]);
                } else {
                    assert(qseq[b] < qseq[a]);
                }
            }
        }
        qseq.unique_seq_to_set();
        assert(qualifiers(s, occ as int) =~= qseq.to_set());
        // the returned list is the ascending prefix of the qualifiers
        assert forall|a: int| 0 <= a < vals@.len() implies freq(s, #[trigger] vals@[a]) == occ by {
            assert(vals@[a] == qseq[a]);
            assert(qseq.contains(qseq[a]));
        }
        assert forall|v: i64, a: int|
            #![trigger freq(s, v), vals@[a]]
            0 <= a < vals@.len() && freq(s, v) == occ && v < vals@[a] implies vals@.contains(
            v,
        ) by {
            assert(qseq.contains(v));
            let b = choose|b: int| 0 <= b < qseq.len() && qseq[b] == v;
            assert(vals@[a] == qseq[a]);
            if b < a {
                assert(vals@[b] == qseq[b]);
                assert(vals@.contains(v));
            } else if b > a {
                assert(qseq[a] < qseq[b]);
                assert(false);
            } else {
                assert(false);
            }
        }
    }
    (vals, cnt, occ as u32)
}

impl Unsorted {
    /// Returns the mode of the data: the unique most frequent value, present
    /// only if it occurs at least twice; ties yield no mode.
    pub fn mode(&mut self) -> (r: Option<i64>)
        requires
            old(self).wf(),
        ensures
            match r {
                Some(v) => is_unique_mode(old(self)@, v),
                None => forall|v: i64| !is_unique_mode(old(self)@, v),
            },
            old(self)@.len() > 0 ==> final(self)@ == sorted_of(old(self)@)
                && final(self).sorted_flag(),
            old(self)@.len() == 0 ==> final(self)@ == old(self)@ && final(self).sorted_flag()
                == old(self).sorted_flag(),
            final(self).wf(),
    {
        if self.data.is_empty() {
            proof {
                broadcast use vstd::seq_lib::group_to_multiset_ensures;

                assert forall|v: i64| !is_unique_mode(old(self)@, v) by {
                    assert(!old(self)@.contains(v));
                    assert(freq(old(self)@, v) == 0);
                }
            }
            return None;
        }
        self.sort();
        proof {
            lemma_i64_le_total_ordering();
            old(self)@.lemma_sort_by_ensures(i64_le());
            lemma_unique_mode_transfer(self@, old(self)@);
        }
        mode_on_sorted(&self.data)
    }

    /// Returns the modes of the data: every value tied at the maximal
    /// frequency, in ascending order, with their shared occurrence count.
    pub fn modes(&mut self) -> (r: (Vec<i64>, usize, u32))
        requires
            old(self).wf(),
            old(self)@.len() <= u32::MAX,
        ensures
            modes_post(old(self)@, r.0@, r.1 as int, r.2 as int),
            old(self)@.len() > 0 ==> final(self)@ == sorted_of(old(self)@)
                && final(self).sorted_flag(),
            old(self)@.len() == 0 ==> final(self)@ == old(self)@ && final(self).sorted_flag()
                == old(self).sorted_flag(),
            final(self).wf(),
    {
        if self.data.is_empty() {
            proof {
                broadcast use vstd::seq_lib::group_to_multiset_ensures;

                assert forall|v: i64| #[trigger] freq(old(self)@, v) <= 1 by {
                    assert(!old(self)@.contains(v));
                    assert(freq(old(self)@, v) == 0);
                }
            }
            return (Vec::new(), 0, 0);
        }
        self.sort();
        proof {
            broadcast use vstd::seq_lib::group_to_multiset_ensures;

            lemma_i64_le_total_ordering();
            old(self)@.lemma_sort_by_ensures(i64_le());
            assert(self@.to_multiset().len() == self@.len());
            assert(old(self)@.to_multiset().len() == old(self)@.len());
        }
        let r = modes_on_sorted(&self.data);
        proof {
            lemma_modes_post_transfer(self@, old(self)@, r.0@, r.1 as int, r.2 as int);
        }
        r
    }

    /// Returns the antimodes of the data: the first ten values tied at the
    /// minimal frequency, in ascending order, with the true number of tied
    /// values and their shared occurrence count.
    pub fn antimodes(&mut self) -> (r: (Vec<i64>, usize, u32))
        requires
            old(self).wf(),
            old(self)@.len() <= u32::MAX,
        ensures
            antimodes_post(old(self)@, r.0@, r.1 as int, r.2 as int),
            old(self)@.len() > 0 ==> final(self)@ == sorted_of(old(self)@)
                && final(self).sorted_flag(),
            old(self)@.len() == 0 ==> final(self)@ == old(self)@ && final(self).sorted_flag()
                == old(self).sorted_flag(),
            final(self).wf(),
    {
        if self.data.is_empty() {
            return (Vec::new(), 0, 0);
        }
        self.sort();
        proof {
            broadcast use vstd::seq_lib::group_to_multiset_ensures;

            lemma_i64_le_total_ordering();
            old(self)@.lemma_sort_by_ensures(i64_le());
            assert(self@.to_multiset().len() == self@.len());
            assert(old(self)@.to_multiset().len() == old(self)@.len());
        }
        let r = antimodes_on_sorted(&self.data);
        proof {
            lemma_antimodes_post_transfer(self@, old(self)@, r.0@, r.1 as int, r.2 as int);
        }
        r
    }
}

/// Compute the exact median on a batch of data, scaled by four.
pub fn median(samples: Vec<i64>) -> (r: Option<i128>)
    ensures
        r is None <==> samples@.len() == 0,
        samples@.len() > 0 ==> (r matches Some(m) && m == median_quarters(sorted_of(samples@))),
{
    let mut u = Unsorted::new();
    u.add_all(&samples);
    proof {
        assert(u@ =~= samples@);
    }
    u.median()
}

/// Compute the median absolute deviation on a batch of data, scaled by four.
pub fn mad(samples: Vec<i64>, precalc_median: Option<i128>) -> (r: Option<i128>)
    requires
        precalc_median matches Some(m) ==> 4 * i64::MIN <= m <= 4 * i64::MAX,
    ensures
        r is None <==> samples@.len() == 0,
        samples@.len() > 0 && precalc_median is Some ==> (r matches Some(v) && v == mad_quarters(
            samples@,
            precalc_median->0 as int,
        )),
        samples@.len() > 0 && precalc_median is None ==> (r matches Some(v) && v == mad_quarters(
            sorted_of(samples@),
            median_quarters(sorted_of(samples@)),
        )),
{
    let mut u = Unsorted::new();
    u.add_all(&samples);
    proof {
        assert(u@ =~= samples@);
    }
    u.mad(precalc_median)
}

/// Compute the exact quartiles on a batch of data, scaled by four.
pub fn quartiles(samples: Vec<i64>) -> (r: Option<(i128, i128, i128)>)
    ensures
        r is None <==> samples@.len() <= 2,
        samples@.len() >= 3 ==> (r matches Some(q) && {
            let (q1, q2, q3) = quartiles_quarters(sorted_of(samples@));
            q.0 == q1 && q.1 == q2 && q.2 == q3
        }),
{
    let mut u = Unsorted::new();
    u.add_all(&samples);
    proof {
        assert(u@ =~= samples@);
    }
    u.quartiles()
}

/// Compute the exact mode on a batch of data.
///
/// If the data does not have a unique repeating mode, then `None` is
/// returned.
pub fn mode(samples: Vec<i64>) -> (r: Option<i64>)
    ensures
        match r {
            Some(v) => is_unique_mode(samples@, v),
            None => forall|v: i64| !is_unique_mode(samples@, v),
        },
{
    let mut u = Unsorted::new();
    u.add_all(&samples);
    proof {
        assert(u@ =~= samples@);
    }
    u.mode()
}

/// Compute the modes on a batch of data: all values tied for occurring the
/// most often, with how many they are and how often each occurs.
pub fn modes(samples: Vec<i64>) -> (r: (Vec<i64>, usize, u32))
    requires
        samples@.len() <= u32::MAX,
    ensures
        modes_post(samples@, r.0@, r.1 as int, r.2 as int),
{
    let mut u = Unsorted::new();
    u.add_all(&samples);
    proof {
        assert(u@ =~= samples@);
    }
    u.modes()
}

/// Compute the antimodes on a batch of data: the least frequent values, of
/// which only the first ten are returned, with the true count of tied values
/// and their shared frequency.
pub fn antimodes(samples: Vec<i64>) -> (r: (Vec<i64>, usize, u32))
    requires
        samples@.len() <= u32::MAX,
    ensures
        antimodes_post(samples@, r.0@, r.1 as int, r.2 as int),
{
    let mut u = Unsorted::new();
    u.add_all(&samples);
    proof {
        assert(u@ =~= samples@);
    }
    u.antimodes()
}

impl Commute for Unsorted {
    open spec fn merge_pre(self, other: Self) -> bool {
        true
    }

    open spec fn is_merged(self, other: Self, r: Self) -> bool {
        r@ == self@ + other@ && !r.sorted_flag()
    }

    /// Concatenate the two buffers; the union of the sample multisets is kept
    /// and the order is rebuilt lazily on the next query.
    fn merge(&mut self, other: Self) {
        let mut other = other;
        self.sorted = false;
        self.data.append(&mut other.data);
    }
}

impl Unsorted {
    /// A copy of the buffer in its current order.
    pub fn to_vec(&self) -> (r: Vec<i64>)
        ensures
            r@ == self@,
    {
        let n = self.data.len();
        let mut r: Vec<i64> = Vec::new();
        let mut i: usize = 0;
        while i < n
            invariant
                i <= n,
                n == self@.len(),
                r@ == self@.subrange(0, i as int),
            decreases n - i,
        {
            r.push(self.data[i]);
            proof {
                assert(r@ =~= self@.subrange(0, i + 1));
            }
            i += 1;
        }
        proof {
            assert(self@.subrange(0, n as int) =~= self@);
        }
        r
    }

    /// Rebuild an aggregate from a stored buffer and sort flag, as a decoder
    /// would; the flag may only be set over a buffer that really is sorted.
    pub fn from_parts(data: Vec<i64>, sorted: bool) -> (r: Unsorted)
        requires
            sorted ==> is_ascending(data@),
        ensures
            r@ == data@,
            r.sorted_flag() == sorted,
            r.wf(),
    {
        Unsorted { data, sorted }
    }
}

/// Exchanging the two sides of a merge rearranges the buffer but keeps every
/// derived statistic: the sample multisets of the two concatenations agree,
/// and the sorted order, the value set and every frequency depend on the
/// multiset alone.
pub proof fn lemma_unsorted_merge_commutes(a: Seq<i64>, b: Seq<i64>)
    ensures
        (a + b).to_multiset() == (b + a).to_multiset(),
        sorted_of(a + b) == sorted_of(b + a),
        distinct_count(a + b) == distinct_count(b + a),
        forall|v: i64| #[trigger] freq(a + b, v) == freq(b + a, v),
{
    broadcast use vstd::seq_lib::group_to_multiset_ensures;

    vstd::seq_lib::lemma_multiset_commutative(a, b);
    vstd::seq_lib::lemma_multiset_commutative(b, a);
    assert((a + b).to_multiset() =~= (b + a).to_multiset());
    lemma_i64_le_total_ordering();
    (a + b).lemma_sort_by_ensures(i64_le());
    (b + a).lemma_sort_by_ensures(i64_le());
    lemma_sorted_unique(sorted_of(a + b), sorted_of(b + a), i64_le());
    lemma_multiset_eq_set_eq(a + b, b + a);
}

/// Merging is associative on buffers: concatenation is.
pub proof fn lemma_unsorted_merge_assoc(a: Seq<i64>, b: Seq<i64>, c: Seq<i64>)
    ensures
        (a + b) + c == a + (b + c),
{
    assert((a + b) + c =~= a + (b + c));
}

/// Aggregating two partitions and merging gives every derived statistic the
/// value it has over one aggregate of the whole data: the merged buffer is
/// the concatenation, and sorted order, value set and frequencies are
/// functions of it.
pub proof fn lemma_unsorted_partitioned(u1: Unsorted, u2: Unsorted, whole: Unsorted, r: Unsorted)
    requires
        u1.is_merged(u2, r),
        whole@ == u1@ + u2@,
    ensures
        r@ == whole@,
        sorted_of(r@) == sorted_of(whole@),
        distinct_count(r@) == distinct_count(whole@),
        forall|v: i64| #[trigger] freq(r@, v) == freq(whole@, v),
{
}

/// A buffer without duplicate values has as many distinct values as samples,
/// so its cardinality is its length whatever strategy counts it.
pub proof fn lemma_cardinality_no_duplicates(s: Seq<i64>)
    requires
        s.no_duplicates(),
    ensures
        distinct_count(s) == s.len(),
{
    s.unique_seq_to_set();
}

impl Default for Unsorted {
    /// The identity element for `merge`.
    fn default() -> (r: Unsorted)
        ensures
            r@ == Seq::<i64>::empty(),
            r.sorted_flag(),
            r.wf(),
    {
        let r = Unsorted { data: Vec::new(), sorted: true };
        proof {
            assert(r@ =~= Seq::<i64>::empty());
        }
        r
    }
}

} // verus!
