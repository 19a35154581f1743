//! A commutative aggregate tracking the minimum and maximum of a data set,
//! together with the number of samples.

use vstd::prelude::*;

use crate::commute::Commute;
use crate::order::Ordered;

verus! {

/// The lesser of two optional samples, where an absent side poses no
/// constraint. Ties keep the left side, which for a total order is the same
/// value anyway.
pub open spec fn min_opt<T: Ordered>(a: Option<T>, b: Option<T>) -> Option<T> {
    match (a, b) {
        (Option::None, _) => b,
        (_, Option::None) => a,
        (Option::Some(x), Option::Some(y)) => if x.le(y) {
            Some(x)
        } else {
            Some(y)
        },
    }
}

/// The greater of two optional samples, symmetric to `min_opt`.
pub open spec fn max_opt<T: Ordered>(a: Option<T>, b: Option<T>) -> Option<T> {
    match (a, b) {
        (Option::None, _) => b,
        (_, Option::None) => a,
        (Option::Some(x), Option::Some(y)) => if x.le(y) {
            Some(y)
        } else {
            Some(x)
        },
    }
}

/// A commutative data structure for tracking minimum and maximum values.
///
/// This also stores the number of samples.
#[derive(Clone, PartialEq, Eq)]
pub struct MinMax<T> {
    len: u64,
    min: Option<T>,
    max: Option<T>,
}

impl<T: Ordered> MinMax<T> {
    /// The number of samples folded in so far.
    pub closed spec fn spec_len(self) -> u64 {
        self.len
    }

    /// The tracked minimum.
    pub closed spec fn spec_min(self) -> Option<T> {
        self.min
    }

    /// The tracked maximum.
    pub closed spec fn spec_max(self) -> Option<T> {
        self.max
    }

    /// Minimum and maximum exist exactly when there is data, and never cross.
    pub open spec fn wf(self) -> bool {
        &&& (self.spec_min() is Some <==> self.spec_len() > 0)
        &&& (self.spec_max() is Some <==> self.spec_len() > 0)
        &&& (self.spec_len() > 0 ==> self.spec_min()->0.le(self.spec_max()->0))
    }

    /// The empty aggregate, at the specification level.
    pub open spec fn empty_spec() -> Self {
        Self::from_spec(0, None, None)
    }

    /// The state after one more sample, at the specification level.
    pub open spec fn added(self, sample: T) -> Self
        recommends
            self.spec_len() < u64::MAX,
    {
        Self::from_spec(
            (self.spec_len() + 1) as u64,
            min_opt(self.spec_min(), Some(sample)),
            max_opt(self.spec_max(), Some(sample)),
        )
    }

    /// The combination of two aggregates, at the specification level.
    pub open spec fn merged(self, other: Self) -> Self
        recommends
            self.spec_len() + other.spec_len() <= u64::MAX,
    {
        Self::from_spec(
            (self.spec_len() + other.spec_len()) as u64,
            min_opt(self.spec_min(), other.spec_min()),
            max_opt(self.spec_max(), other.spec_max()),
        )
    }

    /// The aggregate with the given fields, at the specification level.
    pub closed spec fn from_spec(len: u64, min: Option<T>, max: Option<T>) -> Self {
        MinMax { len, min, max }
    }

    /// Rebuild a tracker from stored fields, as a decoder would; the fields
    /// must satisfy the tracker's invariant.
    pub fn from_parts(len: u64, min: Option<T>, max: Option<T>) -> (r: MinMax<T>)
        requires
            min is Some <==> len > 0,
            max is Some <==> len > 0,
            len > 0 ==> min->0.le(max->0),
        ensures
            r.spec_len() == len,
            r.spec_min() == min,
            r.spec_max() == max,
            r.wf(),
    {
        MinMax { len, min, max }
    }

    /// Create an empty state where min and max values do not exist.
    pub fn new() -> (r: MinMax<T>)
        ensures
            r == Self::empty_spec(),
            r.wf(),
    {
        MinMax { len: 0, min: None, max: None }
    }

    /// Add a sample to the data.
    pub fn add(&mut self, sample: T)
        requires
            old(self).spec_len() < u64::MAX,
            old(self).wf(),
        ensures
            *final(self) == old(self).added(sample),
            final(self).wf(),
    {
        self.len = self.len + 1;
        let replace_min = match &self.min {
            None => true,
            Some(v) => !v.le_exec(&sample),
        };
        if replace_min {
            proof {
                if self.min is Some {
                    T::le_total(self.min->0, sample);
                }
            }
            self.min = Some(sample);
        }
        let replace_max = match &self.max {
            None => true,
            Some(v) => !sample.le_exec(v),
        };
        if replace_max {
            proof {
                if self.max is Some {
                    T::le_total(sample, self.max->0);
                }
            }
            self.max = Some(sample);
        }
        proof {
            let m = old(self).spec_min();
            let x = old(self).spec_max();
            if m is Some && m->0.le(sample) && sample.le(m->0) {
                T::le_antisymmetric(m->0, sample);
            }
            if x is Some && x->0.le(sample) && sample.le(x->0) {
                T::le_antisymmetric(x->0, sample);
            }
            T::le_reflexive(sample);
            if m is Some && x is Some {
                if m->0.le(sample) && !x->0.le(sample) {
                    T::le_transitive(m->0, sample, sample);
                }
            }
            assert(self.min == min_opt(m, Some(sample)));
            assert(self.max == max_opt(x, Some(sample)));
            if self.min->0.le(self.max->0) {
            } else {
                T::le_total(self.min->0, self.max->0);
                if m is Some {
                    T::le_transitive(self.min->0, m->0, x->0);
                }
            }
        }
    }

    /// Returns the minimum of the data set.
    ///
    /// `None` is returned if and only if the number of samples is `0`.
    pub fn min(&self) -> (r: Option<&T>)
        ensures
            match r {
                Some(v) => self.spec_min() == Some(*v),
                None => self.spec_min() is None,
            },
    {
        self.min.as_ref()
    }

    /// Returns the maximum of the data set.
    ///
    /// `None` is returned if and only if the number of samples is `0`.
    pub fn max(&self) -> (r: Option<&T>)
        ensures
            match r {
                Some(v) => self.spec_max() == Some(*v),
                None => self.spec_max() is None,
            },
    {
        self.max.as_ref()
    }

    /// Returns the number of data points.
    pub fn len(&self) -> (r: usize)
        requires
            self.spec_len() <= usize::MAX,
        ensures
            r == self.spec_len(),
    {
        self.len as usize
    }

    /// Returns true if there are no data points.
    pub fn is_empty(&self) -> (r: bool)
        ensures
            r == (self.spec_len() == 0),
    {
        self.len == 0
    }
}

impl<T: Ordered> Commute for MinMax<T> {
    open spec fn merge_pre(self, other: Self) -> bool {
        self.spec_len() + other.spec_len() <= u64::MAX
    }

    open spec fn is_merged(self, other: Self, r: Self) -> bool {
        r == self.merged(other)
    }

    /// Fold another tracker in: counts add, and an absent extreme on either
    /// side contributes no constraint.
    fn merge(&mut self, other: Self) {
        self.len = self.len + other.len;
        let replace_min = match (&self.min, &other.min) {
            (None, _) => true,
            (_, None) => false,
            (Some(a), Some(b)) => !a.le_exec(b),
        };
        if replace_min {
            self.min = other.min;
        }
        let replace_max = match (&self.max, &other.max) {
            (None, _) => true,
            (_, None) => false,
            (Some(a), Some(b)) => a.le_exec(b),
        };
        if replace_max {
            self.max = other.max;
        }
        proof {
            assert(self.min == min_opt(old(self).spec_min(), other.spec_min()));
            assert(self.max == max_opt(old(self).spec_max(), other.spec_max()));
        }
    }
}

impl<T: Ordered> Default for MinMax<T> {
    /// The identity element for `merge`.
    fn default() -> (r: MinMax<T>)
        ensures
            r == MinMax::<T>::empty_spec(),
            r.wf(),
    {
        MinMax { len: 0, min: None, max: None }
    }
}

/// What the specification-level constructor builds, projected back onto the
/// three accessors, so that callers outside this module can compute with
/// `added` and `merged`.
pub broadcast proof fn lemma_minmax_projections<T: Ordered>(
    len: u64,
    min: Option<T>,
    max: Option<T>,
)
    ensures
        (#[trigger] MinMax::<T>::from_spec(len, min, max)).spec_len() == len,
        MinMax::<T>::from_spec(len, min, max).spec_min() == min,
        MinMax::<T>::from_spec(len, min, max).spec_max() == max,
{
}

/// Merging two well-formed trackers yields a well-formed tracker, so a
/// caller may keep adding samples after any chain of merges.
pub proof fn lemma_minmax_merged_wf<T: Ordered>(x: MinMax<T>, y: MinMax<T>)
    requires
        x.wf(),
        y.wf(),
        x.spec_len() + y.spec_len() <= u64::MAX,
    ensures
        x.merged(y).wf(),
{
    let r = x.merged(y);
    if x.spec_len() > 0 || y.spec_len() > 0 {
        let mn = r.spec_min()->0;
        let mx = r.spec_max()->0;
        if x.spec_min() is Some && y.spec_min() is Some {
            T::le_total(x.spec_min()->0, y.spec_min()->0);
            T::le_total(x.spec_max()->0, y.spec_max()->0);
            if mn == x.spec_min()->0 && mx == x.spec_max()->0 {
                assert(mn.le(mx));
            } else if mn == x.spec_min()->0 && mx == y.spec_max()->0 {
                T::le_transitive(mn, y.spec_min()->0, mx);
            } else if mn == y.spec_min()->0 && mx == x.spec_max()->0 {
                T::le_transitive(mn, x.spec_min()->0, mx);
            } else {
                assert(mn.le(mx));
            }
        }
    }
}

/// The aggregate of a whole sequence of samples, built by repeated `add`.
pub open spec fn minmax_of<T: Ordered>(s: Seq<T>) -> MinMax<T>
    decreases s.len(),
{
    if s.len() == 0 {
        MinMax::<T>::empty_spec()
    } else {
        minmax_of(s.drop_last()).added(s.last())
    }
}

pub proof fn lemma_minmax_of_len<T: Ordered>(s: Seq<T>)
    requires
        s.len() <= u64::MAX,
    ensures
        minmax_of(s).spec_len() == s.len(),
    decreases s.len(),
{
    if s.len() > 0 {
        lemma_minmax_of_len(s.drop_last());
    }
}

proof fn lemma_min_opt_assoc<T: Ordered>(a: Option<T>, b: Option<T>, c: Option<T>)
    ensures
        min_opt(min_opt(a, b), c) == min_opt(a, min_opt(b, c)),
{
    if a is Some && b is Some && c is Some {
        let (x, y, z) = (a->0, b->0, c->0);
        T::le_total(x, y);
        T::le_total(y, z);
        T::le_total(x, z);
        if x.le(y) && y.le(z) {
            T::le_transitive(x, y, z);
        }
        if z.le(y) && y.le(x) {
            T::le_transitive(z, y, x);
            if x.le(z) {
                T::le_antisymmetric(x, z);
            }
        }
    }
}

proof fn lemma_max_opt_assoc<T: Ordered>(a: Option<T>, b: Option<T>, c: Option<T>)
    ensures
        max_opt(max_opt(a, b), c) == max_opt(a, max_opt(b, c)),
{
    if a is Some && b is Some && c is Some {
        let (x, y, z) = (a->0, b->0, c->0);
        T::le_total(x, y);
        T::le_total(y, z);
        T::le_total(x, z);
        if x.le(y) && y.le(z) {
            T::le_transitive(x, y, z);
        }
        if z.le(y) && y.le(x) {
            T::le_transitive(z, y, x);
            if x.le(z) {
                T::le_antisymmetric(x, z);
            }
        }
    }
}

/// Merging min/max trackers is commutative: the combined summary does not
/// depend on which partition is folded into which.
pub proof fn lemma_minmax_merge_commutes<T: Ordered>(x: MinMax<T>, y: MinMax<T>)
    ensures
        x.merged(y) == y.merged(x),
{
    if x.spec_min() is Some && y.spec_min() is Some {
        let (a, b) = (x.spec_min()->0, y.spec_min()->0);
        T::le_total(a, b);
        if a.le(b) && b.le(a) {
            T::le_antisymmetric(a, b);
        }
    }
    if x.spec_max() is Some && y.spec_max() is Some {
        let (a, b) = (x.spec_max()->0, y.spec_max()->0);
        T::le_total(a, b);
        if a.le(b) && b.le(a) {
            T::le_antisymmetric(a, b);
        }
    }
}

/// Merging min/max trackers is associative, as long as the total count fits
/// the counter.
pub proof fn lemma_minmax_merge_assoc<T: Ordered>(x: MinMax<T>, y: MinMax<T>, z: MinMax<T>)
    requires
        x.spec_len() + y.spec_len() + z.spec_len() <= u64::MAX,
    ensures
        x.merged(y).merged(z) == x.merged(y.merged(z)),
{
    lemma_min_opt_assoc(x.spec_min(), y.spec_min(), z.spec_min());
    lemma_max_opt_assoc(x.spec_max(), y.spec_max(), z.spec_max());
}

/// The empty tracker is the identity of `merge`.
pub proof fn lemma_minmax_merge_identity<T: Ordered>(x: MinMax<T>)
    ensures
        x.merged(MinMax::<T>::empty_spec()) == x,
        MinMax::<T>::empty_spec().merged(x) == x,
{
}

/// Aggregating a concatenation is the same as merging the aggregates of the
/// two parts: min/max tracking distributes over partitioned data.
pub proof fn lemma_minmax_concat<T: Ordered>(a: Seq<T>, b: Seq<T>)
    requires
        a.len() + b.len() <= u64::MAX,
    ensures
        minmax_of(a + b) == minmax_of(a).merged(minmax_of(b)),
    decreases b.len(),
{
    lemma_minmax_of_len(a);
    lemma_minmax_of_len(b);
    if b.len() == 0 {
        assert(a + b =~= a);
        lemma_minmax_merge_identity(minmax_of(a));
    } else {
        let b0 = b.drop_last();
        let t = b.last();
        lemma_minmax_of_len(b0);
        assert((a + b).drop_last() =~= a + b0);
        assert((a + b).last() == t);
        lemma_minmax_concat(a, b0);
        lemma_min_opt_assoc(minmax_of(a).spec_min(), minmax_of(b0).spec_min(), Some(t));
        lemma_max_opt_assoc(minmax_of(a).spec_max(), minmax_of(b0).spec_max(), Some(t));
    }
}

} // verus!
