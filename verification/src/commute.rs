//! The uniform merge contract shared by all aggregate types.
//!
//! An aggregate summarises a multiset of samples. Merging folds the summary
//! of a second multiset into the first, so that sharded data can be
//! aggregated partition by partition and the partial results combined.

use vstd::prelude::*;

verus! {

/// An aggregate that can absorb another aggregate of the same kind.
///
/// `is_merged(self, other, r)` says that `r` summarises the union of the
/// sample multisets behind `self` and `other`; `merge` realises that relation
/// in place. `merge_pre` states when the combination is defined (for
/// instance, that a sample counter does not overflow).
pub trait Commute: Sized {
    /// When combining `self` with `other` is defined.
    spec fn merge_pre(self, other: Self) -> bool;

    /// Relates `self` and `other` to an aggregate of the union of their
    /// underlying sample multisets.
    spec fn is_merged(self, other: Self, r: Self) -> bool;

    /// Fold `other` into `self`, so that `self` summarises both sample sets.
    fn merge(&mut self, other: Self)
        requires
            old(self).merge_pre(other),
        ensures
            old(self).is_merged(other, *final(self)),
    ;
}

/// `r` is a left-to-right fold of the aggregates in `s` under `is_merged`.
pub open spec fn is_fold_merged<T: Commute>(s: Seq<T>, r: T) -> bool
    decreases s.len(),
{
    if s.len() == 0 {
        false
    } else if s.len() == 1 {
        r == s[0]
    } else {
        exists|m: T|
            is_fold_merged(s.drop_last(), m) && #[trigger] m.is_merged(s.last(), r)
    }
}

/// Every merge performed by a left-to-right fold of `s` is defined.
pub open spec fn fold_mergeable<T: Commute>(s: Seq<T>) -> bool
    decreases s.len(),
{
    if s.len() <= 1 {
        true
    } else {
        fold_mergeable(s.drop_last()) && forall|m: T|
            is_fold_merged(s.drop_last(), m) ==> #[trigger] m.merge_pre(s.last())
    }
}

proof fn lemma_fold_mergeable_prefix<T: Commute>(s: Seq<T>, k: int)
    requires
        fold_mergeable(s),
        0 <= k <= s.len(),
    ensures
        fold_mergeable(s.subrange(0, k)),
    decreases s.len(),
{
    if k == s.len() {
        assert(s.subrange(0, k) =~= s);
    } else {
        assert(s.len() >= 1);
        assert(s.drop_last() =~= s.subrange(0, s.len() - 1));
        if s.len() > 1 {
            lemma_fold_mergeable_prefix(s.drop_last(), k);
        } else {
            assert(k == 0);
        }
        assert(s.drop_last().subrange(0, k) =~= s.subrange(0, k));
    }
}

/// Reduce a sequence of aggregates to the aggregate of all their samples by a
/// left-to-right fold under `merge`.
///
/// No aggregates at all give no result, which lets a caller tell "no
/// partitions" from "one empty partition"; a single aggregate comes back
/// unchanged.
pub fn merge_all<T: Commute>(xs: Vec<T>) -> (r: Option<T>)
    requires
        fold_mergeable(xs@),
    ensures
        r is Some <==> xs@.len() > 0,
        xs@.len() == 1 ==> r == Some(xs@[0]),
        xs@.len() > 0 ==> is_fold_merged(xs@, r->Some_0),
{
    let ghost orig = xs@;
    let mut xs = xs;
    if xs.len() == 0 {
        return None;
    }
    let mut acc = xs.remove(0);
    let mut i: usize = 1;
    proof {
        assert(orig.subrange(0, 1) =~= seq![orig[0]]);
        assert(is_fold_merged(orig.subrange(0, 1), acc));
    }
    while xs.len() > 0
        invariant
            1 <= i <= orig.len(),
            orig.len() <= usize::MAX,
            xs@ == orig.subrange(i as int, orig.len() as int),
            is_fold_merged(orig.subrange(0, i as int), acc),
            fold_mergeable(orig),
        decreases orig.len() - i,
    {
        proof {
            assert(orig.subrange(i as int, orig.len() as int).len() > 0);
            assert(i < orig.len());
        }
        let next = xs.remove(0);
        proof {
            assert(next == orig[i as int]);
            assert(xs@ =~= orig.subrange(i + 1, orig.len() as int));
            lemma_fold_mergeable_prefix(orig, i + 1);
            let p = orig.subrange(0, i + 1);
            assert(p.drop_last() =~= orig.subrange(0, i as int));
            assert(p.last() == orig[i as int]);
            assert(acc.merge_pre(next));
        }
        let ghost prev = acc;
        acc.merge(next);
        proof {
            let p = orig.subrange(0, i + 1);
            assert(p.drop_last() =~= orig.subrange(0, i as int));
            assert(is_fold_merged(p.drop_last(), prev) && prev.is_merged(p.last(), acc));
            assert(is_fold_merged(orig.subrange(0, i + 1), acc));
        }
        i += 1;
    }
    proof {
        assert(orig.subrange(i as int, orig.len() as int).len() == 0);
        assert(orig.subrange(0, i as int) =~= orig);
    }
    Some(acc)
}

} // verus!
