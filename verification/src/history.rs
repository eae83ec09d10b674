//! The time-ordered, bounded pose history of a single directed edge.

use vstd::prelude::*;
use crate::math::{Pose, interp_of};
use crate::types::{StampedIsometry, TfError, TransformType};

verus! {

/// The samples stored for one directed frame pair, oldest first, together
/// with the pair's kind and the retention cap.
pub struct TransformHistory {
    /// The stored samples, strictly increasing in stamp.
    pub history: Vec<StampedIsometry>,
    /// Whether this edge is static or dynamic.
    pub kind: TransformType,
    /// How many samples are kept at most; at least one.
    pub max_history: usize,
}

/// Stamps are strictly increasing across the sequence.
pub open spec fn stamps_increasing(h: Seq<StampedIsometry>) -> bool {
    forall|i: int, j: int| 0 <= i < j < h.len() ==> h[i].stamp < h[j].stamp
}

/// What appending a sample does: rejected when its stamp does not exceed
/// the last stored one; otherwise appended, and the front evicted once the
/// cap would be exceeded.
pub open spec fn spec_append(
    h: Seq<StampedIsometry>,
    cap: int,
    s: StampedIsometry,
) -> Result<Seq<StampedIsometry>, TfError> {
    if h.len() > 0 && s.stamp <= h.last().stamp {
        Err(TfError::OutOfOrder)
    } else if h.len() + 1 > cap {
        Ok(h.push(s).skip(h.len() + 1 - cap))
    } else {
        Ok(h.push(s))
    }
}

/// How many samples have a stamp strictly below `t`.
pub open spec fn count_before(h: Seq<StampedIsometry>, t: i64) -> int
    decreases h.len(),
{
    if h.len() == 0 {
        0
    } else {
        count_before(h.drop_last(), t) + if h.last().stamp < t {
            1int
        } else {
            0int
        }
    }
}

/// On a sorted history, `count_before` is the insertion point: everything
/// before it is below `t`, everything from it on is at or above `t`.
pub proof fn lemma_count_before_sorted(h: Seq<StampedIsometry>, t: i64)
    requires
        stamps_increasing(h),
    ensures
        0 <= count_before(h, t) <= h.len(),
        forall|j: int| 0 <= j < count_before(h, t) ==> h[j].stamp < t,
        forall|j: int| count_before(h, t) <= j < h.len() ==> h[j].stamp >= t,
    decreases h.len(),
{
    if h.len() > 0 {
        assert(stamps_increasing(h.drop_last())) by {
            assert(forall|i: int, j: int|
                0 <= i < j < h.drop_last().len() ==> h.drop_last()[i] == h[i]
                    && h.drop_last()[j] == h[j]);
        }
        lemma_count_before_sorted(h.drop_last(), t);
        let c = count_before(h.drop_last(), t);
        if h.last().stamp < t {
            // everything before the last is below the last, hence below t
            assert(forall|j: int| 0 <= j < h.len() - 1 ==> h[j].stamp < h.last().stamp);
            assert(c == h.len() - 1) by {
                if c < h.len() - 1 {
                    assert(h.drop_last()[c].stamp >= t);
                    assert(h[c].stamp < h.last().stamp);
                }
            }
        } else {
            assert(forall|j: int| 0 <= j < c ==> h[j].stamp == h.drop_last()[j].stamp);
        }
    }
}

/// What interpolation at an instant returns, per the edge kind: static
/// edges answer with the most recent pose; dynamic edges need two samples,
/// answer exact hits from the store, reject instants outside the sampled
/// range, and otherwise interpolate between the bracketing samples.
pub open spec fn spec_interpolate(
    h: Seq<StampedIsometry>,
    kind: TransformType,
    t: i64,
) -> Result<Pose, TfError> {
    match kind {
        TransformType::Static => {
            if h.len() == 0 {
                Err(TfError::CouldNotFindTransform)
            } else {
                Ok(h.last().isometry)
            }
        },
        TransformType::Dynamic => {
            if h.len() < 2 {
                Err(TfError::CouldNotFindTransform)
            } else {
                let i = count_before(h, t);
                if i < h.len() && h[i].stamp == t {
                    Ok(h[i].isometry)
                } else if i == 0 {
                    Err(TfError::AttemptedLookupInPast)
                } else if i >= h.len() {
                    Err(TfError::AttemptedLookUpInFuture)
                } else {
                    Ok(interp_of(h[i - 1].isometry, h[i].isometry, h[i - 1].stamp, h[i].stamp, t))
                }
            }
        },
    }
}

impl TransformHistory {
    /// The history is well formed: a positive cap that the length respects,
    /// and strictly increasing stamps.
    pub open spec fn wf(&self) -> bool {
        &&& self.max_history >= 1
        &&& self.history@.len() <= self.max_history
        &&& stamps_increasing(self.history@)
    }

    /// An empty history of the given kind and cap.
    pub fn new(kind: TransformType, max_history: usize) -> (r: Self)
        requires
            max_history >= 1,
        ensures
            r.wf(),
            r.history@ == Seq::<StampedIsometry>::empty(),
            r.kind == kind,
            r.max_history == max_history,
    {
        TransformHistory { history: Vec::new(), kind, max_history }
    }

    /// Appends a sample: out-of-order stamps are rejected and leave the
    /// history unchanged; otherwise the sample is appended and the oldest
    /// entry evicted once the cap would be exceeded.
    pub fn update(&mut self, stamped_isometry: StampedIsometry) -> (r: Result<(), TfError>)
        requires
            old(self).wf(),
        ensures
            final(self).wf(),
            final(self).kind == old(self).kind,
            final(self).max_history == old(self).max_history,
            match spec_append(
                old(self).history@,
                old(self).max_history as int,
                stamped_isometry,
            ) {
                Ok(hh) => r == Ok::<(), TfError>(()) && final(self).history@ == hh,
                Err(e) => r == Err::<(), TfError>(e) && final(self).history@ == old(
                    self,
                ).history@,
            },
    {
        let n = self.history.len();
        if n > 0 {
            let last = self.history[n - 1];
            if stamped_isometry.stamp <= last.stamp {
                return Err(TfError::OutOfOrder);
            }
        }
        self.history.push(stamped_isometry);
        if self.history.len() > self.max_history {
            self.history.remove(0);
            proof {
                let pushed = old(self).history@.push(stamped_isometry);
                assert(final(self).history@ =~= pushed.skip(1));
            }
        }
        Ok(())
    }

    /// The pose this edge holds for the given instant, as `spec_interpolate`
    /// describes it.
    pub fn interpolate_isometry_at_time(&self, time: i64) -> (r: Result<Pose, TfError>)
        requires
            self.wf(),
        ensures
            r == spec_interpolate(self.history@, self.kind, time),
    {
        match self.kind {
            TransformType::Static => {
                let n = self.history.len();
                if n == 0 {
                    Err(TfError::CouldNotFindTransform)
                } else {
                    Ok(self.history[n - 1].isometry)
                }
            },
            TransformType::Dynamic => {
                let n = self.history.len();
                if n < 2 {
                    return Err(TfError::CouldNotFindTransform);
                }
                proof {
                    lemma_count_before_sorted(self.history@, time);
                }
                let ghost c = count_before(self.history@, time);
                let mut lo: usize = 0;
                let mut hi: usize = n;
                while lo < hi
                    invariant
                        lo <= hi <= n,
                        n == self.history@.len(),
                        stamps_increasing(self.history@),
                        forall|j: int| 0 <= j < lo ==> self.history@[j].stamp < time,
                        forall|j: int| hi <= j < n ==> self.history@[j].stamp >= time,
                    decreases hi - lo,
                {
                    let mid = lo + (hi - lo) / 2;
                    if self.history[mid].stamp < time {
                        lo = mid + 1;
                    } else {
                        hi = mid;
                    }
                }
                proof {
                    // the insertion point is unique, so the search found it
                    if lo < c {
                        assert(self.history@[lo as int].stamp >= time);
                    }
                    if c < lo {
                        assert(self.history@[c].stamp >= time);
                    }
                    assert(lo == c);
                }
                if lo < n && self.history[lo].stamp == time {
                    Ok(self.history[lo].isometry)
                } else if lo == 0 {
                    Err(TfError::AttemptedLookupInPast)
                } else if lo >= n {
                    Err(TfError::AttemptedLookUpInFuture)
                } else {
                    let a = self.history[lo - 1];
                    let b = self.history[lo];
                    Ok(crate::math::interpolate(&a.isometry, &b.isometry, a.stamp, b.stamp, time))
                }
            },
        }
    }
}

} // verus!
