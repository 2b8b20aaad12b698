//! Sets of numbers that consist of finitely many ranges, and the list of the
//! stretches of such a set.

use vstd::prelude::*;

verus! {

/// The numbers from `start` up to, not including, `end`.
pub open spec fn interval(start: int, end: int) -> Set<int> {
    Set::new(|a: int| start <= a < end)
}

/// Ranges as pairs of a first address and the first address after.
pub type Intervals = Seq<(int, int)>;

/// The address `a` lies in one of the intervals.
pub open spec fn in_intervals(intervals: Intervals, a: int) -> bool {
    exists|k: int|
        0 <= k < intervals.len() && (#[trigger] intervals[k]).0 <= a < intervals[k].1
}

/// The intervals are the stretches of `set`: none is empty, they ascend with
/// room between them, and together they hold exactly the members of `set`.
pub open spec fn stretches_of(set: Set<int>, intervals: Intervals) -> bool {
    &&& forall|k: int|
        0 <= k < intervals.len() ==> (#[trigger] intervals[k]).0 < intervals[k].1
    &&& forall|k: int, l: int|
        0 <= k < l < intervals.len() ==> (#[trigger] intervals[k]).1 < (#[trigger] intervals[l]).0
    &&& forall|a: int| set.contains(a) <==> #[trigger] in_intervals(intervals, a)
}

/// The stretches of a set that consists of finitely many ranges.
pub open spec fn stretches(set: Set<int>) -> Intervals {
    choose|intervals: Intervals| stretches_of(set, intervals)
}

/// Two lists of stretches of one set agree up to position `k`.
proof fn lemma_stretches_agree(set: Set<int>, a: Intervals, b: Intervals, k: int)
    requires
        stretches_of(set, a),
        stretches_of(set, b),
        0 <= k <= a.len(),
    ensures
        k <= b.len(),
        forall|i: int| 0 <= i < k ==> a[i] == b[i],
    decreases k,
{
    if k > 0 {
        lemma_stretches_agree(set, a, b, k - 1);
        let n = k - 1;
        let start = a[n].0;
        // The first address of `a[n]` is a member, so some stretch of `b` holds it;
        // that stretch is not one of the first `n`, which `a` and `b` share.
        assert(in_intervals(a, start));
        assert(in_intervals(b, start));
        let m = choose|m: int| 0 <= m < b.len() && (#[trigger] b[m]).0 <= start < b[m].1;
        if m < n {
            assert(a[m] == b[m]);
            assert(a[m].1 < a[n].0);
        }
        assert(n < b.len());
        // In the same way the first address of `b[n]` lies in a stretch of `a`
        // that is not before `a[n]`.
        let other = b[n].0;
        assert(in_intervals(b, other));
        assert(in_intervals(a, other));
        let p = choose|p: int| 0 <= p < a.len() && (#[trigger] a[p]).0 <= other < a[p].1;
        if p < n {
            assert(a[p] == b[p]);
            assert(b[p].1 < b[n].0);
        }
        if m > n {
            assert(b[n].1 < b[m].0);
        }
        if p > n {
            assert(a[n].1 < a[p].0);
        }
        assert(a[n].0 == b[n].0);
        // Both stretches end at the first address from there on that is no member.
        assert forall|x: int| a[n].0 <= x < b[n].1 implies set.contains(x) by {
            assert(in_intervals(b, x));
        }
        assert forall|x: int| b[n].0 <= x < a[n].1 implies set.contains(x) by {
            assert(in_intervals(a, x));
        }
        lemma_stretch_end(set, a, n, b[n].1);
        lemma_stretch_end(set, b, n, a[n].1);
        assert(a[n].1 == b[n].1);
    }
}

/// The address `end` is not inside the stretch at `n` unless it is a member:
/// a stretch of another list that starts where this one starts and runs on
/// to `end` shows that this one does not stop before `end`.
proof fn lemma_stretch_end(set: Set<int>, a: Intervals, n: int, end: int)
    requires
        stretches_of(set, a),
        0 <= n < a.len(),
        a[n].0 < end,
        forall|x: int| a[n].0 <= x < end ==> set.contains(x),
    ensures
        end <= a[n].1,
{
    if a[n].1 < end {
        let x = a[n].1;
        assert(set.contains(x));
        assert(in_intervals(a, x));
        let q = choose|q: int| 0 <= q < a.len() && (#[trigger] a[q]).0 <= x < a[q].1;
        if q < n {
            assert(a[q].1 < a[n].0);
        } else if q > n {
            assert(a[n].1 < a[q].0);
        }
    }
}

/// A set has at most one list of stretches.
pub proof fn lemma_stretches_unique(set: Set<int>, a: Intervals, b: Intervals)
    requires
        stretches_of(set, a),
        stretches_of(set, b),
    ensures
        a == b,
{
    lemma_stretches_agree(set, a, b, a.len() as int);
    lemma_stretches_agree(set, b, a, b.len() as int);
    assert(a =~= b);
}

} // verus!
