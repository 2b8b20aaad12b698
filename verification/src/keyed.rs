//! Tables of records that are ordered by a numeric key: a stable sort and the
//! search for the last record at or below a bound.

use vstd::prelude::*;

verus! {

/// A record that a table is ordered by.
pub trait Keyed: Sized {
    /// The number by which tables of such records are ordered.
    spec fn key(&self) -> int;

    /// Computes [`Keyed::key`].
    fn sort_key(&self) -> (k: u128)
        ensures
            k as int == self.key(),
    ;
}

/// The keys never decrease along the table.
pub open spec fn is_sorted<T: Keyed>(table: Seq<T>) -> bool {
    forall|i: int, j: int| 0 <= i <= j < table.len() ==> table[i].key() <= table[j].key()
}

/// The record at position `a` has to stand before the one at position `b`
/// once the table is sorted: its key is smaller, or the keys are equal and it
/// stood first.
pub open spec fn precedes<T: Keyed>(table: Seq<T>, a: int, b: int) -> bool {
    table[a].key() < table[b].key() || (table[a].key() == table[b].key() && a < b)
}

/// The position `r` occurs in `order`.
pub open spec fn lists(order: Seq<int>, r: int) -> bool {
    exists|i: int| 0 <= i < order.len() && #[trigger] order[i] == r
}

/// `order` lists the positions `lo..hi` of `input`, each once, so that every
/// position precedes the ones listed after it, and `output` holds the records
/// in that order.
pub open spec fn arranges<T: Keyed>(
    input: Seq<T>,
    lo: int,
    hi: int,
    order: Seq<int>,
    output: Seq<T>,
) -> bool {
    &&& order.len() == hi - lo
    &&& output.len() == hi - lo
    &&& forall|i: int|
        0 <= i < order.len() ==> lo <= #[trigger] order[i] < hi && output[i] == input[order[i]]
    &&& forall|i: int, j: int|
        #![trigger order[i], order[j]]
        0 <= i < j < order.len() ==> precedes(input, order[i], order[j])
    &&& forall|r: int| lo <= r < hi ==> #[trigger] lists(order, r)
}

/// `output` is `input` sorted by key, with records of equal keys left in the
/// order they had.
pub open spec fn is_stable_sort<T: Keyed>(input: Seq<T>, output: Seq<T>) -> bool {
    exists|order: Seq<int>| arranges(input, 0, input.len() as int, order, output)
}

/// `i` is the last position of the table whose key is at most `bound`.
pub open spec fn is_floor<T: Keyed>(table: Seq<T>, bound: int, i: int) -> bool {
    &&& 0 <= i < table.len()
    &&& table[i].key() <= bound
    &&& forall|j: int| i < j < table.len() ==> table[j].key() > bound
}

/// The last position at or after `lo` whose key is at most `bound`, if there is one.
pub open spec fn floor_from<T: Keyed>(table: Seq<T>, lo: int, bound: int) -> Option<int> {
    if exists|i: int| lo <= i && is_floor(table, bound, i) {
        Some(choose|i: int| lo <= i && is_floor(table, bound, i))
    } else {
        None
    }
}

/// A table has at most one floor for a bound.
pub proof fn lemma_floor_unique<T: Keyed>(table: Seq<T>, bound: int, i: int, j: int)
    requires
        is_floor(table, bound, i),
        is_floor(table, bound, j),
    ensures
        i == j,
{
}

/// A stable sort is sorted.
pub proof fn lemma_stable_sort_is_sorted<T: Keyed>(input: Seq<T>, output: Seq<T>)
    requires
        is_stable_sort(input, output),
    ensures
        is_sorted(output),
{
    let order = choose|order: Seq<int>| arranges(input, 0, input.len() as int, order, output);
    assert forall|i: int, j: int| 0 <= i <= j < output.len() implies output[i].key()
        <= output[j].key() by {
        if i < j {
            assert(precedes(input, order[i], order[j]));
        }
    }
}

/// A sorted table is its own stable sort.
pub proof fn lemma_sorted_table_stays<T: Keyed>(table: Seq<T>)
    requires
        is_sorted(table),
    ensures
        is_stable_sort(table, table),
{
    let order = Seq::new(table.len(), |i: int| i);
    assert forall|r: int| 0 <= r < table.len() implies #[trigger] lists(order, r) by {
        assert(order[r] == r);
    }
    assert(arranges(table, 0, table.len() as int, order, table));
}

/// Two arrangements of one table agree up to position `k`.
proof fn lemma_arrangements_agree<T: Keyed>(input: Seq<T>, a: Seq<int>, b: Seq<int>, k: int)
    requires
        arranges(input, 0, input.len() as int, a, Seq::new(input.len(), |i: int| input[a[i]])),
        arranges(input, 0, input.len() as int, b, Seq::new(input.len(), |i: int| input[b[i]])),
        0 <= k <= input.len(),
    ensures
        forall|i: int| 0 <= i < k ==> a[i] == b[i],
    decreases k,
{
    if k > 0 {
        lemma_arrangements_agree(input, a, b, k - 1);
        let n = k - 1;
        let x = a[n];
        let y = b[n];
        if x != y {
            // Each of the two positions is listed by the other order, and not
            // before `n`, where the orders agree; so each precedes the other.
            assert(lists(b, x));
            let j = choose|j: int| 0 <= j < b.len() && #[trigger] b[j] == x;
            if j < n {
                assert(a[j] == b[j]);
                assert(precedes(input, a[j], a[n]));
            }
            assert(precedes(input, b[n], b[j]));
            assert(lists(a, y));
            let i = choose|i: int| 0 <= i < a.len() && #[trigger] a[i] == y;
            if i < n {
                assert(a[i] == b[i]);
                assert(precedes(input, b[i], b[n]));
            }
            assert(precedes(input, a[n], a[i]));
        }
    }
}

/// A table has one stable sort only.
pub proof fn lemma_stable_sort_unique<T: Keyed>(input: Seq<T>, first: Seq<T>, second: Seq<T>)
    requires
        is_stable_sort(input, first),
        is_stable_sort(input, second),
    ensures
        first == second,
{
    let n = input.len() as int;
    let a = choose|order: Seq<int>| arranges(input, 0, n, order, first);
    let b = choose|order: Seq<int>| arranges(input, 0, n, order, second);
    assert(first =~= Seq::new(input.len(), |i: int| input[a[i]]));
    assert(second =~= Seq::new(input.len(), |i: int| input[b[i]]));
    lemma_arrangements_agree(input, a, b, n);
    assert(first =~= second);
}

/// Searches a sorted table, from position `lo` on, for the last record whose
/// key is at most `bound`.
pub(crate) fn find_floor<T: Keyed>(table: &Vec<T>, lo: usize, bound: u128) -> (found: Option<usize>)
    requires
        is_sorted(table@),
        lo <= table.len(),
    ensures
        match found {
            Some(i) => floor_from(table@, lo as int, bound as int) == Some(i as int),
            None => floor_from(table@, lo as int, bound as int).is_none(),
        },
        found matches Some(i) ==> lo <= i < table.len() && is_floor(table@, bound as int, i as int),
        found.is_none() ==> forall|j: int| lo <= j < table.len() ==> table[j].key() > bound,
{
    let mut low: usize = lo;
    let mut high: usize = table.len();
    while low < high
        invariant
            lo <= low <= high <= table.len(),
            is_sorted(table@),
            forall|j: int| lo <= j < low ==> table[j].key() <= bound,
            forall|j: int| high <= j < table.len() ==> table[j].key() > bound,
        decreases high - low,
    {
        let mid: usize = low + (high - low) / 2;
        if table[mid].sort_key() <= bound {
            low = mid + 1;
        } else {
            high = mid;
        }
    }
    if low == lo {
        assert forall|i: int| !(lo <= i && is_floor(table@, bound as int, i)) by {}
        None
    } else {
        let i: usize = low - 1;
        assert(is_floor(table@, bound as int, i as int));
        proof {
            let c = choose|c: int| lo <= c && is_floor(table@, bound as int, c);
            lemma_floor_unique(table@, bound as int, c, i as int);
        }
        Some(i)
    }
}

/// Merges two arranged neighbouring stretches of `table` into one.
fn merge<T: Keyed + Copy>(
    table: &Vec<T>,
    left: Vec<T>,
    right: Vec<T>,
    Ghost(lo): Ghost<int>,
    Ghost(mid): Ghost<int>,
    Ghost(hi): Ghost<int>,
    Ghost(left_order): Ghost<Seq<int>>,
    Ghost(right_order): Ghost<Seq<int>>,
) -> (merged: (Vec<T>, Ghost<Seq<int>>))
    requires
        0 <= lo <= mid <= hi <= table.len(),
        arranges(table@, lo, mid, left_order, left@),
        arranges(table@, mid, hi, right_order, right@),
    ensures
        arranges(table@, lo, hi, merged.1@, merged.0@),
{
    let mut out: Vec<T> = Vec::new();
    let ghost mut order: Seq<int> = Seq::empty();
    let ghost mut left_at: Seq<int> = Seq::empty();
    let ghost mut right_at: Seq<int> = Seq::empty();
    let mut i: usize = 0;
    let mut j: usize = 0;
    while i < left.len() || j < right.len()
        invariant
            0 <= lo <= mid <= hi <= table.len(),
            arranges(table@, lo, mid, left_order, left@),
            arranges(table@, mid, hi, right_order, right@),
            i <= left.len(),
            j <= right.len(),
            out.len() == i + j,
            order.len() == i + j,
            left_at.len() == i,
            right_at.len() == j,
            forall|t: int|
                0 <= t < order.len() ==> lo <= #[trigger] order[t] < hi && out[t]
                    == table[order[t]],
            forall|s: int, t: int|
                #![trigger order[s], order[t]]
                0 <= s < t < order.len() ==> precedes(table@, order[s], order[t]),
            forall|t: int|
                0 <= t < order.len() && i < left.len() ==> precedes(
                    table@,
                    #[trigger] order[t],
                    left_order[i as int],
                ),
            forall|t: int|
                0 <= t < order.len() && j < right.len() ==> precedes(
                    table@,
                    #[trigger] order[t],
                    right_order[j as int],
                ),
            forall|a: int|
                0 <= a < i ==> 0 <= #[trigger] left_at[a] < order.len() && order[left_at[a]]
                    == left_order[a],
            forall|b: int|
                0 <= b < j ==> 0 <= #[trigger] right_at[b] < order.len() && order[right_at[b]]
                    == right_order[b],
        decreases left.len() - i + right.len() - j,
    {
        let take_left: bool = if i >= left.len() {
            false
        } else if j >= right.len() {
            true
        } else {
            left[i].sort_key() <= right[j].sort_key()
        };
        if take_left {
            let record: T = left[i];
            proof {
                let next = left_order[i as int];
                assert(left@[i as int] == table@[next]);
                assert forall|t: int| 0 <= t < order.len() && i + 1 < left.len() implies precedes(
                    table@,
                    #[trigger] order[t],
                    left_order[i + 1],
                ) by {
                    assert(precedes(table@, order[t], left_order[i as int]));
                    assert(precedes(table@, left_order[i as int], left_order[i + 1]));
                }
                if i + 1 < left.len() {
                    assert(precedes(table@, left_order[i as int], left_order[i + 1]));
                }
                if j < right.len() {
                    assert(right@[j as int] == table@[right_order[j as int]]);
                    assert(next < mid <= right_order[j as int]);
                }
                left_at = left_at.push(order.len() as int);
                order = order.push(next);
            }
            out.push(record);
            i = i + 1;
        } else {
            let record: T = right[j];
            proof {
                let next = right_order[j as int];
                assert(right@[j as int] == table@[next]);
                assert forall|t: int| 0 <= t < order.len() && j + 1 < right.len() implies precedes(
                    table@,
                    #[trigger] order[t],
                    right_order[j + 1],
                ) by {
                    assert(precedes(table@, order[t], right_order[j as int]));
                    assert(precedes(table@, right_order[j as int], right_order[j + 1]));
                }
                if j + 1 < right.len() {
                    assert(precedes(table@, right_order[j as int], right_order[j + 1]));
                }
                if i < left.len() {
                    assert(left@[i as int] == table@[left_order[i as int]]);
                }
                right_at = right_at.push(order.len() as int);
                order = order.push(next);
            }
            out.push(record);
            j = j + 1;
        }
    }
    proof {
        assert forall|r: int| lo <= r < hi implies #[trigger] lists(order, r) by {
            if r < mid {
                assert(lists(left_order, r));
                let a = choose|a: int| 0 <= a < left_order.len() && #[trigger] left_order[a] == r;
                assert(order[left_at[a]] == r);
            } else {
                assert(lists(right_order, r));
                let b = choose|b: int| 0 <= b < right_order.len() && #[trigger] right_order[b] == r;
                assert(order[right_at[b]] == r);
            }
        }
    }
    (out, Ghost(order))
}

/// Arranges the stretch `lo..hi` of `table`.
fn sort_range<T: Keyed + Copy>(table: &Vec<T>, lo: usize, hi: usize) -> (sorted: (
    Vec<T>,
    Ghost<Seq<int>>,
))
    requires
        lo <= hi <= table.len(),
    ensures
        arranges(table@, lo as int, hi as int, sorted.1@, sorted.0@),
    decreases hi - lo,
{
    if hi - lo == 0 {
        (Vec::new(), Ghost(Seq::empty()))
    } else if hi - lo == 1 {
        let mut out: Vec<T> = Vec::new();
        out.push(table[lo]);
        let ghost order: Seq<int> = seq![lo as int];
        proof {
            assert forall|r: int| lo <= r < hi implies #[trigger] lists(order, r) by {
                assert(order[0] == r);
            }
        }
        (out, Ghost(order))
    } else {
        let mid: usize = lo + (hi - lo) / 2;
        let (left, Ghost(left_order)) = sort_range(table, lo, mid);
        let (right, Ghost(right_order)) = sort_range(table, mid, hi);
        merge(
            table,
            left,
            right,
            Ghost(lo as int),
            Ghost(mid as int),
            Ghost(hi as int),
            Ghost(left_order),
            Ghost(right_order),
        )
    }
}

/// Sorts a table by key. Records of equal keys keep the order they had.
pub fn stable_sort<T: Keyed + Copy>(table: &Vec<T>) -> (sorted: Vec<T>)
    ensures
        is_stable_sort(table@, sorted@),
        is_sorted(sorted@),
{
    let (sorted, Ghost(order)) = sort_range(table, 0, table.len());
    proof {
        assert(arranges(table@, 0, table@.len() as int, order, sorted@));
        lemma_stable_sort_is_sorted(table@, sorted@);
    }
    sorted
}

} // verus!
