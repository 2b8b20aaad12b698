//! How far the symbol records behind the record of a procedure have to be
//! read for the procedure's inline-range table.
//!
//! The walk through the records stops behind the procedure. A reader that
//! hands over the records up to the first one that lies behind the procedure
//! and behind every scope that a record before it opens has handed over all
//! that the walk reads: the records that follow change nothing.

use crate::inline_ranges::InlineRange;
use crate::inline_sites::{
    advance, children_walk, collected_ranges, site_walk, skip_past, SymbolData, SymbolRecord, Walk,
};
use vstd::prelude::*;

verus! {

impl SymbolRecord {
    /// The index of the record that closes the scope that this record opens;
    /// zero for a record that opens none.
    pub open spec fn scope_end(self) -> u32 {
        match self.data {
            SymbolData::Procedure { end } => end,
            SymbolData::InlineSite { end, .. } => end,
            SymbolData::Other => 0,
        }
    }
}

/// The greater of two indexes.
pub open spec fn later(first: u32, second: u32) -> u32 {
    if first >= second {
        first
    } else {
        second
    }
}

/// The greatest of `end` and the ends of the scopes that the records open.
pub open spec fn reading_limit(records: Seq<SymbolRecord>, end: u32) -> u32
    decreases records.len(),
{
    if records.len() == 0 {
        end
    } else {
        later(reading_limit(records.drop_last(), end), records.last().scope_end())
    }
}

/// The records reach behind the procedure that the record with index `end`
/// closes and behind every scope that one of them opens.
pub open spec fn reads_through(records: Seq<SymbolRecord>, end: u32) -> bool {
    records.len() > 0 && records.last().index >= reading_limit(records, end)
}

/// The limit after one more record: the greater of the limit so far and the
/// end of the scope that the record opens. A reader starts with the index of
/// the record that closes the procedure and may stop behind the first record
/// whose index is not below the limit.
pub fn extend_limit(limit: u32, record: &SymbolRecord) -> (extended: u32)
    ensures
        extended == later(limit, record.scope_end()),
{
    let end: u32 = match &record.data {
        SymbolData::Procedure { end } => *end,
        SymbolData::InlineSite { end, .. } => *end,
        SymbolData::Other => 0,
    };
    if limit >= end {
        limit
    } else {
        end
    }
}

/// The limit is not below `end` nor below the end of any scope that the
/// records open.
proof fn lemma_limit_bounds(records: Seq<SymbolRecord>, end: u32)
    ensures
        reading_limit(records, end) >= end,
        forall|k: int|
            0 <= k < records.len() ==> reading_limit(records, end) >= (
            #[trigger] records[k]).scope_end(),
    decreases records.len(),
{
    if records.len() > 0 {
        lemma_limit_bounds(records.drop_last(), end);
        assert forall|k: int| 0 <= k < records.len() implies reading_limit(records, end) >= (
        #[trigger] records[k]).scope_end() by {
            if k < records.len() - 1 {
                assert(records.drop_last()[k] == records[k]);
            }
        }
    }
}

/// The records `all` go on from `records`, which reach behind every end up
/// to `limit`, with records that lie behind `limit` too.
spec fn goes_on(records: Seq<SymbolRecord>, all: Seq<SymbolRecord>, limit: u32) -> bool {
    &&& 0 < records.len() <= all.len()
    &&& forall|k: int| 0 <= k < records.len() ==> all[k] == #[trigger] records[k]
    &&& forall|k: int| records.len() - 1 <= k < all.len() ==> (#[trigger] all[k]).index >= limit
    &&& forall|k: int| 0 <= k < records.len() ==> (#[trigger] records[k]).scope_end() <= limit
}

/// Skipping ends within the records that were read, at the same place.
proof fn lemma_skip_agrees(
    records: Seq<SymbolRecord>,
    all: Seq<SymbolRecord>,
    limit: u32,
    pos: int,
    end: u32,
)
    requires
        goes_on(records, all, limit),
        0 <= pos < records.len(),
        end <= limit,
    ensures
        skip_past(all, pos, end) == skip_past(records, pos, end),
        pos < skip_past(records, pos, end) <= records.len(),
    decreases records.len() - pos,
{
    assert(all[pos] == records[pos]);
    if records[pos].index < end {
        assert(pos < records.len() - 1);
        lemma_skip_agrees(records, all, limit, pos + 1, end);
    }
}

/// Two walks came to the same place within the records that were read, or
/// both behind them.
spec fn same_place(
    records: Seq<SymbolRecord>,
    all: Seq<SymbolRecord>,
    read: int,
    whole: int,
) -> bool {
    (read == whole && read < records.len()) || (records.len() <= read <= records.len()
        && records.len() <= whole <= all.len())
}

/// The walks through the two runs of records yield the same and come to the
/// same place.
spec fn same_yield(
    records: Seq<SymbolRecord>,
    all: Seq<SymbolRecord>,
    read: Walk,
    whole: Walk,
) -> bool {
    &&& read.ranges == whole.ranges
    &&& read.covered == whole.covered
    &&& same_place(records, all, read.next, whole.next)
}

/// A walk that starts behind the records that were read yields nothing.
proof fn lemma_nothing_behind(
    records: Seq<SymbolRecord>,
    all: Seq<SymbolRecord>,
    limit: u32,
    read: int,
    whole: int,
    end: u32,
    call_depth: u64,
)
    requires
        goes_on(records, all, limit),
        end <= limit,
        records.len() <= read <= records.len(),
        records.len() <= whole <= all.len(),
    ensures
        same_yield(
            records,
            all,
            children_walk(records, read, end, call_depth),
            children_walk(all, whole, end, call_depth),
        ),
        children_walk(records, read, end, call_depth).ranges == Seq::<InlineRange>::empty(),
        children_walk(records, read, end, call_depth).covered == Set::<int>::empty(),
{
    if whole < all.len() {
        assert(all[whole].index >= limit);
    }
}

/// The walk from a place within the records that were read yields the same
/// on both runs of records.
proof fn lemma_children_agree(
    records: Seq<SymbolRecord>,
    all: Seq<SymbolRecord>,
    limit: u32,
    pos: int,
    end: u32,
    call_depth: u64,
)
    requires
        goes_on(records, all, limit),
        0 <= pos < records.len(),
        end <= limit,
    ensures
        same_yield(
            records,
            all,
            children_walk(records, pos, end, call_depth),
            children_walk(all, pos, end, call_depth),
        ),
        pos < children_walk(records, pos, end, call_depth).next,
    decreases records.len() - pos, 1int,
{
    let n = records.len() as int;
    assert(all[pos] == records[pos]);
    let record = records[pos];
    if record.index >= end {
    } else {
        assert(pos < n - 1);
        match record.data {
            SymbolData::Procedure { end: inner } => {
                assert(record.scope_end() == inner);
                lemma_skip_agrees(records, all, limit, pos + 1, inner);
                let to = skip_past(records, pos + 1, inner);
                assert(advance(records, pos, to) == to);
                assert(advance(all, pos, to) == to);
                lemma_rest_agrees(records, all, limit, to, to, end, call_depth);
            },
            SymbolData::InlineSite { .. } => {
                lemma_site_agrees(records, all, limit, pos, call_depth);
                let read = site_walk(records, pos, call_depth);
                let whole = site_walk(all, pos, call_depth);
                assert(advance(records, pos, read.next) == read.next);
                assert(advance(all, pos, whole.next) == whole.next);
                lemma_rest_agrees(records, all, limit, read.next, whole.next, end, call_depth);
            },
            SymbolData::Other => {
                lemma_rest_agrees(records, all, limit, pos + 1, pos + 1, end, call_depth);
            },
        }
    }
}

/// The walks go on the same from the places that two walks came to.
proof fn lemma_rest_agrees(
    records: Seq<SymbolRecord>,
    all: Seq<SymbolRecord>,
    limit: u32,
    read: int,
    whole: int,
    end: u32,
    call_depth: u64,
)
    requires
        goes_on(records, all, limit),
        end <= limit,
        0 <= read,
        same_place(records, all, read, whole),
    ensures
        same_yield(
            records,
            all,
            children_walk(records, read, end, call_depth),
            children_walk(all, whole, end, call_depth),
        ),
        read <= children_walk(records, read, end, call_depth).next,
    decreases records.len() - read, 2int,
{
    if read < records.len() {
        lemma_children_agree(records, all, limit, read, end, call_depth);
    } else {
        lemma_nothing_behind(records, all, limit, read, whole, end, call_depth);
    }
}

/// The walk through a site within the records that were read yields the same
/// on both runs of records.
proof fn lemma_site_agrees(
    records: Seq<SymbolRecord>,
    all: Seq<SymbolRecord>,
    limit: u32,
    site: int,
    call_depth: u64,
)
    requires
        goes_on(records, all, limit),
        0 <= site < records.len(),
    ensures
        same_yield(
            records,
            all,
            site_walk(records, site, call_depth),
            site_walk(all, site, call_depth),
        ),
        site < site_walk(records, site, call_depth).next,
        site < site_walk(all, site, call_depth).next,
    decreases records.len() - site, 0int,
{
    assert(all[site] == records[site]);
    match records[site].data {
        SymbolData::InlineSite { end, inlinee, lines } => {
            assert(records[site].scope_end() == end);
            let deeper = (call_depth + 1) as u64;
            lemma_rest_agrees(records, all, limit, site + 1, site + 1, end, deeper);
        },
        _ => {},
    }
}

/// Records that reach behind the procedure and behind every scope that one
/// of them opens hold all that the walk reads: whatever records follow them,
/// behind the last of them, the ranges that are found are the same.
pub proof fn lemma_reading_on_changes_nothing(
    records: Seq<SymbolRecord>,
    more: Seq<SymbolRecord>,
    end_symbol_index: u32,
)
    requires
        reads_through(records, end_symbol_index),
        forall|k: int| 0 <= k < more.len() ==> (#[trigger] more[k]).index >= records.last().index,
    ensures
        collected_ranges(records + more, end_symbol_index) == collected_ranges(
            records,
            end_symbol_index,
        ),
{
    let all = records + more;
    let limit = reading_limit(records, end_symbol_index);
    lemma_limit_bounds(records, end_symbol_index);
    assert forall|k: int| records.len() - 1 <= k < all.len() implies (#[trigger] all[k]).index
        >= limit by {
        if k >= records.len() {
            assert(all[k] == more[k - records.len()]);
        }
    }
    assert(goes_on(records, all, limit));
    lemma_children_agree(records, all, limit, 0, end_symbol_index, 0);
}

} // verus!
