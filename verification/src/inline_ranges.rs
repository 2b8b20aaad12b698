//! The inline-range table of a procedure: the ranges of addresses whose code
//! was inlined, each with the depth of its call, sorted by call depth and
//! start address; and the search of the table for the chain of inlined calls
//! at an address.

use crate::inline_sites::{collected_ranges, compute_procedure_inline_ranges, SymbolRecord};
use crate::keyed::{
    find_floor, floor_from, is_floor, is_sorted, is_stable_sort, lemma_floor_unique, Keyed,
};
use vstd::prelude::*;

verus! {

/// The number of addresses: every address is below it.
pub const ADDRESS_SPACE: u64 = 0x1_0000_0000;

/// A range of addresses whose code was inlined from one function.
#[derive(Clone, Copy, Debug, PartialEq, Eq)]
pub struct InlineRange {
    /// The first address of the range.
    pub start_rva: u32,
    /// The first address after the range.
    pub end_rva: u64,
    /// The number of inline sites around the site of this range.
    pub call_depth: u64,
    /// The id of the inlined function.
    pub inlinee: u32,
    /// The source file, as an index into the module's files.
    pub file_index: Option<u32>,
    /// The line number. A range that only fills a gap has none.
    pub line_start: Option<u32>,
}

impl InlineRange {
    /// Whether the range holds the address.
    pub open spec fn holds(self, probe: u32) -> bool {
        self.start_rva <= probe && (probe as int) < self.end_rva
    }

    /// Whether the number is an address that the range holds.
    pub open spec fn covers(self, address: int) -> bool {
        self.start_rva <= address < self.end_rva && address < ADDRESS_SPACE
    }
}

/// A range of the given call depth holds the address.
pub open spec fn covered_at(ranges: Seq<InlineRange>, call_depth: int, address: int) -> bool {
    exists|k: int|
        0 <= k < ranges.len() && (#[trigger] ranges[k]).call_depth == call_depth
            && ranges[k].covers(address)
}

/// Every address that a range of a call depth above `base` holds, a range of
/// the call depth below that one holds too.
pub open spec fn is_chained_above(ranges: Seq<InlineRange>, base: int) -> bool {
    forall|k: int, address: int|
        0 <= k < ranges.len() && ranges[k].call_depth > base && #[trigger] ranges[k].covers(address)
            ==> covered_at(ranges, ranges[k].call_depth - 1, address)
}

/// Every address that a range of an inlined call holds, a range of the call
/// around it holds too: from a range that holds an address there is a range
/// for every call up to the procedure.
pub open spec fn is_chained(ranges: Seq<InlineRange>) -> bool {
    is_chained_above(ranges, 0)
}

/// The key that orders ranges by call depth first and by start address second.
pub open spec fn depth_key(call_depth: u64, start_rva: u32) -> int {
    call_depth as int * 0x1_0000_0000 + start_rva as int
}

impl Keyed for InlineRange {
    open spec fn key(&self) -> int {
        depth_key(self.call_depth, self.start_rva)
    }

    fn sort_key(&self) -> (k: u128) {
        (self.call_depth as u128) * 0x1_0000_0000u128 + (self.start_rva as u128)
    }
}

/// The position of the range that holds the address at the given call depth,
/// searched from position `lo` on: the last range that does not come after
/// the address at that depth, if it is of that depth and holds the address.
pub open spec fn inline_match(
    ranges: Seq<InlineRange>,
    lo: int,
    call_depth: int,
    probe: u32,
) -> Option<int> {
    match floor_from(ranges, lo, call_depth * 0x1_0000_0000 + probe) {
        Some(i) => if ranges[i].call_depth == call_depth && ranges[i].holds(probe) {
            Some(i)
        } else {
            None
        },
        None => None,
    }
}

/// The positions of the ranges that hold the address at the call depths
/// `call_depth`, `call_depth + 1` and so on, up to the first depth at which
/// no range holds it. Each depth is searched after the range found before.
pub open spec fn inline_chain(
    ranges: Seq<InlineRange>,
    lo: int,
    call_depth: int,
    probe: u32,
) -> Seq<int>
    decreases ranges.len() - lo,
{
    match inline_match(ranges, lo, call_depth, probe) {
        Some(i) => if lo <= i < ranges.len() {
            seq![i] + inline_chain(ranges, i + 1, call_depth + 1, probe)
        } else {
            Seq::empty()
        },
        None => Seq::empty(),
    }
}

/// The ranges of one call depth lie apart from each other, and none is empty.
pub open spec fn is_separate(ranges: Seq<InlineRange>) -> bool {
    &&& forall|k: int|
        0 <= k < ranges.len() ==> (#[trigger] ranges[k]).start_rva < ranges[k].end_rva
    &&& forall|k: int, l: int|
        0 <= k < l < ranges.len() && (#[trigger] ranges[k]).call_depth == (
        #[trigger] ranges[l]).call_depth ==> ranges[k].end_rva <= ranges[l].start_rva
}

/// In a sorted table whose ranges lie apart, the search finds the range of a
/// call depth that holds the address, whichever it is.
pub proof fn lemma_match_finds_the_range(ranges: Seq<InlineRange>, k: int, probe: u32)
    requires
        is_sorted(ranges),
        is_separate(ranges),
        0 <= k < ranges.len(),
        ranges[k].holds(probe),
    ensures
        inline_match(ranges, 0, ranges[k].call_depth as int, probe) == Some(k),
{
    let call_depth = ranges[k].call_depth as int;
    let bound = call_depth * 0x1_0000_0000 + probe;
    assert forall|j: int| k < j < ranges.len() implies (#[trigger] ranges[j]).key() > bound by {
        assert(ranges[k].key() <= ranges[j].key());
        if ranges[j].call_depth == ranges[k].call_depth {
            assert(ranges[k].end_rva <= ranges[j].start_rva);
        }
    }
    assert(0 <= k && is_floor(ranges, bound, k));
    let c = choose|c: int| 0 <= c && is_floor(ranges, bound, c);
    lemma_floor_unique(ranges, bound, c, k);
}

/// In a sorted table, the search for the next call depth finds the same
/// whether it starts behind the range found last or at the start of the table.
pub proof fn lemma_search_behind_the_match(
    ranges: Seq<InlineRange>,
    lo: int,
    call_depth: int,
    probe: u32,
)
    requires
        is_sorted(ranges),
        0 <= lo,
        0 <= call_depth,
        inline_match(ranges, lo, call_depth, probe).is_some(),
    ensures
        inline_match(
            ranges,
            inline_match(ranges, lo, call_depth, probe).unwrap() + 1,
            call_depth + 1,
            probe,
        ) == inline_match(ranges, 0, call_depth + 1, probe),
{
    let i = inline_match(ranges, lo, call_depth, probe).unwrap();
    let bound = (call_depth + 1) * 0x1_0000_0000 + probe;
    assert(is_floor(ranges, call_depth * 0x1_0000_0000 + probe, i));
    if exists|f: int| 0 <= f && is_floor(ranges, bound, f) {
        let f = choose|f: int| 0 <= f && is_floor(ranges, bound, f);
        if f < i {
            assert(ranges[i].key() > bound);
        }
        if f > i {
            assert(i + 1 <= f && is_floor(ranges, bound, f));
            let c = choose|c: int| i + 1 <= c && is_floor(ranges, bound, c);
            lemma_floor_unique(ranges, bound, c, f);
        } else {
            assert forall|c: int| !(i + 1 <= c && is_floor(ranges, bound, c)) by {
                if i + 1 <= c && is_floor(ranges, bound, c) {
                    lemma_floor_unique(ranges, bound, c, f);
                }
            }
        }
    } else {
        assert forall|c: int| !(i + 1 <= c && is_floor(ranges, bound, c)) by {}
    }
}

/// In a chained table, a range that holds an address has a range around it
/// at every call depth below its own.
pub proof fn lemma_every_level_holds(ranges: Seq<InlineRange>, k: int, probe: u32, level: int)
    requires
        is_chained(ranges),
        0 <= k < ranges.len(),
        ranges[k].holds(probe),
        0 <= level <= ranges[k].call_depth,
    ensures
        covered_at(ranges, level, probe as int),
    decreases ranges[k].call_depth - level,
{
    assert(ranges[k].covers(probe as int));
    if level < ranges[k].call_depth {
        assert(covered_at(ranges, ranges[k].call_depth - 1, probe as int));
        let j = choose|j: int|
            0 <= j < ranges.len() && (#[trigger] ranges[j]).call_depth == ranges[k].call_depth - 1
                && ranges[j].covers(probe as int);
        lemma_every_level_holds(ranges, j, probe, level);
    }
}

/// The chain that is found from a call depth on, in a sorted and chained
/// table whose ranges lie apart, reaches the call depth `deepest` where a
/// range of every call depth up to that one holds the address.
proof fn lemma_chain_goes_on(
    ranges: Seq<InlineRange>,
    lo: int,
    call_depth: int,
    deepest: int,
    probe: u32,
)
    requires
        is_sorted(ranges),
        is_separate(ranges),
        0 <= lo,
        0 <= call_depth <= deepest,
        inline_match(ranges, lo, call_depth, probe) == inline_match(ranges, 0, call_depth, probe),
        forall|level: int| 0 <= level <= deepest ==> covered_at(ranges, level, probe as int),
    ensures
        inline_chain(ranges, lo, call_depth, probe).len() > deepest - call_depth,
    decreases deepest - call_depth,
{
    assert(covered_at(ranges, call_depth, probe as int));
    let k = choose|k: int|
        0 <= k < ranges.len() && (#[trigger] ranges[k]).call_depth == call_depth
            && ranges[k].covers(probe as int);
    lemma_match_finds_the_range(ranges, k, probe);
    assert(is_floor(ranges, call_depth * 0x1_0000_0000 + probe, k));
    if call_depth < deepest {
        lemma_search_behind_the_match(ranges, lo, call_depth, probe);
        lemma_chain_goes_on(ranges, k + 1, call_depth + 1, deepest, probe);
    }
}

/// In a sorted and chained table whose ranges lie apart, the chain that is
/// found for an address has a range for every inlined call around the
/// address: it is longer than the call depth of any range that holds it.
pub proof fn lemma_chain_reaches_every_level(ranges: Seq<InlineRange>, k: int, probe: u32)
    requires
        is_sorted(ranges),
        is_separate(ranges),
        is_chained(ranges),
        0 <= k < ranges.len(),
        ranges[k].holds(probe),
    ensures
        inline_chain(ranges, 0, 0, probe).len() > ranges[k].call_depth,
{
    let deepest = ranges[k].call_depth as int;
    assert forall|level: int| 0 <= level <= deepest implies covered_at(
        ranges,
        level,
        probe as int,
    ) by {
        lemma_every_level_holds(ranges, k, probe, level);
    }
    lemma_chain_goes_on(ranges, 0, 0, deepest, probe);
}

/// The inline-range table of a procedure, sorted by call depth and start address.
pub struct InlineRangeTable {
    ranges: Vec<InlineRange>,
}

impl View for InlineRangeTable {
    type V = Seq<InlineRange>;

    closed spec fn view(&self) -> Seq<InlineRange> {
        self.ranges@
    }
}

impl InlineRangeTable {
    #[verifier::type_invariant]
    spec fn ascending(&self) -> bool {
        is_sorted(self.ranges@)
    }

    /// Builds the table of a procedure from the symbol records that follow
    /// the procedure's own record; `end_symbol_index` is the index of the
    /// record that closes the procedure.
    pub fn build(symbols: &Vec<SymbolRecord>, end_symbol_index: u32) -> (table: InlineRangeTable)
        ensures
            is_stable_sort(collected_ranges(symbols@, end_symbol_index), table@),
            is_sorted(table@),
            is_chained(table@),
    {
        InlineRangeTable { ranges: compute_procedure_inline_ranges(symbols, end_symbol_index) }
    }

    /// Searches the table, from position `lo` on, for the range that holds
    /// the address at the given call depth. Returns its position with it.
    pub fn find(&self, lo: usize, call_depth: u64, probe: u32) -> (found: Option<
        (usize, InlineRange),
    >)
        ensures
            is_sorted(self@),
            self@.len() <= usize::MAX,
            match found {
                Some((i, range)) => {
                    &&& inline_match(self@, lo as int, call_depth as int, probe) == Some(i as int)
                    &&& lo <= i < self@.len()
                    &&& range == self@[i as int]
                },
                None => inline_match(self@, lo as int, call_depth as int, probe).is_none(),
            },
            found matches Some((i, range)) ==> range.call_depth == call_depth && range.holds(probe),
    {
        proof {
            use_type_invariant(self);
        }
        if lo > self.ranges.len() {
            return None;
        }
        let bound: u128 = (call_depth as u128) * 0x1_0000_0000u128 + (probe as u128);
        match find_floor(&self.ranges, lo, bound) {
            Some(i) => {
                let range: InlineRange = self.ranges[i];
                if range.call_depth == call_depth && (probe as u64) < range.end_rva {
                    Some((i, range))
                } else {
                    None
                }
            },
            None => None,
        }
    }
}

} // verus!
