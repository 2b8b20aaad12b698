//! The inline-range table of a procedure, built from the symbol records that
//! follow the procedure's own record in its module's symbol stream.
//!
//! An inline site covers the addresses that its own line records name. Where
//! the debug information leaves a site without line records for addresses
//! that the sites nested in it cover, the site is given ranges for those
//! addresses too, so that a lookup finds the whole chain of callers.

use crate::address_set::{
    difference, empty, from_range, in_spans, is_superset, members, next_span, pending, span_end,
    span_start, spans, spans_of, union_with, AddressSet, Span,
};
use crate::intervals::{
    in_intervals, interval, lemma_stretches_unique, stretches, stretches_of, Intervals,
};
use crate::inline_ranges::{
    covered_at, is_chained, is_chained_above, InlineRange, ADDRESS_SPACE,
};
use crate::keyed::{arranges, is_sorted, is_stable_sort, lists, stable_sort};
use vstd::prelude::*;

verus! {

/// One line record of an inlined function at an inline site.
#[derive(Clone, Copy, Debug, PartialEq, Eq)]
pub struct InlineeLine {
    /// The address of the first instruction of the line.
    pub start_rva: u32,
    /// The number of bytes of code of the line, where the record gives it.
    pub length: Option<u32>,
    /// The source file, as an index into the module's files.
    pub file_index: u32,
    /// The line number.
    pub line_start: u32,
}

/// What the table needs to know of a symbol record.
#[derive(Clone, Debug, PartialEq, Eq)]
pub enum SymbolData {
    /// A procedure. `end` is the index of the record that closes it.
    Procedure { end: u32 },
    /// A call that was inlined. `end` is the index of the record that closes
    /// the site, `inlinee` the id of the function that was inlined, and
    /// `lines` are its line records at this site, empty where the module has
    /// none for the inlinee.
    InlineSite { end: u32, inlinee: u32, lines: Vec<InlineeLine> },
    /// Any other record.
    Other,
}

/// A record of a module's symbol stream.
#[derive(Clone, Debug, PartialEq, Eq)]
pub struct SymbolRecord {
    /// The index of the record in the stream.
    pub index: u32,
    /// What the record holds.
    pub data: SymbolData,
}

impl InlineeLine {
    /// Whether the record yields a range: it does unless its length is absent or zero.
    pub open spec fn counts(self) -> bool {
        self.length matches Some(length) && length > 0
    }

    /// The first address after the code of the line.
    pub open spec fn end_rva(self) -> int {
        self.start_rva + self.length.unwrap()
    }

    /// The range that the record yields at a site of the given depth.
    pub open spec fn range(self, call_depth: u64, inlinee: u32) -> InlineRange {
        InlineRange {
            start_rva: self.start_rva,
            end_rva: self.end_rva() as u64,
            call_depth,
            inlinee,
            file_index: Some(self.file_index),
            line_start: Some(self.line_start),
        }
    }

    /// The addresses of the code of the line.
    pub open spec fn cover(self) -> Set<int> {
        if self.counts() {
            interval(self.start_rva as int, clip(self.end_rva()))
        } else {
            Set::empty()
        }
    }
}

/// `end`, or the number of addresses where `end` lies beyond the last address.
pub open spec fn clip(end: int) -> int {
    if end <= ADDRESS_SPACE {
        end
    } else {
        ADDRESS_SPACE as int
    }
}

/// Every member of the set is an address.
pub open spec fn in_address_space(set: Set<int>) -> bool {
    forall|a: int| set.contains(a) ==> 0 <= a < ADDRESS_SPACE
}

/// The ranges of a site's own line records, in the order of the records.
pub open spec fn own_ranges(lines: Seq<InlineeLine>, call_depth: u64, inlinee: u32) -> Seq<
    InlineRange,
>
    decreases lines.len(),
{
    if lines.len() == 0 {
        Seq::empty()
    } else {
        let before = own_ranges(lines.drop_last(), call_depth, inlinee);
        if lines.last().counts() {
            before.push(lines.last().range(call_depth, inlinee))
        } else {
            before
        }
    }
}

/// The addresses that a site's own line records cover.
pub open spec fn own_cover(lines: Seq<InlineeLine>) -> Set<int>
    decreases lines.len(),
{
    if lines.len() == 0 {
        Set::empty()
    } else {
        own_cover(lines.drop_last()).union(lines.last().cover())
    }
}

/// The file of the first line record that yields a range.
pub open spec fn first_file(lines: Seq<InlineeLine>) -> Option<u32>
    decreases lines.len(),
{
    if lines.len() == 0 {
        None
    } else {
        let before = first_file(lines.drop_last());
        if before.is_none() && lines.last().counts() {
            Some(lines.last().file_index)
        } else {
            before
        }
    }
}

/// The ranges that fill the addresses `missing` for a site: one for each
/// stretch, in ascending order, with the site's file and without a line.
pub open spec fn gap_ranges(
    missing: Set<int>,
    call_depth: u64,
    inlinee: u32,
    file_index: Option<u32>,
) -> Seq<InlineRange> {
    let gaps = stretches(missing);
    Seq::new(
        gaps.len(),
        |k: int|
            InlineRange {
                start_rva: gaps[k].0 as u32,
                end_rva: gaps[k].1 as u64,
                call_depth,
                inlinee,
                file_index,
                line_start: None,
            },
    )
}

/// What reading a stretch of the symbol stream yields.
pub struct Walk {
    /// The position of the first record that was not read.
    pub next: int,
    /// The ranges that were found, in the order in which they were found.
    pub ranges: Seq<InlineRange>,
    /// The addresses that the sites that were read cover.
    pub covered: Set<int>,
}

/// A position after `pos`: `next`, which every walk leaves after `pos` and
/// not after the end of the records.
pub open spec fn advance(symbols: Seq<SymbolRecord>, pos: int, next: int) -> int {
    if pos < next <= symbols.len() {
        next
    } else {
        pos + 1
    }
}

/// The position after skipping to the record with index `end`: the records
/// before that one are passed over, and so is the first that is not before it.
pub open spec fn skip_past(symbols: Seq<SymbolRecord>, pos: int, end: u32) -> int
    decreases symbols.len() - pos,
{
    if pos < 0 || pos >= symbols.len() {
        pos
    } else if symbols[pos].index < end {
        skip_past(symbols, pos + 1, end)
    } else {
        pos + 1
    }
}

/// Reads the records from `pos` on that lie before the record with index
/// `end`. A nested procedure is skipped. An inline site is read with all that
/// is nested in it, at the given depth. The first record that is not before
/// `end` is read and ends the walk.
pub open spec fn children_walk(
    symbols: Seq<SymbolRecord>,
    pos: int,
    end: u32,
    call_depth: u64,
) -> Walk
    decreases symbols.len() - pos, 1int,
{
    if pos < 0 || pos >= symbols.len() {
        Walk { next: pos, ranges: Seq::empty(), covered: Set::empty() }
    } else if symbols[pos].index >= end {
        Walk { next: pos + 1, ranges: Seq::empty(), covered: Set::empty() }
    } else {
        match symbols[pos].data {
            SymbolData::Procedure { end: inner } => children_walk(
                symbols,
                advance(symbols, pos, skip_past(symbols, pos + 1, inner)),
                end,
                call_depth,
            ),
            SymbolData::InlineSite { .. } => {
                let site = site_walk(symbols, pos, call_depth);
                let behind = advance(symbols, pos, site.next);
                let rest = children_walk(symbols, behind, end, call_depth);
                Walk {
                    next: rest.next,
                    ranges: site.ranges + rest.ranges,
                    covered: site.covered.union(rest.covered),
                }
            },
            SymbolData::Other => children_walk(symbols, pos + 1, end, call_depth),
        }
    }
}

/// Reads the inline site at position `site` with all that is nested in it.
/// It yields the ranges of the site's own line records, then those of the
/// sites nested in it, one level deeper, then the ranges that fill what the
/// nested sites cover and the site's own line records do not.
pub open spec fn site_walk(symbols: Seq<SymbolRecord>, site: int, call_depth: u64) -> Walk
    decreases symbols.len() - site, 0int,
{
    if site < 0 || site >= symbols.len() {
        Walk { next: site + 1, ranges: Seq::empty(), covered: Set::empty() }
    } else {
        match symbols[site].data {
            SymbolData::InlineSite { end, inlinee, lines } => {
                let own = own_cover(lines@);
                let nested = children_walk(symbols, site + 1, end, (call_depth + 1) as u64);
                let filled = gap_ranges(
                    nested.covered.difference(own),
                    call_depth,
                    inlinee,
                    first_file(lines@),
                );
                Walk {
                    next: nested.next,
                    ranges: own_ranges(lines@, call_depth, inlinee) + nested.ranges + filled,
                    covered: own.union(nested.covered),
                }
            },
            _ => Walk { next: site + 1, ranges: Seq::empty(), covered: Set::empty() },
        }
    }
}

/// The ranges of the inline sites of a procedure, in the order in which the
/// walk through the records finds them. `symbols` are the records that follow
/// the procedure's own record; `end_symbol_index` is the index of the record
/// that closes the procedure.
pub open spec fn collected_ranges(symbols: Seq<SymbolRecord>, end_symbol_index: u32) -> Seq<
    InlineRange,
> {
    children_walk(symbols, 0, end_symbol_index, 0).ranges
}

/// What a walk at a call depth yields hangs together: its ranges are of that
/// depth or deeper, those of that depth hold the addresses that the walk
/// covers and no others, and the deeper ones are chained down to that depth.
pub open spec fn sound_walk(walk: Walk, call_depth: int) -> bool {
    &&& forall|k: int|
        0 <= k < walk.ranges.len() ==> (#[trigger] walk.ranges[k]).call_depth >= call_depth
    &&& forall|a: int|
        walk.covered.contains(a) <==> #[trigger] covered_at(walk.ranges, call_depth, a)
    &&& is_chained_above(walk.ranges, call_depth)
}

/// A range of two lists of ranges holds an address where a range of one of
/// them does.
proof fn lemma_covered_in_either(first: Seq<InlineRange>, second: Seq<InlineRange>)
    ensures
        forall|call_depth: int, a: int| #[trigger]
            covered_at(first + second, call_depth, a) <==> covered_at(first, call_depth, a)
                || covered_at(second, call_depth, a),
{
    let both = first + second;
    assert forall|call_depth: int, a: int| #[trigger]
        covered_at(both, call_depth, a) <==> covered_at(first, call_depth, a) || covered_at(
            second,
            call_depth,
            a,
        ) by {
        if covered_at(both, call_depth, a) {
            let k = choose|k: int|
                0 <= k < both.len() && (#[trigger] both[k]).call_depth == call_depth
                    && both[k].covers(a);
            if k < first.len() {
                assert(first[k] == both[k]);
            } else {
                assert(second[k - first.len()] == both[k]);
            }
        }
        if covered_at(first, call_depth, a) {
            let k = choose|k: int|
                0 <= k < first.len() && (#[trigger] first[k]).call_depth == call_depth
                    && first[k].covers(a);
            assert(both[k] == first[k]);
        }
        if covered_at(second, call_depth, a) {
            let k = choose|k: int|
                0 <= k < second.len() && (#[trigger] second[k]).call_depth == call_depth
                    && second[k].covers(a);
            assert(both[first.len() + k] == second[k]);
        }
    }
}

/// The ranges of a site's own line records are of the site's call depth and
/// hold the addresses that the records cover.
proof fn lemma_own_ranges_cover(lines: Seq<InlineeLine>, call_depth: u64, inlinee: u32)
    ensures
        forall|k: int|
            0 <= k < own_ranges(lines, call_depth, inlinee).len() ==> (#[trigger] own_ranges(
                lines,
                call_depth,
                inlinee,
            )[k]).call_depth == call_depth,
        forall|a: int|
            own_cover(lines).contains(a) <==> #[trigger] covered_at(
                own_ranges(lines, call_depth, inlinee),
                call_depth as int,
                a,
            ),
    decreases lines.len(),
{
    let ranges = own_ranges(lines, call_depth, inlinee);
    if lines.len() > 0 {
        let before = own_ranges(lines.drop_last(), call_depth, inlinee);
        lemma_own_ranges_cover(lines.drop_last(), call_depth, inlinee);
        let line = lines.last();
        if line.counts() {
            let range = line.range(call_depth, inlinee);
            assert(ranges =~= before + seq![range]);
            lemma_covered_in_either(before, seq![range]);
            assert forall|a: int|
                own_cover(lines).contains(a) <==> #[trigger] covered_at(
                    ranges,
                    call_depth as int,
                    a,
                ) by {
                if covered_at(seq![range], call_depth as int, a) {
                    let k = choose|k: int|
                        0 <= k < seq![range].len() && (#[trigger] seq![range][k]).call_depth
                            == call_depth && seq![range][k].covers(a);
                    assert(seq![range][k] == range);
                }
                if line.cover().contains(a) {
                    assert(seq![range][0].covers(a));
                }
            }
        }
    } else {
        assert forall|a: int|
            own_cover(lines).contains(a) <==> #[trigger] covered_at(
                ranges,
                call_depth as int,
                a,
            ) by {}
    }
}

/// The walks through two sites that follow each other hang together as one.
proof fn lemma_walks_join(first: Walk, second: Walk, call_depth: int)
    requires
        sound_walk(first, call_depth),
        sound_walk(second, call_depth),
    ensures
        sound_walk(
            Walk {
                next: second.next,
                ranges: first.ranges + second.ranges,
                covered: first.covered.union(second.covered),
            },
            call_depth,
        ),
{
    let ranges = first.ranges + second.ranges;
    lemma_covered_in_either(first.ranges, second.ranges);
    assert forall|k: int, a: int|
        0 <= k < ranges.len() && ranges[k].call_depth > call_depth && #[trigger] ranges[k].covers(
            a,
        ) implies covered_at(ranges, ranges[k].call_depth - 1, a) by {
        if k < first.ranges.len() {
            assert(first.ranges[k].covers(a));
        } else {
            assert(second.ranges[k - first.ranges.len()].covers(a));
        }
    }
}

/// The walk through a site hangs together where the walk through what is
/// nested in it does and the site is filled for what it lacks.
proof fn lemma_site_is_sound(
    own: Seq<InlineRange>,
    own_cover: Set<int>,
    nested: Walk,
    filled: Seq<InlineRange>,
    call_depth: int,
)
    requires
        forall|k: int| 0 <= k < own.len() ==> (#[trigger] own[k]).call_depth == call_depth,
        forall|a: int| own_cover.contains(a) <==> #[trigger] covered_at(own, call_depth, a),
        sound_walk(nested, call_depth + 1),
        forall|k: int| 0 <= k < filled.len() ==> (#[trigger] filled[k]).call_depth == call_depth,
        forall|a: int|
            nested.covered.difference(own_cover).contains(a) <==> #[trigger] covered_at(
                filled,
                call_depth,
                a,
            ),
    ensures
        sound_walk(
            Walk {
                next: nested.next,
                ranges: own + nested.ranges + filled,
                covered: own_cover.union(nested.covered),
            },
            call_depth,
        ),
{
    let ranges = own + nested.ranges + filled;
    lemma_covered_in_either(own, nested.ranges);
    lemma_covered_in_either(own + nested.ranges, filled);
    assert forall|a: int|
        own_cover.union(nested.covered).contains(a) <==> #[trigger] covered_at(
            ranges,
            call_depth,
            a,
        ) by {
        if covered_at(nested.ranges, call_depth, a) {
            let k = choose|k: int|
                0 <= k < nested.ranges.len() && (#[trigger] nested.ranges[k]).call_depth
                    == call_depth && nested.ranges[k].covers(a);
        }
        if nested.covered.contains(a) && !own_cover.contains(a) {
            assert(nested.covered.difference(own_cover).contains(a));
        }
    }
    assert forall|k: int, a: int|
        0 <= k < ranges.len() && ranges[k].call_depth > call_depth && #[trigger] ranges[k].covers(
            a,
        ) implies covered_at(ranges, ranges[k].call_depth - 1, a) by {
        let n = k - own.len();
        if k < own.len() {
            assert(ranges[k] == own[k]);
        } else if n < nested.ranges.len() {
            assert(ranges[k] == nested.ranges[n]);
            assert(nested.ranges[n].covers(a));
            if nested.ranges[n].call_depth == call_depth + 1 {
                assert(covered_at(nested.ranges, call_depth + 1, a));
                assert(nested.covered.contains(a));
                assert(own_cover.union(nested.covered).contains(a));
            } else {
                assert(covered_at(nested.ranges, nested.ranges[n].call_depth - 1, a));
            }
        } else {
            assert(ranges[k] == filled[n - nested.ranges.len()]);
        }
    }
}

/// A stable sort of chained ranges is chained.
proof fn lemma_sorted_ranges_are_chained(input: Seq<InlineRange>, output: Seq<InlineRange>)
    requires
        is_stable_sort(input, output),
        is_chained(input),
    ensures
        is_chained(output),
{
    let order = choose|order: Seq<int>| arranges(input, 0, input.len() as int, order, output);
    assert forall|k: int, a: int|
        0 <= k < output.len() && output[k].call_depth > 0 && #[trigger] output[k].covers(
            a,
        ) implies covered_at(output, output[k].call_depth - 1, a) by {
        let r = order[k];
        assert(input[r].covers(a));
        assert(covered_at(input, input[r].call_depth - 1, a));
        let j = choose|j: int|
            0 <= j < input.len() && (#[trigger] input[j]).call_depth == input[r].call_depth - 1
                && input[j].covers(a);
        assert(lists(order, j));
        let i = choose|i: int| 0 <= i < order.len() && #[trigger] order[i] == j;
        assert(output[i] == input[j]);
    }
}

/// Moves the cursor past the record with index `end`.
fn skip_to(symbols: &Vec<SymbolRecord>, cursor: &mut usize, end: u32)
    requires
        *old(cursor) <= symbols.len(),
    ensures
        *final(cursor) == skip_past(symbols@, *old(cursor) as int, end),
        *old(cursor) <= *final(cursor) <= symbols.len(),
{
    let ghost start = *cursor;
    let mut passed: bool = false;
    while !passed && *cursor < symbols.len()
        invariant
            start <= *cursor <= symbols.len(),
            !passed ==> skip_past(symbols@, start as int, end) == skip_past(
                symbols@,
                *cursor as int,
                end,
            ),
            passed ==> skip_past(symbols@, start as int, end) == *cursor,
        decreases symbols.len() - *cursor + (if passed { 0int } else { 1int }),
    {
        if symbols[*cursor].index >= end {
            passed = true;
        }
        *cursor = *cursor + 1;
    }
}

/// Pushes the ranges of a site's own line records and returns what they
/// cover and the file of the first of them.
fn push_own_ranges(
    lines: &Vec<InlineeLine>,
    call_depth: u64,
    inlinee: u32,
    ranges: &mut Vec<InlineRange>,
) -> (own: (AddressSet, Option<u32>))
    ensures
        final(ranges)@ == old(ranges)@ + own_ranges(lines@, call_depth, inlinee),
        members(own.0) == own_cover(lines@),
        in_address_space(members(own.0)),
        own.1 == first_file(lines@),
{
    let mut covered = empty();
    let mut file_index: Option<u32> = None;
    let mut i: usize = 0;
    proof {
        assert(lines@.take(0) =~= Seq::empty());
        assert(ranges@ =~= old(ranges)@ + own_ranges(lines@.take(0), call_depth, inlinee));
    }
    while i < lines.len()
        invariant
            i <= lines.len(),
            ranges@ == old(ranges)@ + own_ranges(lines@.take(i as int), call_depth, inlinee),
            members(covered) == own_cover(lines@.take(i as int)),
            in_address_space(members(covered)),
            file_index == first_file(lines@.take(i as int)),
        decreases lines.len() - i,
    {
        let line: InlineeLine = lines[i];
        proof {
            assert(lines@.take(i + 1).drop_last() =~= lines@.take(i as int));
            assert(lines@.take(i + 1).last() == line);
        }
        let length: u32 = match line.length {
            Some(length) => length,
            None => 0,
        };
        if length != 0 {
            let end: u64 = line.start_rva as u64 + length as u64;
            ranges.push(
                InlineRange {
                    start_rva: line.start_rva,
                    end_rva: end,
                    call_depth,
                    inlinee,
                    file_index: Some(line.file_index),
                    line_start: Some(line.line_start),
                },
            );
            let clipped: u64 = if end <= ADDRESS_SPACE {
                end
            } else {
                ADDRESS_SPACE
            };
            union_with(&mut covered, from_range(line.start_rva as u64, clipped));
            if file_index.is_none() {
                file_index = Some(line.file_index);
            }
            proof {
                assert(ranges@ =~= old(ranges)@ + own_ranges(
                    lines@.take(i + 1),
                    call_depth,
                    inlinee,
                ));
            }
        } else {
            proof {
                assert(members(covered) =~= own_cover(lines@.take(i + 1)));
            }
        }
        i = i + 1;
    }
    proof {
        assert(lines@.take(lines.len() as int) =~= lines@);
    }
    (covered, file_index)
}

/// Pushes the ranges that fill `missing` for a site.
fn push_gap_ranges(
    missing: &AddressSet,
    call_depth: u64,
    inlinee: u32,
    file_index: Option<u32>,
    ranges: &mut Vec<InlineRange>,
)
    requires
        in_address_space(members(*missing)),
    ensures
        final(ranges)@ == old(ranges)@ + gap_ranges(
            members(*missing),
            call_depth,
            inlinee,
            file_index,
        ),
        forall|k: int|
            0 <= k < gap_ranges(members(*missing), call_depth, inlinee, file_index).len() ==> (
            #[trigger] gap_ranges(members(*missing), call_depth, inlinee, file_index)[k]).call_depth
                == call_depth,
        forall|a: int|
            members(*missing).contains(a) <==> #[trigger] covered_at(
                gap_ranges(members(*missing), call_depth, inlinee, file_index),
                call_depth as int,
                a,
            ),
{
    let mut iter = spans(missing);
    let ghost spans = pending(iter);
    let ghost gaps: Intervals = Seq::empty();
    let ghost filled: Seq<InlineRange> = Seq::empty();
    let ghost k: int = 0;
    let mut more: bool = true;
    proof {
        assert(ranges@ =~= old(ranges)@ + filled);
        assert(spans.skip(0) =~= spans);
    }
    while more
        invariant
            0 <= k <= spans.len(),
            more ==> pending(iter) == spans.skip(k),
            !more ==> k == spans.len(),
            spans_of(members(*missing), spans),
            in_address_space(members(*missing)),
            ranges@ == old(ranges)@ + filled,
            filled.len() == gaps.len(),
            forall|g: int|
                0 <= g < gaps.len() ==> (#[trigger] filled[g]) == (InlineRange {
                    start_rva: gaps[g].0 as u32,
                    end_rva: gaps[g].1 as u64,
                    call_depth,
                    inlinee,
                    file_index,
                    line_start: None,
                }),
            forall|g: int|
                0 <= g < gaps.len() ==> 0 <= (#[trigger] gaps[g]).0 < gaps[g].1 <= ADDRESS_SPACE,
            forall|g: int, h: int|
                0 <= g < h < gaps.len() ==> (#[trigger] gaps[g]).1 < (#[trigger] gaps[h]).0,
            forall|g: int, l: int|
                0 <= g < gaps.len() && k <= l < spans.len() ==> (#[trigger] gaps[g]).1 < span_start(
                    #[trigger] spans[l],
                ),
            forall|a: int| #[trigger] in_intervals(gaps, a) <==> in_spans(spans.take(k), a),
        decreases spans.len() - k + (if more { 1int } else { 0int }),
    {
        match next_span(&mut iter) {
            Some(span) => {
                proof {
                    assert(span == spans[k]);
                    assert(spans.skip(k).drop_first() =~= spans.skip(k + 1));
                    // A span without an end would hold the last address that a `u64` can name.
                    if span.1.is_none() {
                        assert(span_start(spans[k]) <= u64::MAX < span_end(spans[k]));
                        assert(in_spans(spans, u64::MAX as int));
                    }
                    lemma_take_one_more(spans, k);
                }
                let start: u64 = match span.0 {
                    Some(start) => start,
                    None => 0,
                };
                let end: u64 = match span.1 {
                    Some(end) => end,
                    None => 0,
                };
                if start < end {
                    proof {
                        assert(span_start(spans[k]) <= end - 1 < span_end(spans[k]));
                        assert(in_spans(spans, end - 1));
                        let ghost longer = gaps.push((start as int, end as int));
                        assert forall|a: int| #[trigger] in_intervals(longer, a) <==> in_spans(
                            spans.take(k + 1),
                            a,
                        ) by {
                            if in_intervals(longer, a) {
                                let g = choose|g: int|
                                    0 <= g < longer.len() && (#[trigger] longer[g]).0 <= a
                                        < longer[g].1;
                                if g < gaps.len() {
                                    assert(gaps[g] == longer[g]);
                                    assert(in_intervals(gaps, a));
                                }
                            }
                            if in_spans(spans.take(k), a) {
                                assert(in_intervals(gaps, a));
                                let g = choose|g: int|
                                    0 <= g < gaps.len() && (#[trigger] gaps[g]).0 <= a < gaps[g].1;
                                assert(longer[g] == gaps[g]);
                            }
                            if start <= a < end {
                                let last = gaps.len() as int;
                                assert(longer[last].0 <= a < longer[last].1);
                            }
                        }
                        gaps = longer;
                    }
                    let range = InlineRange {
                        start_rva: start as u32,
                        end_rva: end,
                        call_depth,
                        inlinee,
                        file_index,
                        line_start: None,
                    };
                    ranges.push(range);
                    proof {
                        assert(ranges@ =~= old(ranges)@ + filled.push(range));
                        filled = filled.push(range);
                    }
                }
                proof {
                    k = k + 1;
                }
            },
            None => {
                more = false;
            },
        }
    }
    proof {
        assert(spans.take(spans.len() as int) =~= spans);
        assert(stretches_of(members(*missing), gaps));
        lemma_stretches_unique(members(*missing), gaps, stretches(members(*missing)));
        assert(filled =~= gap_ranges(members(*missing), call_depth, inlinee, file_index));
        assert forall|a: int|
            members(*missing).contains(a) <==> #[trigger] covered_at(
                filled,
                call_depth as int,
                a,
            ) by {
            if members(*missing).contains(a) {
                assert(in_intervals(gaps, a));
                let g = choose|g: int|
                    0 <= g < gaps.len() && (#[trigger] gaps[g]).0 <= a < gaps[g].1;
                assert(filled[g].covers(a));
            }
            if covered_at(filled, call_depth as int, a) {
                let g = choose|g: int|
                    0 <= g < filled.len() && (#[trigger] filled[g]).call_depth == call_depth
                        && filled[g].covers(a);
                assert(gaps[g].0 <= a < gaps[g].1);
                assert(in_intervals(gaps, a));
            }
        }
    }
}

/// An address lies in the first `k + 1` spans where it lies in the first `k`
/// or in the one after them.
proof fn lemma_take_one_more(spans: Seq<Span>, k: int)
    requires
        0 <= k < spans.len(),
    ensures
        forall|a: int|
            #[trigger] in_spans(spans.take(k + 1), a) <==> in_spans(spans.take(k), a) || (
            span_start(spans[k]) <= a < span_end(spans[k])),
{
    let longer = spans.take(k + 1);
    let shorter = spans.take(k);
    assert forall|a: int| #[trigger]
        in_spans(longer, a) <==> in_spans(shorter, a) || (span_start(spans[k]) <= a < span_end(
            spans[k],
        )) by {
        if in_spans(longer, a) {
            let l = choose|l: int|
                0 <= l < longer.len() && span_start(#[trigger] longer[l]) <= a < span_end(
                    longer[l],
                );
            if l < k {
                assert(shorter[l] == longer[l]);
            }
        }
        if in_spans(shorter, a) {
            let l = choose|l: int|
                0 <= l < shorter.len() && span_start(#[trigger] shorter[l]) <= a < span_end(
                    shorter[l],
                );
            assert(longer[l] == shorter[l]);
        }
        if span_start(spans[k]) <= a < span_end(spans[k]) {
            assert(longer[k] == spans[k]);
        }
    }
}

/// Reads the inline site at `site`, which the cursor has just passed, with
/// all that is nested in it. Returns the addresses that the site covers.
fn process_inlinee_symbols(
    symbols: &Vec<SymbolRecord>,
    site: usize,
    cursor: &mut usize,
    call_depth: u64,
    ranges: &mut Vec<InlineRange>,
) -> (covered: AddressSet)
    requires
        site < symbols.len(),
        *old(cursor) == site + 1,
        call_depth <= site,
    ensures
        *final(cursor) == site_walk(symbols@, site as int, call_depth).next,
        final(ranges)@ == old(ranges)@ + site_walk(symbols@, site as int, call_depth).ranges,
        members(covered) == site_walk(symbols@, site as int, call_depth).covered,
        in_address_space(members(covered)),
        site < *final(cursor) <= symbols.len(),
        sound_walk(site_walk(symbols@, site as int, call_depth), call_depth as int),
    decreases symbols.len() - site, 0int,
{
    match &symbols[site].data {
        SymbolData::InlineSite { end, inlinee, lines } => {
            let (mut covered, file_index) = push_own_ranges(lines, call_depth, *inlinee, ranges);
            let nested = walk_children(symbols, cursor, *end, call_depth + 1, ranges);
            let ghost nested_walk = children_walk(
                symbols@,
                site + 1,
                *end,
                (call_depth + 1) as u64,
            );
            let ghost missing = members(nested).difference(own_cover(lines@));
            let ghost filled = gap_ranges(missing, call_depth, *inlinee, file_index);
            if !is_superset(&covered, &nested) {
                let missing = difference(&nested, &covered);
                push_gap_ranges(&missing, call_depth, *inlinee, file_index, ranges);
                union_with(&mut covered, missing);
                proof {
                    assert(members(covered) =~= own_cover(lines@).union(members(nested)));
                }
            } else {
                proof {
                    assert(missing =~= Set::<int>::empty());
                    lemma_no_stretches();
                    assert(filled =~= Seq::empty());
                    assert(members(covered) =~= own_cover(lines@).union(members(nested)));
                    assert forall|a: int|
                        missing.contains(a) <==> #[trigger] covered_at(
                            filled,
                            call_depth as int,
                            a,
                        ) by {}
                }
            }
            proof {
                let walk = site_walk(symbols@, site as int, call_depth);
                assert(ranges@ =~= old(ranges)@ + walk.ranges);
                lemma_own_ranges_cover(lines@, call_depth, *inlinee);
                lemma_site_is_sound(
                    own_ranges(lines@, call_depth, *inlinee),
                    own_cover(lines@),
                    nested_walk,
                    filled,
                    call_depth as int,
                );
            }
            covered
        },
        _ => {
            proof {
                let walk = site_walk(symbols@, site as int, call_depth);
                assert forall|a: int|
                    walk.covered.contains(a) <==> #[trigger] covered_at(
                        walk.ranges,
                        call_depth as int,
                        a,
                    ) by {}
            }
            empty()
        },
    }
}

/// The empty set has no stretches.
proof fn lemma_no_stretches()
    ensures
        stretches(Set::<int>::empty()) == Seq::<(int, int)>::empty(),
{
    let none: Intervals = Seq::empty();
    assert forall|a: int| Set::<int>::empty().contains(a) <==> #[trigger] in_intervals(
        none,
        a,
    ) by {}
    assert(stretches_of(Set::<int>::empty(), none));
    lemma_stretches_unique(Set::<int>::empty(), none, stretches(Set::<int>::empty()));
}

/// Reads the records from the cursor on that lie before the record with index
/// `end`, and returns the addresses that the inline sites among them cover.
fn walk_children(
    symbols: &Vec<SymbolRecord>,
    cursor: &mut usize,
    end: u32,
    call_depth: u64,
    ranges: &mut Vec<InlineRange>,
) -> (covered: AddressSet)
    requires
        *old(cursor) <= symbols.len(),
        call_depth <= *old(cursor),
    ensures
        *final(cursor) == children_walk(symbols@, *old(cursor) as int, end, call_depth).next,
        final(ranges)@ == old(ranges)@ + children_walk(
            symbols@,
            *old(cursor) as int,
            end,
            call_depth,
        ).ranges,
        members(covered) == children_walk(symbols@, *old(cursor) as int, end, call_depth).covered,
        in_address_space(members(covered)),
        *old(cursor) <= *final(cursor) <= symbols.len(),
        sound_walk(
            children_walk(symbols@, *old(cursor) as int, end, call_depth),
            call_depth as int,
        ),
    decreases symbols.len() - *old(cursor), 1int,
{
    let ghost start = *cursor as int;
    let ghost whole = children_walk(symbols@, start, end, call_depth);
    let ghost found: Seq<InlineRange> = Seq::empty();
    let mut covered = empty();
    let mut done: bool = false;
    proof {
        assert(ranges@ =~= old(ranges)@ + found);
        assert(whole.ranges =~= found + whole.ranges);
        assert(whole.covered =~= members(covered).union(whole.covered));
        assert forall|a: int|
            members(covered).contains(a) <==> #[trigger] covered_at(
                found,
                call_depth as int,
                a,
            ) by {}
    }
    while !done && *cursor < symbols.len()
        invariant
            start == *old(cursor),
            start <= *cursor <= symbols.len(),
            call_depth <= start,
            whole == children_walk(symbols@, start, end, call_depth),
            ranges@ == old(ranges)@ + found,
            in_address_space(members(covered)),
            sound_walk(
                Walk { next: *cursor as int, ranges: found, covered: members(covered) },
                call_depth as int,
            ),
            !done ==> {
                let rest = children_walk(symbols@, *cursor as int, end, call_depth);
                &&& whole.next == rest.next
                &&& whole.ranges == found + rest.ranges
                &&& whole.covered == members(covered).union(rest.covered)
            },
            done ==> {
                &&& whole.next == *cursor
                &&& whole.ranges == found
                &&& whole.covered == members(covered)
            },
        decreases symbols.len() - *cursor + (if done { 0int } else { 1int }),
    {
        let pos: usize = *cursor;
        let ghost rest = children_walk(symbols@, pos as int, end, call_depth);
        *cursor = pos + 1;
        if symbols[pos].index >= end {
            done = true;
            proof {
                assert(whole.ranges =~= found);
                assert(whole.covered =~= members(covered));
            }
        } else {
            match &symbols[pos].data {
                SymbolData::Procedure { end: inner } => {
                    skip_to(symbols, cursor, *inner);
                },
                SymbolData::InlineSite { .. } => {
                    let ghost site = site_walk(symbols@, pos as int, call_depth);
                    let ghost after = children_walk(
                        symbols@,
                        advance(symbols@, pos as int, site.next),
                        end,
                        call_depth,
                    );
                    let nested = process_inlinee_symbols(symbols, pos, cursor, call_depth, ranges);
                    proof {
                        assert(whole.ranges =~= (found + site.ranges) + after.ranges);
                        assert(whole.covered =~= members(covered).union(members(nested)).union(
                            after.covered,
                        ));
                        assert(ranges@ =~= old(ranges)@ + (found + site.ranges));
                        lemma_walks_join(
                            Walk { next: pos as int, ranges: found, covered: members(covered) },
                            site,
                            call_depth as int,
                        );
                        found = found + site.ranges;
                    }
                    union_with(&mut covered, nested);
                },
                SymbolData::Other => {},
            }
        }
    }
    proof {
        if !done {
            assert(whole.ranges =~= found);
            assert(whole.covered =~= members(covered));
        }
    }
    covered
}

/// Builds the inline-range table of a procedure: the ranges of its inline
/// sites, sorted by call depth and start address, ranges that agree in both
/// in the order in which the walk finds them.
///
/// `symbols` are the records that follow the procedure's own record in the
/// symbol stream; `end_symbol_index` is the index of the record that closes
/// the procedure.
pub fn compute_procedure_inline_ranges(
    symbols: &Vec<SymbolRecord>,
    end_symbol_index: u32,
) -> (table: Vec<InlineRange>)
    ensures
        is_stable_sort(collected_ranges(symbols@, end_symbol_index), table@),
        is_sorted(table@),
        is_chained(table@),
{
    let mut ranges: Vec<InlineRange> = Vec::new();
    let mut cursor: usize = 0;
    let _ = walk_children(symbols, &mut cursor, end_symbol_index, 0, &mut ranges);
    proof {
        assert(ranges@ =~= collected_ranges(symbols@, end_symbol_index));
    }
    let table = stable_sort(&ranges);
    proof {
        lemma_sorted_ranges_are_chained(ranges@, table@);
    }
    table
}

} // verus!
