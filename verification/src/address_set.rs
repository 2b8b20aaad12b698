//! Sets of addresses, kept as ranges by the `range_collections` crate.
//!
//! The verifier does not look inside an [`AddressSet`]. What the operations
//! of this module do to the members of a set is taken from the documentation
//! and the source of `range_collections` and is not proved: every function
//! here is believed as it stands.

use range_collections::range_set::Iter;
use range_collections::RangeSet;
use std::ops::Bound;
use crate::intervals::interval;
use vstd::prelude::*;

verus! {

/// A set of addresses, held by `range_collections::RangeSet` as a sorted list
/// of range boundaries.
#[verifier::external_body]
pub struct AddressSet {
    inner: RangeSet<u64>,
}

/// The addresses that a set holds.
pub uninterp spec fn members(set: AddressSet) -> Set<int>;

/// One range as the set hands it out: the first address it holds, where it has
/// one, and the first address after it, where it has an end.
pub type Span = (Option<u64>, Option<u64>);

/// The first address of a span.
pub open spec fn span_start(span: Span) -> int {
    match span.0 {
        Some(start) => start as int,
        None => 0,
    }
}

/// The first address after a span.
pub open spec fn span_end(span: Span) -> int {
    match span.1 {
        Some(end) => end as int,
        None => u64::MAX as int + 1,
    }
}

/// The address `a` lies in one of the spans.
pub open spec fn in_spans(spans: Seq<Span>, a: int) -> bool {
    exists|k: int| 0 <= k < spans.len() && span_start(#[trigger] spans[k]) <= a < span_end(spans[k])
}

/// The spans are what `set` consists of: they come in ascending order with
/// room between them, one that gives its first address is not empty, and
/// together they hold the members of the set and nothing else.
pub open spec fn spans_of(set: Set<int>, spans: Seq<Span>) -> bool {
    &&& forall|k: int|
        0 <= k < spans.len() && (#[trigger] spans[k]).0.is_some() ==> span_start(spans[k])
            < span_end(spans[k])
    &&& forall|k: int, l: int|
        0 <= k < l < spans.len() ==> span_end(#[trigger] spans[k]) < span_start(#[trigger] spans[l])
    &&& forall|a: int| set.contains(a) <==> #[trigger] in_spans(spans, a)
}

/// `RangeSet::empty`: a set without members.
#[verifier::external_body]
pub(crate) fn empty() -> (set: AddressSet)
    ensures
        members(set) == Set::<int>::empty(),
{
    AddressSet { inner: RangeSet::empty() }
}

/// `RangeSet::from` on a `Range`: the set of the addresses from `start` up to,
/// not including, `end`; it has no members where `end` is not above `start`.
#[verifier::external_body]
pub(crate) fn from_range(start: u64, end: u64) -> (set: AddressSet)
    ensures
        members(set) == interval(start as int, end as int),
{
    AddressSet { inner: RangeSet::from(start..end) }
}

/// `RangeSet`'s `|=`: afterwards `set` holds what it held before and what
/// `other` holds.
#[verifier::external_body]
pub(crate) fn union_with(set: &mut AddressSet, other: AddressSet)
    ensures
        members(*final(set)) == members(*old(set)).union(members(other)),
{
    set.inner |= other.inner;
}

/// `RangeSet::is_superset`: whether every member of `other` is a member of `set`.
#[verifier::external_body]
pub(crate) fn is_superset(set: &AddressSet, other: &AddressSet) -> (all: bool)
    ensures
        all == members(*other).subset_of(members(*set)),
{
    set.inner.is_superset(&other.inner)
}

/// `RangeSet`'s `-` on two references: the members of `set` that `other` does
/// not hold.
#[verifier::external_body]
pub(crate) fn difference(set: &AddressSet, other: &AddressSet) -> (rest: AddressSet)
    ensures
        members(rest) == members(*set).difference(members(*other)),
{
    AddressSet { inner: &set.inner - &other.inner }
}

/// A boundary of a range, as the iterator over the ranges of a `RangeSet`
/// hands it out.
#[verifier::external_type_specification]
#[verifier::external_body]
#[verifier::reject_recursive_types(T)]
pub struct ExBound<T>(Bound<T>);

/// The iterator over the ranges of a `RangeSet`.
#[verifier::external_type_specification]
#[verifier::external_body]
#[verifier::reject_recursive_types(T)]
pub struct ExSpanIter<'a, T>(Iter<'a, T>);

/// The ranges that an iterator has yet to hand out, in its order.
pub uninterp spec fn pending(iter: Iter<'_, u64>) -> Seq<Span>;

/// `RangeSet::iter`: an iterator over the ranges of the set in ascending
/// order. The crate keeps the boundaries of a set strictly sorted, so the
/// ranges have room between them, and one with a first address holds at
/// least that address.
#[verifier::external_body]
pub(crate) fn spans(set: &AddressSet) -> (iter: Iter<'_, u64>)
    ensures
        spans_of(members(*set), pending(iter)),
{
    set.inner.iter()
}

/// `Iterator::next` of the iterator over ranges: the next range, or nothing
/// at the end. A boundary that the range includes or excludes is handed out
/// as its address, a missing one as nothing.
#[verifier::external_body]
pub(crate) fn next_span(iter: &mut Iter<'_, u64>) -> (span: Option<Span>)
    ensures
        match span {
            Some(span) => pending(*old(iter)).len() > 0 && span == pending(*old(iter))[0]
                && pending(*final(iter)) == pending(*old(iter)).drop_first(),
            None => pending(*old(iter)).len() == 0 && pending(*final(iter)) == pending(*old(iter)),
        },
{
    let (start, end) = iter.next()?;
    let first = match start {
        Bound::Included(address) => Some(*address),
        Bound::Excluded(address) => Some(*address),
        Bound::Unbounded => None,
    };
    let after = match end {
        Bound::Included(address) => Some(*address),
        Bound::Excluded(address) => Some(*address),
        Bound::Unbounded => None,
    };
    Some((first, after))
}

} // verus!
