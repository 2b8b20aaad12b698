//! What holds of every context: how the lookups agree with each other and
//! with the iteration over the procedures, and that what a lookup returned
//! once it returns again, whatever was provided in between.

use crate::context::{ContextView, Lookup};
use crate::inline_ranges::{inline_chain, InlineRange};
use crate::keyed::{is_floor, lemma_floor_unique, Keyed};
use crate::procedures::{enclosing, has_start, is_index, BasicProcedure};
use vstd::prelude::*;

verus! {

/// The position that an address resolves to is a position of the index, and
/// the procedure there holds the address and has the greatest start address
/// that is not above it.
pub proof fn lemma_enclosing(index: Seq<BasicProcedure>, probe: u32)
    ensures
        enclosing(index, probe) matches Some(i) ==> 0 <= i < index.len() && index[i].holds(probe)
            && is_floor(index, probe as int, i),
{
}

/// The procedure at position `i` holds the address and no procedure starts
/// after the start of that one and at or before the address: the address
/// resolves to position `i`.
pub proof fn lemma_resolves_to(index: Seq<BasicProcedure>, i: int, probe: u32)
    requires
        is_index(index),
        0 <= i < index.len(),
        index[i].holds(probe),
        forall|j: int|
            0 <= j < index.len() ==> (#[trigger] index[j]).start_rva <= index[i].start_rva
                || index[j].start_rva > probe,
    ensures
        enclosing(index, probe) == Some(i),
{
    assert forall|j: int| i < j < index.len() implies (#[trigger] index[j]).key() > probe by {
        assert(index[i].start_rva < index[j].start_rva);
    }
    assert(0 <= i && is_floor(index, probe as int, i));
    let c = choose|c: int| 0 <= c && is_floor(index, probe as int, c);
    lemma_floor_unique(index, probe as int, c, i);
}

impl ContextView {
    /// A procedure that `find_function` reports starts at or before the
    /// address, and the index has a procedure with that start address.
    pub proof fn lemma_function_is_indexed(self, probe: u32)
        requires
            self.wf(),
        ensures
            self.function_at(probe) matches Lookup::Done(Some(procedure))
                ==> procedure.procedure_start_rva <= probe && has_start(
                self.procedures,
                procedure.procedure_start_rva,
            ),
    {
        lemma_enclosing(self.procedures, probe);
        if let Some(i) = enclosing(self.procedures, probe) {
            assert(self.procedures[i].holds(probe));
        }
    }

    /// Where `find_frames` reports frames, there is at least one, and
    /// `find_function` reports a procedure with the same start address.
    pub proof fn lemma_frames_of_the_function(self, probe: u32)
        requires
            self.wf(),
        ensures
            self.frames_at(probe) matches Lookup::Done(Some(stack)) ==> stack.frames.len() > 0 && (
            self.function_at(probe) matches Lookup::Done(Some(procedure))
                && procedure.procedure_start_rva == stack.procedure_start_rva),
    {
    }

    /// The last frame that `find_frames` reports, the outermost, has the
    /// function that `find_function` reports.
    pub proof fn lemma_outermost_frame_is_the_function(self, probe: u32)
        requires
            self.wf(),
        ensures
            self.frames_at(probe) matches Lookup::Done(Some(stack)) ==> (self.function_at(
                probe,
            ) matches Lookup::Done(Some(procedure)) && stack.frames.len() > 0
                && stack.frames.last().function == procedure.function),
    {
    }

    /// Two addresses in the procedure at position `i` of the index, with no
    /// procedure that starts after the start of that one and at or before the
    /// greater address: the frames that `find_frames` reports for them have
    /// the start address of that procedure.
    pub proof fn lemma_frames_of_one_procedure(self, i: int, first: u32, second: u32)
        requires
            self.wf(),
            0 <= i < self.procedures.len(),
            first < second,
            self.procedures[i].holds(first),
            self.procedures[i].holds(second),
            forall|j: int|
                0 <= j < self.procedures.len() ==> (#[trigger] self.procedures[j]).start_rva
                    <= self.procedures[i].start_rva || self.procedures[j].start_rva > second,
        ensures
            self.frames_at(first) matches Lookup::Done(Some(stack)) ==> stack.procedure_start_rva
                == self.procedures[i].start_rva,
            self.frames_at(second) matches Lookup::Done(Some(stack)) ==> stack.procedure_start_rva
                == self.procedures[i].start_rva,
            self.procedure_at(first) == self.procedure_at(second),
    {
        lemma_resolves_to(self.procedures, i, first);
        lemma_resolves_to(self.procedures, i, second);
    }

    /// The iteration over the procedures yields a procedure that
    /// `find_function` reports, and it yields a procedure with that start
    /// address at one position only.
    pub proof fn lemma_function_is_listed_once(self, probe: u32)
        requires
            self.wf(),
        ensures
            self.function_at(probe) matches Lookup::Done(Some(procedure)) ==> exists|i: nat|
                {
                    &&& #[trigger] self.listing_at(i) == Lookup::Done(Some(procedure))
                    &&& forall|j: nat|
                        j != i ==> #[trigger] self.listed_start(j) != Some(
                            procedure.procedure_start_rva,
                        )
                },
    {
        lemma_enclosing(self.procedures, probe);
        if let Lookup::Done(Some(procedure)) = self.function_at(probe) {
            let i = enclosing(self.procedures, probe).unwrap() as nat;
            assert(self.listing_at(i) == Lookup::Done(Some(procedure)));
            assert forall|j: nat| j != i implies #[trigger] self.listed_start(j) != Some(
                procedure.procedure_start_rva,
            ) by {
                if j < self.procedures.len() {
                    if j < i {
                        assert(self.procedures[j as int].start_rva
                            < self.procedures[i as int].start_rva);
                    } else {
                        assert(self.procedures[i as int].start_rva
                            < self.procedures[j as int].start_rva);
                    }
                }
            }
        }
    }

    /// The start addresses that the iteration over the procedures yields
    /// strictly ascend: a later position yields a greater one.
    pub proof fn lemma_listing_ascends(self, i: nat, j: nat)
        requires
            self.wf(),
            i < j,
        ensures
            (self.listed_start(i) matches Some(earlier) && self.listed_start(j) matches Some(later))
                ==> self.listed_start(i).unwrap() < self.listed_start(j).unwrap(),
    {
        if j < self.procedures.len() {
            assert(self.procedures[i as int].start_rva < self.procedures[j as int].start_rva);
        }
    }

    /// A context that was provided with more pieces holds the frames of a
    /// chain that needed nothing, and they are the same.
    proof fn lemma_chain_persists(
        self,
        later: ContextView,
        module_index: u16,
        ranges: Seq<InlineRange>,
        chain: Seq<int>,
    )
        requires
            later.extends(self),
            self.chain_need(module_index, ranges, chain).is_none(),
        ensures
            later.chain_need(module_index, ranges, chain).is_none(),
            later.chain_frames(module_index, ranges, chain) == self.chain_frames(
                module_index,
                ranges,
                chain,
            ),
        decreases chain.len(),
    {
        if chain.len() > 0 {
            self.lemma_chain_persists(later, module_index, ranges, chain.drop_last());
            let range = ranges[chain.last()];
            assert(self.range_need(module_index, range).is_none());
            assert(self.inlinee_names.dom().contains(range.inlinee));
            if let Some(file_index) = range.file_index {
                assert(self.file_names.dom().contains((module_index, file_index)));
            }
            assert forall|k: int| 0 <= k < chain.len() implies later.range_frame(
                module_index,
                ranges[chain[k]],
            ) == self.range_frame(module_index, ranges[chain[k]]) by {
                if k < chain.len() - 1 {
                    assert(chain.drop_last()[k] == chain[k]);
                    assert(later.chain_frames(module_index, ranges, chain.drop_last())[k]
                        == self.chain_frames(module_index, ranges, chain.drop_last())[k]);
                }
            }
        }
        assert(later.chain_frames(module_index, ranges, chain) =~= self.chain_frames(
            module_index,
            ranges,
            chain,
        ));
    }

    /// What `find_function` returned once it returns again, whatever was
    /// provided in between: the second lookup needs nothing that the first did
    /// not need.
    pub proof fn lemma_function_persists(self, later: ContextView, probe: u32)
        requires
            later.extends(self),
            self.function_at(probe) is Done,
        ensures
            later.function_at(probe) == self.function_at(probe),
    {
        if let Some(procedure) = self.procedure_at(probe) {
            assert(self.names.dom().contains(procedure.start_rva));
        }
    }

    /// What `find_frames` returned once it returns again, whatever was
    /// provided in between: the second lookup needs nothing that the first did
    /// not need.
    pub proof fn lemma_frames_persist(self, later: ContextView, probe: u32)
        requires
            later.extends(self),
            self.frames_at(probe) is Done,
        ensures
            later.frames_at(probe) == self.frames_at(probe),
    {
        if let Some(procedure) = self.procedure_at(probe) {
            let start = procedure.start_rva;
            assert(self.outer_need(procedure, probe).is_none());
            assert(self.names.dom().contains(start));
            assert(self.lines.dom().contains(start));
            if let Some(file_index) = self.outer_file(procedure, probe) {
                assert(self.file_names.dom().contains((procedure.module_index, file_index)));
            }
            assert(later.outer_need(procedure, probe).is_none());
            assert(later.outer_frame(procedure, probe) == self.outer_frame(procedure, probe));
            assert(self.inline_ranges.dom().contains(start));
            let ranges = self.inline_ranges[start];
            let chain = inline_chain(ranges, 0, 0, probe);
            self.lemma_chain_persists(later, procedure.module_index, ranges, chain);
        }
    }

    /// A chain asks for a piece that the context does not hold.
    proof fn lemma_chain_asks_for_what_is_missing(
        self,
        module_index: u16,
        ranges: Seq<InlineRange>,
        chain: Seq<int>,
    )
        ensures
            self.chain_need(module_index, ranges, chain) matches Some(request) ==> !self.holds(
                request,
            ),
        decreases chain.len(),
    {
        if chain.len() > 0 {
            self.lemma_chain_asks_for_what_is_missing(module_index, ranges, chain.drop_last());
        }
    }

    /// A lookup asks only for a piece that the context does not hold: once
    /// the piece was provided, the lookup does not ask for it again.
    pub proof fn lemma_requests_are_for_missing_pieces(self, probe: u32, position: nat)
        ensures
            self.function_at(probe) matches Lookup::Needs(request) ==> !self.holds(request),
            self.frames_at(probe) matches Lookup::Needs(request) ==> !self.holds(request),
            self.listing_at(position) matches Lookup::Needs(request) ==> !self.holds(request),
    {
        if let Some(procedure) = self.procedure_at(probe) {
            if self.outer_need(procedure, probe).is_none() && self.inline_ranges.contains_key(
                procedure.start_rva,
            ) {
                let ranges = self.inline_ranges[procedure.start_rva];
                self.lemma_chain_asks_for_what_is_missing(
                    procedure.module_index,
                    ranges,
                    inline_chain(ranges, 0, 0, probe),
                );
            }
        }
    }

    /// Every context extends itself.
    pub proof fn lemma_extends_itself(self)
        ensures
            self.extends(self),
    {
    }

    /// A context that extends one that extends a third extends the third.
    pub proof fn lemma_extends_in_steps(self, middle: ContextView, earlier: ContextView)
        requires
            self.extends(middle),
            middle.extends(earlier),
        ensures
            self.extends(earlier),
    {
        assert forall|k: u32| #[trigger]
            earlier.names.dom().contains(k) implies self.names.dom().contains(k) && self.names[k]
            == earlier.names[k] by {
            assert(middle.names.dom().contains(k));
        }
        assert forall|k: u32| #[trigger]
            earlier.lines.dom().contains(k) implies self.lines.dom().contains(k) && self.lines[k]
            == earlier.lines[k] by {
            assert(middle.lines.dom().contains(k));
        }
        assert forall|k: u32| #[trigger]
            earlier.inline_ranges.dom().contains(k) implies self.inline_ranges.dom().contains(k)
            && self.inline_ranges[k] == earlier.inline_ranges[k] by {
            assert(middle.inline_ranges.dom().contains(k));
        }
        assert forall|k: u32| #[trigger]
            earlier.inlinee_names.dom().contains(k) implies self.inlinee_names.dom().contains(k)
            && self.inlinee_names[k] == earlier.inlinee_names[k] by {
            assert(middle.inlinee_names.dom().contains(k));
        }
        assert forall|k: (u16, u32)| #[trigger]
            earlier.file_names.dom().contains(k) implies self.file_names.dom().contains(k)
            && self.file_names[k] == earlier.file_names[k] by {
            assert(middle.file_names.dom().contains(k));
        }
    }
}

} // verus!
