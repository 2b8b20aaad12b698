//! The line table of a procedure: the source lines of its own code, sorted
//! by the address at which each line starts.

use crate::keyed::{find_floor, floor_from, is_sorted, is_stable_sort, stable_sort, Keyed};
use vstd::prelude::*;

verus! {

/// One line record of a procedure: from `start_rva` on, up to the start of
/// the next record, the code belongs to the line.
#[derive(Clone, Copy, Debug, PartialEq, Eq)]
pub struct CachedLine {
    /// The address of the first instruction of the line.
    pub start_rva: u32,
    /// The source file, as an index into the module's files.
    pub file_index: u32,
    /// The line number.
    pub line_start: u32,
}

impl Keyed for CachedLine {
    open spec fn key(&self) -> int {
        self.start_rva as int
    }

    fn sort_key(&self) -> (k: u128) {
        self.start_rva as u128
    }
}

/// The line record of an address: the last record of the table that starts
/// at or before the address.
pub open spec fn line_at(lines: Seq<CachedLine>, probe: u32) -> Option<CachedLine> {
    match floor_from(lines, 0, probe as int) {
        Some(i) => Some(lines[i]),
        None => None,
    }
}

/// The line table of a procedure, sorted by start address.
pub struct LineTable {
    lines: Vec<CachedLine>,
}

impl View for LineTable {
    type V = Seq<CachedLine>;

    closed spec fn view(&self) -> Seq<CachedLine> {
        self.lines@
    }
}

impl LineTable {
    #[verifier::type_invariant]
    spec fn ascending(&self) -> bool {
        is_sorted(self.lines@)
    }

    /// Makes the table of the line records of a procedure: the records
    /// sorted by start address, records with one start address in the order
    /// given.
    pub fn new(lines: &Vec<CachedLine>) -> (table: LineTable)
        ensures
            is_stable_sort(lines@, table@),
    {
        LineTable { lines: stable_sort(lines) }
    }

    /// The line record of an address: the last record of the table that
    /// starts at or before the address.
    pub fn find(&self, probe: u32) -> (found: Option<CachedLine>)
        ensures
            is_sorted(self@),
            found == line_at(self@, probe),
            found matches Some(line) ==> line.start_rva <= probe,
    {
        proof {
            use_type_invariant(self);
        }
        match find_floor(&self.lines, 0, probe as u128) {
            Some(i) => Some(self.lines[i]),
            None => None,
        }
    }
}

} // verus!
