//! The procedure index: the procedures of a program, sorted by start address,
//! one for each start address, and the search for the procedure of an address.

use crate::keyed::{
    arranges, find_floor, floor_from, is_sorted, lists, precedes, stable_sort, Keyed,
};
use vstd::prelude::*;

verus! {

/// A procedure record as a module's symbol stream holds it.
#[derive(Clone, Copy, Debug, PartialEq, Eq)]
pub struct ProcedureSymbol {
    /// The index of the module in the module table.
    pub module_index: u16,
    /// The index of the record in the module's symbol stream.
    pub symbol_index: u32,
    /// The index of the record that closes the procedure.
    pub end_symbol_index: u32,
    /// The number of bytes of code of the procedure.
    pub len: u32,
    /// The section of the procedure's code.
    pub section: u16,
    /// The offset of the procedure's code in its section.
    pub offset: u32,
    /// The address of the procedure's code, where the address map has one
    /// for the section offset.
    pub rva: Option<u32>,
    /// The index of the procedure's type.
    pub type_index: u32,
}

/// A procedure of the index. Its code lies at `start_rva..end_rva`.
#[derive(Clone, Copy, Debug, PartialEq, Eq)]
pub struct BasicProcedure {
    /// The address of the first byte of the procedure.
    pub start_rva: u32,
    /// The address after the last byte of the procedure.
    pub end_rva: u64,
    /// The index of the module in the module table.
    pub module_index: u16,
    /// The index of the procedure's record in the module's symbol stream.
    /// The record holds the name of the procedure.
    pub symbol_index: u32,
    /// The index of the record that closes the procedure.
    pub end_symbol_index: u32,
    /// The section of the procedure's code.
    pub section: u16,
    /// The offset of the procedure's code in its section.
    pub offset: u32,
    /// The index of the procedure's type.
    pub type_index: u32,
}

impl ProcedureSymbol {
    /// Whether the record enters the index: it does unless it has no code or
    /// its offset has no address.
    pub open spec fn is_indexed(self) -> bool {
        self.len != 0 && self.rva.is_some()
    }

    /// The procedure that the record enters into the index.
    pub open spec fn basic(self) -> BasicProcedure {
        BasicProcedure {
            start_rva: self.rva.unwrap(),
            end_rva: (self.rva.unwrap() + self.len) as u64,
            module_index: self.module_index,
            symbol_index: self.symbol_index,
            end_symbol_index: self.end_symbol_index,
            section: self.section,
            offset: self.offset,
            type_index: self.type_index,
        }
    }
}

impl BasicProcedure {
    /// Whether the address lies in the procedure.
    pub open spec fn holds(self, probe: u32) -> bool {
        self.start_rva <= probe && (probe as int) < self.end_rva
    }
}

impl Keyed for BasicProcedure {
    open spec fn key(&self) -> int {
        self.start_rva as int
    }

    fn sort_key(&self) -> (k: u128) {
        self.start_rva as u128
    }
}

/// The start addresses strictly ascend, and every procedure ends after its start.
pub open spec fn is_index(index: Seq<BasicProcedure>) -> bool {
    &&& forall|i: int, j: int|
        0 <= i < j < index.len() ==> (#[trigger] index[i]).start_rva
            < (#[trigger] index[j]).start_rva
    &&& forall|i: int| 0 <= i < index.len() ==> (#[trigger] index[i]).start_rva < index[i].end_rva
}

/// The record at `j` enters the index and no later record that enters it has
/// the same address.
pub open spec fn is_last_at(symbols: Seq<ProcedureSymbol>, j: int) -> bool {
    &&& 0 <= j < symbols.len()
    &&& symbols[j].is_indexed()
    &&& forall|k: int|
        j < k < symbols.len() && (#[trigger] symbols[k]).is_indexed() ==> symbols[k].rva
            != symbols[j].rva
}

/// `entry` is what the last record with its address enters.
pub open spec fn is_last_entry(symbols: Seq<ProcedureSymbol>, entry: BasicProcedure) -> bool {
    exists|j: int| is_last_at(symbols, j) && entry == (#[trigger] symbols[j]).basic()
}

/// The index has a procedure that starts at `rva`.
pub open spec fn has_start(index: Seq<BasicProcedure>, rva: u32) -> bool {
    exists|i: int| 0 <= i < index.len() && (#[trigger] index[i]).start_rva == rva
}

/// `index` is the index of the records `symbols`, which are given in the order
/// of the module table and, within a module, of its symbol stream: it is
/// sorted by start address, has one procedure for each address at which a
/// record enters, and that procedure is the one of the last such record.
pub open spec fn indexes(symbols: Seq<ProcedureSymbol>, index: Seq<BasicProcedure>) -> bool {
    &&& is_index(index)
    &&& forall|i: int| 0 <= i < index.len() ==> is_last_entry(symbols, #[trigger] index[i])
    &&& forall|j: int|
        0 <= j < symbols.len() && (#[trigger] symbols[j]).is_indexed() ==> has_start(
            index,
            symbols[j].rva.unwrap(),
        )
}

/// The position of the procedure that an address resolves to: the procedure
/// with the greatest start address that is not above the address, unless the
/// address lies at or after its end.
pub open spec fn enclosing(index: Seq<BasicProcedure>, probe: u32) -> Option<int> {
    match floor_from(index, 0, probe as int) {
        Some(i) => if index[i].holds(probe) {
            Some(i)
        } else {
            None
        },
        None => None,
    }
}

/// The procedure that an address resolves to.
pub open spec fn procedure_at(index: Seq<BasicProcedure>, probe: u32) -> Option<BasicProcedure> {
    match enclosing(index, probe) {
        Some(i) => Some(index[i]),
        None => None,
    }
}

/// The procedure that starts at `rva`.
pub open spec fn procedure_starting_at(index: Seq<BasicProcedure>, rva: u32) -> Option<
    BasicProcedure,
> {
    match starting_at(index, rva) {
        Some(i) => Some(index[i]),
        None => None,
    }
}

/// The position of the procedure that starts at `rva`.
pub open spec fn starting_at(index: Seq<BasicProcedure>, rva: u32) -> Option<int> {
    match floor_from(index, 0, rva as int) {
        Some(i) => if index[i].start_rva == rva {
            Some(i)
        } else {
            None
        },
        None => None,
    }
}

/// The records that enter the index, the last one first.
fn collect_candidates(symbols: &Vec<ProcedureSymbol>) -> (found: (
    Vec<BasicProcedure>,
    Ghost<Seq<int>>,
))
    ensures
        found.0.len() == found.1@.len(),
        found.0.len() <= symbols.len(),
        forall|c: int|
            0 <= c < found.1@.len() ==> 0 <= (#[trigger] found.1@[c]) < symbols.len()
                && symbols[found.1@[c]].is_indexed() && found.0[c] == symbols[found.1@[c]].basic(),
        forall|c: int, d: int|
            0 <= c < d < found.1@.len() ==> (#[trigger] found.1@[c]) > (#[trigger] found.1@[d]),
        forall|j: int|
            0 <= j < symbols.len() && (#[trigger] symbols[j]).is_indexed() ==> lists(found.1@, j),
{
    let mut candidates: Vec<BasicProcedure> = Vec::new();
    let ghost mut origin: Seq<int> = Seq::empty();
    let mut k: usize = symbols.len();
    while k > 0
        invariant
            k <= symbols.len(),
            candidates.len() == origin.len(),
            candidates.len() <= symbols.len() - k,
            forall|c: int|
                0 <= c < origin.len() ==> k <= (#[trigger] origin[c]) < symbols.len()
                    && symbols[origin[c]].is_indexed() && candidates[c]
                    == symbols[origin[c]].basic(),
            forall|c: int, d: int|
                0 <= c < d < origin.len() ==> (#[trigger] origin[c]) > (#[trigger] origin[d]),
            forall|j: int|
                k <= j < symbols.len() && (#[trigger] symbols[j]).is_indexed() ==> lists(origin, j),
        decreases k,
    {
        k = k - 1;
        let symbol: ProcedureSymbol = symbols[k];
        let ghost before = origin;
        if symbol.len != 0 {
            if let Some(start_rva) = symbol.rva {
                candidates.push(
                    BasicProcedure {
                        start_rva,
                        end_rva: start_rva as u64 + symbol.len as u64,
                        module_index: symbol.module_index,
                        symbol_index: symbol.symbol_index,
                        end_symbol_index: symbol.end_symbol_index,
                        section: symbol.section,
                        offset: symbol.offset,
                        type_index: symbol.type_index,
                    },
                );
                proof {
                    origin = origin.push(k as int);
                    assert(origin[origin.len() - 1] == k);
                }
            }
        }
        proof {
            assert forall|j: int|
                k <= j < symbols.len() && (#[trigger] symbols[j]).is_indexed() implies lists(
                origin,
                j,
            ) by {
                if j > k {
                    assert(lists(before, j));
                    let c = choose|c: int| 0 <= c < before.len() && #[trigger] before[c] == j;
                    assert(origin[c] == j);
                } else {
                    assert(origin[origin.len() - 1] == j);
                }
            }
        }
    }
    (candidates, Ghost(origin))
}

/// The position `i` is the first of its run of equal keys.
pub open spec fn starts_run<T: Keyed>(table: Seq<T>, i: int) -> bool {
    0 <= i < table.len() && (i == 0 || table[i - 1].key() != table[i].key())
}

/// Keeps the first record of every run of equal keys of a sorted table.
fn first_of_runs<T: Keyed + Copy>(table: &Vec<T>) -> (kept: (Vec<T>, Ghost<Seq<int>>))
    requires
        is_sorted(table@),
    ensures
        kept.0.len() == kept.1@.len(),
        kept.0.len() <= table.len(),
        forall|o: int|
            0 <= o < kept.1@.len() ==> starts_run(table@, #[trigger] kept.1@[o]) && kept.0[o]
                == table[kept.1@[o]],
        forall|o: int, p: int|
            0 <= o < p < kept.0.len() ==> (#[trigger] kept.0[o]).key()
                < (#[trigger] kept.0[p]).key(),
        forall|i: int|
            0 <= i < table.len() ==> exists|o: int|
                0 <= o < kept.0.len() && (#[trigger] kept.0[o]).key()
                    == (#[trigger] table[i]).key(),
{
    let mut out: Vec<T> = Vec::new();
    let ghost mut at: Seq<int> = Seq::empty();
    let mut i: usize = 0;
    while i < table.len()
        invariant
            i <= table.len(),
            is_sorted(table@),
            out.len() == at.len(),
            out.len() <= i,
            i == 0 ==> out.len() == 0,
            i > 0 ==> out.len() > 0 && out[out.len() - 1].key() == table[i - 1].key(),
            forall|o: int|
                0 <= o < at.len() ==> starts_run(table@, #[trigger] at[o]) && at[o] < i && out[o]
                    == table[at[o]],
            forall|o: int, p: int|
                0 <= o < p < out.len() ==> (#[trigger] out[o]).key() < (#[trigger] out[p]).key(),
            forall|j: int|
                0 <= j < i ==> exists|o: int|
                    0 <= o < out.len() && (#[trigger] out[o]).key() == (#[trigger] table[j]).key(),
        decreases table.len() - i,
    {
        let record: T = table[i];
        let ghost before = out@;
        let fresh: bool = if i == 0 {
            true
        } else {
            table[i - 1].sort_key() != record.sort_key()
        };
        if fresh {
            proof {
                assert forall|o: int| 0 <= o < out.len() implies (#[trigger] out[o]).key()
                    < record.key() by {
                    assert(table[at[o]].key() <= table[i - 1].key());
                    if o < out.len() - 1 {
                        assert(out[o].key() < out[out.len() - 1].key());
                    }
                }
                at = at.push(i as int);
            }
            out.push(record);
        }
        proof {
            assert forall|j: int| 0 <= j < i + 1 implies exists|o: int|
                0 <= o < out.len() && (#[trigger] out[o]).key() == (#[trigger] table[j]).key() by {
                if j < i {
                    let o = choose|o: int|
                        0 <= o < before.len() && (#[trigger] before[o]).key() == table[j].key();
                    assert(out[o].key() == table[j].key());
                } else {
                    assert(out[out.len() - 1].key() == table[j].key());
                }
            }
        }
        i = i + 1;
    }
    (out, Ghost(at))
}

/// Builds the index of the procedure records of a program. The records are
/// given in the order of the module table and, within a module, of its symbol
/// stream. A record without code or without an address for its offset is left
/// out; of several records with one address the last one stays.
pub fn build_index(symbols: &Vec<ProcedureSymbol>) -> (index: Vec<BasicProcedure>)
    ensures
        indexes(symbols@, index@),
        index.len() <= symbols.len(),
{
    let (candidates, Ghost(origin)) = collect_candidates(symbols);
    let sorted = stable_sort(&candidates);
    let (index, Ghost(at)) = first_of_runs(&sorted);
    proof {
        let order = choose|order: Seq<int>|
            arranges(candidates@, 0, candidates@.len() as int, order, sorted@);
        assert forall|i: int| 0 <= i < index.len() implies is_last_entry(
            symbols@,
            #[trigger] index[i],
        ) by {
            let s = at[i];
            let c = order[s];
            let j = origin[c];
            assert(index[i] == symbols[j].basic());
            assert forall|k: int|
                j < k < symbols.len() && (#[trigger] symbols[k]).is_indexed() implies symbols[k].rva
                != symbols[j].rva by {
                if symbols[k].rva == symbols[j].rva {
                    // A later record with the same address is an earlier candidate,
                    // so it stands before position `s` of the sorted table, with the same key.
                    assert(lists(origin, k));
                    let d = choose|d: int| 0 <= d < origin.len() && #[trigger] origin[d] == k;
                    if d >= c {
                        if d > c {
                            assert(origin[c] > origin[d]);
                        }
                    }
                    assert(lists(order, d));
                    let t = choose|t: int| 0 <= t < order.len() && #[trigger] order[t] == d;
                    assert(candidates[d].key() == candidates[c].key());
                    if t > s {
                        assert(precedes(candidates@, order[s], order[t]));
                    }
                    assert(t < s);
                    assert(sorted[t].key() <= sorted[s - 1].key());
                    assert(sorted[s - 1].key() <= sorted[s].key());
                }
            }
            assert(is_last_at(symbols@, j));
        }
        assert forall|j: int|
            0 <= j < symbols.len() && (#[trigger] symbols[j]).is_indexed() implies has_start(
            index@,
            symbols[j].rva.unwrap(),
        ) by {
            assert(lists(origin, j));
            let c = choose|c: int| 0 <= c < origin.len() && #[trigger] origin[c] == j;
            assert(lists(order, c));
            let s = choose|s: int| 0 <= s < order.len() && #[trigger] order[s] == c;
            assert(sorted[s] == candidates[c]);
            let o = choose|o: int|
                0 <= o < index.len() && (#[trigger] index[o]).key() == (#[trigger] sorted[s]).key();
            assert(index[o].start_rva == symbols[j].rva.unwrap());
        }
        assert forall|i: int| 0 <= i < index.len() implies (#[trigger] index[i]).start_rva
            < index[i].end_rva by {
            assert(is_last_entry(symbols@, index[i]));
        }
    }
    index
}

/// Searches the index for the procedure of an address.
fn find_enclosing(index: &Vec<BasicProcedure>, probe: u32) -> (found: Option<usize>)
    requires
        is_index(index@),
    ensures
        match found {
            Some(i) => enclosing(index@, probe) == Some(i as int),
            None => enclosing(index@, probe).is_none(),
        },
        found matches Some(i) ==> i < index.len() && index[i as int].holds(probe),
{
    proof {
        lemma_index_is_sorted(index@);
    }
    match find_floor(index, 0, probe as u128) {
        Some(i) => {
            if (probe as u64) < index[i].end_rva {
                Some(i)
            } else {
                None
            }
        },
        None => None,
    }
}

/// Searches the index for the procedure that starts at an address.
fn find_starting_at(index: &Vec<BasicProcedure>, rva: u32) -> (found: Option<usize>)
    requires
        is_index(index@),
    ensures
        match found {
            Some(i) => starting_at(index@, rva) == Some(i as int),
            None => starting_at(index@, rva).is_none(),
        },
        found matches Some(i) ==> i < index.len() && index[i as int].start_rva == rva,
        found.is_none() ==> !has_start(index@, rva),
{
    proof {
        lemma_index_is_sorted(index@);
    }
    match find_floor(index, 0, rva as u128) {
        Some(i) => {
            if index[i].start_rva == rva {
                Some(i)
            } else {
                proof {
                    assert forall|k: int| 0 <= k < index.len() implies (
                    #[trigger] index[k]).start_rva != rva by {
                        if index[k].start_rva == rva {
                            assert(index[k].key() <= rva);
                            if k < i {
                                assert(index[k].start_rva < index[i as int].start_rva);
                            }
                        }
                    }
                }
                None
            }
        },
        None => {
            proof {
                assert forall|k: int| 0 <= k < index.len() implies (#[trigger] index[k]).start_rva
                    != rva by {
                    assert(index[k].key() > rva);
                }
            }
            None
        },
    }
}

/// The procedure index of a program.
pub struct ProcedureIndex {
    entries: Vec<BasicProcedure>,
}

impl View for ProcedureIndex {
    type V = Seq<BasicProcedure>;

    closed spec fn view(&self) -> Seq<BasicProcedure> {
        self.entries@
    }
}

impl ProcedureIndex {
    #[verifier::type_invariant]
    spec fn ascending(&self) -> bool {
        is_index(self.entries@)
    }

    /// Builds the index of the procedure records of a program, which are
    /// given in the order of the module table and, within a module, of its
    /// symbol stream.
    pub fn build(symbols: &Vec<ProcedureSymbol>) -> (index: ProcedureIndex)
        ensures
            indexes(symbols@, index@),
            index@.len() <= symbols.len(),
    {
        ProcedureIndex { entries: build_index(symbols) }
    }

    /// The number of procedures.
    pub fn len(&self) -> (count: usize)
        ensures
            count == self@.len(),
            is_index(self@),
    {
        proof {
            use_type_invariant(self);
        }
        self.entries.len()
    }

    /// The procedure at a position, if the index has that many.
    pub fn get(&self, position: usize) -> (found: Option<BasicProcedure>)
        ensures
            is_index(self@),
            self@.len() <= usize::MAX,
            found == if position < self@.len() {
                Some(self@[position as int])
            } else {
                None
            },
    {
        proof {
            use_type_invariant(self);
        }
        if position < self.entries.len() {
            Some(self.entries[position])
        } else {
            None
        }
    }

    /// The procedure that an address resolves to: the procedure with the
    /// greatest start address that is not above the address, unless the
    /// address lies at or after its end.
    pub fn find(&self, probe: u32) -> (found: Option<BasicProcedure>)
        ensures
            is_index(self@),
            found == procedure_at(self@, probe),
            found matches Some(procedure) ==> procedure.holds(probe),
    {
        proof {
            use_type_invariant(self);
            lemma_index_is_sorted(self.entries@);
        }
        match find_enclosing(&self.entries, probe) {
            Some(i) => Some(self.entries[i]),
            None => None,
        }
    }

    /// The procedure that starts at an address, if there is one.
    pub fn find_start(&self, rva: u32) -> (found: Option<BasicProcedure>)
        ensures
            is_index(self@),
            found == procedure_starting_at(self@, rva),
            found matches Some(procedure) ==> procedure.start_rva == rva,
            found.is_none() ==> !has_start(self@, rva),
    {
        proof {
            use_type_invariant(self);
            lemma_index_is_sorted(self.entries@);
        }
        match find_starting_at(&self.entries, rva) {
            Some(i) => Some(self.entries[i]),
            None => None,
        }
    }
}

/// Two indexes of the same records agree up to position `k`.
proof fn lemma_indexes_agree(
    symbols: Seq<ProcedureSymbol>,
    a: Seq<BasicProcedure>,
    b: Seq<BasicProcedure>,
    k: int,
)
    requires
        indexes(symbols, a),
        indexes(symbols, b),
        0 <= k <= a.len(),
    ensures
        k <= b.len(),
        forall|i: int| 0 <= i < k ==> a[i] == b[i],
    decreases k,
{
    if k > 0 {
        lemma_indexes_agree(symbols, a, b, k - 1);
        let n = k - 1;
        // The start of `a[n]` is the address of a record, so `b` has it, and not
        // before `n`, where the two agree.
        assert(is_last_entry(symbols, a[n]));
        let j = choose|j: int| is_last_at(symbols, j) && a[n] == (#[trigger] symbols[j]).basic();
        assert(has_start(b, symbols[j].rva.unwrap()));
        let m = choose|m: int| 0 <= m < b.len() && (#[trigger] b[m]).start_rva == a[n].start_rva;
        if m < n {
            assert(a[m] == b[m]);
            assert(a[m].start_rva < a[n].start_rva);
        }
        assert(n < b.len());
        // In the same way `a` has the start of `b[n]`, not before `n`.
        assert(is_last_entry(symbols, b[n]));
        let l = choose|l: int| is_last_at(symbols, l) && b[n] == (#[trigger] symbols[l]).basic();
        assert(has_start(a, symbols[l].rva.unwrap()));
        let p = choose|p: int| 0 <= p < a.len() && (#[trigger] a[p]).start_rva == b[n].start_rva;
        if p < n {
            assert(a[p] == b[p]);
            assert(b[p].start_rva < b[n].start_rva);
        }
        if m > n {
            assert(b[n].start_rva < b[m].start_rva);
        }
        if p > n {
            assert(a[n].start_rva < a[p].start_rva);
        }
        assert(a[n].start_rva == b[n].start_rva);
        // Both are what the last record with that address enters.
        if j < l {
            assert(symbols[l].is_indexed());
        } else if l < j {
            assert(symbols[j].is_indexed());
        }
        assert(j == l);
    }
}

/// Records have one index only.
pub proof fn lemma_index_unique(
    symbols: Seq<ProcedureSymbol>,
    first: Seq<BasicProcedure>,
    second: Seq<BasicProcedure>,
)
    requires
        indexes(symbols, first),
        indexes(symbols, second),
    ensures
        first == second,
{
    lemma_indexes_agree(symbols, first, second, first.len() as int);
    lemma_indexes_agree(symbols, second, first, second.len() as int);
    assert(first =~= second);
}

/// An index is sorted by key.
pub proof fn lemma_index_is_sorted(index: Seq<BasicProcedure>)
    requires
        is_index(index),
    ensures
        is_sorted(index),
{
    assert forall|i: int, j: int| 0 <= i <= j < index.len() implies index[i].key()
        <= index[j].key() by {
        if i < j {
            assert(index[i].start_rva < index[j].start_rva);
        }
    }
}

} // verus!
