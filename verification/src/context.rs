//! The lookup context: the procedure index of a program and what has been
//! decoded of its debug information so far.
//!
//! A context never reads debug information itself. A lookup that needs a
//! piece that the context does not hold yet returns a [`Request`] for it; the
//! caller decodes the piece, hands it over with one of the `provide_` methods
//! and repeats the lookup. What was handed over once stays as it is: a later
//! value for the same piece is ignored.

use crate::frames::{innermost_first, Frame, FrameStack, Procedure, ProcedureFrames};
use crate::inline_ranges::{inline_chain, is_chained, InlineRange, InlineRangeTable};
use crate::inline_sites::{collected_ranges, SymbolRecord};
use crate::keyed::{is_sorted, is_stable_sort, lemma_stable_sort_is_sorted};
use crate::lines::{line_at, CachedLine, LineTable};
use crate::procedures::{
    enclosing, has_start, indexes, is_index, procedure_at, procedure_starting_at, BasicProcedure,
    ProcedureIndex, ProcedureSymbol,
};
use std::collections::BTreeMap;
use vstd::prelude::*;

verus! {

/// A piece of debug information that a lookup needs and the context does not hold.
#[derive(Clone, Copy, Debug, PartialEq, Eq)]
pub enum Request {
    /// The formatted name of the procedure.
    ProcedureName(BasicProcedure),
    /// The line records of the procedure.
    ProcedureLines(BasicProcedure),
    /// The symbol records that follow the procedure's own record.
    ProcedureSymbols(BasicProcedure),
    /// The formatted name of the inlined function with this id.
    InlineeName { inlinee: u32 },
    /// The name of a source file of a module.
    FileName { module_index: u16, file_index: u32 },
}

/// The outcome of a lookup: its result, or the piece that is needed first.
#[derive(Clone, Debug, PartialEq, Eq)]
pub enum Lookup<T> {
    /// The lookup is done.
    Done(T),
    /// The lookup needs this piece. Provide it and look up again.
    Needs(Request),
}

/// The mathematical value of a [`Context`].
#[verifier::ext_equal]
pub struct ContextView {
    /// The procedure index.
    pub procedures: Seq<BasicProcedure>,
    /// The formatted names of procedures, by start address. A name is absent
    /// where the procedure could not be formatted.
    pub names: Map<u32, Option<String>>,
    /// The line tables of procedures, by start address.
    pub lines: Map<u32, Seq<CachedLine>>,
    /// The inline-range tables of procedures, by start address.
    pub inline_ranges: Map<u32, Seq<InlineRange>>,
    /// The formatted names of inlined functions, by id.
    pub inlinee_names: Map<u32, Option<String>>,
    /// The names of source files, by module and file index.
    pub file_names: Map<(u16, u32), Option<String>>,
}

impl ContextView {
    /// The start addresses of the index strictly ascend, and every procedure
    /// of it ends after its start. This holds of every context.
    pub open spec fn wf(self) -> bool {
        is_index(self.procedures)
    }

    /// `self` holds the index of `earlier` and every piece that `earlier` holds.
    pub open spec fn extends(self, earlier: ContextView) -> bool {
        &&& self.procedures == earlier.procedures
        &&& earlier.names.submap_of(self.names)
        &&& earlier.lines.submap_of(self.lines)
        &&& earlier.inline_ranges.submap_of(self.inline_ranges)
        &&& earlier.inlinee_names.submap_of(self.inlinee_names)
        &&& earlier.file_names.submap_of(self.file_names)
    }

    /// Whether the context holds the piece that a request asks for.
    pub open spec fn holds(self, request: Request) -> bool {
        match request {
            Request::ProcedureName(procedure) => self.names.contains_key(procedure.start_rva),
            Request::ProcedureLines(procedure) => self.lines.contains_key(procedure.start_rva),
            Request::ProcedureSymbols(procedure) => self.inline_ranges.contains_key(
                procedure.start_rva,
            ),
            Request::InlineeName { inlinee } => self.inlinee_names.contains_key(inlinee),
            Request::FileName { module_index, file_index } => self.file_names.contains_key(
                (module_index, file_index),
            ),
        }
    }

    /// The procedure that an address resolves to.
    pub open spec fn procedure_at(self, probe: u32) -> Option<BasicProcedure> {
        procedure_at(self.procedures, probe)
    }

    /// What the lookup of a procedure's name comes to.
    pub open spec fn named(self, procedure: BasicProcedure) -> Lookup<Option<Procedure>> {
        if self.names.contains_key(procedure.start_rva) {
            Lookup::Done(
                Some(
                    Procedure {
                        procedure_start_rva: procedure.start_rva,
                        function: self.names[procedure.start_rva],
                    },
                ),
            )
        } else {
            Lookup::Needs(Request::ProcedureName(procedure))
        }
    }

    /// What `find_function` returns for an address.
    pub open spec fn function_at(self, probe: u32) -> Lookup<Option<Procedure>> {
        match self.procedure_at(probe) {
            Some(procedure) => self.named(procedure),
            None => Lookup::Done(None),
        }
    }

    /// What the iteration over the procedures yields at a position.
    pub open spec fn listing_at(self, position: nat) -> Lookup<Option<Procedure>> {
        if position < self.procedures.len() {
            self.named(self.procedures[position as int])
        } else {
            Lookup::Done(None)
        }
    }

    /// The start address of the procedure that the iteration yields at a
    /// position, where it yields one.
    pub open spec fn listed_start(self, position: nat) -> Option<u32> {
        match self.listing_at(position) {
            Lookup::Done(Some(procedure)) => Some(procedure.procedure_start_rva),
            _ => None,
        }
    }

    /// The request for the name of a file, where a file is asked for and its
    /// name is not held.
    pub open spec fn file_need(self, module_index: u16, file_index: Option<u32>) -> Option<
        Request,
    > {
        match file_index {
            Some(file_index) => if self.file_names.contains_key((module_index, file_index)) {
                None
            } else {
                Some(Request::FileName { module_index, file_index })
            },
            None => None,
        }
    }

    /// The name of a file, where a file is asked for and has a name.
    pub open spec fn file_of(self, module_index: u16, file_index: Option<u32>) -> Option<String> {
        match file_index {
            Some(file_index) => self.file_names[(module_index, file_index)],
            None => None,
        }
    }

    /// The file index of the line record of an address in a procedure.
    pub open spec fn outer_file(self, procedure: BasicProcedure, probe: u32) -> Option<u32> {
        match line_at(self.lines[procedure.start_rva], probe) {
            Some(line) => Some(line.file_index),
            None => None,
        }
    }

    /// The first piece that the frame of the procedure itself needs: its
    /// name, then its lines, then the name of the file of the line.
    pub open spec fn outer_need(self, procedure: BasicProcedure, probe: u32) -> Option<Request> {
        if !self.names.contains_key(procedure.start_rva) {
            Some(Request::ProcedureName(procedure))
        } else if !self.lines.contains_key(procedure.start_rva) {
            Some(Request::ProcedureLines(procedure))
        } else {
            self.file_need(procedure.module_index, self.outer_file(procedure, probe))
        }
    }

    /// The frame of the procedure itself: its name, and the file and line of
    /// the line record of the address, where it has one.
    pub open spec fn outer_frame(self, procedure: BasicProcedure, probe: u32) -> Frame {
        Frame {
            function: self.names[procedure.start_rva],
            file: self.file_of(procedure.module_index, self.outer_file(procedure, probe)),
            line: match line_at(self.lines[procedure.start_rva], probe) {
                Some(line) => Some(line.line_start),
                None => None,
            },
        }
    }

    /// The first piece that the frame of an inline range needs: the name of
    /// the inlined function, then the name of the file.
    pub open spec fn range_need(self, module_index: u16, range: InlineRange) -> Option<Request> {
        if !self.inlinee_names.contains_key(range.inlinee) {
            Some(Request::InlineeName { inlinee: range.inlinee })
        } else {
            self.file_need(module_index, range.file_index)
        }
    }

    /// The frame of an inline range.
    pub open spec fn range_frame(self, module_index: u16, range: InlineRange) -> Frame {
        Frame {
            function: self.inlinee_names[range.inlinee],
            file: self.file_of(module_index, range.file_index),
            line: range.line_start,
        }
    }

    /// The first piece that the frames of a chain of inline ranges need.
    pub open spec fn chain_need(
        self,
        module_index: u16,
        ranges: Seq<InlineRange>,
        chain: Seq<int>,
    ) -> Option<Request>
        decreases chain.len(),
    {
        if chain.len() == 0 {
            None
        } else {
            match self.chain_need(module_index, ranges, chain.drop_last()) {
                Some(request) => Some(request),
                None => self.range_need(module_index, ranges[chain.last()]),
            }
        }
    }

    /// The frames of a chain of inline ranges, in the order of the chain.
    pub open spec fn chain_frames(
        self,
        module_index: u16,
        ranges: Seq<InlineRange>,
        chain: Seq<int>,
    ) -> Seq<Frame> {
        Seq::new(chain.len(), |k: int| self.range_frame(module_index, ranges[chain[k]]))
    }

    /// What `find_frames` returns for an address in the given procedure.
    pub open spec fn frames_in(self, procedure: BasicProcedure, probe: u32) -> Lookup<
        Option<FrameStack>,
    > {
        match self.outer_need(procedure, probe) {
            Some(request) => Lookup::Needs(request),
            None => if !self.inline_ranges.contains_key(procedure.start_rva) {
                Lookup::Needs(Request::ProcedureSymbols(procedure))
            } else {
                let ranges = self.inline_ranges[procedure.start_rva];
                let chain = inline_chain(ranges, 0, 0, probe);
                match self.chain_need(procedure.module_index, ranges, chain) {
                    Some(request) => Lookup::Needs(request),
                    None => Lookup::Done(
                        Some(
                            FrameStack {
                                procedure_start_rva: procedure.start_rva,
                                frames: (seq![self.outer_frame(procedure, probe)]
                                    + self.chain_frames(
                                    procedure.module_index,
                                    ranges,
                                    chain,
                                )).reverse(),
                            },
                        ),
                    ),
                }
            },
        }
    }

    /// What `find_frames` returns for an address: nothing where the address
    /// lies in no procedure; else the first piece that is needed, in the order
    /// name, lines and file of the procedure, its symbols, and name and file
    /// of each inlined call from the outermost on; else the frames, the
    /// innermost first.
    pub open spec fn frames_at(self, probe: u32) -> Lookup<Option<FrameStack>> {
        match self.procedure_at(probe) {
            Some(procedure) => self.frames_in(procedure, probe),
            None => Lookup::Done(None),
        }
    }

    /// The context after a name for the procedure at `start` was provided.
    pub open spec fn with_name(self, start: u32, name: Option<String>) -> ContextView {
        if self.names.contains_key(start) {
            self
        } else {
            ContextView { names: self.names.insert(start, name), ..self }
        }
    }

    /// The context after a line table for the procedure at `start` was provided.
    pub open spec fn with_lines(self, start: u32, table: Seq<CachedLine>) -> ContextView {
        if self.lines.contains_key(start) {
            self
        } else {
            ContextView { lines: self.lines.insert(start, table), ..self }
        }
    }

    /// The context after an inline-range table for the procedure at `start`
    /// was provided.
    pub open spec fn with_inline_ranges(self, start: u32, table: Seq<InlineRange>) -> ContextView {
        if self.inline_ranges.contains_key(start) {
            self
        } else {
            ContextView { inline_ranges: self.inline_ranges.insert(start, table), ..self }
        }
    }

    /// The context after a name for an inlined function was provided.
    pub open spec fn with_inlinee_name(self, inlinee: u32, name: Option<String>) -> ContextView {
        if self.inlinee_names.contains_key(inlinee) {
            self
        } else {
            ContextView { inlinee_names: self.inlinee_names.insert(inlinee, name), ..self }
        }
    }

    /// The context after a name for a source file was provided.
    pub open spec fn with_file_name(
        self,
        module_index: u16,
        file_index: u32,
        name: Option<String>,
    ) -> ContextView {
        if self.file_names.contains_key((module_index, file_index)) {
            self
        } else {
            ContextView {
                file_names: self.file_names.insert((module_index, file_index), name),
                ..self
            }
        }
    }
}

/// The mathematical value of what a lookup of frames returned.
pub open spec fn stack_view(found: Lookup<Option<ProcedureFrames>>) -> Lookup<Option<FrameStack>> {
    match found {
        Lookup::Done(Some(frames)) => Lookup::Done(Some(frames@)),
        Lookup::Done(None) => Lookup::Done(None),
        Lookup::Needs(request) => Lookup::Needs(request),
    }
}

/// The key under which the name of a file is kept.
pub closed spec fn file_key(module_index: u16, file_index: u32) -> u64 {
    (module_index as u64 * 0x1_0000_0000 + file_index as u64) as u64
}

/// A copy of a text.
fn copy_text(text: &Option<String>) -> (copy: Option<String>)
    ensures
        copy == *text,
{
    match text {
        Some(text) => Some(text.clone()),
        None => None,
    }
}

/// The lookup context of a program.
pub struct Context {
    procedures: ProcedureIndex,
    names: BTreeMap<u32, Option<String>>,
    lines: BTreeMap<u32, LineTable>,
    inline_ranges: BTreeMap<u32, InlineRangeTable>,
    inlinee_names: BTreeMap<u32, Option<String>>,
    file_names: BTreeMap<u64, Option<String>>,
}

impl View for Context {
    type V = ContextView;

    closed spec fn view(&self) -> ContextView {
        ContextView {
            procedures: self.procedures@,
            names: self.names@,
            lines: Map::new(
                |start: u32| self.lines@.contains_key(start),
                |start: u32| self.lines@[start]@,
            ),
            inline_ranges: Map::new(
                |start: u32| self.inline_ranges@.contains_key(start),
                |start: u32| self.inline_ranges@[start]@,
            ),
            inlinee_names: self.inlinee_names@,
            file_names: Map::new(
                |file: (u16, u32)| self.file_names@.contains_key(file_key(file.0, file.1)),
                |file: (u16, u32)| self.file_names@[file_key(file.0, file.1)],
            ),
        }
    }
}

impl Context {
    /// Makes the context of a program from its procedure records. The records
    /// are given in the order of the module table and, within a module, of
    /// its symbol stream. The context holds their index and nothing else.
    pub fn new_from_parts(symbols: &Vec<ProcedureSymbol>) -> (context: Context)
        ensures
            context@.wf(),
            indexes(symbols@, context@.procedures),
            context@.procedures.len() <= symbols.len(),
            context@.names == Map::<u32, Option<String>>::empty(),
            context@.lines == Map::<u32, Seq<CachedLine>>::empty(),
            context@.inline_ranges == Map::<u32, Seq<InlineRange>>::empty(),
            context@.inlinee_names == Map::<u32, Option<String>>::empty(),
            context@.file_names == Map::<(u16, u32), Option<String>>::empty(),
    {
        let context = Context {
            procedures: ProcedureIndex::build(symbols),
            names: BTreeMap::new(),
            lines: BTreeMap::new(),
            inline_ranges: BTreeMap::new(),
            inlinee_names: BTreeMap::new(),
            file_names: BTreeMap::new(),
        };
        proof {
            assert(context@.lines =~= Map::<u32, Seq<CachedLine>>::empty());
            assert(context@.inline_ranges =~= Map::<u32, Seq<InlineRange>>::empty());
            assert(context@.file_names =~= Map::<(u16, u32), Option<String>>::empty());
        }
        context
    }

    /// The number of procedures of the index.
    pub fn procedure_count(&self) -> (count: usize)
        ensures
            self@.wf(),
            count == self@.procedures.len(),
    {
        self.procedures.len()
    }

    /// Starts an iteration over the procedures of the index.
    pub fn iter_procedures(&self) -> (iter: ProcedureIter)
        ensures
            iter@ == 0,
    {
        ProcedureIter { cur_index: 0 }
    }

    /// The procedure that an address resolves to: the procedure with the
    /// greatest start address that is not above the address, unless the
    /// address lies at or after its end.
    pub fn lookup_proc(&self, probe: u32) -> (found: Option<BasicProcedure>)
        ensures
            self@.wf(),
            found == self@.procedure_at(probe),
            found matches Some(procedure) ==> procedure.holds(probe),
    {
        self.procedures.find(probe)
    }

    /// What the context holds for the name of a procedure.
    fn procedure_name(&self, procedure: BasicProcedure) -> (found: Lookup<Option<Procedure>>)
        ensures
            found == self@.named(procedure),
    {
        match self.names.get(&procedure.start_rva) {
            Some(name) => Lookup::Done(
                Some(
                    Procedure {
                        procedure_start_rva: procedure.start_rva,
                        function: copy_text(name),
                    },
                ),
            ),
            None => Lookup::Needs(Request::ProcedureName(procedure)),
        }
    }

    /// Resolves an address to its procedure and the procedure's formatted
    /// name. Returns nothing where the address lies in no procedure, and a
    /// request where the context does not hold the name.
    pub fn find_function(&self, probe: u32) -> (found: Lookup<Option<Procedure>>)
        ensures
            self@.wf(),
            found == self@.function_at(probe),
            found matches Lookup::Done(Some(procedure)) ==> procedure.procedure_start_rva <= probe
                && has_start(self@.procedures, procedure.procedure_start_rva),
    {
        match self.lookup_proc(probe) {
            Some(procedure) => {
                proof {
                    let i = enclosing(self@.procedures, probe).unwrap();
                    assert(self@.procedures[i].start_rva == procedure.start_rva);
                }
                self.procedure_name(procedure)
            },
            None => Lookup::Done(None),
        }
    }

    /// What the context holds for the name of a file, where a file is asked for.
    fn file_name(&self, module_index: u16, file_index: Option<u32>) -> (found: Result<
        Option<String>,
        Request,
    >)
        ensures
            match found {
                Ok(name) => self@.file_need(module_index, file_index).is_none() && name
                    == self@.file_of(module_index, file_index),
                Err(request) => self@.file_need(module_index, file_index) == Some(request),
            },
    {
        match file_index {
            Some(file_index) => {
                let key: u64 = (module_index as u64) * 0x1_0000_0000u64 + (file_index as u64);
                match self.file_names.get(&key) {
                    Some(name) => Ok(copy_text(name)),
                    None => Err(Request::FileName { module_index, file_index }),
                }
            },
            None => Ok(None),
        }
    }

    /// What the context holds for the frame of an inline range.
    fn inline_frame(&self, module_index: u16, range: InlineRange) -> (found: Result<Frame, Request>)
        ensures
            match found {
                Ok(frame) => self@.range_need(module_index, range).is_none() && frame
                    == self@.range_frame(module_index, range),
                Err(request) => self@.range_need(module_index, range) == Some(request),
            },
    {
        let function = match self.inlinee_names.get(&range.inlinee) {
            Some(name) => copy_text(name),
            None => {
                return Err(Request::InlineeName { inlinee: range.inlinee });
            },
        };
        match self.file_name(module_index, range.file_index) {
            Ok(file) => Ok(Frame { function, file, line: range.line_start }),
            Err(request) => Err(request),
        }
    }

    /// What the context holds for the frame of the procedure itself.
    fn procedure_frame(&self, procedure: BasicProcedure, probe: u32) -> (found: Result<
        Frame,
        Request,
    >)
        ensures
            match found {
                Ok(frame) => self@.outer_need(procedure, probe).is_none() && frame
                    == self@.outer_frame(procedure, probe),
                Err(request) => self@.outer_need(procedure, probe) == Some(request),
            },
    {
        let function = match self.names.get(&procedure.start_rva) {
            Some(name) => copy_text(name),
            None => {
                return Err(Request::ProcedureName(procedure));
            },
        };
        let lines = match self.lines.get(&procedure.start_rva) {
            Some(lines) => lines,
            None => {
                return Err(Request::ProcedureLines(procedure));
            },
        };
        assert(self@.lines.contains_key(procedure.start_rva));
        match lines.find(probe) {
            Some(line) => {
                match self.file_name(procedure.module_index, Some(line.file_index)) {
                    Ok(file) => Ok(Frame { function, file, line: Some(line.line_start) }),
                    Err(request) => Err(request),
                }
            },
            None => Ok(Frame { function, file: None, line: None }),
        }
    }

    /// Resolves an address to the call stack at its instruction: the frame of
    /// the procedure that holds the address and, before it, the frames of the
    /// calls that were inlined there, the innermost first. Returns nothing
    /// where the address lies in no procedure, and a request where the
    /// context does not hold a piece that the frames need.
    pub fn find_frames(&self, probe: u32) -> (found: Lookup<Option<ProcedureFrames>>)
        ensures
            self@.wf(),
            stack_view(found) == self@.frames_at(probe),
    {
        let procedure = match self.lookup_proc(probe) {
            Some(procedure) => procedure,
            None => {
                return Lookup::Done(None);
            },
        };
        let outer = match self.procedure_frame(procedure, probe) {
            Ok(frame) => frame,
            Err(request) => {
                return Lookup::Needs(request);
            },
        };
        let table = match self.inline_ranges.get(&procedure.start_rva) {
            Some(table) => table,
            None => {
                return Lookup::Needs(Request::ProcedureSymbols(procedure));
            },
        };
        assert(self@.inline_ranges.contains_key(procedure.start_rva));
        let ghost ranges = table@;
        let ghost whole = inline_chain(ranges, 0, 0, probe);
        let ghost mut walked: Seq<int> = Seq::empty();
        let mut stack: Vec<Frame> = Vec::new();
        stack.push(outer);
        let mut lo: usize = 0;
        let mut call_depth: u64 = 0;
        let mut searching: bool = true;
        proof {
            assert(whole =~= walked + inline_chain(ranges, 0, 0, probe));
            assert(stack@ =~= seq![outer] + self@.chain_frames(
                procedure.module_index,
                ranges,
                walked,
            ));
        }
        while searching
            invariant
                self@.wf(),
                self@.procedure_at(probe) == Some(procedure),
                self@.outer_need(procedure, probe).is_none(),
                self@.inline_ranges.contains_key(procedure.start_rva),
                ranges == table@,
                ranges == self@.inline_ranges[procedure.start_rva],
                whole == inline_chain(ranges, 0, 0, probe),
                call_depth <= lo <= ranges.len(),
                searching ==> whole == walked + inline_chain(
                    ranges,
                    lo as int,
                    call_depth as int,
                    probe,
                ),
                !searching ==> whole == walked,
                self@.chain_need(procedure.module_index, ranges, walked).is_none(),
                stack@ == seq![outer] + self@.chain_frames(procedure.module_index, ranges, walked),
            decreases ranges.len() - lo + (if searching { 1int } else { 0int }),
        {
            match table.find(lo, call_depth, probe) {
                Some((i, range)) => {
                    let ghost rest = inline_chain(ranges, i + 1, call_depth + 1, probe);
                    let ghost longer = walked.push(i as int);
                    proof {
                        assert(whole =~= longer + rest);
                        assert(longer.drop_last() =~= walked);
                    }
                    match self.inline_frame(procedure.module_index, range) {
                        Ok(frame) => {
                            stack.push(frame);
                            proof {
                                assert(stack@ =~= seq![outer] + self@.chain_frames(
                                    procedure.module_index,
                                    ranges,
                                    longer,
                                ));
                                walked = longer;
                            }
                            lo = i + 1;
                            call_depth = call_depth + 1;
                        },
                        Err(request) => {
                            proof {
                                assert(self@.chain_need(procedure.module_index, ranges, longer)
                                    == Some(request));
                                self@.lemma_need_stays(
                                    procedure.module_index,
                                    ranges,
                                    longer,
                                    rest,
                                );
                            }
                            return Lookup::Needs(request);
                        },
                    }
                },
                None => {
                    searching = false;
                    proof {
                        assert(whole =~= walked);
                    }
                },
            }
        }
        let frames = innermost_first(stack);
        Lookup::Done(Some(ProcedureFrames { procedure_start_rva: procedure.start_rva, frames }))
    }

    /// Hands over the formatted name of the procedure that starts at
    /// `procedure_start_rva`; no name where the procedure could not be
    /// formatted. It is kept unless the context holds one already.
    pub fn provide_procedure_name(&mut self, procedure_start_rva: u32, name: Option<String>)
        ensures
            final(self)@.extends(old(self)@),
            final(self)@ == old(self)@.with_name(procedure_start_rva, name),
    {
        if !self.names.contains_key(&procedure_start_rva) {
            self.names.insert(procedure_start_rva, name);
        }
        proof {
            assert(self@ =~= old(self)@.with_name(procedure_start_rva, name));
        }
    }

    /// Hands over the formatted name of the inlined function with the id
    /// `inlinee`; no name where the function could not be formatted. It is
    /// kept unless the context holds one already.
    pub fn provide_inlinee_name(&mut self, inlinee: u32, name: Option<String>)
        ensures
            final(self)@.extends(old(self)@),
            final(self)@ == old(self)@.with_inlinee_name(inlinee, name),
    {
        if !self.inlinee_names.contains_key(&inlinee) {
            self.inlinee_names.insert(inlinee, name);
        }
        proof {
            assert(self@ =~= old(self)@.with_inlinee_name(inlinee, name));
        }
    }

    /// Hands over the name of the file `file_index` of the module
    /// `module_index`; no name where the file has none that can be read. It
    /// is kept unless the context holds one already.
    pub fn provide_file_name(&mut self, module_index: u16, file_index: u32, name: Option<String>)
        ensures
            final(self)@.extends(old(self)@),
            final(self)@ == old(self)@.with_file_name(module_index, file_index, name),
    {
        let key: u64 = (module_index as u64) * 0x1_0000_0000u64 + (file_index as u64);
        if !self.file_names.contains_key(&key) {
            self.file_names.insert(key, name);
        }
        proof {
            assert forall|file: (u16, u32)| file != (module_index, file_index) implies file_key(
                file.0,
                file.1,
            ) != key by {}
            assert(self@.file_names =~= old(self)@.with_file_name(
                module_index,
                file_index,
                name,
            ).file_names);
            assert(self@ =~= old(self)@.with_file_name(module_index, file_index, name));
        }
    }

    /// Hands over the line records of the procedure that starts at
    /// `procedure_start_rva`. Unless the context holds a table for the
    /// procedure already, they are sorted by start address, records with one
    /// start address staying in the order given, and kept.
    pub fn provide_procedure_lines(&mut self, procedure_start_rva: u32, lines: &Vec<CachedLine>)
        ensures
            final(self)@.extends(old(self)@),
            old(self)@.lines.contains_key(procedure_start_rva) ==> final(self)@ == old(self)@,
            !old(self)@.lines.contains_key(procedure_start_rva) ==> {
                &&& final(self)@.lines.contains_key(procedure_start_rva)
                &&& is_stable_sort(lines@, final(self)@.lines[procedure_start_rva])
                &&& is_sorted(final(self)@.lines[procedure_start_rva])
                &&& final(self)@ == old(self)@.with_lines(
                    procedure_start_rva,
                    final(self)@.lines[procedure_start_rva],
                )
            },
    {
        if !self.lines.contains_key(&procedure_start_rva) {
            let table = LineTable::new(lines);
            let ghost sorted = table@;
            self.lines.insert(procedure_start_rva, table);
            proof {
                lemma_stable_sort_is_sorted(lines@, sorted);
                assert(self@.lines =~= old(self)@.lines.insert(procedure_start_rva, sorted));
                assert(self@ =~= old(self)@.with_lines(procedure_start_rva, sorted));
            }
        } else {
            proof {
                assert(self@ =~= old(self)@);
            }
        }
    }

    /// Hands over the symbol records that follow the record of the procedure
    /// that starts at `procedure_start_rva`. Unless the index has no such
    /// procedure or the context holds an inline-range table for it already,
    /// the table is built from the records and kept.
    pub fn provide_procedure_symbols(
        &mut self,
        procedure_start_rva: u32,
        symbols: &Vec<SymbolRecord>,
    )
        ensures
            final(self)@.extends(old(self)@),
            match procedure_starting_at(old(self)@.procedures, procedure_start_rva) {
                Some(procedure) => if old(self)@.inline_ranges.contains_key(procedure_start_rva) {
                    final(self)@ == old(self)@
                } else {
                    &&& final(self)@.inline_ranges.contains_key(procedure_start_rva)
                    &&& is_stable_sort(
                        collected_ranges(symbols@, procedure.end_symbol_index),
                        final(self)@.inline_ranges[procedure_start_rva],
                    )
                    &&& is_sorted(final(self)@.inline_ranges[procedure_start_rva])
                    &&& is_chained(final(self)@.inline_ranges[procedure_start_rva])
                    &&& final(self)@ == old(self)@.with_inline_ranges(
                        procedure_start_rva,
                        final(self)@.inline_ranges[procedure_start_rva],
                    )
                },
                None => final(self)@ == old(self)@,
            },
    {
        match self.procedures.find_start(procedure_start_rva) {
            Some(procedure) => {
                if !self.inline_ranges.contains_key(&procedure_start_rva) {
                    let table = InlineRangeTable::build(symbols, procedure.end_symbol_index);
                    let ghost sorted = table@;
                    self.inline_ranges.insert(procedure_start_rva, table);
                    proof {
                        assert(self@.inline_ranges =~= old(self)@.inline_ranges.insert(
                            procedure_start_rva,
                            sorted,
                        ));
                        assert(self@ =~= old(self)@.with_inline_ranges(
                            procedure_start_rva,
                            sorted,
                        ));
                    }
                } else {
                    proof {
                        assert(self@ =~= old(self)@);
                    }
                }
            },
            None => {
                proof {
                    assert(self@ =~= old(self)@);
                }
            },
        }
    }
}

impl ContextView {
    /// A chain that needs a piece needs the same piece however it goes on.
    pub proof fn lemma_need_stays(
        self,
        module_index: u16,
        ranges: Seq<InlineRange>,
        chain: Seq<int>,
        more: Seq<int>,
    )
        requires
            self.chain_need(module_index, ranges, chain).is_some(),
        ensures
            self.chain_need(module_index, ranges, chain + more) == self.chain_need(
                module_index,
                ranges,
                chain,
            ),
        decreases more.len(),
    {
        if more.len() == 0 {
            assert(chain + more =~= chain);
        } else {
            self.lemma_need_stays(module_index, ranges, chain, more.drop_last());
            assert((chain + more).drop_last() =~= chain + more.drop_last());
        }
    }
}

/// An iteration over the procedures of a context, in ascending order of
/// their start addresses.
pub struct ProcedureIter {
    cur_index: usize,
}

impl View for ProcedureIter {
    type V = nat;

    /// The number of procedures that the iteration has yielded.
    closed spec fn view(&self) -> nat {
        self.cur_index as nat
    }
}

impl ProcedureIter {
    /// Yields the next procedure of the index of `context` with its formatted
    /// name, or nothing at the end. Where the context does not hold the name,
    /// it returns a request and stays where it is.
    pub fn next(&mut self, context: &Context) -> (found: Lookup<Option<Procedure>>)
        ensures
            context@.wf(),
            found == context@.listing_at(old(self)@),
            final(self)@ == if found matches Lookup::Done(Some(_)) {
                old(self)@ + 1
            } else {
                old(self)@
            },
    {
        let procedure = match context.procedures.get(self.cur_index) {
            Some(procedure) => procedure,
            None => {
                return Lookup::Done(None);
            },
        };
        let found = context.procedure_name(procedure);
        match &found {
            Lookup::Done(_) => {
                self.cur_index = self.cur_index + 1;
            },
            Lookup::Needs(_) => {},
        }
        found
    }
}

} // verus!
