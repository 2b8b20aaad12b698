use pdb_addr2line::{
    BasicProcedure, CachedLine, Context, Frame, InlineeLine, Lookup, Procedure, ProcedureFrames,
    ProcedureSymbol, Request, SymbolData, SymbolRecord,
};
use std::collections::BTreeMap;

/// The debug information of a small program, as a decoder would hand it out.
struct Program {
    records: Vec<ProcedureSymbol>,
    names: BTreeMap<u32, Option<String>>,
    lines: BTreeMap<u32, Vec<CachedLine>>,
    symbols: BTreeMap<u32, Vec<SymbolRecord>>,
    inlinees: BTreeMap<u32, Option<String>>,
    files: BTreeMap<(u16, u32), Option<String>>,
    served: Vec<Request>,
}

fn text(value: &str) -> Option<String> {
    Some(value.to_string())
}

fn record_at(module_index: u16, symbol_index: u32, rva: u32, len: u32) -> ProcedureSymbol {
    ProcedureSymbol {
        module_index,
        symbol_index,
        end_symbol_index: symbol_index + 1000,
        len,
        section: 1,
        offset: rva - 0x1000,
        rva: Some(rva),
        type_index: 0x1000,
    }
}

fn entry_at(module_index: u16, symbol_index: u32, rva: u32, len: u32) -> BasicProcedure {
    BasicProcedure {
        start_rva: rva,
        end_rva: rva as u64 + len as u64,
        module_index,
        symbol_index,
        end_symbol_index: symbol_index + 1000,
        section: 1,
        offset: rva - 0x1000,
        type_index: 0x1000,
    }
}

fn cached(start_rva: u32, file_index: u32, line_start: u32) -> CachedLine {
    CachedLine { start_rva, file_index, line_start }
}

fn inlinee_line(start_rva: u32, length: u32, file_index: u32, line_start: u32) -> InlineeLine {
    InlineeLine { start_rva, length: Some(length), file_index, line_start }
}

fn inline_site(index: u32, end: u32, inlinee: u32, lines: Vec<InlineeLine>) -> SymbolRecord {
    SymbolRecord { index, data: SymbolData::InlineSite { end, inlinee, lines } }
}

fn plain(index: u32) -> SymbolRecord {
    SymbolRecord { index, data: SymbolData::Other }
}

fn frame(function: &str, file: &str, line: u32) -> Frame {
    Frame { function: text(function), file: text(file), line: Some(line) }
}

fn sample() -> Program {
    let mut program = Program {
        records: vec![
            record_at(0, 100, 0x1000, 0x80),
            record_at(0, 2000, 0x2000, 0x100),
            record_at(1, 100, 0x4000, 0x40),
        ],
        names: BTreeMap::new(),
        lines: BTreeMap::new(),
        symbols: BTreeMap::new(),
        inlinees: BTreeMap::new(),
        files: BTreeMap::new(),
        served: Vec::new(),
    };
    program.names.insert(0x1000, text("main"));
    program.names.insert(0x2000, text("caller"));
    program.names.insert(0x4000, None);
    program.lines.insert(0x1000, vec![cached(0x1004, 1, 10), cached(0x1010, 1, 12)]);
    program.lines.insert(
        0x2000,
        vec![cached(0x2000, 10, 5), cached(0x2010, 10, 7), cached(0x2040, 10, 22)],
    );
    program.lines.insert(0x4000, vec![cached(0x4000, 77, 1)]);
    program.symbols.insert(0x1000, vec![plain(110), plain(1100)]);
    program.symbols.insert(
        0x2000,
        vec![
            inline_site(2020, 2200, 0x1001, vec![inlinee_line(0x2010, 0x10, 20, 40)]),
            plain(2200),
            inline_site(2210, 2300, 0x1002, vec![inlinee_line(0x2040, 0x20, 30, 9)]),
            inline_site(2230, 2280, 0x1003, vec![inlinee_line(0x2048, 8, 30, 3)]),
            plain(2280),
            plain(2300),
            inline_site(2310, 2400, 0x1004, vec![inlinee_line(0x2080, 8, 10, 60)]),
            inline_site(2320, 2390, 0x1005, vec![inlinee_line(0x2088, 8, 10, 70)]),
            plain(2390),
            plain(2400),
            plain(3000),
        ],
    );
    program.symbols.insert(0x4000, vec![plain(1100)]);
    program.inlinees.insert(0x1001, text("inlinee_one"));
    program.inlinees.insert(0x1002, text("mid"));
    program.inlinees.insert(0x1003, text("inner"));
    program.inlinees.insert(0x1004, text("parent"));
    program.inlinees.insert(0x1005, None);
    program.files.insert((0, 1), text("main.c"));
    program.files.insert((0, 10), text("caller.c"));
    program.files.insert((0, 20), text("util.c"));
    program.files.insert((0, 30), text("a.c"));
    program.files.insert((1, 77), None);
    program
}

impl Program {
    fn context(&self) -> Context {
        Context::new_from_parts(&self.records)
    }

    fn serve(&mut self, context: &mut Context, request: Request) {
        self.served.push(request);
        match request {
            Request::ProcedureName(procedure) => {
                context.provide_procedure_name(
                    procedure.start_rva,
                    self.names[&procedure.start_rva].clone(),
                );
            }
            Request::ProcedureLines(procedure) => {
                context
                    .provide_procedure_lines(procedure.start_rva, &self.lines[&procedure.start_rva]);
            }
            Request::ProcedureSymbols(procedure) => {
                context.provide_procedure_symbols(
                    procedure.start_rva,
                    &self.symbols[&procedure.start_rva],
                );
            }
            Request::InlineeName { inlinee } => {
                context.provide_inlinee_name(inlinee, self.inlinees[&inlinee].clone());
            }
            Request::FileName { module_index, file_index } => {
                context.provide_file_name(
                    module_index,
                    file_index,
                    self.files[&(module_index, file_index)].clone(),
                );
            }
        }
    }

    fn frames(&mut self, context: &mut Context, probe: u32) -> Option<ProcedureFrames> {
        for _ in 0..100 {
            match context.find_frames(probe) {
                Lookup::Done(found) => return found,
                Lookup::Needs(request) => self.serve(context, request),
            }
        }
        panic!("the lookup does not come to an end");
    }

    fn function(&mut self, context: &mut Context, probe: u32) -> Option<Procedure> {
        for _ in 0..100 {
            match context.find_function(probe) {
                Lookup::Done(found) => return found,
                Lookup::Needs(request) => self.serve(context, request),
            }
        }
        panic!("the lookup does not come to an end");
    }
}

#[test]
fn frames_of_code_that_is_not_inlined() {
    let mut program = sample();
    let mut context = program.context();
    assert_eq!(
        program.function(&mut context, 0x1014),
        Some(Procedure { procedure_start_rva: 0x1000, function: text("main") })
    );
    assert_eq!(
        program.frames(&mut context, 0x1014),
        Some(ProcedureFrames {
            procedure_start_rva: 0x1000,
            frames: vec![frame("main", "main.c", 12)]
        })
    );
}

#[test]
fn frames_of_one_inlined_call() {
    let mut program = sample();
    let mut context = program.context();
    assert_eq!(
        program.function(&mut context, 0x2018),
        Some(Procedure { procedure_start_rva: 0x2000, function: text("caller") })
    );
    assert_eq!(
        program.frames(&mut context, 0x2018),
        Some(ProcedureFrames {
            procedure_start_rva: 0x2000,
            frames: vec![frame("inlinee_one", "util.c", 40), frame("caller", "caller.c", 7)],
        })
    );
}

#[test]
fn frames_of_a_chain_of_two_inlined_calls() {
    let mut program = sample();
    let mut context = program.context();
    assert_eq!(
        program.frames(&mut context, 0x204a),
        Some(ProcedureFrames {
            procedure_start_rva: 0x2000,
            frames: vec![
                frame("inner", "a.c", 3),
                frame("mid", "a.c", 9),
                frame("caller", "caller.c", 22)
            ],
        })
    );
    // Beside the inner call only the outer one is left.
    assert_eq!(
        program.frames(&mut context, 0x2050),
        Some(ProcedureFrames {
            procedure_start_rva: 0x2000,
            frames: vec![frame("mid", "a.c", 9), frame("caller", "caller.c", 22)],
        })
    );
}

#[test]
fn frames_in_a_hole_between_procedures() {
    let mut program = sample();
    let mut context = program.context();
    assert_eq!(program.function(&mut context, 0x1800), None);
    assert_eq!(program.frames(&mut context, 0x1800), None);
    assert_eq!(program.served, Vec::new());
}

#[test]
fn frames_at_the_start_of_folded_procedures() {
    let mut program = sample();
    program.records = vec![
        record_at(0, 100, 0x4000, 0x40),
        record_at(1, 100, 0x4000, 0x40),
        record_at(2, 100, 0x4000, 0x40),
    ];
    program.names.insert(0x4000, text("last_twin"));
    program.files.insert((2, 77), text("twin.c"));
    let mut context = program.context();
    assert_eq!(
        program.frames(&mut context, 0x4000),
        Some(ProcedureFrames {
            procedure_start_rva: 0x4000,
            frames: vec![frame("last_twin", "twin.c", 1)]
        })
    );
    // Every request named the record that was met last.
    assert_eq!(program.served[0], Request::ProcedureName(entry_at(2, 100, 0x4000, 0x40)));
    assert_eq!(program.served[1], Request::ProcedureLines(entry_at(2, 100, 0x4000, 0x40)));
    assert_eq!(program.served[2], Request::FileName { module_index: 2, file_index: 77 });
    assert_eq!(program.served[3], Request::ProcedureSymbols(entry_at(2, 100, 0x4000, 0x40)));
}

#[test]
fn frames_of_a_site_whose_lines_are_missing() {
    let mut program = sample();
    let mut context = program.context();
    // The site of `parent` has lines for 0x2080..0x2088 only; the site nested
    // in it covers 0x2088..0x2090.
    assert_eq!(
        program.frames(&mut context, 0x208c),
        Some(ProcedureFrames {
            procedure_start_rva: 0x2000,
            frames: vec![
                Frame { function: None, file: text("caller.c"), line: Some(70) },
                Frame { function: text("parent"), file: text("caller.c"), line: None },
                frame("caller", "caller.c", 22),
            ],
        })
    );
}

#[test]
fn probe_before_the_first_line_has_no_file_and_no_line() {
    let mut program = sample();
    let mut context = program.context();
    assert_eq!(
        program.frames(&mut context, 0x1002),
        Some(ProcedureFrames {
            procedure_start_rva: 0x1000,
            frames: vec![Frame { function: text("main"), file: None, line: None }],
        })
    );
    assert_eq!(
        program.frames(&mut context, 0x1004),
        Some(ProcedureFrames {
            procedure_start_rva: 0x1000,
            frames: vec![frame("main", "main.c", 10)]
        })
    );
}

#[test]
fn procedure_and_file_without_names() {
    let mut program = sample();
    let mut context = program.context();
    assert_eq!(
        program.frames(&mut context, 0x4010),
        Some(ProcedureFrames {
            procedure_start_rva: 0x4000,
            frames: vec![Frame { function: None, file: None, line: Some(1) }],
        })
    );
}

#[test]
fn lookup_asks_for_the_pieces_in_order() {
    let mut program = sample();
    let mut context = program.context();
    let caller = entry_at(0, 2000, 0x2000, 0x100);
    program.frames(&mut context, 0x204a);
    assert_eq!(
        program.served,
        vec![
            Request::ProcedureName(caller),
            Request::ProcedureLines(caller),
            Request::FileName { module_index: 0, file_index: 10 },
            Request::ProcedureSymbols(caller),
            Request::InlineeName { inlinee: 0x1002 },
            Request::FileName { module_index: 0, file_index: 30 },
            Request::InlineeName { inlinee: 0x1003 },
        ]
    );
}

#[test]
fn second_lookup_asks_for_nothing() {
    let mut program = sample();
    let mut context = program.context();
    for probe in [0x1014u32, 0x2018, 0x204a, 0x208c, 0x4010, 0x1800] {
        let first = program.frames(&mut context, probe);
        assert_eq!(context.find_frames(probe), Lookup::Done(first.clone()));
        assert_eq!(context.find_frames(probe), Lookup::Done(first));
    }
    // Lookups of other addresses in between change nothing.
    let before = program.frames(&mut context, 0x204a);
    program.frames(&mut context, 0x2004);
    program.frames(&mut context, 0x1050);
    assert_eq!(context.find_frames(0x204a), Lookup::Done(before));
}

#[test]
fn frames_agree_with_the_function() {
    let mut program = sample();
    let mut context = program.context();
    for probe in (0xff0..0x4100u32).step_by(3) {
        let function = program.function(&mut context, probe);
        let frames = program.frames(&mut context, probe);
        match (function, frames) {
            (None, None) => {}
            (Some(function), Some(frames)) => {
                assert!(!frames.frames.is_empty());
                assert_eq!(frames.procedure_start_rva, function.procedure_start_rva);
                assert_eq!(frames.frames.last().unwrap().function, function.function);
                assert!(function.procedure_start_rva <= probe);
            }
            (function, frames) => panic!("{:?} and {:?} do not agree", function, frames),
        }
    }
}

#[test]
fn probes_of_one_procedure_have_its_start() {
    let mut program = sample();
    let mut context = program.context();
    let mut probe = 0x2000u32;
    while probe < 0x2100 {
        let frames = program.frames(&mut context, probe).unwrap();
        assert_eq!(frames.procedure_start_rva, 0x2000);
        probe += 1;
    }
}

#[test]
fn lines_are_searched_in_ascending_order_of_their_starts() {
    let mut program = sample();
    program.lines.insert(
        0x1000,
        vec![
            cached(0x1040, 1, 40),
            cached(0x1010, 1, 11),
            cached(0x1020, 1, 20),
            cached(0x1010, 1, 12),
            cached(0x1000, 1, 1),
        ],
    );
    let mut context = program.context();
    let line_at = |program: &mut Program, context: &mut Context, probe: u32| {
        program.frames(context, probe).unwrap().frames[0].line
    };
    assert_eq!(line_at(&mut program, &mut context, 0x1000), Some(1));
    assert_eq!(line_at(&mut program, &mut context, 0x100f), Some(1));
    // Of two records with one start the later one is found.
    assert_eq!(line_at(&mut program, &mut context, 0x1010), Some(12));
    assert_eq!(line_at(&mut program, &mut context, 0x101f), Some(12));
    assert_eq!(line_at(&mut program, &mut context, 0x1020), Some(20));
    assert_eq!(line_at(&mut program, &mut context, 0x103f), Some(20));
    assert_eq!(line_at(&mut program, &mut context, 0x1040), Some(40));
    assert_eq!(line_at(&mut program, &mut context, 0x107f), Some(40));
}

#[test]
fn procedure_without_lines_has_no_file_and_no_line() {
    let mut program = sample();
    program.lines.insert(0x1000, Vec::new());
    let mut context = program.context();
    assert_eq!(
        program.frames(&mut context, 0x1010),
        Some(ProcedureFrames {
            procedure_start_rva: 0x1000,
            frames: vec![Frame { function: text("main"), file: None, line: None }],
        })
    );
}

#[test]
fn pieces_that_were_provided_first_stay() {
    let mut program = sample();
    let mut context = program.context();
    let expected = program.frames(&mut context, 0x2018);
    context.provide_procedure_name(0x2000, text("other"));
    context.provide_procedure_lines(0x2000, &vec![cached(0x2000, 1, 999)]);
    context.provide_procedure_symbols(0x2000, &Vec::new());
    context.provide_inlinee_name(0x1001, None);
    context.provide_file_name(0, 10, text("other.c"));
    context.provide_file_name(0, 20, None);
    assert_eq!(context.find_frames(0x2018), Lookup::Done(expected));
}

#[test]
fn symbols_of_a_procedure_that_the_index_lacks_are_ignored() {
    let mut program = sample();
    let mut context = program.context();
    context.provide_procedure_symbols(
        0x2004,
        &vec![inline_site(2020, 2200, 0x1001, vec![inlinee_line(0x2010, 0x10, 20, 40)])],
    );
    context.provide_procedure_symbols(0x9000, &Vec::new());
    assert_eq!(
        program.frames(&mut context, 0x2018),
        Some(ProcedureFrames {
            procedure_start_rva: 0x2000,
            frames: vec![frame("inlinee_one", "util.c", 40), frame("caller", "caller.c", 7)],
        })
    );
    assert!(program.served.contains(&Request::ProcedureSymbols(entry_at(0, 2000, 0x2000, 0x100))));
}

#[test]
fn files_of_two_modules_are_kept_apart() {
    let mut program = sample();
    program.records.push(record_at(1, 5000, 0x6000, 0x10));
    program.names.insert(0x6000, text("elsewhere"));
    program.lines.insert(0x6000, vec![cached(0x6000, 10, 3)]);
    program.symbols.insert(0x6000, Vec::new());
    program.files.insert((1, 10), text("elsewhere.c"));
    let mut context = program.context();
    assert_eq!(
        program.frames(&mut context, 0x2004),
        Some(ProcedureFrames {
            procedure_start_rva: 0x2000,
            frames: vec![frame("caller", "caller.c", 5)]
        })
    );
    assert_eq!(
        program.frames(&mut context, 0x6004),
        Some(ProcedureFrames {
            procedure_start_rva: 0x6000,
            frames: vec![frame("elsewhere", "elsewhere.c", 3)]
        })
    );
}

#[test]
fn range_without_a_file_has_none() {
    let mut program = sample();
    program.symbols.insert(
        0x1000,
        vec![
            inline_site(110, 900, 0x1001, Vec::new()),
            inline_site(120, 800, 0x1003, vec![inlinee_line(0x1020, 4, 1, 33)]),
            plain(800),
            plain(900),
        ],
    );
    let mut context = program.context();
    assert_eq!(
        program.frames(&mut context, 0x1021),
        Some(ProcedureFrames {
            procedure_start_rva: 0x1000,
            frames: vec![
                frame("inner", "main.c", 33),
                Frame { function: text("inlinee_one"), file: None, line: None },
                frame("main", "main.c", 12),
            ],
        })
    );
}

#[test]
fn range_that_ends_at_the_probe_does_not_hold_it() {
    let mut program = sample();
    let mut context = program.context();
    let outer_only = |line: u32| {
        Some(ProcedureFrames {
            procedure_start_rva: 0x2000,
            frames: vec![frame("caller", "caller.c", line)],
        })
    };
    assert_eq!(program.frames(&mut context, 0x200f), outer_only(5));
    assert_eq!(program.frames(&mut context, 0x2020), outer_only(7));
    assert_eq!(program.frames(&mut context, 0x203f), outer_only(7));
    assert_eq!(program.frames(&mut context, 0x2060), outer_only(22));
}
