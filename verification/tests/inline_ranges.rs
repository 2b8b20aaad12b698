use pdb_addr2line::{
    compute_procedure_inline_ranges, InlineRange, InlineeLine, SymbolData, SymbolRecord,
};

fn line(start_rva: u32, length: Option<u32>, file_index: u32, line_start: u32) -> InlineeLine {
    InlineeLine { start_rva, length, file_index, line_start }
}

fn site(index: u32, end: u32, inlinee: u32, lines: Vec<InlineeLine>) -> SymbolRecord {
    SymbolRecord { index, data: SymbolData::InlineSite { end, inlinee, lines } }
}

fn procedure(index: u32, end: u32) -> SymbolRecord {
    SymbolRecord { index, data: SymbolData::Procedure { end } }
}

fn other(index: u32) -> SymbolRecord {
    SymbolRecord { index, data: SymbolData::Other }
}

fn range(
    start_rva: u32,
    end_rva: u64,
    call_depth: u64,
    inlinee: u32,
    file_index: Option<u32>,
    line_start: Option<u32>,
) -> InlineRange {
    InlineRange { start_rva, end_rva, call_depth, inlinee, file_index, line_start }
}

#[test]
fn procedure_without_records_has_no_ranges() {
    assert_eq!(compute_procedure_inline_ranges(&Vec::new(), 100), Vec::new());
}

#[test]
fn procedure_without_inline_sites_has_no_ranges() {
    let symbols = vec![other(10), other(20), other(30)];
    assert_eq!(compute_procedure_inline_ranges(&symbols, 30), Vec::new());
}

#[test]
fn site_yields_a_range_for_each_line_with_a_length() {
    let symbols = vec![
        site(10, 50, 0x1001, vec![line(0x2010, Some(0x10), 3, 40), line(0x2030, Some(4), 3, 41)]),
        other(50),
        other(60),
    ];
    assert_eq!(
        compute_procedure_inline_ranges(&symbols, 60),
        vec![
            range(0x2010, 0x2020, 0, 0x1001, Some(3), Some(40)),
            range(0x2030, 0x2034, 0, 0x1001, Some(3), Some(41)),
        ]
    );
}

#[test]
fn line_without_a_length_is_skipped() {
    let symbols = vec![
        site(
            10,
            50,
            7,
            vec![
                line(0x2000, None, 1, 1),
                line(0x2010, Some(0), 2, 2),
                line(0x2020, Some(1), 3, 3),
            ],
        ),
        other(50),
    ];
    assert_eq!(
        compute_procedure_inline_ranges(&symbols, 60),
        vec![range(0x2020, 0x2021, 0, 7, Some(3), Some(3))]
    );
}

#[test]
fn site_without_lines_yields_nothing() {
    let symbols = vec![site(10, 50, 7, Vec::new()), other(50)];
    assert_eq!(compute_procedure_inline_ranges(&symbols, 60), Vec::new());
}

#[test]
fn ranges_are_sorted_by_depth_and_start() {
    let symbols = vec![
        site(10, 100, 1, vec![line(0x5000, Some(0x100), 1, 10)]),
        site(20, 60, 2, vec![line(0x5080, Some(0x10), 1, 20), line(0x5010, Some(0x10), 1, 21)]),
        site(30, 50, 3, vec![line(0x5084, Some(4), 1, 30)]),
        other(50),
        other(60),
        other(100),
        site(110, 150, 4, vec![line(0x4000, Some(0x10), 2, 40)]),
        other(150),
    ];
    assert_eq!(
        compute_procedure_inline_ranges(&symbols, 200),
        vec![
            range(0x4000, 0x4010, 0, 4, Some(2), Some(40)),
            range(0x5000, 0x5100, 0, 1, Some(1), Some(10)),
            range(0x5010, 0x5020, 1, 2, Some(1), Some(21)),
            range(0x5080, 0x5090, 1, 2, Some(1), Some(20)),
            range(0x5084, 0x5088, 2, 3, Some(1), Some(30)),
        ]
    );
}

#[test]
fn ranges_that_agree_in_depth_and_start_keep_their_order() {
    let symbols = vec![
        site(10, 50, 1, vec![line(0x5000, Some(8), 1, 10), line(0x5000, Some(4), 1, 11)]),
        other(50),
        site(60, 90, 2, vec![line(0x5000, Some(2), 1, 12)]),
        other(90),
    ];
    assert_eq!(
        compute_procedure_inline_ranges(&symbols, 200),
        vec![
            range(0x5000, 0x5008, 0, 1, Some(1), Some(10)),
            range(0x5000, 0x5004, 0, 1, Some(1), Some(11)),
            range(0x5000, 0x5002, 0, 2, Some(1), Some(12)),
        ]
    );
}

#[test]
fn nested_procedure_is_skipped() {
    let symbols = vec![
        procedure(10, 60),
        site(20, 50, 9, vec![line(0x9000, Some(0x10), 1, 1)]),
        other(50),
        other(60),
        site(70, 90, 1, vec![line(0x2000, Some(0x10), 1, 2)]),
        other(90),
    ];
    assert_eq!(
        compute_procedure_inline_ranges(&symbols, 100),
        vec![range(0x2000, 0x2010, 0, 1, Some(1), Some(2))]
    );
}

#[test]
fn nested_procedure_inside_a_site_is_skipped() {
    let symbols = vec![
        site(10, 100, 1, vec![line(0x2000, Some(0x40), 1, 2)]),
        procedure(20, 60),
        site(30, 50, 9, vec![line(0x9000, Some(0x10), 1, 1)]),
        other(50),
        other(60),
        site(70, 90, 2, vec![line(0x2010, Some(0x10), 1, 3)]),
        other(90),
        other(100),
    ];
    assert_eq!(
        compute_procedure_inline_ranges(&symbols, 200),
        vec![
            range(0x2000, 0x2040, 0, 1, Some(1), Some(2)),
            range(0x2010, 0x2020, 1, 2, Some(1), Some(3)),
        ]
    );
}

#[test]
fn records_from_the_end_of_the_procedure_on_are_not_read() {
    let symbols = vec![
        site(10, 50, 1, vec![line(0x2000, Some(0x10), 1, 2)]),
        other(50),
        other(100),
        site(110, 150, 2, vec![line(0x3000, Some(0x10), 1, 3)]),
        other(150),
    ];
    assert_eq!(
        compute_procedure_inline_ranges(&symbols, 100),
        vec![range(0x2000, 0x2010, 0, 1, Some(1), Some(2))]
    );
    assert_eq!(compute_procedure_inline_ranges(&symbols, 10), Vec::new());
}

#[test]
fn site_that_follows_a_site_is_not_nested_in_it() {
    let symbols = vec![
        site(10, 50, 1, vec![line(0x2000, Some(0x10), 1, 2)]),
        other(50),
        site(60, 90, 2, vec![line(0x2004, Some(4), 1, 3)]),
        other(90),
    ];
    assert_eq!(
        compute_procedure_inline_ranges(&symbols, 100),
        vec![
            range(0x2000, 0x2010, 0, 1, Some(1), Some(2)),
            range(0x2004, 0x2008, 0, 2, Some(1), Some(3)),
        ]
    );
}

#[test]
fn record_that_closes_a_site_is_read_with_the_site() {
    // The record at index 50 is not before the end of the first site, so the
    // walk through that site reads it and it is not seen as a site of its own.
    let symbols = vec![
        site(10, 50, 1, vec![line(0x2000, Some(0x10), 1, 2)]),
        site(50, 90, 2, vec![line(0x3000, Some(0x10), 1, 3)]),
        site(60, 80, 3, vec![line(0x4000, Some(0x10), 1, 4)]),
        other(80),
    ];
    assert_eq!(
        compute_procedure_inline_ranges(&symbols, 100),
        vec![
            range(0x2000, 0x2010, 0, 1, Some(1), Some(2)),
            range(0x4000, 0x4010, 0, 3, Some(1), Some(4)),
        ]
    );
}

#[test]
fn site_is_given_ranges_for_what_only_its_nested_sites_cover() {
    let symbols = vec![
        site(10, 100, 7, vec![line(0x3000, Some(0x10), 1, 100)]),
        site(
            20,
            90,
            8,
            vec![line(0x3010, Some(0x10), 2, 200), line(0x3030, Some(8), 2, 201)],
        ),
        other(90),
        other(100),
    ];
    assert_eq!(
        compute_procedure_inline_ranges(&symbols, 200),
        vec![
            range(0x3000, 0x3010, 0, 7, Some(1), Some(100)),
            range(0x3010, 0x3020, 0, 7, Some(1), None),
            range(0x3030, 0x3038, 0, 7, Some(1), None),
            range(0x3010, 0x3020, 1, 8, Some(2), Some(200)),
            range(0x3030, 0x3038, 1, 8, Some(2), Some(201)),
        ]
    );
}

#[test]
fn site_without_lines_of_its_own_is_filled_without_a_file() {
    let symbols = vec![
        site(10, 100, 7, Vec::new()),
        site(20, 90, 8, vec![line(0x3010, Some(0x10), 2, 200)]),
        other(90),
        other(100),
    ];
    assert_eq!(
        compute_procedure_inline_ranges(&symbols, 200),
        vec![
            range(0x3010, 0x3020, 0, 7, None, None),
            range(0x3010, 0x3020, 1, 8, Some(2), Some(200)),
        ]
    );
}

#[test]
fn file_of_a_filled_range_is_that_of_the_first_line_with_a_length() {
    let symbols = vec![
        site(
            10,
            100,
            7,
            vec![
                line(0x3000, None, 5, 1),
                line(0x3000, Some(0), 6, 2),
                line(0x3000, Some(4), 11, 3),
                line(0x3004, Some(4), 12, 4),
            ],
        ),
        site(20, 90, 8, vec![line(0x3010, Some(0x10), 2, 200)]),
        other(90),
        other(100),
    ];
    assert_eq!(
        compute_procedure_inline_ranges(&symbols, 200),
        vec![
            range(0x3000, 0x3004, 0, 7, Some(11), Some(3)),
            range(0x3004, 0x3008, 0, 7, Some(12), Some(4)),
            range(0x3010, 0x3020, 0, 7, Some(11), None),
            range(0x3010, 0x3020, 1, 8, Some(2), Some(200)),
        ]
    );
}

#[test]
fn site_that_covers_its_nested_sites_is_not_filled() {
    let symbols = vec![
        site(10, 100, 7, vec![line(0x3000, Some(0x20), 1, 100), line(0x3020, Some(0x20), 1, 101)]),
        site(20, 90, 8, vec![line(0x3010, Some(0x20), 2, 200)]),
        other(90),
        other(100),
    ];
    assert_eq!(
        compute_procedure_inline_ranges(&symbols, 200),
        vec![
            range(0x3000, 0x3020, 0, 7, Some(1), Some(100)),
            range(0x3020, 0x3040, 0, 7, Some(1), Some(101)),
            range(0x3010, 0x3030, 1, 8, Some(2), Some(200)),
        ]
    );
}

#[test]
fn site_is_filled_only_where_it_does_not_cover() {
    let symbols = vec![
        site(10, 100, 7, vec![line(0x3008, Some(0x10), 1, 100)]),
        site(20, 90, 8, vec![line(0x3000, Some(0x20), 2, 200)]),
        other(90),
        other(100),
    ];
    assert_eq!(
        compute_procedure_inline_ranges(&symbols, 200),
        vec![
            range(0x3000, 0x3008, 0, 7, Some(1), None),
            range(0x3008, 0x3018, 0, 7, Some(1), Some(100)),
            range(0x3018, 0x3020, 0, 7, Some(1), None),
            range(0x3000, 0x3020, 1, 8, Some(2), Some(200)),
        ]
    );
}

#[test]
fn stretches_that_touch_are_filled_by_one_range() {
    let symbols = vec![
        site(10, 100, 7, Vec::new()),
        site(
            20,
            50,
            8,
            vec![
                line(0x3010, Some(0x10), 2, 200),
                line(0x3020, Some(8), 2, 201),
                line(0x3024, Some(0x10), 2, 202),
            ],
        ),
        other(50),
        site(60, 90, 9, vec![line(0x3034, Some(4), 2, 300), line(0x3040, Some(4), 2, 301)]),
        other(90),
        other(100),
    ];
    assert_eq!(
        compute_procedure_inline_ranges(&symbols, 200),
        vec![
            range(0x3010, 0x3038, 0, 7, None, None),
            range(0x3040, 0x3044, 0, 7, None, None),
            range(0x3010, 0x3020, 1, 8, Some(2), Some(200)),
            range(0x3020, 0x3028, 1, 8, Some(2), Some(201)),
            range(0x3024, 0x3034, 1, 8, Some(2), Some(202)),
            range(0x3034, 0x3038, 1, 9, Some(2), Some(300)),
            range(0x3040, 0x3044, 1, 9, Some(2), Some(301)),
        ]
    );
}

#[test]
fn filling_reaches_through_every_level() {
    let symbols = vec![
        site(10, 100, 1, Vec::new()),
        site(20, 90, 2, vec![line(0x3000, Some(4), 5, 50)]),
        site(30, 80, 3, vec![line(0x3010, Some(4), 6, 60)]),
        other(80),
        other(90),
        other(100),
    ];
    assert_eq!(
        compute_procedure_inline_ranges(&symbols, 200),
        vec![
            range(0x3000, 0x3004, 0, 1, None, None),
            range(0x3010, 0x3014, 0, 1, None, None),
            range(0x3000, 0x3004, 1, 2, Some(5), Some(50)),
            range(0x3010, 0x3014, 1, 2, Some(5), None),
            range(0x3010, 0x3014, 2, 3, Some(6), Some(60)),
        ]
    );
}

#[test]
fn range_ends_after_the_last_address_where_its_code_does() {
    let symbols = vec![
        site(10, 100, 1, Vec::new()),
        site(20, 90, 2, vec![line(0xffff_fff0, Some(0x20), 5, 50)]),
        other(90),
        other(100),
    ];
    assert_eq!(
        compute_procedure_inline_ranges(&symbols, 200),
        vec![
            range(0xffff_fff0, 0x1_0000_0000, 0, 1, None, None),
            range(0xffff_fff0, 0x1_0000_0010, 1, 2, Some(5), Some(50)),
        ]
    );
}

#[test]
fn line_of_greatest_length_at_the_last_address() {
    let symbols =
        vec![site(10, 100, 1, vec![line(0xffff_ffff, Some(0xffff_ffff), 5, 50)]), other(100)];
    assert_eq!(
        compute_procedure_inline_ranges(&symbols, 200),
        vec![range(0xffff_ffff, 0x1_ffff_fffe, 0, 1, Some(5), Some(50))]
    );
}

#[test]
fn deep_nesting_counts_every_level() {
    let mut symbols = Vec::new();
    let levels = 300u32;
    for level in 0..levels {
        symbols.push(site(
            10 + level,
            10_000 - level,
            level,
            vec![line(0x1000 + level, Some(1), 1, level)],
        ));
    }
    let table = compute_procedure_inline_ranges(&symbols, 20_000);
    // Every site is filled for what the sites nested in it cover: the site at
    // `level` holds the addresses from its own on.
    let mut expected = Vec::new();
    for level in 0..levels {
        let end = 0x1001 + level as u64;
        expected.push(range(0x1000 + level, end, level as u64, level, Some(1), Some(level)));
        if level + 1 < levels {
            expected.push(range(
                0x1001 + level,
                0x1000 + levels as u64,
                level as u64,
                level,
                Some(1),
                None,
            ));
        }
    }
    assert_eq!(table, expected);
}
