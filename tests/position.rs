use filament::position::{span_lines, FileIdx, GPosIdx, PosData, PosIdx, PositionTable};

#[test]
fn new_table_holds_the_unknown_position() {
    let table = PositionTable::new();
    assert_eq!(table.pos_count(), 1);
    assert_eq!(*table.get_pos(PosIdx(0)), PosData { file: FileIdx(0), start: 0, end: 0 });
    assert_eq!(table.get_file_data(FileIdx(0)), ("unknown", ""));
}

#[test]
fn files_and_spans_are_recorded() {
    let mut table = PositionTable::new();
    let f = table.add_file("main.fil".to_string(), "comp main<G>() {}\n".to_string());
    assert_eq!(f, FileIdx(1));
    assert_eq!(f.get(), 1);
    let g = table.add_file("lib.fil".to_string(), "extern".to_string());
    assert_eq!(g.get(), 2);
    let p = table.add_pos(f, 5, 9);
    assert_eq!(p, PosIdx(1));
    assert_eq!(*table.get_pos(p), PosData { file: f, start: 5, end: 9 });
    assert_eq!(table.get_file_info(p), ("main.fil", "comp main<G>() {}\n"));
    assert_eq!(table.get_file_data(g), ("lib.fil", "extern"));
}

#[test]
fn unknown_position_is_none() {
    assert_eq!(GPosIdx::unknown().into_option(), None);
    let p = GPosIdx(PosIdx(3));
    assert_eq!(p.into_option(), Some(p));
}

#[test]
fn span_lines_finds_covered_lines() {
    // "abc\n\nhello": lines start at 0, 4 and 5.
    let lens = vec![3usize, 0, 5];
    assert_eq!(span_lines(&lens, 5, 8), Some((2, 2, 5)));
    assert_eq!(span_lines(&lens, 1, 6), Some((0, 2, 0)));
    assert_eq!(span_lines(&lens, 4, 4), Some((1, 1, 4)));
    assert_eq!(span_lines(&lens, 1, 2), Some((0, 0, 0)));
    // The span ends on the first line, but starts past it.
    assert_eq!(span_lines(&lens, 9, 2), None);
    assert_eq!(span_lines(&vec![0usize], 0, 0), Some((0, 0, 0)));
}
