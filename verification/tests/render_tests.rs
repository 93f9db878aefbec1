use hexer::viewer::common_dt::{DataType, DisplayType, Endianness};
use hexer::viewer::file_viewer::{FileViewer, FileViewerState, Placement, Region};

fn area(x: u16, y: u16, width: u16, height: u16) -> Region {
    Region { x, y, width, height }
}

fn same_placements(a: &[Placement], b: &[Placement]) -> bool {
    a.len() == b.len()
        && a.iter().zip(b.iter()).all(|(p, q)| {
            p.region == q.region && p.text == q.text && p.header == q.header
        })
}

#[test]
fn render_measures_the_viewport() {
    // the spec's scenario: 64 bytes of unsigned bytes in decimal, with a
    // terminal fitting exactly eight columns
    let mut v = FileViewer::default();
    v.set_content((0u8..64).collect());
    let mut st = FileViewerState::default();
    v.render(&area(0, 0, 62, 6), &mut st);
    assert_eq!(st.cols, 8);
    assert_eq!(st.rows, 4);
    assert_eq!(st.total_rows, 8);
    st.goto_bottom();
    assert_eq!(st.row_offset, 4);
}

#[test]
fn render_emits_header_addresses_and_cells() {
    let mut v = FileViewer::default();
    v.set_content(vec![0, 1, 2, 3, 4, 5, 6, 7, 8, 9]);
    let mut st = FileViewerState::default();
    let out = v.render(&area(0, 0, 62, 4), &mut st);
    assert_eq!(st.cols, 8);
    assert_eq!(st.rows, 2);
    assert_eq!(st.total_rows, 1);
    // header: address label and eight column labels; then two rows with
    // an address label each; ten cells, but the second row stops after
    // two cells
    assert_eq!(out.len(), (1 + 8) + (1 + 8) + (1 + 2));
    assert_eq!(out[0].text, " Address ");
    assert!(out[0].header);
    assert_eq!(out[1].text, "0");
    assert_eq!(out[8].text, "7");
    let addr0 = &out[9];
    assert_eq!(addr0.text, " 00000000 ");
    assert_eq!(addr0.region.y, 1);
    assert_eq!(out[10].text, "  0₁₀");
    assert!(!out[10].header);
    assert_eq!(out[17].text, "  7₁₀");
    let addr1 = &out[18];
    assert_eq!(addr1.text, " 00000008 ");
    assert_eq!(addr1.region.y, 2);
    assert_eq!(out[19].text, "  8₁₀");
    assert_eq!(out[20].text, "  9₁₀");
}

#[test]
fn render_stops_at_the_exhausted_row() {
    let mut v = FileViewer::default();
    v.set_content(vec![1, 2, 3]);
    let mut st = FileViewerState::default();
    let out = v.render(&area(0, 0, 62, 8), &mut st);
    assert_eq!(st.rows, 6);
    // header (9), first row address + 3 cells, nothing after
    assert_eq!(out.len(), 9 + 1 + 3);
}

#[test]
fn render_empty_content_shows_one_empty_row() {
    let mut v = FileViewer::default();
    v.set_content(Vec::new());
    let mut st = FileViewerState::default();
    let out = v.render(&area(0, 0, 62, 5), &mut st);
    assert_eq!(st.total_rows, 0);
    // header plus the first row's address label, where content ends at once
    assert_eq!(out.len(), 9 + 1);
}

#[test]
fn render_too_narrow_emits_nothing() {
    let mut v = FileViewer::default();
    v.set_content(vec![1, 2, 3]);
    let mut st = FileViewerState::default();
    let out = v.render(&area(0, 0, 10, 5), &mut st);
    assert_eq!(out.len(), 0);
    assert_eq!(st.cols, 0);
    assert_eq!(st.total_rows, 0);
}

#[test]
fn render_respects_endianness_and_type() {
    let mut v = FileViewer::default();
    v.set_content(vec![0x01, 0x02]);
    v.set_data_type(DataType::U16);
    v.set_display_type(DisplayType::HexaDecimal);
    let mut st = FileViewerState::default();
    let out = v.render(&area(0, 0, 30, 3), &mut st);
    // width 30 with 4+3 per column: two columns fit, one element exists
    assert_eq!(st.cols, 2);
    let cell = out.iter().find(|p| !p.header && p.text.contains('₁')).unwrap();
    assert_eq!(cell.text, "0201₁₆");
    v.set_endianness(Endianness::Big);
    let mut st = FileViewerState::default();
    let out = v.render(&area(0, 0, 30, 3), &mut st);
    let cell = out.iter().find(|p| !p.header && p.text.contains('₁')).unwrap();
    assert_eq!(cell.text, "0102₁₆");
}

#[test]
fn render_reclamps_a_stale_viewport() {
    // a scrolled viewport survives a type change; the next redraw clamps
    // it back into range at once
    let mut v = FileViewer::default();
    v.set_content((0u8..64).collect());
    let mut st = FileViewerState::default();
    v.render(&area(0, 0, 62, 6), &mut st);
    st.goto_bottom();
    assert_eq!(st.row_offset, 4);
    v.set_data_type(DataType::U64);
    v.render(&area(0, 0, 110, 6), &mut st);
    // eight-byte elements in one column row of four: total rows shrank
    assert!(st.row_offset <= st.total_rows.saturating_sub(st.rows));
}

#[test]
fn render_twice_is_identical() {
    // redraw is idempotent: with no intervening change the placements
    // and the measured state repeat exactly
    let mut v = FileViewer::default();
    v.set_content((0u8..32).collect());
    v.set_data_type(DataType::I16);
    let mut st = FileViewerState::default();
    st.row_offset = 1;
    st.total_rows = 100;
    let first = v.render(&area(2, 1, 75, 7), &mut st);
    let st_after_first = st;
    let second = v.render(&area(2, 1, 75, 7), &mut st);
    assert_eq!(st, st_after_first);
    assert!(same_placements(&first, &second));
}

#[test]
fn render_with_pinned_columns_scrolls_horizontally() {
    let mut v = FileViewer::default();
    v.set_content((0u8..64).collect());
    let mut st = FileViewerState { set_cols: Some(16), ..FileViewerState::default() };
    let out = v.render(&area(0, 0, 62, 4), &mut st);
    assert_eq!(st.cols, 8);
    assert_eq!(st.total_rows, 4);
    st.goto_end();
    assert_eq!(st.col_offset, 8);
    let _ = out;
}
