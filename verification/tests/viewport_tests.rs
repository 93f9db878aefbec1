use hexer::viewer::file_viewer::FileViewerState;

fn state(
    row_offset: usize,
    col_offset: usize,
    cols: usize,
    rows: usize,
    total_rows: usize,
    set_cols: Option<usize>,
) -> FileViewerState {
    FileViewerState { row_offset, col_offset, cols, rows, total_rows, set_cols }
}

#[test]
fn move_down_clamps_to_last_page() {
    let mut st = state(0, 0, 8, 4, 6, None);
    st.move_down();
    assert_eq!(st.row_offset, 1);
    st.move_down();
    assert_eq!(st.row_offset, 2);
    st.move_down();
    assert_eq!(st.row_offset, 2);
}

#[test]
fn move_down_is_a_no_op_when_all_fits() {
    let mut st = state(0, 0, 8, 10, 6, None);
    st.move_down();
    assert_eq!(st.row_offset, 0);
}

#[test]
fn move_up_stops_at_top() {
    let mut st = state(1, 0, 8, 4, 6, None);
    st.move_up();
    assert_eq!(st.row_offset, 0);
    st.move_up();
    assert_eq!(st.row_offset, 0);
}

#[test]
fn horizontal_moves_need_pinned_columns() {
    let mut st = state(0, 0, 4, 4, 10, None);
    st.move_right();
    assert_eq!(st.col_offset, 0);
    st.move_left();
    assert_eq!(st.col_offset, 0);
    let mut st = state(0, 0, 4, 4, 10, Some(6));
    st.move_right();
    assert_eq!(st.col_offset, 1);
    st.move_right();
    assert_eq!(st.col_offset, 2);
    st.move_right();
    assert_eq!(st.col_offset, 2);
    st.move_left();
    assert_eq!(st.col_offset, 1);
}

#[test]
fn goto_jumps() {
    let mut st = state(3, 1, 4, 4, 10, Some(6));
    st.goto_top();
    assert_eq!(st.row_offset, 0);
    st.goto_bottom();
    assert_eq!(st.row_offset, 6);
    st.goto_start();
    assert_eq!(st.col_offset, 0);
    st.goto_end();
    assert_eq!(st.col_offset, 2);
}

#[test]
fn goto_bottom_then_move_down_is_a_no_op() {
    let mut st = state(2, 0, 8, 4, 20, None);
    st.goto_bottom();
    let bottom = st.row_offset;
    st.move_down();
    assert_eq!(st.row_offset, bottom);
    // and when everything fits on one page
    let mut st = state(0, 0, 8, 10, 5, None);
    st.goto_bottom();
    let bottom = st.row_offset;
    st.move_down();
    assert_eq!(st.row_offset, bottom);
}

#[test]
fn scroll_moves_half_pages() {
    let mut st = state(0, 0, 8, 10, 40, None);
    st.scroll_down();
    assert_eq!(st.row_offset, 5);
    st.scroll_down();
    assert_eq!(st.row_offset, 10);
    st.scroll_up();
    assert_eq!(st.row_offset, 5);
    st.scroll_up();
    assert_eq!(st.row_offset, 0);
    st.scroll_up();
    assert_eq!(st.row_offset, 0);
}

#[test]
fn scroll_down_snaps_to_end() {
    let mut st = state(24, 0, 8, 10, 40, None);
    st.scroll_down();
    assert_eq!(st.row_offset, 29);
    st.scroll_down();
    assert_eq!(st.row_offset, 30);
    st.scroll_down();
    assert_eq!(st.row_offset, 30);
}

#[test]
fn scroll_down_clamps_when_under_half_a_page_is_left() {
    // four rows below the page: less than the half page of five, so the
    // shift snaps straight to the end
    let mut st = state(0, 0, 8, 10, 14, None);
    st.scroll_down();
    assert_eq!(st.row_offset, 4);
    st.scroll_down();
    assert_eq!(st.row_offset, 4);
}

#[test]
fn scroll_down_is_a_no_op_when_all_fits() {
    let mut st = state(0, 0, 8, 10, 8, None);
    st.scroll_down();
    assert_eq!(st.row_offset, 0);
}

#[test]
fn viewport_invariant_under_operation_sequences() {
    // the row offset stays within [0, max(0, total_rows - rows)] after
    // every operation of an arbitrary mixed sequence
    let mut st = state(0, 0, 8, 4, 11, Some(12));
    let bound = st.total_rows - st.rows;
    let col_bound = 12 - st.cols;
    for step in 0..40usize {
        match step % 8 {
            0 => st.move_down(),
            1 => st.scroll_down(),
            2 => st.move_up(),
            3 => st.goto_bottom(),
            4 => st.move_right(),
            5 => st.goto_end(),
            6 => st.scroll_up(),
            _ => st.move_left(),
        }
        assert!(st.row_offset <= bound);
        assert!(st.col_offset <= col_bound);
    }
}

#[test]
fn default_viewport_is_at_origin() {
    let st = FileViewerState::default();
    assert_eq!(st.row_offset, 0);
    assert_eq!(st.col_offset, 0);
    assert_eq!(st.cols, 0);
    assert_eq!(st.rows, 0);
    assert_eq!(st.total_rows, 0);
    assert_eq!(st.set_cols, None);
}
