use hexer::utils::previous_power_of_two;
use hexer::viewer::common_dt::{DataType, DisplayType};
use hexer::viewer::file_viewer::{simple_layout_solver, FileViewer, Region};

fn area(x: u16, y: u16, width: u16, height: u16) -> Region {
    Region { x, y, width, height }
}

#[test]
fn previous_power_of_two_rounds_down() {
    assert_eq!(previous_power_of_two(0), 0);
    assert_eq!(previous_power_of_two(1), 1);
    assert_eq!(previous_power_of_two(2), 2);
    assert_eq!(previous_power_of_two(3), 2);
    assert_eq!(previous_power_of_two(5), 4);
    assert_eq!(previous_power_of_two(8), 8);
    assert_eq!(previous_power_of_two(1000), 512);
    assert_eq!(previous_power_of_two(u16::MAX), 32768);
}

#[test]
fn calc_cols_counts_are_powers_of_two() {
    let mut v = FileViewer::default();
    // unsigned bytes in decimal: each column takes 3 + 3 characters
    let (cols, data_width, data_size) = v.calc_cols(&area(0, 0, 62, 10));
    assert_eq!((cols, data_width, data_size), (8, 6, 1));
    // raw fit of 9..15 columns still yields 8
    let (cols, _, _) = v.calc_cols(&area(0, 0, 100, 10));
    assert_eq!(cols, 8);
    let (cols, _, _) = v.calc_cols(&area(0, 0, 110, 10));
    assert_eq!(cols, 16);
    v.set_display_type(DisplayType::HexaDecimal);
    // hex bytes: 2 + 3 characters per column
    let (cols, data_width, _) = v.calc_cols(&area(0, 0, 54, 10));
    assert_eq!((cols, data_width), (8, 5));
    v.set_data_type(DataType::F64);
    let (cols, data_width, data_size) = v.calc_cols(&area(0, 0, 100, 10));
    assert_eq!((cols, data_width, data_size), (4, 11, 8));
}

#[test]
fn calc_cols_degenerates_to_zero_columns() {
    let v = FileViewer::default();
    let (cols, _, _) = v.calc_cols(&area(0, 0, 13, 10));
    assert_eq!(cols, 0);
    let (cols, _, _) = v.calc_cols(&area(0, 0, 19, 10));
    assert_eq!(cols, 0);
    let (cols, _, _) = v.calc_cols(&area(0, 0, 20, 10));
    assert_eq!(cols, 1);
}

#[test]
fn solver_lays_out_one_row() {
    // 62 wide, 8 columns of 6: 13 + 48 used, 1 left over, no gap fits
    let rects = simple_layout_solver(&area(0, 3, 62, 10), 8, 1, 6);
    assert_eq!(rects.len(), 10);
    assert_eq!(rects[0], Region { x: 0, y: 3, width: 12, height: 1 });
    for i in 0..8u16 {
        assert_eq!(
            rects[(i + 1) as usize],
            Region { x: 12 + i * 6, y: 3, width: 6, height: 1 }
        );
    }
    assert_eq!(rects[9], Region { x: 60, y: 3, width: 1, height: 1 });
}

#[test]
fn solver_spreads_leftover_width_evenly() {
    // 71 wide, 8 columns of 6: 13 + 48 used, 10 left: gap 1, remainder 1
    // becomes a front margin of 0 (half of it)
    let rects = simple_layout_solver(&area(0, 0, 71, 1), 8, 1, 6);
    assert_eq!(rects[0], Region { x: 0, y: 0, width: 12, height: 1 });
    assert_eq!(rects[1], Region { x: 13, y: 0, width: 6, height: 1 });
    assert_eq!(rects[2], Region { x: 20, y: 0, width: 6, height: 1 });
    assert_eq!(rects[9], Region { x: 69, y: 0, width: 1, height: 1 });
}

#[test]
fn solver_keeps_everything_inside_the_area() {
    for width in [20u16, 33, 47, 62, 80, 121, 200] {
        let v = FileViewer::default();
        let a = area(5, 0, width, 4);
        let (cols, dw, _) = v.calc_cols(&a);
        let rects = simple_layout_solver(&a, cols, 1, dw);
        assert_eq!(rects.len() as u16, cols + 2);
        for r in rects.iter() {
            assert!(r.x >= 5);
            assert!(r.x + r.width <= 5 + width);
        }
        // regions come in order and never overlap
        for pair in rects.windows(2) {
            assert!(pair[0].x + pair[0].width <= pair[1].x);
        }
    }
}
