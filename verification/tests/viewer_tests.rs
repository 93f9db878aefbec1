use hexer::file_picker::{FilePickerEvent, FileType};
use hexer::utils::last_n_components;
use hexer::viewer::common_dt::{DataType, DisplayType, Endianness};
use hexer::viewer::{ActionMode, KeyMods, KeyPress, ViewerContainer, ViewerContainerEvent};

fn fresh() -> ViewerContainer {
    ViewerContainer::default()
}

#[test]
fn defaults_match_a_fresh_viewer() {
    let v = fresh();
    assert_eq!(v.data_type, DataType::U8);
    assert_eq!(v.display_type, DisplayType::Decimal);
    assert_eq!(v.endianness, Endianness::Little);
    assert_eq!(v.action_mode, ActionMode::Normal);
    assert_eq!(DataType::default(), DataType::U8);
    assert_eq!(DisplayType::default(), DisplayType::Decimal);
    assert_eq!(Endianness::default(), Endianness::Little);
}

#[test]
fn type_names() {
    assert_eq!(DataType::U8.name(), "U8");
    assert_eq!(DataType::I64.name(), "I64");
    assert_eq!(DataType::F32.name(), "F32");
}

#[test]
fn byte_widths_match_the_catalog() {
    let widths = [
        (DataType::U8, 1),
        (DataType::I8, 1),
        (DataType::U16, 2),
        (DataType::I16, 2),
        (DataType::U32, 4),
        (DataType::I32, 4),
        (DataType::U64, 8),
        (DataType::I64, 8),
        (DataType::F32, 4),
        (DataType::F64, 8),
    ];
    for (dt, w) in widths {
        assert_eq!(dt.byte_width(), w);
    }
}

#[test]
fn display_widths_match_the_catalog() {
    assert_eq!(DataType::U8.display_width(&DisplayType::Decimal), 3);
    assert_eq!(DataType::I8.display_width(&DisplayType::Decimal), 4);
    assert_eq!(DataType::U64.display_width(&DisplayType::Decimal), 20);
    assert_eq!(DataType::U8.display_width(&DisplayType::HexaDecimal), 2);
    assert_eq!(DataType::U64.display_width(&DisplayType::HexaDecimal), 16);
    assert_eq!(DataType::F32.display_width(&DisplayType::Decimal), 14);
    assert_eq!(DataType::F64.display_width(&DisplayType::Decimal), 23);
}

#[test]
fn quit_keys_quit() {
    let mut v = fresh();
    assert!(matches!(
        v.handle_key(KeyMods::Plain, KeyPress::Esc),
        ViewerContainerEvent::Quit
    ));
    let mut v = fresh();
    assert!(matches!(
        v.handle_key(KeyMods::Plain, KeyPress::Char('q')),
        ViewerContainerEvent::Quit
    ));
    let mut v = fresh();
    assert!(matches!(
        v.handle_key(KeyMods::Control, KeyPress::Char('c')),
        ViewerContainerEvent::Quit
    ));
}

#[test]
fn display_and_endianness_keys() {
    let mut v = fresh();
    v.handle_key(KeyMods::Plain, KeyPress::Char('x'));
    assert_eq!(v.display_type, DisplayType::HexaDecimal);
    v.handle_key(KeyMods::Plain, KeyPress::Char('d'));
    assert_eq!(v.display_type, DisplayType::Decimal);
    v.handle_key(KeyMods::Shift, KeyPress::Char('B'));
    assert_eq!(v.endianness, Endianness::Big);
    v.handle_key(KeyMods::Shift, KeyPress::Char('L'));
    assert_eq!(v.endianness, Endianness::Little);
}

#[test]
fn chord_selects_a_data_type() {
    let mut v = fresh();
    v.handle_key(KeyMods::Control, KeyPress::Char('t'));
    assert_eq!(v.action_mode, ActionMode::SelectDataType(None));
    v.handle_key(KeyMods::Plain, KeyPress::Char('f'));
    assert_eq!(v.action_mode, ActionMode::SelectDataType(Some(KeyPress::Char('f'))));
    v.handle_key(KeyMods::Plain, KeyPress::Char('2'));
    assert_eq!(v.action_mode, ActionMode::Normal);
    assert_eq!(v.data_type, DataType::F64);
}

#[test]
fn chord_covers_every_type() {
    let chords = [
        ('u', '1', DataType::U8),
        ('i', '1', DataType::I8),
        ('u', '2', DataType::U16),
        ('i', '2', DataType::I16),
        ('u', '3', DataType::U32),
        ('i', '3', DataType::I32),
        ('u', '4', DataType::U64),
        ('i', '4', DataType::I64),
        ('f', '1', DataType::F32),
        ('f', '2', DataType::F64),
    ];
    for (cat, width, dt) in chords {
        let mut v = fresh();
        v.handle_key(KeyMods::Control, KeyPress::Char('t'));
        v.handle_key(KeyMods::Plain, KeyPress::Char(cat));
        v.handle_key(KeyMods::Plain, KeyPress::Char(width));
        assert_eq!(v.data_type, dt);
        assert_eq!(v.action_mode, ActionMode::Normal);
    }
}

#[test]
fn chord_cancels_on_any_other_key() {
    // an unexpected key while waiting for the category cancels
    let mut v = fresh();
    v.handle_key(KeyMods::Control, KeyPress::Char('t'));
    v.handle_key(KeyMods::Plain, KeyPress::Char('z'));
    assert_eq!(v.action_mode, ActionMode::Normal);
    assert_eq!(v.data_type, DataType::U8);
    // and an unexpected width key after a category cancels too
    let mut v = fresh();
    v.handle_key(KeyMods::Control, KeyPress::Char('t'));
    v.handle_key(KeyMods::Plain, KeyPress::Char('u'));
    v.handle_key(KeyMods::Plain, KeyPress::Char('9'));
    assert_eq!(v.action_mode, ActionMode::Normal);
    assert_eq!(v.data_type, DataType::U8);
}

#[test]
fn movement_keys_reach_the_viewport() {
    let mut v = fresh();
    v.file_viewer_state.total_rows = 10;
    v.file_viewer_state.rows = 4;
    v.handle_key(KeyMods::Plain, KeyPress::Char('j'));
    assert_eq!(v.file_viewer_state.row_offset, 1);
    v.handle_key(KeyMods::Plain, KeyPress::Down);
    assert_eq!(v.file_viewer_state.row_offset, 2);
    v.handle_key(KeyMods::Plain, KeyPress::Char('k'));
    assert_eq!(v.file_viewer_state.row_offset, 1);
    v.handle_key(KeyMods::Control, KeyPress::End);
    assert_eq!(v.file_viewer_state.row_offset, 6);
    v.handle_key(KeyMods::Control, KeyPress::Home);
    assert_eq!(v.file_viewer_state.row_offset, 0);
    v.handle_key(KeyMods::Plain, KeyPress::PageDown);
    assert_eq!(v.file_viewer_state.row_offset, 2);
}

#[test]
fn going_back_to_file_selection_hands_over_the_parent() {
    let mut v = fresh().with_file(vec![
        "home".to_string(),
        "user".to_string(),
        "data.bin".to_string(),
    ]);
    match v.handle_key(KeyMods::Control, KeyPress::Char('f')) {
        ViewerContainerEvent::SelectFile(dir) => {
            assert_eq!(dir, vec!["home".to_string(), "user".to_string()]);
        },
        _ => panic!("expected a file-selection event"),
    }
}

#[test]
fn last_n_components_keeps_the_tail() {
    let path = vec![
        "home".to_string(),
        "user".to_string(),
        "work".to_string(),
        "data.bin".to_string(),
    ];
    let (total, tail) = last_n_components(&path, 3);
    assert_eq!(total, 4);
    assert_eq!(
        tail,
        vec!["user".to_string(), "work".to_string(), "data.bin".to_string()]
    );
    let (total, tail) = last_n_components(&path, 9);
    assert_eq!(total, 4);
    assert_eq!(tail.len(), 4);
    let (_, tail) = last_n_components(&path, 0);
    assert_eq!(tail.len(), 0);
}

#[test]
fn file_picker_events_carry_names() {
    let e = FilePickerEvent::SelectedFile(vec!["data.bin".to_string()]);
    match e {
        FilePickerEvent::SelectedFile(p) => assert_eq!(p, vec!["data.bin".to_string()]),
        _ => panic!("expected a selected file"),
    }
    let d = FileType::Dir("src".to_string());
    assert!(matches!(d, FileType::Dir(_)));
    let f = FileType::File("a.out".to_string());
    assert!(matches!(f, FileType::File(_)));
}
