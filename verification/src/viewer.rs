//! The viewer shell: the active type/base/byte-order selection, the
//! two-keystroke chord that picks a data type, and the routing of
//! movement keys to the viewport.

pub mod codec;
pub mod common_dt;
pub mod file_viewer;

use vstd::prelude::*;

use common_dt::{DataType, DisplayType, Endianness};
use file_viewer::{FileViewer, FileViewerState};

verus! {

/// A key press, as the viewer cares about it.
#[derive(Clone, Copy, Debug, PartialEq, Eq, Structural)]
pub enum KeyPress {
    Char(char),
    Up,
    Down,
    Left,
    Right,
    Home,
    End,
    PageUp,
    PageDown,
    Esc,
    Other,
}

/// The modifier set held with a key press; only an exact Control or
/// Shift matters to the viewer.
#[derive(Clone, Copy, Debug, PartialEq, Eq, Structural)]
pub enum KeyMods {
    Plain,
    Control,
    Shift,
    Other,
}

/// What the viewer asks of its caller after a key press.  Going back to
/// file selection hands over the directory to start in, one path
/// component per element.
pub enum ViewerContainerEvent {
    Quit,
    Poll,
    SelectFile(Vec<String>),
}

/// Where the viewer stands in the type-selection chord: at rest, waiting
/// for a category key, or waiting for a width key after a category.
#[derive(Clone, Copy, Debug, PartialEq, Eq, Structural)]
pub enum ActionMode {
    Normal,
    SelectDataType(Option<KeyPress>),
}

/// The viewer and everything that drives it: the viewed file's path (one
/// component per element), the chord state, the grid viewer and its
/// viewport, and the active type, base and byte order.
pub struct ViewerContainer {
    pub file: Vec<String>,
    pub action_mode: ActionMode,
    pub file_viewer: FileViewer,
    pub file_viewer_state: FileViewerState,
    pub data_type: DataType,
    pub display_type: DisplayType,
    pub endianness: Endianness,
}

/// Which data type a completed chord selects: the category key (`u`,
/// `i`, `f`) followed by a width key.
pub open spec fn spec_chord_type(cat: KeyPress, key: KeyPress) -> Option<DataType> {
    match (cat, key) {
        (KeyPress::Char('u'), KeyPress::Char('1')) => Some(DataType::U8),
        (KeyPress::Char('i'), KeyPress::Char('1')) => Some(DataType::I8),
        (KeyPress::Char('u'), KeyPress::Char('2')) => Some(DataType::U16),
        (KeyPress::Char('i'), KeyPress::Char('2')) => Some(DataType::I16),
        (KeyPress::Char('u'), KeyPress::Char('3')) => Some(DataType::U32),
        (KeyPress::Char('i'), KeyPress::Char('3')) => Some(DataType::I32),
        (KeyPress::Char('u'), KeyPress::Char('4')) => Some(DataType::U64),
        (KeyPress::Char('i'), KeyPress::Char('4')) => Some(DataType::I64),
        (KeyPress::Char('f'), KeyPress::Char('1')) => Some(DataType::F32),
        (KeyPress::Char('f'), KeyPress::Char('2')) => Some(DataType::F64),
        _ => None,
    }
}

/// Whether a key starts a chord as a category key.
pub open spec fn spec_chord_category(key: KeyPress) -> bool {
    key == KeyPress::Char('u') || key == KeyPress::Char('i') || key == KeyPress::Char('f')
}

/// Whether a key at rest quits the viewer.
pub open spec fn spec_quit_key(mods: KeyMods, key: KeyPress) -> bool {
    ||| key == KeyPress::Esc
    ||| key == KeyPress::Char('q')
    ||| (mods == KeyMods::Control && (key == KeyPress::Char('c') || key == KeyPress::Char('C')))
}

/// Everything one key at rest does: which event comes back and the whole
/// new state, for every key.  A key that no arm names leaves the state
/// unchanged and polls on.
pub open spec fn spec_normal_keys_post(
    pre: ViewerContainer,
    post: ViewerContainer,
    r: ViewerContainerEvent,
    mods: KeyMods,
    key: KeyPress,
) -> bool {
    if spec_quit_key(mods, key) {
        &&& r is Quit
        &&& post == pre
    } else if mods == KeyMods::Control && key == KeyPress::Char('f') {
        &&& post == pre
        &&& match r {
            ViewerContainerEvent::SelectFile(dir) => dir@ == pre.file@.take(
                if pre.file@.len() > 0 {
                    pre.file@.len() - 1
                } else {
                    0
                },
            ),
            _ => false,
        }
    } else {
        &&& r is Poll
        &&& if mods == KeyMods::Control && key == KeyPress::Char('t') {
            post == (ViewerContainer {
                action_mode: ActionMode::SelectDataType(None),
                ..pre
            })
        } else if key == KeyPress::Char('d') {
            post == (ViewerContainer {
                display_type: DisplayType::Decimal,
                file_viewer: (FileViewer { display_type: DisplayType::Decimal, ..pre.file_viewer }),
                ..pre
            })
        } else if key == KeyPress::Char('x') {
            post == (ViewerContainer {
                display_type: DisplayType::HexaDecimal,
                file_viewer: (FileViewer {
                    display_type: DisplayType::HexaDecimal,
                    ..pre.file_viewer
                }),
                ..pre
            })
        } else if mods == KeyMods::Shift && key == KeyPress::Char('L') {
            post == (ViewerContainer {
                endianness: Endianness::Little,
                file_viewer: (FileViewer { endianness: Endianness::Little, ..pre.file_viewer }),
                ..pre
            })
        } else if mods == KeyMods::Shift && key == KeyPress::Char('B') {
            post == (ViewerContainer {
                endianness: Endianness::Big,
                file_viewer: (FileViewer { endianness: Endianness::Big, ..pre.file_viewer }),
                ..pre
            })
        } else if key == KeyPress::Char('j') || key == KeyPress::Down {
            post == (ViewerContainer {
                file_viewer_state: pre.file_viewer_state.spec_move_down(),
                ..pre
            })
        } else if key == KeyPress::Char('k') || key == KeyPress::Up {
            post == (ViewerContainer {
                file_viewer_state: pre.file_viewer_state.spec_move_up(),
                ..pre
            })
        } else if key == KeyPress::Char('h') || key == KeyPress::Left {
            post == (ViewerContainer {
                file_viewer_state: pre.file_viewer_state.spec_move_left(),
                ..pre
            })
        } else if key == KeyPress::Char('l') || key == KeyPress::Right {
            post == (ViewerContainer {
                file_viewer_state: pre.file_viewer_state.spec_move_right(),
                ..pre
            })
        } else if mods == KeyMods::Control && key == KeyPress::Home {
            post == (ViewerContainer {
                file_viewer_state: pre.file_viewer_state.spec_goto_top(),
                ..pre
            })
        } else if mods == KeyMods::Control && key == KeyPress::End {
            post == (ViewerContainer {
                file_viewer_state: pre.file_viewer_state.spec_goto_bottom(),
                ..pre
            })
        } else if key == KeyPress::Home {
            post == (ViewerContainer {
                file_viewer_state: pre.file_viewer_state.spec_goto_start(),
                ..pre
            })
        } else if key == KeyPress::End {
            post == (ViewerContainer {
                file_viewer_state: pre.file_viewer_state.spec_goto_end(),
                ..pre
            })
        } else if key == KeyPress::PageUp {
            post == (ViewerContainer {
                file_viewer_state: pre.file_viewer_state.spec_scroll_up(),
                ..pre
            })
        } else if key == KeyPress::PageDown {
            post == (ViewerContainer {
                file_viewer_state: pre.file_viewer_state.spec_scroll_down(),
                ..pre
            })
        } else {
            post == pre
        }
    }
}

/// Everything one key does while the chord is open: a category key arms
/// it, a width key after a category resolves to a concrete type, and
/// anything else cancels back to rest; the viewport and file never move.
pub open spec fn spec_dt_keys_post(
    pre: ViewerContainer,
    post: ViewerContainer,
    r: ViewerContainerEvent,
    key: KeyPress,
) -> bool {
    &&& r is Poll
    &&& match pre.action_mode {
        ActionMode::SelectDataType(Some(cat)) => match spec_chord_type(cat, key) {
            Some(dt) => post == (ViewerContainer {
                action_mode: ActionMode::Normal,
                data_type: dt,
                file_viewer: (FileViewer { data_type: dt, ..pre.file_viewer }),
                ..pre
            }),
            None => post == (ViewerContainer { action_mode: ActionMode::Normal, ..pre }),
        },
        _ => post == (ViewerContainer {
            action_mode: (if spec_chord_category(key) {
                ActionMode::SelectDataType(Some(key))
            } else {
                ActionMode::Normal
            }),
            ..pre
        }),
    }
}

impl ViewerContainer {
    /// The viewport invariant carried through key handling.
    pub open spec fn inv(self) -> bool {
        self.file_viewer_state.inv()
    }

    /// Take over the path of the file to view.
    pub fn with_file(self, file: Vec<String>) -> (r: Self)
        ensures
            r == (ViewerContainer { file, ..self }),
    {
        ViewerContainer { file, ..self }
    }

    /// Route one key press: the rest-state key map while at rest, the
    /// chord steps while selecting a data type.
    pub fn handle_key(&mut self, mods: KeyMods, key: KeyPress) -> (r: ViewerContainerEvent)
        requires
            old(self).inv(),
        ensures
            final(self).inv(),
            match old(self).action_mode {
                ActionMode::Normal => spec_normal_keys_post(
                    *old(self),
                    *final(self),
                    r,
                    mods,
                    key,
                ),
                ActionMode::SelectDataType(_) => spec_dt_keys_post(
                    *old(self),
                    *final(self),
                    r,
                    key,
                ),
            },
    {
        let in_chord = match self.action_mode {
            ActionMode::Normal => false,
            ActionMode::SelectDataType(_) => true,
        };
        if in_chord {
            self.handle_dt_keys(mods, key)
        } else {
            self.handle_normal_keys(mods, key)
        }
    }

    /// Keys at rest: quit, display base, endianness, the chord trigger,
    /// going back to file selection with the parent directory, and the
    /// viewport movements.
    pub fn handle_normal_keys(&mut self, mods: KeyMods, key: KeyPress) -> (r:
        ViewerContainerEvent)
        requires
            old(self).inv(),
        ensures
            final(self).inv(),
            spec_normal_keys_post(*old(self), *final(self), r, mods, key),
    {
        match (mods, key) {
            (_, KeyPress::Esc) => {
                return ViewerContainerEvent::Quit;
            },
            (_, KeyPress::Char('q')) => {
                return ViewerContainerEvent::Quit;
            },
            (KeyMods::Control, KeyPress::Char('c')) => {
                return ViewerContainerEvent::Quit;
            },
            (KeyMods::Control, KeyPress::Char('C')) => {
                return ViewerContainerEvent::Quit;
            },
            (KeyMods::Control, KeyPress::Char('f')) => {
                let mut parent: Vec<String> = Vec::new();
                let mut i: usize = 0;
                let fl = self.file.len();
                while fl > 0 && i < fl - 1
                    invariant
                        fl == 0 || i <= fl - 1,
                        i <= fl,
                        fl == self.file@.len(),
                        parent@.len() == i,
                        forall|j: int| 0 <= j < i ==> parent@[j] == self.file@[j],
                    decreases fl - i,
                {
                    parent.push(self.file[i].clone());
                    i = i + 1;
                }
                proof {
                    assert(parent@ =~= self.file@.take(
                        if self.file@.len() > 0 {
                            self.file@.len() - 1
                        } else {
                            0
                        },
                    ));
                }
                return ViewerContainerEvent::SelectFile(parent);
            },
            (KeyMods::Control, KeyPress::Char('t')) => {
                self.action_mode = ActionMode::SelectDataType(None);
            },
            (_, KeyPress::Char('d')) => {
                self.display_type = DisplayType::Decimal;
                self.file_viewer.set_display_type(DisplayType::Decimal);
            },
            (_, KeyPress::Char('x')) => {
                self.display_type = DisplayType::HexaDecimal;
                self.file_viewer.set_display_type(DisplayType::HexaDecimal);
            },
            (KeyMods::Shift, KeyPress::Char('L')) => {
                self.endianness = Endianness::Little;
                self.file_viewer.set_endianness(Endianness::Little);
            },
            (KeyMods::Shift, KeyPress::Char('B')) => {
                self.endianness = Endianness::Big;
                self.file_viewer.set_endianness(Endianness::Big);
            },
            (_, KeyPress::Char('j')) => self.file_viewer_state.move_down(),
            (_, KeyPress::Down) => self.file_viewer_state.move_down(),
            (_, KeyPress::Char('k')) => self.file_viewer_state.move_up(),
            (_, KeyPress::Up) => self.file_viewer_state.move_up(),
            (_, KeyPress::Char('h')) => self.file_viewer_state.move_left(),
            (_, KeyPress::Left) => self.file_viewer_state.move_left(),
            (_, KeyPress::Char('l')) => self.file_viewer_state.move_right(),
            (_, KeyPress::Right) => self.file_viewer_state.move_right(),
            (KeyMods::Control, KeyPress::Home) => self.file_viewer_state.goto_top(),
            (KeyMods::Control, KeyPress::End) => self.file_viewer_state.goto_bottom(),
            (_, KeyPress::Home) => self.file_viewer_state.goto_start(),
            (_, KeyPress::End) => self.file_viewer_state.goto_end(),
            (_, KeyPress::PageUp) => self.file_viewer_state.scroll_up(),
            (_, KeyPress::PageDown) => self.file_viewer_state.scroll_down(),
            _ => {},
        }
        ViewerContainerEvent::Poll
    }

    /// The type-selection chord: a category key arms it, a width key
    /// resolves to a concrete type, and anything else cancels back to
    /// rest; every path ends the chord or arms it freshly, so no stuck
    /// state exists.
    pub fn handle_dt_keys(&mut self, mods: KeyMods, key: KeyPress) -> (r: ViewerContainerEvent)
        requires
            old(self).inv(),
        ensures
            final(self).inv(),
            spec_dt_keys_post(*old(self), *final(self), r, key),
    {
        let armed: Option<KeyPress> = match self.action_mode {
            ActionMode::SelectDataType(Some(x)) => Some(x),
            _ => None,
        };
        match armed {
            Some(x) => {
                match (x, key) {
                    (KeyPress::Char('u'), KeyPress::Char('1')) => {
                        self.data_type = DataType::U8;
                        self.file_viewer.set_data_type(DataType::U8);
                    },
                    (KeyPress::Char('i'), KeyPress::Char('1')) => {
                        self.data_type = DataType::I8;
                        self.file_viewer.set_data_type(DataType::I8);
                    },
                    (KeyPress::Char('u'), KeyPress::Char('2')) => {
                        self.data_type = DataType::U16;
                        self.file_viewer.set_data_type(DataType::U16);
                    },
                    (KeyPress::Char('i'), KeyPress::Char('2')) => {
                        self.data_type = DataType::I16;
                        self.file_viewer.set_data_type(DataType::I16);
                    },
                    (KeyPress::Char('u'), KeyPress::Char('3')) => {
                        self.data_type = DataType::U32;
                        self.file_viewer.set_data_type(DataType::U32);
                    },
                    (KeyPress::Char('i'), KeyPress::Char('3')) => {
                        self.data_type = DataType::I32;
                        self.file_viewer.set_data_type(DataType::I32);
                    },
                    (KeyPress::Char('u'), KeyPress::Char('4')) => {
                        self.data_type = DataType::U64;
                        self.file_viewer.set_data_type(DataType::U64);
                    },
                    (KeyPress::Char('i'), KeyPress::Char('4')) => {
                        self.data_type = DataType::I64;
                        self.file_viewer.set_data_type(DataType::I64);
                    },
                    (KeyPress::Char('f'), KeyPress::Char('1')) => {
                        self.data_type = DataType::F32;
                        self.file_viewer.set_data_type(DataType::F32);
                    },
                    (KeyPress::Char('f'), KeyPress::Char('2')) => {
                        self.data_type = DataType::F64;
                        self.file_viewer.set_data_type(DataType::F64);
                    },
                    _ => {
                        self.action_mode = ActionMode::Normal;
                    },
                }
                self.action_mode = ActionMode::Normal;
            },
            None => {
                match key {
                    KeyPress::Char('u') => {
                        self.action_mode = ActionMode::SelectDataType(Some(key));
                    },
                    KeyPress::Char('i') => {
                        self.action_mode = ActionMode::SelectDataType(Some(key));
                    },
                    KeyPress::Char('f') => {
                        self.action_mode = ActionMode::SelectDataType(Some(key));
                    },
                    _ => {
                        self.action_mode = ActionMode::Normal;
                    },
                }
            },
        }
        ViewerContainerEvent::Poll
    }
}

impl Default for ViewerContainer {
    /// A fresh viewer: no file, at rest, everything on its default.
    fn default() -> (r: Self)
        ensures
            r.file@.len() == 0,
            r.action_mode == ActionMode::Normal,
            r.data_type == DataType::U8,
            r.display_type == DisplayType::Decimal,
            r.endianness == Endianness::Little,
            r.file_viewer_state == (FileViewerState {
                row_offset: 0,
                col_offset: 0,
                cols: 0,
                rows: 0,
                total_rows: 0,
                set_cols: None,
            }),
            r.inv(),
    {
        ViewerContainer {
            file: Vec::new(),
            action_mode: ActionMode::Normal,
            file_viewer: FileViewer::default(),
            file_viewer_state: FileViewerState::default(),
            data_type: DataType::U8,
            display_type: DisplayType::Decimal,
            endianness: Endianness::Little,
        }
    }
}

} // verus!
