//! Types exchanged with the directory browser that picks the file to view.
//!
//! The browser itself walks the filesystem and paints a list, which is the
//! surrounding binary's job; the library only fixes the vocabulary of the
//! exchange.

use vstd::prelude::*;

verus! {

/// One entry of the listed directory, by name.
#[derive(Debug)]
pub enum FileType {
    File(String),
    Dir(String),
}

/// What the file picker asks of its caller after a key press.  A chosen
/// file is handed over as its path, one component per element.
pub enum FilePickerEvent {
    Quit,
    Poll,
    SelectedFile(Vec<String>),
}

} // verus!
