//! A library for inspecting the raw bytes of a file as a grid of typed
//! numeric values in a terminal-sized area.
//!
//! The library computes how many value columns fit in a given width, cuts
//! one row of the area into precisely positioned address/data/border
//! regions, reinterprets a byte buffer as a sequence of typed elements,
//! formats each element in a fixed-width decimal or hexadecimal form (with
//! a scientific-notation form for floating-point data), and maintains a
//! scrollable viewport over the virtual grid.  Every function is given a
//! contract and verified; terminal painting and file reading are left to
//! the surrounding binary.

pub mod file_picker;
pub mod utils;
pub mod viewer;
