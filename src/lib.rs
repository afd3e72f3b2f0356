//! A line-oriented text editing engine: the line buffer and its edits, the
//! cursor and viewport, selections, undo history, search, word completion
//! and per-character syntax classes.
use vstd::prelude::*;

pub mod autocomplete;
pub mod bindings;
pub mod bytes;
pub mod cursor;
pub mod editor;
pub mod search;
pub mod select;
pub mod syntax;
pub mod text;
pub mod undo;
pub mod utils;

verus! {

} // verus!

