//! Cursor coordinates and the two directions of a search.
use vstd::prelude::*;

verus! {

/// A location in a document: `x` is the column, counted in characters, and
/// `y` is the index of the row.
#[derive(Clone, Copy, Debug, Default, PartialEq, Eq, Structural)]
pub struct Position {
    pub x: usize,
    pub y: usize,
}

/// The order in which a search visits the candidates.
#[derive(Clone, Copy, Debug, PartialEq, Eq, Structural)]
pub enum SearchDirection {
    Forward,
    Backward,
}

} // verus!
