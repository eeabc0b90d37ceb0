//! The choices that the game's user interfaces offer.

use vstd::prelude::*;

verus! {

/// How the contour of the board is drawn: not at all, as lines, or as polygons.
#[derive(Debug, Clone, Copy, PartialEq, Eq, Structural)]
pub enum LineMode {
    NoLine,
    Line,
    Polygon,
}

/// Which behavior tree source the editor shows.
#[derive(Debug, Clone, Copy, PartialEq, Eq, Structural)]
pub enum BTEditor {
    Agent,
    Spawner,
}

} // verus!
