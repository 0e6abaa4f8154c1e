//! The state of a cell boundary.

use vstd::prelude::*;

verus! {

/// What stands on one side of a cell.
#[derive(Debug, Default, Clone, Copy, PartialEq, Eq, Structural)]
pub enum State {
    /// Nothing: the two cells belong to one room.
    #[default]
    Open,
    /// A wall without an opening.
    Solid,
    /// A wall with a doorway.
    Door,
    /// A wall with a window. No rule of the layout produces it.
    Window,
}

} // verus!
