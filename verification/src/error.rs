//! Why the library turns an input down.

use vstd::prelude::*;

verus! {

/// The two ways in which a caller's input can be wrong.
#[derive(Clone, Copy, Debug, PartialEq, Eq, Structural)]
pub enum GameError {
    /// More mines than tiles were asked for, or a mine lies off the grid.
    InvalidConfiguration,
    /// The tile to uncover lies off the grid.
    IndexOutOfBounds,
}

} // verus!
