use vstd::prelude::*;

verus! {

/// Every failure the engine reports. All errors are values returned to the
/// immediate caller; no operation panics.
#[derive(Clone, Copy, Debug, PartialEq, Eq, Structural)]
pub enum GameError {
    /// Board or session construction was asked for a size below 2.
    InvalidSize,
    /// A coordinate lies outside `[0, size)` on either axis.
    OutOfBounds,
    /// A tile was to be placed on a cell that already holds one.
    CellOccupied,
    /// A relocation or merge named a source cell that holds no tile.
    SourceEmpty,
    /// A relocation named a destination cell that already holds a tile.
    DestinationOccupied,
    /// A merge named a destination that does not hold a tile of the same
    /// value as the source.
    ValueMismatch,
    /// A tile spawn was requested while the board is full.
    NoEmptyPosition,
    /// A move was requested after the session reached `Won` or `Lost`.
    GameAlreadyOver,
    /// A request was malformed in a way only a caller bug can produce,
    /// such as merging a cell into itself.
    InvalidArgument,
}

} // verus!
