use vstd::prelude::*;
use crate::piece::PieceColor;
use crate::pos::Pos;

verus! {

/// Why a candidate move is illegal.
#[derive(Clone, Copy, PartialEq, Eq, Structural, Debug, Hash)]
pub enum InvalidMoveError {
    /// The target cell already holds a stone.
    AlreadyOccupied,
    /// After resolving captures the played group would have no liberties.
    SelfCapture,
    /// The move would recreate the position before the previous move.
    Ko,
    /// The stated color is not the color whose turn it is; `turn` says whose it is.
    NotYourTurn { turn: PieceColor },
}

/// Every failure the engine reports.
#[derive(Clone, Copy, PartialEq, Eq, Structural, Debug, Hash)]
pub enum BadukError {
    /// A move was rejected; `source` says why.
    InvalidMove { source: InvalidMoveError },
    /// A coordinate lies outside the 19x19 grid.
    PosOutOfBounds { pos: Pos },
    /// A history index exceeds the length of the move history.
    MoveIndexOutOfBounds { history_size: usize },
}

} // verus!
