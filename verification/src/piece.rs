use vstd::prelude::*;

verus! {

/// The two stone colors. Black moves first.
#[derive(Clone, Copy, PartialEq, Eq, Structural, Debug, Hash)]
pub enum PieceColor {
    Black,
    White,
}

/// The color on the other side of the board: Black <-> White.
pub open spec fn opposite_color(c: PieceColor) -> PieceColor {
    match c {
        PieceColor::Black => PieceColor::White,
        PieceColor::White => PieceColor::Black,
    }
}

impl PieceColor {
    /// Swaps Black and White.
    pub fn opposite(&self) -> (r: Self)
        ensures
            r == opposite_color(*self),
    {
        match self {
            PieceColor::Black => PieceColor::White,
            PieceColor::White => PieceColor::Black,
        }
    }
}

/// A stone, described by its color alone.
#[derive(Clone, Copy, PartialEq, Eq, Structural, Debug, Hash)]
pub struct Piece {
    pub color: PieceColor,
}

/// A stone together with the board coordinate it occupies (or is to be
/// played at). Compared structurally.
#[derive(Clone, Copy, PartialEq, Eq, Debug, Hash)]
pub struct PlacedPiece {
    pub piece: Piece,
    pub pos: (u8, u8),
}

impl PlacedPiece {
    pub fn new(color: PieceColor, pos: (u8, u8)) -> (r: Self)
        ensures
            r == (PlacedPiece { piece: Piece { color }, pos }),
    {
        PlacedPiece { piece: Piece { color }, pos }
    }
}

/// The classification of one orthogonal neighbor of a cell: an occupying
/// stone, an empty cell, or off the edge of the board.
#[derive(Clone, Copy, PartialEq, Eq, Debug, Hash)]
pub enum PieceAdjacency {
    Piece(PlacedPiece),
    Empty((u8, u8)),
    Edge,
}

impl PieceAdjacency {
    /// The occupying stone, if this neighbor holds one.
    pub fn piece(&self) -> (r: Option<PlacedPiece>)
        ensures
            r == (match *self {
                PieceAdjacency::Piece(p) => Some(p),
                _ => None::<PlacedPiece>,
            }),
    {
        match self {
            PieceAdjacency::Piece(p) => Some(*p),
            _ => None,
        }
    }

    /// Forgets the payload, keeping only which kind of neighbor this is.
    pub fn as_type(self) -> (r: PieceAdjacencyType)
        ensures
            r == (match self {
                PieceAdjacency::Piece(_) => PieceAdjacencyType::Piece,
                PieceAdjacency::Empty(_) => PieceAdjacencyType::Empty,
                PieceAdjacency::Edge => PieceAdjacencyType::Edge,
            }),
    {
        match self {
            PieceAdjacency::Piece(_) => PieceAdjacencyType::Piece,
            PieceAdjacency::Empty(_) => PieceAdjacencyType::Empty,
            PieceAdjacency::Edge => PieceAdjacencyType::Edge,
        }
    }
}

/// The kind of a neighbor classification, without its payload.
#[derive(Clone, Copy, PartialEq, Eq, Structural, Debug, Hash)]
pub enum PieceAdjacencyType {
    Piece,
    Empty,
    Edge,
}

} // verus!
