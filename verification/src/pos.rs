use vstd::prelude::*;
use crate::error::BadukError;
use crate::model::in_bounds;

verus! {

/// A bounds-checked coordinate pair on the 19x19 grid.
#[derive(Clone, Copy, PartialEq, Eq, Structural, Debug, Hash)]
pub struct Pos {
    pub x: u8,
    pub y: u8,
}

impl Pos {
    /// Builds a position, rejecting any coordinate outside [0, 18].
    pub fn new(x: u8, y: u8) -> (r: Result<Self, BadukError>)
        ensures
            in_bounds(x as int, y as int) ==> r == Ok::<Pos, BadukError>(Pos { x, y }),
            !in_bounds(x as int, y as int) ==> r == Err::<Pos, BadukError>(
                BadukError::PosOutOfBounds { pos: Pos { x, y } },
            ),
    {
        let p = Self { x, y };
        if x > 18 || y > 18 {
            Err(BadukError::PosOutOfBounds { pos: p })
        } else {
            Ok(p)
        }
    }
}

} // verus!
