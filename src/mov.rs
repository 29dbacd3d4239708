//! A move packed as (from, to, meta byte), and the record kept to undo it.
use crate::coord::Coord;
use vstd::prelude::*;

verus! {

/// Meta byte layout: bit 0 special (castle, en passant, promotion), bits 1-2
/// promotion choice, bits 3-5 captured piece kind (halved), bit 6 check,
/// bit 7 double check.
#[derive(Clone, Copy, PartialEq, Eq, Structural, Debug)]
pub struct Mov {
    pub data: u8,
    pub from: Coord,
    pub to: Coord,
}

impl Mov {
    /// A check or a capture: anything above the special and promotion bits.
    pub fn is_dynamic(&self) -> (r: bool)
        ensures
            r == (self.data > 7),
    {
        self.data > 7
    }
}

/// What `make_move` records so that `revert_move` can restore the position.
#[derive(Clone, Copy, Debug)]
pub struct BoardMov {
    pub mov: Mov,
    pub castling: u8,
    pub en_passant: Coord,
    pub hmw: u8,
}

} // verus!
