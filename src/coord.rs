//! A square of the board packed into one byte: the rank in the upper nibble,
//! the file in the lower nibble. Rank 8 / file 8 stand for "no square".
use vstd::prelude::*;

verus! {

#[derive(Clone, Copy, PartialEq, Eq, Structural, Debug)]
pub struct Coord {
    value: u8,
}

impl Coord {
    /// The rank (0 is white's back rank).
    pub closed spec fn row(self) -> u8 {
        self.value >> 4u8
    }

    /// The file (0 is the a-file).
    pub closed spec fn col(self) -> u8 {
        self.value & 15u8
    }

    /// True when the square lies on the board.
    pub open spec fn on_board(self) -> bool {
        self.row() < 8 && self.col() < 8
    }

    /// Two coordinates are equal exactly when rank and file are.
    pub proof fn lemma_eq(a: Coord, b: Coord)
        ensures
            (a.row() == b.row() && a.col() == b.col()) <==> a == b,
    {
        let (va, vb) = (a.value, b.value);
        assert(((va >> 4u8) == (vb >> 4u8) && (va & 15u8) == (vb & 15u8)) <==> va == vb)
            by (bit_vector);
    }

    pub fn new(y: u8, x: u8) -> (r: Coord)
        requires
            y < 16,
        ensures
            r.row() == y,
            r.col() == x % 16,
    {
        let value = (y << 4u8) | (x & 15u8);
        assert(((y << 4u8) | (x & 15u8)) >> 4u8 == y && ((y << 4u8) | (x & 15u8)) & 15u8 == x
            % 16) by (bit_vector)
            requires
                y < 16,
        ;
        Coord { value }
    }

    pub fn y(&self) -> (r: u8)
        ensures
            r == self.row(),
    {
        self.value >> 4u8
    }

    pub fn x(&self) -> (r: u8)
        ensures
            r == self.col(),
    {
        self.value & 15u8
    }

    pub fn set(&mut self, y: u8, x: u8)
        requires
            y < 16,
        ensures
            final(self).row() == y,
            final(self).col() == x % 16,
    {
        *self = Coord::new(y, x);
    }
}

} // verus!
