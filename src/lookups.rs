//! Board-level access to the letter/code tables and to the fields of the
//! meta byte.
use crate::bimaps::{castle_table, piece_table, promotion_table};
use crate::board::{cap_kind, kind, promo_code, promo_kind, special, start_rows, Board, PAWN};
use crate::mov::Mov;
use vstd::prelude::*;

verus! {

impl Board {
    /// The code of a piece letter.
    pub fn gpl(&self, piece: &char) -> (r: u8)
        requires
            self.wf(),
            piece_table().dom().contains(*piece),
        ensures
            r == piece_table()[*piece],
    {
        match self.bimaps.piece_code(*piece) {
            Some(v) => v,
            None => 0,
        }
    }

    /// The letter of a piece code.
    pub fn gpr(&self, value: &u8) -> (r: char)
        requires
            self.wf(),
            exists|c: char| piece_table().dom().contains(c) && piece_table()[c] == *value,
        ensures
            piece_table().dom().contains(r) && piece_table()[r] == *value,
    {
        match self.bimaps.piece_letter(*value) {
            Some(c) => c,
            None => ' ',
        }
    }

    /// The rights bit of a castling letter.
    pub fn gcl(&self, castle: &char) -> (r: u8)
        requires
            self.wf(),
            castle_table().dom().contains(*castle),
        ensures
            r == castle_table()[*castle],
    {
        match self.bimaps.castle_bit(*castle) {
            Some(v) => v,
            None => 0,
        }
    }

    /// The castling letter of a rights bit.
    pub fn gcr(&self, value: &u8) -> (r: char)
        requires
            self.wf(),
            exists|c: char| castle_table().dom().contains(c) && castle_table()[c] == *value,
        ensures
            castle_table().dom().contains(r) && castle_table()[r] == *value,
    {
        match self.bimaps.castle_letter(*value) {
            Some(c) => c,
            None => '-',
        }
    }

    /// The 2-bit code of a promotion letter.
    pub fn grl(&self, promotion: &char) -> (r: u8)
        requires
            self.wf(),
            promotion_table().dom().contains(*promotion),
        ensures
            r == promotion_table()[*promotion],
    {
        match self.bimaps.promotion_code(*promotion) {
            Some(v) => v,
            None => 0,
        }
    }

    /// The promotion letter of a 2-bit code.
    pub fn grr(&self, value: &u8) -> (r: char)
        requires
            self.wf(),
            *value <= 3,
        ensures
            promotion_table().dom().contains(r) && promotion_table()[r] == *value,
    {
        match self.bimaps.promotion_letter(*value) {
            Some(c) => c,
            None => {
                assert(promotion_table().dom().contains('b') && promotion_table().dom().contains('r')
                    && promotion_table().dom().contains('n') && promotion_table().dom().contains(
                    'q',
                ));
                'b'
            },
        }
    }

    /// A piece letter's kind shifted into the captured-piece field.
    pub fn gpls(&self, piece: &char) -> (r: u8)
        requires
            self.wf(),
            piece_table().dom().contains(*piece),
        ensures
            r == piece_table()[*piece] / 2 * 8,
            cap_kind(r) == piece_table()[*piece] / 2 * 2,
    {
        let v = self.gpl(piece);
        (v / 2) * 8
    }

    /// A promotion letter's code shifted into the promotion field.
    pub fn grls(&self, piece: &char) -> (r: u8)
        requires
            self.wf(),
            promotion_table().dom().contains(*piece),
        ensures
            r == promotion_table()[*piece] * 2,
            promo_code(r) == promotion_table()[*piece],
    {
        self.grl(piece) * 2
    }

    /// A piece code's kind shifted into the captured-piece field.
    pub fn psav(&self, piece: u8) -> (r: u8)
        requires
            piece <= 13,
        ensures
            r == piece / 2 * 8,
            cap_kind(r) == piece / 2 * 2,
    {
        (piece / 2) * 8
    }

    /// A promotion code shifted into the promotion field.
    pub fn rsav(&self, piece: u8) -> (r: u8)
        requires
            piece <= 3,
        ensures
            r == piece * 2,
            promo_code(r) == piece,
    {
        piece * 2
    }

    /// The captured piece kind recorded in a meta byte.
    pub fn ptpv(&self, data: u8) -> (r: u8)
        ensures
            r == cap_kind(data),
    {
        ((data / 8) % 8) * 2
    }

    /// The piece, coloured for the side to move, that the promotion bits
    /// of a meta byte choose.
    pub fn rtpv(&self, data: u8) -> (r: u8)
        ensures
            r == promo_kind(promo_code(data)) + (if self.white_to_move { 1u8 } else { 0u8 }),
    {
        let k = crate::board::promotion_kind(data);
        k + if self.white_to_move { 1 } else { 0 }
    }

    /// The letter of the piece that the promotion bits of a meta byte
    /// choose.
    pub fn rtpc(&self, data: u8) -> (r: char)
        requires
            self.wf(),
        ensures
            promotion_table().dom().contains(r),
            promotion_table()[r] == promo_code(data),
    {
        self.grr(&((data / 2) % 4))
    }

    /// The move, not yet made, is a pawn's promotion.
    pub fn is_promotion(&self, mov: &Mov) -> (r: bool)
        requires
            mov.from.on_board(),
        ensures
            r == (special(mov.data) && self.sq(mov.from.row() as int, mov.from.col() as int) == PAWN
                + (if self.white_to_move { 1u8 } else { 0u8 }) && (mov.to.row() == 0 || mov.to.row()
                == 7)),
    {
        proof {
            broadcast use vstd::array::group_array_axioms;
        }
        let s: u8 = if self.white_to_move { 1 } else { 0 };
        mov.data % 2 == 1 && self.field[mov.from.y() as usize][mov.from.x() as usize] == PAWN + s
            && (mov.to.y() == 0 || mov.to.y() == 7)
    }

    /// (y - y_sub, x - x_sub) lies on the board.
    pub fn in_bound(y: u8, x: u8, y_sub: u8, x_sub: u8) -> (r: bool)
        ensures
            r == (0 <= y - y_sub < 8 && 0 <= x - x_sub < 8),
    {
        !(y as u16 > 7 + y_sub as u16 || x as u16 > 7 + x_sub as u16 || y_sub > y || x_sub > x)
    }

    /// val - sub lies within 0 .. 8.
    pub fn in_bound_single(val: u8, sub: u8) -> (r: bool)
        ensures
            r == (0 <= val - sub < 8),
    {
        !(val as u16 > 7 + sub as u16 || sub > val)
    }
}

impl Mov {
    /// The move, already made on `board`, neither moved a pawn nor
    /// captured: the position before it may come back.
    pub fn is_repeatable(&self, board: &Board) -> (r: bool)
        requires
            self.to.on_board(),
        ensures
            r == (kind(board.sq(self.to.row() as int, self.to.col() as int)) != PAWN && cap_kind(
                self.data,
            ) == 0),
    {
        proof {
            broadcast use vstd::array::group_array_axioms;
        }
        let p = board.field[self.to.y() as usize][self.to.x() as usize];
        p - p % 2 != PAWN && (self.data / 8) % 8 == 0
    }
}

impl Default for Board {
    /// The standard starting position, as `Board::new` gives it.
    fn default() -> (r: Self)
        ensures
            r.wf(),
            r.fv() == start_rows(),
            r.history@.len() == 0,
            r.white_to_move,
            r.en_passant.row() == 8 && r.en_passant.col() == 8,
            r.castling == 240,
            r.hmw == 0,
            r.no == 1,
    {
        Board::new()
    }
}

} // verus!
