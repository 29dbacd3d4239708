//! Long algebraic notation: "e2e4", with a promotion letter after a
//! promotion ("e7e8q"), castles as the king's two-square move.
use crate::bimaps::promotion_table;
use crate::board::{promo_code, special, Board, KING, PAWN};
use crate::coord::Coord;
use crate::mov::Mov;
use vstd::prelude::*;
use vstd::string::StringSliceAdditionalSpecFns;

verus! {

/// Relies on String::from_utf8: ASCII bytes form a valid string holding
/// the same characters.
#[verifier::external_body]
fn ascii_string(v: Vec<u8>) -> (r: String)
    requires
        forall|i: int| 0 <= i < v@.len() ==> v@[i] < 128,
    ensures
        r@ == v@.map_values(|c: u8| c as char),
{
    match String::from_utf8(v) {
        Ok(s) => s,
        Err(_) => String::new(),
    }
}

pub open spec fn is_file(c: u8) -> bool {
    97 <= c <= 104
}

pub open spec fn is_rank(c: u8) -> bool {
    49 <= c <= 56
}

pub open spec fn is_promotion_letter(c: u8) -> bool {
    c == 98 || c == 114 || c == 110 || c == 113
}

/// Text in long algebraic notation.
pub open spec fn move_text_ok(b: Seq<u8>) -> bool {
    &&& b.len() >= 4
    &&& is_file(b[0]) && is_rank(b[1]) && is_file(b[2]) && is_rank(b[3])
    &&& b.len() > 4 ==> is_promotion_letter(b[4])
}

/// The meta byte of the move that text `b` names on `board`: promotion
/// code and special bit, the special bit of a castle (a king moving two
/// files), the special bit and a captured pawn for en passant, and the
/// captured piece. No check bits.
pub open spec fn user_move_data(board: Board, b: Seq<u8>) -> u8 {
    let (fy, fx, ty, tx) = (b[1] - 49, b[0] - 97, b[3] - 49, b[2] - 97);
    let p = board.sq(fy, fx);
    let s = board.side();
    let t = board.sq(ty, tx);
    let cap = (t / 2 * 8) as u8;
    let base: u8 = if b.len() > 4 {
        (promotion_table()[b[4] as char] * 2 + 1) as u8
    } else if p == KING + s && (fx - tx > 1 || tx - fx > 1) {
        1
    } else if p == PAWN + s && board.en_passant.row() == ty && board.en_passant.col() == tx {
        9
    } else {
        0
    };
    base | cap
}

/// The move that a text in long algebraic notation names on `board`,
/// without check bits.
#[verifier::rlimit(30)]
pub fn move_to_board(board: &Board, umov: &str) -> (r: Mov)
    requires
        board.wf(),
        move_text_ok(umov.spec_bytes()),
    ensures
        r.from.row() == umov.spec_bytes()[1] - 49,
        r.from.col() == umov.spec_bytes()[0] - 97,
        r.to.row() == umov.spec_bytes()[3] - 49,
        r.to.col() == umov.spec_bytes()[2] - 97,
        r.data == user_move_data(*board, umov.spec_bytes()),
{
    broadcast use vstd::array::group_array_axioms;

    proof { board.lemma_fv_shape(); }
    let b = umov.as_bytes();
    let from = Coord::new(b[1] - 49, b[0] - 97);
    let to = Coord::new(b[3] - 49, b[2] - 97);
    let (fy, fx, ty, tx) = (b[1] - 49, b[0] - 97, b[3] - 49, b[2] - 97);
    let p = board.field[fy as usize][fx as usize];
    let t = board.field[ty as usize][tx as usize];
    assert(t == board.sq(ty as int, tx as int));
    assert(p == board.sq(fy as int, fx as int));
    let s: u8 = if board.white_to_move { 1 } else { 0 };
    let base: u8 = if b.len() > 4 {
        proof {
            let c = b@[4];
            if c == 98 {
                assert((c as char) == 'b');
            } else if c == 114 {
                assert((c as char) == 'r');
            } else if c == 110 {
                assert((c as char) == 'n');
            } else {
                assert((c as char) == 'q');
            }
            assert(promotion_table().dom().contains(c as char));
        }
        board.grls(&(b[4] as char)) + 1
    } else if p == KING + s && (fx > tx + 1 || tx > fx + 1) {
        1
    } else if p == PAWN + s && board.en_passant.y() == ty && board.en_passant.x() == tx {
        9
    } else {
        0
    };
    let data = base | board.psav(t);
    Mov { data, from, to }
}

/// The text of a move that is about to be made on `board`.
pub fn move_to_user(board: &Board, mov: &Mov) -> (r: String)
    requires
        board.wf(),
        mov.from.on_board(),
        mov.to.on_board(),
    ensures
        r@.len() == (if board.is_promotion_spec(*mov) { 5int } else { 4int }),
        r@[0] == (mov.from.col() + 97) as char,
        r@[1] == (mov.from.row() + 49) as char,
        r@[2] == (mov.to.col() + 97) as char,
        r@[3] == (mov.to.row() + 49) as char,
        board.is_promotion_spec(*mov) ==> promotion_table()[r@[4]] == promo_code(mov.data),
{
    let mut v: Vec<u8> = Vec::new();
    v.push(mov.from.x() + 97);
    v.push(mov.from.y() + 49);
    v.push(mov.to.x() + 97);
    v.push(mov.to.y() + 49);
    if board.is_promotion(mov) {
        let c = board.rtpc(mov.data);
        assert(c == 'b' || c == 'r' || c == 'n' || c == 'q');
        assert(('b' as u8) == 98u8 && ('r' as u8) == 114u8 && ('n' as u8) == 110u8 && ('q' as u8)
            == 113u8);
        v.push(c as u8);
    }
    ascii_string(v)
}

impl Board {
    pub open spec fn is_promotion_spec(&self, mov: Mov) -> bool {
        special(mov.data) && self.sq(mov.from.row() as int, mov.from.col() as int) == PAWN + (
        if self.white_to_move {
            1u8
        } else {
            0u8
        }) && (mov.to.row() == 0 || mov.to.row() == 7)
    }
}

} // verus!
