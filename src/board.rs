//! The board: an 8x8 mailbox of piece codes, side to move, castling rights,
//! en-passant square, move counters, cached king squares and the undo
//! history; `make_move` / `revert_move` are exact inverses.
use crate::bimaps::Bimaps;
use crate::coord::Coord;
use crate::mov::{BoardMov, Mov};
use vstd::prelude::*;

verus! {

pub const PAWN: u8 = 2;
pub const KING: u8 = 4;
pub const KNIGHT: u8 = 6;
pub const BISHOP: u8 = 8;
pub const ROOK: u8 = 10;
pub const QUEEN: u8 = 12;

/// Castling-rights bits.
pub const WHITE_KING_SIDE: u8 = 128;
pub const WHITE_QUEEN_SIDE: u8 = 64;
pub const BLACK_KING_SIDE: u8 = 32;
pub const BLACK_QUEEN_SIDE: u8 = 16;

/// What the side to move knows about its own king.
#[derive(Clone, Copy, PartialEq, Eq, Structural, Debug)]
pub enum Check {
    Unknown,
    NotInCheck,
    InCheck,
    InDoubleCheck,
}

/// The board as rows of squares.
pub open spec fn fview(f: [[u8; 8]; 8]) -> Seq<Seq<u8>> {
    f@.map_values(|r: [u8; 8]| r@)
}

/// `f` with square (y, x) set to `v`.
pub open spec fn put(f: Seq<Seq<u8>>, y: int, x: int, v: u8) -> Seq<Seq<u8>> {
    f.update(y, f[y].update(x, v))
}

pub open spec fn on(y: int, x: int) -> bool {
    0 <= y < 8 && 0 <= x < 8
}

pub open spec fn is_empty(p: u8) -> bool {
    p < 2
}

/// The kind of a piece code: its colour bit cleared.
pub open spec fn kind(p: u8) -> u8 {
    (p - p % 2) as u8
}

/// The colour bit of a piece code (1 = white).
pub open spec fn color(p: u8) -> u8 {
    p % 2
}

pub open spec fn bit(white: bool) -> u8 {
    if white {
        1
    } else {
        0
    }
}

/// Bit 0 of the meta byte: castling, en passant or promotion.
pub open spec fn special(d: u8) -> bool {
    d % 2 == 1
}

/// Bits 1-2 of the meta byte: 0 bishop, 1 rook, 2 knight, 3 queen.
pub open spec fn promo_code(d: u8) -> u8 {
    (d / 2) % 4
}

/// The piece kind that a promotion code stands for.
pub open spec fn promo_kind(c: u8) -> u8 {
    if c == 0 {
        BISHOP
    } else if c == 1 {
        ROOK
    } else if c == 2 {
        KNIGHT
    } else {
        QUEEN
    }
}

/// Bits 3-5 of the meta byte, as the kind of the captured piece (0 = none).
pub open spec fn cap_kind(d: u8) -> u8 {
    ((d / 8) % 8 * 2) as u8
}

/// A piece code shifted into the captured-piece field of the meta byte.
pub open spec fn cap_bits(p: u8) -> u8 {
    (p / 2 * 8) as u8
}

/// The rank on which a pawn of colour `s` promotes.
pub open spec fn last_rank(s: u8) -> int {
    if s == 1 {
        7
    } else {
        0
    }
}

/// The back rank of colour `s`.
pub open spec fn home_rank(s: u8) -> int {
    if s == 1 {
        0
    } else {
        7
    }
}

/// Rank step of a pawn of colour `s`.
pub open spec fn forward(s: u8) -> int {
    if s == 1 {
        1
    } else {
        -1
    }
}

/// The castling-rights bit tied to a rook's corner square (0 elsewhere).
pub open spec fn corner_bit(y: int, x: int) -> u8 {
    if y == 0 && x == 0 {
        WHITE_QUEEN_SIDE
    } else if y == 0 && x == 7 {
        WHITE_KING_SIDE
    } else if y == 7 && x == 0 {
        BLACK_QUEEN_SIDE
    } else if y == 7 && x == 7 {
        BLACK_KING_SIDE
    } else {
        0
    }
}

pub struct Board {
    /// Piece codes by rank then file; 0 (or 1) is an empty square.
    pub field: [[u8; 8]; 8],
    /// One entry per move made and not yet reverted.
    pub history: Vec<BoardMov>,
    pub white_to_move: bool,
    /// The square passed over by a pawn's two-step advance on the previous
    /// ply, else (8, 8).
    pub en_passant: Coord,
    /// Castling rights, see the bit constants.
    pub castling: u8,
    /// Plies since the last pawn move or capture.
    pub hmw: u8,
    /// Fullmove number, incremented after each black move.
    pub no: u16,
    pub white_king_location: Coord,
    pub black_king_location: Coord,
    pub bimaps: Bimaps,
}

impl Board {
    pub open spec fn fv(&self) -> Seq<Seq<u8>> {
        fview(self.field)
    }

    pub open spec fn sq(&self, y: int, x: int) -> u8 {
        self.fv()[y][x]
    }

    pub open spec fn side(&self) -> u8 {
        bit(self.white_to_move)
    }

    /// The square of the king of colour `s` according to the cache.
    pub open spec fn king_of(&self, s: u8) -> Coord {
        if s == 1 {
            self.white_king_location
        } else {
            self.black_king_location
        }
    }

    /// Exactly one king of colour `s`, standing on the cached square.
    pub open spec fn one_king(&self, s: u8) -> bool {
        let k = self.king_of(s);
        &&& k.on_board()
        &&& self.sq(k.row() as int, k.col() as int) == KING + s
        &&& forall|y: int, x: int|
            on(y, x) && #[trigger] self.sq(y, x) == KING + s ==> y == k.row() && x == k.col()
    }

    /// The invariant of a board: valid codes (an empty square holds 0),
    /// one king of each colour where the cache says, an en-passant square
    /// that is on the board or absent, and on-board squares in the history.
    pub open spec fn wf(&self) -> bool {
        &&& forall|y: int, x: int| on(y, x) ==> #[trigger] self.sq(y, x) != 1 && self.sq(y, x) <= 13
        &&& self.one_king(1)
        &&& self.one_king(0)
        &&& (self.en_passant.on_board() || (self.en_passant.row() == 8 && self.en_passant.col()
            == 8))
        &&& forall|i: int|
            0 <= i < self.history@.len() ==> (#[trigger] self.history@[i]).mov.from.on_board()
                && self.history@[i].mov.to.on_board()
        &&& self.bimaps.wf()
    }

    /// Everything but the undo history's identity as a `Vec` is equal.
    pub open spec fn same_position(&self, o: Board) -> bool {
        &&& self.fv() == o.fv()
        &&& self.history@ == o.history@
        &&& self.white_to_move == o.white_to_move
        &&& self.en_passant == o.en_passant
        &&& self.castling == o.castling
        &&& self.hmw == o.hmw
        &&& self.no == o.no
        &&& self.white_king_location == o.white_king_location
        &&& self.black_king_location == o.black_king_location
        &&& self.bimaps == o.bimaps
    }
}

/// What `make_move` asks of a move: the shape of a move that the move
/// generator produces. The mover is a piece of the side to move; the meta
/// byte records exactly what is captured (never a king); a special move is a
/// castle with the king's own rook in its corner, a promotion, or an en
/// passant capture of the pawn that just made a two-step advance.
pub open spec fn move_ok(b: Board, m: Mov) -> bool {
    let (fy, fx, ty, tx) = (m.from.row() as int, m.from.col() as int, m.to.row() as int, m.to.col() as int);
    let s = b.side();
    let p = b.sq(fy, fx);
    let t = b.sq(ty, tx);
    let d = m.data;
    &&& on(fy, fx) && on(ty, tx)
    &&& !(fy == ty && fx == tx)
    &&& p >= 2 && color(p) == s
    &&& if special(d) && p == PAWN + s && ty != last_rank(s) {
        // en passant
        &&& fy == (if s == 1 { 4int } else { 3int })
        &&& ty == fy + forward(s)
        &&& (tx == fx + 1 || tx == fx - 1)
        &&& is_empty(t)
        &&& cap_kind(d) == PAWN
        &&& b.sq(fy, tx) == PAWN + (1 - s)
    } else {
        &&& (is_empty(t) && cap_kind(d) == 0) || (!is_empty(t) && color(t) != s && cap_kind(d)
            == kind(t) && kind(t) != KING)
    }
    &&& special(d) ==> {
        ||| (p == KING + s && fy == home_rank(s) && ty == fy && fx == 4 && is_empty(t) && (
        (tx == 6 && is_empty(b.sq(fy, 5)) && b.sq(fy, 7) == ROOK + s) || (tx == 2 && is_empty(
            b.sq(fy, 3),
        ) && b.sq(fy, 0) == ROOK + s)))
        ||| (p == PAWN + s && ty == last_rank(s) && fy == ty - forward(s))
        ||| (p == PAWN + s && ty != last_rank(s))
    }
}

/// The squares after `m` is made on `b`.
pub open spec fn make_field(b: Board, m: Mov) -> Seq<Seq<u8>> {
    let (fy, fx, ty, tx) = (m.from.row() as int, m.from.col() as int, m.to.row() as int, m.to.col() as int);
    let s = b.side();
    let p = b.sq(fy, fx);
    let f1 = put(put(b.fv(), ty, tx, p), fy, fx, 0);
    if p == KING + s && special(m.data) {
        let h = home_rank(s);
        if tx == 6 {
            put(put(f1, h, 5, f1[h][7]), h, 7, 0)
        } else {
            put(put(f1, h, 3, f1[h][0]), h, 0, 0)
        }
    } else if p == PAWN + s && special(m.data) {
        if ty == last_rank(s) {
            put(f1, ty, tx, (promo_kind(promo_code(m.data)) + s) as u8)
        } else {
            put(f1, fy, tx, 0)
        }
    } else {
        f1
    }
}

/// Castling rights after `m`: a king move drops both rights of its side, a
/// rook leaving its corner drops that corner's right; nothing else changes
/// them.
pub open spec fn make_castling(b: Board, m: Mov) -> u8 {
    let (fy, fx, ty, tx) = (m.from.row() as int, m.from.col() as int, m.to.row() as int, m.to.col() as int);
    let s = b.side();
    let p = b.sq(fy, fx);
    let c0 = b.castling;
    if p == KING + 1 {
        c0 & 48
    } else if p == KING {
        c0 & 192
    } else if p == ROOK + s {
        c0 & !corner_bit(fy, fx)
    } else {
        c0
    }
}

/// True when `m` is a pawn's two-step advance.
pub open spec fn is_double_step(b: Board, m: Mov) -> bool {
    let (fy, fx, ty) = (m.from.row() as int, m.from.col() as int, m.to.row() as int);
    b.sq(fy, fx) == PAWN + b.side() && !special(m.data) && (ty == fy + 2 || ty == fy - 2)
}

/// The halfmove clock after `m`: 0 after a pawn move or a capture.
pub open spec fn make_hmw(b: Board, m: Mov) -> u8 {
    let p = b.sq(m.from.row() as int, m.from.col() as int);
    if p == PAWN + b.side() || cap_kind(m.data) != 0 {
        0
    } else if b.hmw < 255 {
        (b.hmw + 1) as u8
    } else {
        255
    }
}

/// `b1` is `b0` after making `m`.
pub open spec fn made(b0: Board, b1: Board, m: Mov) -> bool {
    let (fy, fx) = (m.from.row() as int, m.from.col() as int);
    let p = b0.sq(fy, fx);
    &&& b1.fv() == make_field(b0, m)
    &&& b1.castling == make_castling(b0, m)
    &&& (if is_double_step(b0, m) {
        b1.en_passant.row() == (fy + m.to.row()) / 2 && b1.en_passant.col() == fx
    } else {
        b1.en_passant.row() == 8 && b1.en_passant.col() == 8
    })
    &&& b1.hmw == make_hmw(b0, m)
    &&& b1.white_to_move == !b0.white_to_move
    &&& b1.no == (if b0.white_to_move {
        b0.no
    } else if b0.no < 65535 {
        (b0.no + 1) as u16
    } else {
        0
    })
    &&& b1.white_king_location == (if p == KING + 1 {
        m.to
    } else {
        b0.white_king_location
    })
    &&& b1.black_king_location == (if p == KING {
        m.to
    } else {
        b0.black_king_location
    })
    &&& b1.history@ == b0.history@.push(
        BoardMov { mov: m, castling: b0.castling, en_passant: b0.en_passant, hmw: b0.hmw },
    )
    &&& b1.bimaps == b0.bimaps
}

/// The squares after the last move of `b` is taken back.
pub open spec fn unmake_field(b: Board) -> Seq<Seq<u8>> {
    let e = b.history@.last();
    let m = e.mov;
    let (fy, fx, ty, tx) = (m.from.row() as int, m.from.col() as int, m.to.row() as int, m.to.col() as int);
    let s2 = b.side();
    let mover = (1 - s2) as u8;
    let q = b.sq(ty, tx);
    let c = cap_kind(m.data);
    let f1 = put(put(b.fv(), fy, fx, q), ty, tx, if c == 0 { 0 } else { (c + s2) as u8 });
    if q == KING + mover && special(m.data) {
        let h = home_rank(mover);
        if tx == 6 {
            put(put(f1, h, 7, f1[h][5]), h, 5, 0)
        } else {
            put(put(f1, h, 0, f1[h][3]), h, 3, 0)
        }
    } else if special(m.data) && q == PAWN + mover {
        let r = ty - 1 + 2 * s2;
        if 0 <= r < 8 {
            put(put(f1, r, tx, (PAWN + s2) as u8), ty, tx, 0)
        } else {
            f1
        }
    } else if special(m.data) {
        put(f1, fy, fx, (PAWN + mover) as u8)
    } else {
        f1
    }
}

/// `b1` is `b0` with its last move taken back.
pub open spec fn unmade(b0: Board, b1: Board) -> bool {
    let e = b0.history@.last();
    let m = e.mov;
    let mover = (1 - b0.side()) as u8;
    let q = b0.sq(m.to.row() as int, m.to.col() as int);
    &&& b1.fv() == unmake_field(b0)
    &&& b1.castling == e.castling
    &&& b1.en_passant == e.en_passant
    &&& b1.hmw == e.hmw
    &&& b1.white_to_move == !b0.white_to_move
    &&& b1.no == (if !b0.white_to_move {
        b0.no
    } else if b0.no > 0 {
        (b0.no - 1) as u16
    } else {
        65535
    })
    &&& b1.white_king_location == (if q == KING + 1 && mover == 1 {
        m.from
    } else {
        b0.white_king_location
    })
    &&& b1.black_king_location == (if q == KING && mover == 0 {
        m.from
    } else {
        b0.black_king_location
    })
    &&& b1.history@ == b0.history@.drop_last()
    &&& b1.bimaps == b0.bimaps
}

impl Board {
    pub proof fn lemma_fv_shape(&self)
        ensures
            self.fv().len() == 8,
            forall|y: int| 0 <= y < 8 ==> #[trigger] self.fv()[y].len() == 8,
    {
        broadcast use vstd::array::group_array_axioms;
    }

    /// Writes one square.
    fn set_sq(&mut self, y: usize, x: usize, v: u8)
        requires
            y < 8,
            x < 8,
        ensures
            final(self).fv() == put(old(self).fv(), y as int, x as int, v),
            final(self).history == old(self).history,
            final(self).white_to_move == old(self).white_to_move,
            final(self).en_passant == old(self).en_passant,
            final(self).castling == old(self).castling,
            final(self).hmw == old(self).hmw,
            final(self).no == old(self).no,
            final(self).white_king_location == old(self).white_king_location,
            final(self).black_king_location == old(self).black_king_location,
            final(self).bimaps == old(self).bimaps,
    {
        broadcast use vstd::array::group_array_axioms;

        self.field[y][x] = v;
        assert(self.fv() =~~= put(old(self).fv(), y as int, x as int, v));
    }
}

/// The castling-rights bit tied to a corner square.
fn corner_bit_of(y: usize, x: usize) -> (r: u8)
    ensures
        r == corner_bit(y as int, x as int),
{
    if y == 0 && x == 0 {
        WHITE_QUEEN_SIDE
    } else if y == 0 && x == 7 {
        WHITE_KING_SIDE
    } else if y == 7 && x == 0 {
        BLACK_QUEEN_SIDE
    } else if y == 7 && x == 7 {
        BLACK_KING_SIDE
    } else {
        0
    }
}

/// The piece kind chosen by the promotion bits of a meta byte.
pub fn promotion_kind(d: u8) -> (r: u8)
    ensures
        r == promo_kind(promo_code(d)),
{
    let c = (d / 2) % 4;
    if c == 0 {
        BISHOP
    } else if c == 1 {
        ROOK
    } else if c == 2 {
        KNIGHT
    } else {
        QUEEN
    }
}

impl Board {
    /// Makes a move without checking that it is legal; the caller
    /// guarantees the shape that `move_ok` describes.
    #[verifier::rlimit(30)]
    pub fn make_move(&mut self, mov: &Mov)
        requires
            old(self).wf(),
            move_ok(*old(self), *mov),
        ensures
            made(*old(self), *final(self), *mov),
            final(self).wf(),
    {
        let ghost b0 = *self;
        proof { self.lemma_fv_shape(); }
        let fy = mov.from.y() as usize;
        let fx = mov.from.x() as usize;
        let ty = mov.to.y() as usize;
        let tx = mov.to.x() as usize;
        let piece = self.field[fy][fx];
        let s: u8 = if self.white_to_move { 1 } else { 0 };
        let special = mov.data % 2 == 1;
        self.history.push(
            BoardMov { mov: *mov, castling: self.castling, en_passant: self.en_passant, hmw: self.hmw },
        );
        self.set_sq(ty, tx, piece);
        self.set_sq(fy, fx, 0);
        if piece == KING + s && special {
            let h: usize = if s == 1 { 0 } else { 7 };
            if tx == 6 {
                let r = self.field[h][7];
                self.set_sq(h, 5, r);
                self.set_sq(h, 7, 0);
            } else {
                let r = self.field[h][0];
                self.set_sq(h, 3, r);
                self.set_sq(h, 0, 0);
            }
        } else if piece == PAWN + s && special {
            if (s == 1 && ty == 7) || (s == 0 && ty == 0) {
                let k = promotion_kind(mov.data);
                self.set_sq(ty, tx, k + s);
            } else {
                self.set_sq(fy, tx, 0);
            }
        }
        let mut c = self.castling;
        if piece == KING + 1 {
            c = c & 48;
        } else if piece == KING {
            c = c & 192;
        } else if piece == ROOK + s {
            c = c & !corner_bit_of(fy, fx);
        }
        self.castling = c;
        if piece == PAWN + s && !special && (ty == fy + 2 || fy == ty + 2) {
            self.en_passant = Coord::new(((fy + ty) / 2) as u8, fx as u8);
        } else {
            self.en_passant = Coord::new(8, 8);
        }
        if piece == PAWN + s || (mov.data / 8) % 8 != 0 {
            self.hmw = 0;
        } else if self.hmw < 255 {
            self.hmw = self.hmw + 1;
        }
        if piece == KING + 1 {
            self.white_king_location = mov.to;
        } else if piece == KING {
            self.black_king_location = mov.to;
        }
        if !self.white_to_move {
            self.no = if self.no < 65535 { self.no + 1 } else { 0 };
        }
        self.white_to_move = !self.white_to_move;
        proof {
            b0.lemma_fv_shape();
            assert(self.fv() == make_field(b0, *mov));
            assert(self.history@ =~= b0.history@.push(
                BoardMov { mov: *mov, castling: b0.castling, en_passant: b0.en_passant, hmw: b0.hmw },
            ));
            lemma_make_keeps_wf(b0, *self, *mov);
        }
    }

    /// Takes back the last move made.
    #[verifier::rlimit(30)]
    pub fn revert_move(&mut self)
        requires
            old(self).wf(),
            old(self).history@.len() > 0,
        ensures
            unmade(*old(self), *final(self)),
    {
        let ghost b0 = *self;
        proof { self.lemma_fv_shape(); }
        let bmov = match self.history.pop() {
            Some(e) => e,
            None => { return; },
        };
        proof {
            assert(b0.history@[b0.history@.len() - 1] == bmov);
        }
        let mov = bmov.mov;
        let fy = mov.from.y() as usize;
        let fx = mov.from.x() as usize;
        let ty = mov.to.y() as usize;
        let tx = mov.to.x() as usize;
        let s2: u8 = if self.white_to_move { 1 } else { 0 };
        let mover: u8 = 1 - s2;
        let piece = self.field[ty][tx];
        let c = ((mov.data / 8) % 8) * 2;
        let special = mov.data % 2 == 1;
        self.set_sq(fy, fx, piece);
        self.set_sq(ty, tx, if c == 0 { 0 } else { c + s2 });
        self.castling = bmov.castling;
        self.en_passant = bmov.en_passant;
        self.hmw = bmov.hmw;
        if piece == KING + mover && special {
            let h: usize = if mover == 1 { 0 } else { 7 };
            if tx == 6 {
                let r = self.field[h][5];
                self.set_sq(h, 7, r);
                self.set_sq(h, 5, 0);
            } else {
                let r = self.field[h][3];
                self.set_sq(h, 0, r);
                self.set_sq(h, 3, 0);
            }
        } else if special && piece == PAWN + mover {
            if ty + 2 * (s2 as usize) >= 1 && ty + 2 * (s2 as usize) - 1 < 8 {
                let r = ty + 2 * (s2 as usize) - 1;
                self.set_sq(r, tx, PAWN + s2);
                self.set_sq(ty, tx, 0);
            }
        } else if special {
            self.set_sq(fy, fx, PAWN + mover);
        }
        if piece == KING + 1 && mover == 1 {
            self.white_king_location = mov.from;
        } else if piece == KING && mover == 0 {
            self.black_king_location = mov.from;
        }
        if self.white_to_move {
            self.no = if self.no > 0 { self.no - 1 } else { 65535 };
        }
        self.white_to_move = !self.white_to_move;
        proof {
            assert(self.fv() == unmake_field(b0));
        }
    }
}

/// Eight rows of eight squares.
pub open spec fn shaped(f: Seq<Seq<u8>>) -> bool {
    f.len() == 8 && forall|y: int| 0 <= y < 8 ==> #[trigger] f[y].len() == 8
}

pub proof fn lemma_put(f: Seq<Seq<u8>>, y: int, x: int, v: u8)
    requires
        shaped(f),
        on(y, x),
    ensures
        shaped(put(f, y, x, v)),
        forall|i: int, j: int|
            on(i, j) ==> #[trigger] put(f, y, x, v)[i][j] == (if i == y && j == x {
                v
            } else {
                f[i][j]
            }),
{
    let g = put(f, y, x, v);
    assert forall|i: int| 0 <= i < 8 implies #[trigger] g[i].len() == 8 by {
        if i == y {
        } else {
        }
    }
}

#[verifier::rlimit(30)]
proof fn lemma_make_keeps_wf(b0: Board, b1: Board, m: Mov)
    requires
        b0.wf(),
        move_ok(b0, m),
        made(b0, b1, m),
    ensures
        b1.wf(),
{
    b0.lemma_fv_shape();
    let (fy, fx, ty, tx) = (m.from.row() as int, m.from.col() as int, m.to.row() as int, m.to.col() as int);
    let s = b0.side();
    let p = b0.sq(fy, fx);
    let f0 = b0.fv();
    let f1a = put(f0, ty, tx, p);
    lemma_put(f0, ty, tx, p);
    let f1 = put(f1a, fy, fx, 0);
    lemma_put(f1a, fy, fx, 0);
    let h = home_rank(s);
    let castle = p == KING + s && special(m.data);
    let pspecial = p == PAWN + s && special(m.data);
    if castle {
        if tx == 6 {
            let f2 = put(f1, h, 5, f1[h][7]);
            lemma_put(f1, h, 5, f1[h][7]);
            lemma_put(f2, h, 7, 0);
        } else {
            let f2 = put(f1, h, 3, f1[h][0]);
            lemma_put(f1, h, 3, f1[h][0]);
            lemma_put(f2, h, 0, 0);
        }
    } else if pspecial {
        if ty == last_rank(s) {
            lemma_put(f1, ty, tx, (promo_kind(promo_code(m.data)) + s) as u8);
        } else {
            lemma_put(f1, fy, tx, 0);
        }
    }
    assert forall|y: int, x: int| on(y, x) implies #[trigger] b1.sq(y, x) != 1 && b1.sq(y, x)
        <= 13 by {
        assert(b0.sq(y, x) != 1 && b0.sq(y, x) <= 13);
    }
    let wk = b0.white_king_location;
    let bk = b0.black_king_location;
    assert(b0.sq(wk.row() as int, wk.col() as int) == KING + 1);
    assert(b0.sq(bk.row() as int, bk.col() as int) == KING);
    assert forall|y: int, x: int| on(y, x) && #[trigger] b1.sq(y, x) == KING + 1 implies y
        == b1.white_king_location.row() && x == b1.white_king_location.col() by {
        if on(y, x) && b0.sq(y, x) == KING + 1 {
            assert(y == wk.row() && x == wk.col());
        }
    }
    assert forall|y: int, x: int| on(y, x) && #[trigger] b1.sq(y, x) == KING implies y
        == b1.black_king_location.row() && x == b1.black_king_location.col() by {
        if on(y, x) && b0.sq(y, x) == KING {
            assert(y == bk.row() && x == bk.col());
        }
    }
    assert(b1.one_king(1));
    assert(b1.one_king(0));
    assert forall|i: int| 0 <= i < b1.history@.len() implies (#[trigger] b1.history@[i]).mov.from.on_board()
        && b1.history@[i].mov.to.on_board() by {
        if i < b0.history@.len() {
            assert(b1.history@[i] == b0.history@[i]);
        }
    }
}

/// Making a move and taking it back restores the position exactly,
/// the undo history included.
#[verifier::rlimit(30)]
pub proof fn lemma_make_unmake(b0: Board, b1: Board, b2: Board, m: Mov)
    requires
        b0.wf(),
        move_ok(b0, m),
        made(b0, b1, m),
        unmade(b1, b2),
    ensures
        b2.same_position(b0),
        b2.wf(),
{
    b0.lemma_fv_shape();
    lemma_make_keeps_wf(b0, b1, m);
    let (fy, fx, ty, tx) = (m.from.row() as int, m.from.col() as int, m.to.row() as int, m.to.col() as int);
    let s = b0.side();
    let p = b0.sq(fy, fx);
    let t = b0.sq(ty, tx);
    let f0 = b0.fv();
    let f1a = put(f0, ty, tx, p);
    lemma_put(f0, ty, tx, p);
    let f1 = put(f1a, fy, fx, 0);
    lemma_put(f1a, fy, fx, 0);
    let h = home_rank(s);
    if p == KING + s && special(m.data) {
        if tx == 6 {
            let f2 = put(f1, h, 5, f1[h][7]);
            lemma_put(f1, h, 5, f1[h][7]);
            lemma_put(f2, h, 7, 0);
        } else {
            let f2 = put(f1, h, 3, f1[h][0]);
            lemma_put(f1, h, 3, f1[h][0]);
            lemma_put(f2, h, 0, 0);
        }
    } else if p == PAWN + s && special(m.data) {
        if ty == last_rank(s) {
            lemma_put(f1, ty, tx, (promo_kind(promo_code(m.data)) + s) as u8);
        } else {
            lemma_put(f1, fy, tx, 0);
        }
    }
    let e = b1.history@.last();
    assert(e.mov == m);
    let g0 = b1.fv();
    let q = b1.sq(ty, tx);
    let s2 = b1.side();
    let c = cap_kind(m.data);
    let r = if c == 0 { 0u8 } else { (c + s2) as u8 };
    let g1a = put(g0, fy, fx, q);
    lemma_put(g0, fy, fx, q);
    let g1 = put(g1a, ty, tx, r);
    lemma_put(g1a, ty, tx, r);
    if q == KING + s && special(m.data) {
        if tx == 6 {
            let g2 = put(g1, h, 7, g1[h][5]);
            lemma_put(g1, h, 7, g1[h][5]);
            lemma_put(g2, h, 5, 0);
        } else {
            let g2 = put(g1, h, 0, g1[h][3]);
            lemma_put(g1, h, 0, g1[h][3]);
            lemma_put(g2, h, 3, 0);
        }
    } else if special(m.data) && q == PAWN + s {
        let rr = ty - 1 + 2 * s2;
        if 0 <= rr < 8 {
            let g2 = put(g1, rr, tx, (PAWN + s2) as u8);
            lemma_put(g1, rr, tx, (PAWN + s2) as u8);
            lemma_put(g2, ty, tx, 0);
        }
    } else if special(m.data) {
        lemma_put(g1, fy, fx, (PAWN + s) as u8);
    }
    assert forall|y: int, x: int| on(y, x) implies #[trigger] b2.fv()[y][x] == f0[y][x] by {
        assert(b0.sq(y, x) != 1);
    }
    assert forall|y: int| 0 <= y < 8 implies #[trigger] b2.fv()[y] =~= f0[y] by {
        assert forall|x: int| 0 <= x < 8 implies b2.fv()[y][x] == f0[y][x] by {
            assert(on(y, x));
        }
    }
    assert(b2.fv() =~= f0);
    assert(b2.history@ =~= b0.history@);
    let wk = b0.white_king_location;
    let bk = b0.black_king_location;
    assert(b0.sq(wk.row() as int, wk.col() as int) == KING + 1);
    assert(b0.sq(bk.row() as int, bk.col() as int) == KING);
    if p == KING + 1 {
        assert(fy == wk.row() && fx == wk.col());
        Coord::lemma_eq(wk, m.from);
    }
    if p == KING {
        assert(fy == bk.row() && fx == bk.col());
        Coord::lemma_eq(bk, m.from);
    }
    lemma_same_position_wf(b2, b0);
}

/// The invariant depends on the position alone.
pub proof fn lemma_same_position_wf(a: Board, b: Board)
    requires
        a.same_position(b),
        b.wf(),
    ensures
        a.wf(),
{
    assert forall|y: int, x: int| on(y, x) implies #[trigger] a.sq(y, x) != 1 && a.sq(y, x) <= 13 by {
        assert(b.sq(y, x) != 1);
    }
    assert forall|y: int, x: int| on(y, x) && #[trigger] a.sq(y, x) == KING + 1 implies y
        == a.white_king_location.row() && x == a.white_king_location.col() by {
        assert(b.sq(y, x) == KING + 1);
    }
    assert forall|y: int, x: int| on(y, x) && #[trigger] a.sq(y, x) == KING implies y
        == a.black_king_location.row() && x == a.black_king_location.col() by {
        assert(b.sq(y, x) == KING);
    }
    assert forall|i: int| 0 <= i < a.history@.len() implies (#[trigger] a.history@[i]).mov.from.on_board()
        && a.history@[i].mov.to.on_board() by {
        assert(b.history@[i] == a.history@[i]);
    }
}

/// Making a move leaves exactly one king of each colour, each on the square
/// that the board caches for it.
pub proof fn lemma_make_one_king_each(b0: Board, b1: Board, m: Mov)
    requires
        b0.wf(),
        move_ok(b0, m),
        made(b0, b1, m),
    ensures
        b1.one_king(1),
        b1.one_king(0),
{
    lemma_make_keeps_wf(b0, b1, m);
}

/// The squares of the standard starting position.
pub open spec fn start_rows() -> Seq<Seq<u8>> {
    seq![
        seq![11u8, 7, 9, 13, 5, 9, 7, 11],
        seq![3u8, 3, 3, 3, 3, 3, 3, 3],
        seq![0u8, 0, 0, 0, 0, 0, 0, 0],
        seq![0u8, 0, 0, 0, 0, 0, 0, 0],
        seq![0u8, 0, 0, 0, 0, 0, 0, 0],
        seq![0u8, 0, 0, 0, 0, 0, 0, 0],
        seq![2u8, 2, 2, 2, 2, 2, 2, 2],
        seq![10u8, 6, 8, 12, 4, 8, 6, 10],
    ]
}

impl Board {
    /// The standard starting position.
    #[verifier::rlimit(30)]
    pub fn new() -> (r: Self)
        ensures
            r.wf(),
            r.fv() == start_rows(),
            r.history@.len() == 0,
            r.white_to_move,
            r.en_passant.row() == 8 && r.en_passant.col() == 8,
            r.castling == 240,
            r.hmw == 0,
            r.no == 1,
    {
        broadcast use vstd::array::group_array_axioms;

        let bimaps = Bimaps::init();
        let field: [[u8; 8]; 8] = [
            [11, 7, 9, 13, 5, 9, 7, 11],
            [3, 3, 3, 3, 3, 3, 3, 3],
            [0, 0, 0, 0, 0, 0, 0, 0],
            [0, 0, 0, 0, 0, 0, 0, 0],
            [0, 0, 0, 0, 0, 0, 0, 0],
            [0, 0, 0, 0, 0, 0, 0, 0],
            [2, 2, 2, 2, 2, 2, 2, 2],
            [10, 6, 8, 12, 4, 8, 6, 10],
        ];
        let b = Self {
            field,
            history: Vec::new(),
            white_to_move: true,
            en_passant: Coord::new(8, 8),
            castling: 240,
            hmw: 0,
            no: 1,
            white_king_location: Coord::new(0, 4),
            black_king_location: Coord::new(7, 4),
            bimaps,
        };
        assert(b.fv() =~~= start_rows());
        assert forall|y: int, x: int| on(y, x) implies #[trigger] b.sq(y, x) != 1 && b.sq(y, x) <= 13
            && (b.sq(y, x) == KING + 1 ==> y == 0 && x == 4) && (b.sq(y, x) == KING ==> y == 7 && x
            == 4) by {
            assert(0 <= x < 8);
            if y == 0 {} else if y == 1 {} else if y == 2 {} else if y == 3 {} else if y == 4 {
            } else if y == 5 {} else if y == 6 {} else {}
        }
        b
    }
}

} // verus!
