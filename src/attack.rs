//! The attack oracle: is a square attacked by pieces of one colour, counting
//! only the piece categories that a mask enables.
use crate::board::{bit, is_empty, on, Board, BISHOP, KNIGHT, PAWN, QUEEN, ROOK};
use crate::coord::Coord;
use vstd::prelude::*;

verus! {

/// Mask slots: diagonal sliders, straight sliders, knights, king, pawns.
pub const ALL_ATTACKERS: [bool; 5] = [true, true, true, true, true];

/// The first occupied square met from (y, x) onwards, stepping by (dy, dx)
/// at most `fuel` times.
pub open spec fn first_piece(f: Seq<Seq<u8>>, y: int, x: int, dy: int, dx: int, fuel: nat) -> Option<(int, int)>
    decreases fuel,
{
    if fuel == 0 || !on(y, x) {
        None
    } else if !is_empty(f[y][x]) {
        Some((y, x))
    } else {
        first_piece(f, y + dy, x + dx, dy, dx, (fuel - 1) as nat)
    }
}

/// The first piece seen from (y, x) in direction (dy, dx) is of colour `s`
/// and of kind `a` or `b`.
pub open spec fn slides_to(f: Seq<Seq<u8>>, y: int, x: int, dy: int, dx: int, s: u8, a: u8, b: u8) -> bool {
    match first_piece(f, y + dy, x + dx, dy, dx, 8) {
        Some((py, px)) => f[py][px] == a + s || f[py][px] == b + s,
        None => false,
    }
}

pub open spec fn holds(f: Seq<Seq<u8>>, y: int, x: int, v: u8) -> bool {
    on(y, x) && f[y][x] == v
}

pub open spec fn diagonal_attack(f: Seq<Seq<u8>>, y: int, x: int, s: u8) -> bool {
    ||| slides_to(f, y, x, -1, -1, s, BISHOP, QUEEN)
    ||| slides_to(f, y, x, -1, 1, s, BISHOP, QUEEN)
    ||| slides_to(f, y, x, 1, 1, s, BISHOP, QUEEN)
    ||| slides_to(f, y, x, 1, -1, s, BISHOP, QUEEN)
}

pub open spec fn straight_attack(f: Seq<Seq<u8>>, y: int, x: int, s: u8) -> bool {
    ||| slides_to(f, y, x, -1, 0, s, ROOK, QUEEN)
    ||| slides_to(f, y, x, 1, 0, s, ROOK, QUEEN)
    ||| slides_to(f, y, x, 0, 1, s, ROOK, QUEEN)
    ||| slides_to(f, y, x, 0, -1, s, ROOK, QUEEN)
}

pub open spec fn knight_attack(f: Seq<Seq<u8>>, y: int, x: int, s: u8) -> bool {
    let n = (KNIGHT + s) as u8;
    ||| holds(f, y + 2, x + 1, n)
    ||| holds(f, y + 1, x + 2, n)
    ||| holds(f, y - 1, x + 2, n)
    ||| holds(f, y - 2, x + 1, n)
    ||| holds(f, y - 2, x - 1, n)
    ||| holds(f, y - 1, x - 2, n)
    ||| holds(f, y + 1, x - 2, n)
    ||| holds(f, y + 2, x - 1, n)
}

/// The king of colour `s`, standing on `k`, touches (y, x).
pub open spec fn king_attack(k: Coord, y: int, x: int) -> bool {
    -1 <= k.row() - y <= 1 && -1 <= k.col() - x <= 1
}

pub open spec fn pawn_attack(f: Seq<Seq<u8>>, y: int, x: int, s: u8) -> bool {
    if s == 1 {
        holds(f, y - 1, x + 1, (PAWN + 1) as u8) || holds(f, y - 1, x - 1, (PAWN + 1) as u8)
    } else {
        holds(f, y + 1, x + 1, PAWN) || holds(f, y + 1, x - 1, PAWN)
    }
}

/// Square (y, x) of squares `f` is attacked by colour `s`, whose king stands
/// on `k`, through the categories that `mask` enables.
pub open spec fn attacked_on(f: Seq<Seq<u8>>, k: Coord, y: int, x: int, s: u8, mask: [bool; 5]) -> bool {
    ||| mask[0] && diagonal_attack(f, y, x, s)
    ||| mask[1] && straight_attack(f, y, x, s)
    ||| mask[2] && knight_attack(f, y, x, s)
    ||| mask[3] && king_attack(k, y, x)
    ||| mask[4] && pawn_attack(f, y, x, s)
}

impl Board {
    pub open spec fn attacked(&self, y: int, x: int, s: u8, mask: [bool; 5]) -> bool {
        attacked_on(self.fv(), self.king_of(s), y, x, s, mask)
    }

    /// The square (y, x) holds `v`; false off the board.
    fn holds_at(&self, y: i32, x: i32, v: u8) -> (r: bool)
        requires
            self.wf(),
        ensures
            r == holds(self.fv(), y as int, x as int, v),
    {
        proof { self.lemma_fv_shape(); }
        0 <= y && y < 8 && 0 <= x && x < 8 && self.field[y as usize][x as usize] == v
    }

    /// Walks the ray from (y, x) in direction (dy, dx) to its first piece.
    fn slides_to_exec(&self, y: i32, x: i32, dy: i32, dx: i32, s: u8, a: u8, b: u8) -> (r: bool)
        requires
            self.wf(),
            on(y as int, x as int),
            -1 <= dy <= 1,
            -1 <= dx <= 1,
            s <= 1,
            a <= 12,
            b <= 12,
        ensures
            r == slides_to(self.fv(), y as int, x as int, dy as int, dx as int, s, a, b),
    {
        proof { self.lemma_fv_shape(); }
        let ghost f = self.fv();
        let mut cy = y + dy;
        let mut cx = x + dx;
        let mut fuel: u8 = 8;
        while fuel > 0 && 0 <= cy && cy < 8 && 0 <= cx && cx < 8
            invariant
                self.wf(),
                f == self.fv(),
                -1 <= dy <= 1,
                -1 <= dx <= 1,
                s <= 1,
                a <= 12,
                b <= 12,
                -9 <= cy <= 16,
                -9 <= cx <= 16,
                first_piece(f, y + dy, x + dx, dy as int, dx as int, 8) == first_piece(
                    f,
                    cy as int,
                    cx as int,
                    dy as int,
                    dx as int,
                    fuel as nat,
                ),
            decreases fuel,
        {
            let p = self.field[cy as usize][cx as usize];
            if p >= 2 {
                return p == a + s || p == b + s;
            }
            cy = cy + dy;
            cx = cx + dx;
            fuel = fuel - 1;
        }
        false
    }

    fn knight_attack_exec(&self, y: i32, x: i32, s: u8) -> (r: bool)
        requires
            self.wf(),
            on(y as int, x as int),
            s <= 1,
        ensures
            r == knight_attack(self.fv(), y as int, x as int, s),
    {
        let n = KNIGHT + s;
        self.holds_at(y + 2, x + 1, n) || self.holds_at(y + 1, x + 2, n) || self.holds_at(
            y - 1,
            x + 2,
            n,
        ) || self.holds_at(y - 2, x + 1, n) || self.holds_at(y - 2, x - 1, n) || self.holds_at(
            y - 1,
            x - 2,
            n,
        ) || self.holds_at(y + 1, x - 2, n) || self.holds_at(y + 2, x - 1, n)
    }

    fn pawn_attack_exec(&self, y: i32, x: i32, s: u8) -> (r: bool)
        requires
            self.wf(),
            on(y as int, x as int),
            s <= 1,
        ensures
            r == pawn_attack(self.fv(), y as int, x as int, s),
    {
        if s == 1 {
            self.holds_at(y - 1, x + 1, PAWN + 1) || self.holds_at(y - 1, x - 1, PAWN + 1)
        } else {
            self.holds_at(y + 1, x + 1, PAWN) || self.holds_at(y + 1, x - 1, PAWN)
        }
    }

    /// The attack oracle with the en-passant rule: the en-passant target
    /// square also counts as attacked by a pawn, for pawn-attack
    /// enumeration. King safety and castling paths use
    /// `is_square_attacked`, which leaves that rule out.
    pub fn is_under_attack(&self, y: u8, x: u8, color_of_attacker: bool, checks: [bool; 5]) -> (r: bool)
        requires
            self.wf(),
            y < 8,
            x < 8,
        ensures
            r == (self.attacked(y as int, x as int, bit(color_of_attacker), checks) || (checks[4]
                && self.en_passant.row() == y && self.en_passant.col() == x)),
    {
        self.is_square_attacked(y, x, color_of_attacker, checks) || (checks[4]
            && self.en_passant.y() == y && self.en_passant.x() == x)
    }

    /// True iff square (y, x) is attacked by the pieces of the given colour
    /// in the categories that `checks` enables (diagonal sliders, straight
    /// sliders, knights, king, pawns). This is the test of king safety and
    /// of castling paths.
    pub fn is_square_attacked(&self, y: u8, x: u8, color_of_attacker: bool, checks: [bool; 5]) -> (r: bool)
        requires
            self.wf(),
            y < 8,
            x < 8,
        ensures
            r == self.attacked(y as int, x as int, bit(color_of_attacker), checks),
    {
        let s: u8 = if color_of_attacker { 1 } else { 0 };
        let (yy, xx) = (y as i32, x as i32);
        if checks[0] && (self.slides_to_exec(yy, xx, -1, -1, s, BISHOP, QUEEN)
            || self.slides_to_exec(yy, xx, -1, 1, s, BISHOP, QUEEN)
            || self.slides_to_exec(yy, xx, 1, 1, s, BISHOP, QUEEN)
            || self.slides_to_exec(yy, xx, 1, -1, s, BISHOP, QUEEN)) {
            return true;
        }
        if checks[1] && (self.slides_to_exec(yy, xx, -1, 0, s, ROOK, QUEEN)
            || self.slides_to_exec(yy, xx, 1, 0, s, ROOK, QUEEN)
            || self.slides_to_exec(yy, xx, 0, 1, s, ROOK, QUEEN)
            || self.slides_to_exec(yy, xx, 0, -1, s, ROOK, QUEEN)) {
            return true;
        }
        if checks[2] && self.knight_attack_exec(yy, xx, s) {
            return true;
        }
        if checks[3] {
            let k = if color_of_attacker {
                self.white_king_location
            } else {
                self.black_king_location
            };
            let (ky, kx) = (k.y() as i32, k.x() as i32);
            if ky - yy <= 1 && yy - ky <= 1 && kx - xx <= 1 && xx - kx <= 1 {
                return true;
            }
        }
        checks[4] && self.pawn_attack_exec(yy, xx, s)
    }
}

} // verus!
