//! Move generation: per-piece pseudo-legal generators, the legality filter
//! and the check annotation of the meta byte.
use crate::attack::{attacked_on, ALL_ATTACKERS};
use crate::board::{
    bit, cap_bits, cap_kind, color, forward, lemma_make_unmake, home_rank, is_empty, kind, last_rank, made, make_field,
    move_ok, on, promo_code, special, Board, Check, BISHOP, BLACK_KING_SIDE, BLACK_QUEEN_SIDE,
    KING, KNIGHT, PAWN, QUEEN, ROOK, WHITE_KING_SIDE, WHITE_QUEEN_SIDE,
};
use crate::coord::Coord;
use crate::mov::Mov;
use vstd::prelude::*;

verus! {

/// A castle: the king of the side to move with the special bit.
pub open spec fn is_castle(b: Board, m: Mov) -> bool {
    b.sq(m.from.row() as int, m.from.col() as int) == KING + b.side() && special(m.data)
}

/// The rights bit that a castle towards file `tx` needs.
pub open spec fn castle_right(s: u8, tx: int) -> u8 {
    if s == 1 {
        if tx == 6 {
            WHITE_KING_SIDE
        } else {
            WHITE_QUEEN_SIDE
        }
    } else if tx == 6 {
        BLACK_KING_SIDE
    } else {
        BLACK_QUEEN_SIDE
    }
}

/// When a castle may be offered: its rights bit is set, the squares between
/// king and rook are empty, the squares the king passes over and lands on
/// are not attacked, and neither is the king's own square unless the caller
/// has stated that the king is not in check.
pub open spec fn castle_allowed(b: Board, m: Mov, hint: Check) -> bool {
    let s = b.side();
    let o = (1 - s) as u8;
    let h = home_rank(s);
    let tx = m.to.col() as int;
    &&& b.castling & castle_right(s, tx) != 0
    &&& (hint != Check::NotInCheck ==> !b.attacked(h, 4, o, ALL_ATTACKERS))
    &&& if tx == 6 {
        &&& is_empty(b.sq(h, 5)) && is_empty(b.sq(h, 6))
        &&& !b.attacked(h, 5, o, ALL_ATTACKERS) && !b.attacked(h, 6, o, ALL_ATTACKERS)
    } else {
        &&& is_empty(b.sq(h, 3)) && is_empty(b.sq(h, 2)) && is_empty(b.sq(h, 1))
        &&& !b.attacked(h, 3, o, ALL_ATTACKERS) && !b.attacked(h, 2, o, ALL_ATTACKERS)
    }
}

/// From (y, x) on, stepping by (dy, dx) at most `fuel` times, the ray
/// meets (ty, tx) on the board with only empty squares before it.
pub open spec fn ray_reaches(f: Seq<Seq<u8>>, y: int, x: int, dy: int, dx: int, ty: int, tx: int, fuel: nat) -> bool
    decreases fuel,
{
    if fuel == 0 || !on(y, x) {
        false
    } else if y == ty && x == tx {
        true
    } else {
        is_empty(f[y][x]) && ray_reaches(f, y + dy, x + dx, dy, dx, ty, tx, (fuel - 1) as nat)
    }
}

/// (ty, tx) is reached from (fy, fx) along direction (dy, dx) over empty
/// squares.
pub open spec fn slides(f: Seq<Seq<u8>>, fy: int, fx: int, ty: int, tx: int, dy: int, dx: int) -> bool {
    ray_reaches(f, fy + dy, fx + dx, dy, dx, ty, tx, 8)
}

pub open spec fn diagonal_reach(f: Seq<Seq<u8>>, fy: int, fx: int, ty: int, tx: int) -> bool {
    ||| slides(f, fy, fx, ty, tx, -1, -1)
    ||| slides(f, fy, fx, ty, tx, -1, 1)
    ||| slides(f, fy, fx, ty, tx, 1, 1)
    ||| slides(f, fy, fx, ty, tx, 1, -1)
}

pub open spec fn straight_reach(f: Seq<Seq<u8>>, fy: int, fx: int, ty: int, tx: int) -> bool {
    ||| slides(f, fy, fx, ty, tx, -1, 0)
    ||| slides(f, fy, fx, ty, tx, 1, 0)
    ||| slides(f, fy, fx, ty, tx, 0, 1)
    ||| slides(f, fy, fx, ty, tx, 0, -1)
}

pub open spec fn knight_jump(dy: int, dx: int) -> bool {
    ||| (dy == 1 || dy == -1) && (dx == 2 || dx == -2)
    ||| (dy == 2 || dy == -2) && (dx == 1 || dx == -1)
}

pub open spec fn king_step(dy: int, dx: int) -> bool {
    -1 <= dy <= 1 && -1 <= dx <= 1 && !(dy == 0 && dx == 0)
}

/// The piece of the side to move on (fy, fx), other than a pawn, moves to
/// (ty, tx) by its own rule: a knight's jump, a king's step, a bishop's,
/// rook's or queen's slide over empty squares.
pub open spec fn piece_reaches(b: Board, fy: int, fx: int, ty: int, tx: int) -> bool {
    let p = b.sq(fy, fx);
    let s = b.side();
    let f = b.fv();
    if p == KNIGHT + s {
        knight_jump(ty - fy, tx - fx)
    } else if p == BISHOP + s {
        diagonal_reach(f, fy, fx, ty, tx)
    } else if p == ROOK + s {
        straight_reach(f, fy, fx, ty, tx)
    } else if p == QUEEN + s {
        diagonal_reach(f, fy, fx, ty, tx) || straight_reach(f, fy, fx, ty, tx)
    } else if p == KING + s {
        king_step(ty - fy, tx - fx)
    } else {
        false
    }
}

/// A pawn advances one square onto an empty one, two from its starting
/// rank over an empty square, or captures diagonally forward; an en
/// passant capture has the shape that `move_ok` gives.
pub open spec fn pawn_reach(b: Board, m: Mov) -> bool {
    let (fy, fx, ty, tx) = (m.from.row() as int, m.from.col() as int, m.to.row() as int, m.to.col() as int);
    let s = b.side();
    let fw = forward(s);
    let t = b.sq(ty, tx);
    if special(m.data) && ty != last_rank(s) {
        true
    } else {
        ||| tx == fx && ty == fy + fw && is_empty(t)
        ||| tx == fx && ty == fy + 2 * fw && fy == (if s == 1 { 1int } else { 6int }) && is_empty(
            b.sq(fy + fw, fx),
        ) && is_empty(t)
        ||| (tx == fx + 1 || tx == fx - 1) && ty == fy + fw && !is_empty(t)
    }
}

/// The move follows the movement rule of its piece (castles and en passant
/// captures have the shapes that `move_ok` gives).
pub open spec fn reach_ok(b: Board, m: Mov) -> bool {
    let (fy, fx, ty, tx) = (m.from.row() as int, m.from.col() as int, m.to.row() as int, m.to.col() as int);
    let p = b.sq(fy, fx);
    let s = b.side();
    if p == PAWN + s {
        pawn_reach(b, m)
    } else if p == KING + s && special(m.data) {
        true
    } else {
        piece_reaches(b, fy, fx, ty, tx)
    }
}

/// What every generated move satisfies: a pseudo-legal move.
#[verifier::opaque]
pub open spec fn gen_ok(b: Board, m: Mov, hint: Check) -> bool {
    &&& move_ok(b, m)
    &&& reach_ok(b, m)
    &&& pseudo_move(
        b,
        hint,
        m.from.row() as int,
        m.from.col() as int,
        m.to.row() as int,
        m.to.col() as int,
        m.data % 64,
    )
    &&& (is_castle(b, m) ==> castle_allowed(b, m, hint) && hint != Check::InCheck && hint
        != Check::InDoubleCheck)
}

pub open spec fn all_gen_ok(b: Board, s: Seq<Mov>, hint: Check) -> bool {
    forall|i: int| 0 <= i < s.len() ==> gen_ok(b, #[trigger] s[i], hint)
}

/// The square of the mover's king once `m` is made.
pub open spec fn mover_king_after(b: Board, m: Mov) -> Coord {
    if b.sq(m.from.row() as int, m.from.col() as int) == KING + b.side() {
        m.to
    } else {
        b.king_of(b.side())
    }
}

/// After `m` the mover's king is not attacked through the categories of
/// `mask`.
pub open spec fn safe_after(b: Board, m: Mov, mask: [bool; 5]) -> bool {
    let o = (1 - b.side()) as u8;
    let k = mover_king_after(b, m);
    !attacked_on(make_field(b, m), b.king_of(o), k.row() as int, k.col() as int, o, mask)
}

/// The categories the legality filter looks at: all of them, except that a
/// caller who states that the king is not in check gets only the sliders
/// for moves of pieces other than the king.
pub open spec fn filter_mask(b: Board, m: Mov, hint: Check) -> [bool; 5] {
    if hint == Check::NotInCheck && mover_king_after(b, m) == b.king_of(b.side())
        && b.sq(m.from.row() as int, m.from.col() as int) != KING + b.side() {
        [true, true, false, false, false]
    } else {
        ALL_ATTACKERS
    }
}

pub open spec fn check_hint(h: Option<Check>) -> Check {
    match h {
        Some(c) => c,
        None => Check::Unknown,
    }
}

/// The check status that the annotation bits of a meta byte announce.
pub open spec fn check_of(d: u8) -> Check {
    if d >= 128 {
        Check::InDoubleCheck
    } else if d >= 64 {
        Check::InCheck
    } else {
        Check::NotInCheck
    }
}

proof fn lemma_cap_bits(t: u8)
    requires
        t <= 13,
    ensures
        cap_kind(((t / 2) * 8) as u8) == kind(t),
        !special(((t / 2) * 8) as u8),
        ((t / 2) * 8) as u8 <= 48,
{
}

proof fn lemma_promo_bits(c: u8, t: u8)
    requires
        c <= 3,
        t <= 13,
    ensures
        special((c * 2 + 1 + (t / 2) * 8) as u8),
        promo_code((c * 2 + 1 + (t / 2) * 8) as u8) == c,
        cap_kind((c * 2 + 1 + (t / 2) * 8) as u8) == kind(t),
{
}

/// A non-special move of a piece other than a pawn, onto an empty square or
/// capturing an enemy piece other than the king, is generated correctly.
proof fn lemma_plain_gen_ok(b: Board, m: Mov, hint: Check)
    requires
        b.wf(),
        on(m.from.row() as int, m.from.col() as int),
        on(m.to.row() as int, m.to.col() as int),
        !(m.from.row() == m.to.row() && m.from.col() == m.to.col()),
        b.sq(m.from.row() as int, m.from.col() as int) >= 2,
        color(b.sq(m.from.row() as int, m.from.col() as int)) == b.side(),
        b.sq(m.from.row() as int, m.from.col() as int) != PAWN + b.side(),
        piece_reaches(b, m.from.row() as int, m.from.col() as int, m.to.row() as int, m.to.col() as int),
        !special(m.data),
        m.data == step_data(b, m.to.row() as int, m.to.col() as int),
        hint == Check::InDoubleCheck ==> b.sq(m.from.row() as int, m.from.col() as int) == KING
            + b.side(),
        (is_empty(b.sq(m.to.row() as int, m.to.col() as int)) && cap_kind(m.data) == 0) || (
        !is_empty(b.sq(m.to.row() as int, m.to.col() as int)) && color(
            b.sq(m.to.row() as int, m.to.col() as int),
        ) != b.side() && cap_kind(m.data) == kind(b.sq(m.to.row() as int, m.to.col() as int))
            && kind(b.sq(m.to.row() as int, m.to.col() as int)) != KING),
    ensures
        gen_ok(b, m, hint),
{
    reveal(gen_ok);
}

proof fn lemma_ray_extend(f: Seq<Seq<u8>>, y: int, x: int, dy: int, dx: int, cy: int, cx: int, n: nat)
    requires
        ray_reaches(f, y, x, dy, dx, cy, cx, n),
        is_empty(f[cy][cx]),
        on(cy + dy, cx + dx),
        !(dy == 0 && dx == 0),
    ensures
        ray_reaches(f, y, x, dy, dx, cy + dy, cx + dx, n + 1),
    decreases n,
{
    if y == cy && x == cx {
        assert(ray_reaches(f, y + dy, x + dx, dy, dx, cy + dy, cx + dx, n));
    } else if y == cy + dy && x == cx + dx {
    } else {
        lemma_ray_extend(f, y + dy, x + dx, dy, dx, cy, cx, (n - 1) as nat);
    }
}

proof fn lemma_ray_more_fuel(f: Seq<Seq<u8>>, y: int, x: int, dy: int, dx: int, ty: int, tx: int, n: nat, m: nat)
    requires
        ray_reaches(f, y, x, dy, dx, ty, tx, n),
        n <= m,
    ensures
        ray_reaches(f, y, x, dy, dx, ty, tx, m),
    decreases n,
{
    if y == ty && x == tx {
    } else {
        lemma_ray_more_fuel(f, y + dy, x + dx, dy, dx, ty, tx, (n - 1) as nat, (m - 1) as nat);
    }
}

/// A pawn's diagonal capture that does not promote is generated correctly.
proof fn lemma_pawn_capture_gen_ok(b: Board, m: Mov, t: u8, hint: Check)
    requires
        b.wf(),
        on(m.from.row() as int, m.from.col() as int),
        on(m.to.row() as int, m.to.col() as int),
        b.sq(m.from.row() as int, m.from.col() as int) == PAWN + b.side(),
        t == b.sq(m.to.row() as int, m.to.col() as int),
        t >= 2 && color(t) != b.side() && kind(t) != KING,
        m.to.row() == m.from.row() + forward(b.side()),
        m.to.col() == m.from.col() + 1 || m.to.col() == m.from.col() - 1,
        m.to.row() != last_rank(b.side()),
        !special(m.data),
        cap_kind(m.data) == kind(t),
        m.data == cap_bits(t),
        hint != Check::InDoubleCheck,
    ensures
        gen_ok(b, m, hint),
{
    reveal(gen_ok);
}

/// The castle towards file `tx` that the generator offers to the king on
/// (y, x): the caller states no check or nothing, the king stands on its
/// home square, its own square is safe unless the caller stated no check,
/// the right is held, the squares between king and rook are empty, the
/// king's own rook is in the corner, and the squares the king passes over
/// and lands on are not attacked.
pub open spec fn castle_offered(b: Board, y: int, x: int, check: Check, tx: int) -> bool {
    let s = b.side();
    let o = (1 - s) as u8;
    let h = home_rank(s);
    &&& check == Check::NotInCheck || check == Check::Unknown
    &&& y == h && x == 4
    &&& (check == Check::NotInCheck || !b.attacked(h, 4, o, ALL_ATTACKERS))
    &&& b.castling & castle_right(s, tx) != 0
    &&& if tx == 6 {
        &&& is_empty(b.sq(h, 5)) && is_empty(b.sq(h, 6)) && b.sq(h, 7) == ROOK + s
        &&& !b.attacked(h, 5, o, ALL_ATTACKERS) && !b.attacked(h, 6, o, ALL_ATTACKERS)
    } else {
        &&& is_empty(b.sq(h, 3)) && is_empty(b.sq(h, 2)) && is_empty(b.sq(h, 1)) && b.sq(h, 0)
            == ROOK + s
        &&& !b.attacked(h, 3, o, ALL_ATTACKERS) && !b.attacked(h, 2, o, ALL_ATTACKERS)
    }
}

/// A promotion's meta byte over captured-piece bits `cap`: special bit
/// and any of the four promotion codes.
pub open spec fn promo_data(d: u8, cap: u8) -> bool {
    d >= cap && (d - cap) % 2 == 1 && d - cap < 8
}

/// The pawn moves the generator produces from (fy, fx): one step onto an
/// empty square, two from the starting rank over an empty square, a
/// diagonal capture of an enemy piece other than the king; on the last
/// rank each of these comes as the four promotions.
pub open spec fn pawn_generated(b: Board, fy: int, fx: int, ty: int, tx: int, d: u8) -> bool {
    pawn_push_generated(b, fy, fx, ty, tx, d) || pawn_capture_generated(b, fy, fx, ty, tx, d)
}

pub open spec fn pawn_push_generated(b: Board, fy: int, fx: int, ty: int, tx: int, d: u8) -> bool {
    let s = b.side();
    let fw = forward(s);
    let last = last_rank(s);
    let t = b.sq(ty, tx);
    ||| tx == fx && ty == fy + fw && on(ty, tx) && is_empty(t) && ty != last && d == 0
    ||| tx == fx && ty == fy + 2 * fw && fy == (if s == 1 { 1int } else { 6int }) && is_empty(
        b.sq(fy + fw, fx),
    ) && is_empty(t) && d == 0
    ||| tx == fx && ty == fy + fw && ty == last && on(ty, tx) && is_empty(t) && promo_data(d, 0)
}

pub open spec fn pawn_capture_generated(b: Board, fy: int, fx: int, ty: int, tx: int, d: u8) -> bool {
    let s = b.side();
    let fw = forward(s);
    let last = last_rank(s);
    let t = b.sq(ty, tx);
    (tx == fx + 1 || tx == fx - 1) && ty == fy + fw && on(ty, tx) && t >= 2 && color(t) != s
        && kind(t) != KING && (if ty != last {
        d == cap_bits(t)
    } else {
        promo_data(d, cap_bits(t))
    })
}

/// The en passant captures the generator produces: onto the en-passant
/// square, from beside it, by a pawn of the side to move, when that square
/// is empty and the pawn that advanced stands behind it.
pub open spec fn ep_generated(b: Board, fy: int, fx: int, ty: int, tx: int, d: u8) -> bool {
    let s = b.side();
    let row = if s == 1 { 5int } else { 2int };
    let from_row = if s == 1 { 4int } else { 3int };
    &&& b.en_passant.row() == row && b.en_passant.col() < 8
    &&& ty == row && tx == b.en_passant.col()
    &&& is_empty(b.sq(row, tx)) && b.sq(from_row, tx) == PAWN + (1 - s)
    &&& fy == from_row && (fx == tx - 1 || fx == tx + 1) && on(fy, fx)
    &&& b.sq(fy, fx) == PAWN + s
    &&& d == 9
}

/// The moves the generator produces for the piece on (fy, fx), other than
/// en passant captures, by squares and meta byte.
pub open spec fn square_move(b: Board, hint: Check, fy: int, fx: int, ty: int, tx: int, d: u8) -> bool {
    let p = b.sq(fy, fx);
    let s = b.side();
    let f = b.fv();
    let plain = step_target(b, ty, tx) && d == step_data(b, ty, tx);
    ||| p == PAWN + s && pawn_generated(b, fy, fx, ty, tx, d)
    ||| p == KING + s && king_step(ty - fy, tx - fx) && plain
    ||| p == KING + s && ty == fy && (tx == 6 || tx == 2) && d == 1 && castle_offered(
        b,
        fy,
        fx,
        hint,
        tx,
    )
    ||| p == KNIGHT + s && knight_jump(ty - fy, tx - fx) && plain
    ||| (p == BISHOP + s || p == QUEEN + s) && diagonal_reach(f, fy, fx, ty, tx) && plain
    ||| (p == ROOK + s || p == QUEEN + s) && straight_reach(f, fy, fx, ty, tx) && plain
}

/// The pseudo-legal moves, by squares and meta byte: with a double check
/// only the king's steps; otherwise every piece's moves, castles included,
/// and the en passant captures.
pub open spec fn pseudo_move(b: Board, hint: Check, fy: int, fx: int, ty: int, tx: int, d: u8) -> bool {
    &&& on(fy, fx)
    &&& if hint == Check::InDoubleCheck {
        b.sq(fy, fx) == KING + b.side() && king_step(ty - fy, tx - fx) && step_target(b, ty, tx)
            && d == step_data(b, ty, tx)
    } else {
        square_move(b, hint, fy, fx, ty, tx, d) || ep_generated(b, fy, fx, ty, tx, d)
    }
}

/// `s` holds a move from (fy, fx) to (ty, tx) with meta byte `d`.
pub open spec fn listed(s: Seq<Mov>, fy: int, fx: int, ty: int, tx: int, d: u8) -> bool {
    exists|i: int|
        0 <= i < s.len() && (#[trigger] s[i]).from.row() == fy && s[i].from.col() == fx
            && s[i].to.row() == ty && s[i].to.col() == tx && s[i].data == d
}

/// `b` is `a` with moves appended that start on (y, x).
pub open spec fn grows_from(a: Seq<Mov>, b: Seq<Mov>, y: int, x: int) -> bool {
    &&& a.len() <= b.len()
    &&& forall|i: int| 0 <= i < a.len() ==> b[i] == a[i]
    &&& forall|i: int|
        a.len() <= i < b.len() ==> (#[trigger] b[i]).from.row() == y && b[i].from.col() == x
}

/// Every move of `c` past the length of `a` is a pawn move that the
/// generator produces from (y, x).
pub open spec fn pawn_appended(b: Board, a: Seq<Mov>, c: Seq<Mov>, y: int, x: int) -> bool {
    forall|i: int|
        a.len() <= i < c.len() ==> pawn_generated(
            b,
            y,
            x,
            (#[trigger] c[i]).to.row() as int,
            c[i].to.col() as int,
            c[i].data,
        )
}

proof fn lemma_pawn_appended_trans(b: Board, a: Seq<Mov>, m: Seq<Mov>, c: Seq<Mov>, y: int, x: int)
    requires
        grows_from(a, m, y, x),
        grows_from(m, c, y, x),
        pawn_appended(b, a, m, y, x),
        pawn_appended(b, m, c, y, x),
    ensures
        pawn_appended(b, a, c, y, x),
        grows_from(a, c, y, x),
{
    lemma_grows_trans(a, m, c, y, x);
    assert forall|i: int| a.len() <= i < c.len() implies pawn_generated(
        b,
        y,
        x,
        (#[trigger] c[i]).to.row() as int,
        c[i].to.col() as int,
        c[i].data,
    ) by {
        if i < m.len() {
            assert(c[i] == m[i]);
        }
    }
}

proof fn lemma_grows_trans(a: Seq<Mov>, b: Seq<Mov>, c: Seq<Mov>, y: int, x: int)
    requires
        grows_from(a, b, y, x),
        grows_from(b, c, y, x),
    ensures
        grows_from(a, c, y, x),
{
    assert forall|i: int| a.len() <= i < c.len() implies (#[trigger] c[i]).from.row() == y
        && c[i].from.col() == x by {
        if i < b.len() {
            assert(c[i] == b[i]);
        }
    }
}

/// Every move that `s1` holds, `s2` holds too.
pub open spec fn keeps(s1: Seq<Mov>, s2: Seq<Mov>) -> bool {
    forall|fy: int, fx: int, ty: int, tx: int, d: u8|
        #[trigger] listed(s1, fy, fx, ty, tx, d) ==> listed(s2, fy, fx, ty, tx, d)
}

/// A piece other than a pawn may move onto (ty, tx): an empty square or an
/// enemy piece other than the king.
pub open spec fn step_target(b: Board, ty: int, tx: int) -> bool {
    on(ty, tx) && (is_empty(b.sq(ty, tx)) || (color(b.sq(ty, tx)) != b.side() && kind(
        b.sq(ty, tx),
    ) != KING))
}

/// The meta byte of a plain move onto (ty, tx).
pub open spec fn step_data(b: Board, ty: int, tx: int) -> u8 {
    if is_empty(b.sq(ty, tx)) {
        0
    } else {
        cap_bits(b.sq(ty, tx))
    }
}

proof fn lemma_push_keeps(s: Seq<Mov>, m: Mov)
    ensures
        keeps(s, s.push(m)),
        listed(
            s.push(m),
            m.from.row() as int,
            m.from.col() as int,
            m.to.row() as int,
            m.to.col() as int,
            m.data,
        ),
{
    assert forall|fy: int, fx: int, ty: int, tx: int, d: u8| #[trigger] listed(s, fy, fx, ty, tx, d) implies listed(
        s.push(m),
        fy,
        fx,
        ty,
        tx,
        d,
    ) by {
        let i = choose|i: int|
            0 <= i < s.len() && (#[trigger] s[i]).from.row() == fy && s[i].from.col() == fx
                && s[i].to.row() == ty && s[i].to.col() == tx && s[i].data == d;
        assert(s.push(m)[i] == s[i]);
    }
    assert(s.push(m)[s.len() as int] == m);
}

proof fn lemma_push_gen_ok(b: Board, s: Seq<Mov>, m: Mov, hint: Check)
    requires
        all_gen_ok(b, s, hint),
        gen_ok(b, m, hint),
    ensures
        all_gen_ok(b, s.push(m), hint),
{
    assert forall|i: int| 0 <= i < s.push(m).len() implies gen_ok(b, #[trigger] s.push(m)[i], hint) by {
        if i < s.len() {
            assert(s.push(m)[i] == s[i]);
        }
    }
}

impl Board {
    /// Adds the plain move (fy, fx) -> (ty, tx) unless a piece of the
    /// mover's colour or a king stands on the target; tells whether the
    /// target was empty.
    #[verifier::rlimit(80)]
    fn add_step(&self, vec: &mut Vec<Mov>, fy: u8, fx: u8, ty: u8, tx: u8, Ghost(hint): Ghost<Check>) -> (empty: bool)
        requires
            hint == Check::InDoubleCheck ==> self.sq(fy as int, fx as int) == KING + self.side(),
            self.wf(),
            on(fy as int, fx as int),
            on(ty as int, tx as int),
            !(fy == ty && fx == tx),
            self.sq(fy as int, fx as int) >= 2,
            color(self.sq(fy as int, fx as int)) == self.side(),
            self.sq(fy as int, fx as int) != PAWN + self.side(),
            piece_reaches(*self, fy as int, fx as int, ty as int, tx as int),
            all_gen_ok(*self, old(vec)@, hint),
        ensures
            grows_from(old(vec)@, final(vec)@, fy as int, fx as int),
            all_gen_ok(*self, final(vec)@, hint),
            empty == is_empty(self.sq(ty as int, tx as int)),
            keeps(old(vec)@, final(vec)@),
            step_target(*self, ty as int, tx as int) ==> listed(
                final(vec)@,
                fy as int,
                fx as int,
                ty as int,
                tx as int,
                step_data(*self, ty as int, tx as int),
            ),
    {
        proof { self.lemma_fv_shape(); }
        let t = self.field[ty as usize][tx as usize];
        assert(t == self.sq(ty as int, tx as int));
        assert(t <= 13);
        let s: u8 = if self.white_to_move { 1 } else { 0 };
        if t < 2 || (t % 2 != s && t - t % 2 != KING) {
            self.push_step(vec, fy, fx, ty, tx, t, Ghost(hint));
        }
        t < 2
    }

    /// Pushes the plain move (fy, fx) -> (ty, tx) onto a square holding `t`.
    fn push_step(&self, vec: &mut Vec<Mov>, fy: u8, fx: u8, ty: u8, tx: u8, t: u8, Ghost(hint): Ghost<Check>)
        requires
            hint == Check::InDoubleCheck ==> self.sq(fy as int, fx as int) == KING + self.side(),
            self.wf(),
            on(fy as int, fx as int),
            on(ty as int, tx as int),
            !(fy == ty && fx == tx),
            self.sq(fy as int, fx as int) >= 2,
            color(self.sq(fy as int, fx as int)) == self.side(),
            self.sq(fy as int, fx as int) != PAWN + self.side(),
            piece_reaches(*self, fy as int, fx as int, ty as int, tx as int),
            t == self.sq(ty as int, tx as int),
            t <= 13,
            step_target(*self, ty as int, tx as int),
            all_gen_ok(*self, old(vec)@, hint),
        ensures
            grows_from(old(vec)@, final(vec)@, fy as int, fx as int),
            all_gen_ok(*self, final(vec)@, hint),
            keeps(old(vec)@, final(vec)@),
            listed(
                final(vec)@,
                fy as int,
                fx as int,
                ty as int,
                tx as int,
                step_data(*self, ty as int, tx as int),
            ),
    {
        proof { lemma_cap_bits(t); }
        let data: u8 = if t < 2 { 0 } else { (t / 2) * 8 };
        let m = Mov { data, from: Coord::new(fy, fx), to: Coord::new(ty, tx) };
        proof {
            lemma_plain_gen_ok(*self, m, hint);
        }
        Self::push_gen(vec, m, Ghost(*self), Ghost(hint));
    }
}

impl Board {
    fn push_gen(vec: &mut Vec<Mov>, m: Mov, Ghost(b): Ghost<Board>, Ghost(hint): Ghost<Check>)
        requires
            gen_ok(b, m, hint),
            all_gen_ok(b, old(vec)@, hint),
        ensures
            all_gen_ok(b, final(vec)@, hint),
            keeps(old(vec)@, final(vec)@),
            final(vec)@ == old(vec)@.push(m),
            listed(
                final(vec)@,
                m.from.row() as int,
                m.from.col() as int,
                m.to.row() as int,
                m.to.col() as int,
                m.data,
            ),
    {
        proof {
            lemma_push_gen_ok(b, vec@, m, hint);
            lemma_push_keeps(vec@, m);
        }
        vec.push(m);
    }

    /// `add_step` towards (y + dy, x + dx) when that square is on the board.
    fn try_step(&self, vec: &mut Vec<Mov>, y: u8, x: u8, dy: i32, dx: i32, Ghost(hint): Ghost<Check>)
        requires
            hint == Check::InDoubleCheck ==> self.sq(y as int, x as int) == KING + self.side(),
            self.wf(),
            on(y as int, x as int),
            -2 <= dy <= 2,
            -2 <= dx <= 2,
            !(dy == 0 && dx == 0),
            self.sq(y as int, x as int) >= 2,
            color(self.sq(y as int, x as int)) == self.side(),
            self.sq(y as int, x as int) != PAWN + self.side(),
            (self.sq(y as int, x as int) == KNIGHT + self.side() && knight_jump(dy as int, dx as int))
                || (self.sq(y as int, x as int) == KING + self.side() && king_step(
                dy as int,
                dx as int,
            )),
            all_gen_ok(*self, old(vec)@, hint),
        ensures
            grows_from(old(vec)@, final(vec)@, y as int, x as int),
            all_gen_ok(*self, final(vec)@, hint),
            keeps(old(vec)@, final(vec)@),
            step_target(*self, y + dy, x + dx) ==> listed(
                final(vec)@,
                y as int,
                x as int,
                y + dy,
                x + dx,
                step_data(*self, y + dy, x + dx),
            ),
    {
        let ty = y as i32 + dy;
        let tx = x as i32 + dx;
        if 0 <= ty && ty < 8 && 0 <= tx && tx < 8 {
            self.add_step(vec, y, x, ty as u8, tx as u8, Ghost(hint));
        }
    }

    /// `try_step` by four offsets.
    #[verifier::rlimit(40)]
    fn try_steps4(
        &self,
        vec: &mut Vec<Mov>,
        y: u8,
        x: u8,
        d: [(i32, i32); 4],
        Ghost(hint): Ghost<Check>,
    )
        requires
            hint == Check::InDoubleCheck ==> self.sq(y as int, x as int) == KING + self.side(),
            self.wf(),
            on(y as int, x as int),
            forall|k: int|
                0 <= k < 4 ==> -2 <= (#[trigger] d[k]).0 <= 2 && -2 <= d[k].1 <= 2 && !(d[k].0 == 0
                    && d[k].1 == 0),
            self.sq(y as int, x as int) >= 2,
            color(self.sq(y as int, x as int)) == self.side(),
            self.sq(y as int, x as int) != PAWN + self.side(),
            forall|k: int|
                0 <= k < 4 ==> (self.sq(y as int, x as int) == KNIGHT + self.side() && knight_jump(
                    (#[trigger] d[k]).0 as int,
                    d[k].1 as int,
                )) || (self.sq(y as int, x as int) == KING + self.side() && king_step(
                    d[k].0 as int,
                    d[k].1 as int,
                )),
            all_gen_ok(*self, old(vec)@, hint),
        ensures
            grows_from(old(vec)@, final(vec)@, y as int, x as int),
            all_gen_ok(*self, final(vec)@, hint),
            keeps(old(vec)@, final(vec)@),
            forall|k: int|
                0 <= k < 4 && step_target(*self, y + (#[trigger] d[k]).0, x + d[k].1) ==> listed(
                    final(vec)@,
                    y as int,
                    x as int,
                    y + d[k].0,
                    x + d[k].1,
                    step_data(*self, y + d[k].0, x + d[k].1),
                ),
    {
        let ghost v0 = vec@;
        let (a, b) = d[0];
        self.try_step(vec, y, x, a, b, Ghost(hint));
        let ghost v1 = vec@;
        let (a, b) = d[1];
        self.try_step(vec, y, x, a, b, Ghost(hint));
        let ghost v2 = vec@;
        let (a, b) = d[2];
        self.try_step(vec, y, x, a, b, Ghost(hint));
        let ghost v3 = vec@;
        let (a, b) = d[3];
        self.try_step(vec, y, x, a, b, Ghost(hint));
        assert forall|k: int|
            0 <= k < 4 && step_target(*self, y + (#[trigger] d[k]).0, x + d[k].1) implies listed(
            vec@,
            y as int,
            x as int,
            y + d[k].0,
            x + d[k].1,
            step_data(*self, y + d[k].0, x + d[k].1),
        ) by {
            let (ty, tx, sd) = (y + d[k].0, x + d[k].1, step_data(*self, y + d[k].0, x + d[k].1));
            if k == 0 {
                assert(listed(v1, y as int, x as int, ty, tx, sd));
                assert(listed(v2, y as int, x as int, ty, tx, sd));
                assert(listed(v3, y as int, x as int, ty, tx, sd));
            } else if k == 1 {
                assert(listed(v2, y as int, x as int, ty, tx, sd));
                assert(listed(v3, y as int, x as int, ty, tx, sd));
            } else if k == 2 {
                assert(listed(v3, y as int, x as int, ty, tx, sd));
            }
        }
    }

    /// Knight moves from (y, x).
    #[verifier::rlimit(80)]
    fn add_legal_moves_n(&self, vec: &mut Vec<Mov>, y: u8, x: u8, Ghost(hint): Ghost<Check>)
        requires
            hint != Check::InDoubleCheck,
            self.wf(),
            on(y as int, x as int),
            self.sq(y as int, x as int) == KNIGHT + self.side(),
            all_gen_ok(*self, old(vec)@, hint),
        ensures
            grows_from(old(vec)@, final(vec)@, y as int, x as int),
            all_gen_ok(*self, final(vec)@, hint),
            keeps(old(vec)@, final(vec)@),
            forall|ty: int, tx: int|
                knight_jump(ty - y, tx - x) && #[trigger] step_target(*self, ty, tx) ==> listed(
                    final(vec)@,
                    y as int,
                    x as int,
                    ty,
                    tx,
                    step_data(*self, ty, tx),
                ),
    {
        let da: [(i32, i32); 4] = [(2, 1), (1, 2), (-1, 2), (-2, 1)];
        let db: [(i32, i32); 4] = [(-2, -1), (-1, -2), (1, -2), (2, -1)];
        self.try_steps4(vec, y, x, da, Ghost(hint));
        let ghost v1 = vec@;
        self.try_steps4(vec, y, x, db, Ghost(hint));
        assert forall|ty: int, tx: int|
            knight_jump(ty - y, tx - x) && #[trigger] step_target(*self, ty, tx) implies listed(
            vec@,
            y as int,
            x as int,
            ty,
            tx,
            step_data(*self, ty, tx),
        ) by {
            let (a, b) = (ty - y, tx - x);
            if a == 2 && b == 1 { assert(da[0] == (2i32, 1i32)); assert(listed(v1, y as int, x as int, ty, tx, step_data(*self, ty, tx))); }
            else if a == 1 && b == 2 { assert(da[1] == (1i32, 2i32)); assert(listed(v1, y as int, x as int, ty, tx, step_data(*self, ty, tx))); }
            else if a == -1 && b == 2 { assert(da[2] == (-1i32, 2i32)); assert(listed(v1, y as int, x as int, ty, tx, step_data(*self, ty, tx))); }
            else if a == -2 && b == 1 { assert(da[3] == (-2i32, 1i32)); assert(listed(v1, y as int, x as int, ty, tx, step_data(*self, ty, tx))); }
            else if a == -2 && b == -1 { assert(db[0] == (-2i32, -1i32)); }
            else if a == -1 && b == -2 { assert(db[1] == (-1i32, -2i32)); }
            else if a == 1 && b == -2 { assert(db[2] == (1i32, -2i32)); }
            else { assert(db[3] == (2i32, -1i32)); }
        }
    }

    /// Moves along one ray from (y, x) up to the first piece, capturing it
    /// when it is an enemy.
    #[verifier::rlimit(30)]
    fn add_ray(&self, vec: &mut Vec<Mov>, y: u8, x: u8, dy: i32, dx: i32, Ghost(hint): Ghost<Check>)
        requires
            hint != Check::InDoubleCheck,
            self.wf(),
            on(y as int, x as int),
            -1 <= dy <= 1,
            -1 <= dx <= 1,
            !(dy == 0 && dx == 0),
            self.sq(y as int, x as int) == QUEEN + self.side() || (self.sq(y as int, x as int)
                == BISHOP + self.side() && dy != 0 && dx != 0) || (self.sq(y as int, x as int)
                == ROOK + self.side() && (dy == 0 || dx == 0)),
            all_gen_ok(*self, old(vec)@, hint),
        ensures
            grows_from(old(vec)@, final(vec)@, y as int, x as int),
            all_gen_ok(*self, final(vec)@, hint),
            keeps(old(vec)@, final(vec)@),
            forall|ty: int, tx: int|
                slides(self.fv(), y as int, x as int, ty, tx, dy as int, dx as int)
                    && #[trigger] step_target(*self, ty, tx) ==> listed(
                    final(vec)@,
                    y as int,
                    x as int,
                    ty,
                    tx,
                    step_data(*self, ty, tx),
                ),
    {
        proof { self.lemma_fv_shape(); }
        let ghost f = self.fv();
        let ghost v0 = vec@;
        let mut cy = y as i32 + dy;
        let mut cx = x as i32 + dx;
        let mut fuel: u8 = 8;
        while fuel > 0 && 0 <= cy && cy < 8 && 0 <= cx && cx < 8
            invariant
                self.wf(),
                f == self.fv(),
                on(y as int, x as int),
                hint != Check::InDoubleCheck,
                -1 <= dy <= 1,
                -1 <= dx <= 1,
                !(dy == 0 && dx == 0),
                fuel <= 8,
                dy == 1 ==> cy > y,
                dy == -1 ==> cy < y,
                dx == 1 ==> cx > x,
                dx == -1 ==> cx < x,
                dy == 0 ==> cy == y,
                dx == 0 ==> cx == x,
                -9 <= cy <= 16,
                -9 <= cx <= 16,
                on(cy as int, cx as int) ==> ray_reaches(
                    f,
                    y + dy,
                    x + dx,
                    dy as int,
                    dx as int,
                    cy as int,
                    cx as int,
                    (9 - fuel) as nat,
                ),
                self.sq(y as int, x as int) == QUEEN + self.side() || (self.sq(y as int, x as int)
                    == BISHOP + self.side() && dy != 0 && dx != 0) || (self.sq(y as int, x as int)
                    == ROOK + self.side() && (dy == 0 || dx == 0)),
                all_gen_ok(*self, vec@, hint),
                grows_from(v0, vec@, y as int, x as int),
                keeps(v0, vec@),
                forall|ty: int, tx: int|
                    slides(f, y as int, x as int, ty, tx, dy as int, dx as int)
                        && #[trigger] step_target(*self, ty, tx) ==> listed(
                        vec@,
                        y as int,
                        x as int,
                        ty,
                        tx,
                        step_data(*self, ty, tx),
                    ) || ray_reaches(f, cy as int, cx as int, dy as int, dx as int, ty, tx, fuel as nat),
            ensures
                grows_from(v0, vec@, y as int, x as int),
                keeps(v0, vec@),
                all_gen_ok(*self, vec@, hint),
                forall|ty: int, tx: int|
                    slides(f, y as int, x as int, ty, tx, dy as int, dx as int)
                        && #[trigger] step_target(*self, ty, tx) ==> listed(
                        vec@,
                        y as int,
                        x as int,
                        ty,
                        tx,
                        step_data(*self, ty, tx),
                    ),
            decreases fuel,
        {
            proof {
                lemma_ray_more_fuel(
                    f,
                    y + dy,
                    x + dx,
                    dy as int,
                    dx as int,
                    cy as int,
                    cx as int,
                    (9 - fuel) as nat,
                    8,
                );
                assert(slides(f, y as int, x as int, cy as int, cx as int, dy as int, dx as int));
            }
            let ghost vb = vec@;
            let empty = self.add_step(vec, y, x, cy as u8, cx as u8, Ghost(hint));
            proof { lemma_grows_trans(v0, vb, vec@, y as int, x as int); }
            if !empty {
                proof {
                    assert forall|ty: int, tx: int|
                        slides(f, y as int, x as int, ty, tx, dy as int, dx as int)
                            && #[trigger] step_target(*self, ty, tx) implies listed(
                        vec@,
                        y as int,
                        x as int,
                        ty,
                        tx,
                        step_data(*self, ty, tx),
                    ) by {
                        if !listed(vb, y as int, x as int, ty, tx, step_data(*self, ty, tx)) {
                            assert(ray_reaches(f, cy as int, cx as int, dy as int, dx as int, ty, tx, fuel as nat));
                            assert(ty == cy && tx == cx);
                        }
                    }
                }
                break;
            }
            proof {
                if on(cy + dy, cx + dx) {
                    lemma_ray_extend(
                        f,
                        y + dy,
                        x + dx,
                        dy as int,
                        dx as int,
                        cy as int,
                        cx as int,
                        (9 - fuel) as nat,
                    );
                }
            }
            cy = cy + dy;
            cx = cx + dx;
            fuel = fuel - 1;
        }
    }

    /// Diagonal moves from (y, x).
    fn add_legal_moves_bq(&self, vec: &mut Vec<Mov>, y: u8, x: u8, Ghost(hint): Ghost<Check>)
        requires
            hint != Check::InDoubleCheck,
            self.wf(),
            on(y as int, x as int),
            self.sq(y as int, x as int) == BISHOP + self.side() || self.sq(y as int, x as int)
                == QUEEN + self.side(),
            all_gen_ok(*self, old(vec)@, hint),
        ensures
            grows_from(old(vec)@, final(vec)@, y as int, x as int),
            all_gen_ok(*self, final(vec)@, hint),
            keeps(old(vec)@, final(vec)@),
            forall|ty: int, tx: int|
                diagonal_reach(self.fv(), y as int, x as int, ty, tx) && #[trigger] step_target(*self, ty, tx)
                    ==> listed(final(vec)@, y as int, x as int, ty, tx, step_data(*self, ty, tx)),
    {
        self.add_ray(vec, y, x, -1, -1, Ghost(hint));
        self.add_ray(vec, y, x, -1, 1, Ghost(hint));
        self.add_ray(vec, y, x, 1, 1, Ghost(hint));
        self.add_ray(vec, y, x, 1, -1, Ghost(hint));
    }

    /// Straight moves from (y, x).
    fn add_legal_moves_rq(&self, vec: &mut Vec<Mov>, y: u8, x: u8, Ghost(hint): Ghost<Check>)
        requires
            hint != Check::InDoubleCheck,
            self.wf(),
            on(y as int, x as int),
            self.sq(y as int, x as int) == ROOK + self.side() || self.sq(y as int, x as int)
                == QUEEN + self.side(),
            all_gen_ok(*self, old(vec)@, hint),
        ensures
            grows_from(old(vec)@, final(vec)@, y as int, x as int),
            all_gen_ok(*self, final(vec)@, hint),
            keeps(old(vec)@, final(vec)@),
            forall|ty: int, tx: int|
                straight_reach(self.fv(), y as int, x as int, ty, tx) && #[trigger] step_target(*self, ty, tx)
                    ==> listed(final(vec)@, y as int, x as int, ty, tx, step_data(*self, ty, tx)),
    {
        self.add_ray(vec, y, x, -1, 0, Ghost(hint));
        self.add_ray(vec, y, x, 1, 0, Ghost(hint));
        self.add_ray(vec, y, x, 0, 1, Ghost(hint));
        self.add_ray(vec, y, x, 0, -1, Ghost(hint));
    }

    /// King steps from (y, x), and castles when the check status allows.
    #[verifier::rlimit(30)]
    fn add_legal_moves_k(&self, vec: &mut Vec<Mov>, y: u8, x: u8, check: Check)
        requires
            self.wf(),
            on(y as int, x as int),
            self.sq(y as int, x as int) == KING + self.side(),
            all_gen_ok(*self, old(vec)@, check),
        ensures
            grows_from(old(vec)@, final(vec)@, y as int, x as int),
            all_gen_ok(*self, final(vec)@, check),
            keeps(old(vec)@, final(vec)@),
            forall|ty: int, tx: int|
                king_step(ty - y, tx - x) && #[trigger] step_target(*self, ty, tx) ==> listed(
                    final(vec)@,
                    y as int,
                    x as int,
                    ty,
                    tx,
                    step_data(*self, ty, tx),
                ),
            castle_offered(*self, y as int, x as int, check, 6) ==> listed(
                final(vec)@,
                y as int,
                4,
                y as int,
                6,
                1,
            ),
            castle_offered(*self, y as int, x as int, check, 2) ==> listed(
                final(vec)@,
                y as int,
                4,
                y as int,
                2,
                1,
            ),
    {
        self.add_king_steps(vec, y, x, Ghost(check));
        self.add_castles(vec, y, x, check);
    }

    /// The king's steps from (y, x).
    #[verifier::rlimit(80)]
    fn add_king_steps(&self, vec: &mut Vec<Mov>, y: u8, x: u8, Ghost(check): Ghost<Check>)
        requires
            self.wf(),
            on(y as int, x as int),
            self.sq(y as int, x as int) == KING + self.side(),
            all_gen_ok(*self, old(vec)@, check),
        ensures
            grows_from(old(vec)@, final(vec)@, y as int, x as int),
            all_gen_ok(*self, final(vec)@, check),
            keeps(old(vec)@, final(vec)@),
            forall|ty: int, tx: int|
                king_step(ty - y, tx - x) && #[trigger] step_target(*self, ty, tx) ==> listed(
                    final(vec)@,
                    y as int,
                    x as int,
                    ty,
                    tx,
                    step_data(*self, ty, tx),
                ),
    {
        let da: [(i32, i32); 4] = [(-1, -1), (-1, 0), (-1, 1), (0, -1)];
        let db: [(i32, i32); 4] = [(1, 1), (1, 0), (1, -1), (0, 1)];
        self.try_steps4(vec, y, x, da, Ghost(check));
        let ghost v1 = vec@;
        self.try_steps4(vec, y, x, db, Ghost(check));
        assert forall|ty: int, tx: int|
            king_step(ty - y, tx - x) && #[trigger] step_target(*self, ty, tx) implies listed(
            vec@,
            y as int,
            x as int,
            ty,
            tx,
            step_data(*self, ty, tx),
        ) by {
            let (a, b) = (ty - y, tx - x);
            if a == -1 && b == -1 { assert(da[0] == (-1i32, -1i32)); assert(listed(v1, y as int, x as int, ty, tx, step_data(*self, ty, tx))); }
            else if a == -1 && b == 0 { assert(da[1] == (-1i32, 0i32)); assert(listed(v1, y as int, x as int, ty, tx, step_data(*self, ty, tx))); }
            else if a == -1 && b == 1 { assert(da[2] == (-1i32, 1i32)); assert(listed(v1, y as int, x as int, ty, tx, step_data(*self, ty, tx))); }
            else if a == 0 && b == -1 { assert(da[3] == (0i32, -1i32)); assert(listed(v1, y as int, x as int, ty, tx, step_data(*self, ty, tx))); }
            else if a == 1 && b == 1 { assert(db[0] == (1i32, 1i32)); }
            else if a == 1 && b == 0 { assert(db[1] == (1i32, 0i32)); }
            else if a == 1 && b == -1 { assert(db[2] == (1i32, -1i32)); }
            else { assert(db[3] == (0i32, 1i32)); }
        }
    }

    /// The castles of the king on (y, x) that the check status allows.
    #[verifier::rlimit(30)]
    fn add_castles(&self, vec: &mut Vec<Mov>, y: u8, x: u8, check: Check)
        requires
            self.wf(),
            on(y as int, x as int),
            self.sq(y as int, x as int) == KING + self.side(),
            all_gen_ok(*self, old(vec)@, check),
        ensures
            grows_from(old(vec)@, final(vec)@, y as int, x as int),
            all_gen_ok(*self, final(vec)@, check),
            keeps(old(vec)@, final(vec)@),
            castle_offered(*self, y as int, x as int, check, 6) ==> listed(
                final(vec)@,
                y as int,
                4,
                y as int,
                6,
                1,
            ),
            castle_offered(*self, y as int, x as int, check, 2) ==> listed(
                final(vec)@,
                y as int,
                4,
                y as int,
                2,
                1,
            ),
    {
        reveal(gen_ok);
        proof { self.lemma_fv_shape(); }
        if check == Check::NotInCheck || check == Check::Unknown {
            let s: u8 = if self.white_to_move { 1 } else { 0 };
            let h: u8 = if s == 1 { 0 } else { 7 };
            let hu = h as usize;
            let opp = !self.white_to_move;
            let (kbit, qbit) = if s == 1 {
                (WHITE_KING_SIDE, WHITE_QUEEN_SIDE)
            } else {
                (BLACK_KING_SIDE, BLACK_QUEEN_SIDE)
            };
            if y == h && x == 4 && (check == Check::NotInCheck || !self.is_square_attacked(
                h,
                4,
                opp,
                ALL_ATTACKERS,
            )) {
                if self.castling & kbit != 0 && self.field[hu][5] < 2 && self.field[hu][6] < 2
                    && self.field[hu][7] == ROOK + s && !self.is_square_attacked(
                    h,
                    5,
                    opp,
                    ALL_ATTACKERS,
                ) && !self.is_square_attacked(h, 6, opp, ALL_ATTACKERS) {
                    let m = Mov { data: 1, from: Coord::new(h, 4), to: Coord::new(h, 6) };
                    assert(self.sq(h as int, 5) == self.field[hu as int][5]);
                    assert(self.sq(h as int, 6) == self.field[hu as int][6]);
                    assert(self.sq(h as int, 7) == self.field[hu as int][7]);
                    assert(gen_ok(*self, m, check));
                    Self::push_gen(vec, m, Ghost(*self), Ghost(check));
                }
                if self.castling & qbit != 0 && self.field[hu][3] < 2 && self.field[hu][2] < 2
                    && self.field[hu][1] < 2 && self.field[hu][0] == ROOK + s
                    && !self.is_square_attacked(h, 3, opp, ALL_ATTACKERS) && !self.is_square_attacked(
                    h,
                    2,
                    opp,
                    ALL_ATTACKERS,
                ) {
                    let m = Mov { data: 1, from: Coord::new(h, 4), to: Coord::new(h, 2) };
                    assert(self.sq(h as int, 3) == self.field[hu as int][3]);
                    assert(self.sq(h as int, 2) == self.field[hu as int][2]);
                    assert(self.sq(h as int, 1) == self.field[hu as int][1]);
                    assert(self.sq(h as int, 0) == self.field[hu as int][0]);
                    assert(gen_ok(*self, m, check));
                    Self::push_gen(vec, m, Ghost(*self), Ghost(check));
                }
            }
        }
    }
}

impl Board {
    /// Adds the four promotions of the pawn on (y, x) moving to (ty, tx),
    /// queen first; `t` is the piece it captures there (0 for none).
    #[verifier::rlimit(30)]
    fn add_promotions(&self, vec: &mut Vec<Mov>, y: u8, x: u8, ty: u8, tx: u8, t: u8, Ghost(hint): Ghost<Check>)
        requires
            hint != Check::InDoubleCheck,
            self.wf(),
            on(y as int, x as int),
            on(ty as int, tx as int),
            self.sq(y as int, x as int) == PAWN + self.side(),
            ty == last_rank(self.side()),
            y == ty - forward(self.side()),
            t == self.sq(ty as int, tx as int),
            (is_empty(t) && t == 0) || (color(t) != self.side() && kind(t) != KING && t >= 2),
            (tx == x && is_empty(t)) || ((tx == x + 1 || tx == x - 1) && !is_empty(t)),
            all_gen_ok(*self, old(vec)@, hint),
        ensures
            pawn_appended(*self, old(vec)@, final(vec)@, y as int, x as int),
            grows_from(old(vec)@, final(vec)@, y as int, x as int),
            all_gen_ok(*self, final(vec)@, hint),
            keeps(old(vec)@, final(vec)@),
            forall|d: u8|
                #[trigger] promo_data(d, cap_bits(t)) ==> listed(
                    final(vec)@,
                    y as int,
                    x as int,
                    ty as int,
                    tx as int,
                    d,
                ),
            final(vec)@.len() == old(vec)@.len() + 4,
            forall|k: int|
                0 <= k < 4 ==> (#[trigger] final(vec)@[old(vec)@.len() + k]).data == (3 - k) * 2 + 1
                    + cap_bits(t),
    {
        reveal(gen_ok);
        proof { self.lemma_fv_shape(); }
        let cap = (t / 2) * 8;
        let ghost v0 = vec@;
        let from = Coord::new(y, x);
        let to = Coord::new(ty, tx);
        let mut c: u8 = 4;
        while c > 0
            invariant
                c <= 4,
                cap == (t / 2) * 8,
                t <= 13,
                from.row() == y && from.col() == x,
                to.row() == ty && to.col() == tx,
                self.wf(),
                on(y as int, x as int),
                on(ty as int, tx as int),
                self.sq(y as int, x as int) == PAWN + self.side(),
                ty == last_rank(self.side()),
                y == ty - forward(self.side()),
                t == self.sq(ty as int, tx as int),
                (is_empty(t) && t == 0) || (color(t) != self.side() && kind(t) != KING && t >= 2),
                (tx == x && is_empty(t)) || ((tx == x + 1 || tx == x - 1) && !is_empty(t)),
                hint != Check::InDoubleCheck,
                all_gen_ok(*self, vec@, hint),
                keeps(v0, vec@),
                vec@.len() == v0.len() + (4 - c),
                pawn_appended(*self, v0, vec@, y as int, x as int),
                grows_from(v0, vec@, y as int, x as int),
                forall|k: int|
                    0 <= k < 4 - c ==> (#[trigger] vec@[v0.len() + k]).data == (3 - k) * 2 + 1
                        + cap_bits(t),
                forall|d: u8|
                    #[trigger] promo_data(d, cap_bits(t)) && (d - cap_bits(t) - 1) / 2 >= c ==> listed(
                        vec@,
                        y as int,
                        x as int,
                        ty as int,
                        tx as int,
                        d,
                    ),
            decreases c,
        {
            c = c - 1;
            proof { lemma_promo_bits(c, t); }
            let m = Mov { data: c * 2 + 1 + cap, from, to };
            proof { reveal(gen_ok); }
            assert(gen_ok(*self, m, hint));
            let ghost old_vec = vec@;
            Self::push_gen(vec, m, Ghost(*self), Ghost(hint));
            assert(vec@[vec@.len() - 1] == m);
            assert(forall|k: int| 0 <= k < vec@.len() - 1 ==> vec@[k] == old_vec[k]);
        }
    }

    /// A pawn capture that does not promote.
    #[verifier::rlimit(30)]
    fn add_pawn_plain_capture(&self, vec: &mut Vec<Mov>, y: u8, x: u8, ty: u8, tx: u8, t: u8, Ghost(hint): Ghost<Check>)
        requires
            hint != Check::InDoubleCheck,
            self.wf(),
            on(y as int, x as int),
            on(ty as int, tx as int),
            !(y == ty && x == tx),
            self.sq(y as int, x as int) == PAWN + self.side(),
            t == self.sq(ty as int, tx as int),
            t >= 2 && color(t) != self.side() && kind(t) != KING,
            ty == y + forward(self.side()),
            tx == x + 1 || tx == x - 1,
            ty != last_rank(self.side()),
            all_gen_ok(*self, old(vec)@, hint),
        ensures
            pawn_appended(*self, old(vec)@, final(vec)@, y as int, x as int),
            grows_from(old(vec)@, final(vec)@, y as int, x as int),
            all_gen_ok(*self, final(vec)@, hint),
            keeps(old(vec)@, final(vec)@),
            listed(final(vec)@, y as int, x as int, ty as int, tx as int, cap_bits(t)),
    {
        proof { lemma_cap_bits(t); }
        let m = Mov { data: (t / 2) * 8, from: Coord::new(y, x), to: Coord::new(ty, tx) };
        proof { lemma_pawn_capture_gen_ok(*self, m, t, hint); }
        Self::push_gen(vec, m, Ghost(*self), Ghost(hint));
    }

    /// A pawn capture from (y, x) to (y + dy, x + dx) when an enemy piece
    /// other than the king stands there, promoting on the last rank.
    #[verifier::rlimit(30)]
    fn add_pawn_capture(&self, vec: &mut Vec<Mov>, y: u8, x: u8, dy: i32, dx: i32, Ghost(hint): Ghost<Check>)
        requires
            hint != Check::InDoubleCheck,
            self.wf(),
            on(y as int, x as int),
            self.sq(y as int, x as int) == PAWN + self.side(),
            dy == forward(self.side()),
            dx == 1 || dx == -1,
            all_gen_ok(*self, old(vec)@, hint),
        ensures
            pawn_appended(*self, old(vec)@, final(vec)@, y as int, x as int),
            grows_from(old(vec)@, final(vec)@, y as int, x as int),
            all_gen_ok(*self, final(vec)@, hint),
            keeps(old(vec)@, final(vec)@),
            forall|ty: int, tx: int, d: u8|
                ty == y + dy && tx == x + dx && #[trigger] pawn_generated(
                    *self,
                    y as int,
                    x as int,
                    ty,
                    tx,
                    d,
                ) ==> listed(final(vec)@, y as int, x as int, ty, tx, d),
    {
        proof { self.lemma_fv_shape(); }
        let s: u8 = if self.white_to_move { 1 } else { 0 };
        let ty = y as i32 + dy;
        let tx = x as i32 + dx;
        if 0 <= ty && ty < 8 && 0 <= tx && tx < 8 {
            let t = self.field[ty as usize][tx as usize];
            assert(t == self.sq(ty as int, tx as int));
            if t >= 2 && t % 2 != s && t - t % 2 != KING {
                if (s == 1 && ty == 7) || (s == 0 && ty == 0) {
                    self.add_promotions(vec, y, x, ty as u8, tx as u8, t, Ghost(hint));
                } else {
                    self.add_pawn_plain_capture(vec, y, x, ty as u8, tx as u8, t, Ghost(hint));
                }
            }
        }
    }

    /// Pawn advances, captures and promotions from (y, x).
    #[verifier::rlimit(60)]
    fn add_legal_moves_p(&self, vec: &mut Vec<Mov>, y: u8, x: u8, Ghost(hint): Ghost<Check>)
        requires
            hint != Check::InDoubleCheck,
            self.wf(),
            on(y as int, x as int),
            self.sq(y as int, x as int) == PAWN + self.side(),
            all_gen_ok(*self, old(vec)@, hint),
        ensures
            pawn_appended(*self, old(vec)@, final(vec)@, y as int, x as int),
            grows_from(old(vec)@, final(vec)@, y as int, x as int),
            all_gen_ok(*self, final(vec)@, hint),
            keeps(old(vec)@, final(vec)@),
            forall|ty: int, tx: int, d: u8|
                #[trigger] pawn_generated(*self, y as int, x as int, ty, tx, d) ==> listed(
                    final(vec)@,
                    y as int,
                    x as int,
                    ty,
                    tx,
                    d,
                ),
    {
        let ghost v0 = vec@;
        self.add_pawn_pushes(vec, y, x, Ghost(hint));
        let ghost v1 = vec@;
        let dy: i32 = if self.white_to_move { 1 } else { -1 };
        self.add_pawn_capture(vec, y, x, dy, -1, Ghost(hint));
        let ghost v2 = vec@;
        self.add_pawn_capture(vec, y, x, dy, 1, Ghost(hint));
        proof {
            lemma_pawn_appended_trans(*self, v0, v1, v2, y as int, x as int);
            lemma_pawn_appended_trans(*self, v0, v2, vec@, y as int, x as int);
        }
        assert forall|ty: int, tx: int, d: u8|
            #[trigger] pawn_generated(*self, y as int, x as int, ty, tx, d) implies listed(
            vec@,
            y as int,
            x as int,
            ty,
            tx,
            d,
        ) by {
            if pawn_capture_generated(*self, y as int, x as int, ty, tx, d) {
                assert(ty == y + dy);
            }
        }
    }

    /// Pawn advances from (y, x), as promotions on the last rank.
    #[verifier::rlimit(60)]
    fn add_pawn_pushes(&self, vec: &mut Vec<Mov>, y: u8, x: u8, Ghost(hint): Ghost<Check>)
        requires
            hint != Check::InDoubleCheck,
            self.wf(),
            on(y as int, x as int),
            self.sq(y as int, x as int) == PAWN + self.side(),
            all_gen_ok(*self, old(vec)@, hint),
        ensures
            pawn_appended(*self, old(vec)@, final(vec)@, y as int, x as int),
            grows_from(old(vec)@, final(vec)@, y as int, x as int),
            all_gen_ok(*self, final(vec)@, hint),
            keeps(old(vec)@, final(vec)@),
            forall|ty: int, tx: int, d: u8|
                #[trigger] pawn_push_generated(*self, y as int, x as int, ty, tx, d) ==> listed(
                    final(vec)@,
                    y as int,
                    x as int,
                    ty,
                    tx,
                    d,
                ),
    {
        reveal(gen_ok);
        proof { self.lemma_fv_shape(); }
        let s: u8 = if self.white_to_move { 1 } else { 0 };
        let dy: i32 = if s == 1 { 1 } else { -1 };
        let ty = y as i32 + dy;
        if 0 <= ty && ty < 8 {
            let t = self.field[ty as usize][x as usize];
            assert(t == self.sq(ty as int, x as int));
            if t < 2 {
                if (s == 1 && ty == 7) || (s == 0 && ty == 0) {
                    self.add_promotions(vec, y, x, ty as u8, x, t, Ghost(hint));
                    assert(cap_bits(t) == 0);
                } else {
                    self.add_pawn_advance(vec, y, x, ty as u8, Ghost(hint));
                }
            }
        }
    }

    /// The one-step advance of the pawn on (y, x) to the empty square
    /// (ty, x) short of the last rank, and its two-step advance from the
    /// starting rank.
    #[verifier::rlimit(60)]
    fn add_pawn_advance(&self, vec: &mut Vec<Mov>, y: u8, x: u8, ty: u8, Ghost(hint): Ghost<Check>)
        requires
            hint != Check::InDoubleCheck,
            self.wf(),
            on(y as int, x as int),
            on(ty as int, x as int),
            self.sq(y as int, x as int) == PAWN + self.side(),
            ty == y + forward(self.side()),
            ty != last_rank(self.side()),
            is_empty(self.sq(ty as int, x as int)),
            all_gen_ok(*self, old(vec)@, hint),
        ensures
            pawn_appended(*self, old(vec)@, final(vec)@, y as int, x as int),
            grows_from(old(vec)@, final(vec)@, y as int, x as int),
            all_gen_ok(*self, final(vec)@, hint),
            keeps(old(vec)@, final(vec)@),
            forall|ty2: int, tx: int, d: u8|
                #[trigger] pawn_push_generated(*self, y as int, x as int, ty2, tx, d) && !(ty2
                    == last_rank(self.side())) ==> listed(final(vec)@, y as int, x as int, ty2, tx, d),
    {
        proof { self.lemma_fv_shape(); reveal(gen_ok); }
        let s: u8 = if self.white_to_move { 1 } else { 0 };
        let m = Mov { data: 0, from: Coord::new(y, x), to: Coord::new(ty, x) };
        assert(gen_ok(*self, m, hint));
        Self::push_gen(vec, m, Ghost(*self), Ghost(hint));
        let start: u8 = if s == 1 { 1 } else { 6 };
        if y == start {
            let ty2: usize = if s == 1 { 3 } else { 4 };
            let t2 = self.field[ty2][x as usize];
            assert(t2 == self.sq(ty2 as int, x as int));
            if t2 < 2 {
                let m2 = Mov { data: 0, from: Coord::new(y, x), to: Coord::new(ty2 as u8, x) };
                assert(gen_ok(*self, m2, hint));
                let ghost v1 = vec@;
                Self::push_gen(vec, m2, Ghost(*self), Ghost(hint));
                assert(vec@[vec@.len() - 1] == m2);
            }
        }
    }

    /// The en passant captures onto the en-passant square, by each pawn of
    /// the side to move standing beside the pawn that just advanced.
    #[verifier::rlimit(30)]
    fn add_legal_moves_en_passant(&self, vec: &mut Vec<Mov>, Ghost(hint): Ghost<Check>)
        requires
            hint != Check::InDoubleCheck,
            self.wf(),
            all_gen_ok(*self, old(vec)@, hint),
        ensures
            old(vec)@.len() <= final(vec)@.len(),
            forall|i: int| 0 <= i < old(vec)@.len() ==> final(vec)@[i] == old(vec)@[i],
            all_gen_ok(*self, final(vec)@, hint),
            keeps(old(vec)@, final(vec)@),
            forall|fy: int, fx: int, ty: int, tx: int, d: u8|
                #[trigger] ep_generated(*self, fy, fx, ty, tx, d) ==> listed(
                    final(vec)@,
                    fy,
                    fx,
                    ty,
                    tx,
                    d,
                ),
    {
        reveal(gen_ok);
        proof { self.lemma_fv_shape(); }
        let s: u8 = if self.white_to_move { 1 } else { 0 };
        let ep = self.en_passant;
        let ey = ep.y();
        let ex = ep.x();
        let (row, from_row): (u8, u8) = if s == 1 { (5, 4) } else { (2, 3) };
        if ey == row && ex < 8 && self.field[ey as usize][ex as usize] < 2
            && self.field[from_row as usize][ex as usize] == PAWN + (1 - s) {
            assert(self.sq(ey as int, ex as int) == self.field[ey as int][ex as int]);
            assert(self.sq(from_row as int, ex as int) == self.field[from_row as int][ex as int]);
            if ex >= 1 && self.field[from_row as usize][(ex - 1) as usize] == PAWN + s {
                assert(self.sq(from_row as int, ex - 1) == self.field[from_row as int][ex - 1]);
                let m = Mov { data: 9, from: Coord::new(from_row, ex - 1), to: ep };
                assert(gen_ok(*self, m, hint));
                Self::push_gen(vec, m, Ghost(*self), Ghost(hint));
            }
            if ex + 1 < 8 && self.field[from_row as usize][(ex + 1) as usize] == PAWN + s {
                assert(self.sq(from_row as int, ex + 1) == self.field[from_row as int][ex + 1]);
                let m = Mov { data: 9, from: Coord::new(from_row, ex + 1), to: ep };
                assert(gen_ok(*self, m, hint));
                Self::push_gen(vec, m, Ghost(*self), Ghost(hint));
            }
        }
    }
}

/// Meta bytes do not increase along the sequence.
pub open spec fn sorted_by_data(s: Seq<Mov>) -> bool {
    forall|i: int, j: int| 0 <= i < j < s.len() ==> s[i].data >= s[j].data
}

/// Orders moves by meta byte, largest first; moves with equal meta bytes
/// keep their relative order.
pub fn sort_moves(v: Vec<Mov>) -> (r: Vec<Mov>)
    ensures
        r@.to_multiset() == v@.to_multiset(),
        sorted_by_data(r@),
{
    broadcast use vstd::seq_lib::to_multiset_insert, vstd::seq_lib::to_multiset_build;

    let mut out: Vec<Mov> = Vec::new();
    let mut i: usize = 0;
    assert(v@.subrange(0, 0) =~= Seq::<Mov>::empty());
    while i < v.len()
        invariant
            i <= v.len(),
            sorted_by_data(out@),
            out@.to_multiset() == v@.subrange(0, i as int).to_multiset(),
        decreases v.len() - i,
    {
        let m = v[i];
        let mut j: usize = 0;
        while j < out.len() && out[j].data >= m.data
            invariant
                j <= out.len(),
                forall|k: int| 0 <= k < j ==> out@[k].data >= m.data,
            decreases out.len() - j,
        {
            j = j + 1;
        }
        let ghost prev = out@;
        out.insert(j, m);
        assert(out@ == prev.insert(j as int, m));
        assert forall|a: int, b: int| 0 <= a < b < out@.len() implies out@[a].data >= out@[b].data by {
            if b < j {
            } else if b == j {
            } else if a < j {
                assert(out@[b] == prev[b - 1]);
                if j < prev.len() {
                    assert(prev[j as int].data < m.data);
                    assert(prev[j as int].data >= prev[b - 1].data);
                }
            } else if a == j {
                assert(prev[j as int].data < m.data);
                assert(prev[j as int].data >= prev[b - 1].data);
            } else {
                assert(out@[a] == prev[a - 1]);
                assert(out@[b] == prev[b - 1]);
            }
        }
        assert(v@.subrange(0, i + 1) =~= v@.subrange(0, i as int).push(m));
        proof {
            vstd::seq_lib::to_multiset_insert(prev, j as int, m);
            vstd::seq_lib::to_multiset_build(v@.subrange(0, i as int), m);
        }
        i = i + 1;
    }
    assert(v@.subrange(0, v@.len() as int) =~= v@);
    out
}

/// Two moves join the same squares with the same meta byte, check bits
/// aside.
pub open spec fn same_key(a: Mov, b: Mov) -> bool {
    a.from == b.from && a.to == b.to && a.data % 64 == b.data % 64
}

/// No two moves of `s` share squares and meta byte (check bits aside).
pub open spec fn no_duplicates(s: Seq<Mov>) -> bool {
    forall|i: int, j: int| 0 <= i < j < s.len() ==> !same_key(s[i], s[j])
}

/// Keeps the first of the moves that share squares and meta byte.
pub fn dedup_moves(v: &Vec<Mov>) -> (r: Vec<Mov>)
    ensures
        no_duplicates(r@),
        forall|i: int| 0 <= i < r@.len() ==> v@.contains(#[trigger] r@[i]),
        forall|i: int| 0 <= i < v@.len() ==> kept(r@, #[trigger] v@[i]),
        sorted_by_data(v@) ==> sorted_by_data(r@),
{
    let mut out: Vec<Mov> = Vec::new();
    let mut i: usize = 0;
    while i < v.len()
        invariant
            i <= v@.len(),
            no_duplicates(out@),
            forall|k: int| 0 <= k < out@.len() ==> v@.contains(#[trigger] out@[k]),
            forall|k: int| 0 <= k < i ==> kept(out@, #[trigger] v@[k]),
            sorted_by_data(v@) ==> sorted_by_data(out@),
            sorted_by_data(v@) ==> forall|k: int, l: int|
                0 <= k < out@.len() && i <= l < v@.len() ==> out@[k].data >= v@[l].data,
        decreases v@.len() - i,
    {
        let m = v[i];
        let mut j: usize = 0;
        let mut found = false;
        while j < out.len()
            invariant
                j <= out@.len(),
                found ==> kept(out@, m),
                !found ==> forall|k: int| 0 <= k < j ==> !same_key(out@[k], m),
            decreases out@.len() - j,
        {
            if out[j].from == m.from && out[j].to == m.to && out[j].data % 64 == m.data % 64 {
                found = true;
            }
            j = j + 1;
        }
        let ghost prev = out@;
        if !found {
            out.push(m);
            assert(out@[out@.len() - 1] == m);
            assert forall|k: int| 0 <= k < i implies kept(out@, #[trigger] v@[k]) by {
                let a = choose|a: int|
                    0 <= a < prev.len() && (#[trigger] prev[a]).from == v@[k].from && prev[a].to
                        == v@[k].to && prev[a].data % 64 == v@[k].data % 64;
                assert(out@[a] == prev[a]);
            }
            assert(v@.contains(m)) by {
                assert(v@[i as int] == m);
            }
            assert forall|k: int| 0 <= k < out@.len() implies v@.contains(#[trigger] out@[k]) by {
                if k < prev.len() {
                    assert(out@[k] == prev[k]);
                }
            }
        }
        assert(kept(out@, v@[i as int]));
        i = i + 1;
    }
    out
}

/// The check bits that the annotation gives move `m`, read on the board
/// `b` on which `m` has just been made.
pub open spec fn check_bits(b: Board, m: Mov) -> u8 {
    let mover = (1 - b.side()) as u8;
    let k = b.king_of(b.side());
    let q = b.sq(m.to.row() as int, m.to.col() as int);
    let sliders = b.attacked(k.row() as int, k.col() as int, mover, [true, true, false, false, false]);
    let with_pawns = b.attacked(k.row() as int, k.col() as int, mover, [true, true, false, false, true]);
    let knight = b.attacked(k.row() as int, k.col() as int, mover, [false, false, true, false, false]);
    if q == BISHOP + mover || q == ROOK + mover || q == QUEEN + mover || q == KING + mover {
        if sliders { 64 } else { 0 }
    } else if q == PAWN + mover {
        if with_pawns { 64 } else { 0 }
    } else if q == KNIGHT + mover {
        if sliders && knight { 192 } else if sliders || knight { 64 } else { 0 }
    } else {
        0
    }
}

/// The check bits that the annotation gives `m` on `b`, read on the
/// position after `m`: bit 6 when the moved piece's category (with the
/// sliders it uncovers) attacks the enemy king, bit 7 too when a knight
/// and a slider both do.
pub open spec fn check_bits_after(b: Board, m: Mov) -> u8 {
    let mover = b.side();
    let f = make_field(b, m);
    let k = b.king_of((1 - mover) as u8);
    let mk = mover_king_after(b, m);
    let q = f[m.to.row() as int][m.to.col() as int];
    let sliders = attacked_on(f, mk, k.row() as int, k.col() as int, mover, [true, true, false, false, false]);
    let with_pawns = attacked_on(f, mk, k.row() as int, k.col() as int, mover, [true, true, false, false, true]);
    let knight = attacked_on(f, mk, k.row() as int, k.col() as int, mover, [false, false, true, false, false]);
    if q == BISHOP + mover || q == ROOK + mover || q == QUEEN + mover || q == KING + mover {
        if sliders { 64 } else { 0 }
    } else if q == PAWN + mover {
        if with_pawns { 64 } else { 0 }
    } else if q == KNIGHT + mover {
        if sliders && knight { 192 } else if sliders || knight { 64 } else { 0 }
    } else {
        0
    }
}

/// A move that the legality filter keeps.
pub open spec fn legal_ok(b: Board, m: Mov, hint: Check) -> bool {
    gen_ok(b, m, hint) && safe_after(b, m, filter_mask(b, m, hint))
}

impl Board {
    /// The king of the side to move (`true`) or of the other side.
    pub fn get_current_king_coord(&self, is_current_color: bool) -> (r: Coord)
        ensures
            r == (if is_current_color {
                self.king_of(self.side())
            } else {
                self.king_of((1 - self.side()) as u8)
            }),
    {
        if is_current_color == self.white_to_move {
            self.white_king_location
        } else {
            self.black_king_location
        }
    }

    /// The check status announced by the annotation bits of a meta byte.
    pub fn get_check(&self, data: &u8) -> (r: Check)
        ensures
            r == check_of(*data),
    {
        if *data >= 128 {
            Check::InDoubleCheck
        } else if *data >= 64 {
            Check::InCheck
        } else {
            Check::NotInCheck
        }
    }

    /// Sets the check bits of `mov`, which has just been made on this board.
    #[verifier::rlimit(30)]
    fn add_check_bits(&self, mov: &mut Mov)
        requires
            self.wf(),
            on(old(mov).to.row() as int, old(mov).to.col() as int),
        ensures
            final(mov).from == old(mov).from,
            final(mov).to == old(mov).to,
            final(mov).data == old(mov).data | check_bits(*self, *old(mov)),
    {
        proof { self.lemma_fv_shape(); }
        let mover: u8 = if self.white_to_move { 0 } else { 1 };
        let k = self.get_current_king_coord(true);
        let q = self.field[mov.to.y() as usize][mov.to.x() as usize];
        assert(q == self.sq(mov.to.row() as int, mov.to.col() as int));
        let opp = !self.white_to_move;
        let bits: u8 = if q == BISHOP + mover || q == ROOK + mover || q == QUEEN + mover || q == KING
            + mover {
            if self.is_square_attacked(k.y(), k.x(), opp, [true, true, false, false, false]) {
                64
            } else {
                0
            }
        } else if q == PAWN + mover {
            if self.is_square_attacked(k.y(), k.x(), opp, [true, true, false, false, true]) {
                64
            } else {
                0
            }
        } else if q == KNIGHT + mover {
            let sl = self.is_square_attacked(k.y(), k.x(), opp, [true, true, false, false, false]);
            let kn = self.is_square_attacked(k.y(), k.x(), opp, [false, false, true, false, false]);
            if sl && kn {
                192
            } else if sl || kn {
                64
            } else {
                0
            }
        } else {
            0
        };
        mov.data = mov.data | bits;
    }

    /// The moves of the piece on (y, x), other than en passant captures.
    #[verifier::rlimit(60)]
    fn add_square_moves(&self, vec: &mut Vec<Mov>, y: u8, x: u8, check: Check)
        requires
            check != Check::InDoubleCheck,
            self.wf(),
            on(y as int, x as int),
            all_gen_ok(*self, old(vec)@, check),
        ensures
            grows_from(old(vec)@, final(vec)@, y as int, x as int),
            all_gen_ok(*self, final(vec)@, check),
            keeps(old(vec)@, final(vec)@),
            forall|ty: int, tx: int, d: u8|
                #[trigger] square_move(*self, check, y as int, x as int, ty, tx, d) ==> listed(
                    final(vec)@,
                    y as int,
                    x as int,
                    ty,
                    tx,
                    d,
                ),
    {
        proof { self.lemma_fv_shape(); }
        let s: u8 = if self.white_to_move { 1 } else { 0 };
        let p = self.field[y as usize][x as usize];
        assert(p == self.sq(y as int, x as int));
        if p >= 2 && p % 2 == s {
            let k = p - s;
            if k == PAWN {
                self.add_legal_moves_p(vec, y, x, Ghost(check));
            } else if k == KING {
                self.add_legal_moves_k(vec, y, x, check);
            } else if k == KNIGHT {
                self.add_legal_moves_n(vec, y, x, Ghost(check));
            } else if k == BISHOP {
                self.add_legal_moves_bq(vec, y, x, Ghost(check));
            } else if k == ROOK {
                self.add_legal_moves_rq(vec, y, x, Ghost(check));
            } else if k == QUEEN {
                self.add_legal_moves_bq(vec, y, x, Ghost(check));
                self.add_legal_moves_rq(vec, y, x, Ghost(check));
            }
        }
    }

    /// The pseudo-legal moves of the side to move: only king moves when the
    /// caller states a double check; castles only when it states no check or
    /// nothing; en passant captures come last. Every move that
    /// `pseudo_move` describes is there, and nothing else.
    #[verifier::rlimit(60)]
    pub fn pseudo_legal_moves(&self, check: Check) -> (r: Vec<Mov>)
        requires
            self.wf(),
        ensures
            all_gen_ok(*self, r@, check),
            forall|i: int|
                0 <= i < r@.len() ==> pseudo_move(
                    *self,
                    check,
                    (#[trigger] r@[i]).from.row() as int,
                    r@[i].from.col() as int,
                    r@[i].to.row() as int,
                    r@[i].to.col() as int,
                    r@[i].data % 64,
                ),
            forall|fy: int, fx: int, ty: int, tx: int, d: u8|
                #[trigger] pseudo_move(*self, check, fy, fx, ty, tx, d) ==> listed(
                    r@,
                    fy,
                    fx,
                    ty,
                    tx,
                    d,
                ),
    {
        proof { self.lemma_fv_shape(); }
        let mut moves: Vec<Mov> = Vec::new();
        if check == Check::InDoubleCheck {
            let k = self.get_current_king_coord(true);
            self.add_legal_moves_k(&mut moves, k.y(), k.x(), check);
            assert forall|fy: int, fx: int, ty: int, tx: int, d: u8|
                #[trigger] pseudo_move(*self, check, fy, fx, ty, tx, d) implies listed(
                moves@,
                fy,
                fx,
                ty,
                tx,
                d,
            ) by {
                assert(fy == k.row() && fx == k.col());
            }
            proof { reveal(gen_ok); }
            return moves;
        }
        let mut y: u8 = 0;
        while y < 8
            invariant
                self.wf(),
                y <= 8,
                check != Check::InDoubleCheck,
                all_gen_ok(*self, moves@, check),
                forall|fy: int, fx: int, ty: int, tx: int, d: u8|
                    0 <= fy < y && 0 <= fx < 8 && #[trigger] square_move(
                        *self,
                        check,
                        fy,
                        fx,
                        ty,
                        tx,
                        d,
                    ) ==> listed(moves@, fy, fx, ty, tx, d),
            decreases 8 - y,
        {
            let mut x: u8 = 0;
            while x < 8
                invariant
                    self.wf(),
                    y < 8,
                    x <= 8,
                    check != Check::InDoubleCheck,
                    all_gen_ok(*self, moves@, check),
                    forall|fy: int, fx: int, ty: int, tx: int, d: u8|
                        (0 <= fy < y && 0 <= fx < 8 || fy == y && 0 <= fx < x)
                            && #[trigger] square_move(*self, check, fy, fx, ty, tx, d) ==> listed(
                            moves@,
                            fy,
                            fx,
                            ty,
                            tx,
                            d,
                        ),
                decreases 8 - x,
            {
                self.add_square_moves(&mut moves, y, x, check);
                x = x + 1;
            }
            y = y + 1;
        }
        self.add_legal_moves_en_passant(&mut moves, Ghost(check));
        proof { reveal(gen_ok); }
        moves
    }
}

/// `s` holds `m`, perhaps with check bits added to its meta byte.
pub open spec fn kept(s: Seq<Mov>, m: Mov) -> bool {
    exists|i: int|
        0 <= i < s.len() && (#[trigger] s[i]).from == m.from && s[i].to == m.to && s[i].data % 64
            == m.data % 64
}

proof fn lemma_flag_mod(d: u8, f: u8)
    requires
        f == 0 || f == 64 || f == 128 || f == 192,
    ensures
        (d | f) % 64 == d % 64,
{
    assert((d | f) % 64 == d % 64) by (bit_vector)
        requires
            f == 0 || f == 64 || f == 128 || f == 192,
    ;
}

proof fn lemma_flagged_legal(b: Board, m: Mov, m2: Mov, f: u8, hint: Check)
    requires
        legal_ok(b, m, hint),
        m2.from == m.from,
        m2.to == m.to,
        f == 0 || f == 64 || f == 128 || f == 192,
        m2.data == (m.data % 64) | f,
    ensures
        legal_ok(b, m2, hint),
        make_field(b, m2) == make_field(b, m),
        m2.data % 64 == m.data % 64,
{
    let d = m.data;
    assert(((d % 64) | f) % 2 == d % 2 && (((d % 64) | f) / 2) % 4 == (d / 2) % 4 && (((d % 64) | f) / 8) % 8 == (d / 8)
        % 8 && ((d % 64) | f) % 64 == d % 64) by (bit_vector)
        requires
            f == 0 || f == 64 || f == 128 || f == 192,
    ;
    assert(special(m2.data) == special(m.data));
    assert(promo_code(m2.data) == promo_code(m.data));
    assert(cap_kind(m2.data) == cap_kind(m.data));
    assert(m2.data % 64 == m.data % 64);
    assert(make_field(b, m2) == make_field(b, m));
    assert(move_ok(b, m2) == move_ok(b, m));
    assert(reach_ok(b, m2) == reach_ok(b, m));
    assert(is_castle(b, m2) == is_castle(b, m));
    reveal(gen_ok);
}

impl Board {
    /// The legal moves of the side to move, largest meta byte first.
    ///
    /// `current_king_check_status` is what the caller knows of its own king
    /// (absent: unknown); with `NotInCheck` the filter only looks for slider
    /// attacks unless the king itself moves. When
    /// `save_opponent_king_check_status` is true, each move gets the check
    /// bits of its meta byte. The board comes back as it was.
    #[verifier::rlimit(30)]
    pub fn get_legal_moves(&mut self, current_king_check_status: Option<Check>, save_opponent_king_check_status: Option<bool>) -> (r: Vec<Mov>)
        requires
            old(self).wf(),
        ensures
            final(self).same_position(*old(self)),
            final(self).wf(),
            forall|i: int|
                0 <= i < r@.len() ==> legal_ok(
                    *old(self),
                    #[trigger] r@[i],
                    check_hint(current_king_check_status),
                ),
            sorted_by_data(r@),
            no_duplicates(r@),
            forall|i: int|
                0 <= i < r@.len() ==> if save_opponent_king_check_status == Some(true) {
                    (#[trigger] r@[i]).data == (r@[i].data % 64) | check_bits_after(*old(self), r@[i])
                } else {
                    r@[i].data < 64
                },
            forall|i: int|
                0 <= i < r@.len() ==> pseudo_move(
                    *old(self),
                    check_hint(current_king_check_status),
                    (#[trigger] r@[i]).from.row() as int,
                    r@[i].from.col() as int,
                    r@[i].to.row() as int,
                    r@[i].to.col() as int,
                    r@[i].data % 64,
                ),
            forall|m: Mov|
                #[trigger] pseudo_move(
                    *old(self),
                    check_hint(current_king_check_status),
                    m.from.row() as int,
                    m.from.col() as int,
                    m.to.row() as int,
                    m.to.col() as int,
                    m.data,
                ) && safe_after(
                    *old(self),
                    m,
                    filter_mask(*old(self), m, check_hint(current_king_check_status)),
                ) ==> kept(r@, m),
    {
        reveal(gen_ok);
        broadcast use vstd::seq_lib::to_multiset_contains;

        let ghost b0 = *self;
        let check = match current_king_check_status {
            Some(c) => c,
            None => Check::Unknown,
        };
        let save = match save_opponent_king_check_status {
            Some(v) => v,
            None => false,
        };
        let cands = self.pseudo_legal_moves(check);
        let mut legal: Vec<Mov> = Vec::new();
        let mut i: usize = 0;
        while i < cands.len()
            invariant
                self.same_position(b0),
                self.wf(),
                b0.wf(),
                all_gen_ok(b0, cands@, check),
                forall|k: int| 0 <= k < legal@.len() ==> legal_ok(b0, #[trigger] legal@[k], check),
                forall|k: int|
                    0 <= k < legal@.len() ==> if save {
                        (#[trigger] legal@[k]).data == (legal@[k].data % 64) | check_bits_after(
                            b0,
                            legal@[k],
                        )
                    } else {
                        legal@[k].data < 64
                    },
                i <= cands@.len(),
                forall|k: int|
                    0 <= k < i && safe_after(b0, #[trigger] cands@[k], filter_mask(b0, cands@[k], check))
                        ==> kept(legal@, cands@[k]),
            decreases cands.len() - i,
        {
            let m = cands[i];
            proof { reveal(gen_ok); }
            assert(gen_ok(b0, m, check));
            proof { self.lemma_fv_shape(); }
            let s: u8 = if self.white_to_move { 1 } else { 0 };
            let moved_king = self.field[m.from.y() as usize][m.from.x() as usize] == KING + s;
            assert(moved_king == (b0.sq(m.from.row() as int, m.from.col() as int) == KING + b0.side()));
            let ghost before = *self;
            self.make_move(&m);
            let ghost after = *self;
            let k = self.get_current_king_coord(false);
            let mask: [bool; 5] = if check == Check::NotInCheck && !moved_king {
                [true, true, false, false, false]
            } else {
                ALL_ATTACKERS
            };
            let bad = self.is_square_attacked(k.y(), k.x(), self.white_to_move, mask);
            assert(make_field(before, m) == make_field(b0, m));
            assert(mask == filter_mask(b0, m, check));
            assert(bad == !safe_after(b0, m, filter_mask(b0, m, check)));
            let mut m2 = Mov { data: m.data % 64, from: m.from, to: m.to };
            let ghost bits: u8 = 0;
            if !bad && save {
                proof { self.lemma_fv_shape(); }
                self.add_check_bits(&mut m2);
                proof { bits = check_bits(after, Mov { data: m.data % 64, from: m.from, to: m.to }); }
                assert(bits == 0 || bits == 64 || bits == 128 || bits == 192);
            } else {
                let ghost d = m.data;
                assert(d % 64 == (d % 64) | 0) by (bit_vector);
            }
            proof {
                if !bad {
                    lemma_flagged_legal(b0, m, m2, bits, check);
                    let ghost d = m.data;
                    let ghost f = bits;
                    assert(((d % 64) | f) % 64 == d % 64 && ((d % 64) | f) < 64 <==> f == 0) by (bit_vector)
                        requires
                            f == 0 || f == 64 || f == 128 || f == 192,
                    ;
                    if save {
                        let p = b0.sq(m.from.row() as int, m.from.col() as int);
                        assert(color(p) == b0.side());
                        assert(after.fv() == make_field(b0, m));
                        assert(check_bits(after, Mov { data: m.data % 64, from: m.from, to: m.to })
                            == check_bits_after(b0, m));
                        assert(check_bits_after(b0, m2) == check_bits_after(b0, m));
                    }
                }
            }
            self.revert_move();
            proof { lemma_make_unmake(before, after, *self, m); }
            let ghost lprev = legal@;
            if !bad {
                proof {
                    lemma_flagged_legal(b0, m, m2, bits, check);
                    lemma_flag_mod(m.data, bits);
                }
                legal.push(m2);
                assert(legal@[legal@.len() - 1] == m2);
            }
            assert forall|k: int|
                0 <= k < i + 1 && safe_after(b0, #[trigger] cands@[k], filter_mask(b0, cands@[k], check))
                    implies kept(legal@, cands@[k]) by {
                if k < i {
                    let j = choose|j: int|
                        0 <= j < lprev.len() && (#[trigger] lprev[j]).from == cands@[k].from
                            && lprev[j].to == cands@[k].to && lprev[j].data % 64 == cands@[k].data
                            % 64;
                    assert(legal@[j] == lprev[j]);
                }
            }
            i = i + 1;
        }
        let r0 = sort_moves(legal);
        let r = dedup_moves(&r0);
        proof { reveal(gen_ok); }
        assert forall|i: int| 0 <= i < r@.len() implies legal_ok(b0, #[trigger] r@[i], check) && (
        if save {
            r@[i].data == (r@[i].data % 64) | check_bits_after(b0, r@[i])
        } else {
            r@[i].data < 64
        }) by {
            assert(r0@.contains(r@[i]));
            let a = choose|a: int| 0 <= a < r0@.len() && r0@[a] == r@[i];
            assert(r0@.to_multiset().count(r0@[a]) > 0);
            assert(legal@.contains(r0@[a]));
        }
        assert forall|m: Mov|
            #[trigger] pseudo_move(
                b0,
                check,
                m.from.row() as int,
                m.from.col() as int,
                m.to.row() as int,
                m.to.col() as int,
                m.data,
            ) && safe_after(b0, m, filter_mask(b0, m, check)) implies kept(r@, m) by {
            let (fy, fx, ty, tx) = (m.from.row() as int, m.from.col() as int, m.to.row() as int, m.to.col() as int);
            assert(listed(cands@, fy, fx, ty, tx, m.data));
            let k = choose|k: int|
                0 <= k < cands@.len() && (#[trigger] cands@[k]).from.row() == fy && cands@[k].from.col()
                    == fx && cands@[k].to.row() == ty && cands@[k].to.col() == tx && cands@[k].data
                    == m.data;
            Coord::lemma_eq(cands@[k].from, m.from);
            Coord::lemma_eq(cands@[k].to, m.to);
            assert(cands@[k] == m);
            let j = choose|j: int|
                0 <= j < legal@.len() && (#[trigger] legal@[j]).from == m.from && legal@[j].to
                    == m.to && legal@[j].data % 64 == m.data % 64;
            assert(legal@.to_multiset().count(legal@[j]) > 0);
            assert(r0@.contains(legal@[j]));
            let i = choose|i: int| 0 <= i < r0@.len() && r0@[i] == legal@[j];
            assert(kept(r@, r0@[i]));
        }
        r
    }
}

} // verus!
