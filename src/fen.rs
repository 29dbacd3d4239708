//! Reading a position from Forsyth-Edwards Notation.
use crate::bimaps::Bimaps;
use crate::bimaps::{castle_table, piece_table};
use crate::board::{fview, on, put, Board, KING};
use crate::coord::Coord;
use vstd::prelude::*;
use vstd::string::StringSliceAdditionalSpecFns;

verus! {

/// Square number k is rank k / 8, file k % 8.
pub open spec fn at(f: [[u8; 8]; 8], k: int) -> u8 {
    f[k / 8][k % 8]
}

/// Exactly one square holds `code`.
pub open spec fn sole(f: Seq<Seq<u8>>, code: u8) -> bool {
    exists|y: int, x: int|
        on(y, x) && #[trigger] f[y][x] == code && forall|y2: int, x2: int|
            on(y2, x2) && #[trigger] f[y2][x2] == code ==> y2 == y && x2 == x
}

/// Squares a board can hold: valid codes, one king of each colour.
pub open spec fn placement_ok(f: Seq<Seq<u8>>) -> bool {
    &&& forall|y: int, x: int| on(y, x) ==> #[trigger] f[y][x] != 1 && f[y][x] <= 13
    &&& sole(f, (KING + 1) as u8)
    &&& sole(f, KING)
}

pub open spec fn empty_rows() -> Seq<Seq<u8>> {
    Seq::new(8, |y: int| Seq::new(8, |x: int| 0u8))
}

/// The first index at or after `i` that is not a space.
pub open spec fn skip_sp(b: Seq<u8>, i: int) -> int
    decreases b.len() - i,
{
    if 0 <= i < b.len() && b[i] == 32 {
        skip_sp(b, i + 1)
    } else {
        i
    }
}

/// The end of the field that starts at `i`.
pub open spec fn field_end(b: Seq<u8>, i: int) -> int
    decreases b.len() - i,
{
    if i < 0 || i >= b.len() || b[i] == 32 {
        i
    } else {
        field_end(b, i + 1)
    }
}

/// The piece placement read from `i` on, with the cursor on rank `row`,
/// file `col` and squares `f` so far: digits skip files, '/' goes down a
/// rank, a piece letter fills a square. `None` for an unknown letter or a
/// rank that overflows.
pub open spec fn place(b: Seq<u8>, i: int, row: int, col: int, f: Seq<Seq<u8>>) -> Option<(Seq<Seq<u8>>, int)>
    decreases b.len() - i,
{
    if i < 0 || i >= b.len() || b[i] == 32 {
        Some((f, i))
    } else if 49 <= b[i] <= 56 {
        if col + (b[i] - 48) > 8 {
            None
        } else {
            place(b, i + 1, row, col + (b[i] - 48), f)
        }
    } else if b[i] == 47 {
        place(b, i + 1, if row > 0 { row - 1 } else { 0 }, 0, f)
    } else if piece_table().dom().contains(b[i] as char) {
        if col >= 8 {
            None
        } else {
            place(b, i + 1, row, col + 1, put(f, row, col, piece_table()[b[i] as char]))
        }
    } else {
        None
    }
}

/// The side field names black.
pub open spec fn has_black(b: Seq<u8>, i: int) -> bool
    decreases b.len() - i,
{
    if i < 0 || i >= b.len() || b[i] == 32 {
        false
    } else {
        b[i] == 98 || has_black(b, i + 1)
    }
}

/// The castling rights read from `i` on, added to `acc`; '-' adds none.
pub open spec fn castle_bits(b: Seq<u8>, i: int, acc: u8) -> Option<(u8, int)>
    decreases b.len() - i,
{
    if i < 0 || i >= b.len() || b[i] == 32 {
        Some((acc, i))
    } else if b[i] == 45 {
        castle_bits(b, i + 1, acc)
    } else if castle_table().dom().contains(b[i] as char) {
        castle_bits(b, i + 1, acc | castle_table()[b[i] as char])
    } else {
        None
    }
}

/// The en-passant square (rank, file; 8, 8 for none) at `i` and the index
/// after it.
pub open spec fn ep_field(b: Seq<u8>, i: int) -> Option<(u8, u8, int)> {
    if 0 <= i < b.len() && b[i] != 45 {
        if i + 1 >= b.len() || b[i] < 97 || b[i] > 104 || b[i + 1] < 49 || b[i + 1] > 56 {
            None
        } else {
            Some(((b[i + 1] - 49) as u8, (b[i] - 97) as u8, i + 2))
        }
    } else if 0 <= i < b.len() {
        Some((8u8, 8u8, i + 1))
    } else {
        Some((8u8, 8u8, i))
    }
}

/// The decimal number read from `i` on after the digits `v` so far, when
/// it stays within `max`.
pub open spec fn number(b: Seq<u8>, i: int, v: int, max: int) -> Option<(int, int)>
    decreases b.len() - i,
{
    if i < 0 || i >= b.len() || b[i] == 32 {
        Some((v, i))
    } else if b[i] < 48 || b[i] > 57 {
        None
    } else if v > (max - (b[i] - 48)) / 10 {
        None
    } else {
        number(b, i + 1, v * 10 + (b[i] - 48), max)
    }
}

/// The fields of a FEN text: squares, white to move, castling rights,
/// en-passant rank and file, halfmove clock, fullmove number.
pub open spec fn fen_fields(b: Seq<u8>) -> Option<(Seq<Seq<u8>>, bool, u8, u8, u8, u8, u16)> {
    match place(b, skip_sp(b, 0), 7, 0, empty_rows()) {
        None => None,
        Some((f, i1)) => {
            let i2 = skip_sp(b, i1);
            let white = !has_black(b, i2);
            match castle_bits(b, skip_sp(b, field_end(b, i2)), 0) {
                None => None,
                Some((c, i4)) => match ep_field(b, skip_sp(b, i4)) {
                    None => None,
                    Some((er, ec, i6)) => {
                        let i7 = skip_sp(b, i6);
                        let h = if i7 < b.len() {
                            number(b, i7, 0, 255)
                        } else {
                            Some((0int, i7))
                        };
                        match h {
                            None => None,
                            Some((hv, i8)) => {
                                let i9 = skip_sp(b, i8);
                                let n = if i9 < b.len() {
                                    number(b, i9, 0, 65535)
                                } else {
                                    Some((1int, i9))
                                };
                                match n {
                                    None => None,
                                    Some((nv, _)) => Some((f, white, c, er, ec, hv as u8, nv as u16)),
                                }
                            },
                        }
                    },
                },
            }
        },
    }
}

/// The one square holding `code`, if exactly one does.
#[verifier::rlimit(30)]
fn find_only(field: &[[u8; 8]; 8], code: u8) -> (r: Option<Coord>)
    ensures
        match r {
            Some(c) => c.on_board() && fview(*field)[c.row() as int][c.col() as int] == code
                && forall|y: int, x: int|
                on(y, x) && #[trigger] fview(*field)[y][x] == code ==> y == c.row() && x == c.col(),
            None => !sole(fview(*field), code),
        },
{
    broadcast use vstd::array::group_array_axioms;

    let ghost fv = fview(*field);
    assert forall|k: int| 0 <= k < 64 implies #[trigger] at(*field, k) == fv[k / 8][k % 8] by {}
    let mut found: Option<usize> = None;
    let mut dup = false;
    let ghost mut second: int = 0;
    let mut n: usize = 0;
    while n < 64
        invariant
            n <= 64,
            fv == fview(*field),
            forall|k: int| 0 <= k < 64 ==> #[trigger] at(*field, k) == fv[k / 8][k % 8],
            match found {
                Some(k) => k < n && at(*field, k as int) == code,
                None => !dup,
            },
            dup ==> 0 <= second < n && at(*field, second) == code && found != Some(second as usize),
            forall|k: int|
                0 <= k < n && #[trigger] at(*field, k) == code ==> match found {
                    Some(f) => dup || k == f,
                    None => false,
                },
        decreases 64 - n,
    {
        if field[n / 8][n % 8] == code {
            match found {
                Some(_) => {
                    if !dup {
                        proof { second = n as int; }
                    }
                    dup = true;
                },
                None => {
                    found = Some(n);
                },
            }
        }
        n = n + 1;
    }
    match found {
        Some(k) => {
            if dup {
                proof {
                    let (ay, ax) = (k as int / 8, k as int % 8);
                    let (by, bx) = (second / 8, second % 8);
                    assert(fv[ay][ax] == code && fv[by][bx] == code);
                    assert(!(ay == by && ax == bx));
                    if sole(fv, code) {
                        let (y, x) = choose|y: int, x: int|
                            on(y, x) && #[trigger] fv[y][x] == code && forall|y2: int, x2: int|
                                on(y2, x2) && #[trigger] fv[y2][x2] == code ==> y2 == y && x2 == x;
                        assert(on(ay, ax) && on(by, bx));
                    }
                }
                None
            } else {
                let c = Coord::new((k / 8) as u8, (k % 8) as u8);
                assert forall|y: int, x: int| on(y, x) && #[trigger] fv[y][x] == code implies y
                    == c.row() && x == c.col() by {
                    assert(at(*field, y * 8 + x) == fv[y][x]);
                }
                Some(c)
            }
        },
        None => {
            proof {
                assert forall|y: int, x: int| on(y, x) implies #[trigger] fv[y][x] != code by {
                    assert(at(*field, y * 8 + x) == fv[y][x]);
                }
            }
            None
        },
    }
}

/// Every square holds 0 or a piece code.
fn codes_valid(field: &[[u8; 8]; 8]) -> (r: bool)
    ensures
        r == forall|y: int, x: int| on(y, x) ==> #[trigger] fview(*field)[y][x] != 1 && fview(
            *field,
        )[y][x] <= 13,
{
    broadcast use vstd::array::group_array_axioms;

    let ghost fv = fview(*field);
    let mut n: usize = 0;
    while n < 64
        invariant
            n <= 64,
            fv == fview(*field),
            forall|k: int| 0 <= k < n ==> #[trigger] at(*field, k) != 1 && at(*field, k) <= 13,
        decreases 64 - n,
    {
        let p = field[n / 8][n % 8];
        if p == 1 || p > 13 {
            assert(fv[n as int / 8][n as int % 8] == p);
            assert(on(n as int / 8, n as int % 8));
            return false;
        }
        n = n + 1;
    }
    assert forall|y: int, x: int| on(y, x) implies #[trigger] fv[y][x] != 1 && fv[y][x] <= 13 by {
        assert(at(*field, y * 8 + x) == fv[y][x]);
    }
    true
}

/// The index of the first byte at or after `i` that is not a space.
fn skip_spaces(b: &[u8], i: usize) -> (r: usize)
    requires
        i <= b@.len(),
    ensures
        i <= r <= b@.len(),
        r == skip_sp(b@, i as int),
{
    let mut j = i;
    while j < b.len() && b[j] == 32
        invariant
            i <= j <= b@.len(),
            skip_sp(b@, i as int) == skip_sp(b@, j as int),
        decreases b@.len() - j,
    {
        j = j + 1;
    }
    j
}

/// Reads a decimal number of at most `max` from the field starting at `i`;
/// returns it and the index after the field.
fn read_number(b: &[u8], i: usize, max: u16) -> (r: Option<(u16, usize)>)
    requires
        i <= b@.len(),
        max >= 9,
    ensures
        match r {
            Some((v, j)) => v <= max && i <= j <= b@.len() && number(b@, i as int, 0, max as int)
                == Some((v as int, j as int)),
            None => number(b@, i as int, 0, max as int) is None,
        },
{
    let mut v: u16 = 0;
    let mut j = i;
    while j < b.len() && b[j] != 32
        invariant
            i <= j <= b@.len(),
            v <= max,
            max >= 9,
            number(b@, i as int, 0, max as int) == number(b@, j as int, v as int, max as int),
        decreases b@.len() - j,
    {
        let c = b[j];
        if c < 48 || c > 57 {
            return None;
        }
        let d = (c - 48) as u16;
        if v > (max - d) / 10 {
            return None;
        }
        assert(v * 10 + d <= max) by (nonlinear_arith)
            requires
                v <= (max - d) / 10,
                d <= 9,
                max >= 9,
        ;
        v = v * 10 + d;
        j = j + 1;
    }
    Some((v, j))
}

impl Board {
    /// Reads the six FEN fields (placement, side, castling, en passant,
    /// halfmove clock, fullmove number); missing trailing fields default to
    /// no en passant, 0 and 1. Returns `None` for an unknown piece or
    /// castling letter, a malformed field, or a placement without exactly
    /// one king of each colour.
    #[verifier::rlimit(30)]
    pub fn parse_fen(fen: &str) -> (r: Option<Board>)
        ensures
            match r {
                Some(bd) => bd.wf() && bd.history@.len() == 0 && fen_fields(fen.spec_bytes())
                    == Some(
                    (
                        bd.fv(),
                        bd.white_to_move,
                        bd.castling,
                        bd.en_passant.row(),
                        bd.en_passant.col(),
                        bd.hmw,
                        bd.no,
                    ),
                ),
                None => match fen_fields(fen.spec_bytes()) {
                    None => true,
                    Some((f, _, _, _, _, _, _)) => !placement_ok(f),
                },
            },
    {
        broadcast use vstd::array::group_array_axioms;

        let b = fen.as_bytes();
        let ghost bs = b@;
        let bimaps = Bimaps::init();
        let mut field = [[0u8; 8]; 8];
        assert(fview(field) =~~= empty_rows());
        let mut i = skip_spaces(b, 0);
        let ghost i0 = i as int;
        let mut row: u8 = 7;
        let mut col: u8 = 0;
        while i < b.len() && b[i] != 32
            invariant
                i <= b@.len(),
                bs == b@,
                row < 8,
                col <= 8,
                bimaps.wf(),
                bs == fen.spec_bytes(),
                i0 == skip_sp(bs, 0),
                place(bs, i0, 7, 0, empty_rows()) == place(bs, i as int, row as int, col as int, fview(field)),
            decreases b@.len() - i,
        {
            let c = b[i];
            if c >= 49 && c <= 56 {
                if col + (c - 48) > 8 {
                    assert(place(bs, i as int, row as int, col as int, fview(field)) is None);
                    return None;
                }
                col = col + (c - 48);
            } else if c == 47 {
                if row > 0 {
                    row = row - 1;
                }
                col = 0;
            } else {
                match bimaps.piece_code(c as char) {
                    Some(code) => {
                        if col >= 8 {
                            assert(place(bs, i as int, row as int, col as int, fview(field)) is None);
                            return None;
                        }
                        let ghost before = fview(field);
                        field[row as usize][col as usize] = code;
                        assert(fview(field) =~~= put(before, row as int, col as int, code));
                        col = col + 1;
                    },
                    None => {
                        assert(place(bs, i as int, row as int, col as int, fview(field)) is None);
                        return None;
                    },
                }
            }
            i = i + 1;
        }
        let ghost f1 = fview(field);
        let ghost i1 = i as int;
        assert(place(bs, i0, 7, 0, empty_rows()) == Some((f1, i1)));
        i = skip_spaces(b, i);
        let ghost i2 = i as int;
        let mut white_to_move = true;
        while i < b.len() && b[i] != 32
            invariant
                i <= b@.len(),
                bs == b@,
                has_black(bs, i2) == (!white_to_move || has_black(bs, i as int)),
                field_end(bs, i2) == field_end(bs, i as int),
            decreases b@.len() - i,
        {
            if b[i] == 98 {
                white_to_move = false;
            }
            i = i + 1;
        }
        assert(field_end(bs, i2) == i && !has_black(bs, i as int));
        i = skip_spaces(b, i);
        let ghost i3 = i as int;
        let mut castling: u8 = 0;
        while i < b.len() && b[i] != 32
            invariant
                i <= b@.len(),
                bs == b@,
                bimaps.wf(),
                bs == fen.spec_bytes(),
                place(bs, skip_sp(bs, 0), 7, 0, empty_rows()) == Some((f1, i1)),
                skip_sp(bs, i1) == i2,
                skip_sp(bs, field_end(bs, i2)) == i3,
                castle_bits(bs, i3, 0) == castle_bits(bs, i as int, castling),
            decreases b@.len() - i,
        {
            let c = b[i];
            if c != 45 {
                match bimaps.castle_bit(c as char) {
                    Some(v) => {
                        castling = castling | v;
                    },
                    None => {
                        assert(castle_bits(bs, i as int, castling) is None);
                        return None;
                    },
                }
            }
            i = i + 1;
        }
        i = skip_spaces(b, i);
        let ghost i5 = i as int;
        let mut en_passant = Coord::new(8, 8);
        if i < b.len() && b[i] != 45 {
            if i + 1 >= b.len() {
                return None;
            }
            let (f, r) = (b[i], b[i + 1]);
            if f < 97 || f > 104 || r < 49 || r > 56 {
                return None;
            }
            en_passant = Coord::new(r - 49, f - 97);
            i = i + 2;
        } else if i < b.len() {
            i = i + 1;
        }
        i = skip_spaces(b, i);
        let mut hmw: u8 = 0;
        if i < b.len() {
            match read_number(b, i, 255) {
                Some((v, j)) => {
                    hmw = v as u8;
                    i = j;
                },
                None => {
                    return None;
                },
            }
        }
        i = skip_spaces(b, i);
        let mut no: u16 = 1;
        if i < b.len() {
            match read_number(b, i, 65535) {
                Some((v, _)) => {
                    no = v;
                },
                None => {
                    return None;
                },
            }
        }
        assert(fen_fields(bs) == Some(
            (f1, white_to_move, castling, en_passant.row(), en_passant.col(), hmw, no),
        ));
        if !codes_valid(&field) {
            return None;
        }
        let wk = match find_only(&field, 5) {
            Some(c) => c,
            None => {
                return None;
            },
        };
        let bk = match find_only(&field, KING) {
            Some(c) => c,
            None => {
                return None;
            },
        };
        let board = Board {
            field,
            history: Vec::new(),
            white_to_move,
            en_passant,
            castling,
            hmw,
            no,
            white_king_location: wk,
            black_king_location: bk,
            bimaps,
        };
        Some(board)
    }
}

} // verus!
