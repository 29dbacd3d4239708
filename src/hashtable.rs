//! Zobrist hashing: a 64-bit fingerprint of a position built by xor from a
//! table of random values drawn from a seeded generator.
use crate::board::{lemma_make_unmake, made, move_ok, on, unmade, Board};
use crate::mov::Mov;
use rand::rngs::StdRng;
use rand::{RngCore, SeedableRng};
use vstd::prelude::*;

verus! {

#[verifier::external_type_specification]
#[verifier::external_body]
pub struct ExStdRng(StdRng);

/// Relies on rand's StdRng::seed_from_u64: a generator whose stream depends
/// on the seed alone.
#[verifier::external_body]
fn seeded_rng(seed: u64) -> StdRng {
    StdRng::seed_from_u64(seed)
}

/// Relies on rand's RngCore::next_u64 for StdRng: the next value of the
/// stream; nothing is promised of it.
#[verifier::external_body]
fn next_random(rng: &mut StdRng) -> u64 {
    rng.next_u64()
}

pub struct Hashtable {
    /// One value per square and piece code minus 2.
    pub table: [[[u64; 12]; 8]; 8],
    /// Xored in when white is to move.
    pub color: u64,
    /// One value per castling right: k, q, K, Q.
    pub castlings: [u64; 4],
    /// One value per en-passant rank parity and file.
    pub en_passant: [[u64; 8]; 2],
}

/// The value that square number `i` (rank i / 8, file i % 8) contributes.
pub open spec fn square_key(h: Hashtable, f: Seq<Seq<u8>>, i: int) -> u64 {
    let p = f[i / 8][i % 8];
    if p > 1 {
        h.table[i / 8][i % 8][p - 2]
    } else {
        0
    }
}

/// The xor of the contributions of squares 0 .. n.
pub open spec fn squares_hash(h: Hashtable, f: Seq<Seq<u8>>, n: nat) -> u64
    decreases n,
{
    if n == 0 {
        0
    } else {
        squares_hash(h, f, (n - 1) as nat) ^ square_key(h, f, n - 1)
    }
}

pub open spec fn castling_hash(h: Hashtable, c: u8) -> u64 {
    (if c & 32 != 0 { h.castlings[0] } else { 0u64 }) ^ (if c & 16 != 0 {
        h.castlings[1]
    } else {
        0u64
    }) ^ (if c & 128 != 0 { h.castlings[2] } else { 0u64 }) ^ (if c & 64 != 0 {
        h.castlings[3]
    } else {
        0u64
    })
}

/// The hash of a position: pieces, side to move, castling rights and the
/// en-passant square; the move counters do not take part.
pub open spec fn hash_of(h: Hashtable, b: Board) -> u64 {
    let ep = b.en_passant;
    squares_hash(h, b.fv(), 64) ^ (if b.white_to_move { h.color } else { 0u64 }) ^ castling_hash(
        h,
        b.castling,
    ) ^ (if ep.row() < 8 {
        h.en_passant[if (ep.row() / 2) % 2 == 1 { 0int } else { 1int }][ep.col() as int]
    } else {
        0u64
    })
}

impl Hashtable {
    /// Draws the whole table from a generator seeded with `seed`, in the
    /// order: squares by rank, file and piece, side, castling, en passant.
    pub fn new(seed: u64) -> (r: Hashtable) {
        let mut rng = seeded_rng(seed);
        let mut table = [[[0u64; 12]; 8]; 8];
        let mut i: usize = 0;
        while i < 8
            decreases 8 - i,
        {
            let mut j: usize = 0;
            while j < 8
                invariant
                    i < 8,
                decreases 8 - j,
            {
                let mut k: usize = 0;
                while k < 12
                    invariant
                        i < 8,
                        j < 8,
                    decreases 12 - k,
                {
                    table[i][j][k] = next_random(&mut rng);
                    k = k + 1;
                }
                j = j + 1;
            }
            i = i + 1;
        }
        let color = next_random(&mut rng);
        let mut castlings = [0u64; 4];
        let mut c: usize = 0;
        while c < 4
            decreases 4 - c,
        {
            castlings[c] = next_random(&mut rng);
            c = c + 1;
        }
        let mut en_passant = [[0u64; 8]; 2];
        let mut p: usize = 0;
        while p < 2
            decreases 2 - p,
        {
            let mut x: usize = 0;
            while x < 8
                invariant
                    p < 2,
                decreases 8 - x,
            {
                en_passant[p][x] = next_random(&mut rng);
                x = x + 1;
            }
            p = p + 1;
        }
        Hashtable { table, color, castlings, en_passant }
    }

    /// The hash of the position on `board`.
    pub fn hash(&self, board: &Board) -> (r: u64)
        requires
            board.wf(),
        ensures
            r == hash_of(*self, *board),
    {
        broadcast use vstd::array::group_array_axioms;

        proof { board.lemma_fv_shape(); }
        let mut value: u64 = 0;
        let mut n: usize = 0;
        while n < 64
            invariant
                n <= 64,
                board.wf(),
                value == squares_hash(*self, board.fv(), n as nat),
            decreases 64 - n,
        {
            let (y, x) = (n / 8, n % 8);
            let piece = board.field[y][x];
            assert(on(y as int, x as int));
            assert(piece == board.sq(y as int, x as int));
            if piece > 1 {
                value = value ^ self.table[y][x][(piece - 2) as usize];
            } else {
                assert(value ^ 0u64 == value) by (bit_vector);
                value = value ^ 0;
            }
            n = n + 1;
        }
        if board.white_to_move {
            value = value ^ self.color;
        } else {
            value = value ^ 0;
        }
        let c = board.castling;
        let ck: u64 = (if c & 32 != 0 { self.castlings[0] } else { 0 }) ^ (if c & 16 != 0 {
            self.castlings[1]
        } else {
            0
        }) ^ (if c & 128 != 0 { self.castlings[2] } else { 0 }) ^ (if c & 64 != 0 {
            self.castlings[3]
        } else {
            0
        });
        value = value ^ ck;
        let ep = board.en_passant;
        if ep.y() < 8 {
            let parity: usize = if (ep.y() / 2) % 2 == 1 { 0 } else { 1 };
            value = value ^ self.en_passant[parity][ep.x() as usize];
        } else {
            value = value ^ 0;
        }
        value
    }
}

/// Two positions that differ only in their move counters (or history)
/// hash alike.
pub proof fn lemma_hash_ignores_counters(h: Hashtable, a: Board, b: Board)
    requires
        a.fv() == b.fv(),
        a.white_to_move == b.white_to_move,
        a.castling == b.castling,
        a.en_passant == b.en_passant,
    ensures
        hash_of(h, a) == hash_of(h, b),
{
}

/// Making a move and taking it back leaves the hash unchanged.
pub proof fn lemma_hash_make_unmake(h: Hashtable, b0: Board, b1: Board, b2: Board, m: Mov)
    requires
        b0.wf(),
        move_ok(b0, m),
        made(b0, b1, m),
        unmade(b1, b2),
    ensures
        hash_of(h, b2) == hash_of(h, b0),
{
    lemma_make_unmake(b0, b1, b2, m);
}

} // verus!
