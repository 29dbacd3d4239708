//! An evaluator that counts material: pawn 1, knight and bishop 3, rook
//! 4.5, queen 9, king 255 (in hundredths of a pawn), white minus black.
use crate::board::{on, Board, BISHOP, KING, KNIGHT, PAWN, QUEEN, ROOK};
use crate::character::Character;
use crate::eval::{Eval, EvalHashed};
use crate::hashtable::{hash_of, Hashtable};
use std::collections::HashMap;
use vstd::prelude::*;

verus! {

/// The seed that the documented test vectors use.
pub const DEFAULT_SEED: u64 = 2005;

/// The worth of a piece kind in hundredths of a pawn.
pub open spec fn kind_value(k: u8) -> int {
    if k == PAWN {
        100
    } else if k == KNIGHT || k == BISHOP {
        300
    } else if k == ROOK {
        450
    } else if k == QUEEN {
        900
    } else if k == KING {
        25500
    } else {
        0
    }
}

/// A piece's worth, positive for white, negative for black, 0 when empty.
pub open spec fn piece_value(p: u8) -> int {
    if p < 2 {
        0
    } else if p % 2 == 1 {
        kind_value((p - 1) as u8)
    } else {
        -kind_value(p)
    }
}

/// The material of squares 0 .. n (rank i / 8, file i % 8).
pub open spec fn material(f: Seq<Seq<u8>>, n: nat) -> int
    decreases n,
{
    if n == 0 {
        0
    } else {
        material(f, (n - 1) as nat) + piece_value(f[(n - 1) / 8][(n - 1) % 8])
    }
}

fn value_of(p: u8) -> (r: i32)
    ensures
        r == piece_value(p),
{
    if p < 2 {
        return 0;
    }
    let k = p - p % 2;
    let v: i32 = if k == PAWN {
        100
    } else if k == KNIGHT || k == BISHOP {
        300
    } else if k == ROOK {
        450
    } else if k == QUEEN {
        900
    } else if k == KING {
        25500
    } else {
        0
    };
    if p % 2 == 1 {
        v
    } else {
        -v
    }
}

pub struct Materialist {
    pub half_depth: i8,
    pub hashtable: Hashtable,
    pub cache: HashMap<u64, EvalHashed>,
}

impl Materialist {
    /// An evaluator searching `half_depth` plies, hashing with the table of
    /// the default seed.
    pub fn new(half_depth: i8) -> (r: Materialist)
        ensures
            r.half_depth == half_depth,
            r.cache@ == Map::<u64, EvalHashed>::empty(),
    {
        Materialist { half_depth, hashtable: Hashtable::new(DEFAULT_SEED), cache: HashMap::new() }
    }

    /// The material balance of the board.
    pub fn static_eval(&self, board: &Board) -> (r: i32)
        requires
            board.wf(),
        ensures
            r == material(board.fv(), 64),
    {
        proof { board.lemma_fv_shape(); }
        let mut score: i32 = 0;
        let mut n: usize = 0;
        while n < 64
            invariant
                n <= 64,
                board.wf(),
                score == material(board.fv(), n as nat),
                -25500 * n <= score <= 25500 * n,
            decreases 64 - n,
        {
            let (y, x) = (n / 8, n % 8);
            let p = board.field[y][x];
            assert(on(y as int, x as int));
            assert(p == board.sq(y as int, x as int));
            let v = value_of(p);
            score = score + v;
            n = n + 1;
        }
        score
    }
}

impl Character for Materialist {
    open spec fn cache_view(&self) -> Map<u64, EvalHashed> {
        self.cache@
    }

    open spec fn half_depth(&self) -> i8 {
        self.half_depth
    }

    open spec fn hash_view(&self, b: Board) -> u64 {
        hash_of(self.hashtable, b)
    }

    open spec fn static_view(&self, b: Board) -> i32 {
        material(b.fv(), 64) as i32
    }

    open spec fn mate_view(&self, b: Board) -> i32 {
        material(b.fv(), 64) as i32
    }

    open spec fn stalemate_view(&self, b: Board) -> i32 {
        0
    }

    proof fn lemma_views_position(&self, a: Board, b: Board) {
    }

    fn get_static_eval(&self, board: &Board) -> (r: i32) {
        self.static_eval(board)
    }

    fn get_static_eval_mate(&self, board: &Board) -> (r: i32) {
        self.static_eval(board)
    }

    fn get_static_eval_stalemate(&self, board: &Board) -> (r: i32) {
        0
    }

    fn get_static_half_depth(&self) -> (r: i8) {
        self.half_depth
    }

    fn set_static_half_depth(&mut self, half_depth: i8) {
        self.half_depth = half_depth;
    }

    fn make_hash(&self, board: &Board) -> (r: u64) {
        self.hashtable.hash(board)
    }

    fn clear_cache(&mut self) {
        self.cache = HashMap::new();
    }

    fn cache_evaluated(&mut self, hash: u64, eval: Eval, depth: i8) {
        broadcast use vstd::std_specs::hash::group_hash_axioms;

        let playcount = match self.cache.get(&hash) {
            Some(e) => e.playcount,
            None => 0,
        };
        self.cache.insert(hash, EvalHashed::evaluated(eval, depth, 0, playcount));
        assert(self.cache@.remove(hash) =~= old(self).cache@.remove(hash));
    }

    fn cache_play(&mut self, hash: u64) {
        broadcast use vstd::std_specs::hash::group_hash_axioms;

        let entry = match self.cache.get(&hash) {
            Some(e) => {
                let mut e2 = *e;
                if e2.playcount < 255 {
                    e2.playcount = e2.playcount + 1;
                }
                e2
            },
            None => EvalHashed::new(0),
        };
        self.cache.insert(hash, entry);
        assert(self.cache@.remove(hash) =~= old(self).cache@.remove(hash));
    }

    fn cache_unplay(&mut self, hash: u64) {
        broadcast use vstd::std_specs::hash::group_hash_axioms;

        match self.cache.get(&hash) {
            Some(e) => {
                let mut e2 = *e;
                if e2.playcount > 0 {
                    e2.playcount = e2.playcount - 1;
                }
                self.cache.insert(hash, e2);
                assert(self.cache@.remove(hash) =~= old(self).cache@.remove(hash));
            },
            None => {},
        }
    }

    fn is_played(&self, hash: u64) -> (r: bool) {
        broadcast use vstd::std_specs::hash::group_hash_axioms;

        match self.cache.get(&hash) {
            Some(e) => e.playcount > 0,
            None => false,
        }
    }

    fn is_evaluated(&self, hash: u64) -> (r: bool) {
        broadcast use vstd::std_specs::hash::group_hash_axioms;

        match self.cache.get(&hash) {
            Some(e) => e.evaluated,
            None => false,
        }
    }

    fn get_hashed_eval(&self, hash: u64) -> (r: Eval) {
        broadcast use vstd::std_specs::hash::group_hash_axioms;

        match self.cache.get(&hash) {
            Some(e) => e.eval,
            None => Eval::equal(),
        }
    }

    fn get_hashed_depth(&self, hash: u64) -> (r: i8) {
        broadcast use vstd::std_specs::hash::group_hash_axioms;

        match self.cache.get(&hash) {
            Some(e) => e.depth,
            None => 0,
        }
    }
}

} // verus!
