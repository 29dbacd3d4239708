//! The evaluator interface the search consumes: static scores, the depth
//! limit, hashing, and a cache of evaluated positions that also counts how
//! often a position stands on the current search path.
use crate::board::Board;
use crate::eval::{Eval, EvalHashed};
use vstd::prelude::*;

verus! {

pub trait Character {
    /// The cache: entries by position hash.
    spec fn cache_view(&self) -> Map<u64, EvalHashed>;

    /// The maximum search depth in plies.
    spec fn half_depth(&self) -> i8;

    /// The hash of a position.
    spec fn hash_view(&self, b: Board) -> u64;

    /// The static score of a position.
    spec fn static_view(&self, b: Board) -> i32;

    /// The score of a position whose side to move is mated.
    spec fn mate_view(&self, b: Board) -> i32;

    /// The score of a stalemate.
    spec fn stalemate_view(&self, b: Board) -> i32;

    /// The hash and the scores depend on the position alone, not on the
    /// undo history.
    proof fn lemma_views_position(&self, a: Board, b: Board)
        requires
            a.same_position(b),
        ensures
            self.hash_view(a) == self.hash_view(b),
            self.static_view(a) == self.static_view(b),
            self.mate_view(a) == self.mate_view(b),
            self.stalemate_view(a) == self.stalemate_view(b),
    ;

    /// Heuristic score of the position, hundredths of a pawn, positive is
    /// good for white.
    fn get_static_eval(&self, board: &Board) -> (r: i32)
        requires
            board.wf(),
        ensures
            r == self.static_view(*board),
    ;

    /// Score of a position whose side to move is mated.
    fn get_static_eval_mate(&self, board: &Board) -> (r: i32)
        requires
            board.wf(),
        ensures
            r == self.mate_view(*board),
    ;

    /// Score of a stalemate.
    fn get_static_eval_stalemate(&self, board: &Board) -> (r: i32)
        requires
            board.wf(),
        ensures
            r == self.stalemate_view(*board),
    ;

    fn get_static_half_depth(&self) -> (r: i8)
        ensures
            r == self.half_depth(),
    ;

    fn set_static_half_depth(&mut self, half_depth: i8)
        ensures
            forall|b: Board| #[trigger] final(self).hash_view(b) == old(self).hash_view(b),
            forall|b: Board| #[trigger] final(self).static_view(b) == old(self).static_view(b),
            forall|b: Board| #[trigger] final(self).mate_view(b) == old(self).mate_view(b),
            forall|b: Board| #[trigger] final(self).stalemate_view(b) == old(self).stalemate_view(b),
            final(self).half_depth() == half_depth,
            final(self).cache_view() == old(self).cache_view(),
    ;

    fn make_hash(&self, board: &Board) -> (r: u64)
        requires
            board.wf(),
        ensures
            r == self.hash_view(*board),
    ;

    /// Empties the cache.
    fn clear_cache(&mut self)
        ensures
            forall|b: Board| #[trigger] final(self).hash_view(b) == old(self).hash_view(b),
            forall|b: Board| #[trigger] final(self).static_view(b) == old(self).static_view(b),
            forall|b: Board| #[trigger] final(self).mate_view(b) == old(self).mate_view(b),
            forall|b: Board| #[trigger] final(self).stalemate_view(b) == old(self).stalemate_view(b),
            final(self).cache_view() == Map::<u64, EvalHashed>::empty(),
            final(self).half_depth() == old(self).half_depth(),
    ;

    /// Stores an eval found at ply `depth`; the path count is kept.
    fn cache_evaluated(&mut self, hash: u64, eval: Eval, depth: i8)
        ensures
            forall|b: Board| #[trigger] final(self).hash_view(b) == old(self).hash_view(b),
            forall|b: Board| #[trigger] final(self).static_view(b) == old(self).static_view(b),
            forall|b: Board| #[trigger] final(self).mate_view(b) == old(self).mate_view(b),
            forall|b: Board| #[trigger] final(self).stalemate_view(b) == old(self).stalemate_view(b),
            final(self).half_depth() == old(self).half_depth(),
            final(self).cache_view().remove(hash) == old(self).cache_view().remove(hash),
            final(self).cache_view().contains_key(hash),
            final(self).cache_view()[hash].eval == eval,
            final(self).cache_view()[hash].depth == depth,
            final(self).cache_view()[hash].evaluated,
            final(self).cache_view()[hash].playcount == (if old(self).cache_view().contains_key(
                hash,
            ) {
                old(self).cache_view()[hash].playcount
            } else {
                0
            }),
    ;

    /// Puts the position on the search path once more: its play count
    /// rises by one (staying at 255 when already there) and the rest of the
    /// entry stays; a position not in the cache gets an unevaluated entry
    /// with play count 1.
    fn cache_play(&mut self, hash: u64)
        ensures
            forall|b: Board| #[trigger] final(self).hash_view(b) == old(self).hash_view(b),
            forall|b: Board| #[trigger] final(self).static_view(b) == old(self).static_view(b),
            forall|b: Board| #[trigger] final(self).mate_view(b) == old(self).mate_view(b),
            forall|b: Board| #[trigger] final(self).stalemate_view(b) == old(self).stalemate_view(b),
            final(self).half_depth() == old(self).half_depth(),
            final(self).cache_view().remove(hash) == old(self).cache_view().remove(hash),
            final(self).cache_view().contains_key(hash),
            old(self).cache_view().contains_key(hash) ==> {
                let (e, n) = (old(self).cache_view()[hash], final(self).cache_view()[hash]);
                &&& n.eval == e.eval && n.depth == e.depth && n.iter == e.iter && n.evaluated
                    == e.evaluated
                &&& n.playcount == (if e.playcount < 255 {
                    (e.playcount + 1) as u8
                } else {
                    255
                })
            },
            !old(self).cache_view().contains_key(hash) ==> {
                let n = final(self).cache_view()[hash];
                n.playcount == 1 && !n.evaluated
            },
    ;

    /// Takes the position off the search path once: its play count goes
    /// down by one (staying at 0) and the rest of the entry stays; without
    /// an entry the cache is unchanged.
    fn cache_unplay(&mut self, hash: u64)
        ensures
            forall|b: Board| #[trigger] final(self).hash_view(b) == old(self).hash_view(b),
            forall|b: Board| #[trigger] final(self).static_view(b) == old(self).static_view(b),
            forall|b: Board| #[trigger] final(self).mate_view(b) == old(self).mate_view(b),
            forall|b: Board| #[trigger] final(self).stalemate_view(b) == old(self).stalemate_view(b),
            final(self).half_depth() == old(self).half_depth(),
            final(self).cache_view().remove(hash) == old(self).cache_view().remove(hash),
            old(self).cache_view().contains_key(hash) ==> {
                let (e, n) = (old(self).cache_view()[hash], final(self).cache_view()[hash]);
                &&& final(self).cache_view().contains_key(hash)
                &&& n.eval == e.eval && n.depth == e.depth && n.iter == e.iter && n.evaluated
                    == e.evaluated
                &&& n.playcount == (if e.playcount > 0 {
                    (e.playcount - 1) as u8
                } else {
                    0
                })
            },
            !old(self).cache_view().contains_key(hash) ==> final(self).cache_view()
                == old(self).cache_view(),
    ;

    /// The position stands on the current search path.
    fn is_played(&self, hash: u64) -> (r: bool)
        ensures
            r == (self.cache_view().contains_key(hash) && self.cache_view()[hash].playcount > 0),
    ;

    /// The cache holds an eval for the position.
    fn is_evaluated(&self, hash: u64) -> (r: bool)
        ensures
            r == (self.cache_view().contains_key(hash) && self.cache_view()[hash].evaluated),
    ;

    fn get_hashed_eval(&self, hash: u64) -> (r: Eval)
        ensures
            self.cache_view().contains_key(hash) ==> r == self.cache_view()[hash].eval,
    ;

    fn get_hashed_depth(&self, hash: u64) -> (r: i8)
        ensures
            self.cache_view().contains_key(hash) ==> r == self.cache_view()[hash].depth,
    ;
}

} // verus!
