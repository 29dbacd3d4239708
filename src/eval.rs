//! Search results: a score with a mate distance, under a total order in
//! which faster mates are better for the winning side.
use crate::mov::Mov;
use vstd::prelude::*;

verus! {

/// The largest magnitude of a score, in hundredths of a pawn.
pub const BIG_SCORE: i32 = 104857600;

/// The largest mate distance.
pub const BIG_MATE: i8 = 127;

/// The rank of a mate distance: mates for white above everything else,
/// faster ones higher; mates for black below, faster ones lower.
pub open spec fn mate_rank_of(m: i8) -> i16 {
    if m > 0 {
        (256 - m) as i16
    } else if m < 0 {
        (-256 - m) as i16
    } else {
        0
    }
}

/// The mate distance of a rank.
pub open spec fn mate_of_rank(r: i16) -> i8 {
    if r > 0 {
        (256 - r) as i8
    } else if r < 0 {
        (-256 - r) as i8
    } else {
        0
    }
}

/// A score (hundredths of a pawn, positive is good for white) and a mate
/// distance in moves (positive: white mates, negative: black mates, 0: no
/// forced mate). Evals compare by mate rank, then by score: the order of
/// the fields.
#[derive(Clone, Copy, PartialEq, Eq, Structural, PartialOrd, Ord, Debug)]
pub struct Eval {
    mate_rank: i16,
    score: i32,
}

impl Eval {
    pub closed spec fn spec_score(self) -> i32 {
        self.score
    }

    pub closed spec fn rank(self) -> i16 {
        self.mate_rank
    }

    pub open spec fn spec_mate_in(self) -> i8 {
        mate_of_rank(self.rank())
    }

    /// The rank is that of a mate distance.
    pub open spec fn wf(self) -> bool {
        self.rank() == mate_rank_of(self.spec_mate_in()) && -255 <= self.rank() <= 255
    }

    /// The order on evals: `self` is worse for white than `o`.
    pub open spec fn worse_than(self, o: Eval) -> bool {
        self.rank() < o.rank() || (self.rank() == o.rank() && self.spec_score() < o.spec_score())
    }

    /// The eval with the given score and mate distance.
    pub closed spec fn from_parts(score: i32, mate_in: i8) -> Eval {
        Eval { mate_rank: mate_rank_of(mate_in), score }
    }

    pub fn new(score: i32, mate_in: i8) -> (r: Eval)
        ensures
            r == Eval::from_parts(score, mate_in),
            r.spec_score() == score,
            r.spec_mate_in() == mate_in,
            r.wf(),
    {
        let mate_rank: i16 = if mate_in > 0 {
            256 - mate_in as i16
        } else if mate_in < 0 {
            -256 - mate_in as i16
        } else {
            0
        };
        Eval { mate_rank, score }
    }

    pub fn score(&self) -> (r: i32)
        ensures
            r == self.spec_score(),
    {
        self.score
    }

    pub fn mate_in(&self) -> (r: i8)
        ensures
            r == self.spec_mate_in(),
    {
        let r = self.mate_rank as i32;
        if r > 0 {
            (256 - r) as i8
        } else if r < 0 {
            (-256 - r) as i8
        } else {
            0
        }
    }

    /// `self` is worse for white than `o`.
    pub fn is_lower(&self, o: &Eval) -> (r: bool)
        ensures
            r == self.worse_than(*o),
    {
        self.mate_rank < o.mate_rank || (self.mate_rank == o.mate_rank && self.score < o.score)
    }

    /// A draw: score 0, no mate.
    pub fn equal() -> (r: Eval)
        ensures
            r.spec_score() == 0 && r.spec_mate_in() == 0 && r.wf(),
    {
        Eval::new(0, 0)
    }

    /// White mates at once: above every other eval.
    pub fn highest() -> (r: Eval)
        ensures
            r.spec_score() == BIG_SCORE && r.spec_mate_in() == 1 && r.wf(),
            r == Eval::from_parts(BIG_SCORE, 1),
    {
        Eval::new(BIG_SCORE, 1)
    }

    /// Black mates at once: below every other eval.
    pub fn lowest() -> (r: Eval)
        ensures
            r.spec_score() == -BIG_SCORE && r.spec_mate_in() == -1 && r.wf(),
            r == Eval::from_parts((-BIG_SCORE) as i32, (-1) as i8),
    {
        Eval::new(-BIG_SCORE, -1)
    }

    pub fn higher() -> (r: Eval)
        ensures
            r.spec_score() == -BIG_SCORE && r.spec_mate_in() == 1 && r.wf(),
    {
        Eval::new(-BIG_SCORE, 1)
    }

    pub fn lower() -> (r: Eval)
        ensures
            r.spec_score() == BIG_SCORE && r.spec_mate_in() == -1 && r.wf(),
    {
        Eval::new(BIG_SCORE, -1)
    }

    /// The best for white short of a quick mate: the window's upper end.
    pub fn high() -> (r: Eval)
        ensures
            r.spec_score() == BIG_SCORE && r.spec_mate_in() == BIG_MATE && r.wf(),
    {
        Eval::new(BIG_SCORE, BIG_MATE)
    }

    /// The worst for white short of a quick mate: the window's lower end.
    pub fn low() -> (r: Eval)
        ensures
            r.spec_score() == -BIG_SCORE && r.spec_mate_in() == -BIG_MATE && r.wf(),
    {
        Eval::new(-BIG_SCORE, -BIG_MATE)
    }
}

/// Between two mates for white, the faster one is greater.
pub proof fn lemma_faster_white_mate_greater(a: Eval, b: Eval)
    requires
        a.wf(),
        b.wf(),
        0 < a.spec_mate_in() < b.spec_mate_in(),
    ensures
        b.worse_than(a),
{
}

/// Between two mates for black, the faster one is smaller.
pub proof fn lemma_faster_black_mate_smaller(a: Eval, b: Eval)
    requires
        a.wf(),
        b.wf(),
        b.spec_mate_in() < a.spec_mate_in() < 0,
    ensures
        a.worse_than(b),
{
}

/// Without mates, evals order by score.
pub proof fn lemma_plain_evals_order_by_score(a: Eval, b: Eval)
    requires
        a.wf(),
        b.wf(),
        a.spec_mate_in() == 0,
        b.spec_mate_in() == 0,
    ensures
        a.worse_than(b) <==> a.spec_score() < b.spec_score(),
{
}

/// A mate for white beats any eval without a mate, which beats any mate for
/// black; so any mate for white beats any mate for black.
pub proof fn lemma_mate_classes_ordered(w: Eval, n: Eval, k: Eval)
    requires
        w.wf(),
        n.wf(),
        k.wf(),
        w.spec_mate_in() > 0,
        n.spec_mate_in() == 0,
        k.spec_mate_in() < 0,
    ensures
        n.worse_than(w),
        k.worse_than(n),
        k.worse_than(w),
{
}

/// A root move with its eval.
#[derive(Clone, Copy, Debug)]
pub struct EvalMov {
    pub mov: Mov,
    pub eval: Eval,
}

/// A cache entry: eval, the ply at which it was found, the search
/// iteration, how often the position stands on the current search path,
/// and whether the eval is set.
#[derive(Clone, Copy, Debug)]
pub struct EvalHashed {
    pub eval: Eval,
    pub depth: i8,
    pub iter: u8,
    pub playcount: u8,
    pub evaluated: bool,
}

impl EvalHashed {
    /// A position put on the search path once, not evaluated yet.
    pub fn new(iter: u8) -> (r: Self)
        ensures
            r.eval.spec_score() == 0 && r.eval.spec_mate_in() == 0,
            r.depth == 0 && r.iter == iter && r.playcount == 1 && !r.evaluated,
    {
        Self { eval: Eval::equal(), depth: 0, iter, playcount: 1, evaluated: false }
    }

    /// An evaluated position.
    pub fn evaluated(eval: Eval, depth: i8, iter: u8, playcount: u8) -> (r: Self)
        ensures
            r == (Self { eval, depth, iter, playcount, evaluated: true }),
    {
        Self { eval, depth, iter, playcount, evaluated: true }
    }
}

} // verus!
