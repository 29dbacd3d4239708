//! Alpha-beta search: the root driver returns every root move with its
//! eval, best first for the side to move; the recursion consults the
//! evaluator's cache for repetitions along the path and earlier results.
use crate::board::{Board, Check};
use crate::character::Character;
use crate::eval::{Eval, EvalHashed, EvalMov, BIG_SCORE};
use crate::board::made;
use crate::movegen::{check_of, filter_mask, gen_ok, kept, legal_ok, no_duplicates, pseudo_move, safe_after, same_key};
use crate::mov::Mov;
use vstd::prelude::*;

verus! {

/// `x` may stand before `y` in a list ordered best first for white
/// (`white`) or for black.
pub open spec fn ranks_before(x: Eval, y: Eval, white: bool) -> bool {
    if white {
        !x.worse_than(y)
    } else {
        !y.worse_than(x)
    }
}

pub open spec fn sorted_best_first(s: Seq<EvalMov>, white: bool) -> bool {
    forall|a: int, b: int| 0 <= a < b < s.len() ==> ranks_before(s[a].eval, s[b].eval, white)
}

fn ranks_before_exec(x: &Eval, y: &Eval, white: bool) -> (r: bool)
    ensures
        r == ranks_before(*x, *y, white),
{
    if white {
        !x.is_lower(y)
    } else {
        !y.is_lower(x)
    }
}

/// Orders evaluated moves best first for the given side, keeping the
/// order of equal evals.
#[verifier::rlimit(30)]
pub fn sort_evals(v: Vec<EvalMov>, white: bool) -> (r: Vec<EvalMov>)
    ensures
        r@.to_multiset() == v@.to_multiset(),
        sorted_best_first(r@, white),
{
    broadcast use vstd::seq_lib::to_multiset_insert, vstd::seq_lib::to_multiset_build;

    let mut out: Vec<EvalMov> = Vec::new();
    let mut i: usize = 0;
    assert(v@.subrange(0, 0) =~= Seq::<EvalMov>::empty());
    while i < v.len()
        invariant
            i <= v.len(),
            sorted_best_first(out@, white),
            out@.to_multiset() == v@.subrange(0, i as int).to_multiset(),
        decreases v.len() - i,
    {
        let m = v[i];
        let mut j: usize = 0;
        while j < out.len() && ranks_before_exec(&out[j].eval, &m.eval, white)
            invariant
                j <= out.len(),
                forall|k: int| 0 <= k < j ==> ranks_before(out@[k].eval, m.eval, white),
            decreases out.len() - j,
        {
            j = j + 1;
        }
        let ghost prev = out@;
        out.insert(j, m);
        assert(out@ == prev.insert(j as int, m));
        assert forall|a: int, b: int| 0 <= a < b < out@.len() implies ranks_before(
            out@[a].eval,
            out@[b].eval,
            white,
        ) by {
            if b < j {
            } else if b == j {
            } else if a < j {
                assert(out@[b] == prev[b - 1]);
                assert(!ranks_before(prev[j as int].eval, m.eval, white));
                assert(ranks_before(prev[j as int].eval, prev[b - 1].eval, white));
            } else if a == j {
                assert(!ranks_before(prev[j as int].eval, m.eval, white));
                assert(ranks_before(prev[j as int].eval, prev[b - 1].eval, white));
            } else {
                assert(out@[a] == prev[a - 1]);
                assert(out@[b] == prev[b - 1]);
            }
        }
        assert(v@.subrange(0, i + 1) =~= v@.subrange(0, i as int).push(m));
        proof {
            vstd::seq_lib::to_multiset_insert(prev, j as int, m);
            vstd::seq_lib::to_multiset_build(v@.subrange(0, i as int), m);
        }
        i = i + 1;
    }
    assert(v@.subrange(0, v@.len() as int) =~= v@);
    out
}

/// How often position `h` stands on the search path (0 without an entry).
pub open spec fn play_count(c: Map<u64, EvalHashed>, h: u64) -> u8 {
    if c.contains_key(h) {
        c[h].playcount
    } else {
        0
    }
}

/// Every play count of `a` is the same in `b`.
pub open spec fn counts_kept(a: Map<u64, EvalHashed>, b: Map<u64, EvalHashed>) -> bool {
    forall|h: u64| #[trigger] play_count(b, h) == play_count(a, h)
}

/// The side to move on `b` has a legal move, under check status `hint`.
pub open spec fn has_legal_move(b: Board, hint: Check) -> bool {
    exists|m: Mov|
        #[trigger] pseudo_move(
            b,
            hint,
            m.from.row() as int,
            m.from.col() as int,
            m.to.row() as int,
            m.to.col() as int,
            m.data,
        ) && safe_after(b, m, filter_mask(b, m, hint))
}

/// The cache answers neither with a repetition nor with an earlier result
/// for position `h` at ply `depth`: the position is searched.
pub open spec fn searched_here(c: Map<u64, EvalHashed>, h: u64, depth: i8) -> bool {
    &&& !(c.contains_key(h) && c[h].playcount > 0)
    &&& !(c.contains_key(h) && c[h].evaluated && c[h].depth <= depth && c[h].eval.spec_mate_in()
        == 0)
}

/// The mate distance of a position without legal moves found at ply
/// `depth`: in moves, for the side that mates, or 0 for a stalemate.
pub open spec fn terminal_mate(depth: i8, maximize: bool, check: Check) -> i8 {
    if check == Check::InCheck || check == Check::InDoubleCheck {
        if maximize {
            (-((depth + 1) / 2)) as i8
        } else {
            ((depth + 1) / 2) as i8
        }
    } else {
        0
    }
}

proof fn lemma_counts_kept(a: Map<u64, EvalHashed>, b: Map<u64, EvalHashed>, hash: u64)
    requires
        a.remove(hash) == b.remove(hash),
    ensures
        forall|h: u64| h != hash ==> #[trigger] play_count(b, h) == play_count(a, h),
{
    assert forall|h: u64| h != hash implies #[trigger] play_count(b, h) == play_count(a, h) by {
        {
            assert(a.remove(hash).contains_key(h) == a.contains_key(h));
            assert(b.remove(hash).contains_key(h) == b.contains_key(h));
            if a.contains_key(h) {
                assert(a.remove(hash)[h] == a[h]);
                assert(b.remove(hash)[h] == b[h]);
            }
        }
    }
}

/// A legal move in the list gives a legal move in the sense of
/// `has_legal_move`.
proof fn lemma_listed_is_legal(b: Board, hint: Check, r: Mov)
    requires
        pseudo_move(
            b,
            hint,
            r.from.row() as int,
            r.from.col() as int,
            r.to.row() as int,
            r.to.col() as int,
            r.data % 64,
        ),
        safe_after(b, r, filter_mask(b, r, hint)),
    ensures
        has_legal_move(b, hint),
{
    let m = Mov { data: r.data % 64, from: r.from, to: r.to };
    let d = r.data;
    assert((d % 64) % 2 == d % 2 && ((d % 64) / 2) % 4 == (d / 2) % 4) by (bit_vector);
    assert(crate::board::make_field(b, m) == crate::board::make_field(b, r));
    assert(safe_after(b, m, filter_mask(b, m, hint)));
    assert(pseudo_move(
        b,
        hint,
        m.from.row() as int,
        m.from.col() as int,
        m.to.row() as int,
        m.to.col() as int,
        m.data,
    ));
}

/// No root move ends in the window's far side: every eval stays below
/// beta when white is to move, above alpha when black is.
pub open spec fn no_cutoff(r: Seq<EvalMov>, alpha: Eval, beta: Eval, white: bool) -> bool {
    &&& alpha.worse_than(beta)
    &&& forall|i: int|
        0 <= i < r.len() ==> if white {
            (#[trigger] r[i]).eval.worse_than(beta)
        } else {
            alpha.worse_than(r[i].eval)
        }
}

/// `r` holds an entry for move `m` (check bits aside).
pub open spec fn root_listed(r: Seq<EvalMov>, m: Mov) -> bool {
    exists|i: int| 0 <= i < r.len() && same_key((#[trigger] r[i]).mov, m)
}

/// No two entries are for the same move (check bits aside).
pub open spec fn distinct_moves(r: Seq<EvalMov>) -> bool {
    forall|i: int, j: int| 0 <= i < j < r.len() ==> !same_key(r[i].mov, r[j].mov)
}

proof fn lemma_permutation_distinct(e: Seq<EvalMov>, r: Seq<EvalMov>)
    requires
        r.to_multiset() == e.to_multiset(),
        distinct_moves(e),
    ensures
        distinct_moves(r),
{
    broadcast use vstd::seq_lib::to_multiset_contains;

    assert(e.no_duplicates()) by {
        assert forall|i: int, j: int| 0 <= i < e.len() && 0 <= j < e.len() && i != j implies e[i]
            != e[j] by {
            if i < j {
                assert(!same_key(e[i].mov, e[j].mov));
            } else {
                assert(!same_key(e[j].mov, e[i].mov));
            }
        }
    }
    e.lemma_multiset_has_no_duplicates();
    r.lemma_multiset_has_no_duplicates_conv();
    assert forall|i: int, j: int| 0 <= i < j < r.len() implies !same_key(r[i].mov, r[j].mov) by {
        if same_key(r[i].mov, r[j].mov) {
            assert(r.to_multiset().count(r[i]) > 0);
            assert(r.to_multiset().count(r[j]) > 0);
            let a = choose|a: int| 0 <= a < e.len() && e[a] == r[i];
            let b = choose|b: int| 0 <= b < e.len() && e[b] == r[j];
            if a < b {
                assert(!same_key(e[a].mov, e[b].mov));
            } else if b < a {
                assert(!same_key(e[b].mov, e[a].mov));
            }
            assert(r[i] != r[j]);
        }
    }
}

/// The better for white of the eval so far and a new one.
pub open spec fn better_max(a: Eval, v: Eval) -> Eval {
    if a.worse_than(v) {
        v
    } else {
        a
    }
}

/// The better for black of the eval so far and a new one.
pub open spec fn better_min(a: Eval, v: Eval) -> Eval {
    if v.worse_than(a) {
        v
    } else {
        a
    }
}

/// Best eval, alpha and beta after folding the child evals `vs` in order,
/// starting from the worst eval for the side to move and the window
/// (alpha, beta).
pub open spec fn ab_run(vs: Seq<Eval>, maximize: bool, alpha: Eval, beta: Eval) -> (Eval, Eval, Eval)
    decreases vs.len(),
{
    if vs.len() == 0 {
        (
            if maximize {
                Eval::from_parts((-BIG_SCORE) as i32, (-1) as i8)
            } else {
                Eval::from_parts(BIG_SCORE, 1)
            },
            alpha,
            beta,
        )
    } else {
        let (best, a, b) = ab_run(vs.drop_last(), maximize, alpha, beta);
        let v = vs.last();
        if maximize {
            (better_max(best, v), better_max(a, v), b)
        } else {
            (better_min(best, v), a, better_min(b, v))
        }
    }
}

/// The window of a fold state is closed: beta is not above alpha.
pub open spec fn window_closed(st: (Eval, Eval, Eval)) -> bool {
    !st.1.worse_than(st.2)
}

pub open spec fn evals_of(s: Seq<EvalMov>) -> Seq<Eval> {
    s.map_values(|e: EvalMov| e.eval)
}

/// `kids` are the child results of an alpha-beta node: legal moves of `b`,
/// distinct, with the result being the fold of their evals; the search
/// went on while the window stayed open, and covers every legal move unless
/// it closed.
pub open spec fn ab_node(b: Board, check: Check, kids: Seq<EvalMov>, maximize: bool, alpha: Eval, beta: Eval, r: Eval) -> bool {
    &&& kids.len() >= 1
    &&& r == ab_run(evals_of(kids), maximize, alpha, beta).0
    &&& forall|k: int|
        0 <= k < kids.len() - 1 ==> !window_closed(
            #[trigger] ab_run(evals_of(kids).take(k + 1), maximize, alpha, beta),
        )
    &&& forall|k: int| 0 <= k < kids.len() ==> legal_ok(b, #[trigger] kids[k].mov, check)
    &&& distinct_moves(kids)
    &&& window_closed(ab_run(evals_of(kids), maximize, alpha, beta)) || forall|m: Mov|
        #[trigger] pseudo_move(
            b,
            check,
            m.from.row() as int,
            m.from.col() as int,
            m.to.row() as int,
            m.to.col() as int,
            m.data,
        ) && safe_after(b, m, filter_mask(b, m, check)) ==> root_listed(kids, m)
}

proof fn lemma_fold_push(prev: Seq<EvalMov>, e: EvalMov, maximize: bool, alpha: Eval, beta: Eval)
    ensures
        ({
            let (best, a, b) = ab_run(evals_of(prev), maximize, alpha, beta);
            let v = e.eval;
            ab_run(evals_of(prev.push(e)), maximize, alpha, beta) == if maximize {
                (better_max(best, v), better_max(a, v), b)
            } else {
                (better_min(best, v), a, better_min(b, v))
            }
        }),
        forall|k: int|
            0 <= k < prev.len() ==> #[trigger] evals_of(prev.push(e)).take(k + 1) == evals_of(
                prev,
            ).take(k + 1),
        evals_of(prev.push(e)).take(prev.len() as int) == evals_of(prev),
        evals_of(prev.push(e)).len() == prev.len() + 1,
{
    let kids = prev.push(e);
    assert(evals_of(kids).drop_last() =~= evals_of(prev));
    assert(evals_of(kids).last() == e.eval);
    assert forall|k: int| 0 <= k < prev.len() implies #[trigger] evals_of(kids).take(k + 1)
        == evals_of(prev).take(k + 1) by {
        assert(evals_of(kids).take(k + 1) =~= evals_of(prev).take(k + 1));
    }
    assert(evals_of(kids).take(prev.len() as int) =~= evals_of(prev));
}

/// What a search of position `bb` at ply `depth` (window (alpha, beta),
/// `maximize` when white is to move, `check` as announced by the move that
/// led there) gives: `v` with child results `kids`, the evaluator going
/// from `e0` to `e1`. A position on the search path is a draw and a cached
/// result is taken as it is, both leaving the cache alone; a position
/// without legal moves is mate or stalemate, one at the depth limit gets
/// its static score, and both are stored; any other is the alpha-beta
/// fold of its children, stored when it falls strictly inside the window.
pub open spec fn search_post<C: Character>(
    e0: C,
    e1: C,
    bb: Board,
    depth: i8,
    limit: i8,
    alpha: Eval,
    beta: Eval,
    maximize: bool,
    check: Check,
    v: Eval,
    kids: Seq<EvalMov>,
) -> bool {
    let (c, h, fc) = (e0.cache_view(), e0.hash_view(bb), e1.cache_view());
    &&& (c.contains_key(h) && c[h].playcount > 0) ==> v.spec_score() == 0 && v.spec_mate_in() == 0
        && fc == c
    &&& (!(c.contains_key(h) && c[h].playcount > 0) && !searched_here(c, h, depth)) ==> v
        == c[h].eval && fc == c
    &&& (searched_here(c, h, depth) && !has_legal_move(bb, check)) ==> {
        &&& v.spec_mate_in() == terminal_mate(depth, maximize, check)
        &&& v.spec_score() == (if check == Check::InCheck || check == Check::InDoubleCheck {
            e0.mate_view(bb)
        } else {
            e0.stalemate_view(bb)
        })
        &&& stored(fc, h, v, depth)
    }
    &&& (searched_here(c, h, depth) && has_legal_move(bb, check) && depth >= limit) ==> {
        &&& v.spec_mate_in() == 0 && v.spec_score() == e0.static_view(bb)
        &&& stored(fc, h, v, depth)
    }
    &&& (searched_here(c, h, depth) && has_legal_move(bb, check) && depth < limit) ==> {
        &&& ab_node(bb, check, kids, maximize, alpha, beta, v)
        &&& (alpha.worse_than(v) && v.worse_than(beta)) ==> stored(fc, h, v, depth)
    }
}

/// Root entry `e` of a search of `b0` whose depth limit is `limit`: its
/// eval is what a search of the position after its move, one ply down,
/// gave for some evaluator state and window.
pub open spec fn root_entry<C: Character>(b0: Board, limit: i8, e: EvalMov) -> bool {
    exists|e0: C, e1: C, b1: Board, a: Eval, b: Eval, kids: Seq<EvalMov>|
        #[trigger] search_post(
            e0,
            e1,
            b1,
            1,
            limit,
            a,
            b,
            b1.white_to_move,
            check_of(e.mov.data),
            e.eval,
            kids,
        ) && made(b0, b1, e.mov)
}

/// `c` holds `r` for `h`, found at ply `depth`.
pub open spec fn stored(c: Map<u64, EvalHashed>, h: u64, r: Eval, depth: i8) -> bool {
    c.contains_key(h) && c[h].eval == r && c[h].depth == depth && c[h].evaluated
}

/// The better of two evals for white.
fn max_eval(a: Eval, b: Eval) -> (r: Eval)
    ensures
        r == (if a.worse_than(b) { b } else { a }),
{
    if a.is_lower(&b) {
        b
    } else {
        a
    }
}

/// The better of two evals for black.
fn min_eval(a: Eval, b: Eval) -> (r: Eval)
    ensures
        r == (if b.worse_than(a) { b } else { a }),
{
    if b.is_lower(&a) {
        b
    } else {
        a
    }
}

/// Evaluates the position `depth` plies below the root, with window
/// (alpha, beta), `maximize` when white is to move and `check` what the
/// move that led here announced. The board comes back as it was.
#[verifier::rlimit(100)]
fn minimax<C: Character>(board: &mut Board, ch: &mut C, depth: i8, limit: i8, alpha: Eval, beta: Eval, maximize: bool, check: Check) -> (r: (Eval, Ghost<Seq<EvalMov>>))
    requires
        old(board).wf(),
        1 <= depth <= limit,
    ensures
        final(board).same_position(*old(board)),
        final(board).wf(),
        final(ch).half_depth() == old(ch).half_depth(),
        forall|b: Board| #[trigger] final(ch).hash_view(b) == old(ch).hash_view(b),
        forall|b: Board| #[trigger] final(ch).static_view(b) == old(ch).static_view(b),
        forall|b: Board| #[trigger] final(ch).mate_view(b) == old(ch).mate_view(b),
        forall|b: Board| #[trigger] final(ch).stalemate_view(b) == old(ch).stalemate_view(b),
        counts_kept(old(ch).cache_view(), final(ch).cache_view()),
        search_post(*old(ch), *final(ch), *old(board), depth, limit, alpha, beta, maximize, check, r.0, r.1@),
    decreases limit - depth,
{
    reveal(gen_ok);
    let ghost c0 = ch.cache_view();
    let hash = ch.make_hash(board);
    if ch.is_played(hash) {
        return (Eval::equal(), Ghost(Seq::empty()));
    }
    if ch.is_evaluated(hash) {
        let stored = ch.get_hashed_eval(hash);
        if ch.get_hashed_depth(hash) <= depth && stored.mate_in() == 0 {
            return (stored, Ghost(Seq::empty()));
        }
    }
    let st = if depth >= limit {
        ch.get_static_eval(board)
    } else {
        0
    };
    ch.cache_play(hash);
    let ghost c1 = ch.cache_view();
    let ghost b0 = *board;
    let moves = board.get_legal_moves(Some(check), Some(true));
    proof {
        if moves@.len() > 0 {
            assert(legal_ok(b0, moves@[0], check));
            lemma_listed_is_legal(b0, check, moves@[0]);
        }
        if has_legal_move(b0, check) {
            let m = choose|m: Mov|
                #[trigger] pseudo_move(
                    b0,
                    check,
                    m.from.row() as int,
                    m.from.col() as int,
                    m.to.row() as int,
                    m.to.col() as int,
                    m.data,
                ) && safe_after(b0, m, filter_mask(b0, m, check));
            assert(kept(moves@, m));
        }
        ch.lemma_views_position(*board, b0);
    }
    if moves.len() == 0 {
        let e = if check == Check::InCheck || check == Check::InDoubleCheck {
            let n = ((depth as i16 + 1) / 2) as i8;
            Eval::new(ch.get_static_eval_mate(board), if maximize { -n } else { n })
        } else {
            Eval::new(ch.get_static_eval_stalemate(board), 0)
        };
        ch.cache_unplay(hash);
        let ghost c2 = ch.cache_view();
        ch.cache_evaluated(hash, e, depth);
        proof {
            lemma_counts_kept(c0, c1, hash);
            lemma_counts_kept(c1, c2, hash);
            lemma_counts_kept(c2, ch.cache_view(), hash);
            assert(play_count(ch.cache_view(), hash) == play_count(c0, hash));
        }
        return (e, Ghost(Seq::empty()));
    }
    if depth >= limit {
        let e = Eval::new(st, 0);
        ch.cache_unplay(hash);
        let ghost c2 = ch.cache_view();
        ch.cache_evaluated(hash, e, depth);
        proof {
            lemma_counts_kept(c0, c1, hash);
            lemma_counts_kept(c1, c2, hash);
            lemma_counts_kept(c2, ch.cache_view(), hash);
            assert(play_count(ch.cache_view(), hash) == play_count(c0, hash));
        }
        return (e, Ghost(Seq::empty()));
    }
    let mut a = alpha;
    let mut b = beta;
    let mut best = if maximize { Eval::lowest() } else { Eval::highest() };
    let ghost mut kids: Seq<EvalMov> = Seq::empty();
    assert(evals_of(kids) =~= Seq::<Eval>::empty());
    let mut i: usize = 0;
    while i < moves.len()
        invariant_except_break
            kids.len() == i,
            i > 0 ==> a.worse_than(b),
        invariant
            board.same_position(b0),
            board.wf(),
            b0.wf(),
            1 <= depth < limit,
            forall|k: int| 0 <= k < moves@.len() ==> legal_ok(b0, #[trigger] moves@[k], check),
            ch.half_depth() == old(ch).half_depth(),
            forall|x: Board| #[trigger] ch.hash_view(x) == old(ch).hash_view(x),
            forall|x: Board| #[trigger] ch.static_view(x) == old(ch).static_view(x),
            forall|x: Board| #[trigger] ch.mate_view(x) == old(ch).mate_view(x),
            forall|x: Board| #[trigger] ch.stalemate_view(x) == old(ch).stalemate_view(x),
            counts_kept(c1, ch.cache_view()),
            i <= moves@.len(),
            moves@.len() > 0,
            i <= kids.len() <= i + 1,
            kids.len() <= moves@.len(),
            forall|k: int| 0 <= k < kids.len() ==> (#[trigger] kids[k]).mov == moves@[k],
            (best, a, b) == ab_run(evals_of(kids), maximize, alpha, beta),
            forall|k: int|
                0 <= k < kids.len() - 1 ==> !window_closed(
                    #[trigger] ab_run(evals_of(kids).take(k + 1), maximize, alpha, beta),
                ),
        ensures
            board.same_position(b0),
            board.wf(),
            ch.half_depth() == old(ch).half_depth(),
            forall|x: Board| #[trigger] ch.hash_view(x) == old(ch).hash_view(x),
            forall|x: Board| #[trigger] ch.static_view(x) == old(ch).static_view(x),
            forall|x: Board| #[trigger] ch.mate_view(x) == old(ch).mate_view(x),
            forall|x: Board| #[trigger] ch.stalemate_view(x) == old(ch).stalemate_view(x),
            counts_kept(c1, ch.cache_view()),
            1 <= kids.len() <= moves@.len(),
            forall|k: int| 0 <= k < kids.len() ==> (#[trigger] kids[k]).mov == moves@[k],
            (best, a, b) == ab_run(evals_of(kids), maximize, alpha, beta),
            forall|k: int|
                0 <= k < kids.len() - 1 ==> !window_closed(
                    #[trigger] ab_run(evals_of(kids).take(k + 1), maximize, alpha, beta),
                ),
            kids.len() == moves@.len() || window_closed(ab_run(evals_of(kids), maximize, alpha, beta)),
        decreases moves.len() - i,
    {
        let m = moves[i];
        proof { reveal(gen_ok); }
        assert(legal_ok(b0, m, check));
        let ghost before = *board;
        board.make_move(&m);
        let ghost after = *board;
        let child_check = board.get_check(&m.data);
        let child_max = board.white_to_move;
        let (v, _) = minimax(board, ch, depth + 1, limit, a, b, child_max, child_check);
        board.revert_move();
        proof {
            assert(crate::board::unmade(after, *board));
            crate::board::lemma_make_unmake(before, after, *board, m);
        }
        let ghost prev = kids;
        proof {
            lemma_fold_push(prev, EvalMov { mov: m, eval: v }, maximize, alpha, beta);
            kids = kids.push(EvalMov { mov: m, eval: v });
        }
        if maximize {
            best = max_eval(best, v);
            a = max_eval(a, v);
        } else {
            best = min_eval(best, v);
            b = min_eval(b, v);
        }
        if !a.is_lower(&b) {
            break;
        }
        i = i + 1;
    }
    let ghost c2 = ch.cache_view();
    assert(play_count(c2, hash) == play_count(c1, hash));
    ch.cache_unplay(hash);
    let ghost c3 = ch.cache_view();
    if alpha.is_lower(&best) && best.is_lower(&beta) {
        ch.cache_evaluated(hash, best, depth);
    }
    proof {
        lemma_counts_kept(c0, c1, hash);
        lemma_counts_kept(c2, c3, hash);
        lemma_counts_kept(c3, ch.cache_view(), hash);
        assert forall|h: u64| #[trigger] play_count(ch.cache_view(), h) == play_count(c0, h) by {
            if h != hash {
                assert(play_count(c2, h) == play_count(c1, h));
            }
        }
        assert(distinct_moves(kids)) by {
            assert forall|x: int, y: int| 0 <= x < y < kids.len() implies !same_key(
                kids[x].mov,
                kids[y].mov,
            ) by {
                assert(kids[x].mov == moves@[x] && kids[y].mov == moves@[y]);
            }
        }
        assert forall|k: int| 0 <= k < kids.len() implies legal_ok(b0, #[trigger] kids[k].mov, check) by {
            assert(kids[k].mov == moves@[k]);
        }
        if !window_closed(ab_run(evals_of(kids), maximize, alpha, beta)) {
            assert forall|m: Mov|
                #[trigger] pseudo_move(
                    b0,
                    check,
                    m.from.row() as int,
                    m.from.col() as int,
                    m.to.row() as int,
                    m.to.col() as int,
                    m.data,
                ) && safe_after(b0, m, filter_mask(b0, m, check)) implies root_listed(kids, m) by {
                assert(kept(moves@, m));
                let j = choose|j: int|
                    0 <= j < moves@.len() && (#[trigger] moves@[j]).from == m.from && moves@[j].to
                        == m.to && moves@[j].data % 64 == m.data % 64;
                assert(kids[j].mov == moves@[j]);
                assert(same_key(kids[j].mov, m));
            }
        }
    }
    (best, Ghost(kids))
}

/// Searches every legal move of the position to the evaluator's depth
/// limit and returns them with their evals, best first for the side to
/// move. The window (alpha, beta) narrows as root moves are searched; the
/// board comes back as it was.
#[verifier::rlimit(30)]
pub fn eval<C: Character>(board: &mut Board, ch: &mut C, alpha: Eval, beta: Eval) -> (r: Vec<EvalMov>)
    requires
        old(board).wf(),
        old(ch).half_depth() >= 1,
    ensures
        final(board).same_position(*old(board)),
        final(board).wf(),
        forall|i: int|
            0 <= i < r@.len() ==> legal_ok(*old(board), #[trigger] r@[i].mov, Check::Unknown),
        sorted_best_first(r@, old(board).white_to_move),
        (exists|m: Mov|
            #[trigger] pseudo_move(
                *old(board),
                Check::Unknown,
                m.from.row() as int,
                m.from.col() as int,
                m.to.row() as int,
                m.to.col() as int,
                m.data,
            ) && safe_after(*old(board), m, filter_mask(*old(board), m, Check::Unknown)))
            ==> r@.len() > 0,
        distinct_moves(r@),
        no_cutoff(r@, alpha, beta, old(board).white_to_move) ==> forall|m: Mov|
            #[trigger] pseudo_move(
                *old(board),
                Check::Unknown,
                m.from.row() as int,
                m.from.col() as int,
                m.to.row() as int,
                m.to.col() as int,
                m.data,
            ) && safe_after(*old(board), m, filter_mask(*old(board), m, Check::Unknown))
                ==> root_listed(r@, m),
        forall|b: Board| #[trigger] final(ch).hash_view(b) == old(ch).hash_view(b),
        forall|b: Board| #[trigger] final(ch).static_view(b) == old(ch).static_view(b),
        forall|b: Board| #[trigger] final(ch).mate_view(b) == old(ch).mate_view(b),
        forall|b: Board| #[trigger] final(ch).stalemate_view(b) == old(ch).stalemate_view(b),
        forall|i: int|
            0 <= i < r@.len() ==> root_entry::<C>(*old(board), old(ch).half_depth(), #[trigger] r@[i]),
        final(ch).half_depth() == old(ch).half_depth(),
        play_count(old(ch).cache_view(), old(ch).hash_view(*old(board))) < 255 ==> counts_kept(
            old(ch).cache_view(),
            final(ch).cache_view(),
        ),
{
    reveal(gen_ok);
    let ghost c0 = ch.cache_view();
    broadcast use vstd::seq_lib::to_multiset_contains;

    let limit = ch.get_static_half_depth();
    let root = ch.make_hash(board);
    ch.cache_play(root);
    let ghost c1 = ch.cache_view();
    let ghost b0 = *board;
    let moves = board.get_legal_moves(Some(Check::Unknown), Some(true));
    let mut evals: Vec<EvalMov> = Vec::new();
    let mut a = alpha;
    let mut b = beta;
    let white = board.white_to_move;
    let mut i: usize = 0;
    while i < moves.len()
        invariant_except_break
            evals@.len() == i,
        invariant
            board.same_position(b0),
            board.wf(),
            b0.wf(),
            white == b0.white_to_move,
            limit >= 1,
            forall|k: int| 0 <= k < moves@.len() ==> legal_ok(b0, #[trigger] moves@[k], Check::Unknown),
            forall|k: int| 0 <= k < evals@.len() ==> legal_ok(b0, #[trigger] evals@[k].mov, Check::Unknown),
            forall|k: int| 0 <= k < evals@.len() ==> root_entry::<C>(b0, limit, #[trigger] evals@[k]),
            i <= moves@.len(),
            evals@.len() >= i,
            evals@.len() <= i + 1,
            evals@.len() <= moves@.len(),
            forall|k: int| 0 <= k < evals@.len() ==> (#[trigger] evals@[k]).mov == moves@[k],
            white ==> b == beta && (a == alpha || exists|k: int|
                0 <= k < evals@.len() && a == (#[trigger] evals@[k]).eval),
            !white ==> a == alpha && (b == beta || exists|k: int|
                0 <= k < evals@.len() && b == (#[trigger] evals@[k]).eval),
            forall|x: Board| #[trigger] ch.hash_view(x) == old(ch).hash_view(x),
            forall|x: Board| #[trigger] ch.static_view(x) == old(ch).static_view(x),
            forall|x: Board| #[trigger] ch.mate_view(x) == old(ch).mate_view(x),
            forall|x: Board| #[trigger] ch.stalemate_view(x) == old(ch).stalemate_view(x),
            ch.half_depth() == old(ch).half_depth(),
            counts_kept(c1, ch.cache_view()),
        ensures
            moves@.len() > 0 ==> evals@.len() > 0,
            forall|k: int| 0 <= k < evals@.len() ==> legal_ok(b0, #[trigger] evals@[k].mov, Check::Unknown),
            forall|k: int| 0 <= k < evals@.len() ==> root_entry::<C>(b0, limit, #[trigger] evals@[k]),
            board.same_position(b0),
            board.wf(),
            evals@.len() <= moves@.len(),
            forall|k: int| 0 <= k < evals@.len() ==> (#[trigger] evals@[k]).mov == moves@[k],
            white ==> b == beta && (a == alpha || exists|k: int|
                0 <= k < evals@.len() && a == (#[trigger] evals@[k]).eval),
            !white ==> a == alpha && (b == beta || exists|k: int|
                0 <= k < evals@.len() && b == (#[trigger] evals@[k]).eval),
            evals@.len() == moves@.len() || !a.worse_than(b),
            forall|x: Board| #[trigger] ch.hash_view(x) == old(ch).hash_view(x),
            forall|x: Board| #[trigger] ch.static_view(x) == old(ch).static_view(x),
            forall|x: Board| #[trigger] ch.mate_view(x) == old(ch).mate_view(x),
            forall|x: Board| #[trigger] ch.stalemate_view(x) == old(ch).stalemate_view(x),
            ch.half_depth() == old(ch).half_depth(),
            counts_kept(c1, ch.cache_view()),
        decreases moves.len() - i,
    {
        let m = moves[i];
        proof { reveal(gen_ok); }
        assert(legal_ok(b0, m, Check::Unknown));
        let ghost before = *board;
        board.make_move(&m);
        let ghost after = *board;
        let child_check = board.get_check(&m.data);
        let child_max = board.white_to_move;
        let ghost ch_before = *ch;
        let (v, gk) = minimax(board, ch, 1, limit, a, b, child_max, child_check);
        proof {
            let e = EvalMov { mov: m, eval: v };
            assert(made(b0, after, e.mov));
            assert(search_post(
                ch_before,
                *ch,
                after,
                1,
                limit,
                a,
                b,
                after.white_to_move,
                check_of(e.mov.data),
                e.eval,
                gk@,
            ));
            assert(root_entry::<C>(b0, limit, e));
        }
        board.revert_move();
        proof {
            assert(crate::board::unmade(after, *board));
            crate::board::lemma_make_unmake(before, after, *board, m);
        }
        let ghost eprev = evals@;
        evals.push(EvalMov { mov: m, eval: v });
        assert(evals@[evals@.len() - 1].eval == v);
        assert forall|k: int| 0 <= k < eprev.len() implies evals@[k] == eprev[k] by {}
        if white {
            a = max_eval(a, v);
        } else {
            b = min_eval(b, v);
        }
        if !a.is_lower(&b) {
            break;
        }
        i = i + 1;
    }
    let ghost c2 = ch.cache_view();
    ch.cache_unplay(root);
    let r = sort_evals(evals, white);
    proof {
        assert(distinct_moves(evals@)) by {
            assert forall|i: int, j: int| 0 <= i < j < evals@.len() implies !same_key(
                evals@[i].mov,
                evals@[j].mov,
            ) by {
                assert(evals@[i].mov == moves@[i] && evals@[j].mov == moves@[j]);
            }
        }
        lemma_permutation_distinct(evals@, r@);
        lemma_counts_kept(c0, c1, root);
        lemma_counts_kept(c2, ch.cache_view(), root);
        if play_count(c0, root) < 255 {
            assert forall|h: u64| #[trigger] play_count(ch.cache_view(), h) == play_count(c0, h) by {
                if h != root {
                    assert(play_count(c2, h) == play_count(c1, h));
                } else {
                    assert(play_count(c2, root) == play_count(c1, root));
                }
            }
        }
        if no_cutoff(r@, alpha, beta, white) {
            assert forall|k: int| 0 <= k < evals@.len() implies if white {
                (#[trigger] evals@[k]).eval.worse_than(beta)
            } else {
                alpha.worse_than(evals@[k].eval)
            } by {
                assert(evals@.to_multiset().count(evals@[k]) > 0);
                assert(r@.contains(evals@[k]));
            }
            assert(evals@.len() == moves@.len());
            assert forall|m: Mov|
                #[trigger] pseudo_move(
                    b0,
                    Check::Unknown,
                    m.from.row() as int,
                    m.from.col() as int,
                    m.to.row() as int,
                    m.to.col() as int,
                    m.data,
                ) && safe_after(b0, m, filter_mask(b0, m, Check::Unknown)) implies root_listed(
                r@,
                m,
            ) by {
                assert(kept(moves@, m));
                let j = choose|j: int|
                    0 <= j < moves@.len() && (#[trigger] moves@[j]).from == m.from && moves@[j].to
                        == m.to && moves@[j].data % 64 == m.data % 64;
                assert(evals@[j].mov == moves@[j]);
                assert(evals@.to_multiset().count(evals@[j]) > 0);
                assert(r@.contains(evals@[j]));
                let i = choose|i: int| 0 <= i < r@.len() && r@[i] == evals@[j];
                assert(same_key(r@[i].mov, m));
            }
        }
    }
    assert forall|i: int| 0 <= i < r@.len() implies legal_ok(b0, #[trigger] r@[i].mov, Check::Unknown)
        && root_entry::<C>(b0, limit, r@[i]) by {
        assert(r@.to_multiset().count(r@[i]) > 0);
        assert(evals@.contains(r@[i]));
    }
    proof {
        vstd::seq_lib::to_multiset_len(r@);
        vstd::seq_lib::to_multiset_len(evals@);
        if exists|m: Mov|
            #[trigger] pseudo_move(
                b0,
                Check::Unknown,
                m.from.row() as int,
                m.from.col() as int,
                m.to.row() as int,
                m.to.col() as int,
                m.data,
            ) && safe_after(b0, m, filter_mask(b0, m, Check::Unknown)) {
            let m = choose|m: Mov|
                #[trigger] pseudo_move(
                    b0,
                    Check::Unknown,
                    m.from.row() as int,
                    m.from.col() as int,
                    m.to.row() as int,
                    m.to.col() as int,
                    m.data,
                ) && safe_after(b0, m, filter_mask(b0, m, Check::Unknown));
            assert(kept(moves@, m));
        }
    }
    r
}

} // verus!
