use chess_engine::board::Board;
use chess_engine::eval::{Eval, EvalMov};
use chess_engine::materialist::Materialist;
use chess_engine::minimax::eval;
use chess_engine::utils::move_to_user;

fn search(fen: &str, half_depth: i8) -> (Board, Vec<EvalMov>) {
    let mut b = Board::parse_fen(fen).unwrap();
    let mut engine = Materialist::new(half_depth);
    let moves = eval(&mut b, &mut engine, Eval::lowest(), Eval::highest());
    (b, moves)
}

#[test]
fn test_minimax_find_mate_01() {
    let (b, moves) = search("5k2/5ppp/5PPP/8/8/8/4R3/4R1K1 w - - 0 1", 6);
    assert_eq!(move_to_user(&b, &moves[0].mov) == "e2e8".to_string(), true);
    assert_eq!(moves[0].eval.mate_in() == 1, true);
}

#[test]
fn test_minimax_find_mate_02() {
    let (b, moves) = search("6k1/4Pppp/5P2/8/8/8/8/6K1 w - - 0 1", 2);
    let text = move_to_user(&b, &moves[0].mov);
    assert_eq!(text == "e7e8q".to_string() || text == "e7e8r".to_string(), true);
    assert_eq!(moves[0].eval.mate_in() == 1, true);
}

#[test]
fn test_minimax_find_mate_03() {
    let (b, moves) = search("6kq/5ppp/4P3/8/8/8/8/BB4K1 w - - 0 1", 4);
    assert_eq!(move_to_user(&b, &moves[0].mov) == "e6e7".to_string(), true);
    assert_eq!(moves[0].eval.mate_in() == 2, true);
}

#[test]
fn test_minimax_find_mate_04() {
    let (b, moves) = search("4qrk1/p1r1Bppp/4b3/2p3Q1/8/3P4/PPP2PPP/R3R1K1 w - - 3 19", 6);
    assert_eq!(move_to_user(&b, &moves[0].mov) == "e7f6".to_string(), true);
    assert_eq!(moves[0].eval.mate_in() == 3, true);
}

#[test]
fn test_minimax_find_mate_05() {
    let (b, moves) = search("r2qkbnr/ppp2ppp/2np4/4N3/2B1P3/2N4P/PPPP1PP1/R1BbK2R w KQkq - 0 7", 6);
    assert_eq!(move_to_user(&b, &moves[0].mov) == "c4f7".to_string(), true);
    assert_eq!(moves[0].eval.mate_in() == 2, true);
}

#[test]
fn test_minimax_find_mate_06() {
    let (b, moves) = search("rnbqkbnr/pppp1ppp/8/8/4pPP1/P7/1PPPP2P/RNBQKBNR b KQkq f3 0 3", 6);
    assert_eq!(move_to_user(&b, &moves[0].mov) == "d8h4".to_string(), true);
    assert_eq!(moves[0].eval.mate_in() == -1, true);
}

#[test]
fn test_minimax_find_mate_07() {
    let (_b, moves) = search("k3r3/3r4/8/8/8/8/8/5K2 w - - 0 1", 6);
    assert_eq!(moves[0].eval.mate_in() == -3, true);
}

#[test]
fn test_minimax_find_mate_08() {
    let (b, moves) = search("2r5/8/8/5K1k/4N1R1/7P/8/8 w - - 12 67", 6);
    assert_eq!(move_to_user(&b, &moves[0].mov) == "e4f6".to_string(), true);
    assert_eq!(moves[0].eval.mate_in() == 2, true);
}

#[test]
fn mate_by_long_castle() {
    let (b, moves) = search("r2k1bnr/ppp1pppp/5N2/8/8/7B/PPP1PP1P/R3K1NR w KQ - 0 1", 4);
    assert_eq!(move_to_user(&b, &moves[0].mov), "e1c1");
    assert_eq!(moves[0].eval.mate_in(), 1);
}

#[test]
fn search_leaves_board_untouched() {
    let fen = "r2qkbnr/ppp2ppp/2np4/4N3/2B1P3/2N4P/PPPP1PP1/R1BbK2R w KQkq - 0 7";
    let (b, _) = search(fen, 3);
    let fresh = Board::parse_fen(fen).unwrap();
    assert_eq!(b.field, fresh.field);
    assert_eq!(b.castling, fresh.castling);
    assert_eq!(b.white_to_move, fresh.white_to_move);
}

#[test]
fn results_best_first_for_black() {
    let (_b, moves) = search("rnbqkbnr/pppp1ppp/8/8/4pPP1/P7/1PPPP2P/RNBQKBNR b KQkq f3 0 3", 2);
    for w in moves.windows(2) {
        assert!(w[0].eval <= w[1].eval);
    }
}

#[test]
fn material_count() {
    let m = Materialist::new(2);
    let b = Board::new();
    assert_eq!(m.static_eval(&b), 0);
    let b2 = Board::parse_fen("4k3/8/8/8/8/8/8/R3K3 w - - 0 1").unwrap();
    assert_eq!(m.static_eval(&b2), 450);
}
