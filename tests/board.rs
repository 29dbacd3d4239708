use chess_engine::board::Board;
use chess_engine::utils::move_to_board;

fn legal_count(fen: &str) -> usize {
    let mut b = Board::parse_fen(fen).unwrap();
    b.get_legal_moves(None, None).len()
}

#[test]
fn test_board_get_legal_moves_01() {
    assert_eq!(legal_count("r4nkr/1QRPPppq/2PB4/8/1n6/6N1/5PP1/1R4K1 w - - 0 1") == 42, true);
}

#[test]
fn test_board_get_legal_moves_02() {
    assert_eq!(legal_count("r3k2r/pp1ppppp/8/8/2pP4/8/PPP1PPPP/R3K2R b KQkq d3 0 1") == 25, true);
}

#[test]
fn test_board_get_legal_moves_03() {
    assert_eq!(legal_count("rnb1kb1r/pppppppp/4q3/8/8/3n4/PPPPPPPP/RNBQKBNR w KQkq - 0 1") == 1, true);
}

#[test]
fn test_board_get_legal_moves_04() {
    assert_eq!(legal_count("rnbqkbnr/pp1ppppp/3N4/8/8/4Q3/PPPPPPPP/RNB1KB1R b KQkq - 0 1") == 0, true);
}

#[test]
fn test_board_get_legal_moves_05() {
    assert_eq!(legal_count("r3k2r/pp1ppppp/8/8/2pP4/3n4/PPP1PPPP/R3K2R w KQkq - 0 1") == 5, true);
}

#[test]
fn test_board_get_legal_moves_06() {
    assert_eq!(legal_count("5k2/5ppp/5PPP/8/8/8/4R3/4R1K1 w - - 0 1") == 27, true);
}

#[test]
fn test_board_get_legal_moves_07() {
    assert_eq!(legal_count("r3k2r/p3p2p/7n/3B4/8/8/P6P/R3K2R b KQkq - 0 1") == 17, true);
}

#[test]
fn test_board_make_move_01() {
    let mut b = Board::new();
    for text in ["e2e4", "b8c6", "e4e5", "d7d5", "e5d6"] {
        let m = move_to_board(&b, text);
        b.make_move(&m);
    }
    let b2 = Board::parse_fen("r1bqkbnr/ppp1pppp/2nP4/8/8/8/PPPP1PPP/RNBQKBNR b KQkq - 0 3").unwrap();
    for i in 0..8 {
        for j in 0..8 {
            assert_eq!(b.field[i][j] == b2.field[i][j], true);
        }
    }
    b.revert_move();
    b.revert_move();
    b.revert_move();
    b.revert_move();
    b.revert_move();
    let d = Board::new().field;
    for i in 0..8 {
        for j in 0..8 {
            assert_eq!(b.field[i][j] == d[i][j] || b.field[i][j] < 2, true);
        }
    }
}
