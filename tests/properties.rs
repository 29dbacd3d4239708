use chess_engine::board::{Board, Check};
use chess_engine::coord::Coord;
use chess_engine::mov::Mov;
use chess_engine::movegen::dedup_moves;
use chess_engine::utils::{move_to_board, move_to_user};

const POSITIONS: [&str; 6] = [
    "r4nkr/1QRPPppq/2PB4/8/1n6/6N1/5PP1/1R4K1 w - - 0 1",
    "r3k2r/pp1ppppp/8/8/2pP4/8/PPP1PPPP/R3K2R b KQkq d3 0 1",
    "r3k2r/pp1ppppp/8/8/2pP4/3n4/PPP1PPPP/R3K2R w KQkq - 0 1",
    "r3k2r/p3p2p/7n/3B4/8/8/P6P/R3K2R b KQkq - 0 1",
    "6k1/4Pppp/5P2/8/8/8/8/6K1 w - - 0 1",
    "rnbqkbnr/pppp1ppp/8/8/4pPP1/P7/1PPPP2P/RNBQKBNR b KQkq f3 0 3",
];

fn snapshot(b: &Board) -> ([[u8; 8]; 8], bool, u8, u8, u8, u8, u8, u16) {
    (b.field, b.white_to_move, b.en_passant.y(), b.en_passant.x(), b.castling, b.hmw, 0, b.no)
}

fn king_count(b: &Board, code: u8) -> usize {
    b.field.iter().flatten().filter(|&&p| p == code).count()
}

#[test]
fn make_unmake_restores_every_position() {
    for fen in POSITIONS {
        let mut b = Board::parse_fen(fen).unwrap();
        let before = snapshot(&b);
        let moves = b.get_legal_moves(None, Some(true));
        for m in moves.iter() {
            b.make_move(m);
            b.revert_move();
            assert_eq!(snapshot(&b), before, "{}", fen);
        }
    }
}

#[test]
fn one_king_each_after_every_move() {
    for fen in POSITIONS {
        let mut b = Board::parse_fen(fen).unwrap();
        let moves = b.get_legal_moves(None, None);
        for m in moves.iter() {
            b.make_move(m);
            assert_eq!(king_count(&b, 5), 1);
            assert_eq!(king_count(&b, 4), 1);
            b.revert_move();
        }
    }
}

#[test]
fn legal_moves_are_pseudo_legal_and_sorted() {
    for fen in POSITIONS {
        let mut b = Board::parse_fen(fen).unwrap();
        let pseudo = b.pseudo_legal_moves(Check::Unknown);
        let legal = b.get_legal_moves(None, None);
        assert!(legal.len() <= pseudo.len());
        for m in legal.iter() {
            assert!(pseudo.contains(m));
        }
        for w in legal.windows(2) {
            assert!(w[0].data >= w[1].data);
        }
    }
}

#[test]
fn own_king_safe_after_every_legal_move() {
    for fen in POSITIONS {
        let mut b = Board::parse_fen(fen).unwrap();
        let moves = b.get_legal_moves(None, None);
        for m in moves.iter() {
            b.make_move(m);
            let k = b.get_current_king_coord(false);
            assert!(!b.is_square_attacked(k.y(), k.x(), b.white_to_move, [true; 5]));
            b.revert_move();
        }
    }
}

#[test]
fn castling_needs_rights_empty_path_and_safe_squares() {
    let castles = |fen: &str| -> Vec<String> {
        let mut b = Board::parse_fen(fen).unwrap();
        let moves = b.get_legal_moves(None, None);
        moves
            .iter()
            .filter(|m| m.data & 1 == 1 && b.field[m.from.y() as usize][m.from.x() as usize] & 254 == 4)
            .map(|m| move_to_user(&b, m))
            .collect()
    };
    assert_eq!(castles("r3k2r/8/8/8/8/8/8/R3K2R w KQkq - 0 1"), vec!["e1g1", "e1c1"]);
    assert_eq!(castles("r3k2r/8/8/8/8/8/8/R3K2R w Qkq - 0 1"), vec!["e1c1"]);
    assert!(castles("r3k2r/8/8/8/8/8/8/R3K2R w - - 0 1").is_empty());
    assert_eq!(castles("r3k2r/8/8/8/8/8/8/RN2K2R w KQkq - 0 1"), vec!["e1g1"]);
    assert_eq!(castles("r3k2r/8/8/8/8/8/5r2/R3K2R w KQkq - 0 1"), vec!["e1c1"]);
    assert!(castles("r3k2r/8/8/8/8/8/8/R3K2R w KQkq - 0 1".replace("r3k2r/8/8/8/8/8/8", "r3k2r/8/8/8/8/8/4r3").as_str()).is_empty());
    assert_eq!(castles("r3k2r/8/8/8/8/8/8/R3K3 w KQkq - 0 1"), vec!["e1c1"]);
}

#[test]
fn en_passant_and_promotion_moves() {
    let mut b = Board::parse_fen("r3k2r/pp1ppppp/8/8/2pP4/8/PPP1PPPP/R3K2R b KQkq d3 0 1").unwrap();
    let moves = b.get_legal_moves(None, None);
    let texts: Vec<String> = moves.iter().map(|m| move_to_user(&b, m)).collect();
    assert!(texts.contains(&"c4d3".to_string()));
    let ep = moves.iter().find(|m| move_to_user(&b, m) == "c4d3").unwrap();
    assert_eq!(ep.data & 63, 9);
    b.make_move(ep);
    assert_eq!(b.field[3][3], 0);
    assert_eq!(b.field[2][3], 2);
    b.revert_move();
    assert_eq!(b.field[3][3], 3);

    let mut p = Board::parse_fen("6k1/4Pppp/5P2/8/8/8/8/6K1 w - - 0 1").unwrap();
    let moves = p.get_legal_moves(None, None);
    let promos: Vec<String> = moves.iter().map(|m| move_to_user(&p, m)).filter(|t| t.len() == 5).collect();
    assert_eq!(promos.len(), 4);
    let q = move_to_board(&p, "e7e8q");
    p.make_move(&q);
    assert_eq!(p.field[7][4], 13);
    p.revert_move();
    assert_eq!(p.field[6][4], 3);
}

#[test]
fn check_bits_and_hints() {
    let mut b = Board::parse_fen("5k2/5ppp/5PPP/8/8/8/4R3/4R1K1 w - - 0 1").unwrap();
    let moves = b.get_legal_moves(None, Some(true));
    let mate = moves.iter().find(|m| move_to_user(&b, m) == "e2e8").unwrap();
    assert_eq!(b.get_check(&mate.data), Check::InCheck);
    assert_eq!(b.get_check(&0), Check::NotInCheck);
    assert_eq!(b.get_check(&192), Check::InDoubleCheck);
    let plain = b.get_legal_moves(None, None);
    assert!(plain.iter().all(|m| m.data < 64));
}

#[test]
fn counters_after_moves() {
    let mut b = Board::new();
    for text in ["e2e4", "b8c6", "e4e5", "d7d5"] {
        let m = move_to_board(&b, text);
        b.make_move(&m);
    }
    assert_eq!((b.en_passant.y(), b.en_passant.x()), (5, 3));
    let m = move_to_board(&b, "e5d6");
    assert_eq!(m.data, 9);
    b.make_move(&m);
    assert_eq!(b.castling, 240);
    assert_eq!((b.en_passant.y(), b.en_passant.x()), (8, 8));
    assert_eq!(b.no, 3);
    assert_eq!(b.hmw, 0);
    assert!(!b.white_to_move);
    let n = move_to_board(&b, "g8f6");
    b.make_move(&n);
    assert_eq!(b.hmw, 1);
    assert_eq!(b.no, 4);
}

#[test]
fn rook_and_king_moves_drop_rights() {
    let mut b = Board::parse_fen("r3k2r/8/8/8/8/8/8/R3K2R w KQkq - 0 1").unwrap();
    b.make_move(&move_to_board(&b, "h1h2"));
    assert_eq!(b.castling, 64 + 32 + 16);
    b.make_move(&move_to_board(&b, "a8a1"));
    assert_eq!(b.castling, 64 + 32);
    b.revert_move();
    b.revert_move();
    assert_eq!(b.castling, 240);
    b.make_move(&move_to_board(&b, "e1g1"));
    assert_eq!(b.castling, 48);
    assert_eq!(b.field[0][5], 11);
    assert_eq!(b.field[0][7], 0);
}

#[test]
fn fen_errors() {
    assert!(Board::parse_fen("rnbxkbnr/8/8/8/8/8/8/4K3 w - - 0 1").is_none());
    assert!(Board::parse_fen("4k3/8/8/8/8/8/8/4K3 w KX - 0 1").is_none());
    assert!(Board::parse_fen("4k3/8/8/8/8/8/8/8 w - - 0 1").is_none());
    assert!(Board::parse_fen("4k3/8/8/8/8/8/8/3KK3 w - - 0 1").is_none());
    assert!(Board::parse_fen("4k3/8/8/8/8/8/8/4K3 w - - x 1").is_none());
    assert!(Board::parse_fen("4k3/8/8/8/8/8/8/4K3 w - - 256 1").is_none());
    assert!(Board::parse_fen("4k3/8/8/8/8/8/8/4K3 w - z9 0 1").is_none());
    assert!(Board::parse_fen("4k3/8/8/8/8/8/8/4K4 w - - 0 1").is_none());
    let b = Board::parse_fen("4k3/8/8/8/8/8/8/4K3 b").unwrap();
    assert!(!b.white_to_move);
    assert_eq!((b.hmw, b.no, b.castling, b.en_passant.y()), (0, 1, 0, 8));
    let c = Board::parse_fen("4k3/8/8/8/8/8/8/4K3 w Kq e3 7 42").unwrap();
    assert_eq!((c.castling, c.en_passant.y(), c.en_passant.x(), c.hmw, c.no), (144, 2, 4, 7, 42));
}

#[test]
fn code_tables() {
    let b = Board::new();
    assert_eq!(b.gpl(&'p'), 2);
    assert_eq!(b.gpl(&'Q'), 13);
    assert_eq!(b.gpr(&11), 'R');
    assert_eq!(b.gcl(&'K'), 128);
    assert_eq!(b.gcr(&16), 'q');
    assert_eq!(b.grl(&'n'), 2);
    assert_eq!(b.grr(&3), 'q');
    assert_eq!(b.gpls(&'r'), 40);
    assert_eq!(b.grls(&'q'), 6);
    assert_eq!(b.psav(9), 32);
    assert_eq!(b.rsav(1), 2);
    assert_eq!(b.ptpv(40 | 1), 10);
    assert_eq!(b.rtpv(7), 13);
    assert_eq!(b.rtpc(5), 'n');
    assert!(Board::in_bound(3, 4, 1, 1));
    assert!(!Board::in_bound(0, 4, 1, 0));
    assert!(Board::in_bound_single(8, 1));
    assert!(!Board::in_bound_single(9, 1));
}

#[test]
fn coords_and_moves() {
    let mut c = Coord::new(5, 3);
    assert_eq!((c.y(), c.x()), (5, 3));
    c.set(8, 8);
    assert_eq!((c.y(), c.x()), (8, 8));
    let m = Mov { data: 8, from: Coord::new(1, 1), to: Coord::new(2, 2) };
    assert!(m.is_dynamic());
    assert!(!Mov { data: 7, ..m }.is_dynamic());
    let b = Board::new();
    assert_eq!(move_to_user(&b, &move_to_board(&b, "g1f3")), "g1f3");
    let e = move_to_board(&b, "e2e4");
    assert_eq!((e.from.y(), e.from.x(), e.to.y(), e.to.x(), e.data), (1, 4, 3, 4, 0));
}

#[test]
fn double_check_hint_gives_king_moves_only() {
    let mut b = Board::parse_fen("4k3/8/8/8/8/8/8/R3K2R w KQ - 0 1").unwrap();
    let moves = b.get_legal_moves(Some(Check::InDoubleCheck), None);
    assert!(!moves.is_empty());
    assert!(moves.iter().all(|m| m.from.y() == 0 && m.from.x() == 4 && m.data & 1 == 0));
}

#[test]
fn en_passant_square_counts_as_pawn_attacked() {
    let b = Board::parse_fen("4k3/8/8/3p4/8/8/8/4K3 w - d6 0 1").unwrap();
    assert!(b.is_under_attack(5, 3, true, [false, false, false, false, true]));
    assert!(!b.is_square_attacked(5, 3, true, [false, false, false, false, true]));
    assert!(!b.is_under_attack(5, 3, true, [true, true, true, true, false]));
    assert!(!b.is_under_attack(5, 2, true, [false, false, false, false, true]));
}

#[test]
fn dedup_keeps_first_of_equal_moves() {
    let a = Mov { data: 8, from: Coord::new(1, 1), to: Coord::new(2, 2) };
    let a_check = Mov { data: 8 | 64, ..a };
    let b = Mov { data: 0, from: Coord::new(1, 1), to: Coord::new(2, 1) };
    let out = dedup_moves(&vec![a_check, b, a, b]);
    assert_eq!(out, vec![a_check, b]);
    let mut board = Board::parse_fen("r3k2r/pp1ppppp/8/8/2pP4/8/PPP1PPPP/R3K2R b KQkq d3 0 1").unwrap();
    let moves = board.get_legal_moves(None, Some(true));
    assert_eq!(dedup_moves(&moves).len(), moves.len());
}

#[test]
fn capture_on_a_corner_keeps_rights() {
    let mut b = Board::parse_fen("r3k2r/8/8/8/8/8/1B6/R3K2R w KQkq - 0 1").unwrap();
    b.make_move(&move_to_board(&b, "b2h8"));
    assert_eq!(b.castling, 240);
    assert_eq!(b.field[7][7], 9);
}
