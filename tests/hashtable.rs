use chess_engine::board::Board;
use chess_engine::coord::Coord;
use chess_engine::hashtable::Hashtable;
use chess_engine::mov::Mov;

#[test]
fn test_hashtable_create_01() {
    let a = Hashtable::new(0);
    let b = Hashtable::new(1);
    let c = Hashtable::new(123456789);
    assert_eq!(a.table[0][0][0] == b.table[0][0][0], false);
    assert_eq!(c.table[7][7][11] == b.table[7][7][11], false);
    assert_eq!(a.table[2][3][4] == a.table[2][3][4], true);
}

#[test]
fn test_hashtable_hashing_01() {
    let a = Hashtable::new(0);
    let b = Board::new();
    let h = a.hash(&b);
    assert_eq!(h == 0, false);
}

#[test]
fn test_hashtable_hashing_02() {
    let a = Hashtable::new(0);
    let b = Board::parse_fen("rnbqkbnr/1pp1pppp/p7/3pP3/8/8/PPPP1PPP/RNBQKBNR w KQkq d6 0 3").unwrap();
    let h = a.hash(&b);
    let b2 = Board::parse_fen("rnbq1bnr/pppppk1p/8/5p2/4P1pP/5PP1/PPPPN3/RNBQKBR1 b Q h3 0 6").unwrap();
    let h2 = a.hash(&b2);
    assert_eq!(h == h2, false);
}

#[test]
fn test_hashtable_hashing_03() {
    let a = Hashtable::new(0);
    let mut b = Board::parse_fen("r1bqkb1r/pppp1ppp/2n2n2/4p1N1/2B1P3/8/PPPP1PPP/RNBQK2R b KQkq - 5 4").unwrap();
    let h = a.hash(&b);
    b.make_move(&Mov { data: 0, from: Coord::new(6, 3), to: Coord::new(4, 3) });
    let h2 = a.hash(&b);
    b.revert_move();
    let h3 = a.hash(&b);
    assert_eq!(h == h3, true);
    assert_eq!(h == h2, false);
}

#[test]
fn hashtable_same_seed_same_table() {
    let a = Hashtable::new(2005);
    let b = Hashtable::new(2005);
    assert_eq!(a.table, b.table);
    assert_eq!(a.color, b.color);
    assert_eq!(a.castlings, b.castlings);
    assert_eq!(a.en_passant, b.en_passant);
}

#[test]
fn hash_ignores_move_counters() {
    let a = Hashtable::new(2005);
    let b1 = Board::parse_fen("r3k2r/pp1ppppp/8/8/2pP4/8/PPP1PPPP/R3K2R b KQkq d3 0 1").unwrap();
    let b2 = Board::parse_fen("r3k2r/pp1ppppp/8/8/2pP4/8/PPP1PPPP/R3K2R b KQkq d3 37 90").unwrap();
    assert_eq!(a.hash(&b1), a.hash(&b2));
}

#[test]
fn hash_stable_over_every_legal_move() {
    let a = Hashtable::new(2005);
    let mut b = Board::parse_fen("r3k2r/pp1ppppp/8/8/2pP4/8/PPP1PPPP/R3K2R b KQkq d3 0 1").unwrap();
    let h = a.hash(&b);
    let moves = b.get_legal_moves(None, Some(true));
    for m in moves.iter() {
        b.make_move(m);
        assert_ne!(a.hash(&b), h);
        b.revert_move();
        assert_eq!(a.hash(&b), h);
    }
}

#[test]
fn hash_sees_side_castling_and_en_passant() {
    let a = Hashtable::new(2005);
    let base = a.hash(&Board::parse_fen("4k3/8/8/8/8/8/8/4K2R w K - 0 1").unwrap());
    assert_ne!(base, a.hash(&Board::parse_fen("4k3/8/8/8/8/8/8/4K2R b K - 0 1").unwrap()));
    assert_ne!(base, a.hash(&Board::parse_fen("4k3/8/8/8/8/8/8/4K2R w - - 0 1").unwrap()));
    let e1 = a.hash(&Board::parse_fen("4k3/8/8/3pP3/8/8/8/4K3 w - d6 0 1").unwrap());
    let e2 = a.hash(&Board::parse_fen("4k3/8/8/3pP3/8/8/8/4K3 w - - 0 1").unwrap());
    assert_ne!(e1, e2);
}
