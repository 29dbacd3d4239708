//! Letter <-> code tables for pieces, castling rights and promotion choices,
//! held in `bimap` bidirectional maps, and the bit layout of the meta byte.
use bimap::BiMap;
use vstd::prelude::*;

verus! {

#[verifier::external_type_specification]
#[verifier::external_body]
#[verifier::reject_recursive_types(L)]
#[verifier::reject_recursive_types(R)]
#[verifier::reject_recursive_types(LS)]
#[verifier::reject_recursive_types(RS)]
pub struct ExBiHashMap<L, R, LS, RS>(bimap::BiHashMap<L, R, LS, RS>);

/// A bidirectional map from letters to codes.
pub type CodeMap = BiMap<char, u8>;

/// The left-to-right pairs that a bidirectional map holds.
pub uninterp spec fn bimap_pairs(m: CodeMap) -> Map<char, u8>;

/// The pairs after inserting `(l, r)`: any pair that shares its left or its
/// right value with the new one is dropped first.
pub open spec fn pairs_after_insert(m: Map<char, u8>, l: char, r: u8) -> Map<char, u8> {
    Map::new(|k: char| m.dom().contains(k) && k != l && m[k] != r, |k: char| m[k]).insert(l, r)
}

/// No pairs at all.
pub open spec fn empty_pairs() -> Map<char, u8> {
    Map::empty()
}

/// Relies on bimap::BiHashMap::new: the map starts empty.
#[verifier::external_body]
fn bimap_new() -> (r: CodeMap)
    ensures
        bimap_pairs(r) == empty_pairs(),
{
    CodeMap::new()
}

/// Relies on bimap::BiHashMap::insert: it removes the pairs that hold `l` on
/// the left or `r` on the right, then adds `(l, r)`.
#[verifier::external_body]
fn bimap_insert(m: &mut CodeMap, l: char, r: u8)
    ensures
        bimap_pairs(*final(m)) == pairs_after_insert(bimap_pairs(*old(m)), l, r),
{
    m.insert(l, r);
}

/// Relies on bimap::BiHashMap::get_by_left: the right value paired with `l`.
#[verifier::external_body]
fn bimap_get_by_left(m: &CodeMap, l: char) -> (r: Option<u8>)
    ensures
        r == (if bimap_pairs(*m).dom().contains(l) {
            Some(bimap_pairs(*m)[l])
        } else {
            None::<u8>
        }),
{
    m.get_by_left(&l).copied()
}

/// Relies on bimap::BiHashMap::get_by_right: the left value paired with `v`.
#[verifier::external_body]
fn bimap_get_by_right(m: &CodeMap, v: u8) -> (r: Option<char>)
    ensures
        match r {
            Some(c) => bimap_pairs(*m).dom().contains(c) && bimap_pairs(*m)[c] == v,
            None => forall|c: char| #[trigger]
                bimap_pairs(*m).dom().contains(c) ==> bimap_pairs(*m)[c] != v,
        },
{
    m.get_by_right(&v).copied()
}

/// Piece letters and their 4-bit codes: bit 0 is the colour (1 = white),
/// the kind is 2 pawn, 4 king, 6 knight, 8 bishop, 10 rook, 12 queen.
pub open spec fn piece_table() -> Map<char, u8> {
    map![' ' => 0u8, 'p' => 2u8, 'P' => 3u8, 'k' => 4u8, 'K' => 5u8, 'n' => 6u8, 'N' => 7u8,
        'b' => 8u8, 'B' => 9u8, 'r' => 10u8, 'R' => 11u8, 'q' => 12u8, 'Q' => 13u8]
}

/// Castling-right letters and their bits in the rights byte.
pub open spec fn castle_table() -> Map<char, u8> {
    map!['q' => 16u8, 'k' => 32u8, 'Q' => 64u8, 'K' => 128u8]
}

/// Promotion letters and their 2-bit codes.
pub open spec fn promotion_table() -> Map<char, u8> {
    map!['b' => 0u8, 'r' => 1u8, 'n' => 2u8, 'q' => 3u8]
}

/// The three tables and the constants of the meta byte.
pub struct Bimaps {
    pub pieces: CodeMap,
    pub castles: CodeMap,
    pub promotions: CodeMap,
    pub shift_piece: u8,
    pub shift_promotion: u8,
    pub mask_piece: u8,
    pub mask_promotion: u8,
    pub bit_check: u8,
    pub bit_double_check: u8,
}

proof fn lemma_insert_fresh(m: Map<char, u8>, l: char, r: u8)
    requires
        !m.dom().contains(l),
        forall|k: char| #[trigger] m.dom().contains(k) ==> m[k] != r,
    ensures
        pairs_after_insert(m, l, r) == m.insert(l, r),
{
    assert(pairs_after_insert(m, l, r) =~= m.insert(l, r));
}

impl Bimaps {
    pub open spec fn wf(&self) -> bool {
        &&& bimap_pairs(self.pieces) == piece_table()
        &&& bimap_pairs(self.castles) == castle_table()
        &&& bimap_pairs(self.promotions) == promotion_table()
        &&& self.shift_piece == 2
        &&& self.shift_promotion == 1
        &&& self.mask_piece == 14
        &&& self.mask_promotion == 3
        &&& self.bit_check == 64
        &&& self.bit_double_check == 128
    }

    pub fn init() -> (r: Bimaps)
        ensures
            r.wf(),
    {
        let mut pieces = bimap_new();
        let mut castles = bimap_new();
        let mut promotions = bimap_new();
        let ghost e = Map::<char, u8>::empty();
        proof { lemma_insert_fresh(e, ' ', 0); }
        bimap_insert(&mut pieces, ' ', 0);
        let ghost m1 = e.insert(' ', 0u8);
        proof { lemma_insert_fresh(m1, 'p', 2); }
        bimap_insert(&mut pieces, 'p', 2);
        let ghost m2 = m1.insert('p', 2u8);
        proof { lemma_insert_fresh(m2, 'P', 3); }
        bimap_insert(&mut pieces, 'P', 3);
        let ghost m3 = m2.insert('P', 3u8);
        proof { lemma_insert_fresh(m3, 'k', 4); }
        bimap_insert(&mut pieces, 'k', 4);
        let ghost m4 = m3.insert('k', 4u8);
        proof { lemma_insert_fresh(m4, 'K', 5); }
        bimap_insert(&mut pieces, 'K', 5);
        let ghost m5 = m4.insert('K', 5u8);
        proof { lemma_insert_fresh(m5, 'n', 6); }
        bimap_insert(&mut pieces, 'n', 6);
        let ghost m6 = m5.insert('n', 6u8);
        proof { lemma_insert_fresh(m6, 'N', 7); }
        bimap_insert(&mut pieces, 'N', 7);
        let ghost m7 = m6.insert('N', 7u8);
        proof { lemma_insert_fresh(m7, 'b', 8); }
        bimap_insert(&mut pieces, 'b', 8);
        let ghost m8 = m7.insert('b', 8u8);
        proof { lemma_insert_fresh(m8, 'B', 9); }
        bimap_insert(&mut pieces, 'B', 9);
        let ghost m9 = m8.insert('B', 9u8);
        proof { lemma_insert_fresh(m9, 'r', 10); }
        bimap_insert(&mut pieces, 'r', 10);
        let ghost m10 = m9.insert('r', 10u8);
        proof { lemma_insert_fresh(m10, 'R', 11); }
        bimap_insert(&mut pieces, 'R', 11);
        let ghost m11 = m10.insert('R', 11u8);
        proof { lemma_insert_fresh(m11, 'q', 12); }
        bimap_insert(&mut pieces, 'q', 12);
        let ghost m12 = m11.insert('q', 12u8);
        proof { lemma_insert_fresh(m12, 'Q', 13); }
        bimap_insert(&mut pieces, 'Q', 13);
        assert(bimap_pairs(pieces) =~= piece_table());

        proof { lemma_insert_fresh(e, 'q', 16); }
        bimap_insert(&mut castles, 'q', 16);
        let ghost c1 = e.insert('q', 16u8);
        proof { lemma_insert_fresh(c1, 'k', 32); }
        bimap_insert(&mut castles, 'k', 32);
        let ghost c2 = c1.insert('k', 32u8);
        proof { lemma_insert_fresh(c2, 'Q', 64); }
        bimap_insert(&mut castles, 'Q', 64);
        let ghost c3 = c2.insert('Q', 64u8);
        proof { lemma_insert_fresh(c3, 'K', 128); }
        bimap_insert(&mut castles, 'K', 128);
        assert(bimap_pairs(castles) =~= castle_table());

        proof { lemma_insert_fresh(e, 'b', 0); }
        bimap_insert(&mut promotions, 'b', 0);
        let ghost pm1 = e.insert('b', 0u8);
        proof { lemma_insert_fresh(pm1, 'r', 1); }
        bimap_insert(&mut promotions, 'r', 1);
        let ghost pm2 = pm1.insert('r', 1u8);
        proof { lemma_insert_fresh(pm2, 'n', 2); }
        bimap_insert(&mut promotions, 'n', 2);
        let ghost pm3 = pm2.insert('n', 2u8);
        proof { lemma_insert_fresh(pm3, 'q', 3); }
        bimap_insert(&mut promotions, 'q', 3);
        assert(bimap_pairs(promotions) =~= promotion_table());

        Bimaps {
            pieces,
            castles,
            promotions,
            shift_piece: 2,
            shift_promotion: 1,
            mask_piece: 14,
            mask_promotion: 3,
            bit_check: 64,
            bit_double_check: 128,
        }
    }

    /// The code of a piece letter.
    pub fn piece_code(&self, c: char) -> (r: Option<u8>)
        requires
            self.wf(),
        ensures
            r == (if piece_table().dom().contains(c) {
                Some(piece_table()[c])
            } else {
                None::<u8>
            }),
    {
        bimap_get_by_left(&self.pieces, c)
    }

    /// The letter of a piece code.
    pub fn piece_letter(&self, v: u8) -> (r: Option<char>)
        requires
            self.wf(),
        ensures
            match r {
                Some(c) => piece_table().dom().contains(c) && piece_table()[c] == v,
                None => forall|c: char| #[trigger]
                    piece_table().dom().contains(c) ==> piece_table()[c] != v,
            },
    {
        bimap_get_by_right(&self.pieces, v)
    }

    /// The rights bit of a castling letter.
    pub fn castle_bit(&self, c: char) -> (r: Option<u8>)
        requires
            self.wf(),
        ensures
            r == (if castle_table().dom().contains(c) {
                Some(castle_table()[c])
            } else {
                None::<u8>
            }),
    {
        bimap_get_by_left(&self.castles, c)
    }

    /// The castling letter of a rights bit.
    pub fn castle_letter(&self, v: u8) -> (r: Option<char>)
        requires
            self.wf(),
        ensures
            match r {
                Some(c) => castle_table().dom().contains(c) && castle_table()[c] == v,
                None => forall|c: char| #[trigger]
                    castle_table().dom().contains(c) ==> castle_table()[c] != v,
            },
    {
        bimap_get_by_right(&self.castles, v)
    }

    /// The 2-bit code of a promotion letter.
    pub fn promotion_code(&self, c: char) -> (r: Option<u8>)
        requires
            self.wf(),
        ensures
            r == (if promotion_table().dom().contains(c) {
                Some(promotion_table()[c])
            } else {
                None::<u8>
            }),
    {
        bimap_get_by_left(&self.promotions, c)
    }

    /// The promotion letter of a 2-bit code.
    pub fn promotion_letter(&self, v: u8) -> (r: Option<char>)
        requires
            self.wf(),
        ensures
            match r {
                Some(c) => promotion_table().dom().contains(c) && promotion_table()[c] == v,
                None => forall|c: char| #[trigger]
                    promotion_table().dom().contains(c) ==> promotion_table()[c] != v,
            },
    {
        bimap_get_by_right(&self.promotions, v)
    }
}

} // verus!
