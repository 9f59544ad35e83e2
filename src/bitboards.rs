use vstd::prelude::*;

use crate::bits::{in_mask, lemma_bits, lemma_empty_full, lemma_single, lemma_test_bit};
use crate::board::{mirrors, Board};
use crate::geometry::{between, is_between, is_square};
use crate::opening::{get_initial_bitboards, initial_occupant};
use crate::piece::{color_index, lemma_index_bijection, piece_index, Piece, PieceColor, PieceGroup};
use crate::rules::{
    attacked_by, checker, color_on, disjoint, empty, king_of, lemma_occupant, lemma_represents,
    occupant, piece_on,
};

verus! {

/// The move engine: one occupancy mask per piece identity, the squares each
/// side threatens, the pieces of each side that give check, and the
/// en-passant target.
pub struct Bitboards {
    /// Indexed by `Piece::to_index`: white pawn, rook, knight, bishop, queen,
    /// king, then the same for black.
    pub all_pieces: [u64; 12],
    /// Indexed by `Piece::color_to_index`.
    pub attacks: [u64; 2],
    /// Indexed by `Piece::color_to_index`.
    pub checking_pieces: [u64; 2],
    pub en_passant: u64,
}

/// Why a move was refused.
#[derive(Clone, Copy, Debug, PartialEq, Eq, Structural)]
pub enum MoveError {
    /// The origin or the destination is not one of the 64 squares.
    OutOfRange,
    /// The board array does not show what the occupancy masks hold.
    MirrorMismatch,
    /// No piece stands on the origin.
    EmptyOrigin,
    /// The piece on the origin may not move to the destination.
    IllegalMove,
    /// The move is not a pawn reaching the last rank, or the chosen kind is
    /// not a knight, bishop, rook or queen.
    InvalidPromotion,
}

/// A mask marks at most one square.
pub open spec fn at_most_one(m: u64) -> bool {
    forall|s: int, t: int| #[trigger] in_mask(m, s) && #[trigger] in_mask(m, t) ==> s == t
}

/// Each side has at most one king.
pub open spec fn single_kings(pcs: Seq<u64>) -> bool {
    forall|c: PieceColor, a: int, b: int|
        #[trigger] piece_on(pcs, a, king_of(c)) && #[trigger] piece_on(pcs, b, king_of(c)) ==> a
            == b
}

impl Bitboards {
    /// The masks describe a position: no square is claimed twice, each side
    /// has at most one king, and at most one en-passant target is marked.
    pub open spec fn wf(&self) -> bool {
        &&& disjoint(self.all_pieces@)
        &&& single_kings(self.all_pieces@)
        &&& at_most_one(self.en_passant)
    }

    /// The twelve occupancy masks as a sequence.
    pub open spec fn pieces(&self) -> Seq<u64> {
        self.all_pieces@
    }

    /// The attack and checking-piece masks match the position.
    pub open spec fn caches_current(&self) -> bool {
        &&& forall|c: PieceColor, s: int|
            #[trigger] in_mask(self.attacks@[color_index(c)], s) <==> attacked_by(
                self.pieces(),
                c,
                s,
            )
        &&& forall|c: PieceColor, s: int|
            #[trigger] in_mask(self.checking_pieces@[color_index(c)], s) <==> checker(
                self.pieces(),
                c,
                s,
            )
    }

    /// The opening position: no en-passant target, nothing threatened or
    /// checking until the first attack pass.
    pub fn new() -> (r: Self)
        ensures
            r.wf(),
            forall|s: int| is_square(s) ==> #[trigger] occupant(r.pieces(),
                s) == initial_occupant(s),
            r.attacks@ == seq![0u64, 0u64],
            r.checking_pieces@ == seq![0u64, 0u64],
            r.en_passant == 0,
    {
        let all_pieces = get_initial_bitboards();
        proof {
            lemma_represents(all_pieces@, |s: int| initial_occupant(s));
            lemma_occupant(all_pieces@);
            lemma_empty_full();
            assert forall|c: PieceColor, a: int, b: int|
                #[trigger] piece_on(all_pieces@, a, king_of(c)) && #[trigger] piece_on(all_pieces@,
                    b, king_of(c)) implies a == b by {
                let j = choose|j: int| 0 <= j < 12 && #[trigger] in_mask(all_pieces@[j], a);
                let i = choose|i: int| 0 <= i < 12 && #[trigger] in_mask(all_pieces@[i], b);
                assert(initial_occupant(a) == Some(king_of(c)));
                assert(initial_occupant(b) == Some(king_of(c)));
            }
        }
        let r = Self { all_pieces, attacks: [0, 0], checking_pieces: [0, 0], en_passant: 0 };
        assert(r.attacks@ =~= seq![0u64, 0u64]);
        assert(r.checking_pieces@ =~= seq![0u64, 0u64]);
        r
    }

    /// A position given by its twelve occupancy masks; none when a square is
    /// claimed twice or a side has two kings.
    pub fn from_pieces(all_pieces: [u64; 12]) -> (r: Option<Self>)
        ensures
            r is Some <==> disjoint(all_pieces@) && single_kings(all_pieces@),
            r is Some ==> r->0.wf() && r->0.all_pieces == all_pieces && r->0.en_passant == 0
                && r->0.attacks@ == seq![0u64, 0u64] && r->0.checking_pieces@ == seq![0u64, 0u64],
    {
        proof {
            lemma_empty_full();
        }
        let mut s: u8 = 0;
        while s < 64
            invariant
                s <= 64,
                forall|i: int, j: int, t: int|
                    0 <= i < 12 && 0 <= j < 12 && i != j && t < s
                        && #[trigger] in_mask(all_pieces@[i], t)
                        ==> !#[trigger] in_mask(all_pieces@[j], t),
            decreases 64 - s,
        {
            let mut found: bool = false;
            let mut k: usize = 0;
            while k < 12
                invariant
                    k <= 12,
                    s < 64,
                    found <==> exists|i: int| 0 <= i < k && #[trigger] in_mask(all_pieces@[i],
                        s as int),
                    forall|i: int, j: int|
                        0 <= i < k && 0 <= j < k && i != j && #[trigger] in_mask(all_pieces@[i],
                            s as int) ==> !#[trigger] in_mask(all_pieces@[j], s as int),
                decreases 12 - k,
            {
                if Self::is_square_occupied_by_bitboard(s, all_pieces[k]) {
                    if found {
                        proof {
                            let i = choose|i: int| 0 <= i < k && #[trigger] in_mask(all_pieces@[i],
                                s as int);
                            assert(!disjoint(all_pieces@));
                        }
                        return None;
                    }
                    found = true;
                }
                k += 1;
            }
            s += 1;
        }
        assert(disjoint(all_pieces@));
        proof {
            lemma_occupant(all_pieces@);
        }
        let white_kings = all_pieces[Piece::to_piece_index(PieceColor::White, PieceGroup::King)];
        let black_kings = all_pieces[Piece::to_piece_index(PieceColor::Black, PieceGroup::King)];
        if !Self::has_at_most_one(white_kings) || !Self::has_at_most_one(black_kings) {
            proof {
                if !at_most_one(white_kings) {
                    let (a, b) = choose|a: int, b: int| #[trigger] in_mask(white_kings, a)
                        && #[trigger] in_mask(white_kings, b) && a != b;
                    assert(piece_on(all_pieces@, a, king_of(PieceColor::White)));
                    assert(piece_on(all_pieces@, b, king_of(PieceColor::White)));
                } else {
                    let (a, b) = choose|a: int, b: int| #[trigger] in_mask(black_kings, a)
                        && #[trigger] in_mask(black_kings, b) && a != b;
                    assert(piece_on(all_pieces@, a, king_of(PieceColor::Black)));
                    assert(piece_on(all_pieces@, b, king_of(PieceColor::Black)));
                }
            }
            return None;
        }
        proof {
            assert forall|c: PieceColor, a: int, b: int|
                #[trigger] piece_on(all_pieces@, a, king_of(c)) && #[trigger] piece_on(all_pieces@,
                    b, king_of(c)) implies a == b by {
                match c {
                    PieceColor::White => {
                        assert(in_mask(white_kings, a));
                        assert(in_mask(white_kings, b));
                    },
                    PieceColor::Black => {
                        assert(in_mask(black_kings, a));
                        assert(in_mask(black_kings, b));
                    },
                }
            }
        }
        let r = Self { all_pieces, attacks: [0, 0], checking_pieces: [0, 0], en_passant: 0 };
        assert(r.attacks@ =~= seq![0u64, 0u64]);
        assert(r.checking_pieces@ =~= seq![0u64, 0u64]);
        Some(r)
    }

    /// The mask marks at most one square.
    fn has_at_most_one(mask: u64) -> (r: bool)
        ensures
            r == at_most_one(mask),
    {
        let mut found: Option<u8> = None;
        let mut s: u8 = 0;
        while s < 64
            invariant
                s <= 64,
                found is None ==> forall|t: int| t < s ==> !#[trigger] in_mask(mask, t),
                found is Some ==> found->0 < s && in_mask(mask, found->0 as int)
                    && forall|t: int| t < s && #[trigger] in_mask(mask, t) ==> t == found->0,
            decreases 64 - s,
        {
            if Self::is_square_occupied_by_bitboard(s, mask) {
                if found.is_some() {
                    return false;
                }
                found = Some(s);
            }
            s += 1;
        }
        true
    }

    /// The board array shows what the occupancy masks hold.
    pub fn is_mirrored_by(&self, board: &Board) -> (r: bool)
        requires
            disjoint(self.pieces()),
        ensures
            r == mirrors(board.squares@, self.pieces()),
    {
        if board.squares.len() != 64 {
            return false;
        }
        let mut s: u8 = 0;
        while s < 64
            invariant
                s <= 64,
                disjoint(self.pieces()),
                board.squares@.len() == 64,
                forall|t: int| 0 <= t < s
                    ==> #[trigger] board.squares@[t] == occupant(self.pieces(), t),
            decreases 64 - s,
        {
            let shown = board.squares[s as usize];
            let held = self.get_occupant(s);
            let same = match (shown, held) {
                (Some(a), Some(b)) => a.group == b.group && a.color == b.color,
                (None, None) => true,
                _ => false,
            };
            if !same {
                return false;
            }
            s += 1;
        }
        true
    }

    pub fn convert_to_bit(num: u8) -> (r: u64)
        requires
            num < 64,
        ensures
            r == 1u64 << num,
            forall|s: int| #[trigger] in_mask(r, s) <==> s == num as int,
    {
        proof {
            lemma_single(num as u64);
        }
        1u64 << num
    }

    /// `square` is marked in `bitboard`.
    pub fn is_square_occupied_by_bitboard(square: u8, bitboard: u64) -> (r: bool)
        requires
            square < 64,
        ensures
            r == in_mask(bitboard, square as int),
    {
        proof {
            lemma_test_bit(bitboard, square as u64);
        }
        bitboard & Self::convert_to_bit(square) != 0
    }

    /// The piece on `square`.
    pub fn get_occupant(&self, square: u8) -> (r: Option<Piece>)
        requires
            disjoint(self.pieces()),
            square < 64,
        ensures
            r == occupant(self.pieces(), square as int),
    {
        proof {
            lemma_occupant(self.pieces());
        }
        let mut k: usize = 0;
        while k < 12
            invariant
                k <= 12,
                disjoint(self.pieces()),
                square < 64,
                forall|j: int| 0 <= j < k ==> !#[trigger] in_mask(self.pieces()[j], square as int),
            decreases 12 - k,
        {
            if Self::is_square_occupied_by_bitboard(square, self.all_pieces[k]) {
                return Piece::from_index(k);
            }
            k += 1;
        }
        None
    }

    /// Every occupied square.
    pub(crate) fn get_all_pieces_on_one_bitboard(&self) -> (r: u64)
        requires
            disjoint(self.pieces()),
        ensures
            forall|s: int| #[trigger] in_mask(r, s) <==> !empty(self.pieces(), s),
    {
        proof {
            lemma_empty_full();
        }
        let mut r: u64 = 0;
        let mut k: usize = 0;
        while k < 12
            invariant
                k <= 12,
                forall|s: int|
                    #[trigger] in_mask(r, s) <==> exists|j: int|
                        0 <= j < k && #[trigger] in_mask(self.pieces()[j], s),
            decreases 12 - k,
        {
            let ghost prev = r;
            proof {
                lemma_bits(r, self.all_pieces[k as int]);
            }
            r = r | self.all_pieces[k];
            assert forall|s: int| #[trigger] in_mask(r, s) <==> exists|j: int|
                0 <= j < k + 1 && #[trigger] in_mask(self.pieces()[j], s) by {
                if in_mask(self.pieces()[k as int], s) {
                    assert(in_mask(self.pieces()[k as int], s));
                } else if in_mask(r, s) {
                    assert(in_mask(prev, s));
                }
            }
            k += 1;
        }
        r
    }

    /// Every square that holds a piece of `color`.
    pub(crate) fn get_same_color_pieces_on_one_bitboard(&self, color: PieceColor) -> (r: u64)
        requires
            disjoint(self.pieces()),
        ensures
            forall|s: int| #[trigger] in_mask(r, s) <==> color_on(self.pieces(), s, color),
    {
        proof {
            lemma_empty_full();
            lemma_occupant(self.pieces());
            lemma_index_bijection();
        }
        let start: usize = Piece::color_to_index(color) * 6;
        let mut r: u64 = 0;
        let mut k: usize = start;
        while k < start + 6
            invariant
                start == 6 * color_index(color),
                start <= k <= start + 6,
                forall|s: int|
                    #[trigger] in_mask(r, s) <==> exists|j: int|
                        start <= j < k && #[trigger] in_mask(self.pieces()[j], s),
            decreases start + 6 - k,
        {
            let ghost prev = r;
            proof {
                lemma_bits(r, self.all_pieces[k as int]);
            }
            r = r | self.all_pieces[k];
            assert forall|s: int| #[trigger] in_mask(r, s) <==> exists|j: int|
                start <= j < k + 1 && #[trigger] in_mask(self.pieces()[j], s) by {
                if in_mask(self.pieces()[k as int], s) {
                    assert(in_mask(self.pieces()[k as int], s));
                } else if in_mask(r, s) {
                    assert(in_mask(prev, s));
                }
            }
            k += 1;
        }
        assert forall|s: int| #[trigger] in_mask(r, s) <==> color_on(self.pieces(), s, color) by {
            if color_on(self.pieces(), s, color) {
                let p = occupant(self.pieces(), s)->0;
                assert(piece_on(self.pieces(), s, p));
                assert(in_mask(self.pieces()[piece_index(p)], s));
            }
        }
        r
    }

    pub(crate) fn is_square_occupied_by_color(&self, square: u8,
        piece_color: PieceColor) -> (r: bool)
        requires
            disjoint(self.pieces()),
            square < 64,
        ensures
            r == color_on(self.pieces(), square as int, piece_color),
    {
        match self.get_occupant(square) {
            Some(occupant) => occupant.color == piece_color,
            None => false,
        }
    }

    /// The square of the king of `color`, if it has one.
    pub(crate) fn find_king(&self, color: PieceColor) -> (r: Option<u8>)
        requires
            disjoint(self.pieces()),
        ensures
            r is Some ==> r->0 < 64 && piece_on(self.pieces(), r->0 as int, king_of(color)),
            r is None ==> forall|k: int| !#[trigger] piece_on(self.pieces(), k, king_of(color)),
    {
        proof {
            lemma_occupant(self.pieces());
        }
        let kings = self.all_pieces[Piece::to_piece_index(color, PieceGroup::King)];
        let mut s: u8 = 0;
        while s < 64
            invariant
                s <= 64,
                disjoint(self.pieces()),
                kings == self.pieces()[piece_index(king_of(color))],
                forall|k: int| 0 <= k < s ==> !#[trigger] in_mask(kings, k),
            decreases 64 - s,
        {
            if Self::is_square_occupied_by_bitboard(s, kings) {
                proof {
                    lemma_occupant(self.pieces());
                }
                assert(piece_on(self.pieces(), s as int, king_of(color)));
                return Some(s);
            }
            s += 1;
        }
        None
    }

    /// The squares strictly between `origin` and `destination` on the rank,
    /// file or diagonal they share; empty when they share none.
    pub(crate) fn get_ray_bitboard(origin: u8, destination: u8) -> (r: u64)
        requires
            origin < 64,
            destination < 64,
        ensures
            forall|t: int| #[trigger] in_mask(r, t) <==> between(origin as int, destination as int,
                t),
    {
        proof {
            lemma_empty_full();
        }
        let mut r: u64 = 0;
        let mut t: u8 = 0;
        while t < 64
            invariant
                t <= 64,
                origin < 64,
                destination < 64,
                forall|u: int|
                    #[trigger] in_mask(r, u) <==> (u < t && between(
                        origin as int,
                        destination as int,
                        u,
                    )),
            decreases 64 - t,
        {
            if is_between(origin, destination, t) {
                let bit = Self::convert_to_bit(t);
                proof {
                    lemma_bits(r, bit);
                }
                r = r | bit;
            }
            t += 1;
        }
        r
    }

    /// The union of the rays from each square marked in `origins` to `destination`.
    pub(crate) fn get_rays_from_bitboards(origins: u64, destination: u8) -> (r: u64)
        requires
            destination < 64,
        ensures
            forall|t: int| #[trigger] in_mask(r, t) <==> exists|q: int|
                #[trigger] in_mask(origins, q) && between(q, destination as int, t),
    {
        proof {
            lemma_empty_full();
        }
        let mut r: u64 = 0;
        let mut q: u8 = 0;
        while q < 64
            invariant
                q <= 64,
                destination < 64,
                forall|t: int| #[trigger] in_mask(r, t) <==> exists|q2: int|
                    q2 < q && #[trigger] in_mask(origins, q2) && between(q2, destination as int, t),
            decreases 64 - q,
        {
            if Self::is_square_occupied_by_bitboard(q, origins) {
                let ray = Self::get_ray_bitboard(q, destination);
                proof {
                    lemma_bits(r, ray);
                }
                r = r | ray;
            }
            q += 1;
        }
        r
    }
}

} // verus!
