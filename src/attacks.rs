use vstd::prelude::*;

use crate::bits::{in_mask, lemma_bits, lemma_empty_full, lemma_no_bits_zero, lemma_nonzero_has_bit};
use crate::geometry::{
    between, is_diagonal, is_king_step, is_knight_jump, is_pawn_attack, is_straight,
};
use crate::piece::{color_index, opposite, Piece, PieceColor, PieceGroup};
use crate::rules::{
    attacked_below, checker, clear, disjoint, empty, king_of, lemma_attacked_below, lemma_occupant,
    occupant, piece_on, threatens,
};
use crate::bitboards::Bitboards;

verus! {

impl Bitboards {
    /// Computes, for each side, every square that one of its pieces threatens,
    /// and records which pieces threaten the opposing king.
    pub fn get_all_attacks(&mut self) -> (r: [u64; 2])
        requires
            old(self).wf(),
        ensures
            final(self).all_pieces == old(self).all_pieces,
            final(self).en_passant == old(self).en_passant,
            final(self).wf(),
            final(self).caches_current(),
            r == final(self).attacks,
    {
        proof {
            lemma_empty_full();
        }
        let occupied = self.get_all_pieces_on_one_bitboard();
        let mut white_attacks: u64 = 0;
        let mut black_attacks: u64 = 0;
        let mut white_checkers: u64 = 0;
        let mut black_checkers: u64 = 0;
        let mut origin: u8 = 0;
        while origin < 64
            invariant
                origin <= 64,
                self.wf(),
                forall|s: int| #[trigger] in_mask(occupied, s) <==> !empty(self.pieces(), s),
                forall|s: int|
                    #[trigger] in_mask(white_attacks, s) <==> attacked_below(
                        self.pieces(),
                        PieceColor::White,
                        s,
                        origin as int,
                    ),
                forall|s: int|
                    #[trigger] in_mask(black_attacks, s) <==> attacked_below(
                        self.pieces(),
                        PieceColor::Black,
                        s,
                        origin as int,
                    ),
                forall|s: int|
                    #[trigger] in_mask(white_checkers, s) <==> (s < origin && checker(
                        self.pieces(),
                        PieceColor::White,
                        s,
                    )),
                forall|s: int|
                    #[trigger] in_mask(black_checkers, s) <==> (s < origin && checker(
                        self.pieces(),
                        PieceColor::Black,
                        s,
                    )),
            decreases 64 - origin,
        {
            proof {
                lemma_attacked_below(self.pieces(), PieceColor::White, origin as int);
                lemma_attacked_below(self.pieces(), PieceColor::Black, origin as int);
            }
            match self.get_occupant(origin) {
                Some(occupant) => {
                    let threatened = self.get_attacks(origin, occupant, occupied);
                    let gives_check = self.attacks_enemy_king(origin, occupant, threatened);
                    let bit = Self::convert_to_bit(origin);
                    proof {
                        lemma_bits(white_attacks, threatened);
                        lemma_bits(black_attacks, threatened);
                        lemma_bits(white_checkers, bit);
                        lemma_bits(black_checkers, bit);
                    }
                    match occupant.color {
                        PieceColor::White => {
                            white_attacks = white_attacks | threatened;
                            if gives_check {
                                white_checkers = white_checkers | bit;
                            }
                        },
                        PieceColor::Black => {
                            black_attacks = black_attacks | threatened;
                            if gives_check {
                                black_checkers = black_checkers | bit;
                            }
                        },
                    }
                },
                None => {},
            }
            proof {
                assert forall|c: PieceColor| !#[trigger] checker(self.pieces(), c,
                    origin as int) || occupant(self.pieces(), origin as int) is Some by {
                    if checker(self.pieces(), c, origin as int) {
                        let (p, k) = choose|p: Piece, k: int|
                            #[trigger] piece_on(self.pieces(), origin as int, p) && p.color == c
                                && #[trigger] piece_on(self.pieces(), k, king_of(opposite(c)))
                                && threatens(self.pieces(), origin as int, p, k);
                    }
                }
            }
            origin += 1;
        }
        proof {
            lemma_attacked_below(self.pieces(), PieceColor::White, 64);
            lemma_attacked_below(self.pieces(), PieceColor::Black, 64);
        }
        self.attacks = [white_attacks, black_attacks];
        self.checking_pieces = [white_checkers, black_checkers];
        assert forall|c: PieceColor, s: int|
            #[trigger] in_mask(self.checking_pieces@[color_index(c)], s) <==> checker(
                self.pieces(),
                c,
                s,
            ) by {
            if checker(self.pieces(), c, s) {
                let (p, k) = choose|p: Piece, k: int|
                    #[trigger] piece_on(self.pieces(), s, p) && p.color == c && #[trigger] piece_on(
                        self.pieces(),
                        k,
                        king_of(opposite(c)),
                    ) && threatens(self.pieces(), s, p, k);
                let j = choose|j: int| 0 <= j < 12 && #[trigger] in_mask(self.pieces()[j], s);
            }
        }
        self.attacks
    }

    /// Squares that `piece` on `origin` threatens, given the occupied squares.
    pub(crate) fn get_attacks(&self, origin: u8, piece: Piece, occupied: u64) -> (r: u64)
        requires
            disjoint(self.pieces()),
            origin < 64,
            forall|s: int| #[trigger] in_mask(occupied, s) <==> !empty(self.pieces(), s),
        ensures
            forall|d: int| #[trigger] in_mask(r, d) <==> threatens(self.pieces(), origin as int,
                piece, d),
    {
        proof {
            lemma_empty_full();
        }
        let mut r: u64 = 0;
        let mut d: u8 = 0;
        while d < 64
            invariant
                d <= 64,
                disjoint(self.pieces()),
                origin < 64,
                forall|s: int| #[trigger] in_mask(occupied, s) <==> !empty(self.pieces(), s),
                forall|t: int|
                    #[trigger] in_mask(r, t) <==> (t < d && threatens(
                        self.pieces(),
                        origin as int,
                        piece,
                        t,
                    )),
            decreases 64 - d,
        {
            if self.is_valid_attack(origin, piece, d, occupied) {
                let bit = Self::convert_to_bit(d);
                proof {
                    lemma_bits(r, bit);
                }
                r = r | bit;
            }
            d += 1;
        }
        r
    }

    /// `piece` on `origin` threatens `destination`.
    fn is_valid_attack(&self, origin: u8, piece: Piece, destination: u8, occupied: u64) -> (r:
        bool)
        requires
            disjoint(self.pieces()),
            origin < 64,
            destination < 64,
            forall|s: int| #[trigger] in_mask(occupied, s) <==> !empty(self.pieces(), s),
        ensures
            r == threatens(self.pieces(), origin as int, piece, destination as int),
    {
        match piece.group {
            PieceGroup::Pawn => is_pawn_attack(piece.color, origin, destination),
            PieceGroup::Knight => is_knight_jump(origin, destination),
            PieceGroup::King => is_king_step(origin, destination),
            PieceGroup::Bishop => is_diagonal(origin, destination) && self.is_path_clear(origin,
                destination,
                occupied,
            ),
            PieceGroup::Rook => is_straight(origin, destination) && self.is_path_clear(origin,
                destination,
                occupied,
            ),
            PieceGroup::Queen => (is_diagonal(origin, destination) || is_straight(
                origin,
                destination,
            )) && self.is_path_clear(origin, destination, occupied),
        }
    }

    /// No piece stands strictly between `origin` and `destination`.
    fn is_path_clear(&self, origin: u8, destination: u8, occupied: u64) -> (r: bool)
        requires
            origin < 64,
            destination < 64,
            forall|s: int| #[trigger] in_mask(occupied, s) <==> !empty(self.pieces(), s),
        ensures
            r == clear(self.pieces(), origin as int, destination as int),
    {
        let ray = Self::get_ray_bitboard(origin, destination);
        let blockers = ray & occupied;
        proof {
            lemma_bits(ray, occupied);
            lemma_empty_full();
            if forall|t: int| !#[trigger] in_mask(blockers, t) {
                lemma_no_bits_zero(blockers);
            }
            if !clear(self.pieces(), origin as int, destination as int) {
                let t = choose|t: int|
                    #[trigger] between(origin as int, destination as int, t) && !empty(
                        self.pieces(),
                        t,
                    );
                assert(in_mask(blockers, t));
            }
        }
        blockers == 0
    }

    /// The piece on `origin`, threatening the squares in `threatened`, threatens
    /// the opposing king.
    fn attacks_enemy_king(&self, origin: u8, piece: Piece, threatened: u64) -> (r: bool)
        requires
            disjoint(self.pieces()),
            origin < 64,
            piece_on(self.pieces(), origin as int, piece),
            forall|d: int| #[trigger] in_mask(threatened, d) <==> threatens(self.pieces(),
                origin as int, piece, d),
        ensures
            r == checker(self.pieces(), piece.color, origin as int),
    {
        let kings = self.all_pieces[Piece::to_piece_index(
            Piece::get_opposite_color(piece.color),
            PieceGroup::King,
        )];
        let hits = threatened & kings;
        proof {
            lemma_occupant(self.pieces());
            lemma_bits(threatened, kings);
            lemma_empty_full();
            if forall|t: int| !#[trigger] in_mask(hits, t) {
                lemma_no_bits_zero(hits);
            }
            if checker(self.pieces(), piece.color, origin as int) {
                let (p, k) = choose|p: Piece, k: int|
                    #[trigger] piece_on(self.pieces(), origin as int, p) && p.color == piece.color
                        && #[trigger] piece_on(self.pieces(), k, king_of(opposite(piece.color)))
                        && threatens(self.pieces(), origin as int, p, k);
                assert(in_mask(hits, k));
            }
            if hits != 0 {
                lemma_nonzero_has_bit(hits);
                let k = choose|k: int| in_mask(hits, k);
                assert(piece_on(self.pieces(), k, king_of(opposite(piece.color))));
            }
        }
        hits != 0
    }
}

} // verus!
