use vstd::prelude::*;

use crate::bits::{in_mask, lemma_bits, lemma_empty_full, lemma_no_bits_zero, lemma_nonzero_has_bit};
use crate::geometry::{between, is_pawn_attack, is_pawn_double, is_pawn_push, is_square};
use crate::piece::{opposite, Piece, PieceColor, PieceGroup};
use crate::rules::{
    answers_check, attacked_by, check_ok, checker, color_on, disjoint, empty, enemy_slider,
    in_check, king_of, legal, legal_for, lemma_occupant, occupant, piece_on, pin_ok, reaches,
    sole_blocker,
};
use crate::bitboards::Bitboards;

verus! {

impl Bitboards {
    /// For each of the 64 origins, the squares to which a piece of `color`
    /// standing there may legally move; zero where no piece of `color` stands.
    pub fn get_all_legal_moves(&mut self, color: PieceColor) -> (r: Vec<u64>)
        requires
            old(self).wf(),
        ensures
            final(self).all_pieces == old(self).all_pieces,
            final(self).en_passant == old(self).en_passant,
            final(self).wf(),
            final(self).caches_current(),
            r@.len() == 64,
            forall|o: int, d: int|
                0 <= o < 64 ==> (#[trigger] in_mask(r@[o], d) <==> legal(
                    old(self).pieces(),
                    old(self).en_passant,
                    color,
                    o,
                    d,
                )),
    {
        self.attacks = self.get_all_attacks();
        let mut all_legal_moves: Vec<u64> = Vec::new();
        let mut origin: u8 = 0;
        while origin < 64
            invariant
                origin <= 64,
                self.wf(),
                self.caches_current(),
                self.all_pieces == old(self).all_pieces,
                self.en_passant == old(self).en_passant,
                all_legal_moves@.len() == origin,
                forall|o: int, d: int|
                    0 <= o < origin ==> (#[trigger] in_mask(all_legal_moves@[o], d) <==> legal(
                        self.pieces(),
                        self.en_passant,
                        color,
                        o,
                        d,
                    )),
            decreases 64 - origin,
        {
            let moves = self.get_legal_moves(origin, color);
            all_legal_moves.push(moves);
            origin += 1;
        }
        all_legal_moves
    }

    /// The squares to which a piece of `color` on `origin` may legally move.
    pub(crate) fn get_legal_moves(&self, origin: u8, color: PieceColor) -> (r: u64)
        requires
            self.wf(),
            self.caches_current(),
            origin < 64,
        ensures
            forall|d: int| #[trigger] in_mask(r, d) <==> legal(
                self.pieces(),
                self.en_passant,
                color,
                origin as int,
                d,
            ),
    {
        proof {
            lemma_empty_full();
        }
        match self.get_occupant(origin) {
            Some(piece) => {
                if piece.color != color {
                    return 0;
                }
                let occupied = self.get_all_pieces_on_one_bitboard();
                // A pawn moves unlike it threatens; every other kind may move
                // to the squares it threatens, before its side's safety is
                // considered.
                let candidates = match piece.group {
                    PieceGroup::Pawn => self.get_pawn_moves(origin, piece, occupied),
                    _ => self.get_attacks(origin, piece, occupied),
                };
                self.create_legal_moves_bitboard(piece, candidates, origin)
            },
            None => 0,
        }
    }

    /// Keeps of `candidates` the squares to which `piece` on `origin` may
    /// legally move.
    fn create_legal_moves_bitboard(&self, piece: Piece, candidates: u64, origin: u8) -> (r: u64)
        requires
            self.wf(),
            self.caches_current(),
            origin < 64,
            piece_on(self.pieces(), origin as int, piece),
            forall|d: int| #[trigger] in_mask(candidates, d) <==> reaches(
                self.pieces(),
                self.en_passant,
                origin as int,
                piece,
                d,
            ),
        ensures
            forall|d: int| #[trigger] in_mask(r, d) <==> legal_for(
                self.pieces(),
                self.en_passant,
                origin as int,
                piece,
                d,
            ),
    {
        proof {
            lemma_empty_full();
        }
        let friendly = self.get_same_color_pieces_on_one_bitboard(piece.color);
        let pins = self.validate_pins(piece, origin);
        let checks = self.validate_checks(piece);
        let mut r: u64 = 0;
        let mut d: u8 = 0;
        while d < 64
            invariant
                d <= 64,
                self.wf(),
                self.caches_current(),
                origin < 64,
                forall|t: int| #[trigger] in_mask(candidates, t) <==> reaches(
                    self.pieces(),
                    self.en_passant,
                    origin as int,
                    piece,
                    t,
                ),
                forall|s: int| #[trigger] in_mask(friendly, s) <==> color_on(self.pieces(), s,
                    piece.color),
                forall|t: int| is_square(t) ==> (#[trigger] in_mask(pins, t)
                    <==> pin_ok(self.pieces(), piece.color, origin as int, t)),
                forall|t: int| is_square(t) ==> (#[trigger] in_mask(checks, t)
                    <==> check_ok(self.pieces(), piece, t)),
                forall|t: int|
                    #[trigger] in_mask(r, t) <==> (t < d && legal_for(
                        self.pieces(),
                        self.en_passant,
                        origin as int,
                        piece,
                        t,
                    )),
            decreases 64 - d,
        {
            if Self::is_square_occupied_by_bitboard(d, candidates) && self.is_valid_move(
                d,
                piece,
                friendly,
                pins,
                checks,
            ) {
                let bit = Self::convert_to_bit(d);
                proof {
                    lemma_bits(r, bit);
                }
                r = r | bit;
            }
            d += 1;
        }
        proof {
            assert forall|t: int| #[trigger] in_mask(r, t) <==> legal_for(
                self.pieces(),
                self.en_passant,
                origin as int,
                piece,
                t,
            ) by {
                if legal_for(self.pieces(), self.en_passant, origin as int, piece, t) {
                    assert(in_mask(candidates, t));
                }
            }
        }
        r
    }

    /// A piece may end its move on `destination` as far as the safety of its
    /// own side goes: not onto its own piece, not out of a pin, answering a
    /// check, and, for the king, not onto a threatened square.
    fn is_valid_move(&self, destination: u8, piece: Piece, friendly: u64, pins: u64,
        checks: u64) -> (r:
        bool)
        requires
            self.wf(),
            self.caches_current(),
            destination < 64,
        ensures
            r == (!in_mask(friendly, destination as int) && in_mask(pins, destination as int)
                && in_mask(checks, destination as int) && (piece.group == PieceGroup::King
                ==> !attacked_by(self.pieces(), opposite(piece.color), destination as int))),
    {
        if Self::is_square_occupied_by_bitboard(destination, friendly) {
            return false;
        }
        if !Self::is_square_occupied_by_bitboard(destination, pins) {
            return false;
        }
        if !Self::is_square_occupied_by_bitboard(destination, checks) {
            return false;
        }
        if piece.group == PieceGroup::King && self.is_square_defended(
            destination,
            Piece::get_opposite_color(piece.color),
        ) {
            return false;
        }
        true
    }

    /// Some piece of `defending_color` threatens `square`.
    fn is_square_defended(&self, square: u8, defending_color: PieceColor) -> (r: bool)
        requires
            self.caches_current(),
            square < 64,
        ensures
            r == attacked_by(self.pieces(), defending_color, square as int),
    {
        let defending_bitboard = self.attacks[Piece::color_to_index(defending_color)];
        Self::is_square_occupied_by_bitboard(square, defending_bitboard)
    }

    /// The king of `color` stands on a threatened square.
    fn is_checked(&self, color: PieceColor) -> (r: bool)
        requires
            self.wf(),
            self.caches_current(),
        ensures
            r == in_check(self.pieces(), color),
    {
        let kings = self.all_pieces[Piece::to_piece_index(color, PieceGroup::King)];
        let threatened = self.attacks[Piece::color_to_index(Piece::get_opposite_color(color))];
        let hits = kings & threatened;
        proof {
            lemma_occupant(self.pieces());
            lemma_bits(kings, threatened);
            lemma_empty_full();
            if forall|t: int| !#[trigger] in_mask(hits, t) {
                lemma_no_bits_zero(hits);
            }
            if in_check(self.pieces(), color) {
                let k = choose|k: int|
                    #[trigger] piece_on(self.pieces(), k, king_of(color)) && attacked_by(
                        self.pieces(),
                        opposite(color),
                        k,
                    );
                assert(in_mask(hits, k));
            }
            if hits != 0 {
                lemma_nonzero_has_bit(hits);
                let k = choose|k: int| in_mask(hits, k);
                assert(piece_on(self.pieces(), k, king_of(color)));
            }
        }
        hits != 0
    }

    /// Squares to which `piece` may move as far as checks go: all of them
    /// unless its side is in check and it is not the king; then the
    /// checking pieces and the squares between them and the king.
    fn validate_checks(&self, piece: Piece) -> (r: u64)
        requires
            self.wf(),
            self.caches_current(),
        ensures
            forall|d: int| is_square(d) ==> (#[trigger] in_mask(r, d) <==> check_ok(self.pieces(),
                piece, d)),
    {
        proof {
            lemma_empty_full();
        }
        if piece.group == PieceGroup::King || !self.is_checked(piece.color) {
            return !0u64;
        }
        let checkers = self.checking_pieces[Piece::color_to_index(
            Piece::get_opposite_color(piece.color),
        )];
        match self.find_king(piece.color) {
            Some(king) => {
                let rays = Self::get_rays_from_bitboards(checkers, king);
                proof {
                    lemma_bits(checkers, rays);
                    assert forall|d: int| is_square(d) implies (#[trigger] in_mask(checkers | rays,
                        d)
                        <==> answers_check(self.pieces(), piece.color, d)) by {
                        if answers_check(self.pieces(), piece.color, d) && !checker(self.pieces(),
                            opposite(piece.color), d) {
                            let (q, k) = choose|q: int, k: int|
                                #[trigger] checker(self.pieces(), opposite(piece.color), q)
                                    && #[trigger] piece_on(self.pieces(), k, king_of(piece.color))
                                    && between(q, k, d);
                            assert(k == king);
                            assert(in_mask(checkers, q));
                        }
                        if in_mask(rays, d) {
                            let q = choose|q: int| #[trigger] in_mask(checkers, q) && between(q,
                                king as int, d);
                            assert(checker(self.pieces(), opposite(piece.color), q));
                        }
                    }
                }
                checkers | rays
            },
            None => !0u64,
        }
    }

    /// An enemy bishop, rook or queen of a piece of `color` stands on `square`.
    fn is_enemy_slider(&self, square: u8, color: PieceColor) -> (r: bool)
        requires
            disjoint(self.pieces()),
            square < 64,
        ensures
            r == enemy_slider(self.pieces(), color, square as int),
    {
        match self.get_occupant(square) {
            Some(occupant) => occupant.color != color && match occupant.group {
                PieceGroup::Bishop | PieceGroup::Rook | PieceGroup::Queen => true,
                _ => false,
            },
            None => false,
        }
    }

    /// `origin` is the only occupied square strictly between `slider` and `king`.
    fn is_sole_blocker(slider: u8, king: u8, origin: u8, occupied: u64) -> (r: bool)
        requires
            slider < 64,
            king < 64,
            origin < 64,
        ensures
            r == (between(slider as int, king as int, origin as int) && forall|t: int|
                #[trigger] between(slider as int, king as int, t) && t != origin ==> !in_mask(
                    occupied,
                    t,
                )),
    {
        let ray = Self::get_ray_bitboard(slider, king);
        let origin_bit = Self::convert_to_bit(origin);
        let others = (ray & occupied) & !origin_bit;
        proof {
            lemma_bits(ray, occupied);
            lemma_bits(ray & occupied, origin_bit);
            lemma_empty_full();
            if forall|t: int| !#[trigger] in_mask(others, t) {
                lemma_no_bits_zero(others);
            }
            if exists|t: int| #[trigger] between(slider as int, king as int, t) && t != origin
                && in_mask(occupied, t) {
                let t = choose|t: int| #[trigger] between(slider as int, king as int, t)
                    && t != origin && in_mask(occupied, t);
                assert(in_mask(others, t));
            }
        }
        Self::is_square_occupied_by_bitboard(origin, ray) && others == 0
    }

    /// Squares to which `piece` on `origin` may move without leaving a pin:
    /// when it alone stands between its king and an enemy slider, the squares
    /// of that line, the slider's included.
    fn validate_pins(&self, piece: Piece, origin: u8) -> (r: u64)
        requires
            self.wf(),
            origin < 64,
        ensures
            forall|d: int| is_square(d) ==> (#[trigger] in_mask(r, d) <==> pin_ok(self.pieces(),
                piece.color, origin as int, d)),
    {
        proof {
            lemma_empty_full();
        }
        let mut allowed: u64 = !0u64;
        let king = match self.find_king(piece.color) {
            Some(king) => king,
            None => {
                return allowed;
            },
        };
        let occupied = self.get_all_pieces_on_one_bitboard();
        let mut q: u8 = 0;
        while q < 64
            invariant
                q <= 64,
                self.wf(),
                origin < 64,
                king < 64,
                piece_on(self.pieces(), king as int, king_of(piece.color)),
                forall|s: int| #[trigger] in_mask(occupied, s) <==> !empty(self.pieces(), s),
                forall|d: int| is_square(d) ==> (#[trigger] in_mask(allowed, d) <==> forall|q2: int|
                    q2 < q && enemy_slider(self.pieces(), piece.color, q2)
                        && #[trigger] sole_blocker(self.pieces(), q2, king as int, origin as int)
                        ==> between(q2, king as int, d) || d == q2 || d == king),
            decreases 64 - q,
        {
            if self.is_enemy_slider(q, piece.color) && Self::is_sole_blocker(q, king, origin,
                occupied) {
                let ray = Self::get_ray_bitboard(q, king);
                let slider_bit = Self::convert_to_bit(q);
                let king_bit = Self::convert_to_bit(king);
                let line = ray | slider_bit | king_bit;
                proof {
                    lemma_bits(ray, slider_bit);
                    lemma_bits(ray | slider_bit, king_bit);
                    lemma_bits(allowed, line);
                    assert(sole_blocker(self.pieces(), q as int, king as int, origin as int));
                }
                allowed = allowed & line;
            } else {
                proof {
                    if enemy_slider(self.pieces(), piece.color, q as int) {
                        assert(!sole_blocker(self.pieces(), q as int, king as int, origin as int));
                    }
                }
            }
            q += 1;
        }
        proof {
            assert forall|d: int| is_square(d) implies (#[trigger] in_mask(allowed, d)
                <==> pin_ok(self.pieces(), piece.color, origin as int, d)) by {
                if in_mask(allowed, d) {
                    assert forall|q2: int, k: int|
                        enemy_slider(self.pieces(), piece.color, q2)
                            && #[trigger] piece_on(self.pieces(), k, king_of(piece.color))
                            && #[trigger] sole_blocker(
                            self.pieces(),
                            q2,
                            k,
                            origin as int,
                        ) implies between(q2, k, d) || d == q2 || d == k by {
                        assert(k == king);
                        let j = choose|j: int| 0 <= j < 12 && #[trigger] in_mask(self.pieces()[j],
                            q2);
                        assert(q2 < 64);
                    }
                }
                if pin_ok(self.pieces(), piece.color, origin as int, d) {
                    assert(piece_on(self.pieces(), king as int, king_of(piece.color)));
                }
            }
        }
        allowed
    }

    /// Squares a pawn on `origin` reaches: one step ahead onto an empty
    /// square, two from its starting rank over empty squares, or a diagonal
    /// step onto an enemy piece or the en-passant target.
    fn get_pawn_moves(&self, origin: u8, piece: Piece, occupied: u64) -> (r: u64)
        requires
            self.wf(),
            origin < 64,
            piece.group == PieceGroup::Pawn,
            forall|s: int| #[trigger] in_mask(occupied, s) <==> !empty(self.pieces(), s),
        ensures
            forall|d: int| #[trigger] in_mask(r, d) <==> reaches(self.pieces(), self.en_passant,
                origin as int, piece, d),
    {
        proof {
            lemma_empty_full();
        }
        let mut r: u64 = 0;
        let mut d: u8 = 0;
        while d < 64
            invariant
                d <= 64,
                self.wf(),
                origin < 64,
                piece.group == PieceGroup::Pawn,
                forall|s: int| #[trigger] in_mask(occupied, s) <==> !empty(self.pieces(), s),
                forall|t: int|
                    #[trigger] in_mask(r, t) <==> (t < d && reaches(self.pieces(), self.en_passant,
                        origin as int, piece, t)),
            decreases 64 - d,
        {
            if self.is_pawn_move(origin, piece.color, d, occupied) {
                let bit = Self::convert_to_bit(d);
                proof {
                    lemma_bits(r, bit);
                }
                r = r | bit;
            }
            d += 1;
        }
        r
    }

    fn is_pawn_move(&self, origin: u8, color: PieceColor, destination: u8,
        occupied: u64) -> (r: bool)
        requires
            self.wf(),
            origin < 64,
            destination < 64,
            forall|s: int| #[trigger] in_mask(occupied, s) <==> !empty(self.pieces(), s),
        ensures
            r == reaches(self.pieces(), self.en_passant, origin as int,
                Piece { group: PieceGroup::Pawn, color }, destination as int),
    {
        if is_pawn_push(color, origin, destination) {
            return !Self::is_square_occupied_by_bitboard(destination, occupied);
        }
        if is_pawn_double(color, origin, destination) {
            let passed = match color {
                PieceColor::White => origin + 8,
                PieceColor::Black => origin - 8,
            };
            return !Self::is_square_occupied_by_bitboard(passed, occupied)
                && !Self::is_square_occupied_by_bitboard(destination, occupied);
        }
        is_pawn_attack(color, origin, destination) && (self.is_square_occupied_by_color(
            destination,
            Piece::get_opposite_color(color),
        ) || Self::is_square_occupied_by_bitboard(destination, self.en_passant))
    }
}

} // verus!
