use vstd::prelude::*;

use crate::bits::{in_mask, lemma_bits, lemma_empty_full, lemma_single};
use crate::board::{mirrors, Board};
use crate::geometry::{abs, file, is_pawn_double, is_square, rank};
use crate::piece::{
    lemma_index_bijection, piece_index, piece_of_index, Piece, PieceColor, PieceGroup,
};
use crate::rules::{
    after_move, disjoint, empty, king_of, legal, lemma_legal_moves_away, lemma_occupant,
    lemma_represents, occupant, opens_en_passant, passed_square, piece_on, represents,
    takes_en_passant,
};
use crate::bitboards::{Bitboards, MoveError};

verus! {

/// A pawn may become a knight, bishop, rook or queen.
pub open spec fn promotable(g: PieceGroup) -> bool {
    g == PieceGroup::Knight || g == PieceGroup::Bishop || g == PieceGroup::Rook || g
        == PieceGroup::Queen
}

/// The rank on which pawns of side `c` promote.
pub open spec fn last_rank(c: PieceColor) -> int {
    match c {
        PieceColor::White => 7,
        PieceColor::Black => 0,
    }
}

/// The piece on `o` is a pawn that reaches its last rank on `d`, and `g` is a
/// kind it may become.
pub open spec fn promotes(pcs: Seq<u64>, o: int, d: int, g: PieceGroup) -> bool {
    &&& occupant(pcs, o) is Some
    &&& occupant(pcs, o)->0.group == PieceGroup::Pawn
    &&& is_square(d)
    &&& rank(d) == last_rank(occupant(pcs, o)->0.color)
    &&& promotable(g)
}

/// What asking to move the piece on `o` to `d` comes to: the first failed
/// condition, in the order in which they are tested, or success.
pub open spec fn move_outcome(
    squares: Seq<Option<Piece>>,
    pcs: Seq<u64>,
    ep: u64,
    o: int,
    d: int,
) -> Result<(), MoveError> {
    if !is_square(o) || !is_square(d) {
        Err(MoveError::OutOfRange)
    } else if !mirrors(squares, pcs) {
        Err(MoveError::MirrorMismatch)
    } else if empty(pcs, o) {
        Err(MoveError::EmptyOrigin)
    } else if !legal(pcs, ep, occupant(pcs, o)->0.color, o, d) {
        Err(MoveError::IllegalMove)
    } else {
        Ok(())
    }
}

/// What asking to move the pawn on `o` to `d` and promote it to `g` comes to.
pub open spec fn promotion_outcome(
    squares: Seq<Option<Piece>>,
    pcs: Seq<u64>,
    ep: u64,
    o: int,
    d: int,
    g: PieceGroup,
) -> Result<(), MoveError> {
    if !is_square(o) || !is_square(d) {
        Err(MoveError::OutOfRange)
    } else if !mirrors(squares, pcs) {
        Err(MoveError::MirrorMismatch)
    } else if empty(pcs, o) {
        Err(MoveError::EmptyOrigin)
    } else if !promotes(pcs, o, d, g) {
        Err(MoveError::InvalidPromotion)
    } else if !legal(pcs, ep, occupant(pcs, o)->0.color, o, d) {
        Err(MoveError::IllegalMove)
    } else {
        Ok(())
    }
}

/// What stands on `s` after the pawn on `o` moves to `d` and becomes a `g`.
pub open spec fn after_promotion(pcs: Seq<u64>, ep: u64, o: int, d: int, g: PieceGroup,
    s: int) -> Option<
    Piece,
> {
    if s == d {
        Some(Piece { group: g, color: occupant(pcs, o)->0.color })
    } else {
        after_move(pcs, ep, o, d, s)
    }
}

/// The outcome of a move request, with or without a promotion.
pub open spec fn request_outcome(
    squares: Seq<Option<Piece>>,
    pcs: Seq<u64>,
    ep: u64,
    o: int,
    d: int,
    promotion: Option<PieceGroup>,
) -> Result<(), MoveError> {
    match promotion {
        None => move_outcome(squares, pcs, ep, o, d),
        Some(g) => promotion_outcome(squares, pcs, ep, o, d, g),
    }
}

/// What stands on `s` after a successful move request.
pub open spec fn after_request(
    pcs: Seq<u64>,
    ep: u64,
    o: int,
    d: int,
    promotion: Option<PieceGroup>,
    s: int,
) -> Option<Piece> {
    match promotion {
        None => after_move(pcs, ep, o, d, s),
        Some(g) => after_promotion(pcs, ep, o, d, g, s),
    }
}

impl Bitboards {
    /// Moves the piece on `origin` to `destination` if that move is legal,
    /// writing the change through to `board`. A piece on the destination is
    /// captured; a pawn landing on the en-passant target also takes the
    /// enemy pawn it passed. The en-passant target is then set by a
    /// two-square advance beside an enemy pawn and cleared otherwise, and the
    /// checking-piece masks are cleared. A refused move changes neither the
    /// masks nor the board.
    pub fn move_piece(&mut self, board: &mut Board, origin: u8, destination: u8) -> (r: Result<(),
        MoveError>)
        requires
            old(self).wf(),
        ensures
            final(self).wf(),
            r == move_outcome(
                old(board).squares@,
                old(self).pieces(),
                old(self).en_passant,
                origin as int,
                destination as int,
            ),
            r is Err ==> final(self).all_pieces == old(self).all_pieces
                && final(self).en_passant == old(self).en_passant
                && *final(board) == *old(board),
            r is Ok ==> forall|s: int| is_square(s) ==> #[trigger] occupant(final(self).pieces(),
                s) == after_move(
                old(self).pieces(),
                old(self).en_passant,
                origin as int,
                destination as int,
                s,
            ),
            r is Ok ==> mirrors(final(board).squares@, final(self).pieces()),
            r is Ok ==> final(board).turn_color == old(board).turn_color
                && final(board).can_kingside_castle == old(board).can_kingside_castle
                && final(board).can_queenside_castle == old(board).can_queenside_castle,
            r is Ok && opens_en_passant(old(self).pieces(), origin as int, destination as int)
                ==> forall|s: int|
                #[trigger] in_mask(final(self).en_passant, s)
                    <==> s == passed_square(occupant(old(self).pieces(), origin as int)->0.color,
                    destination as int),
            r is Ok && !opens_en_passant(old(self).pieces(), origin as int, destination as int)
                ==> final(self).en_passant == 0,
            r is Ok ==> final(self).checking_pieces@ == seq![0u64, 0u64],
    {
        if origin >= 64 || destination >= 64 {
            return Err(MoveError::OutOfRange);
        }
        if !self.is_mirrored_by(board) {
            return Err(MoveError::MirrorMismatch);
        }
        let piece = match self.get_occupant(origin) {
            Some(piece) => piece,
            None => {
                return Err(MoveError::EmptyOrigin);
            },
        };
        let ghost pcs = self.pieces();
        let ghost ep = self.en_passant;
        let ghost squares = board.squares@;
        self.get_all_attacks();
        let moves = self.get_legal_moves(origin, piece.color);
        if !Self::is_square_occupied_by_bitboard(destination, moves) {
            return Err(MoveError::IllegalMove);
        }
        proof {
            lemma_legal_moves_away(pcs, ep, piece.color, origin as int, destination as int);
            lemma_occupant(pcs);
            lemma_index_bijection();
        }
        let opens = self.opens_en_passant(origin, destination, piece);
        let victim = self.en_passant_victim(origin, destination, piece);
        let ghost takes = victim is Some;
        let ghost v = if takes { victim->0 as int } else { -1 };
        // a capture on the destination
        match self.get_occupant(destination) {
            Some(captured) => {
                self.clear_square(destination, captured);
            },
            None => {
                assert forall|k: int,
                    s: int| 0 <= k < 12 implies (#[trigger] in_mask(self.pieces()[k], s)
                    <==> in_mask(pcs[k], s) && s != destination) by {
                    if in_mask(pcs[k], s) && s == destination {
                        assert(occupant(pcs, s) is Some);
                    }
                }
            },
        }
        let ghost after_capture = self.pieces();
        assert(disjoint(after_capture));
        // the pawn taken en passant
        match victim {
            Some(passed) => {
                let enemy_pawn = Piece { group: PieceGroup::Pawn,
                    color: Piece::get_opposite_color(piece.color) };
                assert(piece_on(after_capture, passed as int, enemy_pawn)) by {
                    assert(in_mask(pcs[piece_index(enemy_pawn)], passed as int));
                    assert(passed != destination);
                    assert(in_mask(after_capture[piece_index(enemy_pawn)], passed as int));
                    lemma_occupant(after_capture);
                };
                self.clear_square(passed, enemy_pawn);
                board.update_square(passed, None);
            },
            None => {},
        }
        assert forall|k: int, s: int| 0 <= k < 12 implies (#[trigger] in_mask(self.pieces()[k],
            s) <==> in_mask(pcs[k], s) && s != destination && !(takes && s == v)) by {
        }
        let ghost after_victim = self.pieces();
        assert(disjoint(self.pieces()));
        assert(piece_on(self.pieces(), origin as int, piece)) by {
            assert(in_mask(pcs[piece_index(piece)], origin as int));
            assert(origin != v);
            lemma_occupant(self.pieces());
        };
        self.place_piece(origin, destination, piece);
        let ghost after_place = self.pieces();
        assert(forall|k: int, s: int| 0 <= k < 12 ==> (#[trigger] in_mask(after_place[k], s)
            <==> (k == piece_index(piece) && s == destination) || (in_mask(after_victim[k], s)
            && s != origin)));
        board.update_square(destination, Some(piece));
        board.update_square(origin, None);
        self.en_passant = if opens {
            match piece.color {
                PieceColor::White => Self::convert_to_bit(destination - 8),
                PieceColor::Black => Self::convert_to_bit(destination + 8),
            }
        } else {
            0
        };
        self.checking_pieces = [0, 0];
        assert(self.checking_pieces@ =~= seq![0u64, 0u64]);
        proof {
            let f = |s: int| after_move(pcs, ep, origin as int, destination as int, s);
            assert(represents(self.pieces(), f)) by {
                assert forall|k: int, s: int| 0 <= k < 12
                    && is_square(s) implies (#[trigger] in_mask(self.pieces()[k], s)
                    <==> f(s) == Some(piece_of_index(k))) by {
                    assert(self.pieces() == after_place);
                    assert(in_mask(after_place[k], s) <==> (k == piece_index(piece)
                        && s == destination) || (in_mask(after_victim[k], s) && s != origin));
                    assert(in_mask(after_victim[k], s) <==> in_mask(pcs[k], s)
                        && s != destination && !(takes && s == v));
                    if s == destination {
                        assert(f(s) == Some(piece));
                        assert(piece_of_index(piece_index(piece)) == piece);
                        if f(s) == Some(piece_of_index(k)) {
                            assert(piece_index(piece_of_index(k)) == k);
                        }
                    } else if s == origin {
                        assert(f(s) is None);
                    } else if takes && s == v {
                        assert(f(s) is None);
                    } else {
                        if in_mask(pcs[k], s) {
                            assert(occupant(pcs, s) == Some(piece_of_index(k)));
                        }
                        if occupant(pcs, s) == Some(piece_of_index(k)) {
                            assert(piece_on(pcs, s, piece_of_index(k)));
                        }
                    }
                }
            }
            lemma_represents(self.pieces(), f);
            lemma_occupant(self.pieces());
            lemma_empty_full();
            if opens {
                lemma_single(passed_square(piece.color, destination as int) as u64);
            }
            assert forall|c: PieceColor, a: int, b: int|
                #[trigger] piece_on(self.pieces(), a, king_of(c))
                    && #[trigger] piece_on(self.pieces(), b, king_of(c)) implies a == b by {
                let j = choose|j: int| 0 <= j < 12 && #[trigger] in_mask(self.pieces()[j], a);
                let i = choose|i: int| 0 <= i < 12 && #[trigger] in_mask(self.pieces()[i], b);
                assert(f(a) == Some(king_of(c)));
                assert(f(b) == Some(king_of(c)));
                if a != destination && b != destination {
                    assert(piece_on(pcs, a, king_of(c)));
                    assert(piece_on(pcs, b, king_of(c)));
                } else if a == destination && b != destination {
                    assert(piece_on(pcs, origin as int, king_of(c)));
                    assert(piece_on(pcs, b, king_of(c)));
                } else if a != destination && b == destination {
                    assert(piece_on(pcs, origin as int, king_of(c)));
                    assert(piece_on(pcs, a, king_of(c)));
                }
            }
            assert forall|s: int| 0 <= s < 64 implies #[trigger] board.squares@[s] == occupant(
                self.pieces(),
                s,
            ) by {
                if s != destination && s != origin && !(takes && s == v) {
                    assert(board.squares@[s] == squares[s]);
                }
            }
        }
        Ok(())
    }

    /// Moves a pawn from `origin` to its last rank on `destination` as
    /// `move_piece` does, and puts a piece of kind `promotion` and of the
    /// pawn's side in its place. A refused move changes neither the masks nor
    /// the board.
    pub fn promote_pawn(&mut self, board: &mut Board, origin: u8, destination: u8,
        promotion: PieceGroup) -> (r: Result<(), MoveError>)
        requires
            old(self).wf(),
        ensures
            final(self).wf(),
            r == promotion_outcome(
                old(board).squares@,
                old(self).pieces(),
                old(self).en_passant,
                origin as int,
                destination as int,
                promotion,
            ),
            r is Err ==> final(self).all_pieces == old(self).all_pieces
                && final(self).en_passant == old(self).en_passant
                && *final(board) == *old(board),
            r is Ok ==> forall|s: int|
                is_square(s) ==> #[trigger] occupant(final(self).pieces(), s) == after_promotion(
                    old(self).pieces(),
                    old(self).en_passant,
                    origin as int,
                    destination as int,
                    promotion,
                    s,
                ),
            r is Ok ==> mirrors(final(board).squares@, final(self).pieces()),
            r is Ok ==> final(board).turn_color == old(board).turn_color
                && final(board).can_kingside_castle == old(board).can_kingside_castle
                && final(board).can_queenside_castle == old(board).can_queenside_castle,
            r is Ok ==> final(self).en_passant == 0,
            r is Ok ==> final(self).checking_pieces@ == seq![0u64, 0u64],
    {
        if origin >= 64 || destination >= 64 {
            return Err(MoveError::OutOfRange);
        }
        if !self.is_mirrored_by(board) {
            return Err(MoveError::MirrorMismatch);
        }
        let piece = match self.get_occupant(origin) {
            Some(piece) => piece,
            None => {
                return Err(MoveError::EmptyOrigin);
            },
        };
        let last: u8 = match piece.color {
            PieceColor::White => 7,
            PieceColor::Black => 0,
        };
        let kind_ok = match promotion {
            PieceGroup::Knight | PieceGroup::Bishop | PieceGroup::Rook | PieceGroup::Queen => true,
            _ => false,
        };
        if piece.group != PieceGroup::Pawn || destination / 8 != last || !kind_ok {
            return Err(MoveError::InvalidPromotion);
        }
        assert(promotes(self.pieces(), origin as int, destination as int, promotion));
        let ghost pcs = self.pieces();
        let ghost ep = self.en_passant;
        let moved_result = self.move_piece(board, origin, destination);
        if moved_result.is_err() {
            assert(moved_result->Err_0 is IllegalMove);
            assert(!legal(pcs, ep, occupant(pcs, origin as int)->0.color, origin as int,
                destination as int));
            return Err(MoveError::IllegalMove);
        }
        let ghost moved = self.pieces();
        let promoted = Piece { group: promotion, color: piece.color };
        proof {
            lemma_occupant(moved);
            lemma_index_bijection();
            assert(piece_on(moved, destination as int, piece));
            assert(!opens_en_passant(pcs, origin as int, destination as int));
        }
        self.replace_piece(destination, piece, promoted);
        board.update_square(destination, Some(promoted));
        proof {
            let f = |s: int| if s == destination as int {
                Some(promoted)
            } else {
                after_move(pcs, ep, origin as int, destination as int, s)
            };
            assert(represents(self.pieces(), f)) by {
                assert forall|k: int, s: int| 0 <= k < 12
                    && is_square(s) implies (#[trigger] in_mask(self.pieces()[k], s)
                    <==> f(s) == Some(piece_of_index(k))) by {
                    if s == destination {
                        assert(piece_of_index(piece_index(promoted)) == promoted);
                        if f(s) == Some(piece_of_index(k)) {
                            assert(piece_index(piece_of_index(k)) == k);
                        }
                    } else {
                        assert(occupant(moved, s) == after_move(pcs, ep, origin as int,
                            destination as int, s));
                        if in_mask(moved[k], s) {
                            assert(occupant(moved, s) == Some(piece_of_index(k)));
                        }
                        if f(s) == Some(piece_of_index(k)) {
                            assert(piece_on(moved, s, piece_of_index(k)));
                        }
                    }
                }
            }
            lemma_represents(self.pieces(), f);
            lemma_occupant(self.pieces());
            assert forall|c: PieceColor, a: int, b: int|
                #[trigger] piece_on(self.pieces(), a, king_of(c))
                    && #[trigger] piece_on(self.pieces(), b, king_of(c)) implies a == b by {
                let j = choose|j: int| 0 <= j < 12 && #[trigger] in_mask(self.pieces()[j], a);
                let i = choose|i: int| 0 <= i < 12 && #[trigger] in_mask(self.pieces()[i], b);
                assert(piece_on(moved, a, king_of(c)));
                assert(piece_on(moved, b, king_of(c)));
            }
            assert forall|s: int| 0 <= s < 64 implies #[trigger] board.squares@[s] == occupant(
                self.pieces(),
                s,
            ) by {
                if s != destination {
                    assert(occupant(moved, s) == occupant(self.pieces(), s));
                }
            }
        }
        Ok(())
    }

    /// Removes the piece on `square` from its mask.
    fn clear_square(&mut self, square: u8, piece: Piece)
        requires
            disjoint(old(self).pieces()),
            square < 64,
            piece_on(old(self).pieces(), square as int, piece),
        ensures
            forall|k: int, s: int| 0 <= k < 12 ==> (#[trigger] in_mask(final(self).pieces()[k],
                s) <==> in_mask(old(self).pieces()[k], s) && s != square),
            final(self).en_passant == old(self).en_passant,
    {
        proof {
            lemma_occupant(self.pieces());
            lemma_index_bijection();
        }
        let i = piece.to_index();
        let bit = Self::convert_to_bit(square);
        proof {
            lemma_bits(self.all_pieces[i as int], bit);
        }
        self.all_pieces[i] = self.all_pieces[i] & !bit;
    }

    /// Moves `piece` from `origin` to the unclaimed square `destination`.
    fn place_piece(&mut self, origin: u8, destination: u8, piece: Piece)
        requires
            disjoint(old(self).pieces()),
            origin < 64,
            destination < 64,
            piece_on(old(self).pieces(), origin as int, piece),
        ensures
            forall|k: int, s: int| 0 <= k < 12 ==> (#[trigger] in_mask(final(self).pieces()[k],
                s) <==> (k == piece_index(piece) && s == destination)
                || (in_mask(old(self).pieces()[k], s) && s != origin)),
            final(self).en_passant == old(self).en_passant,
    {
        proof {
            lemma_occupant(self.pieces());
            lemma_index_bijection();
        }
        let i = piece.to_index();
        let origin_bit = Self::convert_to_bit(origin);
        let destination_bit = Self::convert_to_bit(destination);
        proof {
            lemma_bits(self.all_pieces[i as int], origin_bit);
            lemma_bits(self.all_pieces[i as int] & !origin_bit, destination_bit);
        }
        self.all_pieces[i] = (self.all_pieces[i] & !origin_bit) | destination_bit;
    }

    /// Replaces `piece` on `square` by `replacement`.
    fn replace_piece(&mut self, square: u8, piece: Piece, replacement: Piece)
        requires
            disjoint(old(self).pieces()),
            square < 64,
            piece_on(old(self).pieces(), square as int, piece),
        ensures
            forall|k: int, s: int| 0 <= k < 12 ==> (#[trigger] in_mask(final(self).pieces()[k],
                s) <==> (k == piece_index(replacement) && s == square)
                || (in_mask(old(self).pieces()[k], s) && s != square)),
            final(self).en_passant == old(self).en_passant,
            final(self).checking_pieces == old(self).checking_pieces,
    {
        proof {
            lemma_occupant(self.pieces());
            lemma_index_bijection();
        }
        let i = piece.to_index();
        let j = replacement.to_index();
        let bit = Self::convert_to_bit(square);
        proof {
            lemma_bits(self.all_pieces[i as int], bit);
        }
        self.all_pieces[i] = self.all_pieces[i] & !bit;
        let ghost cleared = self.pieces();
        proof {
            lemma_bits(self.all_pieces[j as int], bit);
        }
        self.all_pieces[j] = self.all_pieces[j] | bit;
        assert forall|k: int, s: int| 0 <= k < 12 implies (#[trigger] in_mask(self.pieces()[k],
            s) <==> (k == piece_index(replacement) && s == square)
            || (in_mask(old(self).pieces()[k], s) && s != square)) by {
            assert(in_mask(cleared[k], s) <==> in_mask(old(self).pieces()[k], s) && !(k == i
                && s == square));
            if k != i && in_mask(old(self).pieces()[k], s) && s == square {
                assert(in_mask(old(self).pieces()[i as int], s));
            }
        }
    }

    /// A pawn of `color` stands on `square`.
    fn is_pawn_of(&self, square: u8, color: PieceColor) -> (r: bool)
        requires
            disjoint(self.pieces()),
            square < 64,
        ensures
            r == piece_on(self.pieces(), square as int, Piece { group: PieceGroup::Pawn, color }),
    {
        match self.get_occupant(square) {
            Some(occupant) => occupant.group == PieceGroup::Pawn && occupant.color == color,
            None => false,
        }
    }

    /// The move of `piece` from `origin` to `destination` is a two-square
    /// pawn advance that lands beside an enemy pawn.
    fn opens_en_passant(&self, origin: u8, destination: u8, piece: Piece) -> (r: bool)
        requires
            disjoint(self.pieces()),
            origin < 64,
            destination < 64,
            piece_on(self.pieces(), origin as int, piece),
        ensures
            r == opens_en_passant(self.pieces(), origin as int, destination as int),
    {
        if piece.group != PieceGroup::Pawn || !is_pawn_double(piece.color, origin, destination) {
            return false;
        }
        let enemy = Piece::get_opposite_color(piece.color);
        let enemy_pawn = Piece { group: PieceGroup::Pawn, color: enemy };
        let column = destination % 8;
        let left = column > 0 && self.is_pawn_of(destination - 1, enemy);
        let right = column < 7 && self.is_pawn_of(destination + 1, enemy);
        proof {
            if left {
                assert(piece_on(self.pieces(), destination - 1, enemy_pawn));
            }
            if right {
                assert(piece_on(self.pieces(), destination + 1, enemy_pawn));
            }
            if opens_en_passant(self.pieces(), origin as int, destination as int) {
                let n = choose|n: int|
                    is_square(n) && rank(n) == rank(destination as int)
                        && abs(file(n) - file(destination as int)) == 1 && #[trigger] piece_on(
                        self.pieces(),
                        n,
                        enemy_pawn,
                    );
                assert(n == destination - 1 || n == destination + 1);
            }
        }
        left || right
    }

    /// The square of the pawn that the move of `piece` from `origin` to
    /// `destination` takes en passant, if it takes one.
    fn en_passant_victim(&self, origin: u8, destination: u8, piece: Piece) -> (r: Option<u8>)
        requires
            disjoint(self.pieces()),
            origin < 64,
            destination < 64,
            piece_on(self.pieces(), origin as int, piece),
        ensures
            r is Some <==> takes_en_passant(self.pieces(), self.en_passant, origin as int,
                destination as int),
            r is Some ==> r->0 < 64 && r->0 as int == passed_square(piece.color,
                destination as int),
    {
        if piece.group != PieceGroup::Pawn || !Self::is_square_occupied_by_bitboard(destination,
            self.en_passant) {
            return None;
        }
        let passed = match piece.color {
            PieceColor::White => {
                if destination < 8 {
                    return None;
                }
                destination - 8
            },
            PieceColor::Black => {
                if destination >= 56 {
                    return None;
                }
                destination + 8
            },
        };
        if self.is_pawn_of(passed, Piece::get_opposite_color(piece.color)) {
            Some(passed)
        } else {
            None
        }
    }
}

} // verus!
