use vstd::prelude::*;

use crate::bitboards::{Bitboards, MoveError};
use crate::bits::in_mask;
use crate::board::{mirrors, Board};
use crate::geometry::is_square;
use crate::moves::{after_request, request_outcome};
use crate::opening::initial_occupant;
use crate::piece::{opposite, Piece, PieceColor, PieceGroup};
use crate::rules::{legal, occupant};

verus! {

/// What a caller sees of the game: the board array and, for each square, the
/// mask of legal destinations of the piece on it.
pub struct SquaresAndMoves {
    pub squares: Vec<Option<Piece>>,
    pub moves: Vec<u64>,
}

/// The board array and, for each square, the legal destinations of the
/// piece of the side to move that stands there.
pub fn get_squares_and_moves(board: &Board, bitboards: &mut Bitboards) -> (r: SquaresAndMoves)
    requires
        old(bitboards).wf(),
    ensures
        final(bitboards).wf(),
        final(bitboards).all_pieces == old(bitboards).all_pieces,
        final(bitboards).en_passant == old(bitboards).en_passant,
        r.squares@ == board.squares@,
        r.moves@.len() == 64,
        forall|o: int, d: int|
            0 <= o < 64 ==> (#[trigger] in_mask(r.moves@[o], d) <==> legal(
                old(bitboards).pieces(),
                old(bitboards).en_passant,
                board.turn_color,
                o,
                d,
            )),
{
    let moves = bitboards.get_all_legal_moves(board.turn_color);
    let mut squares: Vec<Option<Piece>> = Vec::new();
    let mut i: usize = 0;
    while i < board.squares.len()
        invariant
            i <= board.squares@.len(),
            squares@ == board.squares@.subrange(0, i as int),
        decreases board.squares@.len() - i,
    {
        squares.push(board.squares[i]);
        i += 1;
    }
    assert(squares@ =~= board.squares@);
    SquaresAndMoves { squares, moves }
}

/// Carries out a move request, with a promotion when one is named; on
/// success passes the turn and reports the board array and the legal moves
/// of the side now to move. A refused request changes nothing.
pub fn apply_move(
    board: &mut Board,
    bitboards: &mut Bitboards,
    origin: u8,
    destination: u8,
    promotion: Option<PieceGroup>,
) -> (r: Result<SquaresAndMoves, MoveError>)
    requires
        old(bitboards).wf(),
    ensures
        final(bitboards).wf(),
        r is Ok <==> request_outcome(
            old(board).squares@,
            old(bitboards).pieces(),
            old(bitboards).en_passant,
            origin as int,
            destination as int,
            promotion,
        ) is Ok,
        r is Err ==> request_outcome(
            old(board).squares@,
            old(bitboards).pieces(),
            old(bitboards).en_passant,
            origin as int,
            destination as int,
            promotion,
        ) == Err::<(), MoveError>(r->Err_0),
        r is Err ==> *final(board) == *old(board) && final(bitboards).all_pieces == old(
            bitboards,
        ).all_pieces && final(bitboards).en_passant == old(bitboards).en_passant,
        r is Ok ==> forall|s: int|
            is_square(s) ==> #[trigger] occupant(final(bitboards).pieces(), s) == after_request(
                old(bitboards).pieces(),
                old(bitboards).en_passant,
                origin as int,
                destination as int,
                promotion,
                s,
            ),
        r is Ok ==> mirrors(final(board).squares@, final(bitboards).pieces()),
        r is Ok ==> final(board).turn_color == opposite(old(board).turn_color),
        r is Ok ==> r->Ok_0.squares@ == final(board).squares@,
        r is Ok ==> r->Ok_0.moves@.len() == 64,
        r is Ok ==> forall|o: int, d: int|
            0 <= o < 64 ==> (#[trigger] in_mask(r->Ok_0.moves@[o], d) <==> legal(
                final(bitboards).pieces(),
                final(bitboards).en_passant,
                final(board).turn_color,
                o,
                d,
            )),
{
    let result = match promotion {
        Some(group) => bitboards.promote_pawn(board, origin, destination, group),
        None => bitboards.move_piece(board, origin, destination),
    };
    match result {
        Ok(()) => {
            board.toggle_turn_color();
            Ok(get_squares_and_moves(board, bitboards))
        },
        Err(error) => Err(error),
    }
}

/// The board of a new game: the opening position, White to move.
pub fn initialize_starting_position() -> (r: Board)
    ensures
        r.squares@.len() == 64,
        forall|s: int| 0 <= s < 64 ==> #[trigger] r.squares@[s] == initial_occupant(s),
        r.turn_color == PieceColor::White,
{
    Board::new()
}

/// The squares marked in `bitboard`, in increasing order.
pub fn convert_bitboard_to_indexes(bitboard: u64) -> (r: Vec<u8>)
    ensures
        forall|i: int| 0 <= i < r@.len() ==> in_mask(bitboard, #[trigger] r@[i] as int),
        forall|s: int| in_mask(bitboard, s) ==> exists|i: int| 0 <= i < r@.len()
            && #[trigger] r@[i] as int == s,
        forall|i: int, j: int| 0 <= i < j < r@.len() ==> r@[i] < r@[j],
{
    let mut indexes: Vec<u8> = Vec::new();
    let mut s: u8 = 0;
    while s < 64
        invariant
            s <= 64,
            forall|i: int| 0 <= i < indexes@.len() ==> in_mask(bitboard,
                #[trigger] indexes@[i] as int) && indexes@[i] < s,
            forall|t: int| 0 <= t < s && in_mask(bitboard, t)
                ==> exists|i: int| 0 <= i < indexes@.len() && #[trigger] indexes@[i] as int == t,
            forall|i: int, j: int| 0 <= i < j < indexes@.len() ==> indexes@[i] < indexes@[j],
        decreases 64 - s,
    {
        let ghost prev = indexes@;
        if Bitboards::is_square_occupied_by_bitboard(s, bitboard) {
            indexes.push(s);
        }
        assert forall|t: int| 0 <= t < s + 1 && in_mask(bitboard, t) implies exists|i: int|
            0 <= i < indexes@.len() && #[trigger] indexes@[i] as int == t by {
            if t < s {
                let i = choose|i: int| 0 <= i < prev.len() && #[trigger] prev[i] as int == t;
                assert(indexes@[i] == prev[i]);
            } else {
                assert(indexes@[indexes@.len() - 1] as int == t);
            }
        }
        s += 1;
    }
    indexes
}

/// For each of the 64 squares, the legal destinations of the piece of
/// `color` standing there, in increasing order; empty where none stands.
pub fn get_all_moves(bitboards: &mut Bitboards, color: PieceColor) -> (r: Vec<Vec<u8>>)
    requires
        old(bitboards).wf(),
    ensures
        final(bitboards).wf(),
        final(bitboards).all_pieces == old(bitboards).all_pieces,
        final(bitboards).en_passant == old(bitboards).en_passant,
        r@.len() == 64,
        forall|o: int, i: int|
            0 <= o < 64 && 0 <= i < r@[o]@.len() ==> legal(
                old(bitboards).pieces(),
                old(bitboards).en_passant,
                color,
                o,
                #[trigger] r@[o]@[i] as int,
            ),
        forall|o: int, d: int|
            0 <= o < 64 && #[trigger] legal(old(bitboards).pieces(), old(bitboards).en_passant,
                color, o, d)
                ==> exists|i: int| 0 <= i < r@[o]@.len() && #[trigger] r@[o]@[i] as int == d,
        forall|o: int, i: int, j: int| 0 <= o < 64 && 0 <= i < j < r@[o]@.len()
            ==> #[trigger] r@[o]@[i] < #[trigger] r@[o]@[j],
{
    let all = bitboards.get_all_legal_moves(color);
    let mut moves: Vec<Vec<u8>> = Vec::new();
    let mut o: usize = 0;
    while o < 64
        invariant
            o <= 64,
            all@.len() == 64,
            moves@.len() == o,
            forall|o2: int, d: int| 0 <= o2 < 64 ==> (#[trigger] in_mask(all@[o2], d)
                <==> legal(old(bitboards).pieces(), old(bitboards).en_passant, color, o2, d)),
            forall|o2: int, i: int|
                0 <= o2 < o && 0 <= i < moves@[o2]@.len() ==> in_mask(all@[o2],
                    #[trigger] moves@[o2]@[i] as int),
            forall|o2: int, d: int|
                0 <= o2 < o && #[trigger] in_mask(all@[o2], d)
                    ==> exists|i: int| 0 <= i < moves@[o2]@.len()
                    && #[trigger] moves@[o2]@[i] as int == d,
            forall|o2: int, i: int, j: int| 0 <= o2 < o && 0 <= i < j < moves@[o2]@.len()
                ==> #[trigger] moves@[o2]@[i] < #[trigger] moves@[o2]@[j],
        decreases 64 - o,
    {
        let list = convert_bitboard_to_indexes(all[o]);
        let ghost prev = moves@;
        moves.push(list);
        assert forall|o2: int, d: int|
            0 <= o2 < o + 1 && #[trigger] in_mask(all@[o2], d) implies exists|i: int|
                0 <= i < moves@[o2]@.len() && #[trigger] moves@[o2]@[i] as int == d by {
            if o2 < o {
                assert(moves@[o2] == prev[o2]);
            } else {
                assert(moves@[o2] == list);
            }
        }
        o += 1;
    }
    proof {
        assert forall|o2: int, d: int|
            0 <= o2 < 64 && #[trigger] legal(old(bitboards).pieces(), old(bitboards).en_passant,
                color, o2, d)
                implies exists|i: int| 0 <= i < moves@[o2]@.len()
                    && #[trigger] moves@[o2]@[i] as int == d by {
            assert(in_mask(all@[o2], d));
        }
    }
    moves
}

} // verus!
