use vstd::prelude::*;

use crate::bits::{in_mask, lemma_bits, lemma_empty_full, lemma_single};
use crate::geometry::{file, is_square, rank};
use crate::piece::{piece_of_index, Piece, PieceColor, PieceGroup};

verus! {

/// The kind that starts on file `f` of a back rank.
pub open spec fn back_rank_group(f: int) -> PieceGroup {
    if f == 0 || f == 7 {
        PieceGroup::Rook
    } else if f == 1 || f == 6 {
        PieceGroup::Knight
    } else if f == 2 || f == 5 {
        PieceGroup::Bishop
    } else if f == 3 {
        PieceGroup::Queen
    } else {
        PieceGroup::King
    }
}

/// What stands on square `s` in the opening position.
pub open spec fn initial_occupant(s: int) -> Option<Piece> {
    if !is_square(s) {
        None
    } else if rank(s) == 0 {
        Some(Piece { group: back_rank_group(file(s)), color: PieceColor::White })
    } else if rank(s) == 1 {
        Some(Piece { group: PieceGroup::Pawn, color: PieceColor::White })
    } else if rank(s) == 6 {
        Some(Piece { group: PieceGroup::Pawn, color: PieceColor::Black })
    } else if rank(s) == 7 {
        Some(Piece { group: back_rank_group(file(s)), color: PieceColor::Black })
    } else {
        None
    }
}

/// The piece on square `square` in the opening position.
pub fn starting_occupant(square: u8) -> (r: Option<Piece>)
    ensures
        r == initial_occupant(square as int),
{
    if square >= 64 {
        return None;
    }
    let color = if square < 16 {
        PieceColor::White
    } else {
        PieceColor::Black
    };
    match square / 8 {
        1 | 6 => Some(Piece { group: PieceGroup::Pawn, color }),
        0 | 7 => {
            let group = match square % 8 {
                0 | 7 => PieceGroup::Rook,
                1 | 6 => PieceGroup::Knight,
                2 | 5 => PieceGroup::Bishop,
                3 => PieceGroup::Queen,
                _ => PieceGroup::King,
            };
            Some(Piece { group, color })
        },
        _ => None,
    }
}

/// The mask that marks exactly the listed squares.
fn create_bitboard_for_positions(positions: &Vec<u8>) -> (r: u64)
    requires
        forall|i: int| 0 <= i < positions@.len() ==> #[trigger] positions@[i] < 64,
    ensures
        forall|s: int| #[trigger] in_mask(r, s) <==> exists|i: int|
            0 <= i < positions@.len() && #[trigger] positions@[i] as int == s,
{
    proof {
        lemma_empty_full();
    }
    let mut bitboard: u64 = 0;
    let mut i: usize = 0;
    while i < positions.len()
        invariant
            i <= positions@.len(),
            forall|j: int| 0 <= j < positions@.len() ==> #[trigger] positions@[j] < 64,
            forall|s: int| #[trigger] in_mask(bitboard, s) <==> exists|j: int|
                0 <= j < i && #[trigger] positions@[j] as int == s,
        decreases positions@.len() - i,
    {
        let square = positions[i];
        let ghost prev = bitboard;
        proof {
            lemma_single(square as u64);
            lemma_bits(bitboard, 1u64 << square);
        }
        bitboard = bitboard | (1u64 << square);
        assert forall|s: int| #[trigger] in_mask(bitboard, s) <==> exists|j: int|
            0 <= j < i + 1 && #[trigger] positions@[j] as int == s by {
            if s == square {
                assert(positions@[i as int] as int == s);
            } else if in_mask(bitboard, s) {
                assert(in_mask(prev, s));
            }
        }
        i += 1;
    }
    bitboard
}

/// The squares on which `piece` stands in the opening position.
pub fn create_bitboard_for_piece(piece: Piece) -> (r: u64)
    ensures
        forall|s: int| #[trigger] in_mask(r, s) <==> initial_occupant(s) == Some(piece),
{
    let files: Vec<u8> = match piece.group {
        PieceGroup::Pawn => vec![0, 1, 2, 3, 4, 5, 6, 7],
        PieceGroup::Rook => vec![0, 7],
        PieceGroup::Knight => vec![1, 6],
        PieceGroup::Bishop => vec![2, 5],
        PieceGroup::Queen => vec![3],
        PieceGroup::King => vec![4],
    };
    let rank: u8 = match (piece.group, piece.color) {
        (PieceGroup::Pawn, PieceColor::White) => 1,
        (PieceGroup::Pawn, PieceColor::Black) => 6,
        (_, PieceColor::White) => 0,
        (_, PieceColor::Black) => 7,
    };
    let mut positions: Vec<u8> = Vec::new();
    let mut i: usize = 0;
    while i < files.len()
        invariant
            i <= files@.len(),
            rank < 8,
            forall|j: int| 0 <= j < files@.len() ==> #[trigger] files@[j] < 8,
            positions@.len() == i,
            forall|j: int| 0 <= j < i ==> #[trigger] positions@[j] == rank * 8 + files@[j],
        decreases files@.len() - i,
    {
        positions.push(rank * 8 + files[i]);
        i += 1;
    }
    let r = create_bitboard_for_positions(&positions);
    assert forall|s: int| #[trigger] in_mask(r, s) <==> initial_occupant(s) == Some(piece) by {
        if initial_occupant(s) == Some(piece) {
            let f = file(s);
            let j = choose|j: int| 0 <= j < files@.len() && files@[j] as int == f;
            assert(positions@[j] as int == s);
        }
    }
    r
}

/// The occupancy masks of the opening position, indexed by `Piece::to_index`.
pub fn get_initial_bitboards() -> (r: [u64; 12])
    ensures
        forall|k: int, s: int|
            0 <= k < 12 ==> (#[trigger] in_mask(r@[k], s) <==> initial_occupant(s) == Some(
                piece_of_index(k),
            )),
{
    let pieces = Piece::initialize_all_pieces();
    let mut r: [u64; 12] = [0; 12];
    let mut k: usize = 0;
    while k < 12
        invariant
            k <= 12,
            forall|j: int| 0 <= j < 12 ==> #[trigger] pieces@[j] == piece_of_index(j),
            forall|j: int, s: int|
                0 <= j < k ==> (#[trigger] in_mask(r@[j], s) <==> initial_occupant(s) == Some(
                    piece_of_index(j),
                )),
        decreases 12 - k,
    {
        r[k] = create_bitboard_for_piece(pieces[k]);
        k += 1;
    }
    r
}

} // verus!
