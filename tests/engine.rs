use chess_engine::bitboards::{Bitboards, MoveError};
use chess_engine::board::Board;
use chess_engine::game::{
    apply_move, convert_bitboard_to_indexes, get_all_moves, get_squares_and_moves,
    initialize_starting_position,
};
use chess_engine::opening::get_initial_bitboards;
use chess_engine::piece::{Piece, PieceColor, PieceGroup};

fn bit(square: u8) -> u64 {
    1u64 << square
}

fn piece(group: PieceGroup, color: PieceColor) -> Piece {
    Piece { group, color }
}

/// Masks for a position given as (square, group, color) entries.
fn masks(entries: &[(u8, PieceGroup, PieceColor)]) -> [u64; 12] {
    let mut all = [0u64; 12];
    for &(square, group, color) in entries {
        all[piece(group, color).to_index()] |= bit(square);
    }
    all
}

/// An engine and a matching board for the given position.
fn position(entries: &[(u8, PieceGroup, PieceColor)]) -> (Bitboards, Board) {
    let bitboards = Bitboards::from_pieces(masks(entries)).expect("valid position");
    let board = Board::from_bitboards(&bitboards, PieceColor::White);
    for &(square, group, color) in entries {
        assert_eq!(board.squares[square as usize], Some(piece(group, color)));
    }
    (bitboards, board)
}

fn assert_consistent(bitboards: &Bitboards, board: &Board) {
    for square in 0..64u8 {
        let owners: Vec<usize> =
            (0..12).filter(|&k| bitboards.all_pieces[k] & bit(square) != 0).collect();
        assert!(owners.len() <= 1, "square {} claimed twice", square);
        let shown = board.squares[square as usize];
        match owners.first() {
            Some(&k) => assert_eq!(shown, Piece::from_index(k)),
            None => assert_eq!(shown, None),
        }
    }
    assert!(bitboards.is_mirrored_by(board));
}

fn play(bitboards: &mut Bitboards, board: &mut Board, origin: u8, destination: u8) {
    assert_eq!(bitboards.move_piece(board, origin, destination), Ok(()));
    assert_consistent(bitboards, board);
}

use PieceColor::{Black, White};
use PieceGroup::{Bishop, King, Knight, Pawn, Queen, Rook};

#[test]
fn opening_king_pawn_has_two_advances() {
    let mut bitboards = Bitboards::new();
    let moves = bitboards.get_all_legal_moves(White);
    assert_eq!(moves.len(), 64);
    assert_eq!(moves[12], bit(20) | bit(28));
}

#[test]
fn opening_white_moves() {
    let mut bitboards = Bitboards::new();
    let moves = bitboards.get_all_legal_moves(White);
    for pawn in 8..16u8 {
        assert_eq!(moves[pawn as usize], bit(pawn + 8) | bit(pawn + 16));
    }
    assert_eq!(moves[1], bit(16) | bit(18));
    assert_eq!(moves[6], bit(21) | bit(23));
    for blocked in [0usize, 2, 3, 4, 5, 7] {
        assert_eq!(moves[blocked], 0);
    }
    for square in 16..64 {
        assert_eq!(moves[square], 0);
    }
}

#[test]
fn opening_black_moves() {
    let mut bitboards = Bitboards::new();
    let moves = bitboards.get_all_legal_moves(Black);
    assert_eq!(moves[52], bit(44) | bit(36));
    assert_eq!(moves[57], bit(40) | bit(42));
    assert_eq!(moves[12], 0);
}

#[test]
fn king_pawn_keeps_only_reachable_squares() {
    let mut bitboards = Bitboards::new();
    let mut board = Board::new();
    play(&mut bitboards, &mut board, 6, 21);
    let moves = bitboards.get_all_legal_moves(White);
    assert_eq!(moves[12], bit(20) | bit(28));
    play(&mut bitboards, &mut board, 12, 28);
    play(&mut bitboards, &mut board, 52, 36);
    let moves = bitboards.get_all_legal_moves(White);
    assert_eq!(moves[28], 0);
    assert_eq!(moves[12], 0);
}

#[test]
fn opening_attacks() {
    let mut bitboards = Bitboards::new();
    let attacks = bitboards.get_all_attacks();
    assert_eq!(attacks[0], 0x0000_0000_00FF_FF7E);
    assert_eq!(attacks[1], 0x7EFF_FF00_0000_0000);
    assert_eq!(bitboards.checking_pieces, [0, 0]);
}

#[test]
fn pinned_bishop_cannot_leave_file() {
    let (mut bitboards, _) = position(&[
        (4, King, White),
        (12, Bishop, White),
        (60, Rook, Black),
        (63, King, Black),
    ]);
    let moves = bitboards.get_all_legal_moves(White);
    assert_eq!(moves[12], 0);
    // without the rook the bishop moves freely
    let (mut free, _) = position(&[(4, King, White), (12, Bishop, White), (63, King, Black)]);
    let moves = free.get_all_legal_moves(White);
    assert_ne!(moves[12], 0);
}

#[test]
fn pinned_bishop_moves_along_diagonal() {
    // king a1, bishop c3, black queen e5: the bishop stays on the diagonal
    let (mut bitboards, _) = position(&[
        (0, King, White),
        (18, Bishop, White),
        (36, Queen, Black),
        (63, King, Black),
    ]);
    let moves = bitboards.get_all_legal_moves(White);
    assert_eq!(moves[18], bit(9) | bit(27) | bit(36));
}

#[test]
fn pinned_rook_moves_along_file() {
    let (mut bitboards, _) = position(&[
        (4, King, White),
        (20, Rook, White),
        (44, Rook, Black),
        (63, King, Black),
    ]);
    let moves = bitboards.get_all_legal_moves(White);
    assert_eq!(moves[20], bit(12) | bit(28) | bit(36) | bit(44));
}

#[test]
fn single_slider_check_is_blocked_or_captured() {
    // white king e1, black rook e8 gives check; white rook a4 and knight d6
    let (mut bitboards, _) = position(&[
        (4, King, White),
        (24, Rook, White),
        (43, Knight, White),
        (60, Rook, Black),
        (63, King, Black),
    ]);
    let moves = bitboards.get_all_legal_moves(White);
    assert_eq!(bitboards.checking_pieces[1], bit(60));
    // the rook can only block on e4
    assert_eq!(moves[24], bit(28));
    // the knight can capture on e8 or block on e4
    assert_eq!(moves[43], bit(60) | bit(28));
    // the king steps off the file
    assert_eq!(moves[4], bit(3) | bit(5) | bit(11) | bit(13));
}

#[test]
fn knight_check_must_be_captured() {
    // white king e1, black knight f3 gives check; white bishop g4 may capture it
    let (mut bitboards, _) = position(&[
        (4, King, White),
        (30, Bishop, White),
        (8, Pawn, White),
        (21, Knight, Black),
        (63, King, Black),
    ]);
    let moves = bitboards.get_all_legal_moves(White);
    assert_eq!(bitboards.checking_pieces[1], bit(21));
    assert_eq!(moves[30], bit(21));
    assert_eq!(moves[8], 0);
}

#[test]
fn king_cannot_capture_defended_piece() {
    // white king e1, black queen e2 defended by black rook e8
    let (mut bitboards, _) = position(&[
        (4, King, White),
        (12, Queen, Black),
        (60, Rook, Black),
        (63, King, Black),
    ]);
    let moves = bitboards.get_all_legal_moves(White);
    assert_eq!(moves[4] & bit(12), 0);
}

#[test]
fn en_passant_window_opens_and_closes() {
    let mut bitboards = Bitboards::new();
    let mut board = Board::new();
    play(&mut bitboards, &mut board, 51, 35);
    play(&mut bitboards, &mut board, 35, 27);
    assert_eq!(bitboards.en_passant, 0);
    play(&mut bitboards, &mut board, 12, 28);
    assert_eq!(bitboards.en_passant, bit(20));
    play(&mut bitboards, &mut board, 48, 40);
    assert_eq!(bitboards.en_passant, 0);
}

#[test]
fn en_passant_capture_removes_passed_pawn() {
    let mut bitboards = Bitboards::new();
    let mut board = Board::new();
    play(&mut bitboards, &mut board, 51, 35);
    play(&mut bitboards, &mut board, 35, 27);
    play(&mut bitboards, &mut board, 12, 28);
    let moves = bitboards.get_all_legal_moves(Black);
    assert_eq!(moves[27], bit(19) | bit(20));
    play(&mut bitboards, &mut board, 27, 20);
    assert_eq!(board.squares[28], None);
    assert_eq!(board.squares[20], Some(piece(Pawn, Black)));
    assert_eq!(bitboards.all_pieces[0] & bit(28), 0);
    assert_eq!(bitboards.en_passant, 0);
}

#[test]
fn double_advance_without_neighbour_opens_no_window() {
    let mut bitboards = Bitboards::new();
    let mut board = Board::new();
    play(&mut bitboards, &mut board, 12, 28);
    assert_eq!(bitboards.en_passant, 0);
}

#[test]
fn move_from_empty_square_is_rejected() {
    let mut bitboards = Bitboards::new();
    let mut board = Board::new();
    let before = bitboards.all_pieces;
    let squares = board.squares.clone();
    assert_eq!(bitboards.move_piece(&mut board, 20, 28), Err(MoveError::EmptyOrigin));
    assert_eq!(bitboards.all_pieces, before);
    assert_eq!(board.squares, squares);
}

#[test]
fn illegal_destination_is_rejected() {
    let mut bitboards = Bitboards::new();
    let mut board = Board::new();
    let before = bitboards.all_pieces;
    assert_eq!(bitboards.move_piece(&mut board, 12, 36), Err(MoveError::IllegalMove));
    assert_eq!(bitboards.move_piece(&mut board, 0, 8), Err(MoveError::IllegalMove));
    assert_eq!(bitboards.move_piece(&mut board, 2, 20), Err(MoveError::IllegalMove));
    assert_eq!(bitboards.all_pieces, before);
    assert_consistent(&bitboards, &board);
}

#[test]
fn out_of_range_square_is_rejected() {
    let mut bitboards = Bitboards::new();
    let mut board = Board::new();
    assert_eq!(bitboards.move_piece(&mut board, 64, 20), Err(MoveError::OutOfRange));
    assert_eq!(bitboards.move_piece(&mut board, 12, 200), Err(MoveError::OutOfRange));
}

#[test]
fn diverged_board_is_rejected() {
    let mut bitboards = Bitboards::new();
    let mut board = Board::new();
    board.update_square(20, Some(piece(Queen, White)));
    assert_eq!(bitboards.move_piece(&mut board, 12, 28), Err(MoveError::MirrorMismatch));
    assert_eq!(board.squares[12], Some(piece(Pawn, White)));
}

#[test]
fn capture_clears_captured_mask() {
    let mut bitboards = Bitboards::new();
    let mut board = Board::new();
    play(&mut bitboards, &mut board, 12, 28);
    play(&mut bitboards, &mut board, 51, 35);
    play(&mut bitboards, &mut board, 28, 35);
    assert_eq!(bitboards.all_pieces[6] & bit(35), 0);
    assert_eq!(bitboards.all_pieces[0] & bit(35), bit(35));
    assert_eq!(board.squares[35], Some(piece(Pawn, White)));
    assert_eq!(board.squares[28], None);
    assert_eq!(bitboards.checking_pieces, [0, 0]);
}

#[test]
fn moves_keep_masks_disjoint_and_mirrored() {
    let mut bitboards = Bitboards::new();
    let mut board = Board::new();
    for (origin, destination) in [(12, 28), (52, 36), (6, 21), (57, 42), (5, 26), (62, 45), (21, 36)] {
        play(&mut bitboards, &mut board, origin, destination);
    }
    assert_eq!(board.squares[36], Some(piece(Knight, White)));
}

#[test]
fn from_pieces_rejects_bad_masks() {
    let mut overlapping = [0u64; 12];
    overlapping[0] = bit(10);
    overlapping[7] = bit(10);
    assert!(Bitboards::from_pieces(overlapping).is_none());
    let mut two_kings = [0u64; 12];
    two_kings[5] = bit(4) | bit(5);
    assert!(Bitboards::from_pieces(two_kings).is_none());
    assert!(Bitboards::from_pieces([0u64; 12]).is_some());
}

#[test]
fn initial_bitboards() {
    let all = get_initial_bitboards();
    assert_eq!(all, Bitboards::new().all_pieces);
    assert_eq!(all[0], 0xFF00);
    assert_eq!(all[1], bit(0) | bit(7));
    assert_eq!(all[2], bit(1) | bit(6));
    assert_eq!(all[3], bit(2) | bit(5));
    assert_eq!(all[4], bit(3));
    assert_eq!(all[5], bit(4));
    assert_eq!(all[6], 0x00FF_0000_0000_0000);
    assert_eq!(all[7], bit(56) | bit(63));
    assert_eq!(all[11], bit(60));
}

#[test]
fn new_engine_matches_new_board() {
    let bitboards = Bitboards::new();
    let board = Board::new();
    assert_consistent(&bitboards, &board);
    assert_eq!(board.squares[4], Some(piece(King, White)));
    assert_eq!(board.squares[59], Some(piece(Queen, Black)));
    assert_eq!(board.squares[30], None);
    assert_eq!(bitboards.en_passant, 0);
    assert_eq!(bitboards.attacks, [0, 0]);
}

#[test]
fn starting_position_board() {
    let board = initialize_starting_position();
    assert_eq!(board.squares.len(), 64);
    assert_eq!(board.turn_color, White);
    assert_eq!(board.squares[0], Some(piece(Rook, White)));
    assert_eq!(board.squares[57], Some(piece(Knight, Black)));
    assert_eq!(board.squares[61], Some(piece(Bishop, Black)));
}

#[test]
fn all_moves_as_lists() {
    let mut bitboards = Bitboards::new();
    let moves = get_all_moves(&mut bitboards, White);
    assert_eq!(moves.len(), 64);
    assert_eq!(moves[12], vec![20, 28]);
    assert_eq!(moves[1], vec![16, 18]);
    assert!(moves[0].is_empty());
    assert!(moves[52].is_empty());
}

#[test]
fn bitboard_to_indexes() {
    assert_eq!(convert_bitboard_to_indexes(0), Vec::<u8>::new());
    assert_eq!(convert_bitboard_to_indexes(bit(63) | bit(0) | bit(17)), vec![0, 17, 63]);
}

#[test]
fn convert_square_to_bit() {
    assert_eq!(Bitboards::convert_to_bit(0), 1);
    assert_eq!(Bitboards::convert_to_bit(63), 0x8000_0000_0000_0000);
}

#[test]
fn piece_index_round_trip() {
    let pieces = Piece::initialize_all_pieces();
    for (k, p) in pieces.iter().enumerate() {
        assert_eq!(p.to_index(), k);
        assert_eq!(Piece::from_index(k), Some(*p));
    }
    assert_eq!(Piece::from_index(12), None);
    assert_eq!(piece(Rook, White).to_index(), 1);
    assert_eq!(piece(Knight, Black).to_index(), 8);
    assert_eq!(Piece::to_piece_index(Black, King), 11);
}

#[test]
fn colors() {
    assert_eq!(Piece::color_to_index(White), 0);
    assert_eq!(Piece::color_to_index(Black), 1);
    assert_eq!(Piece::get_opposite_color(White), Black);
    assert_eq!(Piece::get_opposite_color(Black), White);
}

#[test]
fn board_updates() {
    let mut board = Board::new();
    assert_eq!(board.toggle_turn_color(), Black);
    assert_eq!(board.toggle_turn_color(), White);
    board.update_can_castle(Black, King, false);
    assert_eq!(board.can_kingside_castle, [true, false]);
    assert_eq!(board.can_queenside_castle, [true, true]);
    board.update_can_castle(White, Queen, false);
    assert_eq!(board.can_queenside_castle, [false, true]);
    board.update_can_castle(White, Pawn, false);
    assert_eq!(board.can_kingside_castle, [true, false]);
    board.update_square(30, Some(piece(Knight, Black)));
    assert_eq!(board.squares[30], Some(piece(Knight, Black)));
    board.update_square(30, None);
    assert_eq!(board.squares[30], None);
}

#[test]
fn pawn_promotes_on_last_rank() {
    let (mut bitboards, mut board) =
        position(&[(4, King, White), (48, Pawn, White), (63, King, Black)]);
    assert_eq!(bitboards.promote_pawn(&mut board, 48, 56, Queen), Ok(()));
    assert_eq!(board.squares[56], Some(piece(Queen, White)));
    assert_eq!(board.squares[48], None);
    assert_eq!(bitboards.all_pieces[4], bit(56));
    assert_eq!(bitboards.all_pieces[0], 0);
    assert_consistent(&bitboards, &board);
}

#[test]
fn black_pawn_promotes_to_knight() {
    let (mut bitboards, mut board) =
        position(&[(4, King, White), (9, Pawn, Black), (63, King, Black)]);
    assert_eq!(bitboards.promote_pawn(&mut board, 9, 1, Knight), Ok(()));
    assert_eq!(board.squares[1], Some(piece(Knight, Black)));
    assert_eq!(bitboards.all_pieces[8], bit(1));
    assert_consistent(&bitboards, &board);
}

#[test]
fn invalid_promotions_are_rejected() {
    let (mut bitboards, mut board) = position(&[
        (4, King, White),
        (48, Pawn, White),
        (56, Rook, Black),
        (40, Rook, White),
        (63, King, Black),
    ]);
    let before = bitboards.all_pieces;
    assert_eq!(bitboards.promote_pawn(&mut board, 48, 56, King), Err(MoveError::InvalidPromotion));
    assert_eq!(bitboards.promote_pawn(&mut board, 40, 32, Queen), Err(MoveError::InvalidPromotion));
    assert_eq!(bitboards.promote_pawn(&mut board, 48, 56, Pawn), Err(MoveError::InvalidPromotion));
    assert_eq!(bitboards.promote_pawn(&mut board, 48, 56, Rook), Err(MoveError::IllegalMove));
    assert_eq!(bitboards.promote_pawn(&mut board, 20, 28, Rook), Err(MoveError::EmptyOrigin));
    assert_eq!(bitboards.all_pieces, before);
    assert_consistent(&bitboards, &board);
}

#[test]
fn squares_and_moves_for_side_to_move() {
    let board = Board::new();
    let mut bitboards = Bitboards::new();
    let snapshot = get_squares_and_moves(&board, &mut bitboards);
    assert_eq!(snapshot.squares, board.squares);
    assert_eq!(snapshot.moves.len(), 64);
    assert_eq!(snapshot.moves[12], bit(20) | bit(28));
    assert_eq!(snapshot.moves[52], 0);
}

#[test]
fn apply_move_passes_the_turn() {
    let mut board = Board::new();
    let mut bitboards = Bitboards::new();
    let snapshot = apply_move(&mut board, &mut bitboards, 12, 28, None).expect("legal");
    assert_eq!(board.turn_color, Black);
    assert_eq!(snapshot.squares[28], Some(piece(Pawn, White)));
    assert_eq!(snapshot.squares[12], None);
    assert_eq!(snapshot.moves[52], bit(44) | bit(36));
    assert_eq!(snapshot.moves[28], 0);
    assert_consistent(&bitboards, &board);
}

#[test]
fn apply_move_rejections_change_nothing() {
    let mut board = Board::new();
    let mut bitboards = Bitboards::new();
    let before = bitboards.all_pieces;
    assert!(matches!(
        apply_move(&mut board, &mut bitboards, 12, 44, None),
        Err(MoveError::IllegalMove)
    ));
    assert!(matches!(
        apply_move(&mut board, &mut bitboards, 12, 20, Some(Queen)),
        Err(MoveError::InvalidPromotion)
    ));
    assert!(matches!(
        apply_move(&mut board, &mut bitboards, 99, 20, None),
        Err(MoveError::OutOfRange)
    ));
    assert_eq!(board.turn_color, White);
    assert_eq!(bitboards.all_pieces, before);
}

#[test]
fn apply_move_with_promotion() {
    let (mut bitboards, mut board) =
        position(&[(4, King, White), (54, Pawn, White), (56, King, Black)]);
    let snapshot = apply_move(&mut board, &mut bitboards, 54, 62, Some(Rook)).expect("legal");
    assert_eq!(snapshot.squares[62], Some(piece(Rook, White)));
    assert_eq!(board.turn_color, Black);
    // the black king on a8 may not step onto the rook's rank
    assert_eq!(snapshot.moves[56] & (bit(57)), 0);
    assert_eq!(snapshot.moves[56], bit(48) | bit(49));
}

#[test]
fn board_from_bitboards_shows_masks() {
    let bitboards = Bitboards::new();
    let board = Board::from_bitboards(&bitboards, Black);
    assert_eq!(board.squares, Board::new().squares);
    assert_eq!(board.turn_color, Black);
    assert_eq!(board.can_kingside_castle, [false, false]);
    assert_consistent(&bitboards, &board);
}
