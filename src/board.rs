use vstd::prelude::*;

use crate::bitboards::Bitboards;
use crate::opening::{initial_occupant, starting_occupant};
use crate::piece::{color_index, opposite, Piece, PieceColor, PieceGroup};
use crate::rules::{disjoint, occupant};

verus! {

/// The dense per-square view of the game: what stands on each of the 64
/// squares, whose turn it is, and which castling rights remain.
pub struct Board {
    pub squares: Vec<Option<Piece>>,
    pub turn_color: PieceColor,
    /// Indexed by `Piece::color_to_index`.
    pub can_kingside_castle: [bool; 2],
    /// Indexed by `Piece::color_to_index`.
    pub can_queenside_castle: [bool; 2],
}

/// The board array shows exactly the pieces that the occupancy masks `pcs` place.
pub open spec fn mirrors(squares: Seq<Option<Piece>>, pcs: Seq<u64>) -> bool {
    &&& squares.len() == 64
    &&& forall|s: int| 0 <= s < 64 ==> #[trigger] squares[s] == occupant(pcs, s)
}

impl Board {
    /// The opening position with White to move and every castling right.
    pub fn new() -> (r: Self)
        ensures
            r.squares@.len() == 64,
            forall|s: int| 0 <= s < 64 ==> #[trigger] r.squares@[s] == initial_occupant(s),
            r.turn_color == PieceColor::White,
            r.can_kingside_castle@ == seq![true, true],
            r.can_queenside_castle@ == seq![true, true],
    {
        Self {
            squares: Board::initialize_starting_squares(),
            turn_color: PieceColor::White,
            can_kingside_castle: [true, true],
            can_queenside_castle: [true, true],
        }
    }

    /// The board array that shows what `bitboards` holds, with `turn_color`
    /// to move and no castling rights.
    pub fn from_bitboards(bitboards: &Bitboards, turn_color: PieceColor) -> (r: Self)
        requires
            disjoint(bitboards.pieces()),
        ensures
            mirrors(r.squares@, bitboards.pieces()),
            r.turn_color == turn_color,
            r.can_kingside_castle@ == seq![false, false],
            r.can_queenside_castle@ == seq![false, false],
    {
        let mut squares: Vec<Option<Piece>> = Vec::new();
        let mut s: u8 = 0;
        while s < 64
            invariant
                s <= 64,
                disjoint(bitboards.pieces()),
                squares@.len() == s,
                forall|t: int|
                    0 <= t < s ==> #[trigger] squares@[t] == occupant(bitboards.pieces(), t),
            decreases 64 - s,
        {
            squares.push(bitboards.get_occupant(s));
            s += 1;
        }
        let r = Self {
            squares,
            turn_color,
            can_kingside_castle: [false, false],
            can_queenside_castle: [false, false],
        };
        assert(r.can_kingside_castle@ =~= seq![false, false]);
        assert(r.can_queenside_castle@ =~= seq![false, false]);
        r
    }

    /// Records a castling right of `color` on the side of `side`, which names
    /// the king's or the queen's wing; any other kind changes nothing.
    pub fn update_can_castle(&mut self, color: PieceColor, side: PieceGroup, update_value: bool)
        ensures
            final(self).squares == old(self).squares,
            final(self).turn_color == old(self).turn_color,
            side == PieceGroup::King ==> final(self).can_kingside_castle@ == old(
                self,
            ).can_kingside_castle@.update(color_index(color), update_value)
                && final(self).can_queenside_castle == old(self).can_queenside_castle,
            side == PieceGroup::Queen ==> final(self).can_queenside_castle@ == old(
                self,
            ).can_queenside_castle@.update(color_index(color), update_value)
                && final(self).can_kingside_castle == old(self).can_kingside_castle,
            side != PieceGroup::King && side != PieceGroup::Queen ==> *final(self) == *old(self),
    {
        match side {
            PieceGroup::King => {
                self.can_kingside_castle[Piece::color_to_index(color)] = update_value;
            },
            PieceGroup::Queen => {
                self.can_queenside_castle[Piece::color_to_index(color)] = update_value;
            },
            _ => {},
        }
    }

    /// Passes the turn to the other side and returns the side now to move.
    pub fn toggle_turn_color(&mut self) -> (r: PieceColor)
        ensures
            final(self).turn_color == opposite(old(self).turn_color),
            r == final(self).turn_color,
            final(self).squares == old(self).squares,
            final(self).can_kingside_castle == old(self).can_kingside_castle,
            final(self).can_queenside_castle == old(self).can_queenside_castle,
    {
        self.turn_color = Piece::get_opposite_color(self.turn_color);
        self.turn_color
    }

    /// Sets what stands on `square`.
    pub fn update_square(&mut self, square: u8, update_to: Option<Piece>)
        requires
            (square as int) < old(self).squares@.len(),
        ensures
            final(self).squares@ == old(self).squares@.update(square as int, update_to),
            final(self).turn_color == old(self).turn_color,
            final(self).can_kingside_castle == old(self).can_kingside_castle,
            final(self).can_queenside_castle == old(self).can_queenside_castle,
    {
        self.squares.set(square as usize, update_to);
    }

    /// The 64 squares of the opening position.
    pub fn initialize_starting_squares() -> (r: Vec<Option<Piece>>)
        ensures
            r@.len() == 64,
            forall|s: int| 0 <= s < 64 ==> #[trigger] r@[s] == initial_occupant(s),
    {
        let mut squares: Vec<Option<Piece>> = Vec::new();
        let mut s: u8 = 0;
        while s < 64
            invariant
                s <= 64,
                squares@.len() == s,
                forall|t: int| 0 <= t < s ==> #[trigger] squares@[t] == initial_occupant(t),
            decreases 64 - s,
        {
            squares.push(starting_occupant(s));
            s += 1;
        }
        squares
    }
}

} // verus!
