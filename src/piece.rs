use vstd::prelude::*;

verus! {

/// The six kinds of chess piece.
#[derive(Clone, Copy, Debug, PartialEq, Eq, Structural, Hash)]
pub enum PieceGroup {
    Pawn,
    Knight,
    Bishop,
    Rook,
    Queen,
    King,
}

/// The two sides.
#[derive(Clone, Copy, Debug, PartialEq, Eq, Structural, Hash)]
pub enum PieceColor {
    White,
    Black,
}

/// A piece identity: its kind and its side.
#[derive(Clone, Copy, Debug, PartialEq, Eq, Structural, Hash)]
pub struct Piece {
    pub group: PieceGroup,
    pub color: PieceColor,
}

/// Position of a kind within one side's block of mask indices.
pub open spec fn group_offset(g: PieceGroup) -> int {
    match g {
        PieceGroup::Pawn => 0,
        PieceGroup::Rook => 1,
        PieceGroup::Knight => 2,
        PieceGroup::Bishop => 3,
        PieceGroup::Queen => 4,
        PieceGroup::King => 5,
    }
}

pub open spec fn color_index(c: PieceColor) -> int {
    match c {
        PieceColor::White => 0,
        PieceColor::Black => 1,
    }
}

pub open spec fn opposite(c: PieceColor) -> PieceColor {
    match c {
        PieceColor::White => PieceColor::Black,
        PieceColor::Black => PieceColor::White,
    }
}

/// Mask index of a piece identity: White kinds 0 to 5, Black kinds 6 to 11.
pub open spec fn piece_index(p: Piece) -> int {
    group_offset(p.group) + 6 * color_index(p.color)
}

/// The piece identity that owns mask index `i` (meaningful for `0 <= i < 12`).
pub open spec fn piece_of_index(i: int) -> Piece {
    Piece {
        group: if i % 6 == 0 {
            PieceGroup::Pawn
        } else if i % 6 == 1 {
            PieceGroup::Rook
        } else if i % 6 == 2 {
            PieceGroup::Knight
        } else if i % 6 == 3 {
            PieceGroup::Bishop
        } else if i % 6 == 4 {
            PieceGroup::Queen
        } else {
            PieceGroup::King
        },
        color: if i < 6 { PieceColor::White } else { PieceColor::Black },
    }
}

impl Piece {
    pub fn to_index(&self) -> (r: usize)
        ensures
            r as int == piece_index(*self),
            r < 12,
    {
        let piece_index: usize = match self.group {
            PieceGroup::Pawn => 0,
            PieceGroup::Rook => 1,
            PieceGroup::Knight => 2,
            PieceGroup::Bishop => 3,
            PieceGroup::Queen => 4,
            PieceGroup::King => 5,
        };
        piece_index + match self.color {
            PieceColor::White => 0,
            PieceColor::Black => 6,
        }
    }

    /// Mask index of the piece of `color` and `group`.
    pub fn to_piece_index(color: PieceColor, group: PieceGroup) -> (r: usize)
        ensures
            r as int == piece_index(Piece { group, color }),
            r < 12,
    {
        Piece { group, color }.to_index()
    }

    /// The piece identity of mask index `index`; none past the twelve identities.
    pub fn from_index(index: usize) -> (r: Option<Piece>)
        ensures
            index < 12 ==> r == Some(piece_of_index(index as int)),
            index >= 12 ==> r is None,
    {
        if index >= 12 {
            return None;
        }
        let group = match index % 6 {
            0 => PieceGroup::Pawn,
            1 => PieceGroup::Rook,
            2 => PieceGroup::Knight,
            3 => PieceGroup::Bishop,
            4 => PieceGroup::Queen,
            _ => PieceGroup::King,
        };
        let color = if index < 6 {
            PieceColor::White
        } else {
            PieceColor::Black
        };
        Some(Piece { group, color })
    }

    /// All twelve piece identities, in mask-index order.
    pub fn initialize_all_pieces() -> (r: [Piece; 12])
        ensures
            forall|k: int| 0 <= k < 12 ==> #[trigger] r@[k] == piece_of_index(k),
    {
        let w = PieceColor::White;
        let b = PieceColor::Black;
        let r = [
            Piece { color: w, group: PieceGroup::Pawn },
            Piece { color: w, group: PieceGroup::Rook },
            Piece { color: w, group: PieceGroup::Knight },
            Piece { color: w, group: PieceGroup::Bishop },
            Piece { color: w, group: PieceGroup::Queen },
            Piece { color: w, group: PieceGroup::King },
            Piece { color: b, group: PieceGroup::Pawn },
            Piece { color: b, group: PieceGroup::Rook },
            Piece { color: b, group: PieceGroup::Knight },
            Piece { color: b, group: PieceGroup::Bishop },
            Piece { color: b, group: PieceGroup::Queen },
            Piece { color: b, group: PieceGroup::King },
        ];
        assert forall|k: int| 0 <= k < 12 implies #[trigger] r@[k] == piece_of_index(k) by {
            assert(r@[k] == r[k]);
        }
        r
    }

    pub fn color_to_index(piece_color: PieceColor) -> (r: usize)
        ensures
            r as int == color_index(piece_color),
    {
        match piece_color {
            PieceColor::White => 0,
            PieceColor::Black => 1,
        }
    }

    pub fn get_opposite_color(piece_color: PieceColor) -> (r: PieceColor)
        ensures
            r == opposite(piece_color),
    {
        match piece_color {
            PieceColor::White => PieceColor::Black,
            PieceColor::Black => PieceColor::White,
        }
    }
}

/// The mask index and the identity it stands for map one to one.
pub proof fn lemma_index_bijection()
    ensures
        forall|p: Piece| 0 <= #[trigger] piece_index(p) < 12,
        forall|p: Piece| #[trigger] piece_of_index(piece_index(p)) == p,
        forall|k: int| 0 <= k < 12 ==> #[trigger] piece_index(piece_of_index(k)) == k,
{
}

} // verus!
