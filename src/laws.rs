use vstd::prelude::*;

use crate::bitboards::single_kings;
use crate::geometry::between;
use crate::piece::{opposite, PieceColor, PieceGroup};
use crate::rules::{
    attacked_by, checker, color_on, disjoint, enemy_slider, in_check, is_slider, king_of, legal,
    occupant, piece_on, sole_blocker, threatens,
};

verus! {

/// A piece that alone stands between its king and an enemy bishop, rook or
/// queen on a shared rank, file or diagonal may only move to a square of
/// that line: strictly between the two, or onto the enemy piece.
pub proof fn lemma_pinned_piece_stays_on_line(
    pcs: Seq<u64>,
    ep: u64,
    c: PieceColor,
    o: int,
    q: int,
    k: int,
    d: int,
)
    requires
        disjoint(pcs),
        enemy_slider(pcs, c, q),
        piece_on(pcs, k, king_of(c)),
        sole_blocker(pcs, q, k, o),
        legal(pcs, ep, c, o, d),
    ensures
        between(q, k, d) || d == q,
{
    assert(color_on(pcs, k, c));
}

/// When exactly one enemy piece gives check, every legal move of a piece
/// other than the king takes the checker or, if the checker is a bishop,
/// rook or queen, may also land strictly between it and the king; against a
/// knight or pawn only taking it answers.
pub proof fn lemma_single_check_answered(
    pcs: Seq<u64>,
    ep: u64,
    c: PieceColor,
    q: int,
    k: int,
    o: int,
    d: int,
)
    requires
        disjoint(pcs),
        single_kings(pcs),
        piece_on(pcs, k, king_of(c)),
        checker(pcs, opposite(c), q),
        forall|q2: int| #[trigger] checker(pcs, opposite(c), q2) ==> q2 == q,
        legal(pcs, ep, c, o, d),
        occupant(pcs, o)->0.group != PieceGroup::King,
    ensures
        d == q || between(q, k, d),
        !is_slider(occupant(pcs, q)->0.group) ==> d == q,
{
    let (p, k2) = choose|p: crate::piece::Piece, k2: int|
        #[trigger] piece_on(pcs, q, p) && p.color == opposite(c) && #[trigger] piece_on(
            pcs,
            k2,
            king_of(opposite(opposite(c))),
        ) && threatens(pcs, q, p, k2);
    assert(opposite(opposite(c)) == c);
    assert(k2 == k);
    assert(attacked_by(pcs, opposite(c), k));
    assert(in_check(pcs, c));
    if d != q {
        let (q2, k3) = choose|q2: int, k3: int|
            #[trigger] checker(pcs, opposite(c), q2) && #[trigger] piece_on(pcs, k3, king_of(c))
                && between(q2, k3, d);
        assert(q2 == q);
        assert(k3 == k);
    }
}

} // verus!
