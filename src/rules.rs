use vstd::prelude::*;

use crate::bits::in_mask;
use crate::geometry::{
    abs, between, diagonal, file, forward, is_square, king_step, knight_jump, pawn_attack,
    pawn_double, pawn_push, rank, straight,
};
use crate::piece::{
    lemma_index_bijection, opposite, piece_index, piece_of_index, Piece, PieceColor, PieceGroup,
};

verus! {

/// The twelve occupancy masks claim each square at most once.
pub open spec fn disjoint(pcs: Seq<u64>) -> bool {
    &&& pcs.len() == 12
    &&& forall|i: int, j: int, s: int|
        0 <= i < 12 && 0 <= j < 12 && i != j && #[trigger] in_mask(pcs[i], s)
            ==> !#[trigger] in_mask(
            pcs[j],
            s,
        )
}

/// The piece identity standing on square `s`, read from the occupancy masks.
pub open spec fn occupant(pcs: Seq<u64>, s: int) -> Option<Piece> {
    if exists|k: int| 0 <= k < 12 && #[trigger] in_mask(pcs[k], s) {
        Some(piece_of_index(choose|k: int| 0 <= k < 12 && #[trigger] in_mask(pcs[k], s)))
    } else {
        None
    }
}

pub open spec fn piece_on(pcs: Seq<u64>, s: int, p: Piece) -> bool {
    occupant(pcs, s) == Some(p)
}

pub open spec fn empty(pcs: Seq<u64>, s: int) -> bool {
    occupant(pcs, s) is None
}

/// A piece of side `c` stands on `s`.
pub open spec fn color_on(pcs: Seq<u64>, s: int, c: PieceColor) -> bool {
    occupant(pcs, s) is Some && occupant(pcs, s)->0.color == c
}

pub open spec fn king_of(c: PieceColor) -> Piece {
    Piece { group: PieceGroup::King, color: c }
}

pub open spec fn is_slider(g: PieceGroup) -> bool {
    g == PieceGroup::Bishop || g == PieceGroup::Rook || g == PieceGroup::Queen
}

/// No piece stands strictly between `a` and `b`.
pub open spec fn clear(pcs: Seq<u64>, a: int, b: int) -> bool {
    forall|t: int| #[trigger] between(a, b, t) ==> empty(pcs, t)
}

/// Geometric reach of a sliding kind from `o` to `d` along an unobstructed line.
pub open spec fn slides(pcs: Seq<u64>, g: PieceGroup, o: int, d: int) -> bool {
    &&& match g {
        PieceGroup::Bishop => diagonal(o, d),
        PieceGroup::Rook => straight(o, d),
        _ => diagonal(o, d) || straight(o, d),
    }
    &&& clear(pcs, o, d)
}

/// A piece `p` on `o` threatens `d`, whoever stands on `d`.
pub open spec fn threatens(pcs: Seq<u64>, o: int, p: Piece, d: int) -> bool {
    match p.group {
        PieceGroup::Pawn => pawn_attack(p.color, o, d),
        PieceGroup::Knight => knight_jump(o, d),
        PieceGroup::King => king_step(o, d),
        _ => slides(pcs, p.group, o, d),
    }
}

/// Some piece of side `c` threatens `d`.
pub open spec fn attacked_by(pcs: Seq<u64>, c: PieceColor, d: int) -> bool {
    exists|o: int, p: Piece| #[trigger] piece_on(pcs, o, p) && p.color == c && #[trigger] threatens(
        pcs,
        o,
        p,
        d,
    )
}

/// Some piece of side `c` on a square below `n` threatens `d`.
pub open spec fn attacked_below(pcs: Seq<u64>, c: PieceColor, d: int, n: int) -> bool {
    exists|o: int, p: Piece|
        o < n && #[trigger] piece_on(pcs, o, p) && p.color == c && #[trigger] threatens(pcs, o, p,
            d)
}

/// Taking the pieces square by square builds up the squares a side threatens.
pub proof fn lemma_attacked_below(pcs: Seq<u64>, c: PieceColor, n: int)
    ensures
        forall|d: int| #[trigger] attacked_below(pcs, c, d, n + 1) <==> (attacked_below(pcs, c, d,
            n)
            || (occupant(pcs, n) is Some && occupant(pcs, n)->0.color == c && threatens(
            pcs,
            n,
            occupant(pcs, n)->0,
            d,
        ))),
        forall|d: int| #[trigger] attacked_below(pcs, c, d, 64) <==> attacked_by(pcs, c, d),
{
    assert forall|d: int| #[trigger] attacked_below(pcs, c, d, n + 1) <==> (attacked_below(
        pcs,
        c,
        d,
        n,
    ) || (occupant(pcs, n) is Some && occupant(pcs, n)->0.color == c && threatens(
        pcs,
        n,
        occupant(pcs, n)->0,
        d,
    ))) by {
        if occupant(pcs, n) is Some && occupant(pcs, n)->0.color == c && threatens(
            pcs,
            n,
            occupant(pcs, n)->0,
            d,
        ) {
            assert(piece_on(pcs, n, occupant(pcs, n)->0));
        }
    }
    assert forall|d: int| #[trigger] attacked_below(pcs, c, d, 64) <==> attacked_by(pcs, c, d) by {
        if attacked_by(pcs, c, d) {
            let (o, p) = choose|o: int, p: Piece|
                #[trigger] piece_on(pcs, o, p) && p.color == c && #[trigger] threatens(pcs, o, p,
                    d);
            let k = choose|k: int| 0 <= k < 12 && #[trigger] in_mask(pcs[k], o);
            assert(o < 64);
        }
    }
}

/// The piece of side `c` on `o` threatens the square of the opposing king.
pub open spec fn checker(pcs: Seq<u64>, c: PieceColor, o: int) -> bool {
    exists|p: Piece, k: int|
        #[trigger] piece_on(pcs, o, p) && p.color == c && #[trigger] piece_on(
            pcs,
            k,
            king_of(opposite(c)),
        ) && threatens(pcs, o, p, k)
}

/// The king of side `c` stands on a square that the other side threatens.
pub open spec fn in_check(pcs: Seq<u64>, c: PieceColor) -> bool {
    exists|k: int| #[trigger] piece_on(pcs, k, king_of(c)) && attacked_by(pcs, opposite(c), k)
}

/// Where the piece `p` on `o` could go by its own movement rule, before the
/// side's safety is considered.
pub open spec fn reaches(pcs: Seq<u64>, ep: u64, o: int, p: Piece, d: int) -> bool {
    match p.group {
        PieceGroup::Pawn => (pawn_push(p.color, o, d) && empty(pcs, d)) || (pawn_double(
            p.color,
            o,
            d,
        ) && empty(pcs, o + 8 * forward(p.color)) && empty(pcs, d)) || (pawn_attack(p.color, o, d)
            && (color_on(pcs, d, opposite(p.color)) || in_mask(ep, d))),
        PieceGroup::Knight => knight_jump(o, d),
        PieceGroup::King => king_step(o, d),
        _ => slides(pcs, p.group, o, d),
    }
}

/// An enemy bishop, rook or queen of side `c` stands on `q`.
pub open spec fn enemy_slider(pcs: Seq<u64>, c: PieceColor, q: int) -> bool {
    color_on(pcs, q, opposite(c)) && is_slider(occupant(pcs, q)->0.group)
}

/// `o` is the only occupied square strictly between `q` and `k`.
pub open spec fn sole_blocker(pcs: Seq<u64>, q: int, k: int, o: int) -> bool {
    between(q, k, o) && forall|t: int| #[trigger] between(q, k, t) && t != o ==> empty(pcs, t)
}

/// A piece of side `c` on `o` that alone shields its king on `k` from an enemy
/// slider on `q` may only move along that line (capturing on `q` included).
pub open spec fn pin_ok(pcs: Seq<u64>, c: PieceColor, o: int, d: int) -> bool {
    forall|q: int, k: int|
        enemy_slider(pcs, c, q) && #[trigger] piece_on(pcs, k, king_of(c))
            && #[trigger] sole_blocker(
            pcs,
            q,
            k,
            o,
        ) ==> between(q, k, d) || d == q || d == k
}

/// Squares that answer a check on side `c`: a checker's square, or a square
/// strictly between a checker and the king.
pub open spec fn answers_check(pcs: Seq<u64>, c: PieceColor, d: int) -> bool {
    checker(pcs, opposite(c), d) || exists|q: int, k: int|
        #[trigger] checker(pcs, opposite(c), q) && #[trigger] piece_on(pcs, k, king_of(c))
            && between(q, k, d)
}

/// A move by a piece other than the king while in check must answer the check.
pub open spec fn check_ok(pcs: Seq<u64>, p: Piece, d: int) -> bool {
    p.group == PieceGroup::King || !in_check(pcs, p.color) || answers_check(pcs, p.color, d)
}

/// The piece `p` on `o` may legally move to `d`.
pub open spec fn legal_for(pcs: Seq<u64>, ep: u64, o: int, p: Piece, d: int) -> bool {
    &&& reaches(pcs, ep, o, p, d)
    &&& !color_on(pcs, d, p.color)
    &&& pin_ok(pcs, p.color, o, d)
    &&& check_ok(pcs, p, d)
    &&& p.group == PieceGroup::King ==> !attacked_by(pcs, opposite(p.color), d)
}

/// A piece of side `c` stands on `o` and may legally move to `d`.
pub open spec fn legal(pcs: Seq<u64>, ep: u64, c: PieceColor, o: int, d: int) -> bool {
    &&& occupant(pcs, o) is Some
    &&& occupant(pcs, o)->0.color == c
    &&& legal_for(pcs, ep, o, occupant(pcs, o)->0, d)
}

/// A legal move leaves its square.
pub proof fn lemma_legal_moves_away(pcs: Seq<u64>, ep: u64, c: PieceColor, o: int, d: int)
    requires
        legal(pcs, ep, c, o, d),
    ensures
        o != d,
        is_square(d),
{
}

/// The square of the pawn taken en passant by a pawn of side `c` landing on `d`.
pub open spec fn passed_square(c: PieceColor, d: int) -> int {
    d - 8 * forward(c)
}

/// The move from `o` to `d` takes a pawn en passant.
pub open spec fn takes_en_passant(pcs: Seq<u64>, ep: u64, o: int, d: int) -> bool {
    &&& occupant(pcs, o) is Some
    &&& occupant(pcs, o)->0.group == PieceGroup::Pawn
    &&& in_mask(ep, d)
    &&& piece_on(
        pcs,
        passed_square(occupant(pcs, o)->0.color, d),
        Piece { group: PieceGroup::Pawn, color: opposite(occupant(pcs, o)->0.color) },
    )
}

/// What stands on `s` after the piece on `o` moves to `d`.
pub open spec fn after_move(pcs: Seq<u64>, ep: u64, o: int, d: int, s: int) -> Option<Piece> {
    if s == d {
        occupant(pcs, o)
    } else if s == o {
        None
    } else if takes_en_passant(pcs, ep, o, d) && s == passed_square(occupant(pcs, o)->0.color, d) {
        None
    } else {
        occupant(pcs, s)
    }
}

/// The move from `o` to `d` is a pawn's two-square advance that lands beside
/// an enemy pawn, which opens an en-passant window on the square passed over.
pub open spec fn opens_en_passant(pcs: Seq<u64>, o: int, d: int) -> bool {
    &&& occupant(pcs, o) is Some
    &&& occupant(pcs, o)->0.group == PieceGroup::Pawn
    &&& pawn_double(occupant(pcs, o)->0.color, o, d)
    &&& exists|n: int|
        #![trigger piece_on(pcs, n, Piece { group: PieceGroup::Pawn, color: opposite(occupant(pcs,
            o)->0.color) })]
        is_square(n) && rank(n) == rank(d) && abs(file(n) - file(d)) == 1 && piece_on(
            pcs,
            n,
            Piece { group: PieceGroup::Pawn, color: opposite(occupant(pcs, o)->0.color) },
        )
}

/// Mask facts and occupants agree: each mask marks exactly the squares whose
/// occupant is its identity.
pub open spec fn represents(pcs: Seq<u64>, f: spec_fn(int) -> Option<Piece>) -> bool {
    &&& pcs.len() == 12
    &&& forall|k: int, s: int|
        0 <= k < 12 && is_square(s) ==> (#[trigger] in_mask(pcs[k], s) <==> f(s) == Some(
            piece_of_index(k),
        ))
}

/// Masks that follow a per-square description are disjoint and read back as it.
pub proof fn lemma_represents(pcs: Seq<u64>, f: spec_fn(int) -> Option<Piece>)
    requires
        represents(pcs, f),
    ensures
        disjoint(pcs),
        forall|s: int| is_square(s) ==> #[trigger] occupant(pcs, s) == f(s),
{
    lemma_index_bijection();
    assert forall|s: int| is_square(s) implies #[trigger] occupant(pcs, s) == f(s) by {
        if f(s) is Some {
            let p = f(s)->0;
            assert(in_mask(pcs[piece_index(p)], s));
        }
    }
}

/// With disjoint masks, a square's occupant is the identity whose mask marks it.
pub proof fn lemma_occupant(pcs: Seq<u64>)
    requires
        disjoint(pcs),
    ensures
        forall|s: int, p: Piece| #[trigger] piece_on(pcs, s, p) <==> in_mask(pcs[piece_index(p)],
            s),
        forall|s: int, k: int|
            0 <= k < 12 && #[trigger] in_mask(pcs[k], s) ==> occupant(pcs, s) == Some(
                piece_of_index(k),
            ),
        represents(pcs, |s: int| occupant(pcs, s)),
{
    lemma_index_bijection();
    assert forall|s: int, k: int|
        0 <= k < 12 && #[trigger] in_mask(pcs[k], s) implies occupant(pcs, s) == Some(
        piece_of_index(k),
    ) by {
        let j = choose|j: int| 0 <= j < 12 && #[trigger] in_mask(pcs[j], s);
        assert(j == k);
    }
    assert forall|s: int, p: Piece| #[trigger] piece_on(pcs, s, p) <==> in_mask(
        pcs[piece_index(p)],
        s,
    ) by {
        if in_mask(pcs[piece_index(p)], s) {
            assert(occupant(pcs, s) == Some(piece_of_index(piece_index(p))));
        }
    }
}

} // verus!
