use vstd::prelude::*;

use crate::piece::PieceColor;

verus! {

/// Squares are numbered 0 to 63, eight to a rank, starting from White's
/// queen-side corner: file is the column, rank the row.
pub open spec fn file(s: int) -> int {
    s % 8
}

pub open spec fn rank(s: int) -> int {
    s / 8
}

pub open spec fn abs(x: int) -> int {
    if x < 0 {
        -x
    } else {
        x
    }
}

pub open spec fn is_square(s: int) -> bool {
    0 <= s < 64
}

pub open spec fn squares(a: int, b: int) -> bool {
    is_square(a) && is_square(b)
}

pub open spec fn knight_jump(o: int, d: int) -> bool {
    squares(o, d) && ((abs(file(d) - file(o)) == 1 && abs(rank(d) - rank(o)) == 2) || (abs(
        file(d) - file(o),
    ) == 2 && abs(rank(d) - rank(o)) == 1))
}

pub open spec fn king_step(o: int, d: int) -> bool {
    squares(o, d) && o != d && abs(file(d) - file(o)) <= 1 && abs(rank(d) - rank(o)) <= 1
}

/// Rank direction in which pawns of a side advance.
pub open spec fn forward(c: PieceColor) -> int {
    match c {
        PieceColor::White => 1,
        PieceColor::Black => -1,
    }
}

/// Rank on which pawns of a side start.
pub open spec fn pawn_rank(c: PieceColor) -> int {
    match c {
        PieceColor::White => 1,
        PieceColor::Black => 6,
    }
}

/// `d` is one of the two squares diagonally in front of a pawn of side `c` on `o`.
pub open spec fn pawn_attack(c: PieceColor, o: int, d: int) -> bool {
    squares(o, d) && abs(file(d) - file(o)) == 1 && rank(d) - rank(o) == forward(c)
}

/// `d` is the square straight in front of a pawn of side `c` on `o`.
pub open spec fn pawn_push(c: PieceColor, o: int, d: int) -> bool {
    squares(o, d) && file(d) == file(o) && rank(d) - rank(o) == forward(c)
}

/// `d` is two squares straight in front of a pawn of side `c` still on its starting rank.
pub open spec fn pawn_double(c: PieceColor, o: int, d: int) -> bool {
    squares(o, d) && rank(o) == pawn_rank(c) && file(d) == file(o) && rank(d) - rank(o) == 2
        * forward(c)
}

/// Same rank or same file.
pub open spec fn straight(o: int, d: int) -> bool {
    squares(o, d) && o != d && (file(o) == file(d) || rank(o) == rank(d))
}

pub open spec fn diagonal(o: int, d: int) -> bool {
    squares(o, d) && o != d && abs(file(d) - file(o)) == abs(rank(d) - rank(o))
}

pub open spec fn strictly_between(x: int, a: int, b: int) -> bool {
    (a < x && x < b) || (b < x && x < a)
}

/// `t` lies strictly between `a` and `b` on the rank, file or diagonal they share.
pub open spec fn between(a: int, b: int, t: int) -> bool {
    squares(a, b) && is_square(t) && ((file(a) == file(b) && file(t) == file(a)
        && strictly_between(rank(t), rank(a), rank(b))) || (rank(a) == rank(b) && rank(t)
        == rank(a) && strictly_between(file(t), file(a), file(b))) || (diagonal(a, b) && abs(
        file(t) - file(a),
    ) == abs(rank(t) - rank(a)) && abs(file(t) - file(b)) == abs(rank(t) - rank(b))
        && strictly_between(file(t), file(a), file(b)) && strictly_between(
        rank(t),
        rank(a),
        rank(b),
    )))
}

fn distance(a: u8, b: u8) -> (r: u8)
    ensures
        r as int == abs(a - b),
{
    if a >= b {
        a - b
    } else {
        b - a
    }
}

fn is_strictly_between(x: u8, a: u8, b: u8) -> (r: bool)
    ensures
        r == strictly_between(x as int, a as int, b as int),
{
    (a < x && x < b) || (b < x && x < a)
}

pub fn is_knight_jump(o: u8, d: u8) -> (r: bool)
    requires
        o < 64,
        d < 64,
    ensures
        r == knight_jump(o as int, d as int),
{
    let df = distance(o % 8, d % 8);
    let dr = distance(o / 8, d / 8);
    (df == 1 && dr == 2) || (df == 2 && dr == 1)
}

pub fn is_king_step(o: u8, d: u8) -> (r: bool)
    requires
        o < 64,
        d < 64,
    ensures
        r == king_step(o as int, d as int),
{
    o != d && distance(o % 8, d % 8) <= 1 && distance(o / 8, d / 8) <= 1
}

fn rank_ahead(color: PieceColor, o: u8, d: u8, steps: u8) -> (r: bool)
    requires
        o < 64,
        d < 64,
        steps <= 2,
    ensures
        r == (rank(d as int) - rank(o as int) == steps * forward(color)),
{
    match color {
        PieceColor::White => d / 8 == o / 8 + steps,
        PieceColor::Black => d / 8 + steps == o / 8,
    }
}

pub fn is_pawn_attack(color: PieceColor, o: u8, d: u8) -> (r: bool)
    requires
        o < 64,
        d < 64,
    ensures
        r == pawn_attack(color, o as int, d as int),
{
    distance(o % 8, d % 8) == 1 && rank_ahead(color, o, d, 1)
}

pub fn is_pawn_push(color: PieceColor, o: u8, d: u8) -> (r: bool)
    requires
        o < 64,
        d < 64,
    ensures
        r == pawn_push(color, o as int, d as int),
{
    o % 8 == d % 8 && rank_ahead(color, o, d, 1)
}

pub fn is_pawn_double(color: PieceColor, o: u8, d: u8) -> (r: bool)
    requires
        o < 64,
        d < 64,
    ensures
        r == pawn_double(color, o as int, d as int),
{
    let start: u8 = match color {
        PieceColor::White => 1,
        PieceColor::Black => 6,
    };
    o / 8 == start && o % 8 == d % 8 && rank_ahead(color, o, d, 2)
}

pub fn is_straight(o: u8, d: u8) -> (r: bool)
    requires
        o < 64,
        d < 64,
    ensures
        r == straight(o as int, d as int),
{
    o != d && (o % 8 == d % 8 || o / 8 == d / 8)
}

pub fn is_diagonal(o: u8, d: u8) -> (r: bool)
    requires
        o < 64,
        d < 64,
    ensures
        r == diagonal(o as int, d as int),
{
    o != d && distance(o % 8, d % 8) == distance(o / 8, d / 8)
}

pub fn is_between(a: u8, b: u8, t: u8) -> (r: bool)
    requires
        a < 64,
        b < 64,
        t < 64,
    ensures
        r == between(a as int, b as int, t as int),
{
    let (fa, fb, ft) = (a % 8, b % 8, t % 8);
    let (ra, rb, rt) = (a / 8, b / 8, t / 8);
    (fa == fb && ft == fa && is_strictly_between(rt, ra, rb)) || (ra == rb && rt == ra
        && is_strictly_between(ft, fa, fb)) || (is_diagonal(a, b) && distance(ft, fa) == distance(
        rt,
        ra,
    ) && distance(ft, fb) == distance(rt, rb) && is_strictly_between(ft, fa, fb)
        && is_strictly_between(rt, ra, rb))
}

} // verus!
