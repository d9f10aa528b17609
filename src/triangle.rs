use vstd::prelude::*;

use crate::piece::{bishop_spec, knight_spec, moves_spec, rook_spec, Piece, PieceType};
use crate::point::Point;

verus! {

/// How many of the squares `rs`, when a piece of kind `kind` stands there,
/// attack `target`.
pub open spec fn attack_count(rs: Seq<Point>, kind: PieceType, target: Point, b: Point) -> nat
    decreases rs.len(),
{
    if rs.len() == 0 {
        0
    } else {
        attack_count(rs.drop_last(), kind, target, b) + if moves_spec(
            Piece { piece_type: kind, p: rs.last() },
            b,
        ).contains(target) {
            1nat
        } else {
            0nat
        }
    }
}

/// Triangles that close on the knight square `k` through one intermediate
/// square `q`: a bishop on `q` then a rook, and a rook on `q` then a bishop.
pub open spec fn via_square(q: Point, k: Point, b: Point) -> nat {
    attack_count(bishop_spec(q, b), PieceType::Rook, k, b) + attack_count(
        rook_spec(q, b),
        PieceType::Bishop,
        k,
        b,
    )
}

/// Triangles on the knight square `k` through each of the squares `qs`.
pub open spec fn via_count(qs: Seq<Point>, k: Point, b: Point) -> nat
    decreases qs.len(),
{
    if qs.len() == 0 {
        0
    } else {
        via_count(qs.drop_last(), k, b) + via_square(qs.last(), k, b)
    }
}

/// Triangles with the knight on `k`.
pub open spec fn square_count(k: Point, b: Point) -> nat {
    via_count(knight_spec(k, b), k, b)
}

/// Triangles with the knight on column `x`, row below `y_end`.
pub open spec fn column_count(x: int, y_end: int, b: Point) -> nat
    decreases y_end,
{
    if y_end <= 0 {
        0
    } else {
        column_count(x, y_end - 1, b) + square_count(Point(x as i32, (y_end - 1) as i32), b)
    }
}

/// Triangles with the knight on a column below `x_end`.
pub open spec fn board_count(x_end: int, b: Point) -> nat
    decreases x_end,
{
    if x_end <= 0 {
        0
    } else {
        board_count(x_end - 1, b) + column_count(x_end - 1, b.1 as int, b)
    }
}

/// Knight–bishop–rook triangles on an `n × m` board.
pub open spec fn triangle_count(n: i32, m: i32) -> nat {
    board_count(n as int, Point(n, m))
}

proof fn lemma_via_prefix(qs: Seq<Point>, i: int, k: Point, b: Point)
    requires
        0 <= i <= qs.len(),
    ensures
        via_count(qs.take(i), k, b) <= via_count(qs, k, b),
    decreases qs.len(),
{
    if i < qs.len() {
        lemma_via_prefix(qs.drop_last(), i, k, b);
        assert(qs.drop_last().take(i) =~= qs.take(i));
    } else {
        assert(qs.take(i) =~= qs);
    }
}

proof fn lemma_column_monotone(x: int, y1: int, y2: int, b: Point)
    requires
        y1 <= y2,
    ensures
        column_count(x, y1, b) <= column_count(x, y2, b),
    decreases y2 - y1,
{
    if y1 < y2 {
        lemma_column_monotone(x, y1, y2 - 1, b);
    }
}

proof fn lemma_board_monotone(x1: int, x2: int, b: Point)
    requires
        x1 <= x2,
    ensures
        board_count(x1, b) <= board_count(x2, b),
    decreases x2 - x1,
{
    if x1 < x2 {
        lemma_board_monotone(x1, x2 - 1, b);
    }
}

/// How many of the squares `rs` attack `target` with a `kind` on them.
fn count_attacks(rs: &Vec<Point>, kind: PieceType, target: &Point, board_size: &Point) -> (r: u64)
    ensures
        r == attack_count(rs@, kind, *target, *board_size),
{
    let mut c: u64 = 0;
    let mut i: usize = 0;
    while i < rs.len()
        invariant
            i <= rs@.len(),
            c <= i,
            c == attack_count(rs@.take(i as int), kind, *target, *board_size),
        decreases rs@.len() - i,
    {
        let piece = Piece::new(rs[i], kind);
        assert(rs@.take(i + 1).drop_last() =~= rs@.take(i as int));
        if piece.can_attack(target, board_size) {
            c = c + 1;
        }
        i = i + 1;
    }
    assert(rs@.take(i as int) =~= rs@);
    c
}

/// Triangles with the knight on `k`.
fn triangles_at(k: Point, board_size: &Point) -> (r: u64)
    requires
        square_count(k, *board_size) <= i32::MAX,
    ensures
        r == square_count(k, *board_size),
{
    let knight = Piece::new(k, PieceType::Knight);
    let qs = knight.next_moves(board_size);
    let mut c: u64 = 0;
    let mut i: usize = 0;
    while i < qs.len()
        invariant
            i <= qs@.len(),
            qs@ == knight_spec(k, *board_size),
            via_count(qs@, k, *board_size) <= i32::MAX,
            c == via_count(qs@.take(i as int), k, *board_size),
        decreases qs@.len() - i,
    {
        let q = qs[i];
        let bishop_moves = Piece::new(q, PieceType::Bishop).next_moves(board_size);
        let from_bishop = count_attacks(&bishop_moves, PieceType::Rook, &k, board_size);
        let rook_moves = Piece::new(q, PieceType::Rook).next_moves(board_size);
        let from_rook = count_attacks(&rook_moves, PieceType::Bishop, &k, board_size);
        proof {
            assert(qs@.take(i + 1).drop_last() =~= qs@.take(i as int));
            lemma_via_prefix(qs@, i + 1, k, *board_size);
        }
        c = c + from_bishop + from_rook;
        i = i + 1;
    }
    assert(qs@.take(i as int) =~= qs@);
    c
}

/// The number of placements of a knight, then a bishop or rook on a square
/// the knight attacks, then the other of the two on a square that one
/// attacks, such that the last piece attacks the knight's square, on an
/// `n × m` board. Boards with a side of zero or less hold no triangle.
#[allow(non_snake_case)]
pub fn chessTriangle(n: i32, m: i32) -> (r: i32)
    requires
        triangle_count(n, m) <= i32::MAX,
    ensures
        r == triangle_count(n, m),
{
    let board_size = Point(n, m);
    let ghost b = board_size;
    let mut total: i32 = 0;
    let mut x: i32 = 0;
    while x < n
        invariant
            board_size == Point(n, m),
            b == board_size,
            0 <= x,
            x <= n || x == 0,
            board_count(n as int, b) <= i32::MAX,
            total == board_count(x as int, b),
        decreases n - x,
    {
        let mut y: i32 = 0;
        while y < m
            invariant
                board_size == Point(n, m),
                b == board_size,
                0 <= x < n,
                0 <= y,
                y <= m || y == 0,
                board_count(n as int, b) <= i32::MAX,
                total == board_count(x as int, b) + column_count(x as int, y as int, b),
            decreases m - y,
        {
            proof {
                lemma_column_monotone(x as int, y + 1, m as int, b);
                lemma_board_monotone(x + 1, n as int, b);
            }
            let c = triangles_at(Point(x, y), &board_size);
            total = total + c as i32;
            y = y + 1;
        }
        assert(column_count(x as int, y as int, b) == column_count(x as int, m as int, b));
        x = x + 1;
    }
    total
}

} // verus!
