use vstd::prelude::*;

use crate::piece::{
    is_direction, knight_dx, knight_dy, knight_keeps, knight_prefix, moves_spec, ray, ray_len,
    Piece, PieceType,
};
use crate::point::Point;
use crate::triangle::{
    attack_count, board_count, column_count, square_count, triangle_count, via_count, via_square,
};

verus! {

/// The mirror image of a square (or of board bounds) in the main diagonal.
pub open spec fn transpose(p: Point) -> Point {
    Point(p.1, p.0)
}

proof fn lemma_ray_transpose(p: Point, dx: int, dy: int, b: Point)
    requires
        is_direction(dx, dy),
    ensures
        ray(transpose(p), dy, dx, transpose(b)) == ray(p, dx, dy, b).map_values(
            |e: Point| transpose(e),
        ),
{
    assert(ray_len(transpose(p), dy, dx, transpose(b)) == ray_len(p, dx, dy, b));
    assert(ray(transpose(p), dy, dx, transpose(b)) =~= ray(p, dx, dy, b).map_values(
        |e: Point| transpose(e),
    ));
}

proof fn lemma_contains_append(s: Seq<Point>, t: Seq<Point>, x: Point)
    ensures
        (s + t).contains(x) <==> s.contains(x) || t.contains(x),
{
    if s.contains(x) {
        let i = choose|i: int| 0 <= i < s.len() && s[i] == x;
        assert((s + t)[i] == x);
    }
    if t.contains(x) {
        let i = choose|i: int| 0 <= i < t.len() && t[i] == x;
        assert((s + t)[s.len() + i] == x);
    }
    if (s + t).contains(x) {
        let i = choose|i: int| 0 <= i < (s + t).len() && (s + t)[i] == x;
        if i < s.len() {
            assert(s[i] == x);
        } else {
            assert(t[i - s.len()] == x);
        }
    }
}

proof fn lemma_contains_transpose(s: Seq<Point>, x: Point)
    ensures
        s.map_values(|e: Point| transpose(e)).contains(transpose(x)) <==> s.contains(x),
{
    let m = s.map_values(|e: Point| transpose(e));
    if s.contains(x) {
        let i = choose|i: int| 0 <= i < s.len() && s[i] == x;
        assert(m[i] == transpose(x));
    }
    if m.contains(transpose(x)) {
        let i = choose|i: int| 0 <= i < m.len() && m[i] == transpose(x);
        assert(s[i] == x);
    }
}

proof fn lemma_four_contains(a: Seq<Point>, c: Seq<Point>, d: Seq<Point>, e: Seq<Point>, x: Point)
    ensures
        (a + c + d + e).contains(x) <==> a.contains(x) || c.contains(x) || d.contains(x)
            || e.contains(x),
{
    lemma_contains_append(a, c, x);
    lemma_contains_append(a + c, d, x);
    lemma_contains_append(a + c + d, e, x);
}

/// A bishop or rook attacks the same squares, mirrored, on the mirrored board.
proof fn lemma_slider_attack_transpose(kind: PieceType, q: Point, t: Point, b: Point)
    requires
        kind != PieceType::Knight,
    ensures
        moves_spec(Piece { piece_type: kind, p: transpose(q) }, transpose(b)).contains(
            transpose(t),
        ) == moves_spec(Piece { piece_type: kind, p: q }, b).contains(t),
{
    let tq = transpose(q);
    let tb = transpose(b);
    let tt = transpose(t);
    if kind == PieceType::Bishop {
        lemma_ray_transpose(q, -1, -1, b);
        lemma_ray_transpose(q, 1, -1, b);
        lemma_ray_transpose(q, -1, 1, b);
        lemma_ray_transpose(q, 1, 1, b);
        lemma_contains_transpose(ray(q, -1, -1, b), t);
        lemma_contains_transpose(ray(q, 1, -1, b), t);
        lemma_contains_transpose(ray(q, -1, 1, b), t);
        lemma_contains_transpose(ray(q, 1, 1, b), t);
        lemma_four_contains(
            ray(tq, -1, -1, tb),
            ray(tq, -1, 1, tb),
            ray(tq, 1, -1, tb),
            ray(tq, 1, 1, tb),
            tt,
        );
        lemma_four_contains(ray(q, -1, -1, b), ray(q, -1, 1, b), ray(q, 1, -1, b), ray(q, 1, 1, b), t);
    } else {
        lemma_ray_transpose(q, 0, -1, b);
        lemma_ray_transpose(q, -1, 0, b);
        lemma_ray_transpose(q, 0, 1, b);
        lemma_ray_transpose(q, 1, 0, b);
        lemma_contains_transpose(ray(q, 0, -1, b), t);
        lemma_contains_transpose(ray(q, -1, 0, b), t);
        lemma_contains_transpose(ray(q, 0, 1, b), t);
        lemma_contains_transpose(ray(q, 1, 0, b), t);
        lemma_four_contains(
            ray(tq, -1, 0, tb),
            ray(tq, 0, -1, tb),
            ray(tq, 1, 0, tb),
            ray(tq, 0, 1, tb),
            tt,
        );
        lemma_four_contains(ray(q, -1, 0, b), ray(q, 0, -1, b), ray(q, 1, 0, b), ray(q, 0, 1, b), t);
    }
}

proof fn lemma_attack_count_append(s: Seq<Point>, t: Seq<Point>, kind: PieceType, k: Point, b: Point)
    ensures
        attack_count(s + t, kind, k, b) == attack_count(s, kind, k, b) + attack_count(t, kind, k, b),
    decreases t.len(),
{
    if t.len() == 0 {
        assert(s + t =~= s);
    } else {
        lemma_attack_count_append(s, t.drop_last(), kind, k, b);
        assert((s + t).drop_last() =~= s + t.drop_last());
        assert((s + t).last() == t.last());
    }
}

proof fn lemma_attack_count_transpose(s: Seq<Point>, kind: PieceType, k: Point, b: Point)
    requires
        kind != PieceType::Knight,
    ensures
        attack_count(s.map_values(|e: Point| transpose(e)), kind, transpose(k), transpose(b))
            == attack_count(s, kind, k, b),
    decreases s.len(),
{
    if s.len() > 0 {
        lemma_attack_count_transpose(s.drop_last(), kind, k, b);
        assert(s.map_values(|e: Point| transpose(e)).drop_last() =~= s.drop_last().map_values(
            |e: Point| transpose(e),
        ));
        lemma_slider_attack_transpose(kind, s.last(), k, b);
    }
}

proof fn lemma_four_attack_count(
    a: Seq<Point>,
    c: Seq<Point>,
    d: Seq<Point>,
    e: Seq<Point>,
    kind: PieceType,
    k: Point,
    b: Point,
)
    ensures
        attack_count(a + c + d + e, kind, k, b) == attack_count(a, kind, k, b) + attack_count(
            c,
            kind,
            k,
            b,
        ) + attack_count(d, kind, k, b) + attack_count(e, kind, k, b),
{
    lemma_attack_count_append(a, c, kind, k, b);
    lemma_attack_count_append(a + c, d, kind, k, b);
    lemma_attack_count_append(a + c + d, e, kind, k, b);
}

proof fn lemma_mirrored_ray_count(q: Point, dx: int, dy: int, kind: PieceType, k: Point, b: Point)
    requires
        is_direction(dx, dy),
        kind != PieceType::Knight,
    ensures
        attack_count(ray(transpose(q), dy, dx, transpose(b)), kind, transpose(k), transpose(b))
            == attack_count(ray(q, dx, dy, b), kind, k, b),
{
    lemma_ray_transpose(q, dx, dy, b);
    lemma_attack_count_transpose(ray(q, dx, dy, b), kind, k, b);
}

/// Through a mirrored intermediate square, as many triangles close on the
/// mirrored knight square.
proof fn lemma_via_square_transpose(q: Point, k: Point, b: Point)
    ensures
        via_square(transpose(q), transpose(k), transpose(b)) == via_square(q, k, b),
{
    let tq = transpose(q);
    let tb = transpose(b);
    let tk = transpose(k);
    let r = PieceType::Rook;
    let bi = PieceType::Bishop;
    lemma_four_attack_count(ray(tq, -1, -1, tb), ray(tq, -1, 1, tb), ray(tq, 1, -1, tb), ray(tq, 1, 1, tb), r, tk, tb);
    lemma_four_attack_count(ray(q, -1, -1, b), ray(q, -1, 1, b), ray(q, 1, -1, b), ray(q, 1, 1, b), r, k, b);
    lemma_mirrored_ray_count(q, -1, -1, r, k, b);
    lemma_mirrored_ray_count(q, 1, -1, r, k, b);
    lemma_mirrored_ray_count(q, -1, 1, r, k, b);
    lemma_mirrored_ray_count(q, 1, 1, r, k, b);
    lemma_four_attack_count(ray(tq, -1, 0, tb), ray(tq, 0, -1, tb), ray(tq, 1, 0, tb), ray(tq, 0, 1, tb), bi, tk, tb);
    lemma_four_attack_count(ray(q, -1, 0, b), ray(q, 0, -1, b), ray(q, 1, 0, b), ray(q, 0, 1, b), bi, k, b);
    lemma_mirrored_ray_count(q, 0, -1, bi, k, b);
    lemma_mirrored_ray_count(q, -1, 0, bi, k, b);
    lemma_mirrored_ray_count(q, 0, 1, bi, k, b);
    lemma_mirrored_ray_count(q, 1, 0, bi, k, b);
}

/// Triangles on the knight square `k` through knight candidate `j`.
#[verifier::opaque]
spec fn knight_term(k: Point, b: Point, j: int) -> nat {
    if knight_keeps(k, b, j) {
        via_square(Point((k.0 + knight_dx(j)) as i32, (k.1 + knight_dy(j)) as i32), k, b)
    } else {
        0
    }
}

spec fn knight_terms(k: Point, b: Point, j: int) -> nat
    decreases j,
{
    if j <= 0 {
        0
    } else {
        knight_terms(k, b, j - 1) + knight_term(k, b, j - 1)
    }
}

proof fn lemma_knight_via_count(k: Point, b: Point, j: int)
    ensures
        via_count(knight_prefix(k, b, j), k, b) == knight_terms(k, b, j),
    decreases j,
{
    if j > 0 {
        lemma_knight_via_count(k, b, j - 1);
        reveal(knight_term);
        if knight_keeps(k, b, j - 1) {
            assert(knight_prefix(k, b, j).drop_last() =~= knight_prefix(k, b, j - 1));
        }
    }
}

/// Mirroring swaps the two components of a candidate step: candidate `j`
/// on the mirrored board is candidate `4 * (j % 4) + j / 4` mirrored.
proof fn lemma_knight_term_transpose(k: Point, b: Point, j: int)
    requires
        0 <= j < 16,
    ensures
        knight_term(transpose(k), transpose(b), j) == knight_term(k, b, 4 * (j % 4) + j / 4),
{
    reveal(knight_term);
    let sj = 4 * (j % 4) + j / 4;
    assert(0 <= j / 4 < 4 && 0 <= j % 4 < 4 && sj / 4 == j % 4 && sj % 4 == j / 4)
        by (nonlinear_arith)
        requires
            0 <= j < 16,
            sj == 4 * (j % 4) + j / 4,
    ;
    assert(knight_dx(sj) == knight_dy(j) && knight_dy(sj) == knight_dx(j));
    if knight_keeps(k, b, sj) {
        let q = Point((k.0 + knight_dx(sj)) as i32, (k.1 + knight_dy(sj)) as i32);
        lemma_via_square_transpose(q, k, b);
        assert(transpose(q) == Point(
            (transpose(k).0 + knight_dx(j)) as i32,
            (transpose(k).1 + knight_dy(j)) as i32,
        ));
    }
}

/// As many triangles have their knight on a square as on its mirror image
/// on the mirrored board.
proof fn lemma_square_count_transpose(k: Point, b: Point)
    ensures
        square_count(transpose(k), transpose(b)) == square_count(k, b),
{
    let tk = transpose(k);
    let tb = transpose(b);
    lemma_knight_via_count(k, b, 16);
    lemma_knight_via_count(tk, tb, 16);
    reveal_with_fuel(knight_terms, 17);
    lemma_knight_term_transpose(k, b, 0);
    lemma_knight_term_transpose(k, b, 1);
    lemma_knight_term_transpose(k, b, 2);
    lemma_knight_term_transpose(k, b, 3);
    lemma_knight_term_transpose(k, b, 4);
    lemma_knight_term_transpose(k, b, 5);
    lemma_knight_term_transpose(k, b, 6);
    lemma_knight_term_transpose(k, b, 7);
    lemma_knight_term_transpose(k, b, 8);
    lemma_knight_term_transpose(k, b, 9);
    lemma_knight_term_transpose(k, b, 10);
    lemma_knight_term_transpose(k, b, 11);
    lemma_knight_term_transpose(k, b, 12);
    lemma_knight_term_transpose(k, b, 13);
    lemma_knight_term_transpose(k, b, 14);
    lemma_knight_term_transpose(k, b, 15);
}

/// `Σ_{y < y_end} h(x, y)`.
spec fn col_sum(h: spec_fn(int, int) -> nat, x: int, y_end: int) -> nat
    decreases y_end,
{
    if y_end <= 0 {
        0
    } else {
        col_sum(h, x, y_end - 1) + h(x, y_end - 1)
    }
}

/// `Σ_{x < x_end} Σ_{y < y_end} h(x, y)`.
spec fn grid_sum(h: spec_fn(int, int) -> nat, x_end: int, y_end: int) -> nat
    decreases x_end,
{
    if x_end <= 0 {
        0
    } else {
        grid_sum(h, x_end - 1, y_end) + col_sum(h, x_end - 1, y_end)
    }
}

spec fn swapped(h: spec_fn(int, int) -> nat) -> spec_fn(int, int) -> nat {
    |y: int, x: int| h(x, y)
}

/// Triangles per knight square on board `b`.
spec fn per_square(b: Point) -> spec_fn(int, int) -> nat {
    |x: int, y: int| square_count(Point(x as i32, y as i32), b)
}

proof fn lemma_grid_no_rows(h: spec_fn(int, int) -> nat, x_end: int, y_end: int)
    requires
        y_end <= 0,
    ensures
        grid_sum(h, x_end, y_end) == 0,
    decreases x_end,
{
    if x_end > 0 {
        lemma_grid_no_rows(h, x_end - 1, y_end);
    }
}

proof fn lemma_grid_peel(h: spec_fn(int, int) -> nat, y_end: int, x_end: int)
    requires
        x_end >= 1,
    ensures
        grid_sum(swapped(h), y_end, x_end) == grid_sum(swapped(h), y_end, x_end - 1) + col_sum(
            h,
            x_end - 1,
            y_end,
        ),
    decreases y_end,
{
    if y_end > 0 {
        lemma_grid_peel(h, y_end - 1, x_end);
        assert(swapped(h)(y_end - 1, x_end - 1) == h(x_end - 1, y_end - 1));
    }
}

proof fn lemma_grid_swap(h: spec_fn(int, int) -> nat, x_end: int, y_end: int)
    ensures
        grid_sum(h, x_end, y_end) == grid_sum(swapped(h), y_end, x_end),
    decreases x_end,
{
    if x_end <= 0 {
        lemma_grid_no_rows(swapped(h), y_end, x_end);
    } else {
        lemma_grid_swap(h, x_end - 1, y_end);
        lemma_grid_peel(h, y_end, x_end);
    }
}

proof fn lemma_col_congruent(h1: spec_fn(int, int) -> nat, h2: spec_fn(int, int) -> nat, x: int, y_end: int)
    requires
        forall|y: int| 0 <= y < y_end ==> #[trigger] h1(x, y) == h2(x, y),
    ensures
        col_sum(h1, x, y_end) == col_sum(h2, x, y_end),
    decreases y_end,
{
    if y_end > 0 {
        lemma_col_congruent(h1, h2, x, y_end - 1);
    }
}

proof fn lemma_grid_congruent(
    h1: spec_fn(int, int) -> nat,
    h2: spec_fn(int, int) -> nat,
    x_end: int,
    y_end: int,
)
    requires
        forall|x: int, y: int| 0 <= x < x_end && 0 <= y < y_end ==> #[trigger] h1(x, y) == h2(x, y),
    ensures
        grid_sum(h1, x_end, y_end) == grid_sum(h2, x_end, y_end),
    decreases x_end,
{
    if x_end > 0 {
        lemma_grid_congruent(h1, h2, x_end - 1, y_end);
        lemma_col_congruent(h1, h2, x_end - 1, y_end);
    }
}

proof fn lemma_column_as_sum(x: int, y_end: int, b: Point)
    ensures
        column_count(x, y_end, b) == col_sum(per_square(b), x, y_end),
    decreases y_end,
{
    if y_end > 0 {
        lemma_column_as_sum(x, y_end - 1, b);
    }
}

proof fn lemma_board_as_sum(x_end: int, b: Point)
    ensures
        board_count(x_end, b) == grid_sum(per_square(b), x_end, b.1 as int),
    decreases x_end,
{
    if x_end > 0 {
        lemma_board_as_sum(x_end - 1, b);
        lemma_column_as_sum(x_end - 1, b.1 as int, b);
    }
}

/// Swapping the width and the height of the board does not change the number
/// of triangles: mirroring in the main diagonal maps knight, bishop and rook
/// moves on one board onto those on the other.
pub proof fn lemma_triangle_count_symmetric(n: i32, m: i32)
    ensures
        triangle_count(n, m) == triangle_count(m, n),
{
    let b = Point(n, m);
    let tb = Point(m, n);
    lemma_board_as_sum(n as int, b);
    lemma_board_as_sum(m as int, tb);
    lemma_grid_swap(per_square(b), n as int, m as int);
    assert forall|x: int, y: int| 0 <= x < m && 0 <= y < n implies #[trigger] per_square(tb)(
        x,
        y,
    ) == swapped(per_square(b))(x, y) by {
        lemma_square_count_transpose(Point(y as i32, x as i32), b);
    }
    lemma_grid_congruent(per_square(tb), swapped(per_square(b)), m as int, n as int);
}

} // verus!
