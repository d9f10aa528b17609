use vstd::prelude::*;

use crate::point::{in_bounds, Point};

verus! {

/// The three kinds of piece on the board.
#[derive(Debug, Clone, Copy, PartialEq, Eq, Structural)]
pub enum PieceType {
    Knight,
    Bishop,
    Rook,
}

/// A piece of a given kind standing on a square.
#[derive(Debug, Clone, Copy, PartialEq, Eq, Structural)]
pub struct Piece {
    pub piece_type: PieceType,
    pub p: Point,
}

/// The knight's step lengths, in the order in which they are tried.
pub open spec fn knight_shift(i: int) -> int {
    if i == 0 {
        -2
    } else if i == 1 {
        -1
    } else if i == 2 {
        1
    } else {
        2
    }
}

/// Candidate `k` (of 16) pairs shift `k / 4` on x with shift `k % 4` on y.
pub open spec fn knight_dx(k: int) -> int {
    knight_shift(k / 4)
}

pub open spec fn knight_dy(k: int) -> int {
    knight_shift(k % 4)
}

/// The L shape: the two step lengths differ by one.
pub open spec fn is_l_shape(dx: int, dy: int) -> bool {
    abs(abs(dx) - abs(dy)) == 1
}

pub open spec fn abs(a: int) -> int {
    if a < 0 {
        -a
    } else {
        a
    }
}

/// Candidate `k` is a legal knight move from `p` on board `b`.
pub open spec fn knight_keeps(p: Point, b: Point, k: int) -> bool {
    is_l_shape(knight_dx(k), knight_dy(k)) && in_bounds(
        p.0 + knight_dx(k),
        p.1 + knight_dy(k),
        b,
    )
}

/// The legal knight moves among the first `k` candidates, in order.
pub open spec fn knight_prefix(p: Point, b: Point, k: int) -> Seq<Point>
    decreases k,
{
    if k <= 0 {
        Seq::empty()
    } else if knight_keeps(p, b, k - 1) {
        knight_prefix(p, b, k - 1).push(
            Point((p.0 + knight_dx(k - 1)) as i32, (p.1 + knight_dy(k - 1)) as i32),
        )
    } else {
        knight_prefix(p, b, k - 1)
    }
}

/// All legal knight moves from `p` on board `b`.
pub open spec fn knight_spec(p: Point, b: Point) -> Seq<Point> {
    knight_prefix(p, b, 16)
}


/// Coordinate `x` after `k` unit steps in direction `d` (`-1`, `0` or `1`).
pub open spec fn step(x: int, d: int, k: int) -> int {
    if d > 0 {
        x + k
    } else if d < 0 {
        x - k
    } else {
        x
    }
}

/// The square reached after `k` steps from `p` in direction `(dx, dy)`.
pub open spec fn ray_point(p: Point, dx: int, dy: int, k: int) -> Point {
    Point(step(p.0 as int, dx, k) as i32, step(p.1 as int, dy, k) as i32)
}

/// A direction of travel: each component is `-1`, `0` or `1`, not both `0`.
pub open spec fn is_direction(dx: int, dy: int) -> bool {
    -1 <= dx <= 1 && -1 <= dy <= 1 && !(dx == 0 && dy == 0)
}

/// Along one axis with `d != 0`: how many steps from `x` stay in `[0, w)`.
pub open spec fn axis_limit(x: int, d: int, w: int) -> int {
    if d > 0 {
        if x + 1 >= 0 && w - 1 - x > 0 {
            w - 1 - x
        } else {
            0
        }
    } else {
        if x - 1 < w && x > 0 {
            x
        } else {
            0
        }
    }
}

/// How many steps from `p` in direction `(dx, dy)` stay on board `b`, before
/// the first step that leaves it.
pub open spec fn ray_len(p: Point, dx: int, dy: int, b: Point) -> int {
    if dx == 0 {
        if 0 <= p.0 < b.0 {
            axis_limit(p.1 as int, dy, b.1 as int)
        } else {
            0
        }
    } else if dy == 0 {
        if 0 <= p.1 < b.1 {
            axis_limit(p.0 as int, dx, b.0 as int)
        } else {
            0
        }
    } else {
        let lx = axis_limit(p.0 as int, dx, b.0 as int);
        let ly = axis_limit(p.1 as int, dy, b.1 as int);
        if lx < ly {
            lx
        } else {
            ly
        }
    }
}

/// The squares a sliding piece reaches from `p` in direction `(dx, dy)`,
/// nearest first.
pub open spec fn ray(p: Point, dx: int, dy: int, b: Point) -> Seq<Point> {
    Seq::new(ray_len(p, dx, dy, b) as nat, |i: int| ray_point(p, dx, dy, i + 1))
}

/// Ray casting: every step up to `ray_len` stays on the board, and the step
/// after it is the first that leaves the board.
pub proof fn lemma_ray_len(p: Point, dx: int, dy: int, b: Point)
    requires
        is_direction(dx, dy),
    ensures
        0 <= ray_len(p, dx, dy, b) <= i32::MAX,
        forall|k: int|
            1 <= k <= ray_len(p, dx, dy, b) ==> #[trigger] in_bounds(
                step(p.0 as int, dx, k),
                step(p.1 as int, dy, k),
                b,
            ),
        !in_bounds(
            step(p.0 as int, dx, ray_len(p, dx, dy, b) + 1),
            step(p.1 as int, dy, ray_len(p, dx, dy, b) + 1),
            b,
        ),
{
}

/// The four diagonal rays, in the order `(-1,-1), (-1,1), (1,-1), (1,1)`.
pub open spec fn bishop_spec(p: Point, b: Point) -> Seq<Point> {
    ray(p, -1, -1, b) + ray(p, -1, 1, b) + ray(p, 1, -1, b) + ray(p, 1, 1, b)
}

/// The four orthogonal rays, in the order `(-1,0), (0,-1), (1,0), (0,1)`.
pub open spec fn rook_spec(p: Point, b: Point) -> Seq<Point> {
    ray(p, -1, 0, b) + ray(p, 0, -1, b) + ray(p, 1, 0, b) + ray(p, 0, 1, b)
}

/// The squares a piece attacks on board `b`, in generation order.
pub open spec fn moves_spec(piece: Piece, b: Point) -> Seq<Point> {
    match piece.piece_type {
        PieceType::Knight => knight_spec(piece.p, b),
        PieceType::Bishop => bishop_spec(piece.p, b),
        PieceType::Rook => rook_spec(piece.p, b),
    }
}

/// Walks from `p` in direction `(dx, dy)` and appends each square to `out`
/// until the first step that leaves the board.
fn cast_ray(p: Point, dx: i32, dy: i32, board_size: &Point, out: &mut Vec<Point>)
    requires
        is_direction(dx as int, dy as int),
    ensures
        final(out)@ == old(out)@ + ray(p, dx as int, dy as int, *board_size),
{
    proof {
        lemma_ray_len(p, dx as int, dy as int, *board_size);
    }
    let ghost len = ray_len(p, dx as int, dy as int, *board_size);
    let ghost start = out@;
    let mut k: i64 = 1;
    let mut x: i64 = p.0 as i64 + dx as i64;
    let mut y: i64 = p.1 as i64 + dy as i64;
    while 0 <= x && x < board_size.0 as i64 && 0 <= y && y < board_size.1 as i64
        invariant
            is_direction(dx as int, dy as int),
            len == ray_len(p, dx as int, dy as int, *board_size),
            0 <= len <= i32::MAX,
            forall|j: int|
                1 <= j <= len ==> #[trigger] in_bounds(
                    step(p.0 as int, dx as int, j),
                    step(p.1 as int, dy as int, j),
                    *board_size,
                ),
            !in_bounds(
                step(p.0 as int, dx as int, len + 1),
                step(p.1 as int, dy as int, len + 1),
                *board_size,
            ),
            1 <= k <= len + 1,
            x == step(p.0 as int, dx as int, k as int),
            y == step(p.1 as int, dy as int, k as int),
            out@ == start + ray(p, dx as int, dy as int, *board_size).take(k - 1),
        decreases len + 1 - k,
    {
        assert(k <= len);
        out.push(Point(x as i32, y as i32));
        assert(ray(p, dx as int, dy as int, *board_size).take(k as int) =~= ray(p, dx as int, dy as int, *board_size).take(k - 1).push(Point(x as i32, y as i32)));
        k = k + 1;
        x = x + dx as i64;
        y = y + dy as i64;
    }
    assert(ray(p, dx as int, dy as int, *board_size).take(len) =~= ray(p, dx as int, dy as int, *board_size));
}

/// Every square in `s` lies on board `b`.
pub open spec fn all_in_bounds(s: Seq<Point>, b: Point) -> bool {
    forall|i: int| 0 <= i < s.len() ==> in_bounds(#[trigger] s[i].0 as int, s[i].1 as int, b)
}

proof fn lemma_knight_prefix_in_bounds(p: Point, b: Point, k: int)
    ensures
        all_in_bounds(knight_prefix(p, b, k), b),
    decreases k,
{
    if k > 0 {
        lemma_knight_prefix_in_bounds(p, b, k - 1);
    }
}

proof fn lemma_ray_in_bounds(p: Point, dx: int, dy: int, b: Point)
    requires
        is_direction(dx, dy),
    ensures
        all_in_bounds(ray(p, dx, dy, b), b),
{
    lemma_ray_len(p, dx, dy, b);
    assert forall|i: int| 0 <= i < ray(p, dx, dy, b).len() implies in_bounds(
        #[trigger] ray(p, dx, dy, b)[i].0 as int,
        ray(p, dx, dy, b)[i].1 as int,
        b,
    ) by {
        assert(in_bounds(step(p.0 as int, dx, i + 1), step(p.1 as int, dy, i + 1), b));
    }
}

proof fn lemma_append_in_bounds(s: Seq<Point>, t: Seq<Point>, b: Point)
    requires
        all_in_bounds(s, b),
        all_in_bounds(t, b),
    ensures
        all_in_bounds(s + t, b),
{
    assert forall|i: int| 0 <= i < (s + t).len() implies in_bounds(
        #[trigger] (s + t)[i].0 as int,
        (s + t)[i].1 as int,
        b,
    ) by {
        if i >= s.len() {
            assert((s + t)[i] == t[i - s.len()]);
        }
    }
}

/// No move generator leaves the board: every square that a piece on any
/// square attacks lies on the board.
pub proof fn lemma_moves_in_bounds(piece: Piece, b: Point)
    ensures
        all_in_bounds(moves_spec(piece, b), b),
{
    let p = piece.p;
    match piece.piece_type {
        PieceType::Knight => lemma_knight_prefix_in_bounds(p, b, 16),
        PieceType::Bishop => {
            lemma_ray_in_bounds(p, -1, -1, b);
            lemma_ray_in_bounds(p, -1, 1, b);
            lemma_ray_in_bounds(p, 1, -1, b);
            lemma_ray_in_bounds(p, 1, 1, b);
            lemma_append_in_bounds(ray(p, -1, -1, b), ray(p, -1, 1, b), b);
            lemma_append_in_bounds(ray(p, -1, -1, b) + ray(p, -1, 1, b), ray(p, 1, -1, b), b);
            lemma_append_in_bounds(
                ray(p, -1, -1, b) + ray(p, -1, 1, b) + ray(p, 1, -1, b),
                ray(p, 1, 1, b),
                b,
            );
        },
        PieceType::Rook => {
            lemma_ray_in_bounds(p, -1, 0, b);
            lemma_ray_in_bounds(p, 0, -1, b);
            lemma_ray_in_bounds(p, 1, 0, b);
            lemma_ray_in_bounds(p, 0, 1, b);
            lemma_append_in_bounds(ray(p, -1, 0, b), ray(p, 0, -1, b), b);
            lemma_append_in_bounds(ray(p, -1, 0, b) + ray(p, 0, -1, b), ray(p, 1, 0, b), b);
            lemma_append_in_bounds(
                ray(p, -1, 0, b) + ray(p, 0, -1, b) + ray(p, 1, 0, b),
                ray(p, 0, 1, b),
                b,
            );
        },
    }
}

/// `a` comes strictly before `c` in lexicographic order.
pub open spec fn lex_lt(a: (int, int), c: (int, int)) -> bool {
    a.0 < c.0 || (a.0 == c.0 && a.1 < c.1)
}

/// The step from `p` to `e`.
pub open spec fn offset_of(e: Point, p: Point) -> (int, int) {
    (e.0 - p.0, e.1 - p.1)
}

pub open spec fn knight_offset(k: int) -> (int, int) {
    (knight_dx(k), knight_dy(k))
}

pub open spec fn sgn(a: int) -> int {
    if a < 0 {
        -1
    } else if a > 0 {
        1
    } else {
        0
    }
}

/// The direction in which `e` lies from `p`.
pub open spec fn heading(e: Point, p: Point) -> (int, int) {
    (sgn(e.0 - p.0), sgn(e.1 - p.1))
}

proof fn lemma_knight_offsets_increase(k: int)
    requires
        1 <= k < 16,
    ensures
        lex_lt(knight_offset(k - 1), knight_offset(k)),
{
    assert((k % 4 != 0 && (k - 1) / 4 == k / 4 && (k - 1) % 4 == k % 4 - 1) || (k % 4 == 0 && (k
        - 1) / 4 == k / 4 - 1 && (k - 1) % 4 == 3)) by (nonlinear_arith)
        requires
            1 <= k < 16,
    ;
    assert(0 <= k / 4 < 4) by (nonlinear_arith)
        requires
            1 <= k < 16,
    ;
}

proof fn lemma_knight_prefix_sorted(p: Point, b: Point, k: int)
    requires
        0 <= k < 16,
    ensures
        knight_prefix(p, b, k).no_duplicates(),
        forall|i: int|
            0 <= i < knight_prefix(p, b, k).len() ==> lex_lt(
                offset_of(#[trigger] knight_prefix(p, b, k)[i], p),
                knight_offset(k),
            ),
    decreases k,
{
    if k > 0 {
        lemma_knight_prefix_sorted(p, b, k - 1);
        lemma_knight_offsets_increase(k);
    }
}

proof fn lemma_append_no_duplicates(s: Seq<Point>, t: Seq<Point>)
    requires
        s.no_duplicates(),
        t.no_duplicates(),
        forall|i: int, j: int| 0 <= i < s.len() && 0 <= j < t.len() ==> s[i] != t[j],
    ensures
        (s + t).no_duplicates(),
{
    assert forall|i: int, j: int|
        0 <= i < (s + t).len() && 0 <= j < (s + t).len() && i != j implies (s + t)[i] != (s
        + t)[j] by {
        if i < s.len() && j >= s.len() {
            assert(s[i] != t[j - s.len()]);
        } else if i >= s.len() && j < s.len() {
            assert(s[j] != t[i - s.len()]);
        }
    }
}

proof fn lemma_ray_shape(p: Point, dx: int, dy: int, b: Point)
    requires
        is_direction(dx, dy),
    ensures
        ray(p, dx, dy, b).no_duplicates(),
        forall|i: int|
            0 <= i < ray(p, dx, dy, b).len() ==> heading(#[trigger] ray(p, dx, dy, b)[i], p) == (
            dx,
            dy,
            ),
{
    lemma_ray_len(p, dx, dy, b);
    let r = ray(p, dx, dy, b);
    assert forall|i: int| 0 <= i < r.len() implies heading(#[trigger] r[i], p) == (dx, dy) by {
        assert(in_bounds(step(p.0 as int, dx, i + 1), step(p.1 as int, dy, i + 1), b));
    }
    assert forall|i: int, j: int| 0 <= i < r.len() && 0 <= j < r.len() && i != j implies r[i]
        != r[j] by {
        assert(in_bounds(step(p.0 as int, dx, i + 1), step(p.1 as int, dy, i + 1), b));
        assert(in_bounds(step(p.0 as int, dx, j + 1), step(p.1 as int, dy, j + 1), b));
    }
}

proof fn lemma_four_rays_no_duplicates(p: Point, b: Point, d: Seq<(int, int)>)
    requires
        d.len() == 4,
        forall|i: int| 0 <= i < 4 ==> is_direction(#[trigger] d[i].0, d[i].1),
        forall|i: int, j: int| 0 <= i < j < 4 ==> d[i] != d[j],
    ensures
        (ray(p, d[0].0, d[0].1, b) + ray(p, d[1].0, d[1].1, b) + ray(p, d[2].0, d[2].1, b) + ray(
            p,
            d[3].0,
            d[3].1,
            b,
        )).no_duplicates(),
{
    let r0 = ray(p, d[0].0, d[0].1, b);
    let r1 = ray(p, d[1].0, d[1].1, b);
    let r2 = ray(p, d[2].0, d[2].1, b);
    let r3 = ray(p, d[3].0, d[3].1, b);
    assert(is_direction(d[0].0, d[0].1) && is_direction(d[1].0, d[1].1));
    assert(is_direction(d[2].0, d[2].1) && is_direction(d[3].0, d[3].1));
    lemma_ray_shape(p, d[0].0, d[0].1, b);
    lemma_ray_shape(p, d[1].0, d[1].1, b);
    lemma_ray_shape(p, d[2].0, d[2].1, b);
    lemma_ray_shape(p, d[3].0, d[3].1, b);
    assert(d[0] != d[1] && d[0] != d[2] && d[0] != d[3]);
    assert(d[1] != d[2] && d[1] != d[3] && d[2] != d[3]);
    let s1 = r0 + r1;
    let s2 = s1 + r2;
    assert forall|i: int, j: int| 0 <= i < r0.len() && 0 <= j < r1.len() implies r0[i]
        != r1[j] by {
        assert(heading(r0[i], p) == d[0] && heading(r1[j], p) == d[1]);
    }
    lemma_append_no_duplicates(r0, r1);
    assert forall|i: int| 0 <= i < s1.len() implies heading(#[trigger] s1[i], p) == d[0]
        || heading(s1[i], p) == d[1] by {
        if i >= r0.len() {
            assert(s1[i] == r1[i - r0.len()]);
        }
    }
    assert forall|i: int, j: int| 0 <= i < s1.len() && 0 <= j < r2.len() implies s1[i]
        != r2[j] by {
        assert(heading(s1[i], p) == d[0] || heading(s1[i], p) == d[1]);
        assert(heading(r2[j], p) == d[2]);
    }
    lemma_append_no_duplicates(s1, r2);
    assert forall|i: int| 0 <= i < s2.len() implies heading(#[trigger] s2[i], p) == d[0]
        || heading(s2[i], p) == d[1] || heading(s2[i], p) == d[2] by {
        if i >= s1.len() {
            assert(s2[i] == r2[i - s1.len()]);
        } else {
            assert(s2[i] == s1[i]);
        }
    }
    assert forall|i: int, j: int| 0 <= i < s2.len() && 0 <= j < r3.len() implies s2[i]
        != r3[j] by {
        assert(heading(s2[i], p) == d[0] || heading(s2[i], p) == d[1] || heading(s2[i], p)
            == d[2]);
        assert(heading(r3[j], p) == d[3]);
    }
    lemma_append_no_duplicates(s2, r3);
}

/// No move generator repeats a square within one call.
pub proof fn lemma_moves_no_duplicates(piece: Piece, b: Point)
    ensures
        moves_spec(piece, b).no_duplicates(),
{
    let p = piece.p;
    match piece.piece_type {
        PieceType::Knight => {
            lemma_knight_prefix_sorted(p, b, 15);
        },
        PieceType::Bishop => {
            let d = seq![(-1int, -1int), (-1int, 1int), (1int, -1int), (1int, 1int)];
            lemma_four_rays_no_duplicates(p, b, d);
        },
        PieceType::Rook => {
            let d = seq![(-1int, 0int), (0int, -1int), (1int, 0int), (0int, 1int)];
            lemma_four_rays_no_duplicates(p, b, d);
        },
    }
}

impl Piece {
    pub fn new(p: Point, piece_type: PieceType) -> (r: Piece)
        ensures
            r == (Piece { piece_type, p }),
    {
        Piece { p, piece_type }
    }

    fn knight_moves(&self, board_size: &Point) -> (r: Vec<Point>)
        ensures
            r@ == knight_spec(self.p, *board_size),
    {
        let shift: [i32; 4] = [-2, -1, 1, 2];
        assert(forall|t: int| 0 <= t < 4 ==> shift@[t] as int == knight_shift(t));
        let mut out: Vec<Point> = Vec::new();
        let mut i: usize = 0;
        while i < 4
            invariant
                i <= 4,
                forall|t: int| 0 <= t < 4 ==> shift@[t] as int == knight_shift(t),
                out@ == knight_prefix(self.p, *board_size, 4 * i),
            decreases 4 - i,
        {
            let mut j: usize = 0;
            while j < 4
                invariant
                    i < 4,
                    j <= 4,
                    forall|t: int| 0 <= t < 4 ==> shift@[t] as int == knight_shift(t),
                    out@ == knight_prefix(self.p, *board_size, 4 * i + j),
                decreases 4 - j,
            {
                let dx = shift[i];
                let dy = shift[j];
                assert(dx as int == knight_shift(i as int) && dy as int == knight_shift(j as int));
                let k: Ghost<int> = Ghost(4 * i + j);
                assert(k@ / 4 == i && k@ % 4 == j) by (nonlinear_arith)
                    requires
                        k@ == 4 * i + j,
                        j < 4,
                ;
                let ax: i32 = if dx < 0 { -dx } else { dx };
                let ay: i32 = if dy < 0 { -dy } else { dy };
                if ax - ay == 1 || ay - ax == 1 {
                    let x: i64 = self.p.0 as i64 + dx as i64;
                    let y: i64 = self.p.1 as i64 + dy as i64;
                    if i32::MIN as i64 <= x && x <= i32::MAX as i64 && i32::MIN as i64 <= y && y <= i32::MAX as i64 {
                        match Point::try_new(x as i32, y as i32, board_size) {
                            Some(q) => out.push(q),
                            None => {},
                        }
                    }
                }
                j = j + 1;
            }
            i = i + 1;
        }
        out
    }
    /// The squares this piece attacks on the board `board_size`.
    pub fn next_moves(&self, board_size: &Point) -> (r: Vec<Point>)
        ensures
            r@ == moves_spec(*self, *board_size),
    {
        match self.piece_type {
            PieceType::Knight => self.knight_moves(board_size),
            PieceType::Bishop => self.bishop_moves(board_size),
            PieceType::Rook => self.rook_moves(board_size),
        }
    }

    /// Whether this piece attacks the square `piece` on the board `board_size`.
    pub fn can_attack(&self, piece: &Point, board_size: &Point) -> (r: bool)
        ensures
            r == moves_spec(*self, *board_size).contains(*piece),
    {
        let moves = self.next_moves(board_size);
        let mut i: usize = 0;
        while i < moves.len()
            invariant
                i <= moves@.len(),
                moves@ == moves_spec(*self, *board_size),
                forall|t: int| 0 <= t < i ==> moves@[t] != *piece,
            decreases moves@.len() - i,
        {
            if moves[i] == *piece {
                return true;
            }
            i = i + 1;
        }
        false
    }

    fn bishop_moves(&self, board_size: &Point) -> (r: Vec<Point>)
        ensures
            r@ == bishop_spec(self.p, *board_size),
    {
        let mut out: Vec<Point> = Vec::new();
        cast_ray(self.p, -1, -1, board_size, &mut out);
        cast_ray(self.p, -1, 1, board_size, &mut out);
        cast_ray(self.p, 1, -1, board_size, &mut out);
        cast_ray(self.p, 1, 1, board_size, &mut out);
        assert(out@ =~= bishop_spec(self.p, *board_size));
        out
    }

    /// The squares a rook on this piece's square attacks on the board
    /// `board_size`.
    pub fn rook_moves(&self, board_size: &Point) -> (r: Vec<Point>)
        ensures
            r@ == rook_spec(self.p, *board_size),
    {
        let mut out: Vec<Point> = Vec::new();
        cast_ray(self.p, -1, 0, board_size, &mut out);
        cast_ray(self.p, 0, -1, board_size, &mut out);
        cast_ray(self.p, 1, 0, board_size, &mut out);
        cast_ray(self.p, 0, 1, board_size, &mut out);
        assert(out@ =~= rook_spec(self.p, *board_size));
        out
    }
}

} // verus!
