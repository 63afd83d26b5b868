//! The digital line between two pixels, as a mathematical sequence, and the
//! facts about it that the rasterizer rests on.
//!
//! A line from `a` to `b` takes `span(a, b)` steps, one per pixel of its
//! longer extent. After `k` steps each coordinate has covered the fraction
//! `k / span` of its own distance, rounded towards the start.

use vstd::prelude::*;

use crate::canvas::on_screen;
use crate::engine::Point;

verus! {

/// The distance between two coordinates.
pub open spec fn gap(from: int, to: int) -> int {
    if to >= from {
        to - from
    } else {
        from - to
    }
}

/// The number of steps from `a` to `b`: the larger of the two distances.
pub open spec fn span(a: (int, int), b: (int, int)) -> int {
    if gap(a.0, b.0) >= gap(a.1, b.1) {
        gap(a.0, b.0)
    } else {
        gap(a.1, b.1)
    }
}

/// One coordinate after `k` of `n` steps on the way from `from` to `to`.
pub open spec fn advance(from: int, to: int, k: int, n: int) -> int {
    if to >= from {
        from + (k * gap(from, to)) / n
    } else {
        from - (k * gap(from, to)) / n
    }
}

/// The pixel reached after `k` steps on the line from `a` to `b`.
pub open spec fn line_pixel(a: (int, int), b: (int, int), k: int) -> (int, int) {
    if span(a, b) == 0 {
        a
    } else {
        (advance(a.0, b.0, k, span(a, b)), advance(a.1, b.1, k, span(a, b)))
    }
}

/// The whole line from `a` to `b`, both ends included: steps `0` to
/// `span(a, b)`.
pub open spec fn line_pixels(a: (int, int), b: (int, int)) -> Seq<(int, int)> {
    Seq::new((span(a, b) + 1) as nat, |k: int| line_pixel(a, b, k))
}

/// `p` lies in the smallest upright rectangle that holds `a` and `b`.
pub open spec fn in_box(a: (int, int), b: (int, int), p: (int, int)) -> bool {
    &&& (a.0 <= p.0 <= b.0 || b.0 <= p.0 <= a.0)
    &&& (a.1 <= p.1 <= b.1 || b.1 <= p.1 <= a.1)
}

/// `p` and `q` are different pixels that touch, by a side or by a corner.
pub open spec fn adjacent(p: (int, int), q: (int, int)) -> bool {
    &&& p != q
    &&& gap(p.0, q.0) <= 1
    &&& gap(p.1, q.1) <= 1
}

/// The sequence `s` holds `p` at one place and at no other.
pub open spec fn visits_once(s: Seq<(int, int)>, p: (int, int)) -> bool {
    exists|i: int|
        0 <= i < s.len() && s[i] == p && forall|j: int| 0 <= j < s.len() && s[j] == p ==> j == i
}

/// How far `k` of `n` steps carry a coordinate that has `d <= n` to cover.
proof fn lemma_share(k: int, d: int, n: int)
    requires
        0 <= k <= n,
        0 <= d <= n,
        0 < n,
    ensures
        0 <= (k * d) / n <= d,
        (k * d) / n <= k,
        k == 0 ==> (k * d) / n == 0,
        k == n ==> (k * d) / n == d,
        d == n ==> (k * d) / n == k,
{
    assert(0 <= (k * d) / n <= d && (k * d) / n <= k) by (nonlinear_arith)
        requires
            0 <= k <= n,
            0 <= d <= n,
            0 < n,
    ;
    assert(k == 0 ==> (k * d) / n == 0) by (nonlinear_arith)
        requires
            0 < n,
    ;
    assert(k == n ==> (k * d) / n == d) by (nonlinear_arith)
        requires
            0 < n,
            0 <= d,
    ;
    assert(d == n ==> (k * d) / n == k) by (nonlinear_arith)
        requires
            0 < n,
            0 <= k,
    ;
}

/// One more step carries a coordinate on by one pixel at most.
proof fn lemma_share_step(k: int, d: int, n: int)
    requires
        0 <= k < n,
        0 <= d <= n,
    ensures
        0 <= ((k + 1) * d) / n - (k * d) / n <= 1,
{
    assert(0 <= ((k + 1) * d) / n - (k * d) / n <= 1) by (nonlinear_arith)
        requires
            0 <= k < n,
            0 <= d <= n,
    ;
}

/// A line starts at its first end and stops at its second.
pub proof fn lemma_line_ends(a: (int, int), b: (int, int))
    ensures
        line_pixel(a, b, 0) == a,
        line_pixel(a, b, span(a, b)) == b,
        line_pixels(a, b).first() == a,
        line_pixels(a, b).last() == b,
{
    let n = span(a, b);
    if n > 0 {
        lemma_share(0, gap(a.0, b.0), n);
        lemma_share(0, gap(a.1, b.1), n);
        lemma_share(n, gap(a.0, b.0), n);
        lemma_share(n, gap(a.1, b.1), n);
    }
    assert(line_pixel(a, b, n).0 == b.0 && line_pixel(a, b, n).1 == b.1);
}

/// No pixel of a line leaves the rectangle that its two ends span.
pub proof fn lemma_line_in_box(a: (int, int), b: (int, int), k: int)
    requires
        0 <= k <= span(a, b),
    ensures
        in_box(a, b, line_pixel(a, b, k)),
{
    let n = span(a, b);
    if n > 0 {
        lemma_share(k, gap(a.0, b.0), n);
        lemma_share(k, gap(a.1, b.1), n);
    }
}

/// A line between two pixels of the screen stays on the screen.
pub proof fn lemma_line_on_screen(a: (int, int), b: (int, int), k: int)
    requires
        on_screen(a),
        on_screen(b),
        0 <= k <= span(a, b),
    ensures
        on_screen(line_pixel(a, b, k)),
{
    lemma_line_in_box(a, b, k);
}

/// Every pixel of a line between two pixels of the screen lies on the
/// screen.
pub proof fn lemma_line_pixels_on_screen(a: (int, int), b: (int, int))
    requires
        on_screen(a),
        on_screen(b),
    ensures
        forall|k: int|
            0 <= k < line_pixels(a, b).len() ==> on_screen(#[trigger] line_pixels(a, b)[k]),
{
    assert forall|k: int| 0 <= k < line_pixels(a, b).len() implies on_screen(
        #[trigger] line_pixels(a, b)[k],
    ) by {
        lemma_line_on_screen(a, b, k);
    }
}

/// A line is connected: each pixel touches the next one, by a side or by a
/// corner, and is not the same pixel.
pub proof fn lemma_line_connected(a: (int, int), b: (int, int), k: int)
    requires
        0 <= k < span(a, b),
    ensures
        adjacent(line_pixel(a, b, k), line_pixel(a, b, k + 1)),
{
    let n = span(a, b);
    lemma_share_step(k, gap(a.0, b.0), n);
    lemma_share_step(k, gap(a.1, b.1), n);
    lemma_share(k, gap(a.0, b.0), n);
    lemma_share(k, gap(a.1, b.1), n);
    lemma_share(k + 1, gap(a.0, b.0), n);
    lemma_share(k + 1, gap(a.1, b.1), n);
}

/// A line visits no pixel twice: different steps reach different pixels.
pub proof fn lemma_line_distinct(a: (int, int), b: (int, int), i: int, j: int)
    requires
        0 <= i <= span(a, b),
        0 <= j <= span(a, b),
        i != j,
    ensures
        line_pixel(a, b, i) != line_pixel(a, b, j),
{
    let n = span(a, b);
    lemma_share(i, gap(a.0, b.0), n);
    lemma_share(i, gap(a.1, b.1), n);
    lemma_share(j, gap(a.0, b.0), n);
    lemma_share(j, gap(a.1, b.1), n);
    if gap(a.0, b.0) == n {
        assert(line_pixel(a, b, i).0 != line_pixel(a, b, j).0);
    } else {
        assert(line_pixel(a, b, i).1 != line_pixel(a, b, j).1);
    }
}

/// Every line visits each of its two ends exactly once. Where the two ends
/// are the same pixel, the line is that one pixel.
pub proof fn lemma_line_visits_ends_once(a: (int, int), b: (int, int))
    ensures
        visits_once(line_pixels(a, b), a),
        visits_once(line_pixels(a, b), b),
{
    let s = line_pixels(a, b);
    let n = span(a, b);
    lemma_line_ends(a, b);
    assert forall|j: int| 0 <= j < s.len() && s[j] == a implies j == 0 by {
        if j != 0 {
            lemma_line_distinct(a, b, 0, j);
        }
    }
    assert(s[0] == a);
    assert forall|j: int| 0 <= j < s.len() && s[j] == b implies j == n by {
        if j != n {
            lemma_line_distinct(a, b, n, j);
        }
    }
    assert(s[n] == b);
}

/// The coordinate `c` is small enough for the line iterator: differences
/// and sums of two such coordinates stay far from the limits of the
/// machine's integers, and a line between two such pixels is short enough
/// to be held in memory.
pub open spec fn in_reach(c: int) -> bool {
    -0x8000 <= c < 0x8000
}

/// The pixels that the iterator `bresenham::Bresenham::new(start, end)`
/// yields, in the order in which it yields them.
///
/// This contract is believed, not proved. It says that the iterator yields
/// `span(start, end)` pixels, and that the `k`-th of them is
/// `line_pixel(start, end, k)`. So it begins at `start` and stops one step
/// short of `end`, which it leaves out.
///
/// The iterator works in a frame of its own, into which it turns the two
/// ends by swapping or negating coordinates, so that the line runs to the
/// right and rises no faster than it runs: there `0 <= dy <= dx`, with `dx`
/// the longer and `dy` the shorter of the two distances. It yields one
/// pixel for each column from that of the start up to, but not including,
/// that of the end, and turns each pixel back before it hands it out. Its
/// error term starts at `dy - dx`; each step adds `dy` to it, and a step
/// that finds it at zero or above climbs one row and takes `dx` off. Before
/// the step from the `k`-th column the term is therefore
/// `(k + 1) * dy - (r + 1) * dx`, where `r` counts the rows climbed so far,
/// and `r` is the largest number with `r * dx <= k * dy`: the quotient
/// `k * dy / dx`, rounded down. Along the longer distance the pixel has
/// moved `k = k * dx / dx`.
#[verifier::external_body]
pub(crate) fn bresenham_points(start: Point, end: Point) -> (points: Vec<Point>)
    requires
        in_reach(start.x as int),
        in_reach(start.y as int),
        in_reach(end.x as int),
        in_reach(end.y as int),
    ensures
        points@.len() == span(start@, end@),
        forall|k: int|
            0 <= k < points@.len() ==> (#[trigger] points@[k])@ == line_pixel(start@, end@, k),
{
    bresenham::Bresenham::new(
        (start.x as isize, start.y as isize),
        (end.x as isize, end.y as isize),
    ).map(|(x, y)| Point { x: x as i32, y: y as i32 }).collect()
}

} // verus!
