//! The rasterizer: screen points, their place in the pixel buffer, and the
//! drawing of lines and triangle outlines.

use vstd::prelude::*;

use crate::canvas::{
    blank, frame_len, lemma_painted_none, lemma_painted_pixel, lemma_painted_push,
    lemma_painted_twice, on_screen, painted, pixel_index,
};
use crate::line::{
    bresenham_points, lemma_line_ends, lemma_line_on_screen, lemma_line_pixels_on_screen,
    lemma_line_visits_ends_once, line_pixel, line_pixels, span, visits_once,
};

verus! {

/// Width of the screen in pixels: the length of one row of the pixel buffer.
pub const SCREEN_WIDTH: i32 = 1280;

/// Height of the screen in pixels: the number of rows of the pixel buffer.
pub const SCREEN_HEIGHT: i32 = 720;

/// The colour of the wireframe, packed as `0x00RRGGBB`.
pub const LINE_COLOR: u32 = 0x00fb_fbfb;

/// A point of the screen, in whole pixels. `x` counts columns from the left,
/// `y` counts rows from the top.
#[derive(Copy, Clone, Debug, PartialEq, Eq, Structural)]
pub struct Point {
    pub x: i32,
    pub y: i32,
}

impl View for Point {
    type V = (int, int);

    open spec fn view(&self) -> (int, int) {
        (self.x as int, self.y as int)
    }
}

impl Point {
    /// Tells whether the point lies on the screen.
    pub fn is_on_screen(&self) -> (yes: bool)
        ensures
            yes == on_screen(self@),
    {
        0 <= self.x && self.x < SCREEN_WIDTH && 0 <= self.y && self.y < SCREEN_HEIGHT
    }
}

/// The outline of the triangle with corners `a`, `b` and `c`: the line from
/// `a` to `b`, then the line from `b` to `c`, then the line from `a` to `c`.
pub open spec fn outline(a: (int, int), b: (int, int), c: (int, int)) -> Seq<(int, int)> {
    line_pixels(a, b) + line_pixels(b, c) + line_pixels(a, c)
}

/// The outlines of `triangles`, one after the other.
pub open spec fn outlines(triangles: Seq<[Point; 3]>) -> Seq<(int, int)>
    decreases triangles.len(),
{
    if triangles.len() == 0 {
        Seq::empty()
    } else {
        let last = triangles.last();
        outlines(triangles.drop_last()) + outline(last[0]@, last[1]@, last[2]@)
    }
}

/// Every corner of every one of `triangles` lies on the screen.
pub open spec fn all_on_screen(triangles: Seq<[Point; 3]>) -> bool {
    forall|t: int, j: int|
        0 <= t < triangles.len() && 0 <= j < 3 ==> on_screen((#[trigger] triangles[t][j])@)
}

/// Each of the three lines of a triangle's outline visits both of its own
/// ends exactly once.
pub proof fn lemma_outline_visits_corners_once(a: (int, int), b: (int, int), c: (int, int))
    ensures
        visits_once(line_pixels(a, b), a),
        visits_once(line_pixels(a, b), b),
        visits_once(line_pixels(b, c), b),
        visits_once(line_pixels(b, c), c),
        visits_once(line_pixels(a, c), a),
        visits_once(line_pixels(a, c), c),
{
    lemma_line_visits_ends_once(a, b);
    lemma_line_visits_ends_once(b, c);
    lemma_line_visits_ends_once(a, c);
}

/// The outlines of triangles whose corners lie on the screen stay on the
/// screen.
pub proof fn lemma_outlines_on_screen(triangles: Seq<[Point; 3]>)
    requires
        all_on_screen(triangles),
    ensures
        forall|k: int|
            0 <= k < outlines(triangles).len() ==> on_screen(#[trigger] outlines(triangles)[k]),
    decreases triangles.len(),
{
    if triangles.len() > 0 {
        let last = triangles.last();
        let rest = triangles.drop_last();
        assert(all_on_screen(rest)) by {
            assert forall|t: int, j: int| 0 <= t < rest.len() && 0 <= j < 3 implies on_screen(
                (#[trigger] rest[t][j])@,
            ) by {
                assert(on_screen(triangles[t][j]@));
            }
        }
        lemma_outlines_on_screen(rest);
        assert(on_screen(triangles[triangles.len() - 1][0]@));
        assert(on_screen(triangles[triangles.len() - 1][1]@));
        assert(on_screen(triangles[triangles.len() - 1][2]@));
        lemma_line_pixels_on_screen(last[0]@, last[1]@);
        lemma_line_pixels_on_screen(last[1]@, last[2]@);
        lemma_line_pixels_on_screen(last[0]@, last[2]@);
        let before = outlines(rest);
        let first = line_pixels(last[0]@, last[1]@);
        let second = line_pixels(last[1]@, last[2]@);
        let third = line_pixels(last[0]@, last[2]@);
        let all = outlines(triangles);
        assert(all == before + (first + second + third));
        assert forall|k: int| 0 <= k < all.len() implies on_screen(#[trigger] all[k]) by {
            if k < before.len() {
                assert(all[k] == before[k]);
            } else if k < before.len() + first.len() {
                assert(all[k] == first[k - before.len()]);
            } else if k < before.len() + first.len() + second.len() {
                assert(all[k] == second[k - before.len() - first.len()]);
            } else {
                assert(all[k] == third[k - before.len() - first.len() - second.len()]);
            }
        }
    }
}

/// What a rendered frame shows, pixel by pixel: a pixel of the screen holds
/// `color` if it lies on the outline of one of the triangles, and zero if it
/// does not.
pub proof fn lemma_frame_pixel(triangles: Seq<[Point; 3]>, color: u32, q: (int, int))
    requires
        all_on_screen(triangles),
        on_screen(q),
    ensures
        painted(blank(), outlines(triangles), color)[pixel_index(q)] == if outlines(
            triangles,
        ).contains(q) {
            color
        } else {
            0u32
        },
{
    lemma_outlines_on_screen(triangles);
    lemma_painted_pixel(blank(), outlines(triangles), color, q);
}

/// The index of `p` in the pixel buffer: `y * SCREEN_WIDTH + x`.
pub fn get_point(p: Point) -> (index: i32)
    requires
        i32::MIN <= p.y * SCREEN_WIDTH <= i32::MAX,
        i32::MIN <= pixel_index(p@) <= i32::MAX,
    ensures
        index == pixel_index(p@),
{
    (p.y * SCREEN_WIDTH) + p.x
}

/// Draws the line from `(coords[0], coords[1])` to `(coords[2], coords[3])`
/// into `buffer`: every pixel of the line, both ends included, gets
/// `color`, and no other cell changes.
pub fn draw_line(buffer: &mut Vec<u32>, coords: [i32; 4], color: u32)
    requires
        old(buffer)@.len() == frame_len(),
        on_screen((coords[0] as int, coords[1] as int)),
        on_screen((coords[2] as int, coords[3] as int)),
    ensures
        final(buffer)@.len() == frame_len(),
        final(buffer)@ == painted(
            old(buffer)@,
            line_pixels(
                (coords[0] as int, coords[1] as int),
                (coords[2] as int, coords[3] as int),
            ),
            color,
        ),
{
    let start = Point { x: coords[0], y: coords[1] };
    let target = Point { x: coords[2], y: coords[3] };
    let ghost before = buffer@;
    let ghost line = line_pixels(start@, target@);

    let points: Vec<Point> = bresenham_points(start, target);
    proof {
        lemma_painted_none(before, color);
        assert(line.take(0) =~= Seq::empty());
    }
    let mut i: usize = 0;
    while i < points.len()
        invariant
            i <= points.len(),
            points@.len() == span(start@, target@),
            forall|k: int|
                0 <= k < points@.len() ==> (#[trigger] points@[k])@ == line_pixel(
                    start@,
                    target@,
                    k,
                ),
            on_screen(start@),
            on_screen(target@),
            line == line_pixels(start@, target@),
            before.len() == frame_len(),
            buffer@ == painted(before, line.take(i as int), color),
        decreases points.len() - i,
    {
        let p: Point = points[i];
        proof {
            lemma_line_on_screen(start@, target@, i as int);
            lemma_painted_push(before, line.take(i as int), p@, color);
            assert(line.take(i as int + 1) =~= line.take(i as int).push(p@));
        }
        let index: i32 = get_point(p);
        buffer[index as usize] = color;
        i += 1;
    }
    proof {
        lemma_line_ends(start@, target@);
        lemma_painted_push(before, line.take(i as int), target@, color);
        assert(line =~= line.take(i as int).push(target@));
    }
    let index: i32 = get_point(target);
    buffer[index as usize] = color;
}

/// Draws the outline of the triangle `points` into `buffer`, with no fill:
/// every pixel of its three lines gets `color`, and no other cell changes.
pub fn draw_triangle(buffer: &mut Vec<u32>, points: [Point; 3], color: u32)
    requires
        old(buffer)@.len() == frame_len(),
        on_screen(points[0]@),
        on_screen(points[1]@),
        on_screen(points[2]@),
    ensures
        final(buffer)@.len() == frame_len(),
        final(buffer)@ == painted(
            old(buffer)@,
            outline(points[0]@, points[1]@, points[2]@),
            color,
        ),
{
    let ghost before = buffer@;
    let ghost first = line_pixels(points[0]@, points[1]@);
    let ghost second = line_pixels(points[1]@, points[2]@);
    let ghost third = line_pixels(points[0]@, points[2]@);
    draw_line(buffer, [points[0].x, points[0].y, points[1].x, points[1].y], color);
    draw_line(buffer, [points[1].x, points[1].y, points[2].x, points[2].y], color);
    draw_line(buffer, [points[0].x, points[0].y, points[2].x, points[2].y], color);
    proof {
        lemma_painted_twice(before, first, second, color);
        lemma_painted_twice(before, first + second, third, color);
    }
}

/// Makes the buffer of a new frame: one cell for each pixel of the screen,
/// every one of them zero.
pub fn blank_frame() -> (buffer: Vec<u32>)
    ensures
        buffer@.len() == frame_len(),
        buffer@ == blank(),
{
    let buffer: Vec<u32> = vec![0u32; (SCREEN_WIDTH * SCREEN_HEIGHT) as usize];
    assert(buffer@ =~= blank());
    buffer
}

/// Renders one frame: starts from a blank buffer and draws the outline of
/// each of `triangles` into it, in their order.
pub fn render_frame(triangles: &Vec<[Point; 3]>, color: u32) -> (buffer: Vec<u32>)
    requires
        all_on_screen(triangles@),
    ensures
        buffer@.len() == frame_len(),
        buffer@ == painted(blank(), outlines(triangles@), color),
{
    let mut buffer: Vec<u32> = blank_frame();
    proof {
        lemma_painted_none(blank(), color);
        assert(triangles@.take(0) =~= Seq::empty());
    }
    let mut i: usize = 0;
    while i < triangles.len()
        invariant
            i <= triangles.len(),
            all_on_screen(triangles@),
            buffer@ == painted(blank(), outlines(triangles@.take(i as int)), color),
        decreases triangles.len() - i,
    {
        let triangle: [Point; 3] = triangles[i];
        proof {
            assert(on_screen(triangles@[i as int][0]@));
            assert(on_screen(triangles@[i as int][1]@));
            assert(on_screen(triangles@[i as int][2]@));
            let done = triangles@.take(i as int);
            let next = triangles@.take(i as int + 1);
            assert(next.drop_last() =~= done);
            assert(next.last() == triangle);
            lemma_painted_twice(
                blank(),
                outlines(done),
                outline(triangle[0]@, triangle[1]@, triangle[2]@),
                color,
            );
        }
        draw_triangle(&mut buffer, triangle, color);
        i += 1;
    }
    assert(triangles@.take(i as int) =~= triangles@);
    buffer
}

} // verus!
