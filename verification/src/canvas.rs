//! The pixel buffer as a mathematical sequence: where a pixel lies in it, and
//! what it holds once a sequence of pixels has been painted.

use vstd::prelude::*;

use crate::engine::{SCREEN_HEIGHT, SCREEN_WIDTH};

verus! {

/// The length of a pixel buffer: one cell for each pixel of the screen.
pub open spec fn frame_len() -> int {
    SCREEN_WIDTH * SCREEN_HEIGHT
}

/// The pixel `p` lies on the screen.
pub open spec fn on_screen(p: (int, int)) -> bool {
    0 <= p.0 < SCREEN_WIDTH && 0 <= p.1 < SCREEN_HEIGHT
}

/// Where the pixel `p` lies in a row-major buffer whose rows are
/// `SCREEN_WIDTH` long.
pub open spec fn pixel_index(p: (int, int)) -> int {
    p.1 * SCREEN_WIDTH + p.0
}

/// One of `pixels` lies at index `i` of the buffer.
pub open spec fn covers(pixels: Seq<(int, int)>, i: int) -> bool {
    exists|k: int| 0 <= k < pixels.len() && pixel_index(#[trigger] pixels[k]) == i
}

/// The buffer `buffer` after each of `pixels` has been given `color`: the
/// cells that one of the pixels lies at hold `color`, all others are as they
/// were.
pub open spec fn painted(buffer: Seq<u32>, pixels: Seq<(int, int)>, color: u32) -> Seq<u32> {
    Seq::new(
        buffer.len(),
        |i: int|
            if covers(pixels, i) {
                color
            } else {
                buffer[i]
            },
    )
}

/// The buffer of a frame before anything is drawn: every cell is zero.
pub open spec fn blank() -> Seq<u32> {
    Seq::new(frame_len() as nat, |i: int| 0u32)
}

/// Every pixel of the screen has a cell of the buffer, and no two of them
/// share one.
pub proof fn lemma_index_on_screen(p: (int, int), q: (int, int))
    requires
        on_screen(p),
    ensures
        0 <= pixel_index(p) < frame_len(),
        on_screen(q) && pixel_index(q) == pixel_index(p) ==> q == p,
{
}

/// What painting does, pixel by pixel: where all of `pixels` lie on the
/// screen, a pixel `q` of the screen holds `color` afterwards if it is one of
/// them, and what it held before if it is not.
pub proof fn lemma_painted_pixel(
    buffer: Seq<u32>,
    pixels: Seq<(int, int)>,
    color: u32,
    q: (int, int),
)
    requires
        buffer.len() == frame_len(),
        forall|k: int| 0 <= k < pixels.len() ==> on_screen(#[trigger] pixels[k]),
        on_screen(q),
    ensures
        painted(buffer, pixels, color)[pixel_index(q)] == if pixels.contains(q) {
            color
        } else {
            buffer[pixel_index(q)]
        },
{
    lemma_index_on_screen(q, q);
    if pixels.contains(q) {
        let k = choose|k: int| 0 <= k < pixels.len() && pixels[k] == q;
        assert(pixel_index(pixels[k]) == pixel_index(q));
    } else if covers(pixels, pixel_index(q)) {
        let k = choose|k: int|
            0 <= k < pixels.len() && pixel_index(#[trigger] pixels[k]) == pixel_index(q);
        lemma_index_on_screen(q, pixels[k]);
    }
}

/// Painting no pixel leaves the buffer as it is.
pub proof fn lemma_painted_none(buffer: Seq<u32>, color: u32)
    ensures
        painted(buffer, Seq::empty(), color) == buffer,
{
    assert(painted(buffer, Seq::empty(), color) =~= buffer);
}

/// Painting one pixel more writes one cell more.
pub proof fn lemma_painted_push(buffer: Seq<u32>, pixels: Seq<(int, int)>, p: (int, int), color: u32)
    requires
        0 <= pixel_index(p) < buffer.len(),
    ensures
        painted(buffer, pixels.push(p), color) == painted(buffer, pixels, color).update(
            pixel_index(p),
            color,
        ),
{
    let more = pixels.push(p);
    let left = painted(buffer, more, color);
    let right = painted(buffer, pixels, color).update(pixel_index(p), color);
    assert forall|i: int| 0 <= i < buffer.len() implies left[i] == right[i] by {
        if i == pixel_index(p) {
            assert(more[pixels.len() as int] == p);
            assert(covers(more, i));
        } else if covers(pixels, i) {
            let k = choose|k: int| 0 <= k < pixels.len() && pixel_index(#[trigger] pixels[k]) == i;
            assert(more[k] == pixels[k]);
            assert(covers(more, i));
        } else if covers(more, i) {
            let k = choose|k: int| 0 <= k < more.len() && pixel_index(#[trigger] more[k]) == i;
            assert(k < pixels.len());
            assert(pixels[k] == more[k]);
        }
    }
    assert(left =~= right);
}

/// Painting one sequence of pixels and then another is painting the two in
/// a row.
pub proof fn lemma_painted_twice(
    buffer: Seq<u32>,
    first: Seq<(int, int)>,
    second: Seq<(int, int)>,
    color: u32,
)
    ensures
        painted(painted(buffer, first, color), second, color) == painted(
            buffer,
            first + second,
            color,
        ),
{
    let both = first + second;
    let left = painted(painted(buffer, first, color), second, color);
    let right = painted(buffer, both, color);
    assert forall|i: int| 0 <= i < buffer.len() implies left[i] == right[i] by {
        if covers(second, i) {
            let k = choose|k: int| 0 <= k < second.len() && pixel_index(#[trigger] second[k]) == i;
            assert(both[first.len() + k] == second[k]);
            assert(covers(both, i));
        } else if covers(first, i) {
            let k = choose|k: int| 0 <= k < first.len() && pixel_index(#[trigger] first[k]) == i;
            assert(both[k] == first[k]);
            assert(covers(both, i));
        } else if covers(both, i) {
            let k = choose|k: int| 0 <= k < both.len() && pixel_index(#[trigger] both[k]) == i;
            if k < first.len() {
                assert(first[k] == both[k]);
            } else {
                assert(second[k - first.len()] == both[k]);
            }
        }
    }
    assert(left =~= right);
}

} // verus!
