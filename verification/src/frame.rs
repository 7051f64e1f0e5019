//! RGBA frame buffers: `w` x `h` pixels of four bytes (R, G, B, A), stored
//! row by row.
use vstd::prelude::*;

verus! {

/// Byte `c` of pixel (`x`, `y`).
pub open spec fn px(w: int, x: int, y: int, c: int) -> int {
    (y * w + x) * 4 + c
}

/// Channel `c` of a colour.
pub open spec fn channel(r: u8, g: u8, b: u8, a: u8, c: int) -> u8 {
    if c == 0 { r } else if c == 1 { g } else if c == 2 { b } else { a }
}

/// Whether (`x`, `y`, `c`) names a byte of the frame.
pub open spec fn in_frame(w: int, h: int, x: int, y: int, c: int) -> bool {
    0 <= x < w && 0 <= y < h && 0 <= c < 4
}

pub proof fn lemma_px_in_range(w: int, h: int, x: int, y: int, c: int)
    requires
        in_frame(w, h, x, y, c),
    ensures
        0 <= px(w, x, y, c) < 4 * (w * h),
{
    assert(0 <= (y * w + x) * 4 + c < 4 * (w * h)) by (nonlinear_arith)
        requires
            0 <= x < w,
            0 <= y < h,
            0 <= c < 4,
    ;
}

pub proof fn lemma_px_distinct(w: int, h: int, x1: int, y1: int, c1: int, x2: int, y2: int, c2: int)
    requires
        in_frame(w, h, x1, y1, c1),
        in_frame(w, h, x2, y2, c2),
        x1 != x2 || y1 != y2 || c1 != c2,
    ensures
        px(w, x1, y1, c1) != px(w, x2, y2, c2),
{
    if y1 == y2 {
    } else if y1 < y2 {
        assert(y1 * w + x1 < y2 * w + x2) by (nonlinear_arith)
            requires
                0 <= x1 < w,
                0 <= x2 < w,
                y1 < y2,
        ;
    } else {
        assert(y2 * w + x2 < y1 * w + x1) by (nonlinear_arith)
            requires
                0 <= x1 < w,
                0 <= x2 < w,
                y2 < y1,
        ;
    }
}

/// Whether a frame of `w` x `h` pixels is `frame` (the buffer has the
/// right length).
pub open spec fn frame_ok(frame: Seq<u8>, w: int, h: int) -> bool {
    frame.len() == 4 * (w * h)
}

/// `after` is `before` with pixel (`x`, `y`) set to `(r, g, b, a)` and
/// nothing else changed.
pub open spec fn one_pixel_set(before: Seq<u8>, after: Seq<u8>, w: int, h: int, x: int, y: int, r: u8, g: u8, b: u8, a: u8) -> bool {
    &&& after.len() == before.len()
    &&& forall|x2: int, y2: int, c: int| in_frame(w, h, x2, y2, c) ==> #[trigger] after[px(w, x2, y2, c)] == (
        if x2 == x && y2 == y { channel(r, g, b, a, c) } else { before[px(w, x2, y2, c)] })
}

/// Write pixel (`x`, `y`), which must be on the frame.
pub fn put_pixel(pixels: &mut Vec<u8>, w: usize, h: usize, x: usize, y: usize, r: u8, g: u8, b: u8, a: u8)
    requires
        frame_ok(old(pixels)@, w as int, h as int),
        x < w,
        y < h,
    ensures
        one_pixel_set(old(pixels)@, final(pixels)@, w as int, h as int, x as int, y as int, r, g, b, a),
{
    let len = pixels.len();
    proof {
        lemma_px_in_range(w as int, h as int, x as int, y as int, 3);
        assert(0 <= y * w <= y * w + x) by (nonlinear_arith)
            requires
                0 <= y,
                0 <= w,
                0 <= x,
        ;
    }
    let p = (y * w + x) * 4;
    pixels.set(p, r);
    pixels.set(p + 1, g);
    pixels.set(p + 2, b);
    pixels.set(p + 3, a);
    proof {
        assert forall|x2: int, y2: int, c: int| in_frame(w as int, h as int, x2, y2, c) implies #[trigger] pixels@[px(w as int, x2, y2, c)] == (
            if x2 == x && y2 == y { channel(r, g, b, a, c) } else { old(pixels)@[px(w as int, x2, y2, c)] }) by {
            lemma_px_in_range(w as int, h as int, x2, y2, c);
            if x2 != x || y2 != y {
                lemma_px_distinct(w as int, h as int, x2, y2, c, x as int, y as int, 0);
                lemma_px_distinct(w as int, h as int, x2, y2, c, x as int, y as int, 1);
                lemma_px_distinct(w as int, h as int, x2, y2, c, x as int, y as int, 2);
                lemma_px_distinct(w as int, h as int, x2, y2, c, x as int, y as int, 3);
            }
        }
    }
}

/// Set pixel (`x`, `y`) to the opaque colour (`r`, `g`, `b`) when it lies
/// on the `buf_w` x `height` frame; otherwise do nothing.
pub fn set_pixel_if(pixels: &mut Vec<u8>, buf_w: usize, height: usize, x: usize, y: usize, r: u8, g: u8, b: u8)
    requires
        frame_ok(old(pixels)@, buf_w as int, height as int),
    ensures
        x < buf_w && y < height ==> one_pixel_set(old(pixels)@, final(pixels)@, buf_w as int, height as int, x as int, y as int, r, g, b, 0xFF),
        !(x < buf_w && y < height) ==> final(pixels)@ == old(pixels)@,
{
    if x < buf_w && y < height {
        put_pixel(pixels, buf_w, height, x, y, r, g, b, 0xFF);
    }
}

/// Cells of a `w` x `h` grid stored row by row have indices inside the
/// grid.
pub proof fn lemma_cell_index(w: int, h: int, x: int, y: int)
    requires
        0 <= x < w,
        0 <= y < h,
    ensures
        0 <= y * w <= y * w + x < w * h,
{
    assert(0 <= y * w <= y * w + x < w * h) by (nonlinear_arith)
        requires
            0 <= x < w,
            0 <= y < h,
    ;
}

} // verus!
