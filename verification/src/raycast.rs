//! The integer side of a raycaster: the hand-built 64x64 maze, wall
//! lookups, and drawing into the RGBA frame buffer (screen columns and the
//! minimap overlay). The camera and the ray marching work in floating point
//! and stay with the caller.
use vstd::prelude::*;
use crate::frame::{px, channel, in_frame, frame_ok, put_pixel, set_pixel_if, lemma_px_in_range};

verus! {

pub const MAP_W: usize = 64;
pub const MAP_H: usize = 64;
pub const MAP_SIZE: usize = 4096;
pub const MINIMAP_SCALE: usize = 2;
pub const MINIMAP_W: usize = 128;
pub const MINIMAP_H: usize = 128;
pub const MINIMAP_PAD: usize = 4;

/// Interior walls as inclusive (x1, y1, x2, y2) segments; each is either
/// horizontal or vertical.
pub open spec fn walls() -> Seq<(usize, usize, usize, usize)> {
    seq![
        (1usize, 8usize, 20usize, 8usize),
        (25, 8, 40, 8),
        (45, 8, 62, 8),
        (1, 16, 12, 16),
        (18, 16, 30, 16),
        (36, 16, 50, 16),
        (55, 16, 62, 16),
        (1, 24, 15, 24),
        (22, 24, 42, 24),
        (48, 24, 62, 24),
        (1, 32, 10, 32),
        (16, 32, 28, 32),
        (34, 32, 48, 32),
        (54, 32, 62, 32),
        (1, 40, 18, 40),
        (24, 40, 38, 40),
        (44, 40, 62, 40),
        (1, 48, 14, 48),
        (20, 48, 34, 48),
        (40, 48, 52, 48),
        (58, 48, 62, 48),
        (1, 56, 8, 56),
        (14, 56, 30, 56),
        (36, 56, 50, 56),
        (56, 56, 62, 56),
        (10, 1, 10, 6),
        (20, 1, 20, 6),
        (32, 1, 32, 6),
        (50, 1, 50, 6),
        (8, 9, 8, 14),
        (24, 9, 24, 14),
        (40, 9, 40, 14),
        (56, 9, 56, 14),
        (12, 17, 12, 22),
        (30, 17, 30, 22),
        (48, 17, 48, 22),
        (10, 25, 10, 30),
        (22, 25, 22, 30),
        (36, 25, 36, 30),
        (54, 25, 54, 30),
        (16, 33, 16, 38),
        (28, 33, 28, 38),
        (44, 33, 44, 38),
        (8, 41, 8, 46),
        (20, 41, 20, 46),
        (38, 41, 38, 46),
        (52, 41, 52, 46),
        (14, 49, 14, 54),
        (34, 49, 34, 54),
        (50, 49, 50, 54)
    ]
}

/// Top-left corners of the 2x2 pillars.
pub open spec fn pillars() -> Seq<(usize, usize)> {
    seq![(15usize, 12usize), (35, 12), (55, 12), (5, 28), (25, 28), (45, 28), (15, 44), (35, 44), (55, 44)]
}

/// Whether wall segment `k` covers (`x`, `y`); segments are clipped to the
/// map.
pub open spec fn on_segment(k: int, x: int, y: int) -> bool {
    let s = walls()[k];
    if s.1 == s.3 {
        y == s.1 && s.0 <= x <= s.2 && x < 64
    } else if s.0 == s.2 {
        x == s.0 && s.1 <= y <= s.3 && y < 64
    } else {
        false
    }
}

/// Whether one of the first `k` wall segments covers (`x`, `y`).
pub open spec fn on_segments(k: nat, x: int, y: int) -> bool
    decreases k,
{
    k > 0 && (on_segments((k - 1) as nat, x, y) || on_segment(k - 1, x, y))
}

/// Whether pillar `k` covers (`x`, `y`).
pub open spec fn on_pillar(k: int, x: int, y: int) -> bool {
    let p = pillars()[k];
    p.0 <= x < p.0 + 2 && p.1 <= y < p.1 + 2 && x < 64 && y < 64
}

pub open spec fn on_pillars(k: nat, x: int, y: int) -> bool
    decreases k,
{
    k > 0 && (on_pillars((k - 1) as nat, x, y) || on_pillar(k - 1, x, y))
}

pub open spec fn on_border(x: int, y: int) -> bool {
    x == 0 || x == 63 || y == 0 || y == 63
}

/// Whether map cell (`x`, `y`) is a wall.
pub open spec fn is_wall(x: int, y: int) -> bool {
    on_border(x, y) || on_segments(50, x, y) || on_pillars(9, x, y)
}

/// The maze, row by row: 1 for wall, 0 for open floor.
pub open spec fn maze() -> Seq<u8> {
    Seq::new(4096, |i: int| if is_wall(i % 64, i / 64) { 1u8 } else { 0u8 })
}

fn wall_list() -> (v: Vec<(usize, usize, usize, usize)>)
    ensures
        v@ == walls(),
{
    let v = vec![
        (1usize, 8usize, 20usize, 8usize),
        (25, 8, 40, 8),
        (45, 8, 62, 8),
        (1, 16, 12, 16),
        (18, 16, 30, 16),
        (36, 16, 50, 16),
        (55, 16, 62, 16),
        (1, 24, 15, 24),
        (22, 24, 42, 24),
        (48, 24, 62, 24),
        (1, 32, 10, 32),
        (16, 32, 28, 32),
        (34, 32, 48, 32),
        (54, 32, 62, 32),
        (1, 40, 18, 40),
        (24, 40, 38, 40),
        (44, 40, 62, 40),
        (1, 48, 14, 48),
        (20, 48, 34, 48),
        (40, 48, 52, 48),
        (58, 48, 62, 48),
        (1, 56, 8, 56),
        (14, 56, 30, 56),
        (36, 56, 50, 56),
        (56, 56, 62, 56),
        (10, 1, 10, 6),
        (20, 1, 20, 6),
        (32, 1, 32, 6),
        (50, 1, 50, 6),
        (8, 9, 8, 14),
        (24, 9, 24, 14),
        (40, 9, 40, 14),
        (56, 9, 56, 14),
        (12, 17, 12, 22),
        (30, 17, 30, 22),
        (48, 17, 48, 22),
        (10, 25, 10, 30),
        (22, 25, 22, 30),
        (36, 25, 36, 30),
        (54, 25, 54, 30),
        (16, 33, 16, 38),
        (28, 33, 28, 38),
        (44, 33, 44, 38),
        (8, 41, 8, 46),
        (20, 41, 20, 46),
        (38, 41, 38, 46),
        (52, 41, 52, 46),
        (14, 49, 14, 54),
        (34, 49, 34, 54),
        (50, 49, 50, 54)
    ];
    assert(v@ =~= walls());
    v
}

fn pillar_list() -> (v: Vec<(usize, usize)>)
    ensures
        v@ == pillars(),
{
    let v = vec![(15usize, 12usize), (35, 12), (55, 12), (5, 28), (25, 28), (45, 28), (15, 44), (35, 44), (55, 44)];
    assert(v@ =~= pillars());
    v
}

/// Splits a map index into column and row.
proof fn lemma_map_cell(x: int, y: int)
    requires
        0 <= x < 64,
        0 <= y < 64,
    ensures
        (y * 64 + x) % 64 == x,
        (y * 64 + x) / 64 == y,
        0 <= y * 64 + x < 4096,
{
    vstd::arithmetic::div_mod::lemma_fundamental_div_mod_converse(y * 64 + x, 64, y, x);
}

/// Build the maze: outer walls, interior corridors, and pillars.
pub fn generate_map() -> (m: Vec<u8>)
    ensures
        m@ == maze(),
{
    let mut m: Vec<u8> = Vec::new();
    while m.len() < MAP_SIZE
        invariant
            m.len() <= MAP_SIZE,
            forall|i: int| 0 <= i < m.len() ==> m@[i] == 0u8,
        decreases MAP_SIZE - m.len(),
    {
        m.push(0);
    }

    // Outer walls
    let mut x: usize = 0;
    while x < MAP_W
        invariant
            x <= MAP_W,
            m@.len() == 4096,
            forall|i: int| 0 <= i < 4096 ==> #[trigger] m@[i] == (
                if (i / 64 == 0 || i / 64 == 63) && i % 64 < x { 1u8 } else { 0u8 }),
        decreases MAP_W - x,
    {
        proof {
            lemma_map_cell(x as int, 0);
            lemma_map_cell(x as int, 63);
        }
        m.set(x, 1);
        m.set((MAP_H - 1) * MAP_W + x, 1);
        x += 1;
    }
    let mut y: usize = 0;
    while y < MAP_H
        invariant
            y <= MAP_H,
            m@.len() == 4096,
            forall|i: int| 0 <= i < 4096 ==> #[trigger] m@[i] == (
                if i / 64 == 0 || i / 64 == 63 || ((i % 64 == 0 || i % 64 == 63) && i / 64 < y) { 1u8 } else { 0u8 }),
        decreases MAP_H - y,
    {
        proof {
            lemma_map_cell(0, y as int);
            lemma_map_cell(63, y as int);
        }
        m.set(y * MAP_W, 1);
        m.set(y * MAP_W + MAP_W - 1, 1);
        y += 1;
    }
    assert forall|i: int| 0 <= i < 4096 implies #[trigger] m@[i] == (
        if on_border(i % 64, i / 64) || on_segments(0, i % 64, i / 64) { 1u8 } else { 0u8 }) by {}

    // Interior walls
    let walls_v = wall_list();
    let mut k: usize = 0;
    while k < walls_v.len()
        invariant
            walls_v@ == walls(),
            k <= 50,
            m@.len() == 4096,
            forall|i: int| 0 <= i < 4096 ==> #[trigger] m@[i] == (
                if on_border(i % 64, i / 64) || on_segments(k as nat, i % 64, i / 64) { 1u8 } else { 0u8 }),
        decreases 50 - k,
    {
        let (x1, y1, x2, y2) = walls_v[k];
        let ghost kk = k as int;
        if y1 == y2 {
            // Horizontal wall
            let x_end = if x2 < MAP_W - 1 { x2 } else { MAP_W - 1 };
            let mut x: usize = x1;
            while x <= x_end
                invariant
                    walls_v@ == walls(),
                    kk == k,
                    k < 50,
                    walls()[kk] == (x1, y1, x2, y2),
                    y1 == y2,
                    y1 < 64,
                    x_end < 64,
                    x_end == (if x2 < 63 { x2 } else { 63 }),
                    x1 <= x <= x_end + 1 || (x == x1 && x1 > x_end + 1),
                    m@.len() == 4096,
                    forall|i: int| 0 <= i < 4096 ==> #[trigger] m@[i] == (
                        if on_border(i % 64, i / 64) || on_segments(k as nat, i % 64, i / 64)
                            || (i / 64 == y1 && x1 <= i % 64 < x) { 1u8 } else { 0u8 }),
                decreases x_end + 1 - x,
            {
                proof {
                    lemma_map_cell(x as int, y1 as int);
                }
                m.set(y1 * MAP_W + x, 1);
                x += 1;
            }
        } else if x1 == x2 {
            // Vertical wall
            let y_end = if y2 < MAP_H - 1 { y2 } else { MAP_H - 1 };
            let mut y: usize = y1;
            while y <= y_end
                invariant
                    walls_v@ == walls(),
                    kk == k,
                    k < 50,
                    walls()[kk] == (x1, y1, x2, y2),
                    x1 == x2,
                    y1 != y2,
                    x1 < 64,
                    y_end < 64,
                    y_end == (if y2 < 63 { y2 } else { 63 }),
                    y1 <= y <= y_end + 1 || (y == y1 && y1 > y_end + 1),
                    m@.len() == 4096,
                    forall|i: int| 0 <= i < 4096 ==> #[trigger] m@[i] == (
                        if on_border(i % 64, i / 64) || on_segments(k as nat, i % 64, i / 64)
                            || (i % 64 == x1 && y1 <= i / 64 < y) { 1u8 } else { 0u8 }),
                decreases y_end + 1 - y,
            {
                proof {
                    lemma_map_cell(x1 as int, y as int);
                }
                m.set(y * MAP_W + x1, 1);
                y += 1;
            }
        }
        k += 1;
    }
    assert forall|i: int| 0 <= i < 4096 implies #[trigger] m@[i] == (
        if on_border(i % 64, i / 64) || on_segments(50, i % 64, i / 64) || on_pillars(0, i % 64, i / 64) { 1u8 } else { 0u8 }) by {}

    // Pillars (2x2 blocks)
    let pillars_v = pillar_list();
    let mut k: usize = 0;
    while k < pillars_v.len()
        invariant
            pillars_v@ == pillars(),
            k <= 9,
            m@.len() == 4096,
            forall|i: int| 0 <= i < 4096 ==> #[trigger] m@[i] == (
                if on_border(i % 64, i / 64) || on_segments(50, i % 64, i / 64) || on_pillars(k as nat, i % 64, i / 64) { 1u8 } else { 0u8 }),
        decreases 9 - k,
    {
        let (px, py) = pillars_v[k];
        let ghost kk = k as int;
        let mut dy: usize = 0;
        while dy < 2
            invariant
                pillars_v@ == pillars(),
                kk == k,
                k < 9,
                pillars()[kk] == (px, py),
                px < 64,
                py < 64,
                dy <= 2,
                m@.len() == 4096,
                forall|i: int| 0 <= i < 4096 ==> #[trigger] m@[i] == (
                    if on_border(i % 64, i / 64) || on_segments(50, i % 64, i / 64) || on_pillars(k as nat, i % 64, i / 64)
                        || (px <= i % 64 < px + 2 && py <= i / 64 < py + dy) { 1u8 } else { 0u8 }),
            decreases 2 - dy,
        {
            let mut dx: usize = 0;
            while dx < 2
                invariant
                    pillars_v@ == pillars(),
                    kk == k,
                    k < 9,
                    pillars()[kk] == (px, py),
                    px < 64,
                    py < 64,
                    dy < 2,
                    dx <= 2,
                    m@.len() == 4096,
                    forall|i: int| 0 <= i < 4096 ==> #[trigger] m@[i] == (
                        if on_border(i % 64, i / 64) || on_segments(50, i % 64, i / 64) || on_pillars(k as nat, i % 64, i / 64)
                            || (px <= i % 64 < px + 2 && py <= i / 64 < py + dy)
                            || (px <= i % 64 < px + dx && i / 64 == py + dy) { 1u8 } else { 0u8 }),
                decreases 2 - dx,
            {
                let x = px + dx;
                let y = py + dy;
                if x < MAP_W && y < MAP_H {
                    proof {
                        lemma_map_cell(x as int, y as int);
                    }
                    m.set(y * MAP_W + x, 1);
                }
                dx += 1;
            }
            dy += 1;
        }
        k += 1;
    }
    assert(m@ =~= maze());
    m
}

// ---------------------------------------------------------------------------
// Wall lookups
// ---------------------------------------------------------------------------

/// Whether map cell (`xi`, `yi`) is open floor; cells off the map count as
/// walls.
pub fn is_open_cell(map: &Vec<u8>, xi: usize, yi: usize) -> (open: bool)
    requires
        map@.len() == MAP_SIZE,
    ensures
        open == (xi < MAP_W && yi < MAP_H && map@[yi * 64 + xi] == 0),
{
    xi < MAP_W && yi < MAP_H && map[yi * MAP_W + xi] == 0
}

// ---------------------------------------------------------------------------
// Screen columns
// ---------------------------------------------------------------------------

/// Byte `c` of row `y` in a column whose wall spans rows [`start`, `end`):
/// dark grey ceiling above, the wall colour, dark brown floor below.
pub open spec fn column_byte(y: int, start: int, end: int, r: u8, g: u8, b: u8, c: int) -> u8 {
    if y < start {
        channel(0x22, 0x22, 0x28, 0xFF, c)
    } else if y < end {
        channel(r, g, b, 0xFF, c)
    } else {
        channel(0x30, 0x24, 0x18, 0xFF, c)
    }
}

/// `after` is `before` with column `x` painted with the wall spanning
/// [`start`, `end`).
pub open spec fn column_painted(before: Seq<u8>, after: Seq<u8>, w: int, h: int, x: int, start: int, end: int, r: u8, g: u8, b: u8) -> bool {
    &&& after.len() == before.len()
    &&& forall|x2: int, y2: int, c: int| in_frame(w, h, x2, y2, c) ==> #[trigger] after[px(w, x2, y2, c)] == (
        if x2 == x { column_byte(y2, start, end, r, g, b, c) } else { before[px(w, x2, y2, c)] })
}

/// Paint rows [`from`, `to`) of column `x` with one opaque colour.
fn fill_rows(pixels: &mut Vec<u8>, w: usize, h: usize, x: usize, from: usize, to: usize, r: u8, g: u8, b: u8)
    requires
        frame_ok(old(pixels)@, w as int, h as int),
        x < w,
        from <= to <= h,
    ensures
        final(pixels)@.len() == old(pixels)@.len(),
        forall|x2: int, y2: int, c: int| in_frame(w as int, h as int, x2, y2, c) ==> #[trigger] final(pixels)@[px(w as int, x2, y2, c)] == (
            if x2 == x && from <= y2 < to { channel(r, g, b, 0xFF, c) } else { old(pixels)@[px(w as int, x2, y2, c)] }),
{
    let mut y = from;
    while y < to
        invariant
            frame_ok(pixels@, w as int, h as int),
            pixels@.len() == old(pixels)@.len(),
            x < w,
            from <= y <= to <= h,
            forall|x2: int, y2: int, c: int| in_frame(w as int, h as int, x2, y2, c) ==> #[trigger] pixels@[px(w as int, x2, y2, c)] == (
                if x2 == x && from <= y2 < y { channel(r, g, b, 0xFF, c) } else { old(pixels)@[px(w as int, x2, y2, c)] }),
        decreases to - y,
    {
        let ghost before = pixels@;
        put_pixel(pixels, w, h, x, y, r, g, b, 0xFF);
        proof {
            assert forall|x2: int, y2: int, c: int| in_frame(w as int, h as int, x2, y2, c) implies #[trigger] pixels@[px(w as int, x2, y2, c)] == (
                if x2 == x && from <= y2 < y + 1 { channel(r, g, b, 0xFF, c) } else { old(pixels)@[px(w as int, x2, y2, c)] }) by {
                assert(pixels@[px(w as int, x2, y2, c)] == (if x2 == x && y2 == y { channel(r, g, b, 0xFF, c) } else { before[px(w as int, x2, y2, c)] }));
            }
        }
        y += 1;
    }
}

/// Paint column `x`: ceiling above row `draw_start`, the wall colour down
/// to row `draw_end`, floor below.
pub fn draw_column(pixels: &mut Vec<u8>, w: usize, h: usize, x: usize, draw_start: usize, draw_end: usize, r: u8, g: u8, b: u8)
    requires
        frame_ok(old(pixels)@, w as int, h as int),
        x < w,
        draw_start <= draw_end <= h,
    ensures
        column_painted(old(pixels)@, final(pixels)@, w as int, h as int, x as int, draw_start as int, draw_end as int, r, g, b),
{
    let ghost p0 = pixels@;
    // Ceiling (dark grey)
    fill_rows(pixels, w, h, x, 0, draw_start, 0x22, 0x22, 0x28);
    let ghost p1 = pixels@;
    // Wall
    fill_rows(pixels, w, h, x, draw_start, draw_end, r, g, b);
    let ghost p2 = pixels@;
    // Floor (dark brown)
    fill_rows(pixels, w, h, x, draw_end, h, 0x30, 0x24, 0x18);
    proof {
        assert forall|x2: int, y2: int, c: int| in_frame(w as int, h as int, x2, y2, c) implies #[trigger] pixels@[px(w as int, x2, y2, c)] == (
            if x2 == x { column_byte(y2, draw_start as int, draw_end as int, r, g, b, c) } else { p0[px(w as int, x2, y2, c)] }) by {
            assert(p1[px(w as int, x2, y2, c)] == (if x2 == x && 0 <= y2 < draw_start { channel(0x22, 0x22, 0x28, 0xFF, c) } else { p0[px(w as int, x2, y2, c)] }));
            assert(p2[px(w as int, x2, y2, c)] == (if x2 == x && draw_start <= y2 < draw_end { channel(r, g, b, 0xFF, c) } else { p1[px(w as int, x2, y2, c)] }));
        }
    }
}

/// Paint column `x` of a frame `h` rows high when the ray hit no wall:
/// ceiling on the top half, floor on the bottom half.
pub fn draw_column_no_wall(pixels: &mut Vec<u8>, w: usize, h: usize, x: usize)
    requires
        frame_ok(old(pixels)@, w as int, h as int),
        x < w,
    ensures
        column_painted(old(pixels)@, final(pixels)@, w as int, h as int, x as int, (h / 2) as int, (h / 2) as int, 0, 0, 0),
{
    let half = h / 2;
    let ghost p0 = pixels@;
    fill_rows(pixels, w, h, x, 0, half, 0x22, 0x22, 0x28);
    let ghost p1 = pixels@;
    fill_rows(pixels, w, h, x, half, h, 0x30, 0x24, 0x18);
    proof {
        assert forall|x2: int, y2: int, c: int| in_frame(w as int, h as int, x2, y2, c) implies #[trigger] pixels@[px(w as int, x2, y2, c)] == (
            if x2 == x { column_byte(y2, half as int, half as int, 0, 0, 0, c) } else { p0[px(w as int, x2, y2, c)] }) by {
            assert(p1[px(w as int, x2, y2, c)] == (if x2 == x && 0 <= y2 < half { channel(0x22, 0x22, 0x28, 0xFF, c) } else { p0[px(w as int, x2, y2, c)] }));
        }
    }
}

/// The rows a wall slice `line_height` pixels tall covers when centred on a
/// screen `h` rows high, clipped to the screen.
pub fn draw_span(line_height: i32, h: i32) -> (span: (usize, usize))
    requires
        line_height >= 0,
        h >= 0,
    ensures
        span.0 as int == (if h / 2 - line_height / 2 > 0 { h / 2 - line_height / 2 } else { 0 }),
        span.1 as int == (if line_height / 2 + h / 2 < h { line_height / 2 + h / 2 } else { h as int }),
        span.0 <= span.1 <= h,
{
    let top = -(line_height / 2) + h / 2;
    let draw_start = if top > 0 { top } else { 0 };
    let bottom = (line_height / 2) + h / 2;
    let draw_end = if bottom < h { bottom } else { h };
    (draw_start as usize, draw_end as usize)
}

/// Walls hit on their y-side are drawn at half brightness.
pub fn shade_side(r: u8, g: u8, b: u8, side: u8) -> (c: (u8, u8, u8))
    ensures
        c == (if side == 1 { (r / 2, g / 2, b / 2) } else { (r, g, b) }),
{
    if side == 1 { (r / 2, g / 2, b / 2) } else { (r, g, b) }
}

// ---------------------------------------------------------------------------
// The minimap overlay (top-left corner, 2x2 pixels per map cell)
// ---------------------------------------------------------------------------

/// Alpha-blend `src` over `dst` with opacity `alpha` out of 255.
pub open spec fn blend(src: u8, alpha: u8, dst: u8) -> u8 {
    ((src * alpha + dst * (255 - alpha)) / 255) as u8
}

/// Whether pixel (`x`, `y`) lies on the minimap.
pub open spec fn on_minimap(x: int, y: int) -> bool {
    4 <= x < 132 && 4 <= y < 132
}

/// Byte `c` of minimap pixel (`x`, `y`) drawn over `old_byte`: walls in
/// translucent slate, floor in translucent near-black, fully opaque result.
pub open spec fn minimap_byte(map: Seq<u8>, x: int, y: int, c: int, old_byte: u8) -> u8 {
    let wall = map[((y - 4) / 2) * 64 + (x - 4) / 2] != 0;
    let alpha: u8 = if wall { 0xCC } else { 0xAA };
    if c == 3 {
        0xFF
    } else if wall {
        blend(channel(0x66, 0x66, 0x88, 0xCC, c), alpha, old_byte)
    } else {
        blend(channel(0x11, 0x11, 0x18, 0xAA, c), alpha, old_byte)
    }
}

/// Whether pixel (`x`, `y`) lies on the minimap's one-pixel frame.
pub open spec fn on_minimap_border(x: int, y: int) -> bool {
    ||| 4 <= x < 132 && (y == 3 || y == 132)
    ||| 4 <= y < 132 && (x == 3 || x == 132)
}

/// Blend the map over the top-left corner of the frame.
pub fn blend_minimap(pixels: &mut Vec<u8>, buf_w: usize, height: usize, map: &Vec<u8>)
    requires
        frame_ok(old(pixels)@, buf_w as int, height as int),
        map@.len() == MAP_SIZE,
    ensures
        final(pixels)@.len() == old(pixels)@.len(),
        forall|x: int, y: int, c: int| in_frame(buf_w as int, height as int, x, y, c) ==> #[trigger] final(pixels)@[px(buf_w as int, x, y, c)] == (
            if on_minimap(x, y) { minimap_byte(map@, x, y, c, old(pixels)@[px(buf_w as int, x, y, c)]) } else { old(pixels)@[px(buf_w as int, x, y, c)] }),
{
    let ghost p0 = pixels@;
    let y_end = if MINIMAP_PAD + MINIMAP_H < height { MINIMAP_PAD + MINIMAP_H } else { height };
    let x_end = if MINIMAP_PAD + MINIMAP_W < buf_w { MINIMAP_PAD + MINIMAP_W } else { buf_w };
    let mut py: usize = MINIMAP_PAD;
    while py < y_end
        invariant
            frame_ok(pixels@, buf_w as int, height as int),
            pixels@.len() == p0.len(),
            p0 == old(pixels)@,
            map@.len() == MAP_SIZE,
            y_end <= height,
            y_end <= 132,
            x_end <= buf_w,
            x_end <= 132,
            x_end == (if 132 < buf_w { 132 } else { buf_w }),
            y_end == (if 132 < height { 132 } else { height }),
            4 <= py,
            py <= y_end || py == 4,
            forall|x: int, y: int, c: int| in_frame(buf_w as int, height as int, x, y, c) ==> #[trigger] pixels@[px(buf_w as int, x, y, c)] == (
                if on_minimap(x, y) && y < py { minimap_byte(map@, x, y, c, p0[px(buf_w as int, x, y, c)]) } else { p0[px(buf_w as int, x, y, c)] }),
        decreases y_end - py,
    {
        let mut px_: usize = MINIMAP_PAD;
        while px_ < x_end
            invariant
                frame_ok(pixels@, buf_w as int, height as int),
                pixels@.len() == p0.len(),
                p0 == old(pixels)@,
                map@.len() == MAP_SIZE,
                y_end <= height,
                y_end <= 132,
                x_end <= buf_w,
                x_end <= 132,
                x_end == (if 132 < buf_w { 132 } else { buf_w }),
                4 <= py < y_end,
                4 <= px_,
                px_ <= x_end || px_ == 4,
                forall|x: int, y: int, c: int| in_frame(buf_w as int, height as int, x, y, c) ==> #[trigger] pixels@[px(buf_w as int, x, y, c)] == (
                    if on_minimap(x, y) && (y < py || (y == py && x < px_)) { minimap_byte(map@, x, y, c, p0[px(buf_w as int, x, y, c)]) } else { p0[px(buf_w as int, x, y, c)] }),
            decreases x_end - px_,
        {
            let mx = (px_ - MINIMAP_PAD) / MINIMAP_SCALE;
            let my = (py - MINIMAP_PAD) / MINIMAP_SCALE;
            let is_wall = map[my * MAP_W + mx] != 0;
            let (r, g, b, a): (u8, u8, u8, u8) = if is_wall { (0x66, 0x66, 0x88, 0xCC) } else { (0x11, 0x11, 0x18, 0xAA) };
            let len = pixels.len();
            proof {
                lemma_px_in_range(buf_w as int, height as int, px_ as int, py as int, 3);
                lemma_px_in_range(buf_w as int, height as int, px_ as int, py as int, 0);
                lemma_px_in_range(buf_w as int, height as int, px_ as int, py as int, 1);
                lemma_px_in_range(buf_w as int, height as int, px_ as int, py as int, 2);
                assert(0 <= py * buf_w <= py * buf_w + px_) by (nonlinear_arith)
                    requires
                        0 <= py,
                        0 <= buf_w,
                        0 <= px_,
                ;
            }
            let p = (py * buf_w + px_) * 4;
            let alpha = a as u16;
            let inv = 255 - alpha;
            let ghost before = pixels@;
            proof {
                assert forall|v: u16, o: u16| v <= 255 && o <= 255 && alpha <= 255 implies #[trigger] (v * alpha + o * (255 - alpha)) <= 65025 by {
                    assert(v * alpha + o * (255 - alpha) <= 255 * alpha + 255 * (255 - alpha)) by (nonlinear_arith)
                        requires
                            v <= 255,
                            o <= 255,
                            alpha <= 255,
                    ;
                }
                assert((r as u16) * alpha + (pixels@[p as int] as u16) * (255 - alpha) <= 65025);
                assert((g as u16) * alpha + (pixels@[p + 1] as u16) * (255 - alpha) <= 65025);
                assert((b as u16) * alpha + (pixels@[p + 2] as u16) * (255 - alpha) <= 65025);
            }
            let nr = ((r as u16 * alpha + pixels[p] as u16 * inv) / 255) as u8;
            let ng = ((g as u16 * alpha + pixels[p + 1] as u16 * inv) / 255) as u8;
            let nb = ((b as u16 * alpha + pixels[p + 2] as u16 * inv) / 255) as u8;
            proof {
                assert(px(buf_w as int, px_ as int, py as int, 0) == p);
                assert(px(buf_w as int, px_ as int, py as int, 1) == p + 1);
                assert(px(buf_w as int, px_ as int, py as int, 2) == p + 2);
                assert(before[p as int] == p0[p as int]);
                assert(before[p + 1] == p0[p + 1]);
                assert(before[p + 2] == p0[p + 2]);
            }
            put_pixel(pixels, buf_w, height, px_, py, nr, ng, nb, 0xFF);
            proof {
                assert forall|x: int, y: int, c: int| in_frame(buf_w as int, height as int, x, y, c) implies #[trigger] pixels@[px(buf_w as int, x, y, c)] == (
                    if on_minimap(x, y) && (y < py || (y == py && x < px_ + 1)) { minimap_byte(map@, x, y, c, p0[px(buf_w as int, x, y, c)]) } else { p0[px(buf_w as int, x, y, c)] }) by {
                    if x == px_ && y == py {
                        assert(mx == (x - 4) / 2 && my == (y - 4) / 2);
                    } else {
                        assert(pixels@[px(buf_w as int, x, y, c)] == before[px(buf_w as int, x, y, c)]);
                    }
                }
            }
            px_ += 1;
        }
        proof {
            assert forall|x: int, y: int, c: int| in_frame(buf_w as int, height as int, x, y, c) implies #[trigger] pixels@[px(buf_w as int, x, y, c)] == (
                if on_minimap(x, y) && y < py + 1 { minimap_byte(map@, x, y, c, p0[px(buf_w as int, x, y, c)]) } else { p0[px(buf_w as int, x, y, c)] }) by {
                if y == py && on_minimap(x, y) {
                    assert(x < px_);
                }
            }
        }
        py += 1;
    }
    proof {
        assert forall|x: int, y: int, c: int| in_frame(buf_w as int, height as int, x, y, c) implies #[trigger] pixels@[px(buf_w as int, x, y, c)] == (
            if on_minimap(x, y) { minimap_byte(map@, x, y, c, p0[px(buf_w as int, x, y, c)]) } else { p0[px(buf_w as int, x, y, c)] }) by {}
    }
}

/// Mark the player with a 2x2 bright green dot whose top-left pixel is
/// (`ppx`, `ppy`), clipped to the frame.
pub fn draw_player_dot(pixels: &mut Vec<u8>, buf_w: usize, height: usize, ppx: usize, ppy: usize)
    requires
        frame_ok(old(pixels)@, buf_w as int, height as int),
        ppx < usize::MAX,
        ppy < usize::MAX,
    ensures
        final(pixels)@.len() == old(pixels)@.len(),
        forall|x: int, y: int, c: int| in_frame(buf_w as int, height as int, x, y, c) ==> #[trigger] final(pixels)@[px(buf_w as int, x, y, c)] == (
            if ppx <= x < ppx + 2 && ppy <= y < ppy + 2 { channel(0x00, 0xFF, 0x00, 0xFF, c) } else { old(pixels)@[px(buf_w as int, x, y, c)] }),
{
    let ghost p0 = pixels@;
    let mut dy: usize = 0;
    while dy < 2
        invariant
            frame_ok(pixels@, buf_w as int, height as int),
            pixels@.len() == p0.len(),
            p0 == old(pixels)@,
            ppx < usize::MAX,
            ppy < usize::MAX,
            dy <= 2,
            forall|x: int, y: int, c: int| in_frame(buf_w as int, height as int, x, y, c) ==> #[trigger] pixels@[px(buf_w as int, x, y, c)] == (
                if ppx <= x < ppx + 2 && ppy <= y < ppy + dy { channel(0x00, 0xFF, 0x00, 0xFF, c) } else { p0[px(buf_w as int, x, y, c)] }),
        decreases 2 - dy,
    {
        let mut dx: usize = 0;
        while dx < 2
            invariant
                frame_ok(pixels@, buf_w as int, height as int),
                pixels@.len() == p0.len(),
                p0 == old(pixels)@,
                ppx < usize::MAX,
                ppy < usize::MAX,
                dy < 2,
                dx <= 2,
                forall|x: int, y: int, c: int| in_frame(buf_w as int, height as int, x, y, c) ==> #[trigger] pixels@[px(buf_w as int, x, y, c)] == (
                    if (ppx <= x < ppx + 2 && ppy <= y < ppy + dy) || (ppx <= x < ppx + dx && y == ppy + dy) { channel(0x00, 0xFF, 0x00, 0xFF, c) } else { p0[px(buf_w as int, x, y, c)] }),
            decreases 2 - dx,
        {
            let x = ppx + dx;
            let y = ppy + dy;
            let ghost before = pixels@;
            set_pixel_if(pixels, buf_w, height, x, y, 0x00, 0xFF, 0x00);
            proof {
                assert forall|x2: int, y2: int, c: int| in_frame(buf_w as int, height as int, x2, y2, c) implies #[trigger] pixels@[px(buf_w as int, x2, y2, c)] == (
                    if (ppx <= x2 < ppx + 2 && ppy <= y2 < ppy + dy) || (ppx <= x2 < ppx + dx + 1 && y2 == ppy + dy) { channel(0x00, 0xFF, 0x00, 0xFF, c) } else { p0[px(buf_w as int, x2, y2, c)] }) by {
                    assert(pixels@[px(buf_w as int, x2, y2, c)] == (if x2 == x && y2 == y { channel(0x00, 0xFF, 0x00, 0xFF, c) } else { before[px(buf_w as int, x2, y2, c)] }));
                }
            }
            dx += 1;
        }
        dy += 1;
    }
}

/// Draw the one-pixel frame around the minimap, clipped to the frame.
pub fn draw_minimap_border(pixels: &mut Vec<u8>, buf_w: usize, height: usize)
    requires
        frame_ok(old(pixels)@, buf_w as int, height as int),
    ensures
        final(pixels)@.len() == old(pixels)@.len(),
        forall|x: int, y: int, c: int| in_frame(buf_w as int, height as int, x, y, c) ==> #[trigger] final(pixels)@[px(buf_w as int, x, y, c)] == (
            if on_minimap_border(x, y) { channel(0x44, 0x44, 0x55, 0xFF, c) } else { old(pixels)@[px(buf_w as int, x, y, c)] }),
{
    let ghost p0 = pixels@;
    let ox = MINIMAP_PAD;
    let oy = MINIMAP_PAD;
    let border_r = ox + MINIMAP_W;
    let border_b = oy + MINIMAP_H;
    let x_end = if border_r < buf_w { border_r } else { buf_w };
    let mut px_: usize = ox;
    while px_ < x_end
        invariant
            frame_ok(pixels@, buf_w as int, height as int),
            pixels@.len() == p0.len(),
            p0 == old(pixels)@,
            ox == 4,
            oy == 4,
            border_r == 132,
            border_b == 132,
            x_end <= buf_w,
            x_end <= 132,
            4 <= px_,
            px_ <= x_end || px_ == 4,
            forall|x: int, y: int, c: int| in_frame(buf_w as int, height as int, x, y, c) ==> #[trigger] pixels@[px(buf_w as int, x, y, c)] == (
                if 4 <= x < px_ && (y == 3 || y == 132) { channel(0x44, 0x44, 0x55, 0xFF, c) } else { p0[px(buf_w as int, x, y, c)] }),
        decreases x_end - px_,
    {
        let ghost before = pixels@;
        // Top border
        if oy > 0 && oy - 1 < height {
            set_pixel_if(pixels, buf_w, height, px_, oy - 1, 0x44, 0x44, 0x55);
        }
        let ghost mid = pixels@;
        // Bottom border
        if border_b < height {
            set_pixel_if(pixels, buf_w, height, px_, border_b, 0x44, 0x44, 0x55);
        }
        proof {
            assert forall|x: int, y: int, c: int| in_frame(buf_w as int, height as int, x, y, c) implies #[trigger] pixels@[px(buf_w as int, x, y, c)] == (
                if 4 <= x < px_ + 1 && (y == 3 || y == 132) { channel(0x44, 0x44, 0x55, 0xFF, c) } else { p0[px(buf_w as int, x, y, c)] }) by {
                assert(mid[px(buf_w as int, x, y, c)] == (if x == px_ && y == 3 { channel(0x44, 0x44, 0x55, 0xFF, c) } else { before[px(buf_w as int, x, y, c)] }));
                assert(pixels@[px(buf_w as int, x, y, c)] == (if x == px_ && y == 132 { channel(0x44, 0x44, 0x55, 0xFF, c) } else { mid[px(buf_w as int, x, y, c)] }));
            }
        }
        px_ += 1;
    }
    proof {
        assert forall|x: int, y: int, c: int| in_frame(buf_w as int, height as int, x, y, c) implies #[trigger] pixels@[px(buf_w as int, x, y, c)] == (
            if 4 <= x < 132 && (y == 3 || y == 132) { channel(0x44, 0x44, 0x55, 0xFF, c) } else { p0[px(buf_w as int, x, y, c)] }) by {}
    }
    let ghost p1 = pixels@;
    let y_end = if border_b < height { border_b } else { height };
    let mut py: usize = oy;
    while py < y_end
        invariant
            frame_ok(pixels@, buf_w as int, height as int),
            pixels@.len() == p0.len(),
            p0 == old(pixels)@,
            ox == 4,
            oy == 4,
            border_r == 132,
            border_b == 132,
            y_end <= height,
            y_end <= 132,
            4 <= py,
            py <= y_end || py == 4,
            forall|x: int, y: int, c: int| in_frame(buf_w as int, height as int, x, y, c) ==> #[trigger] pixels@[px(buf_w as int, x, y, c)] == (
                if (4 <= x < 132 && (y == 3 || y == 132)) || (4 <= y < py && (x == 3 || x == 132)) { channel(0x44, 0x44, 0x55, 0xFF, c) } else { p0[px(buf_w as int, x, y, c)] }),
        decreases y_end - py,
    {
        let ghost before = pixels@;
        // Left border
        if ox > 0 {
            set_pixel_if(pixels, buf_w, height, ox - 1, py, 0x44, 0x44, 0x55);
        }
        let ghost mid = pixels@;
        // Right border
        if border_r < buf_w {
            set_pixel_if(pixels, buf_w, height, border_r, py, 0x44, 0x44, 0x55);
        }
        proof {
            assert forall|x: int, y: int, c: int| in_frame(buf_w as int, height as int, x, y, c) implies #[trigger] pixels@[px(buf_w as int, x, y, c)] == (
                if (4 <= x < 132 && (y == 3 || y == 132)) || (4 <= y < py + 1 && (x == 3 || x == 132)) { channel(0x44, 0x44, 0x55, 0xFF, c) } else { p0[px(buf_w as int, x, y, c)] }) by {
                assert(mid[px(buf_w as int, x, y, c)] == (if x == 3 && y == py { channel(0x44, 0x44, 0x55, 0xFF, c) } else { before[px(buf_w as int, x, y, c)] }));
                assert(pixels@[px(buf_w as int, x, y, c)] == (if x == 132 && y == py { channel(0x44, 0x44, 0x55, 0xFF, c) } else { mid[px(buf_w as int, x, y, c)] }));
            }
        }
        py += 1;
    }
    proof {
        assert forall|x: int, y: int, c: int| in_frame(buf_w as int, height as int, x, y, c) implies #[trigger] pixels@[px(buf_w as int, x, y, c)] == (
            if on_minimap_border(x, y) { channel(0x44, 0x44, 0x55, 0xFF, c) } else { p0[px(buf_w as int, x, y, c)] }) by {}
    }
}

/// The maze is closed: every cell on its outer edge is a wall, so no walk
/// over open floor leaves the map.
pub proof fn lemma_maze_closed(k: int)
    requires
        0 <= k < 64,
    ensures
        maze()[k] == 1,
        maze()[63 * 64 + k] == 1,
        maze()[k * 64] == 1,
        maze()[k * 64 + 63] == 1,
{
    lemma_map_cell(k, 0);
    lemma_map_cell(k, 63);
    lemma_map_cell(0, k);
    lemma_map_cell(63, k);
}

} // verus!
