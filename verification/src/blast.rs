//! The integer side of a blast simulator: the placed-bomb list and the mask
//! of bomb types set off, the material grid lookups and colours, the edge
//! outline pass over the frame buffer, and the shape of the bomb markers.
//! The explosions themselves (velocities, heat, particles) work in floating
//! point and stay with the caller.
use vstd::prelude::*;
use crate::frame::{px, in_frame, frame_ok, lemma_px_in_range, lemma_px_distinct, lemma_cell_index};

verus! {

// Material IDs
pub const EMPTY: u8 = 0;
pub const WOOD: u8 = 1;
pub const STONE: u8 = 2;
pub const STEEL: u8 = 3;
pub const GLASS: u8 = 4;
pub const MOLTEN_STEEL: u8 = 5;
pub const FALLOUT: u8 = 6;
pub const ASH: u8 = 7;
pub const RUST: u8 = 8;

// Bomb type IDs
pub const BOMB_C4: u8 = 0;
pub const BOMB_THERMITE: u8 = 1;
pub const BOMB_DIRTY: u8 = 2;

/// The base RGBA colour of a material.
pub open spec fn material_rgba(mat: u8) -> Seq<u8> {
    if mat == WOOD {
        seq![139u8, 90, 43, 255]
    } else if mat == STONE {
        seq![140u8, 140, 140, 255]
    } else if mat == STEEL {
        seq![180u8, 195, 210, 255]
    } else if mat == GLASS {
        seq![170u8, 215, 230, 200]
    } else if mat == MOLTEN_STEEL {
        seq![255u8, 120, 20, 255]
    } else if mat == FALLOUT {
        seq![80u8, 255, 50, 180]
    } else if mat == ASH {
        seq![80u8, 75, 70, 200]
    } else if mat == RUST {
        seq![160u8, 80, 30, 255]
    } else {
        seq![0u8, 0, 0, 0]
    }
}

/// The base RGBA colour of material `mat`.
pub fn material_color(mat: u8) -> (rgba: [u8; 4])
    ensures
        rgba@ == material_rgba(mat),
{
    let rgba = if mat == WOOD {
        [139, 90, 43, 255]
    } else if mat == STONE {
        [140, 140, 140, 255]
    } else if mat == STEEL {
        [180, 195, 210, 255]
    } else if mat == GLASS {
        [170, 215, 230, 200]
    } else if mat == MOLTEN_STEEL {
        [255, 120, 20, 255]
    } else if mat == FALLOUT {
        [80, 255, 50, 180]
    } else if mat == ASH {
        [80, 75, 70, 200]
    } else if mat == RUST {
        [160, 80, 30, 255]
    } else {
        [0, 0, 0, 0]
    };
    assert(rgba@ =~= material_rgba(mat));
    rgba
}

/// The colour of an empty cell: the dark background.
pub fn empty_cell_rgba() -> (rgba: [u8; 4])
    ensures
        rgba@ == seq![18u8, 18, 22, 255],
{
    let rgba = [18, 18, 22, 255];
    assert(rgba@ =~= seq![18u8, 18, 22, 255]);
    rgba
}

/// What melting does to a material.
#[derive(Clone, Copy, PartialEq, Eq, Structural, Debug)]
pub enum Melt {
    /// Becomes molten steel.
    Liquefies,
    /// Turns to ash.
    Chars,
    /// Breaks, leaving an empty cell.
    Shatters,
    /// Burns away, leaving an empty cell, once well past its melting point.
    Burns,
}

pub open spec fn melt_spec(material: u8) -> Melt {
    if material == STEEL {
        Melt::Liquefies
    } else if material == WOOD {
        Melt::Chars
    } else if material == GLASS {
        Melt::Shatters
    } else {
        Melt::Burns
    }
}

/// The melt transition of `material`: steel liquefies, wood chars, glass
/// shatters, and anything else burns away.
pub fn melt_outcome(material: u8) -> (m: Melt)
    ensures
        m == melt_spec(material),
{
    if material == STEEL {
        Melt::Liquefies
    } else if material == WOOD {
        Melt::Chars
    } else if material == GLASS {
        Melt::Shatters
    } else {
        Melt::Burns
    }
}

/// A colour channel shifted by a per-pixel texture offset: `noise` 20 is
/// neutral, the result is clamped to a byte.
pub open spec fn textured(base: u8, noise: u8) -> int {
    let v = base + noise - 20;
    if v < 0 { 0 } else if v > 255 { 255 } else { v }
}

/// Apply the texture offset `noise` to one channel of a base colour.
pub fn textured_channel(base: u8, noise: u8) -> (v: u8)
    ensures
        v as int == textured(base, noise),
{
    let n = noise as i16 - 20;
    let raw = base as i16 + n;
    if raw < 0 {
        0
    } else if raw > 255 {
        255
    } else {
        raw as u8
    }
}

// ---------------------------------------------------------------------------
// Material grid lookups
// ---------------------------------------------------------------------------

/// The material at (`x`, `y`) of a `width` x `height` grid stored row by
/// row; cells off the grid read as empty.
pub fn material_at(materials: &Vec<u8>, width: u32, height: u32, x: u32, y: u32) -> (m: u8)
    requires
        materials@.len() == width * height,
        width * height <= u32::MAX,
    ensures
        m == (if x < width && y < height { materials@[y * width + x] } else { EMPTY }),
{
    if x >= width || y >= height {
        return EMPTY;
    }
    proof {
        lemma_cell_index(width as int, height as int, x as int, y as int);
    }
    materials[(y * width + x) as usize]
}

// ---------------------------------------------------------------------------
// Edge outlines
// ---------------------------------------------------------------------------

/// Whether interior cell (`x`, `y`) is non-empty and borders a different
/// material on one of its four sides.
pub open spec fn is_edge(mats: Seq<u8>, w: int, x: int, y: int) -> bool {
    let i = y * w + x;
    let m = mats[i];
    m != EMPTY && (mats[i - 1] != m || mats[i + 1] != m || mats[i - w] != m || mats[i + w] != m)
}

/// Whether (`x`, `y`) is an interior cell of a `w` x `h` grid.
pub open spec fn interior(w: int, h: int, x: int, y: int) -> bool {
    1 <= x < w - 1 && 1 <= y < h - 1
}

/// Outlines mark every border between materials, on both sides: when two
/// interior cells side by side (left and right, or above and below) hold
/// different materials, each of them that is not empty is an edge. A cell
/// whose four neighbours all hold its own material is no edge.
pub proof fn lemma_outlines_mark_both_sides(mats: Seq<u8>, w: int, h: int, x1: int, y1: int, x2: int, y2: int)
    requires
        mats.len() == w * h,
        interior(w, h, x1, y1),
        interior(w, h, x2, y2),
        (x1 == x2 && (y2 - y1 == 1 || y1 - y2 == 1)) || (y1 == y2 && (x2 - x1 == 1 || x1 - x2 == 1)),
    ensures
        mats[y1 * w + x1] != mats[y2 * w + x2] && mats[y1 * w + x1] != EMPTY ==> is_edge(mats, w, x1, y1),
        mats[y1 * w + x1] != mats[y2 * w + x2] && mats[y2 * w + x2] != EMPTY ==> is_edge(mats, w, x2, y2),
        ({
            let i = y1 * w + x1;
            mats[i - 1] == mats[i] && mats[i + 1] == mats[i] && mats[i - w] == mats[i] && mats[i + w] == mats[i]
        }) ==> !is_edge(mats, w, x1, y1),
{
    assert((y1 + 1) * w + x1 == y1 * w + x1 + w) by (nonlinear_arith);
    assert((y1 - 1) * w + x1 == y1 * w + x1 - w) by (nonlinear_arith);
    assert((y2 + 1) * w + x2 == y2 * w + x2 + w) by (nonlinear_arith);
    assert((y2 - 1) * w + x2 == y2 * w + x2 - w) by (nonlinear_arith);
}

/// A colour channel darkened to seven tenths.
pub open spec fn darkened(v: u8) -> u8 {
    (v * 7 / 10) as u8
}

/// Darken the colour channels of every interior pixel on a material edge,
/// giving materials a visible outline.
pub fn darken_edges(materials: &Vec<u8>, pixels: &mut Vec<u8>, w: usize, h: usize)
    requires
        materials@.len() == w * h,
        frame_ok(old(pixels)@, w as int, h as int),
        h >= 1,
        h >= 3 ==> w >= 1,
    ensures
        final(pixels)@.len() == old(pixels)@.len(),
        forall|x: int, y: int, c: int| in_frame(w as int, h as int, x, y, c) ==> #[trigger] final(pixels)@[px(w as int, x, y, c)] == (
            if interior(w as int, h as int, x, y) && is_edge(materials@, w as int, x, y) && c < 3 {
                darkened(old(pixels)@[px(w as int, x, y, c)])
            } else {
                old(pixels)@[px(w as int, x, y, c)]
            }),
{
    let ghost p0 = pixels@;
    let len = pixels.len();
    let mut y: usize = 1;
    while y < h - 1
        invariant
            materials@.len() == w * h,
            frame_ok(pixels@, w as int, h as int),
            pixels@.len() == p0.len(),
            len == p0.len(),
            p0 == old(pixels)@,
            h >= 1,
            h >= 3 ==> w >= 1,
            1 <= y,
            y <= h - 1 || y == 1,
            forall|x2: int, y2: int, c: int| in_frame(w as int, h as int, x2, y2, c) ==> #[trigger] pixels@[px(w as int, x2, y2, c)] == (
                if interior(w as int, h as int, x2, y2) && y2 < y && is_edge(materials@, w as int, x2, y2) && c < 3 {
                    darkened(p0[px(w as int, x2, y2, c)])
                } else {
                    p0[px(w as int, x2, y2, c)]
                }),
        decreases h - y,
    {
        let mut x: usize = 1;
        while x < w - 1
            invariant
                materials@.len() == w * h,
                frame_ok(pixels@, w as int, h as int),
                pixels@.len() == p0.len(),
                len == p0.len(),
                p0 == old(pixels)@,
                1 <= y < h - 1,
                w >= 1,
                1 <= x,
                x <= w - 1 || x == 1,
                forall|x2: int, y2: int, c: int| in_frame(w as int, h as int, x2, y2, c) ==> #[trigger] pixels@[px(w as int, x2, y2, c)] == (
                    if interior(w as int, h as int, x2, y2) && (y2 < y || (y2 == y && x2 < x)) && is_edge(materials@, w as int, x2, y2) && c < 3 {
                        darkened(p0[px(w as int, x2, y2, c)])
                    } else {
                        p0[px(w as int, x2, y2, c)]
                    }),
            decreases w - x,
        {
            proof {
                lemma_cell_index(w as int, h as int, x as int, y as int);
                lemma_cell_index(w as int, h as int, x as int, (y + 1) as int);
                lemma_cell_index(w as int, h as int, x as int, (y - 1) as int);
                assert((y + 1) * w == y * w + w) by (nonlinear_arith);
                assert((y - 1) * w == y * w - w) by (nonlinear_arith);
            }
            let idx = y * w + x;
            let mat = materials[idx];
            if mat != EMPTY {
                let has_edge = materials[idx - 1] != mat || materials[idx + 1] != mat || materials[idx - w] != mat
                    || materials[idx + w] != mat;
                if has_edge {
                    proof {
                        lemma_px_in_range(w as int, h as int, x as int, y as int, 2);
                        assert(px(w as int, x as int, y as int, 0) == idx * 4);
                    }
                    let pix = idx * 4;
                    let ghost before = pixels@;
                    let r = (pixels[pix] as u16 * 7 / 10) as u8;
                    pixels.set(pix, r);
                    let g = (pixels[pix + 1] as u16 * 7 / 10) as u8;
                    pixels.set(pix + 1, g);
                    let b = (pixels[pix + 2] as u16 * 7 / 10) as u8;
                    pixels.set(pix + 2, b);
                    proof {
                        assert forall|x2: int, y2: int, c: int| in_frame(w as int, h as int, x2, y2, c) && (x2 != x || y2 != y || c == 3) implies
                            #[trigger] pixels@[px(w as int, x2, y2, c)] == before[px(w as int, x2, y2, c)] by {
                            lemma_px_in_range(w as int, h as int, x2, y2, c);
                            lemma_px_distinct(w as int, h as int, x2, y2, c, x as int, y as int, 0);
                            lemma_px_distinct(w as int, h as int, x2, y2, c, x as int, y as int, 1);
                            lemma_px_distinct(w as int, h as int, x2, y2, c, x as int, y as int, 2);
                        }
                    }
                }
            }
            proof {
                assert forall|x2: int, y2: int, c: int| in_frame(w as int, h as int, x2, y2, c) implies #[trigger] pixels@[px(w as int, x2, y2, c)] == (
                    if interior(w as int, h as int, x2, y2) && (y2 < y || (y2 == y && x2 < x + 1)) && is_edge(materials@, w as int, x2, y2) && c < 3 {
                        darkened(p0[px(w as int, x2, y2, c)])
                    } else {
                        p0[px(w as int, x2, y2, c)]
                    }) by {
                    if x2 == x && y2 == y {
                        assert(is_edge(materials@, w as int, x2, y2) == (mat != EMPTY && (materials@[idx - 1] != mat || materials@[idx + 1] != mat
                            || materials@[idx - w] != mat || materials@[idx + w] != mat)));
                    }
                }
            }
            x += 1;
        }
        proof {
            assert forall|x2: int, y2: int, c: int| in_frame(w as int, h as int, x2, y2, c) implies #[trigger] pixels@[px(w as int, x2, y2, c)] == (
                if interior(w as int, h as int, x2, y2) && y2 < y + 1 && is_edge(materials@, w as int, x2, y2) && c < 3 {
                    darkened(p0[px(w as int, x2, y2, c)])
                } else {
                    p0[px(w as int, x2, y2, c)]
                }) by {
                if y2 == y && interior(w as int, h as int, x2, y2) {
                    assert(x2 < x);
                }
            }
        }
        y += 1;
    }
    proof {
        assert forall|x2: int, y2: int, c: int| in_frame(w as int, h as int, x2, y2, c) && interior(w as int, h as int, x2, y2) implies y2 < y by {}
    }
}

// ---------------------------------------------------------------------------
// Bombs
// ---------------------------------------------------------------------------

#[derive(Clone, Copy, PartialEq, Eq, Structural, Debug)]
pub struct PlacedBomb {
    pub x: u32,
    pub y: u32,
    pub bomb_type: u8,
}

/// The mask with bit `t` set for every bomb type `t` in `bombs`.
pub open spec fn type_mask(bombs: Seq<PlacedBomb>) -> u8
    decreases bombs.len(),
{
    if bombs.len() == 0 {
        0
    } else {
        type_mask(bombs.drop_last()) | (1u8 << bombs.last().bomb_type)
    }
}

/// Whether every bomb has a type that fits the mask.
pub open spec fn types_fit(bombs: Seq<PlacedBomb>) -> bool {
    forall|i: int| 0 <= i < bombs.len() ==> #[trigger] bombs[i].bomb_type < 8
}

/// The bombs placed and not yet set off, in placement order.
pub struct BombList {
    bombs: Vec<PlacedBomb>,
}

impl View for BombList {
    type V = Seq<PlacedBomb>;

    closed spec fn view(&self) -> Seq<PlacedBomb> {
        self.bombs@
    }
}

impl BombList {
    pub fn new() -> (list: BombList)
        ensures
            list@ == Seq::<PlacedBomb>::empty(),
    {
        BombList { bombs: Vec::new() }
    }

    /// Place a bomb of type `bomb_type` at (`x`, `y`).
    pub fn place_bomb(&mut self, x: u32, y: u32, bomb_type: u8)
        ensures
            final(self)@ == old(self)@.push(PlacedBomb { x, y, bomb_type }),
    {
        self.bombs.push(PlacedBomb { x, y, bomb_type });
    }

    /// Remove every bomb.
    pub fn clear_bombs(&mut self)
        ensures
            final(self)@ == Seq::<PlacedBomb>::empty(),
    {
        self.bombs.clear();
    }

    /// The number of bombs, as the page reads it (a 32-bit count).
    pub fn bomb_count(&self) -> (n: u32)
        ensures
            n == self@.len() as u32,
    {
        self.bombs.len() as u32
    }

    /// The bombs in placement order.
    pub fn bombs(&self) -> (b: &[PlacedBomb])
        ensures
            b@ == self@,
    {
        self.bombs.as_slice()
    }

    /// Take every bomb out of the list, in placement order, together with
    /// the mask of the bomb types among them.
    pub fn take_all(&mut self) -> (out: (Vec<PlacedBomb>, u8))
        requires
            types_fit(old(self)@),
        ensures
            out.0@ == old(self)@,
            out.1 == type_mask(old(self)@),
            final(self)@ == Seq::<PlacedBomb>::empty(),
    {
        let mut taken: Vec<PlacedBomb> = Vec::new();
        std::mem::swap(&mut taken, &mut self.bombs);
        let mut mask: u8 = 0;
        let mut i: usize = 0;
        while i < taken.len()
            invariant
                types_fit(taken@),
                i <= taken@.len(),
                mask == type_mask(taken@.subrange(0, i as int)),
            decreases taken@.len() - i,
        {
            let t = taken[i].bomb_type;
            assert(taken@.subrange(0, i + 1).drop_last() =~= taken@.subrange(0, i as int));
            mask = mask | (1u8 << t);
            i += 1;
        }
        assert(taken@.subrange(0, taken@.len() as int) =~= taken@);
        (taken, mask)
    }
}

/// Bit `t` of the type mask is set exactly when a bomb of type `t` is in
/// the list.
pub proof fn lemma_type_mask_bits(bombs: Seq<PlacedBomb>, t: u8)
    requires
        types_fit(bombs),
        t < 8,
    ensures
        (type_mask(bombs) >> t) & 1u8 == 1u8 <==> exists|i: int| 0 <= i < bombs.len() && (#[trigger] bombs[i]).bomb_type == t,
    decreases bombs.len(),
{
    if bombs.len() == 0 {
        assert((0u8 >> t) & 1u8 == 0u8) by (bit_vector);
    } else {
        let rest = bombs.drop_last();
        assert forall|i: int| 0 <= i < rest.len() implies #[trigger] rest[i].bomb_type < 8 by {
            assert(rest[i] == bombs[i]);
        }
        lemma_type_mask_bits(rest, t);
        let m = type_mask(rest);
        let u = bombs.last().bomb_type;
        assert(u < 8);
        assert(((m | (1u8 << u)) >> t) & 1u8 == 1u8 <==> ((m >> t) & 1u8 == 1u8 || u == t)) by (bit_vector)
            requires
                t < 8,
                u < 8,
        ;
        if exists|i: int| 0 <= i < bombs.len() && (#[trigger] bombs[i]).bomb_type == t {
            let i = choose|i: int| 0 <= i < bombs.len() && (#[trigger] bombs[i]).bomb_type == t;
            if i < rest.len() {
                assert(rest[i] == bombs[i]);
            }
        }
        if exists|i: int| 0 <= i < rest.len() && (#[trigger] rest[i]).bomb_type == t {
            let i = choose|i: int| 0 <= i < rest.len() && (#[trigger] rest[i]).bomb_type == t;
            assert(bombs[i] == rest[i]);
        }
        if u == t {
            assert(bombs[bombs.len() - 1].bomb_type == t);
        }
    }
}

// ---------------------------------------------------------------------------
// Bomb markers
// ---------------------------------------------------------------------------

/// The marker colour of a bomb type.
pub open spec fn marker_rgb(bomb_type: u8) -> (u8, u8, u8) {
    if bomb_type == BOMB_C4 {
        (255, 160, 40)
    } else if bomb_type == BOMB_THERMITE {
        (255, 60, 60)
    } else if bomb_type == BOMB_DIRTY {
        (60, 255, 80)
    } else {
        (255, 255, 255)
    }
}

pub fn marker_color(bomb_type: u8) -> (rgb: (u8, u8, u8))
    ensures
        rgb == marker_rgb(bomb_type),
{
    if bomb_type == BOMB_C4 {
        (255, 160, 40)
    } else if bomb_type == BOMB_THERMITE {
        (255, 60, 60)
    } else if bomb_type == BOMB_DIRTY {
        (60, 255, 80)
    } else {
        (255, 255, 255)
    }
}

/// Whether offset (`dx`, `dy`) from a bomb is drawn: a ring of radius 6
/// two pixels thick, crossed by a three-pixel-wide plus.
pub open spec fn marker_shape(dx: int, dy: int) -> bool {
    let d2 = dx * dx + dy * dy;
    d2 <= 36 && (d2 > 16 || (-1 <= dx <= 1) || (-1 <= dy <= 1))
}

pub fn marker_covers(dx: i32, dy: i32) -> (on: bool)
    requires
        -6 <= dx <= 6,
        -6 <= dy <= 6,
    ensures
        on == marker_shape(dx as int, dy as int),
{
    let marker_r = 6i32;
    proof {
        assert(0 <= dx * dx <= 36 && 0 <= dy * dy <= 36) by (nonlinear_arith)
            requires
                -6 <= dx <= 6,
                -6 <= dy <= 6,
        ;
    }
    let dist_sq = dx * dx + dy * dy;
    if dist_sq > marker_r * marker_r {
        return false;
    }
    let on_ring = dist_sq > (marker_r - 2) * (marker_r - 2);
    let on_cross = (-1 <= dx && dx <= 1) || (-1 <= dy && dy <= 1);
    on_ring || on_cross
}

} // verus!
