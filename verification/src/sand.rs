//! A falling-sand cellular automaton. Every cell holds one element; sand
//! falls and piles, water flows, fire burns wood and plants and is put out
//! by water, smoke and steam rise and fade, plants grow by drinking water,
//! and stone never moves.
use vstd::prelude::*;
use crate::rng::{thread_rng, random_bool, random_range_u8, random_range_u32};

verus! {

broadcast use vstd::seq_lib::to_multiset_update;

pub const EMPTY: u8 = 0;
pub const SAND: u8 = 1;
pub const WATER: u8 = 2;
pub const STONE: u8 = 3;
pub const WOOD: u8 = 4;
pub const FIRE: u8 = 5;
pub const SMOKE: u8 = 6;
pub const PLANT: u8 = 7;
pub const STEAM: u8 = 8;

pub const FIRE_MAX_LIFE: u8 = 40;
pub const SMOKE_MAX_LIFE: u8 = 60;
pub const STEAM_MAX_LIFE: u8 = 80;

/// The abstract automaton: a `width` x `height` grid of cells stored row by
/// row, the remaining lifetime of each cell, and the RGBA frame buffer.
#[verifier::ext_equal]
pub struct Grid {
    pub width: u32,
    pub height: u32,
    pub cells: Seq<u8>,
    pub life: Seq<u8>,
    pub pixels: Seq<u8>,
}

impl Grid {
    pub open spec fn wf(self) -> bool {
        &&& self.width * self.height <= u32::MAX
        &&& self.cells.len() == self.width * self.height
        &&& self.life.len() == self.width * self.height
        &&& self.pixels.len() == 4 * (self.width * self.height)
    }

    /// Coordinates small enough for the signed arithmetic of the update.
    pub open spec fn fits_i32(self) -> bool {
        &&& self.width <= i32::MAX
        &&& self.height <= i32::MAX
        &&& self.width * self.height <= 0x8000_0000
    }

    pub open spec fn in_bounds(self, x: int, y: int) -> bool {
        0 <= x < self.width && 0 <= y < self.height
    }

    pub open spec fn at(self, x: int, y: int) -> int {
        y * self.width + x
    }

    pub open spec fn cell(self, x: int, y: int) -> u8 {
        self.cells[self.at(x, y)]
    }

    pub open spec fn life_at(self, x: int, y: int) -> u8 {
        self.life[self.at(x, y)]
    }

    /// The grid with cell (`x`, `y`) set to `cell` with lifetime `life`.
    pub open spec fn set(self, x: int, y: int, cell: u8, life: u8) -> Grid {
        Grid {
            cells: self.cells.update(self.at(x, y), cell),
            life: self.life.update(self.at(x, y), life),
            ..self
        }
    }

    /// The grid with two cells (and their lifetimes) exchanged.
    pub open spec fn swap(self, x1: int, y1: int, x2: int, y2: int) -> Grid {
        let a = self.at(x1, y1);
        let b = self.at(x2, y2);
        Grid {
            cells: self.cells.update(a, self.cells[b]).update(b, self.cells[a]),
            life: self.life.update(a, self.life[b]).update(b, self.life[a]),
            ..self
        }
    }

    /// Whether (`x`, `y`) is on the grid and holds `kind`.
    pub open spec fn holds(self, x: int, y: int, kind: u8) -> bool {
        self.in_bounds(x, y) && self.cell(x, y) == kind
    }
}

/// The initial lifetime an element gets when it is placed.
pub open spec fn initial_life(cell: u8) -> u8 {
    if cell == FIRE {
        FIRE_MAX_LIFE
    } else if cell == SMOKE {
        SMOKE_MAX_LIFE
    } else if cell == STEAM {
        STEAM_MAX_LIFE
    } else {
        0
    }
}

// ---------------------------------------------------------------------------
// The update rules, one cell at a time. Each takes the random choices the
// rule makes as arguments.
// ---------------------------------------------------------------------------

/// The two horizontal directions tried, in order.
pub open spec fn first_dx(left_first: bool) -> int {
    if left_first { -1 } else { 1 }
}

/// Sand at (`x`, `y`): falls into empty space or sinks through water, else
/// slides diagonally down (trying the side `left_first` picks first) into
/// empty space or water.
pub open spec fn sand_rule(g: Grid, x: int, y: int, left_first: bool) -> Grid {
    let d1 = first_dx(left_first);
    let d2 = -d1;
    if y + 1 >= g.height {
        g
    } else if g.cell(x, y + 1) == EMPTY || g.cell(x, y + 1) == WATER {
        g.swap(x, y, x, y + 1)
    } else if g.holds(x + d1, y + 1, EMPTY) || g.holds(x + d1, y + 1, WATER) {
        g.swap(x, y, x + d1, y + 1)
    } else if g.holds(x + d2, y + 1, EMPTY) || g.holds(x + d2, y + 1, WATER) {
        g.swap(x, y, x + d2, y + 1)
    } else {
        g
    }
}

/// Water sideways: moves one cell left or right into empty space.
pub open spec fn water_spread(g: Grid, x: int, y: int, left_first: bool) -> Grid {
    let d1 = first_dx(left_first);
    let d2 = -d1;
    if g.holds(x + d1, y, EMPTY) {
        g.swap(x, y, x + d1, y)
    } else if g.holds(x + d2, y, EMPTY) {
        g.swap(x, y, x + d2, y)
    } else {
        g
    }
}

/// Water at (`x`, `y`): falls into empty space, else flows diagonally down
/// into empty space (order picked by `diag_left_first`), else spreads
/// sideways (order picked by `side_left_first`).
pub open spec fn water_rule(g: Grid, x: int, y: int, diag_left_first: bool, side_left_first: bool) -> Grid {
    let d1 = first_dx(diag_left_first);
    let d2 = -d1;
    if y + 1 < g.height {
        if g.cell(x, y + 1) == EMPTY {
            g.swap(x, y, x, y + 1)
        } else if g.holds(x + d1, y + 1, EMPTY) {
            g.swap(x, y, x + d1, y + 1)
        } else if g.holds(x + d2, y + 1, EMPTY) {
            g.swap(x, y, x + d2, y + 1)
        } else {
            water_spread(g, x, y, side_left_first)
        }
    } else {
        water_spread(g, x, y, side_left_first)
    }
}

/// The grid with the lifetime of (`x`, `y`) lowered by one.
pub open spec fn age(g: Grid, x: int, y: int) -> Grid {
    Grid { life: g.life.update(g.at(x, y), (g.life_at(x, y) - 1) as u8), ..g }
}

/// Smoke or steam at (`x`, `y`): vanishes when its lifetime is spent;
/// otherwise ages, rises into empty space, or drifts diagonally up or
/// sideways towards the side `drift_left` picks.
pub open spec fn gas_rule(g: Grid, x: int, y: int, drift_left: bool) -> Grid {
    if g.life_at(x, y) == 0 {
        g.set(x, y, EMPTY, 0)
    } else {
        let a = age(g, x, y);
        let dx = first_dx(drift_left);
        if a.holds(x, y - 1, EMPTY) {
            a.swap(x, y, x, y - 1)
        } else if a.holds(x + dx, y - 1, EMPTY) {
            a.swap(x, y, x + dx, y - 1)
        } else if a.holds(x + dx, y, EMPTY) {
            a.swap(x, y, x + dx, y)
        } else {
            a
        }
    }
}

/// The eight neighbour offsets fire looks at, in scan order.
pub open spec fn fire_dx(d: int) -> int {
    if d == 0 || d == 3 || d == 5 { -1 } else if d == 1 || d == 6 { 0 } else { 1 }
}

pub open spec fn fire_dy(d: int) -> int {
    if d <= 2 { -1 } else if d <= 4 { 0 } else { 1 }
}

/// Fire looking at its neighbour in direction `d`: wood and plants are set
/// alight when `ignite` says so; water puts the fire out (the fire becomes
/// smoke, the water steam), which the flag reports.
pub open spec fn fire_step(g: Grid, x: int, y: int, d: int, ignite: bool) -> (Grid, bool) {
    let nx = x + fire_dx(d);
    let ny = y + fire_dy(d);
    if !g.in_bounds(nx, ny) {
        (g, false)
    } else if g.cell(nx, ny) == WATER {
        (g.set(x, y, SMOKE, SMOKE_MAX_LIFE).set(nx, ny, STEAM, STEAM_MAX_LIFE), true)
    } else if g.cell(nx, ny) == WOOD || g.cell(nx, ny) == PLANT {
        (if ignite { g.set(nx, ny, FIRE, FIRE_MAX_LIFE) } else { g }, false)
    } else {
        (g, false)
    }
}

/// Fire after looking at its first `d` neighbours, stopping at the first
/// water; `ignite[k]` decides whether wood or a plant in direction `k`
/// catches fire.
pub open spec fn fire_scan(g: Grid, x: int, y: int, d: nat, ignite: Seq<bool>) -> (Grid, bool)
    decreases d,
{
    if d == 0 {
        (g, false)
    } else {
        let p = fire_scan(g, x, y, (d - 1) as nat, ignite);
        if p.1 { p } else { fire_step(p.0, x, y, d - 1, ignite[d - 1]) }
    }
}

/// Fire at (`x`, `y`). A spent fire vanishes (`vanish`) or turns to smoke.
/// Otherwise it ages, reacts with its neighbours (see [`fire_scan`]) and,
/// unless put out, flickers up into empty space when `drift` says so.
pub open spec fn fire_rule(g: Grid, x: int, y: int, vanish: bool, ignite: Seq<bool>, drift: bool) -> Grid {
    if g.life_at(x, y) == 0 {
        if vanish { g.set(x, y, EMPTY, 0) } else { g.set(x, y, SMOKE, SMOKE_MAX_LIFE) }
    } else {
        let scanned = fire_scan(age(g, x, y), x, y, 8, ignite);
        if scanned.1 {
            scanned.0
        } else if drift && scanned.0.holds(x, y - 1, EMPTY) {
            scanned.0.swap(x, y, x, y - 1)
        } else {
            scanned.0
        }
    }
}

/// The four cardinal offsets, in the order neighbours are searched.
pub open spec fn card_dx(d: int) -> int {
    if d == 0 { -1 } else if d == 1 { 1 } else { 0 }
}

pub open spec fn card_dy(d: int) -> int {
    if d == 2 { -1 } else if d == 3 { 1 } else { 0 }
}

/// The first cardinal direction from `d` on whose neighbour holds `kind`.
pub open spec fn neighbour_dir(g: Grid, x: int, y: int, kind: u8, d: int) -> Option<int>
    decreases 4 - d,
{
    if d >= 4 || d < 0 {
        None
    } else if g.holds(x + card_dx(d), y + card_dy(d), kind) {
        Some(d)
    } else {
        neighbour_dir(g, x, y, kind, d + 1)
    }
}

/// The growth offsets of a plant, in order of preference: up, up-left,
/// up-right.
pub open spec fn grow_dx(d: int) -> int {
    if d == 0 { 0 } else if d == 1 { -1 } else { 1 }
}

/// The first growth direction from `d` on that leads to empty space.
pub open spec fn grow_dir(g: Grid, x: int, y: int, d: int) -> Option<int>
    decreases 3 - d,
{
    if d >= 3 || d < 0 {
        None
    } else if g.holds(x + grow_dx(d), y - 1, EMPTY) {
        Some(d)
    } else {
        grow_dir(g, x, y, d + 1)
    }
}

/// A plant at (`x`, `y`) touching water: when `grow` says so and there is
/// empty space above, a new plant appears there and the water it touched
/// first is used up.
pub open spec fn plant_rule(g: Grid, x: int, y: int, grow: bool) -> Grid {
    match neighbour_dir(g, x, y, WATER, 0) {
        None => g,
        Some(w) => {
            if !grow {
                g
            } else {
                match grow_dir(g, x, y, 0) {
                    None => g,
                    Some(d) => g.set(x + grow_dx(d), y - 1, PLANT, 0).set(x + card_dx(w), y + card_dy(w), EMPTY, 0),
                }
            }
        },
    }
}

/// Whether (`x`, `y`) lies in the disc of `radius` cells around
/// (`cx`, `cy`).
pub open spec fn in_disc(cx: int, cy: int, radius: int, x: int, y: int) -> bool {
    let dx = x - cx;
    let dy = y - cy;
    -radius <= dx <= radius && -radius <= dy <= radius && dx * dx + dy * dy <= radius * radius
}

/// The flicker shade of a fire cell, taken from a hash of its index.
pub open spec fn fire_shade(idx: usize) -> int {
    (vstd::wrapping::usize_specs::wrapping_mul(idx, 2654435761usize) / 16) as int % 3
}

/// The RGBA colour of element `cell` at index `idx`.
pub open spec fn colour(cell: u8, idx: usize) -> Seq<u8> {
    if cell == SAND {
        seq![0xE0u8, 0xC0, 0x68, 0xFF]
    } else if cell == WATER {
        seq![0x40u8, 0x90, 0xE0, 0xFF]
    } else if cell == STONE {
        seq![0x78u8, 0x78, 0x78, 0xFF]
    } else if cell == WOOD {
        seq![0x8Bu8, 0x5E, 0x3C, 0xFF]
    } else if cell == FIRE {
        if fire_shade(idx) == 0 {
            seq![0xFFu8, 0x44, 0x00, 0xFF]
        } else if fire_shade(idx) == 1 {
            seq![0xFFu8, 0x88, 0x00, 0xFF]
        } else {
            seq![0xFFu8, 0xCC, 0x00, 0xFF]
        }
    } else if cell == SMOKE {
        seq![0x60u8, 0x60, 0x68, 0x90]
    } else if cell == PLANT {
        seq![0x30u8, 0xA0, 0x30, 0xFF]
    } else if cell == STEAM {
        seq![0xC8u8, 0xD8, 0xE8, 0x80]
    } else {
        seq![0x1Cu8, 0x1C, 0x24, 0xFF]
    }
}

/// The frame buffer drawn from a grid: four colour bytes per cell.
pub open spec fn frame(cells: Seq<u8>) -> Seq<u8> {
    Seq::new(4 * cells.len(), |p: int| colour(cells[p / 4], (p / 4) as usize)[p % 4])
}

// ---------------------------------------------------------------------------
// One whole step
// ---------------------------------------------------------------------------

/// The update of cell (`x`, `y`) by the element it holds, where `c` holds
/// the random choices it may consume: two coin flips and, for fire, one
/// ignition draw per neighbour.
pub open spec fn cell_step(g: Grid, x: int, y: int, c: (bool, bool, Seq<bool>)) -> Grid {
    let k = g.cell(x, y);
    if k == SAND {
        sand_rule(g, x, y, c.0)
    } else if k == WATER {
        water_rule(g, x, y, c.0, c.1)
    } else if k == FIRE {
        fire_rule(g, x, y, c.0, c.2, c.1)
    } else if k == SMOKE || k == STEAM {
        gas_rule(g, x, y, c.0)
    } else if k == PLANT {
        plant_rule(g, x, y, c.0)
    } else {
        g
    }
}

/// The column visited at step `k` of a row scan in the given direction.
pub open spec fn scan_x(width: int, left_to_right: bool, k: int) -> int {
    if left_to_right {
        k
    } else {
        width - 1 - k
    }
}

/// Row `y` of `g` after the first `cs.len()` cells of its scan have been
/// updated, the `k`-th with the choices `cs[k]`.
pub open spec fn row_scan(g: Grid, y: int, left_to_right: bool, cs: Seq<(bool, bool, Seq<bool>)>) -> Grid
    decreases cs.len(),
{
    if cs.len() == 0 {
        g
    } else {
        let k = cs.len() - 1;
        cell_step(
            row_scan(g, y, left_to_right, cs.drop_last()),
            scan_x(g.width as int, left_to_right, k),
            y,
            cs.last(),
        )
    }
}

/// `g` after its bottom `rows.len()` rows have been scanned, bottom row
/// first, each with its direction and its cells' choices.
pub open spec fn rows_scan(g: Grid, rows: Seq<(bool, Seq<(bool, bool, Seq<bool>)>)>) -> Grid
    decreases rows.len(),
{
    if rows.len() == 0 {
        g
    } else {
        let r = rows.len() - 1;
        row_scan(rows_scan(g, rows.drop_last()), g.height - 1 - r, rows.last().0, rows.last().1)
    }
}

/// `rows` holds a direction for every row of `g` and choices for every cell.
pub open spec fn step_choices(g: Grid, rows: Seq<(bool, Seq<(bool, bool, Seq<bool>)>)>) -> bool {
    &&& rows.len() == g.height
    &&& forall|r: int| 0 <= r < rows.len() ==> (#[trigger] rows[r]).1.len() == g.width
}

/// One cell's choices as a plain value.
pub open spec fn cell_choice(c: (bool, bool, Vec<bool>)) -> (bool, bool, Seq<bool>) {
    (c.0, c.1, c.2@)
}

/// A table of step choices as plain values.
pub open spec fn step_rows(rows: Seq<(bool, Vec<(bool, bool, Vec<bool>)>)>) -> Seq<(bool, Seq<(bool, bool, Seq<bool>)>)> {
    Seq::new(rows.len(), |r: int| (rows[r].0, Seq::new(rows[r].1@.len(), |k: int| cell_choice(rows[r].1@[k]))))
}

/// Every cell's choices hold eight ignition draws.
pub open spec fn ignite_lens(rows: Seq<(bool, Seq<(bool, bool, Seq<bool>)>)>) -> bool {
    forall|r: int, k: int| 0 <= r < rows.len() && 0 <= k < rows[r].1.len() ==> (#[trigger] rows[r].1[k]).2.len() == 8
}

// ---------------------------------------------------------------------------
// What every update keeps
// ---------------------------------------------------------------------------

/// Stone stays where it is, and nothing turns into stone.
pub open spec fn stone_kept(before: Seq<u8>, after: Seq<u8>) -> bool {
    &&& before.len() == after.len()
    &&& forall|k: int| 0 <= k < before.len() ==> (#[trigger] before[k] == STONE) == (after[k] == STONE)
}

/// The number of sand cells.
pub open spec fn sand_count(cells: Seq<u8>) -> nat {
    cells.to_multiset().count(SAND)
}

/// Every cell holds one of the nine elements.
pub open spec fn codes_valid(cells: Seq<u8>) -> bool {
    forall|k: int| 0 <= k < cells.len() ==> #[trigger] cells[k] <= STEAM
}

/// The invariants an update step keeps: the grid's shape, the frame
/// buffer, stone, the amount of sand, and valid element codes.
pub open spec fn step_keeps(before: Grid, after: Grid) -> bool {
    &&& after.width == before.width
    &&& after.height == before.height
    &&& after.pixels == before.pixels
    &&& after.cells.len() == before.cells.len()
    &&& after.life.len() == before.life.len()
    &&& stone_kept(before.cells, after.cells)
    &&& sand_count(after.cells) == sand_count(before.cells)
    &&& (codes_valid(before.cells) ==> codes_valid(after.cells))
}

// ---------------------------------------------------------------------------
// Lemmas
// ---------------------------------------------------------------------------

/// Cells on the grid have indices inside the cell array.
pub proof fn lemma_at_in_range(g: Grid, x: int, y: int)
    requires
        g.in_bounds(x, y),
    ensures
        0 <= g.at(x, y) < g.width * g.height,
{
    let w = g.width as int;
    let h = g.height as int;
    assert(0 <= y * w + x < w * h) by (nonlinear_arith)
        requires
            0 <= x < w,
            0 <= y < h,
    ;
}

/// Distinct cells on the grid have distinct indices.
pub proof fn lemma_at_distinct(g: Grid, x1: int, y1: int, x2: int, y2: int)
    requires
        g.in_bounds(x1, y1),
        g.in_bounds(x2, y2),
        x1 != x2 || y1 != y2,
    ensures
        g.at(x1, y1) != g.at(x2, y2),
{
    let w = g.width as int;
    if y1 == y2 {
    } else if y1 < y2 {
        assert(y1 * w + x1 < y2 * w + x2) by (nonlinear_arith)
            requires
                0 <= x1 < w,
                0 <= x2 < w,
                y1 < y2,
        ;
    } else {
        assert(y2 * w + x2 < y1 * w + x1) by (nonlinear_arith)
            requires
                0 <= x1 < w,
                0 <= x2 < w,
                y2 < y1,
        ;
    }
}

/// `step_keeps` composes.
pub proof fn lemma_keeps_trans(a: Grid, b: Grid, c: Grid)
    requires
        step_keeps(a, b),
        step_keeps(b, c),
    ensures
        step_keeps(a, c),
{
    assert forall|k: int| 0 <= k < a.cells.len() implies (#[trigger] a.cells[k] == STONE) == (c.cells[k] == STONE) by {
        assert(a.cells[k] == STONE <==> b.cells[k] == STONE);
    }
}

pub proof fn lemma_keeps_refl(a: Grid)
    ensures
        step_keeps(a, a),
{
}

/// Exchanging two cells, neither of them stone, keeps the invariants.
pub proof fn lemma_swap_keeps(g: Grid, x1: int, y1: int, x2: int, y2: int)
    requires
        g.wf(),
        g.in_bounds(x1, y1),
        g.in_bounds(x2, y2),
        g.cell(x1, y1) != STONE,
        g.cell(x2, y2) != STONE,
    ensures
        step_keeps(g, g.swap(x1, y1, x2, y2)),
        g.swap(x1, y1, x2, y2).wf(),
{
    broadcast use vstd::multiset::group_multiset_axioms;
    lemma_at_in_range(g, x1, y1);
    lemma_at_in_range(g, x2, y2);
    let a = g.at(x1, y1);
    let b = g.at(x2, y2);
    let t = g.swap(x1, y1, x2, y2);
    let mid = g.cells.update(a, g.cells[b]);
    assert(mid.to_multiset() == g.cells.to_multiset().insert(g.cells[b]).remove(g.cells[a]));
    assert(t.cells.to_multiset() == mid.to_multiset().insert(g.cells[a]).remove(mid[b]));
    if a == b {
        assert(t.cells =~= g.cells);
    } else {
        assert(mid[b] == g.cells[b]);
        let m = g.cells.to_multiset();
        let ca = g.cells[a];
        let cb = g.cells[b];
        assert(g.cells.contains(ca));
        assert(m.count(ca) > 0) by {
            vstd::seq_lib::to_multiset_contains(g.cells, ca);
        }
        let m1 = m.insert(cb);
        assert(m1.count(ca) > 0);
        let m2 = m1.remove(ca);
        assert(m2.count(SAND) == m.count(SAND) + (if cb == SAND { 1int } else { 0 }) - (if ca == SAND { 1int } else { 0 }));
        let m3 = m2.insert(ca);
        assert(m3.count(cb) > 0);
        let m4 = m3.remove(cb);
        assert(m4.count(SAND) == m.count(SAND));
    }
    assert(t.cells.to_multiset().count(SAND) == g.cells.to_multiset().count(SAND));
}

/// Setting a cell that is neither stone nor sand to an element that is
/// neither stone nor sand keeps the invariants.
pub proof fn lemma_set_keeps(g: Grid, x: int, y: int, cell: u8, life: u8)
    requires
        g.wf(),
        g.in_bounds(x, y),
        g.cell(x, y) != STONE,
        g.cell(x, y) != SAND,
        cell != STONE,
        cell != SAND,
        cell <= STEAM,
    ensures
        step_keeps(g, g.set(x, y, cell, life)),
        g.set(x, y, cell, life).wf(),
{
    broadcast use vstd::multiset::group_multiset_axioms;
    lemma_at_in_range(g, x, y);
    let t = g.set(x, y, cell, life);
    assert(t.cells.to_multiset() == g.cells.to_multiset().insert(cell).remove(g.cell(x, y)));
    let m = g.cells.to_multiset();
    let old_cell = g.cell(x, y);
    assert(g.cells.contains(old_cell));
    assert(m.count(old_cell) > 0) by {
        vstd::seq_lib::to_multiset_contains(g.cells, old_cell);
    }
    assert(m.insert(cell).remove(old_cell).count(SAND) == m.count(SAND));
}

/// Lowering a lifetime keeps the invariants.
pub proof fn lemma_age_keeps(g: Grid, x: int, y: int)
    requires
        g.wf(),
        g.in_bounds(x, y),
    ensures
        step_keeps(g, age(g, x, y)),
        age(g, x, y).wf(),
        age(g, x, y).cells == g.cells,
{
    lemma_at_in_range(g, x, y);
}

/// Sand moves only by trading places with empty space or water.
pub proof fn lemma_sand_rule_keeps(g: Grid, x: int, y: int, left_first: bool)
    requires
        g.wf(),
        g.in_bounds(x, y),
        g.cell(x, y) == SAND,
    ensures
        step_keeps(g, sand_rule(g, x, y, left_first)),
        sand_rule(g, x, y, left_first).wf(),
{
    let d1 = first_dx(left_first);
    let d2 = -d1;
    if y + 1 >= g.height {
    } else if g.cell(x, y + 1) == EMPTY || g.cell(x, y + 1) == WATER {
        lemma_swap_keeps(g, x, y, x, y + 1);
    } else if g.holds(x + d1, y + 1, EMPTY) || g.holds(x + d1, y + 1, WATER) {
        lemma_swap_keeps(g, x, y, x + d1, y + 1);
    } else if g.holds(x + d2, y + 1, EMPTY) || g.holds(x + d2, y + 1, WATER) {
        lemma_swap_keeps(g, x, y, x + d2, y + 1);
    }
}

/// Water moves only into empty space.
pub proof fn lemma_water_rule_keeps(g: Grid, x: int, y: int, c1: bool, c2: bool)
    requires
        g.wf(),
        g.in_bounds(x, y),
        g.cell(x, y) == WATER,
    ensures
        step_keeps(g, water_rule(g, x, y, c1, c2)),
        water_rule(g, x, y, c1, c2).wf(),
{
    let d1 = first_dx(c1);
    let d2 = -d1;
    let e1 = first_dx(c2);
    let e2 = -e1;
    if y + 1 < g.height && g.cell(x, y + 1) == EMPTY {
        lemma_swap_keeps(g, x, y, x, y + 1);
    } else if y + 1 < g.height && g.holds(x + d1, y + 1, EMPTY) {
        lemma_swap_keeps(g, x, y, x + d1, y + 1);
    } else if y + 1 < g.height && g.holds(x + d2, y + 1, EMPTY) {
        lemma_swap_keeps(g, x, y, x + d2, y + 1);
    } else if g.holds(x + e1, y, EMPTY) {
        lemma_swap_keeps(g, x, y, x + e1, y);
    } else if g.holds(x + e2, y, EMPTY) {
        lemma_swap_keeps(g, x, y, x + e2, y);
    }
}

/// Smoke and steam move only into empty space and fade into it.
pub proof fn lemma_gas_rule_keeps(g: Grid, x: int, y: int, drift_left: bool)
    requires
        g.wf(),
        g.in_bounds(x, y),
        g.cell(x, y) == SMOKE || g.cell(x, y) == STEAM,
    ensures
        step_keeps(g, gas_rule(g, x, y, drift_left)),
        gas_rule(g, x, y, drift_left).wf(),
{
    if g.life_at(x, y) == 0 {
        lemma_set_keeps(g, x, y, EMPTY, 0);
    } else {
        let a = age(g, x, y);
        lemma_age_keeps(g, x, y);
        let dx = first_dx(drift_left);
        if a.holds(x, y - 1, EMPTY) {
            lemma_swap_keeps(a, x, y, x, y - 1);
            lemma_keeps_trans(g, a, a.swap(x, y, x, y - 1));
        } else if a.holds(x + dx, y - 1, EMPTY) {
            lemma_swap_keeps(a, x, y, x + dx, y - 1);
            lemma_keeps_trans(g, a, a.swap(x, y, x + dx, y - 1));
        } else if a.holds(x + dx, y, EMPTY) {
            lemma_swap_keeps(a, x, y, x + dx, y);
            lemma_keeps_trans(g, a, a.swap(x, y, x + dx, y));
        }
    }
}

/// The neighbour scan of a fire keeps the invariants and, unless the fire
/// was put out, leaves the fire in place.
pub proof fn lemma_fire_scan_keeps(g: Grid, x: int, y: int, d: nat, ignite: Seq<bool>)
    requires
        g.wf(),
        g.in_bounds(x, y),
        g.cell(x, y) == FIRE,
    ensures
        step_keeps(g, fire_scan(g, x, y, d, ignite).0),
        fire_scan(g, x, y, d, ignite).0.wf(),
        !fire_scan(g, x, y, d, ignite).1 ==> fire_scan(g, x, y, d, ignite).0.cell(x, y) == FIRE,
    decreases d,
{
    if d == 0 {
    } else {
        let e = (d - 1) as nat;
        lemma_fire_scan_keeps(g, x, y, e, ignite);
        let p = fire_scan(g, x, y, e, ignite);
        if !p.1 {
            lemma_fire_step_keeps(p.0, x, y, d - 1, ignite[d - 1]);
            lemma_keeps_trans(g, p.0, fire_step(p.0, x, y, d - 1, ignite[d - 1]).0);
        }
    }
}

/// One look at a neighbour keeps the invariants.
pub proof fn lemma_fire_step_keeps(g: Grid, x: int, y: int, d: int, ignite: bool)
    requires
        g.wf(),
        g.in_bounds(x, y),
        g.cell(x, y) == FIRE,
    ensures
        step_keeps(g, fire_step(g, x, y, d, ignite).0),
        fire_step(g, x, y, d, ignite).0.wf(),
        !fire_step(g, x, y, d, ignite).1 ==> fire_step(g, x, y, d, ignite).0.cell(x, y) == FIRE,
{
    let nx = x + fire_dx(d);
    let ny = y + fire_dy(d);
    if !g.in_bounds(nx, ny) {
    } else if g.cell(nx, ny) == WATER {
        lemma_at_distinct(g, x, y, nx, ny);
        lemma_set_keeps(g, x, y, SMOKE, SMOKE_MAX_LIFE);
        let g1 = g.set(x, y, SMOKE, SMOKE_MAX_LIFE);
        lemma_at_in_range(g, nx, ny);
        lemma_at_in_range(g, x, y);
        assert(g1.at(nx, ny) == g.at(nx, ny));
        assert(g1.cells[g.at(nx, ny)] == g.cells[g.at(nx, ny)]);
        lemma_set_keeps(g1, nx, ny, STEAM, STEAM_MAX_LIFE);
        lemma_keeps_trans(g, g1, g1.set(nx, ny, STEAM, STEAM_MAX_LIFE));
    } else if g.cell(nx, ny) == WOOD || g.cell(nx, ny) == PLANT {
        if ignite {
            lemma_at_distinct(g, x, y, nx, ny);
            lemma_set_keeps(g, nx, ny, FIRE, FIRE_MAX_LIFE);
            let g1 = g.set(nx, ny, FIRE, FIRE_MAX_LIFE);
            lemma_at_in_range(g, nx, ny);
            lemma_at_in_range(g, x, y);
            assert(g1.at(x, y) == g.at(x, y));
            assert(g1.cells[g.at(x, y)] == g.cells[g.at(x, y)]);
        }
    }
}

/// The scan over the first `d` neighbours depends only on the first `d`
/// ignition choices.
pub proof fn lemma_fire_scan_prefix(g: Grid, x: int, y: int, d: nat, a: Seq<bool>, b: Seq<bool>)
    requires
        forall|k: int| 0 <= k < d ==> a[k] == b[k],
    ensures
        fire_scan(g, x, y, d, a) == fire_scan(g, x, y, d, b),
    decreases d,
{
    if d > 0 {
        lemma_fire_scan_prefix(g, x, y, (d - 1) as nat, a, b);
    }
}

/// Once the fire is out, looking at further neighbours changes nothing.
pub proof fn lemma_fire_scan_stops(g: Grid, x: int, y: int, d: nat, e: nat, ignite: Seq<bool>)
    requires
        d <= e,
        fire_scan(g, x, y, d, ignite).1,
    ensures
        fire_scan(g, x, y, e, ignite) == fire_scan(g, x, y, d, ignite),
    decreases e - d,
{
    if d < e {
        lemma_fire_scan_stops(g, x, y, d, (e - 1) as nat, ignite);
    }
}

/// Fire only turns into smoke or empty space, burns wood and plants, turns
/// water to steam, and moves into empty space.
pub proof fn lemma_fire_rule_keeps(g: Grid, x: int, y: int, vanish: bool, ignite: Seq<bool>, drift: bool)
    requires
        g.wf(),
        g.in_bounds(x, y),
        g.cell(x, y) == FIRE,
    ensures
        step_keeps(g, fire_rule(g, x, y, vanish, ignite, drift)),
        fire_rule(g, x, y, vanish, ignite, drift).wf(),
{
    if g.life_at(x, y) == 0 {
        if vanish {
            lemma_set_keeps(g, x, y, EMPTY, 0);
        } else {
            lemma_set_keeps(g, x, y, SMOKE, SMOKE_MAX_LIFE);
        }
    } else {
        let a = age(g, x, y);
        lemma_age_keeps(g, x, y);
        lemma_fire_scan_keeps(a, x, y, 8, ignite);
        let scanned = fire_scan(a, x, y, 8, ignite);
        lemma_keeps_trans(g, a, scanned.0);
        if !scanned.1 && drift && scanned.0.holds(x, y - 1, EMPTY) {
            lemma_swap_keeps(scanned.0, x, y, x, y - 1);
            lemma_keeps_trans(g, scanned.0, scanned.0.swap(x, y, x, y - 1));
        }
    }
}

pub proof fn lemma_neighbour_dir(g: Grid, x: int, y: int, kind: u8, d: int)
    ensures
        neighbour_dir(g, x, y, kind, d) matches Some(w) ==> 0 <= w < 4
            && g.holds(x + card_dx(w), y + card_dy(w), kind),
    decreases 4 - d,
{
    if d >= 4 || d < 0 {
    } else if g.holds(x + card_dx(d), y + card_dy(d), kind) {
    } else {
        lemma_neighbour_dir(g, x, y, kind, d + 1);
    }
}

pub proof fn lemma_grow_dir(g: Grid, x: int, y: int, d: int)
    ensures
        grow_dir(g, x, y, d) matches Some(e) ==> 0 <= e < 3 && g.holds(x + grow_dx(e), y - 1, EMPTY),
    decreases 3 - d,
{
    if d >= 3 || d < 0 {
    } else if g.holds(x + grow_dx(d), y - 1, EMPTY) {
    } else {
        lemma_grow_dir(g, x, y, d + 1);
    }
}

/// The number of cells holding `kind`.
pub open spec fn count_of(cells: Seq<u8>, kind: u8) -> nat {
    cells.to_multiset().count(kind)
}

/// Setting one cell changes the count of `kind` by what left and what came.
pub proof fn lemma_set_count(g: Grid, x: int, y: int, cell: u8, life: u8, kind: u8)
    requires
        g.wf(),
        g.in_bounds(x, y),
    ensures
        count_of(g.set(x, y, cell, life).cells, kind) + (if g.cell(x, y) == kind { 1int } else { 0 })
            == count_of(g.cells, kind) + (if cell == kind { 1int } else { 0 }),
{
    broadcast use vstd::multiset::group_multiset_axioms;
    lemma_at_in_range(g, x, y);
    let t = g.set(x, y, cell, life);
    assert(t.cells.to_multiset() == g.cells.to_multiset().insert(cell).remove(g.cell(x, y)));
    let old_cell = g.cell(x, y);
    assert(g.cells.contains(old_cell));
    assert(g.cells.to_multiset().count(old_cell) > 0) by {
        vstd::seq_lib::to_multiset_contains(g.cells, old_cell);
    }
}

/// A plant grows only by drinking: a plant update either changes nothing
/// in the counts or adds one plant cell and uses up one water cell, so the
/// plant and water cells together stay as many as before.
pub proof fn lemma_plant_drinks(g: Grid, x: int, y: int, grow: bool)
    requires
        g.wf(),
        g.in_bounds(x, y),
    ensures
        count_of(plant_rule(g, x, y, grow).cells, PLANT) + count_of(plant_rule(g, x, y, grow).cells, WATER)
            == count_of(g.cells, PLANT) + count_of(g.cells, WATER),
        count_of(plant_rule(g, x, y, grow).cells, PLANT) == count_of(g.cells, PLANT)
            || count_of(plant_rule(g, x, y, grow).cells, PLANT) == count_of(g.cells, PLANT) + 1,
{
    lemma_neighbour_dir(g, x, y, WATER, 0);
    lemma_grow_dir(g, x, y, 0);
    match neighbour_dir(g, x, y, WATER, 0) {
        None => {},
        Some(w) => {
            if grow {
                match grow_dir(g, x, y, 0) {
                    None => {},
                    Some(d) => {
                        let px = x + grow_dx(d);
                        let wx = x + card_dx(w);
                        let wy = y + card_dy(w);
                        let g1 = g.set(px, y - 1, PLANT, 0);
                        lemma_set_count(g, px, y - 1, PLANT, 0, PLANT);
                        lemma_set_count(g, px, y - 1, PLANT, 0, WATER);
                        lemma_at_distinct(g, px, y - 1, wx, wy);
                        lemma_at_in_range(g, wx, wy);
                        lemma_at_in_range(g, px, y - 1);
                        assert(g1.cells[g.at(wx, wy)] == g.cells[g.at(wx, wy)]);
                        assert(g1.cell(wx, wy) == WATER);
                        lemma_set_count(g1, wx, wy, EMPTY, 0, PLANT);
                        lemma_set_count(g1, wx, wy, EMPTY, 0, WATER);
                    },
                }
            }
        },
    }
}

/// A plant grows only into empty space and only by using up water.
pub proof fn lemma_plant_rule_keeps(g: Grid, x: int, y: int, grow: bool)
    requires
        g.wf(),
        g.in_bounds(x, y),
    ensures
        step_keeps(g, plant_rule(g, x, y, grow)),
        plant_rule(g, x, y, grow).wf(),
{
    lemma_neighbour_dir(g, x, y, WATER, 0);
    lemma_grow_dir(g, x, y, 0);
    match neighbour_dir(g, x, y, WATER, 0) {
        None => {},
        Some(w) => {
            if grow {
                match grow_dir(g, x, y, 0) {
                    None => {},
                    Some(d) => {
                        let px = x + grow_dx(d);
                        let wx = x + card_dx(w);
                        let wy = y + card_dy(w);
                        lemma_set_keeps(g, px, y - 1, PLANT, 0);
                        let g1 = g.set(px, y - 1, PLANT, 0);
                        lemma_at_distinct(g, px, y - 1, wx, wy);
                        lemma_at_in_range(g, wx, wy);
                        lemma_at_in_range(g, px, y - 1);
                        assert(g1.width == g.width);
                        assert(g1.at(wx, wy) == g.at(wx, wy));
                        assert(g1.cells[g.at(wx, wy)] == g.cells[g.at(wx, wy)]);
                        assert(g1.cell(wx, wy) == WATER);
                        lemma_set_keeps(g1, wx, wy, EMPTY, 0);
                        lemma_keeps_trans(g, g1, g1.set(wx, wy, EMPTY, 0));
                    },
                }
            }
        },
    }
}

/// Updating one cell on the grid, whatever it holds and whatever it draws,
/// keeps the invariants.
pub proof fn lemma_cell_step_keeps(g: Grid, x: int, y: int, c: (bool, bool, Seq<bool>))
    requires
        g.wf(),
        g.in_bounds(x, y),
    ensures
        step_keeps(g, cell_step(g, x, y, c)),
        cell_step(g, x, y, c).wf(),
{
    let k = g.cell(x, y);
    if k == SAND {
        lemma_sand_rule_keeps(g, x, y, c.0);
    } else if k == WATER {
        lemma_water_rule_keeps(g, x, y, c.0, c.1);
    } else if k == FIRE {
        lemma_fire_rule_keeps(g, x, y, c.0, c.2, c.1);
    } else if k == SMOKE || k == STEAM {
        lemma_gas_rule_keeps(g, x, y, c.0);
    } else if k == PLANT {
        lemma_plant_rule_keeps(g, x, y, c.0);
    }
}

/// A partial scan of one row keeps the invariants.
pub proof fn lemma_row_scan_keeps(g: Grid, y: int, left_to_right: bool, cs: Seq<(bool, bool, Seq<bool>)>)
    requires
        g.wf(),
        0 <= y < g.height,
        cs.len() <= g.width,
    ensures
        step_keeps(g, row_scan(g, y, left_to_right, cs)),
        row_scan(g, y, left_to_right, cs).wf(),
    decreases cs.len(),
{
    if cs.len() > 0 {
        let prev = row_scan(g, y, left_to_right, cs.drop_last());
        lemma_row_scan_keeps(g, y, left_to_right, cs.drop_last());
        let x = scan_x(g.width as int, left_to_right, cs.len() - 1);
        lemma_cell_step_keeps(prev, x, y, cs.last());
        lemma_keeps_trans(g, prev, cell_step(prev, x, y, cs.last()));
    }
}

/// A step, or any prefix of one made of whole rows, keeps stone in place,
/// the amount of sand, the element codes, the shape and the frame buffer.
pub proof fn lemma_rows_scan_keeps(g: Grid, rows: Seq<(bool, Seq<(bool, bool, Seq<bool>)>)>)
    requires
        g.wf(),
        rows.len() <= g.height,
        forall|r: int| 0 <= r < rows.len() ==> (#[trigger] rows[r]).1.len() <= g.width,
    ensures
        step_keeps(g, rows_scan(g, rows)),
        rows_scan(g, rows).wf(),
    decreases rows.len(),
{
    if rows.len() == 0 {
        lemma_keeps_refl(g);
    } else {
        let front = rows.drop_last();
        assert forall|r: int| 0 <= r < front.len() implies (#[trigger] front[r]).1.len() <= g.width by {
            assert(front[r] == rows[r]);
        }
        lemma_rows_scan_keeps(g, front);
        let prev = rows_scan(g, front);
        let last = rows[rows.len() - 1];
        lemma_row_scan_keeps(prev, g.height - 1 - (rows.len() - 1), last.0, last.1);
        lemma_keeps_trans(g, prev, rows_scan(g, rows));
    }
}

// ---------------------------------------------------------------------------
// The automaton
// ---------------------------------------------------------------------------

/// The simulation state: the grid, the lifetimes and the frame buffer.
pub struct Universe {
    width: u32,
    height: u32,
    cells: Vec<u8>,
    life: Vec<u8>,
    pixels: Vec<u8>,
}

impl View for Universe {
    type V = Grid;

    closed spec fn view(&self) -> Grid {
        Grid {
            width: self.width,
            height: self.height,
            cells: self.cells@,
            life: self.life@,
            pixels: self.pixels@,
        }
    }
}

fn filled(n: usize, value: u8) -> (out: Vec<u8>)
    ensures
        out@ == Seq::new(n as nat, |k: int| value),
{
    let mut out: Vec<u8> = Vec::new();
    while out.len() < n
        invariant
            out.len() <= n,
            forall|k: int| 0 <= k < out.len() ==> out@[k] == value,
        decreases n - out.len(),
    {
        out.push(value);
    }
    assert(out@ =~= Seq::new(n as nat, |k: int| value));
    out
}

impl Universe {
    /// An empty `width` x `height` world.
    pub fn new(width: u32, height: u32) -> (u: Universe)
        requires
            width * height <= u32::MAX,
            4 * (width * height) <= usize::MAX,
        ensures
            u@.wf(),
            u@.width == width,
            u@.height == height,
            u@.cells == Seq::new((width * height) as nat, |k: int| EMPTY),
            u@.life == Seq::new((width * height) as nat, |k: int| 0u8),
            u@.pixels == Seq::new(4 * (width * height) as nat, |k: int| 0u8),
    {
        let size = (width * height) as usize;
        Universe {
            width,
            height,
            cells: filled(size, EMPTY),
            life: filled(size, 0),
            pixels: filled(size * 4, 0),
        }
    }

    pub fn width(&self) -> (w: u32)
        ensures
            w == self@.width,
    {
        self.width
    }

    pub fn height(&self) -> (h: u32)
        ensures
            h == self@.height,
    {
        self.height
    }

    /// The RGBA frame buffer, four bytes per cell, row by row.
    pub fn pixels(&self) -> (p: &[u8])
        ensures
            p@ == self@.pixels,
    {
        self.pixels.as_slice()
    }

    /// Length of the frame buffer in bytes (width * height * 4).
    pub fn pixels_len(&self) -> (n: usize)
        ensures
            n == self@.pixels.len(),
    {
        self.pixels.len()
    }

    /// The element at (`x`, `y`).
    pub fn cell_at(&self, x: u32, y: u32) -> (c: u8)
        requires
            self@.wf(),
            x < self@.width,
            y < self@.height,
        ensures
            c == self@.cell(x as int, y as int),
    {
        proof {
            lemma_at_in_range(self@, x as int, y as int);
        }
        self.cells[(y * self.width + x) as usize]
    }

    /// Paint a disc of `radius` cells centred on (`cx`, `cy`) with
    /// `cell_type`; ephemeral elements start with their full lifetime.
    pub fn paint(&mut self, cx: i32, cy: i32, cell_type: u8, radius: i32)
        requires
            old(self)@.wf(),
            old(self)@.width <= i32::MAX,
            old(self)@.height <= i32::MAX,
            radius >= 0 ==> 2 * radius * radius <= i32::MAX,
            radius >= 0 ==> i32::MIN <= cx - radius && cx + radius <= i32::MAX,
            radius >= 0 ==> i32::MIN <= cy - radius && cy + radius <= i32::MAX,
            radius < 0 ==> radius * radius <= i32::MAX,
        ensures
            final(self)@.wf(),
            final(self)@.width == old(self)@.width,
            final(self)@.height == old(self)@.height,
            final(self)@.pixels == old(self)@.pixels,
            forall|x: int, y: int| old(self)@.in_bounds(x, y) ==> #[trigger] final(self)@.cell(x, y) == (
                if in_disc(cx as int, cy as int, radius as int, x, y) { cell_type } else { old(self)@.cell(x, y) }),
            forall|x: int, y: int| old(self)@.in_bounds(x, y) ==> #[trigger] final(self)@.life_at(x, y) == (
                if in_disc(cx as int, cy as int, radius as int, x, y) { initial_life(cell_type) } else { old(self)@.life_at(x, y) }),
    {
        proof {
            if radius >= 0 {
                assert(0 <= radius * radius <= i32::MAX && radius <= 46340) by (nonlinear_arith)
                    requires
                        radius >= 0,
                        2 * radius * radius <= i32::MAX,
                ;
            } else {
                assert(radius > i32::MIN && 0 <= radius * radius) by (nonlinear_arith)
                    requires
                        radius < 0,
                        radius * radius <= i32::MAX,
                ;
            }
        }
        let r2 = radius * radius;
        let life = initial_life_of(cell_type);
        let ghost g0 = self@;
        let ghost r = radius as int;
        let mut dy: i32 = -radius;
        while dy <= radius
            invariant
                g0 == old(self)@,
                r == radius,
                r2 == r * r,
                life == initial_life(cell_type),
                radius >= 0 ==> 2 * r * r <= i32::MAX,
                radius >= 0 ==> i32::MIN <= cx - r && cx + r <= i32::MAX,
                radius >= 0 ==> i32::MIN <= cy - r && cy + r <= i32::MAX,
                radius >= 0 ==> -r <= dy <= r + 1,
                radius >= 0 ==> r <= 46340,
                radius < 0 ==> dy == -r,
                self@.wf(),
                g0.wf(),
                g0.width <= i32::MAX,
                g0.height <= i32::MAX,
                self@.width == g0.width,
                self@.height == g0.height,
                self@.pixels == g0.pixels,
                forall|x: int, y: int| g0.in_bounds(x, y) ==> #[trigger] self@.cell(x, y) == (
                    if in_disc(cx as int, cy as int, r, x, y) && y - cy < dy { cell_type } else { g0.cell(x, y) }),
                forall|x: int, y: int| g0.in_bounds(x, y) ==> #[trigger] self@.life_at(x, y) == (
                    if in_disc(cx as int, cy as int, r, x, y) && y - cy < dy { life } else { g0.life_at(x, y) }),
            decreases r + 1 - dy,
        {
            let mut dx: i32 = -radius;
            while dx <= radius
                invariant
                    g0 == old(self)@,
                    r == radius,
                    radius >= 0,
                    r2 == r * r,
                    life == initial_life(cell_type),
                    2 * r * r <= i32::MAX,
                    i32::MIN <= cx - r && cx + r <= i32::MAX,
                    i32::MIN <= cy - r && cy + r <= i32::MAX,
                    -r <= dy <= r,
                    -r <= dx <= r + 1,
                    r <= 46340,
                    self@.wf(),
                    g0.wf(),
                    g0.width <= i32::MAX,
                    g0.height <= i32::MAX,
                    self@.width == g0.width,
                    self@.height == g0.height,
                    self@.pixels == g0.pixels,
                    forall|x: int, y: int| g0.in_bounds(x, y) ==> #[trigger] self@.cell(x, y) == (
                        if in_disc(cx as int, cy as int, r, x, y) && (y - cy < dy || (y - cy == dy && x - cx < dx)) { cell_type } else { g0.cell(x, y) }),
                    forall|x: int, y: int| g0.in_bounds(x, y) ==> #[trigger] self@.life_at(x, y) == (
                        if in_disc(cx as int, cy as int, r, x, y) && (y - cy < dy || (y - cy == dy && x - cx < dx)) { life } else { g0.life_at(x, y) }),
                decreases r + 1 - dx,
            {
                proof {
                    assert(0 <= dx * dx <= i32::MAX && 0 <= dy * dy <= i32::MAX && 0 <= dx * dx + dy * dy <= i32::MAX) by (nonlinear_arith)
                        requires
                            -r <= dx <= r,
                            -r <= dy <= r,
                            2 * r * r <= i32::MAX,
                    ;
                }
                if dx * dx + dy * dy > r2 {
                    proof {
                        assert forall|x: int, y: int| g0.in_bounds(x, y) implies #[trigger] self@.cell(x, y) == (
                            if in_disc(cx as int, cy as int, r, x, y) && (y - cy < dy || (y - cy == dy && x - cx < dx + 1)) { cell_type } else { g0.cell(x, y) }) by {
                            if y - cy == dy && x - cx == dx {
                                assert(!in_disc(cx as int, cy as int, r, x, y));
                            }
                        }
                        assert forall|x: int, y: int| g0.in_bounds(x, y) implies #[trigger] self@.life_at(x, y) == (
                            if in_disc(cx as int, cy as int, r, x, y) && (y - cy < dy || (y - cy == dy && x - cx < dx + 1)) { life } else { g0.life_at(x, y) }) by {
                            if y - cy == dy && x - cx == dx {
                                assert(!in_disc(cx as int, cy as int, r, x, y));
                            }
                        }
                    }
                    dx += 1;
                    continue;
                }
                let x = cx + dx;
                let y = cy + dy;
                let ghost before = self@;
                if x >= 0 && x < self.width as i32 && y >= 0 && y < self.height as i32 {
                    proof {
                        lemma_at_in_range(before, x as int, y as int);
                    }
                    let idx = (y as u32 * self.width + x as u32) as usize;
                    self.cells.set(idx, cell_type);
                    self.life.set(idx, life);
                    proof {
                        assert forall|x2: int, y2: int| g0.in_bounds(x2, y2) && (x2 != x || y2 != y) implies
                            #[trigger] self@.cell(x2, y2) == before.cell(x2, y2) && self@.life_at(x2, y2) == before.life_at(x2, y2) by {
                            lemma_at_distinct(before, x as int, y as int, x2, y2);
                            lemma_at_in_range(before, x2, y2);
                        }
                    }
                }
                proof {
                    assert forall|x2: int, y2: int| g0.in_bounds(x2, y2) implies #[trigger] self@.cell(x2, y2) == (
                        if in_disc(cx as int, cy as int, r, x2, y2) && (y2 - cy < dy || (y2 - cy == dy && x2 - cx < dx + 1)) { cell_type } else { g0.cell(x2, y2) }) by {
                        if x2 != x || y2 != y {
                            assert(self@.cell(x2, y2) == before.cell(x2, y2));
                        }
                    }
                    assert forall|x2: int, y2: int| g0.in_bounds(x2, y2) implies #[trigger] self@.life_at(x2, y2) == (
                        if in_disc(cx as int, cy as int, r, x2, y2) && (y2 - cy < dy || (y2 - cy == dy && x2 - cx < dx + 1)) { life } else { g0.life_at(x2, y2) }) by {
                        if x2 != x || y2 != y {
                            assert(self@.cell(x2, y2) == before.cell(x2, y2));
                            assert(self@.life_at(x2, y2) == before.life_at(x2, y2));
                        }
                    }
                }
                dx += 1;
            }
            proof {
                assert forall|x: int, y: int| g0.in_bounds(x, y) implies #[trigger] self@.cell(x, y) == (
                    if in_disc(cx as int, cy as int, r, x, y) && y - cy < dy + 1 { cell_type } else { g0.cell(x, y) }) by {}
                assert forall|x: int, y: int| g0.in_bounds(x, y) implies #[trigger] self@.life_at(x, y) == (
                    if in_disc(cx as int, cy as int, r, x, y) && y - cy < dy + 1 { life } else { g0.life_at(x, y) }) by {}
            }
            dy += 1;
        }
        proof {
            assert forall|x: int, y: int| g0.in_bounds(x, y) && in_disc(cx as int, cy as int, r, x, y) implies y - cy < dy by {}
        }
    }

    /// Write the current grid into the RGBA frame buffer.
    pub fn render(&mut self)
        requires
            old(self)@.wf(),
        ensures
            final(self)@ == (Grid { pixels: frame(old(self)@.cells), ..old(self)@ }),
    {
        let len = self.cells.len();
        let plen = self.pixels.len();
        assert(plen == 4 * len);
        let ghost g0 = self@;
        let mut i: usize = 0;
        while i < len
            invariant
                4 * len <= usize::MAX,
                g0 == old(self)@,
                g0.wf(),
                len == g0.cells.len(),
                i <= len,
                self@ == (Grid { pixels: self@.pixels, ..g0 }),
                self@.pixels.len() == 4 * len,
                forall|p: int| 0 <= p < 4 * len ==> #[trigger] self@.pixels[p] == (
                    if p / 4 < i { colour(g0.cells[p / 4], (p / 4) as usize)[p % 4] } else { g0.pixels[p] }),
            decreases len - i,
        {
            let rgba = cell_colour(self.cells[i], i);
            let p = i * 4;
            let ghost before = self@.pixels;
            self.pixels.set(p, rgba[0]);
            self.pixels.set(p + 1, rgba[1]);
            self.pixels.set(p + 2, rgba[2]);
            self.pixels.set(p + 3, rgba[3]);
            proof {
                assert forall|q: int| 0 <= q < 4 * len implies #[trigger] self@.pixels[q] == (
                    if q / 4 < i + 1 { colour(g0.cells[q / 4], (q / 4) as usize)[q % 4] } else { g0.pixels[q] }) by {
                    if p <= q < p + 4 {
                        vstd::arithmetic::div_mod::lemma_fundamental_div_mod_converse(q, 4, i as int, q - p);
                    } else {
                        assert(self@.pixels[q] == before[q]);
                        if q < p {
                            assert(q / 4 < i) by {
                                vstd::arithmetic::div_mod::lemma_div_is_ordered(q, p - 1, 4);
                                vstd::arithmetic::div_mod::lemma_fundamental_div_mod_converse(p - 1, 4, i - 1, 3);
                            }
                        } else {
                            assert(q / 4 >= i + 1) by {
                                vstd::arithmetic::div_mod::lemma_div_is_ordered(p + 4, q, 4);
                                vstd::arithmetic::div_mod::lemma_fundamental_div_mod_converse(p + 4, 4, i + 1, 0);
                            }
                        }
                    }
                }
            }
            i += 1;
        }
        assert(self@.pixels =~= frame(g0.cells));
    }

    /// Empty the world: every cell empty, every lifetime zero.
    pub fn clear(&mut self)
        requires
            old(self)@.wf(),
        ensures
            final(self)@ == (Grid {
                cells: Seq::new(old(self)@.cells.len(), |k: int| EMPTY),
                life: Seq::new(old(self)@.life.len(), |k: int| 0u8),
                ..old(self)@
            }),
            final(self)@.wf(),
    {
        let n = self.cells.len();
        let ghost g0 = self@;
        let mut k: usize = 0;
        while k < n
            invariant
                g0 == old(self)@,
                g0.wf(),
                n == g0.cells.len(),
                k <= n,
                self@ == (Grid { cells: self@.cells, life: self@.life, ..g0 }),
                self@.cells.len() == n,
                self@.life.len() == n,
                forall|j: int| 0 <= j < k ==> #[trigger] self@.cells[j] == EMPTY && self@.life[j] == 0,
            decreases n - k,
        {
            self.cells.set(k, EMPTY);
            self.life.set(k, 0);
            k += 1;
        }
        assert(self@.cells =~= Seq::new(n as nat, |k: int| EMPTY));
        assert(self@.life =~= Seq::new(n as nat, |k: int| 0u8));
    }

    /// The remaining lifetime of the element at (`x`, `y`).
    pub fn life_at(&self, x: u32, y: u32) -> (l: u8)
        requires
            self@.wf(),
            x < self@.width,
            y < self@.height,
        ensures
            l == self@.life_at(x as int, y as int),
    {
        proof {
            lemma_at_in_range(self@, x as int, y as int);
        }
        self.life[(y * self.width + x) as usize]
    }

    // -- Private helpers ----------------------------------------------------

    fn idx(&self, x: i32, y: i32) -> (i: usize)
        requires
            self@.wf(),
            self@.in_bounds(x as int, y as int),
        ensures
            i as int == self@.at(x as int, y as int),
            i < self@.cells.len(),
    {
        proof {
            lemma_at_in_range(self@, x as int, y as int);
        }
        (y as u32 * self.width + x as u32) as usize
    }

    fn get(&self, x: i32, y: i32) -> (c: u8)
        requires
            self@.wf(),
            self@.in_bounds(x as int, y as int),
        ensures
            c == self@.cell(x as int, y as int),
    {
        self.cells[self.idx(x, y)]
    }

    fn set(&mut self, x: i32, y: i32, cell: u8, life: u8)
        requires
            old(self)@.wf(),
            old(self)@.in_bounds(x as int, y as int),
        ensures
            final(self)@ == old(self)@.set(x as int, y as int, cell, life),
            final(self)@.wf(),
    {
        let i = self.idx(x, y);
        self.cells.set(i, cell);
        self.life.set(i, life);
    }

    fn swap(&mut self, x1: i32, y1: i32, x2: i32, y2: i32)
        requires
            old(self)@.wf(),
            old(self)@.in_bounds(x1 as int, y1 as int),
            old(self)@.in_bounds(x2 as int, y2 as int),
        ensures
            final(self)@ == old(self)@.swap(x1 as int, y1 as int, x2 as int, y2 as int),
            final(self)@.wf(),
    {
        let a = self.idx(x1, y1);
        let b = self.idx(x2, y2);
        let ca = self.cells[a];
        let cb = self.cells[b];
        self.cells.set(a, cb);
        self.cells.set(b, ca);
        let la = self.life[a];
        let lb = self.life[b];
        self.life.set(a, lb);
        self.life.set(b, la);
    }

    fn in_bounds(&self, x: i32, y: i32) -> (b: bool)
        requires
            self@.fits_i32(),
        ensures
            b == self@.in_bounds(x as int, y as int),
    {
        x >= 0 && x < self.width as i32 && y >= 0 && y < self.height as i32
    }

    /// Whether (`x`, `y`) is on the grid and holds `kind`.
    fn holds(&self, x: i32, y: i32, kind: u8) -> (b: bool)
        requires
            self@.wf(),
            self@.fits_i32(),
        ensures
            b == self@.holds(x as int, y as int, kind),
    {
        self.in_bounds(x, y) && self.get(x, y) == kind
    }

    // -- Sand ---------------------------------------------------------------

    /// A coin flip: the `given` one, or a random one.
    fn flip(rng: &mut rand::rngs::ThreadRng, given: Option<bool>) -> (b: bool)
        ensures
            given matches Some(g) ==> b == g,
    {
        match given {
            Some(g) => g,
            None => random_bool(rng),
        }
    }

    /// One chance in `n`: the `given` outcome, or a random one.
    fn one_in(rng: &mut rand::rngs::ThreadRng, n: u32, given: Option<bool>) -> (b: bool)
        requires
            n > 0,
        ensures
            given matches Some(g) ==> b == g,
    {
        match given {
            Some(g) => g,
            None => random_range_u32(rng, 0, n) == 0,
        }
    }

    fn tick_sand(&mut self, x: i32, y: i32, _w: i32, h: i32, rng: &mut rand::rngs::ThreadRng, given: Option<bool>)
        requires
            old(self)@.wf(),
            old(self)@.fits_i32(),
            old(self)@.in_bounds(x as int, y as int),
            h == old(self)@.height,
        ensures
            exists|left_first: bool| final(self)@ == #[trigger] sand_rule(old(self)@, x as int, y as int, left_first)
                && (given matches Some(g) ==> left_first == g),
    {
        let ghost g0: bool = match given { Some(g) => g, None => true };
        if y + 1 >= h {
            assert(self@ == sand_rule(old(self)@, x as int, y as int, g0));
            return;
        }
        let below = self.get(x, y + 1);

        // Fall straight down into empty space.
        if below == EMPTY {
            self.swap(x, y, x, y + 1);
            assert(self@ == sand_rule(old(self)@, x as int, y as int, g0));
            return;
        }

        // Density swap: sand sinks through water.
        if below == WATER {
            self.swap(x, y, x, y + 1);
            assert(self@ == sand_rule(old(self)@, x as int, y as int, g0));
            return;
        }

        // Try diagonal down-left / down-right (random order).
        let try_left_first = Self::flip(rng, given);
        let (dx1, dx2): (i32, i32) = if try_left_first { (-1, 1) } else { (1, -1) };

        if self.holds(x + dx1, y + 1, EMPTY) || self.holds(x + dx1, y + 1, WATER) {
            self.swap(x, y, x + dx1, y + 1);
        } else if self.holds(x + dx2, y + 1, EMPTY) || self.holds(x + dx2, y + 1, WATER) {
            self.swap(x, y, x + dx2, y + 1);
        }
        assert(self@ == sand_rule(old(self)@, x as int, y as int, try_left_first));
    }

    // -- Water --------------------------------------------------------------

    /// Water spreading sideways into empty space.
    fn water_spread(&mut self, x: i32, y: i32, rng: &mut rand::rngs::ThreadRng, given: Option<bool>) -> (ghost_choice: Ghost<bool>)
        requires
            old(self)@.wf(),
            old(self)@.fits_i32(),
            old(self)@.in_bounds(x as int, y as int),
        ensures
            final(self)@ == water_spread(old(self)@, x as int, y as int, ghost_choice@),
            given matches Some(g) ==> ghost_choice@ == g,
    {
        let try_left_first = Self::flip(rng, given);
        let (dx1, dx2): (i32, i32) = if try_left_first { (-1, 1) } else { (1, -1) };
        if self.holds(x + dx1, y, EMPTY) {
            self.swap(x, y, x + dx1, y);
        } else if self.holds(x + dx2, y, EMPTY) {
            self.swap(x, y, x + dx2, y);
        }
        Ghost(try_left_first)
    }

    fn tick_water(&mut self, x: i32, y: i32, _w: i32, h: i32, rng: &mut rand::rngs::ThreadRng, given: Option<(bool, bool)>)
        requires
            old(self)@.wf(),
            old(self)@.fits_i32(),
            old(self)@.in_bounds(x as int, y as int),
            h == old(self)@.height,
        ensures
            exists|c1: bool, c2: bool| final(self)@ == #[trigger] water_rule(old(self)@, x as int, y as int, c1, c2)
                && (given matches Some(g) ==> c1 == g.0 && c2 == g.1),
    {
        let ghost g0: (bool, bool) = match given { Some(g) => g, None => (true, true) };
        let (given_diag, given_side) = match given {
            Some(g) => (Some(g.0), Some(g.1)),
            None => (None, None),
        };
        // Fall straight down.
        if y + 1 < h {
            let below = self.get(x, y + 1);
            if below == EMPTY {
                self.swap(x, y, x, y + 1);
                assert(self@ == water_rule(old(self)@, x as int, y as int, g0.0, g0.1));
                return;
            }

            // Diagonal down.
            let try_left_first = Self::flip(rng, given_diag);
            let (dx1, dx2): (i32, i32) = if try_left_first { (-1, 1) } else { (1, -1) };
            if self.holds(x + dx1, y + 1, EMPTY) {
                self.swap(x, y, x + dx1, y + 1);
                assert(self@ == water_rule(old(self)@, x as int, y as int, try_left_first, g0.1));
                return;
            }
            if self.holds(x + dx2, y + 1, EMPTY) {
                self.swap(x, y, x + dx2, y + 1);
                assert(self@ == water_rule(old(self)@, x as int, y as int, try_left_first, g0.1));
                return;
            }
            // Flow sideways (water spreads horizontally).
            let side = self.water_spread(x, y, rng, given_side);
            assert(self@ == water_rule(old(self)@, x as int, y as int, try_left_first, side@));
        } else {
            let side = self.water_spread(x, y, rng, given_side);
            assert(self@ == water_rule(old(self)@, x as int, y as int, g0.0, side@));
        }
    }

    // -- Smoke and steam ----------------------------------------------------

    fn tick_gas(&mut self, x: i32, y: i32, _w: i32, _h: i32, rng: &mut rand::rngs::ThreadRng, gas_type: u8, given: Option<bool>)
        requires
            old(self)@.wf(),
            old(self)@.fits_i32(),
            old(self)@.in_bounds(x as int, y as int),
        ensures
            exists|drift_left: bool| final(self)@ == #[trigger] gas_rule(old(self)@, x as int, y as int, drift_left)
                && (given matches Some(g) ==> drift_left == g),
    {
        let ghost g0: bool = match given { Some(g) => g, None => true };
        let i = self.idx(x, y);

        // Decrement lifetime; vanish when expired.
        if self.life[i] == 0 {
            self.set(x, y, EMPTY, 0);
            assert(self@ == gas_rule(old(self)@, x as int, y as int, g0));
            return;
        }
        let remaining = self.life[i] - 1;
        self.life.set(i, remaining);
        assert(self@ == age(old(self)@, x as int, y as int));

        // Rise upward.
        if self.holds(x, y - 1, EMPTY) {
            self.swap(x, y, x, y - 1);
            assert(self@ == gas_rule(old(self)@, x as int, y as int, g0));
            return;
        }

        // Disperse: randomly drift left or right.
        let drift_left = Self::flip(rng, given);
        let dx: i32 = if drift_left { -1 } else { 1 };

        // Try diagonal-up first, then horizontal.
        if self.holds(x + dx, y - 1, EMPTY) {
            self.swap(x, y, x + dx, y - 1);
        } else if self.holds(x + dx, y, EMPTY) {
            self.swap(x, y, x + dx, y);
        }

        // Smoke and steam follow the same movement rules; only their
        // colour and lifetime differ.
        let _ = gas_type;
        assert(self@ == gas_rule(old(self)@, x as int, y as int, drift_left));
    }

    // -- Fire ---------------------------------------------------------------

    /// `given` holds (vanish, drift, ignite): whether spent fire vanishes
    /// rather than turning to smoke, whether it flickers upward, and
    /// whether it ignites each of its eight neighbours.
    fn tick_fire(&mut self, x: i32, y: i32, _w: i32, _h: i32, rng: &mut rand::rngs::ThreadRng, given: Option<&(bool, bool, Vec<bool>)>)
        requires
            old(self)@.wf(),
            old(self)@.fits_i32(),
            old(self)@.in_bounds(x as int, y as int),
            given matches Some(g) ==> g.2@.len() == 8,
        ensures
            exists|vanish: bool, ignite: Seq<bool>, drift: bool|
                final(self)@ == #[trigger] fire_rule(old(self)@, x as int, y as int, vanish, ignite, drift)
                && (given matches Some(g) ==> vanish == g.0 && ignite == g.2@ && drift == g.1),
    {
        let ghost gv: (bool, bool, Seq<bool>) = match given { Some(g) => (g.0, g.1, g.2@), None => (true, true, Seq::empty()) };
        let i = self.idx(x, y);

        // Spent fire turns into smoke or vanishes.
        if self.life[i] == 0 {
            let vanish = match given {
                Some(g) => g.0,
                None => random_range_u8(rng, 0, 3) == 0,
            };
            if vanish {
                self.set(x, y, EMPTY, 0);
            } else {
                self.set(x, y, SMOKE, SMOKE_MAX_LIFE);
            }
            assert(self@ == fire_rule(old(self)@, x as int, y as int, vanish, gv.2, gv.1));
            return;
        }
        let remaining = self.life[i] - 1;
        self.life.set(i, remaining);
        let ghost aged = self@;
        assert(aged == age(old(self)@, x as int, y as int));
        let ghost mut ignite: Seq<bool> = match given { Some(g) => g.2@, None => Seq::new(8, |k: int| false) };

        // Reactions with the eight neighbours.
        let mut d: usize = 0;
        while d < 8
            invariant
                self@.wf(),
                self@.fits_i32(),
                self@.width == aged.width,
                self@.height == aged.height,
                aged.in_bounds(x as int, y as int),
                aged == age(old(self)@, x as int, y as int),
                old(self)@.life_at(x as int, y as int) != 0,
                d <= 8,
                ignite.len() == 8,
                given matches Some(g) ==> ignite == g.2@ && g.2@.len() == 8 && gv == (g.0, g.1, g.2@),
                fire_scan(aged, x as int, y as int, d as nat, ignite) == (self@, false),
            decreases 8 - d,
        {
            let (dx, dy) = fire_offset(d);
            let nx = x + dx;
            let ny = y + dy;
            if !self.in_bounds(nx, ny) {
                d += 1;
                continue;
            }
            let neighbour = self.get(nx, ny);
            if neighbour == WATER {
                // Extinguish: fire + water -> smoke + steam.
                let ghost before = self@;
                self.set(x, y, SMOKE, SMOKE_MAX_LIFE);
                self.set(nx, ny, STEAM, STEAM_MAX_LIFE);
                assert(fire_step(before, x as int, y as int, d as int, ignite[d as int]) == (self@, true));
                assert(fire_scan(aged, x as int, y as int, (d + 1) as nat, ignite) == (self@, true));
                proof {
                    lemma_fire_scan_stops(aged, x as int, y as int, (d + 1) as nat, 8, ignite);
                }
                assert(self@ == fire_rule(old(self)@, x as int, y as int, gv.0, ignite, gv.1));
                return;
            } else if neighbour == WOOD || neighbour == PLANT {
                // Spread to flammable neighbours (one chance in ten each).
                let spark = match given {
                    Some(g) => g.2[d],
                    None => random_range_u32(rng, 0, 10) == 0,
                };
                if spark {
                    self.set(nx, ny, FIRE, FIRE_MAX_LIFE);
                }
                proof {
                    if given is None {
                        let next = ignite.update(d as int, spark);
                        lemma_fire_scan_prefix(aged, x as int, y as int, d as nat, ignite, next);
                        ignite = next;
                    }
                }
            }
            d += 1;
        }

        // Fire flickers upward into empty space (one chance in three).
        if self.holds(x, y - 1, EMPTY) {
            let flicker = Self::one_in(rng, 3, match given { Some(g) => Some(g.1), None => None });
            if flicker {
                self.swap(x, y, x, y - 1);
            }
            assert(self@ == fire_rule(old(self)@, x as int, y as int, gv.0, ignite, flicker));
        } else {
            assert(self@ == fire_rule(old(self)@, x as int, y as int, gv.0, ignite, gv.1));
        }
    }

    // -- Plants -------------------------------------------------------------

    /// The first cardinal neighbour holding `kind`, searching left, right,
    /// up, down.
    fn find_neighbour(&self, x: i32, y: i32, kind: u8) -> (found: Option<(i32, i32)>)
        requires
            self@.wf(),
            self@.fits_i32(),
            self@.in_bounds(x as int, y as int),
        ensures
            found == (match neighbour_dir(self@, x as int, y as int, kind, 0) {
                None => None,
                Some(w) => Some(((x + card_dx(w)) as i32, (y + card_dy(w)) as i32)),
            }),
    {
        let mut d: usize = 0;
        while d < 4
            invariant
                self@.wf(),
                self@.fits_i32(),
                self@.in_bounds(x as int, y as int),
                d <= 4,
                neighbour_dir(self@, x as int, y as int, kind, 0) == neighbour_dir(self@, x as int, y as int, kind, d as int),
            decreases 4 - d,
        {
            let (dx, dy) = card_offset(d);
            let nx = x + dx;
            let ny = y + dy;
            if self.holds(nx, ny, kind) {
                return Some((nx, ny));
            }
            d += 1;
        }
        None
    }

    fn tick_plant(&mut self, x: i32, y: i32, _w: i32, _h: i32, rng: &mut rand::rngs::ThreadRng, given: Option<bool>)
        requires
            old(self)@.wf(),
            old(self)@.fits_i32(),
            old(self)@.in_bounds(x as int, y as int),
        ensures
            exists|grow: bool| final(self)@ == #[trigger] plant_rule(old(self)@, x as int, y as int, grow)
                && (given matches Some(g) ==> grow == g),
    {
        let ghost g0: bool = match given { Some(g) => g, None => true };
        // Plants grow only if touching water.
        proof {
            lemma_neighbour_dir(self@, x as int, y as int, WATER, 0);
        }
        let water_neighbour = self.find_neighbour(x, y, WATER);
        let (wx, wy) = match water_neighbour {
            None => {
                assert(self@ == plant_rule(old(self)@, x as int, y as int, g0));
                return;
            },
            Some(p) => p,
        };

        // Small chance to grow (one in fifty per tick).
        let grow = Self::one_in(rng, 50, given);
        if !grow {
            assert(self@ == plant_rule(old(self)@, x as int, y as int, false));
            return;
        }

        // Prefer growing up, but also allow up-left and up-right.
        let ghost g = self@;
        let mut d: usize = 0;
        while d < 3
            invariant
                self@ == g,
                g == old(self)@,
                g.wf(),
                g.fits_i32(),
                g.in_bounds(x as int, y as int),
                water_neighbour == Some((wx, wy)),
                water_neighbour == (match neighbour_dir(g, x as int, y as int, WATER, 0) {
                    None => None,
                    Some(w) => Some(((x + card_dx(w)) as i32, (y + card_dy(w)) as i32)),
                }),
                d <= 3,
                grow,
                given matches Some(gg) ==> grow == gg,
                grow_dir(g, x as int, y as int, 0) == grow_dir(g, x as int, y as int, d as int),
            decreases 3 - d,
        {
            let dx = grow_offset(d);
            let nx = x + dx;
            let ny = y - 1;
            if self.holds(nx, ny, EMPTY) {
                // Grow into the empty spot and use up the water.
                self.set(nx, ny, PLANT, 0);
                proof {
                    lemma_neighbour_dir(g, x as int, y as int, WATER, 0);
                }
                self.set(wx, wy, EMPTY, 0);
                assert(self@ == plant_rule(old(self)@, x as int, y as int, true));
                return;
            }
            d += 1;
        }
        assert(self@ == plant_rule(old(self)@, x as int, y as int, true));
    }

    // -- Simulation ---------------------------------------------------------

    /// One step with the random choices either `given` (entry `r` holds
    /// the scan direction and the cells' choices of row `height - 1 - r`,
    /// by scan position) or drawn where needed.
    fn step_pass(&mut self, given: Option<&Vec<(bool, Vec<(bool, bool, Vec<bool>)>)>>)
        requires
            old(self)@.wf(),
            old(self)@.fits_i32(),
            given matches Some(g) ==> step_choices(old(self)@, step_rows(g@)) && ignite_lens(step_rows(g@)),
        ensures
            exists|rows: Seq<(bool, Seq<(bool, bool, Seq<bool>)>)>|
                step_choices(old(self)@, rows) && final(self)@ == #[trigger] rows_scan(old(self)@, rows)
                && (given matches Some(g) ==> rows == step_rows(g@)),
            final(self)@.wf(),
            step_keeps(old(self)@, final(self)@),
    {
        let w = self.width as i32;
        let h = self.height as i32;
        let mut rng = thread_rng();
        let ghost mut rows: Seq<(bool, Seq<(bool, bool, Seq<bool>)>)> = Seq::empty();
        let mut y: i32 = h;
        while y > 0
            invariant
                self@.wf(),
                self@.fits_i32(),
                self@.width == old(self)@.width,
                self@.height == old(self)@.height,
                w == self@.width,
                h == self@.height,
                0 <= y <= h,
                step_keeps(old(self)@, self@),
                rows.len() == h - y,
                forall|r: int| 0 <= r < rows.len() ==> (#[trigger] rows[r]).1.len() == w,
                self@ == rows_scan(old(self)@, rows),
                given matches Some(g) ==> step_choices(old(self)@, step_rows(g@)) && ignite_lens(step_rows(g@))
                    && forall|r: int| 0 <= r < rows.len() ==> #[trigger] rows[r] == step_rows(g@)[r],
            decreases y,
        {
            y -= 1;
            let r = (h - 1 - y) as usize;
            let left_to_right = match given {
                Some(g) => {
                    proof {
                        assert(step_rows(g@)[r as int].0 == g@[r as int].0);
                    }
                    g[r].0
                },
                None => random_bool(&mut rng),
            };
            let ghost base = self@;
            let ghost mut cs: Seq<(bool, bool, Seq<bool>)> = Seq::empty();
            let mut step: i32 = 0;
            while step < w
                invariant
                    self@.wf(),
                    self@.fits_i32(),
                    self@.width == old(self)@.width,
                    self@.height == old(self)@.height,
                    w == self@.width,
                    h == self@.height,
                    0 <= y < h,
                    0 <= step <= w,
                    r == rows.len(),
                    rows.len() == h - 1 - y,
                    step_keeps(old(self)@, self@),
                    base.width == w,
                    cs.len() == step,
                    self@ == row_scan(base, y as int, left_to_right, cs),
                    given matches Some(g) ==> step_choices(old(self)@, step_rows(g@)) && ignite_lens(step_rows(g@))
                        && left_to_right == step_rows(g@)[r as int].0
                        && cs == step_rows(g@)[r as int].1.subrange(0, step as int),
                decreases w - step,
            {
                let x = if left_to_right { step } else { w - 1 - step };
                proof {
                    lemma_at_in_range(self@, x as int, y as int);
                }
                let idx = (y * w + x) as usize;
                let here = self.cells[idx];
                let gc: Option<&(bool, bool, Vec<bool>)> = match given {
                    Some(g) => {
                        proof {
                            let sr = step_rows(g@);
                            assert(sr[r as int].1.len() == w);
                            assert(sr[r as int].1[step as int] == cell_choice(g@[r as int].1@[step as int]));
                            assert(sr[r as int].1[step as int].2.len() == 8);
                        }
                        Some(&g[r].1[step as usize])
                    },
                    None => None,
                };
                let ghost before = self@;
                let ghost mut c: (bool, bool, Seq<bool>) = match gc { Some(gcell) => cell_choice(*gcell), None => (false, false, Seq::empty()) };
                if here == SAND {
                    self.tick_sand(x, y, w, h, &mut rng, match gc { Some(g) => Some(g.0), None => None });
                    proof {
                        let lf = choose|lf: bool| self@ == #[trigger] sand_rule(before, x as int, y as int, lf)
                            && (gc matches Some(g) ==> lf == g.0);
                        lemma_sand_rule_keeps(before, x as int, y as int, lf);
                        if gc is None {
                            c = (lf, false, Seq::empty());
                        }
                    }
                } else if here == WATER {
                    self.tick_water(x, y, w, h, &mut rng, match gc { Some(g) => Some((g.0, g.1)), None => None });
                    proof {
                        let (c1, c2) = choose|c1: bool, c2: bool| self@ == #[trigger] water_rule(before, x as int, y as int, c1, c2)
                            && (gc matches Some(g) ==> c1 == g.0 && c2 == g.1);
                        lemma_water_rule_keeps(before, x as int, y as int, c1, c2);
                        if gc is None {
                            c = (c1, c2, Seq::empty());
                        }
                    }
                } else if here == FIRE {
                    self.tick_fire(x, y, w, h, &mut rng, gc);
                    proof {
                        let (v, ig, dr) = choose|v: bool, ig: Seq<bool>, dr: bool| self@ == #[trigger] fire_rule(before, x as int, y as int, v, ig, dr)
                            && (gc matches Some(g) ==> v == g.0 && ig == g.2@ && dr == g.1);
                        lemma_fire_rule_keeps(before, x as int, y as int, v, ig, dr);
                        if gc is None {
                            c = (v, dr, ig);
                        }
                    }
                } else if here == SMOKE || here == STEAM {
                    self.tick_gas(x, y, w, h, &mut rng, here, match gc { Some(g) => Some(g.0), None => None });
                    proof {
                        let dl = choose|dl: bool| self@ == #[trigger] gas_rule(before, x as int, y as int, dl)
                            && (gc matches Some(g) ==> dl == g.0);
                        lemma_gas_rule_keeps(before, x as int, y as int, dl);
                        if gc is None {
                            c = (dl, false, Seq::empty());
                        }
                    }
                } else if here == PLANT {
                    self.tick_plant(x, y, w, h, &mut rng, match gc { Some(g) => Some(g.0), None => None });
                    proof {
                        let gr = choose|gr: bool| self@ == #[trigger] plant_rule(before, x as int, y as int, gr)
                            && (gc matches Some(g) ==> gr == g.0);
                        lemma_plant_rule_keeps(before, x as int, y as int, gr);
                        if gc is None {
                            c = (gr, false, Seq::empty());
                        }
                    }
                }
                proof {
                    assert(before.cell(x as int, y as int) == here);
                    assert(self@ == cell_step(before, x as int, y as int, c));
                    lemma_keeps_trans(old(self)@, before, self@);
                    let cs2 = cs.push(c);
                    assert(cs2.drop_last() =~= cs);
                    assert(scan_x(base.width as int, left_to_right, step as int) == x);
                    if given is Some {
                        let g = given->0;
                        assert(cs2 =~= step_rows(g@)[r as int].1.subrange(0, step + 1));
                    }
                    cs = cs2;
                }
                step += 1;
            }
            proof {
                let rows2 = rows.push((left_to_right, cs));
                assert(rows2.drop_last() =~= rows);
                assert(old(self)@.height - 1 - rows.len() == y);
                assert forall|k: int| 0 <= k < rows2.len() implies (#[trigger] rows2[k]).1.len() == w by {
                    if k < rows.len() {
                        assert(rows2[k] == rows[k]);
                    }
                }
                if given is Some {
                    let g = given->0;
                    assert(cs =~= step_rows(g@)[r as int].1);
                    assert forall|k: int| 0 <= k < rows2.len() implies #[trigger] rows2[k] == step_rows(g@)[k] by {
                        if k < rows.len() {
                            assert(rows2[k] == rows[k]);
                        }
                    }
                }
                rows = rows2;
            }
        }
        assert(step_choices(old(self)@, rows));
        proof {
            if given is Some {
                let g = given->0;
                assert(rows =~= step_rows(g@));
            }
        }
    }

    /// Advance the simulation by one step.
    ///
    /// Rows are processed bottom-to-top so that falling elements move once
    /// per tick; within each row the scan direction is picked at random to
    /// avoid a left/right bias.
    pub fn tick(&mut self)
        requires
            old(self)@.wf(),
            old(self)@.fits_i32(),
        ensures
            exists|rows: Seq<(bool, Seq<(bool, bool, Seq<bool>)>)>|
                step_choices(old(self)@, rows) && final(self)@ == #[trigger] rows_scan(old(self)@, rows),
            final(self)@.wf(),
            step_keeps(old(self)@, final(self)@),
    {
        self.step_pass(None);
    }

    /// The step of [`Self::tick`] with its random choices given: entry `r`
    /// of `choices` holds whether row `height - 1 - r` is scanned left to
    /// right, and the choices of its cells in scan order (see
    /// [`cell_step`]; a fire cell's ignition draws number eight).
    pub fn tick_with(&mut self, choices: &Vec<(bool, Vec<(bool, bool, Vec<bool>)>)>)
        requires
            old(self)@.wf(),
            old(self)@.fits_i32(),
            step_choices(old(self)@, step_rows(choices@)),
            ignite_lens(step_rows(choices@)),
        ensures
            final(self)@ == rows_scan(old(self)@, step_rows(choices@)),
            final(self)@.wf(),
            step_keeps(old(self)@, final(self)@),
    {
        self.step_pass(Some(choices));
    }
}

fn fire_offset(d: usize) -> (o: (i32, i32))
    requires
        d < 8,
    ensures
        o.0 == fire_dx(d as int),
        o.1 == fire_dy(d as int),
{
    match d {
        0 => (-1, -1),
        1 => (0, -1),
        2 => (1, -1),
        3 => (-1, 0),
        4 => (1, 0),
        5 => (-1, 1),
        6 => (0, 1),
        _ => (1, 1),
    }
}

fn card_offset(d: usize) -> (o: (i32, i32))
    requires
        d < 4,
    ensures
        o.0 == card_dx(d as int),
        o.1 == card_dy(d as int),
{
    match d {
        0 => (-1, 0),
        1 => (1, 0),
        2 => (0, -1),
        _ => (0, 1),
    }
}

fn grow_offset(d: usize) -> (dx: i32)
    requires
        d < 3,
    ensures
        dx == grow_dx(d as int),
{
    match d {
        0 => 0,
        1 => -1,
        _ => 1,
    }
}

/// The lifetime a freshly painted element starts with.
fn initial_life_of(cell: u8) -> (life: u8)
    ensures
        life == initial_life(cell),
{
    if cell == FIRE {
        FIRE_MAX_LIFE
    } else if cell == SMOKE {
        SMOKE_MAX_LIFE
    } else if cell == STEAM {
        STEAM_MAX_LIFE
    } else {
        0
    }
}

/// The RGBA colour of `cell` at index `idx`; fire flickers by position.
fn cell_colour(cell: u8, idx: usize) -> (rgba: [u8; 4])
    ensures
        rgba@ == colour(cell, idx),
{
    let rgba = if cell == SAND {
        [0xE0, 0xC0, 0x68, 0xFF]
    } else if cell == WATER {
        [0x40, 0x90, 0xE0, 0xFF]
    } else if cell == STONE {
        [0x78, 0x78, 0x78, 0xFF]
    } else if cell == WOOD {
        [0x8B, 0x5E, 0x3C, 0xFF]
    } else if cell == FIRE {
        let hash = idx.wrapping_mul(2654435761) >> 4;
        proof {
            let m = vstd::wrapping::usize_specs::wrapping_mul(idx, 2654435761usize);
            assert(m >> 4 == m / 16) by (bit_vector);
        }
        if hash % 3 == 0 {
            [0xFF, 0x44, 0x00, 0xFF]
        } else if hash % 3 == 1 {
            [0xFF, 0x88, 0x00, 0xFF]
        } else {
            [0xFF, 0xCC, 0x00, 0xFF]
        }
    } else if cell == SMOKE {
        [0x60, 0x60, 0x68, 0x90]
    } else if cell == PLANT {
        [0x30, 0xA0, 0x30, 0xFF]
    } else if cell == STEAM {
        [0xC8, 0xD8, 0xE8, 0x80]
    } else {
        [0x1C, 0x1C, 0x24, 0xFF]
    };
    assert(rgba@ =~= colour(cell, idx));
    rgba
}

} // verus!
