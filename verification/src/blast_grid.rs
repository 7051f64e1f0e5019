//! The material grid of the blast simulator and its integer updates:
//! painting, molten steel flowing down, and fallout eating into the
//! materials around it. Each cell also carries a motion state of the
//! caller's (velocity and heat, in floating point), which the grid moves
//! along with the cell and resets when a cell is emptied, but never reads.
use vstd::prelude::*;
use crate::blast::{EMPTY, WOOD, STONE, STEEL, GLASS, MOLTEN_STEEL, FALLOUT, ASH, RUST};
use crate::sand::in_disc;
use crate::rng::{thread_rng, random_bool, random_range_u8, random_ratio};

verus! {

/// One cell: its material, its texture offset, the countdown of a fallout
/// cell, and the caller's motion state `rest`.
#[derive(Clone, Copy)]
pub struct Cell<P> {
    pub material: u8,
    pub noise: u8,
    pub fallout_ttl: u16,
    pub rest: P,
}

/// The abstract grid: `width` x `height` cells stored row by row, and the
/// motion state an emptied cell gets.
#[verifier::ext_equal]
pub struct GridModel<P> {
    pub width: u32,
    pub height: u32,
    pub cells: Seq<Cell<P>>,
    pub blank: P,
}

impl<P> GridModel<P> {
    pub open spec fn wf(self) -> bool {
        &&& self.width * self.height <= u32::MAX
        &&& self.cells.len() == self.width * self.height
    }

    pub open spec fn in_bounds(self, x: int, y: int) -> bool {
        0 <= x < self.width && 0 <= y < self.height
    }

    pub open spec fn at(self, x: int, y: int) -> int {
        y * self.width + x
    }

    pub open spec fn cell(self, x: int, y: int) -> Cell<P> {
        self.cells[self.at(x, y)]
    }

    /// An empty cell.
    pub open spec fn empty(self) -> Cell<P> {
        Cell { material: EMPTY, noise: 0, fallout_ttl: 0, rest: self.blank }
    }

    /// The grid with cell (`x`, `y`) replaced by `c`.
    pub open spec fn with(self, x: int, y: int, c: Cell<P>) -> GridModel<P> {
        GridModel { cells: self.cells.update(self.at(x, y), c), ..self }
    }

    /// The grid with the cell at (`x1`, `y1`) moved to (`x2`, `y2`), leaving
    /// an empty cell behind.
    pub open spec fn moved(self, x1: int, y1: int, x2: int, y2: int) -> GridModel<P> {
        self.with(x2, y2, self.cell(x1, y1)).with(x1, y1, self.empty())
    }
}

/// Cells on the grid have indices inside the cell array.
pub proof fn lemma_at_in_range<P>(g: GridModel<P>, x: int, y: int)
    requires
        g.in_bounds(x, y),
    ensures
        0 <= g.at(x, y) < g.width * g.height,
{
    let w = g.width as int;
    let h = g.height as int;
    assert(0 <= y * w + x < w * h) by (nonlinear_arith)
        requires
            0 <= x < w,
            0 <= y < h,
    ;
}

/// Distinct cells on the grid have distinct indices.
pub proof fn lemma_at_distinct<P>(g: GridModel<P>, x1: int, y1: int, x2: int, y2: int)
    requires
        g.in_bounds(x1, y1),
        g.in_bounds(x2, y2),
        x1 != x2 || y1 != y2,
    ensures
        g.at(x1, y1) != g.at(x2, y2),
{
    let w = g.width as int;
    if y1 < y2 {
        assert(y1 * w + x1 < y2 * w + x2) by (nonlinear_arith)
            requires
                0 <= x1 < w,
                0 <= x2 < w,
                y1 < y2,
        ;
    } else if y2 < y1 {
        assert(y2 * w + x2 < y1 * w + x1) by (nonlinear_arith)
            requires
                0 <= x1 < w,
                0 <= x2 < w,
                y2 < y1,
        ;
    }
}

/// Whether `c` is what painting `material` leaves in a cell: an empty cell
/// when erasing, else a fresh cell of the material with a texture offset
/// below 40.
pub open spec fn painted<P>(g: GridModel<P>, c: Cell<P>, material: u8) -> bool {
    if material == EMPTY {
        c == g.empty()
    } else {
        c.material == material && c.noise < 40 && c.fallout_ttl == 0 && c.rest == g.blank
    }
}

/// The cell painting `material` with texture offset `noise` leaves.
pub open spec fn fresh<P>(g: GridModel<P>, material: u8, noise: u8) -> Cell<P> {
    if material == EMPTY {
        g.empty()
    } else {
        Cell { material, noise, fallout_ttl: 0, rest: g.blank }
    }
}

/// Whether `c` is what painting cell `k` with `material` leaves: with the
/// texture offsets `offsets[k]` when they are given, else with some offset
/// below 40.
pub open spec fn paint_ok<P>(g: GridModel<P>, c: Cell<P>, material: u8, offsets: Option<Seq<u8>>, k: int) -> bool {
    match offsets {
        Some(ns) => c == fresh(g, material, ns[k]),
        None => painted(g, c, material),
    }
}

/// The cells of `g2` are those of `g` except inside the disc, where they
/// are painted with `material`; the painted part covers the rows above
/// `dy` and, in row `dy`, the columns left of `dx` (offsets from the centre).
pub open spec fn painted_upto<P>(g: GridModel<P>, g2: GridModel<P>, cx: int, cy: int, r: int, material: u8, offsets: Option<Seq<u8>>, dy: int, dx: int) -> bool {
    &&& g2.width == g.width
    &&& g2.height == g.height
    &&& g2.blank == g.blank
    &&& g2.cells.len() == g.cells.len()
    &&& forall|x: int, y: int| g.in_bounds(x, y) ==> (
        if in_disc(cx, cy, r, x, y) && (y - cy < dy || (y - cy == dy && x - cx < dx)) {
            paint_ok(g, #[trigger] g2.cell(x, y), material, offsets, g.at(x, y))
        } else {
            g2.cell(x, y) == g.cell(x, y)
        })
}

/// Molten steel at (`x`, `y`), which has a row below it, falls into an
/// empty cell below, else flows into an empty cell diagonally below,
/// trying first the side `left_first` picks. Also tells whether it fell
/// straight down.
pub open spec fn liquid_rule<P>(g: GridModel<P>, x: int, y: int, left_first: bool) -> (GridModel<P>, bool) {
    let s: int = if left_first { -1 } else { 1 };
    if g.cell(x, y).material != MOLTEN_STEEL {
        (g, false)
    } else if g.cell(x, y + 1).material == EMPTY {
        (g.moved(x, y, x, y + 1), true)
    } else if g.in_bounds(x + s, y + 1) && g.cell(x + s, y + 1).material == EMPTY {
        (g.moved(x, y, x + s, y + 1), false)
    } else if g.in_bounds(x - s, y + 1) && g.cell(x - s, y + 1).material == EMPTY {
        (g.moved(x, y, x - s, y + 1), false)
    } else {
        (g, false)
    }
}

/// Row `y` after its first `cs.len()` cells, left to right, have flowed,
/// the `k`-th with side choice `cs[k]`; and the number of straight falls.
pub open spec fn liquid_row<P>(g: GridModel<P>, y: int, cs: Seq<bool>) -> (GridModel<P>, nat)
    decreases cs.len(),
{
    if cs.len() == 0 {
        (g, 0)
    } else {
        let prev = liquid_row(g, y, cs.drop_last());
        let step = liquid_rule(prev.0, cs.len() - 1, y, cs.last());
        (step.0, prev.1 + if step.1 { 1nat } else { 0nat })
    }
}

/// The grid after `rows.len()` rows have flowed, from the second-to-last
/// row upwards; and the number of straight falls.
pub open spec fn liquid_rows<P>(g: GridModel<P>, rows: Seq<Seq<bool>>) -> (GridModel<P>, nat)
    decreases rows.len(),
{
    if rows.len() == 0 {
        (g, 0)
    } else {
        let prev = liquid_rows(g, rows.drop_last());
        let row = liquid_row(prev.0, g.height - 2 - (rows.len() - 1), rows.last());
        (row.0, prev.1 + row.1)
    }
}

/// The rows of a table of choices.
pub open spec fn choice_rows<T>(rows: Seq<Vec<T>>) -> Seq<Seq<T>> {
    Seq::new(rows.len(), |r: int| rows[r]@)
}

/// `rows` holds a side choice for every cell of every row that has a row
/// below it.
pub open spec fn liquid_choices<P>(g: GridModel<P>, rows: Seq<Seq<bool>>) -> bool {
    &&& rows.len() == g.height - 1
    &&& forall|r: int| 0 <= r < rows.len() ==> (#[trigger] rows[r]).len() == g.width
}

/// What fallout did to a neighbouring cell; the caller scores these.
#[derive(Clone, Copy, PartialEq, Eq, Structural, Debug)]
pub enum FalloutEvent {
    Rusted,
    Ashed,
    StoneBroken,
    GlassBroken,
}

/// The column offset of direction `dir`: 0 up, 1 right, 2 down, 3 left.
pub open spec fn dir_dx(dir: u8) -> int {
    if dir == 1 { 1 } else if dir == 3 { -1 } else { 0 }
}

/// The row offset of direction `dir`.
pub open spec fn dir_dy(dir: u8) -> int {
    if dir == 0 { -1 } else if dir == 2 { 1 } else { 0 }
}

/// One fallout cell at (`x`, `y`) ages by one tick, or vanishes when its
/// countdown is spent. With the random choices `c` = (acts, direction,
/// texture offset, lucky) it may act on the neighbour in that direction:
/// steel rusts and wood turns to ash (taking the new texture offset),
/// glass breaks, and stone or rust breaks when lucky.
pub open spec fn fallout_rule<P>(g: GridModel<P>, x: int, y: int, c: (bool, u8, u8, bool)) -> (GridModel<P>, Seq<FalloutEvent>) {
    let here = g.cell(x, y);
    if here.material != FALLOUT {
        (g, Seq::empty())
    } else if here.fallout_ttl == 0 {
        (g.with(x, y, g.empty()), Seq::empty())
    } else {
        let g1 = g.with(x, y, Cell { fallout_ttl: (here.fallout_ttl - 1) as u16, ..here });
        let nx = x + dir_dx(c.1);
        let ny = y + dir_dy(c.1);
        if !c.0 || !g1.in_bounds(nx, ny) {
            (g1, Seq::empty())
        } else {
            let n = g1.cell(nx, ny);
            if n.material == STEEL {
                (g1.with(nx, ny, Cell { material: RUST, noise: c.2, ..n }), seq![FalloutEvent::Rusted])
            } else if n.material == WOOD {
                (g1.with(nx, ny, Cell { material: ASH, noise: c.2, ..n }), seq![FalloutEvent::Ashed])
            } else if n.material == STONE && c.3 {
                (g1.with(nx, ny, g.empty()), seq![FalloutEvent::StoneBroken])
            } else if n.material == GLASS {
                (g1.with(nx, ny, g.empty()), seq![FalloutEvent::GlassBroken])
            } else if n.material == RUST && c.3 {
                (g1.with(nx, ny, g.empty()), Seq::empty())
            } else {
                (g1, Seq::empty())
            }
        }
    }
}

/// Row `y` after its first `cs.len()` cells, left to right, have been
/// updated, the `k`-th with choices `cs[k]`; and the events, in order.
pub open spec fn fallout_row<P>(g: GridModel<P>, y: int, cs: Seq<(bool, u8, u8, bool)>) -> (GridModel<P>, Seq<FalloutEvent>)
    decreases cs.len(),
{
    if cs.len() == 0 {
        (g, Seq::empty())
    } else {
        let prev = fallout_row(g, y, cs.drop_last());
        let step = fallout_rule(prev.0, cs.len() - 1, y, cs.last());
        (step.0, prev.1 + step.1)
    }
}

/// The grid after its top `rows.len()` rows have been updated, top row
/// first; and the events, in order.
pub open spec fn fallout_rows<P>(g: GridModel<P>, rows: Seq<Seq<(bool, u8, u8, bool)>>) -> (GridModel<P>, Seq<FalloutEvent>)
    decreases rows.len(),
{
    if rows.len() == 0 {
        (g, Seq::empty())
    } else {
        let prev = fallout_rows(g, rows.drop_last());
        let row = fallout_row(prev.0, rows.len() - 1, rows.last());
        (row.0, prev.1 + row.1)
    }
}

/// `rows` holds choices for every cell, each with a direction below 4 and
/// a texture offset below 40.
pub open spec fn fallout_choices<P>(g: GridModel<P>, rows: Seq<Seq<(bool, u8, u8, bool)>>) -> bool {
    &&& rows.len() == g.height
    &&& forall|r: int| 0 <= r < rows.len() ==> (#[trigger] rows[r]).len() == g.width
    &&& forall|r: int, k: int| 0 <= r < rows.len() && 0 <= k < rows[r].len() ==>
        (#[trigger] rows[r][k]).1 < 4 && rows[r][k].2 < 40
}

/// The number of cells made of material `m`.
pub open spec fn material_count<P>(cells: Seq<Cell<P>>, m: u8) -> nat
    decreases cells.len(),
{
    if cells.len() == 0 {
        0
    } else {
        material_count(cells.drop_last(), m) + if cells.last().material == m { 1nat } else { 0nat }
    }
}

/// Replacing one cell changes the count of a material by what left and
/// what came.
pub proof fn lemma_count_update<P>(s: Seq<Cell<P>>, i: int, v: Cell<P>, m: u8)
    requires
        0 <= i < s.len(),
    ensures
        material_count(s.update(i, v), m) + (if s[i].material == m { 1int } else { 0 })
            == material_count(s, m) + (if v.material == m { 1int } else { 0 }),
    decreases s.len(),
{
    if i == s.len() - 1 {
        assert(s.update(i, v).drop_last() =~= s.drop_last());
    } else {
        lemma_count_update(s.drop_last(), i, v, m);
        assert(s.update(i, v).drop_last() =~= s.drop_last().update(i, v));
    }
}

/// Moving a cell into an empty one keeps the count of every material.
pub proof fn lemma_moved_count<P>(g: GridModel<P>, x1: int, y1: int, x2: int, y2: int, m: u8)
    requires
        g.wf(),
        g.in_bounds(x1, y1),
        g.in_bounds(x2, y2),
        x1 != x2 || y1 != y2,
        g.cell(x2, y2).material == EMPTY,
    ensures
        material_count(g.moved(x1, y1, x2, y2).cells, m) == material_count(g.cells, m),
        g.moved(x1, y1, x2, y2).wf(),
{
    lemma_at_in_range(g, x1, y1);
    lemma_at_in_range(g, x2, y2);
    lemma_at_distinct(g, x1, y1, x2, y2);
    let mid = g.with(x2, y2, g.cell(x1, y1));
    lemma_count_update(g.cells, g.at(x2, y2), g.cell(x1, y1), m);
    assert(mid.cells[g.at(x1, y1)] == g.cell(x1, y1));
    lemma_count_update(mid.cells, g.at(x1, y1), g.empty(), m);
}

/// One molten cell's flow keeps the count of every material.
pub proof fn lemma_liquid_rule_conserves<P>(g: GridModel<P>, x: int, y: int, left_first: bool, m: u8)
    requires
        g.wf(),
        0 <= x < g.width,
        0 <= y,
        y + 1 < g.height,
    ensures
        material_count(liquid_rule(g, x, y, left_first).0.cells, m) == material_count(g.cells, m),
        liquid_rule(g, x, y, left_first).0.wf(),
        liquid_rule(g, x, y, left_first).0.width == g.width,
        liquid_rule(g, x, y, left_first).0.height == g.height,
{
    let s: int = if left_first { -1 } else { 1 };
    if g.cell(x, y).material != MOLTEN_STEEL {
    } else if g.cell(x, y + 1).material == EMPTY {
        lemma_moved_count(g, x, y, x, y + 1, m);
    } else if g.in_bounds(x + s, y + 1) && g.cell(x + s, y + 1).material == EMPTY {
        lemma_moved_count(g, x, y, x + s, y + 1, m);
    } else if g.in_bounds(x - s, y + 1) && g.cell(x - s, y + 1).material == EMPTY {
        lemma_moved_count(g, x, y, x - s, y + 1, m);
    }
}

/// A partial flow of one row keeps the count of every material.
pub proof fn lemma_liquid_row_conserves<P>(g: GridModel<P>, y: int, cs: Seq<bool>, m: u8)
    requires
        g.wf(),
        0 <= y,
        y + 1 < g.height,
        cs.len() <= g.width,
    ensures
        material_count(liquid_row(g, y, cs).0.cells, m) == material_count(g.cells, m),
        liquid_row(g, y, cs).0.wf(),
        liquid_row(g, y, cs).0.width == g.width,
        liquid_row(g, y, cs).0.height == g.height,
    decreases cs.len(),
{
    if cs.len() > 0 {
        lemma_liquid_row_conserves(g, y, cs.drop_last(), m);
        let prev = liquid_row(g, y, cs.drop_last()).0;
        lemma_liquid_rule_conserves(prev, cs.len() - 1, y, cs.last(), m);
    }
}

/// Molten steel only ever moves into empty cells: a flow step, or any
/// prefix of one made of whole rows, keeps the number of cells of every
/// material, molten steel included.
pub proof fn lemma_liquid_rows_conserve<P>(g: GridModel<P>, rows: Seq<Seq<bool>>, m: u8)
    requires
        g.wf(),
        rows.len() + 1 <= g.height,
        forall|r: int| 0 <= r < rows.len() ==> (#[trigger] rows[r]).len() <= g.width,
    ensures
        material_count(liquid_rows(g, rows).0.cells, m) == material_count(g.cells, m),
        liquid_rows(g, rows).0.wf(),
        liquid_rows(g, rows).0.width == g.width,
        liquid_rows(g, rows).0.height == g.height,
    decreases rows.len(),
{
    if rows.len() > 0 {
        let front = rows.drop_last();
        assert forall|r: int| 0 <= r < front.len() implies (#[trigger] front[r]).len() <= g.width by {
            assert(front[r] == rows[r]);
        }
        lemma_liquid_rows_conserve(g, front, m);
        let prev = liquid_rows(g, front).0;
        lemma_liquid_row_conserves(prev, g.height - 2 - (rows.len() - 1), rows.last(), m);
    }
}

/// No cell of `after` holds fallout unless the same cell of `before` did.
pub open spec fn no_new_fallout<P>(before: GridModel<P>, after: GridModel<P>) -> bool {
    &&& after.width == before.width
    &&& after.height == before.height
    &&& after.cells.len() == before.cells.len()
    &&& forall|k: int| 0 <= k < after.cells.len() && (#[trigger] after.cells[k]).material == FALLOUT
        ==> before.cells[k].material == FALLOUT
}

/// One fallout cell's update creates no fallout.
pub proof fn lemma_fallout_rule_no_spread<P>(g: GridModel<P>, x: int, y: int, c: (bool, u8, u8, bool))
    requires
        g.wf(),
        g.in_bounds(x, y),
    ensures
        no_new_fallout(g, fallout_rule(g, x, y, c).0),
        fallout_rule(g, x, y, c).0.wf(),
{
    lemma_at_in_range(g, x, y);
    let here = g.cell(x, y);
    if here.material == FALLOUT && here.fallout_ttl != 0 {
        let g1 = g.with(x, y, Cell { fallout_ttl: (here.fallout_ttl - 1) as u16, ..here });
        let nx = x + dir_dx(c.1);
        let ny = y + dir_dy(c.1);
        if c.0 && g1.in_bounds(nx, ny) {
            lemma_at_in_range(g1, nx, ny);
        }
    }
}

/// A partial fallout pass over one row creates no fallout.
pub proof fn lemma_fallout_row_no_spread<P>(g: GridModel<P>, y: int, cs: Seq<(bool, u8, u8, bool)>)
    requires
        g.wf(),
        0 <= y < g.height,
        cs.len() <= g.width,
    ensures
        no_new_fallout(g, fallout_row(g, y, cs).0),
        fallout_row(g, y, cs).0.wf(),
    decreases cs.len(),
{
    if cs.len() > 0 {
        lemma_fallout_row_no_spread(g, y, cs.drop_last());
        let prev = fallout_row(g, y, cs.drop_last()).0;
        lemma_fallout_rule_no_spread(prev, cs.len() - 1, y, cs.last());
    }
}

/// Fallout never spreads: after a fallout pass, or any prefix of one made
/// of whole rows, every fallout cell was already fallout.
pub proof fn lemma_fallout_rows_no_spread<P>(g: GridModel<P>, rows: Seq<Seq<(bool, u8, u8, bool)>>)
    requires
        g.wf(),
        rows.len() <= g.height,
        forall|r: int| 0 <= r < rows.len() ==> (#[trigger] rows[r]).len() <= g.width,
    ensures
        no_new_fallout(g, fallout_rows(g, rows).0),
        fallout_rows(g, rows).0.wf(),
    decreases rows.len(),
{
    if rows.len() > 0 {
        let front = rows.drop_last();
        assert forall|r: int| 0 <= r < front.len() implies (#[trigger] front[r]).len() <= g.width by {
            assert(front[r] == rows[r]);
        }
        lemma_fallout_rows_no_spread(g, front);
        let prev = fallout_rows(g, front).0;
        lemma_fallout_row_no_spread(prev, rows.len() - 1, rows.last());
    }
}

/// What fallout can do to the cells of `before`, seen in `after`: rust
/// comes only from steel, ash only from wood, and no cell becomes steel or
/// wood; other changes empty a cell or age fallout.
pub open spec fn only_degrades<P>(before: GridModel<P>, after: GridModel<P>) -> bool {
    &&& after.width == before.width
    &&& after.height == before.height
    &&& after.cells.len() == before.cells.len()
    &&& forall|k: int| 0 <= k < after.cells.len() ==> {
        let b = before.cells[k].material;
        let a = (#[trigger] after.cells[k]).material;
        &&& (a == RUST ==> b == STEEL || b == RUST)
        &&& (a == ASH ==> b == WOOD || b == ASH)
        &&& (a == STEEL ==> b == STEEL)
        &&& (a == WOOD ==> b == WOOD)
        &&& (a != b ==> a == EMPTY || a == RUST || a == ASH)
    }
}

/// One fallout cell's update: each event names what happened to the
/// neighbour the cell acted on (steel rusted, wood turned to ash, stone or
/// glass broke to an empty cell), and every cell changes only by decay.
pub proof fn lemma_fallout_rule_events<P>(g: GridModel<P>, x: int, y: int, c: (bool, u8, u8, bool))
    requires
        g.wf(),
        g.in_bounds(x, y),
        c.1 < 4,
    ensures
        ({
            let (g2, ev) = fallout_rule(g, x, y, c);
            let nx = x + dir_dx(c.1);
            let ny = y + dir_dy(c.1);
            &&& only_degrades(g, g2)
            &&& ev.len() <= 1
            &&& ev.len() == 1 ==> g.in_bounds(nx, ny) && (nx != x || ny != y)
            &&& ev.len() == 1 && ev[0] == FalloutEvent::Rusted ==> g.cell(nx, ny).material == STEEL && g2.cell(nx, ny).material == RUST
            &&& ev.len() == 1 && ev[0] == FalloutEvent::Ashed ==> g.cell(nx, ny).material == WOOD && g2.cell(nx, ny).material == ASH
            &&& ev.len() == 1 && ev[0] == FalloutEvent::StoneBroken ==> g.cell(nx, ny).material == STONE && g2.cell(nx, ny).material == EMPTY
            &&& ev.len() == 1 && ev[0] == FalloutEvent::GlassBroken ==> g.cell(nx, ny).material == GLASS && g2.cell(nx, ny).material == EMPTY
        }),
{
    lemma_at_in_range(g, x, y);
    let here = g.cell(x, y);
    let nx = x + dir_dx(c.1);
    let ny = y + dir_dy(c.1);
    if here.material == FALLOUT && here.fallout_ttl != 0 {
        let g1 = g.with(x, y, Cell { fallout_ttl: (here.fallout_ttl - 1) as u16, ..here });
        if c.0 && g1.in_bounds(nx, ny) {
            lemma_at_in_range(g1, nx, ny);
            lemma_at_distinct(g1, x, y, nx, ny);
            assert(g1.cell(nx, ny) == g.cell(nx, ny));
        }
    }
}

/// Fallout only degrades: after a fallout pass, or any prefix of one made
/// of whole rows, every rusted cell was steel or rust, every ash cell was
/// wood or ash, every steel or wood cell was already so, and every other
/// change empties a cell or ages fallout.
pub proof fn lemma_fallout_rows_only_degrade<P>(g: GridModel<P>, rows: Seq<Seq<(bool, u8, u8, bool)>>)
    requires
        g.wf(),
        rows.len() <= g.height,
        forall|r: int| 0 <= r < rows.len() ==> (#[trigger] rows[r]).len() <= g.width,
        forall|r: int, k: int| 0 <= r < rows.len() && 0 <= k < rows[r].len() ==> (#[trigger] rows[r][k]).1 < 4,
    ensures
        only_degrades(g, fallout_rows(g, rows).0),
        fallout_rows(g, rows).0.wf(),
    decreases rows.len(),
{
    if rows.len() > 0 {
        let front = rows.drop_last();
        assert forall|r: int| 0 <= r < front.len() implies (#[trigger] front[r]).len() <= g.width by {
            assert(front[r] == rows[r]);
        }
        assert forall|r: int, k: int| 0 <= r < front.len() && 0 <= k < front[r].len() implies (#[trigger] front[r][k]).1 < 4 by {
            assert(front[r] == rows[r]);
        }
        lemma_fallout_rows_only_degrade(g, front);
        let prev = fallout_rows(g, front).0;
        let last = rows.last();
        assert forall|k: int| 0 <= k < last.len() implies (#[trigger] last[k]).1 < 4 by {
            assert(last == rows[rows.len() - 1]);
        }
        lemma_fallout_row_only_degrades(prev, rows.len() - 1, last);
        let next = fallout_rows(g, rows).0;
        assert forall|k: int| 0 <= k < next.cells.len() implies {
            let b = g.cells[k].material;
            let a = (#[trigger] next.cells[k]).material;
            &&& (a == RUST ==> b == STEEL || b == RUST)
            &&& (a == ASH ==> b == WOOD || b == ASH)
            &&& (a == STEEL ==> b == STEEL)
            &&& (a == WOOD ==> b == WOOD)
            &&& (a != b ==> a == EMPTY || a == RUST || a == ASH)
        } by {
            assert(prev.cells[k] == prev.cells[k]);
        }
    }
}

/// A partial fallout pass over one row only degrades.
pub proof fn lemma_fallout_row_only_degrades<P>(g: GridModel<P>, y: int, cs: Seq<(bool, u8, u8, bool)>)
    requires
        g.wf(),
        0 <= y < g.height,
        cs.len() <= g.width,
        forall|k: int| 0 <= k < cs.len() ==> (#[trigger] cs[k]).1 < 4,
    ensures
        only_degrades(g, fallout_row(g, y, cs).0),
        fallout_row(g, y, cs).0.wf(),
    decreases cs.len(),
{
    if cs.len() > 0 {
        let front = cs.drop_last();
        assert forall|k: int| 0 <= k < front.len() implies (#[trigger] front[k]).1 < 4 by {
            assert(front[k] == cs[k]);
        }
        lemma_fallout_row_only_degrades(g, y, front);
        let prev = fallout_row(g, y, front).0;
        assert(cs.last() == cs[cs.len() - 1]);
        lemma_fallout_rule_events(prev, cs.len() - 1, y, cs.last());
        lemma_fallout_rule_no_spread(prev, cs.len() - 1, y, cs.last());
        let next = fallout_row(g, y, cs).0;
        assert forall|k: int| 0 <= k < next.cells.len() implies {
            let b = g.cells[k].material;
            let a = (#[trigger] next.cells[k]).material;
            &&& (a == RUST ==> b == STEEL || b == RUST)
            &&& (a == ASH ==> b == WOOD || b == ASH)
            &&& (a == STEEL ==> b == STEEL)
            &&& (a == WOOD ==> b == WOOD)
            &&& (a != b ==> a == EMPTY || a == RUST || a == ASH)
        } by {
            assert(prev.cells[k] == prev.cells[k]);
        }
    }
}

/// The neighbour of (`x`, `y`) in direction `dir` (below 4), if it is on a
/// `w` x `h` grid.
fn neighbour(x: u32, y: u32, dir: u8, w: u32, h: u32) -> (nb: Option<(u32, u32)>)
    requires
        x < w,
        y < h,
        dir < 4,
    ensures
        match nb {
            Some((nx, ny)) => nx == x + dir_dx(dir) && ny == y + dir_dy(dir) && nx < w && ny < h,
            None => !(0 <= x + dir_dx(dir) < w && 0 <= y + dir_dy(dir) < h),
        },
{
    if dir == 0 {
        if y >= 1 { Some((x, y - 1)) } else { None }
    } else if dir == 1 {
        if x + 1 < w { Some((x + 1, y)) } else { None }
    } else if dir == 2 {
        if y + 1 < h { Some((x, y + 1)) } else { None }
    } else {
        if x >= 1 { Some((x - 1, y)) } else { None }
    }
}

/// The material grid.
pub struct MaterialGrid<P> {
    width: u32,
    height: u32,
    cells: Vec<Cell<P>>,
    blank: P,
}

impl<P> View for MaterialGrid<P> {
    type V = GridModel<P>;

    closed spec fn view(&self) -> GridModel<P> {
        GridModel { width: self.width, height: self.height, cells: self.cells@, blank: self.blank }
    }
}

impl<P: Copy> MaterialGrid<P> {
    /// An empty `width` x `height` grid; emptied cells get motion state
    /// `blank`.
    pub fn new(width: u32, height: u32, blank: P) -> (g: MaterialGrid<P>)
        requires
            width * height <= u32::MAX,
        ensures
            g@.wf(),
            g@.width == width,
            g@.height == height,
            g@.blank == blank,
            forall|k: int| 0 <= k < width * height ==> #[trigger] g@.cells[k] == g@.empty(),
    {
        let n = (width * height) as usize;
        let mut cells: Vec<Cell<P>> = Vec::new();
        let mut k: usize = 0;
        while k < n
            invariant
                k <= n,
                cells@.len() == k,
                forall|j: int| 0 <= j < k ==> #[trigger] cells@[j] == (Cell { material: EMPTY, noise: 0, fallout_ttl: 0, rest: blank }),
            decreases n - k,
        {
            cells.push(Cell { material: EMPTY, noise: 0, fallout_ttl: 0, rest: blank });
            k += 1;
        }
        MaterialGrid { width, height, cells, blank }
    }

    pub fn width(&self) -> (w: u32)
        ensures
            w == self@.width,
    {
        self.width
    }

    pub fn height(&self) -> (h: u32)
        ensures
            h == self@.height,
    {
        self.height
    }

    /// The number of cells.
    pub fn len(&self) -> (n: usize)
        ensures
            n == self@.cells.len(),
    {
        self.cells.len()
    }

    /// An empty cell.
    pub fn empty_cell(&self) -> (c: Cell<P>)
        ensures
            c == self@.empty(),
    {
        Cell { material: EMPTY, noise: 0, fallout_ttl: 0, rest: self.blank }
    }

    /// The cell at index `k`.
    pub fn cell(&self, k: usize) -> (c: Cell<P>)
        requires
            k < self@.cells.len(),
        ensures
            c == self@.cells[k as int],
    {
        self.cells[k]
    }

    /// Replace the cell at index `k` by `c`.
    pub fn set_cell(&mut self, k: usize, c: Cell<P>)
        requires
            k < old(self)@.cells.len(),
        ensures
            final(self)@ == (GridModel { cells: old(self)@.cells.update(k as int, c), ..old(self)@ }),
    {
        self.cells.set(k, c);
    }

    /// The material at (`x`, `y`); cells off the grid read as empty.
    pub fn cell_at(&self, x: u32, y: u32) -> (m: u8)
        requires
            self@.wf(),
        ensures
            m == (if self@.in_bounds(x as int, y as int) { self@.cell(x as int, y as int).material } else { EMPTY }),
    {
        if x >= self.width || y >= self.height {
            return EMPTY;
        }
        proof {
            lemma_at_in_range(self@, x as int, y as int);
        }
        self.cells[(y * self.width + x) as usize].material
    }

    /// The materials of all cells, in order.
    pub fn materials(&self) -> (m: Vec<u8>)
        ensures
            m@.len() == self@.cells.len(),
            forall|k: int| 0 <= k < m@.len() ==> #[trigger] m@[k] == self@.cells[k].material,
    {
        let mut m: Vec<u8> = Vec::new();
        let mut k: usize = 0;
        while k < self.cells.len()
            invariant
                k <= self.cells@.len(),
                m@.len() == k,
                forall|j: int| 0 <= j < k ==> #[trigger] m@[j] == self.cells@[j].material,
            decreases self.cells@.len() - k,
        {
            m.push(self.cells[k].material);
            k += 1;
        }
        m
    }

    /// Paint a disc with texture offsets either `given` by cell index or
    /// drawn at random.
    fn paint_pass(&mut self, cx: i32, cy: i32, material: u8, radius: i32, given: Option<&Vec<u8>>)
        requires
            old(self)@.wf(),
            match given { Some(ns) => ns@.len() == old(self)@.cells.len(), None => true },
            old(self)@.width <= i32::MAX,
            old(self)@.height <= i32::MAX,
            radius >= 0 ==> 2 * radius * radius <= i32::MAX,
            radius >= 0 ==> i32::MIN <= cx - radius && cx + radius <= i32::MAX,
            radius >= 0 ==> i32::MIN <= cy - radius && cy + radius <= i32::MAX,
            radius < 0 ==> radius * radius <= i32::MAX,
        ensures
            final(self)@.wf(),
            final(self)@.width == old(self)@.width,
            final(self)@.height == old(self)@.height,
            final(self)@.blank == old(self)@.blank,
            forall|x: int, y: int| old(self)@.in_bounds(x, y) ==> (
                if in_disc(cx as int, cy as int, radius as int, x, y) {
                    paint_ok(old(self)@, #[trigger] final(self)@.cell(x, y), material,
                        match given { Some(ns) => Some(ns@), None => None }, old(self)@.at(x, y))
                } else {
                    final(self)@.cell(x, y) == old(self)@.cell(x, y)
                }),
    {
        proof {
            if radius >= 0 {
                assert(0 <= radius * radius <= i32::MAX && radius <= 46340) by (nonlinear_arith)
                    requires
                        radius >= 0,
                        2 * radius * radius <= i32::MAX,
                ;
            } else {
                assert(radius > i32::MIN && 0 <= radius * radius) by (nonlinear_arith)
                    requires
                        radius < 0,
                        radius * radius <= i32::MAX,
                ;
            }
        }
        let mut rng = thread_rng();
        let r2 = radius * radius;
        let ghost g0 = self@;
        let ghost offsets: Option<Seq<u8>> = match given { Some(ns) => Some(ns@), None => None };
        let ghost r = radius as int;
        let mut dy: i32 = -radius;
        while dy <= radius
            invariant
                g0 == old(self)@,
                r == radius,
                r2 == r * r,
                radius >= 0 ==> 2 * r * r <= i32::MAX,
                radius >= 0 ==> i32::MIN <= cx - r && cx + r <= i32::MAX,
                radius >= 0 ==> i32::MIN <= cy - r && cy + r <= i32::MAX,
                radius >= 0 ==> -r <= dy <= r + 1,
                radius >= 0 ==> r <= 46340,
                radius < 0 ==> dy == -r,
                g0.wf(),
                g0.width <= i32::MAX,
                g0.height <= i32::MAX,
                painted_upto(g0, self@, cx as int, cy as int, r, material, offsets, dy as int, i32::MIN as int),
                match given { Some(ns) => ns@.len() == g0.cells.len() && offsets == Some(ns@), None => offsets is None },
            decreases r + 1 - dy,
        {
            let mut dx: i32 = -radius;
            while dx <= radius
                invariant
                    g0 == old(self)@,
                    r == radius,
                    radius >= 0,
                    r2 == r * r,
                    2 * r * r <= i32::MAX,
                    i32::MIN <= cx - r && cx + r <= i32::MAX,
                    i32::MIN <= cy - r && cy + r <= i32::MAX,
                    -r <= dy <= r,
                    -r <= dx <= r + 1,
                    r <= 46340,
                    g0.wf(),
                    g0.width <= i32::MAX,
                    g0.height <= i32::MAX,
                    painted_upto(g0, self@, cx as int, cy as int, r, material, offsets, dy as int, dx as int),
                    match given { Some(ns) => ns@.len() == g0.cells.len() && offsets == Some(ns@), None => offsets is None },
                decreases r + 1 - dx,
            {
                proof {
                    assert(0 <= dx * dx <= i32::MAX && 0 <= dy * dy <= i32::MAX && 0 <= dx * dx + dy * dy <= i32::MAX) by (nonlinear_arith)
                        requires
                            -r <= dx <= r,
                            -r <= dy <= r,
                            2 * r * r <= i32::MAX,
                    ;
                }
                if dx * dx + dy * dy > r2 {
                    proof {
                        assert forall|x: int, y: int| y - cy == dy && x - cx == dx implies !in_disc(cx as int, cy as int, r, x, y) by {}
                    }
                    dx += 1;
                    continue;
                }
                let x = cx + dx;
                let y = cy + dy;
                let ghost before = self@;
                if x >= 0 && x < self.width as i32 && y >= 0 && y < self.height as i32 {
                    proof {
                        lemma_at_in_range(before, x as int, y as int);
                    }
                    let idx = (y as u32 * self.width + x as u32) as usize;
                    if material == EMPTY {
                        let e = self.empty_cell();
                        self.cells.set(idx, e);
                    } else {
                        let noise = match given {
                            Some(ns) => ns[idx],
                            None => random_range_u8(&mut rng, 0, 40),
                        };
                        self.cells.set(idx, Cell { material, noise, fallout_ttl: 0, rest: self.blank });
                    }
                    proof {
                        assert forall|x2: int, y2: int| g0.in_bounds(x2, y2) && (x2 != x || y2 != y) implies
                            #[trigger] self@.cell(x2, y2) == before.cell(x2, y2) by {
                            lemma_at_distinct(before, x as int, y as int, x2, y2);
                            lemma_at_in_range(before, x2, y2);
                        }
                        assert(paint_ok(g0, self@.cell(x as int, y as int), material, offsets, g0.at(x as int, y as int)));
                    }
                }
                proof {
                    assert forall|x2: int, y2: int| g0.in_bounds(x2, y2) implies (
                        if in_disc(cx as int, cy as int, r, x2, y2) && (y2 - cy < dy || (y2 - cy == dy && x2 - cx < dx + 1)) {
                            paint_ok(g0, #[trigger] self@.cell(x2, y2), material, offsets, g0.at(x2, y2))
                        } else {
                            self@.cell(x2, y2) == g0.cell(x2, y2)
                        }) by {
                        if x2 != x || y2 != y {
                            assert(self@.cell(x2, y2) == before.cell(x2, y2));
                        }
                    }
                }
                dx += 1;
            }
            proof {
                assert forall|x: int, y: int| g0.in_bounds(x, y) implies (
                    if in_disc(cx as int, cy as int, r, x, y) && (y - cy < dy + 1 || (y - cy == dy + 1 && x - cx < i32::MIN)) {
                        paint_ok(g0, #[trigger] self@.cell(x, y), material, offsets, g0.at(x, y))
                    } else {
                        self@.cell(x, y) == g0.cell(x, y)
                    }) by {
                    if in_disc(cx as int, cy as int, r, x, y) && y - cy == dy {
                        assert(x - cx <= r);
                    }
                }
            }
            dy += 1;
        }
        proof {
            assert forall|x: int, y: int| g0.in_bounds(x, y) && in_disc(cx as int, cy as int, r, x, y) implies y - cy < dy by {}
        }
    }

    /// Paint a disc of `radius` cells centred on (`cx`, `cy`) with
    /// `material`, each painted cell with a random texture offset; painting
    /// `EMPTY` erases.
    pub fn paint(&mut self, cx: i32, cy: i32, material: u8, radius: i32)
        requires
            old(self)@.wf(),
            old(self)@.width <= i32::MAX,
            old(self)@.height <= i32::MAX,
            radius >= 0 ==> 2 * radius * radius <= i32::MAX,
            radius >= 0 ==> i32::MIN <= cx - radius && cx + radius <= i32::MAX,
            radius >= 0 ==> i32::MIN <= cy - radius && cy + radius <= i32::MAX,
            radius < 0 ==> radius * radius <= i32::MAX,
        ensures
            final(self)@.wf(),
            final(self)@.width == old(self)@.width,
            final(self)@.height == old(self)@.height,
            final(self)@.blank == old(self)@.blank,
            forall|x: int, y: int| old(self)@.in_bounds(x, y) ==> (
                if in_disc(cx as int, cy as int, radius as int, x, y) {
                    painted(old(self)@, #[trigger] final(self)@.cell(x, y), material)
                } else {
                    final(self)@.cell(x, y) == old(self)@.cell(x, y)
                }),
    {
        self.paint_pass(cx, cy, material, radius, None);
        assert forall|x: int, y: int| old(self)@.in_bounds(x, y) && in_disc(cx as int, cy as int, radius as int, x, y)
            implies painted(old(self)@, #[trigger] self@.cell(x, y), material) by {
            assert(paint_ok(old(self)@, self@.cell(x, y), material, None, old(self)@.at(x, y)));
        }
    }

    /// The painting of [`Self::paint`] with the texture offsets given: a
    /// painted cell with index `k` gets offset `offsets[k]`.
    pub fn paint_with(&mut self, cx: i32, cy: i32, material: u8, radius: i32, offsets: &Vec<u8>)
        requires
            old(self)@.wf(),
            offsets@.len() == old(self)@.cells.len(),
            old(self)@.width <= i32::MAX,
            old(self)@.height <= i32::MAX,
            radius >= 0 ==> 2 * radius * radius <= i32::MAX,
            radius >= 0 ==> i32::MIN <= cx - radius && cx + radius <= i32::MAX,
            radius >= 0 ==> i32::MIN <= cy - radius && cy + radius <= i32::MAX,
            radius < 0 ==> radius * radius <= i32::MAX,
        ensures
            final(self)@.wf(),
            final(self)@.width == old(self)@.width,
            final(self)@.height == old(self)@.height,
            final(self)@.blank == old(self)@.blank,
            forall|x: int, y: int| old(self)@.in_bounds(x, y) ==> #[trigger] final(self)@.cell(x, y) == (
                if in_disc(cx as int, cy as int, radius as int, x, y) {
                    fresh(old(self)@, material, offsets@[old(self)@.at(x, y)])
                } else {
                    old(self)@.cell(x, y)
                }),
    {
        self.paint_pass(cx, cy, material, radius, Some(offsets));
        assert forall|x: int, y: int| old(self)@.in_bounds(x, y) implies #[trigger] self@.cell(x, y) == (
            if in_disc(cx as int, cy as int, radius as int, x, y) {
                fresh(old(self)@, material, offsets@[old(self)@.at(x, y)])
            } else {
                old(self)@.cell(x, y)
            }) by {
            if in_disc(cx as int, cy as int, radius as int, x, y) {
                assert(paint_ok(old(self)@, self@.cell(x, y), material, Some(offsets@), old(self)@.at(x, y)));
            }
        }
    }

    /// Move the molten steel at (`x`, `y`) into (`nx`, `y + 1`) if that
    /// cell is empty; reports whether it did.
    fn flow_into(&mut self, x: u32, y: u32, nx: u32) -> (moved: bool)
        requires
            old(self)@.wf(),
            old(self)@.in_bounds(x as int, y as int),
            old(self)@.in_bounds(nx as int, y + 1),
            nx != x,
        ensures
            moved == (old(self)@.cell(nx as int, y + 1).material == EMPTY),
            moved ==> final(self)@ == old(self)@.moved(x as int, y as int, nx as int, y + 1),
            !moved ==> final(self)@ == old(self)@,
            final(self)@.cells.len() == old(self)@.cells.len(),
    {
        proof {
            lemma_at_in_range(self@, x as int, y as int);
            lemma_at_in_range(self@, nx as int, y + 1);
        }
        let idx = (y * self.width + x) as usize;
        let target = ((y + 1) * self.width + nx) as usize;
        if self.cells[target].material != EMPTY {
            return false;
        }
        let cell = self.cells[idx];
        let e = self.empty_cell();
        self.cells.set(target, cell);
        self.cells.set(idx, e);
        true
    }

    /// The flow of the cell at (`x`, `y`), which has a row below it, with
    /// side choice `left_first`; tells whether it fell straight down.
    fn liquid_cell(&mut self, x: u32, y: u32, left_first: bool) -> (fell: bool)
        requires
            old(self)@.wf(),
            x < old(self)@.width,
            y + 1 < old(self)@.height,
        ensures
            final(self)@ == liquid_rule(old(self)@, x as int, y as int, left_first).0,
            fell == liquid_rule(old(self)@, x as int, y as int, left_first).1,
            final(self)@.cells.len() == old(self)@.cells.len(),
    {
        let w = self.width;
        proof {
            lemma_at_in_range(self@, x as int, y as int);
            lemma_at_in_range(self@, x as int, y + 1);
        }
        let idx = (y * w + x) as usize;
        if self.cells[idx].material != MOLTEN_STEEL {
            return false;
        }
        let below = ((y + 1) * w + x) as usize;
        if self.cells[below].material == EMPTY {
            let cell = self.cells[idx];
            let e = self.empty_cell();
            self.cells.set(below, cell);
            self.cells.set(idx, e);
            return true;
        }
        let mut done = false;
        if left_first {
            if x >= 1 {
                done = self.flow_into(x, y, x - 1);
            }
            if !done && x + 1 < w {
                done = self.flow_into(x, y, x + 1);
            }
        } else {
            if x + 1 < w {
                done = self.flow_into(x, y, x + 1);
            }
            if !done && x >= 1 {
                done = self.flow_into(x, y, x - 1);
            }
        }
        false
    }

    /// One flow step with the side choices either `given` (row `r` holds
    /// the choices of row `height - 2 - r`) or drawn at random where
    /// needed.
    fn liquids_pass(&mut self, given: Option<&Vec<Vec<bool>>>) -> (falls: u32)
        requires
            old(self)@.wf(),
            old(self)@.height >= 1,
            match given {
                Some(g) => liquid_choices(old(self)@, choice_rows(g@)),
                None => true,
            },
        ensures
            exists|rows: Seq<Seq<bool>>|
                liquid_choices(old(self)@, rows)
                && (match given { Some(g) => rows == choice_rows(g@), None => true })
                && final(self)@ == (#[trigger] liquid_rows(old(self)@, rows)).0
                && falls == liquid_rows(old(self)@, rows).1,
            final(self)@.wf(),
            final(self)@.width == old(self)@.width,
            final(self)@.height == old(self)@.height,
            final(self)@.blank == old(self)@.blank,
    {
        let w = self.width;
        let h = self.height;
        let mut rng = thread_rng();
        let mut falls: u32 = 0;
        let ghost mut rows: Seq<Seq<bool>> = Seq::empty();
        let mut y: u32 = h - 1;
        while y > 0
            invariant
                self@.wf(),
                self@.width == old(self)@.width,
                self@.height == old(self)@.height,
                self@.blank == old(self)@.blank,
                w == self@.width,
                h == self@.height,
                h >= 1,
                y <= h - 1,
                rows.len() == h - 1 - y,
                forall|r: int| 0 <= r < rows.len() ==> (#[trigger] rows[r]).len() == w,
                match given {
                    Some(g) => liquid_choices(old(self)@, choice_rows(g@))
                        && forall|r: int| 0 <= r < rows.len() ==> #[trigger] rows[r] == g@[r]@,
                    None => true,
                },
                self@ == liquid_rows(old(self)@, rows).0,
                falls == liquid_rows(old(self)@, rows).1,
                falls <= rows.len() * w,
            decreases y,
        {
            y -= 1;
            let r = (h - 2 - y) as usize;
            let ghost base = self@;
            let ghost base_falls = falls;
            let ghost mut cs: Seq<bool> = Seq::empty();
            let mut x: u32 = 0;
            while x < w
                invariant
                    self@.wf(),
                    self@.width == old(self)@.width,
                    self@.height == old(self)@.height,
                    self@.blank == old(self)@.blank,
                    w == self@.width,
                    h == self@.height,
                    y + 1 < h,
                    x <= w,
                    cs.len() == x,
                    base.width == w,
                    rows.len() == h - 2 - y,
                    r == rows.len(),
                    match given {
                        Some(g) => liquid_choices(old(self)@, choice_rows(g@))
                            && cs == g@[r as int]@.subrange(0, x as int),
                        None => true,
                    },
                    self@ == liquid_row(base, y as int, cs).0,
                    falls == base_falls + liquid_row(base, y as int, cs).1,
                    base_falls <= rows.len() * w,
                    falls <= rows.len() * w + x,
                decreases w - x,
            {
                proof {
                    assert(rows.len() * w + x + 1 <= w * h) by (nonlinear_arith)
                        requires
                            rows.len() + 2 <= h,
                            x < w,
                    ;
                }
                let left_first = match given {
                    Some(g) => {
                        proof {
                            assert(choice_rows(g@)[r as int] == g@[r as int]@);
                        }
                        g[r][x as usize]
                    },
                    None => {
                        proof {
                            lemma_at_in_range(self@, x as int, y as int);
                            lemma_at_in_range(self@, x as int, y + 1);
                        }
                        let idx = (y * w + x) as usize;
                        let below = ((y + 1) * w + x) as usize;
                        if self.cells[idx].material == MOLTEN_STEEL && self.cells[below].material != EMPTY {
                            random_bool(&mut rng)
                        } else {
                            false
                        }
                    },
                };
                let fell = self.liquid_cell(x, y, left_first);
                if fell {
                    falls += 1;
                }
                proof {
                    let cs2 = cs.push(left_first);
                    assert(cs2.drop_last() =~= cs);
                    match given {
                        Some(g) => {
                            assert(cs2 =~= g@[r as int]@.subrange(0, x + 1));
                        },
                        None => {},
                    }
                    cs = cs2;
                }
                x += 1;
            }
            proof {
                let rows2 = rows.push(cs);
                assert(rows2.drop_last() =~= rows);
                assert(old(self)@.height - 2 - rows.len() == y);
                assert forall|k: int| 0 <= k < rows2.len() implies (#[trigger] rows2[k]).len() == w by {
                    if k < rows.len() {
                        assert(rows2[k] == rows[k]);
                    }
                }
                match given {
                    Some(g) => {
                        assert(choice_rows(g@)[r as int] == g@[r as int]@);
                        assert(cs =~= g@[r as int]@);
                        assert forall|k: int| 0 <= k < rows2.len() implies #[trigger] rows2[k] == g@[k]@ by {
                            if k < rows.len() {
                                assert(rows2[k] == rows[k]);
                            }
                        }
                    },
                    None => {},
                }
                assert(rows.len() * w + w == rows2.len() * w) by (nonlinear_arith)
                    requires
                        rows2.len() == rows.len() + 1,
                ;
                rows = rows2;
            }
        }
        proof {
            match given {
                Some(g) => {
                    assert(rows =~= choice_rows(g@));
                },
                None => {},
            }
        }
        falls
    }

    /// Let molten steel flow for one step: rows from the second-to-last
    /// upwards, each left to right; each molten cell falls into an empty
    /// cell below, else flows diagonally down to a random side first.
    /// Returns the number of straight falls.
    pub fn tick_liquids(&mut self) -> (falls: u32)
        requires
            old(self)@.wf(),
            old(self)@.height >= 1,
        ensures
            exists|rows: Seq<Seq<bool>>|
                liquid_choices(old(self)@, rows)
                && final(self)@ == (#[trigger] liquid_rows(old(self)@, rows)).0
                && falls == liquid_rows(old(self)@, rows).1,
            final(self)@.wf(),
            final(self)@.width == old(self)@.width,
            final(self)@.height == old(self)@.height,
            final(self)@.blank == old(self)@.blank,
    {
        self.liquids_pass(None)
    }

    /// The flow step of [`Self::tick_liquids`] with the side choices given:
    /// `sides[r][x]` is whether the cell in column `x` of row
    /// `height - 2 - r` tries the left side first. Returns the number of
    /// straight falls.
    pub fn tick_liquids_with(&mut self, sides: &Vec<Vec<bool>>) -> (falls: u32)
        requires
            old(self)@.wf(),
            old(self)@.height >= 1,
            liquid_choices(old(self)@, choice_rows(sides@)),
        ensures
            final(self)@ == liquid_rows(old(self)@, choice_rows(sides@)).0,
            falls == liquid_rows(old(self)@, choice_rows(sides@)).1,
            final(self)@.wf(),
    {
        self.liquids_pass(Some(sides))
    }

    /// The fallout update of the cell at (`x`, `y`) with choices `c`
    /// (direction below 4); its events are appended to `events`.
    fn fallout_cell(&mut self, x: u32, y: u32, c: (bool, u8, u8, bool), events: &mut Vec<FalloutEvent>)
        requires
            old(self)@.wf(),
            old(self)@.in_bounds(x as int, y as int),
            c.1 < 4,
        ensures
            final(self)@ == fallout_rule(old(self)@, x as int, y as int, c).0,
            final(events)@ == old(events)@ + fallout_rule(old(self)@, x as int, y as int, c).1,
            final(self)@.cells.len() == old(self)@.cells.len(),
    {
        let w = self.width;
        let h = self.height;
        proof {
            lemma_at_in_range(self@, x as int, y as int);
        }
        let idx = (y * w + x) as usize;
        let here = self.cells[idx];
        let ghost e0 = events@;
        if here.material != FALLOUT {
            assert(events@ =~= e0 + Seq::empty());
            return;
        }
        if here.fallout_ttl == 0 {
            let e = self.empty_cell();
            self.cells.set(idx, e);
            assert(events@ =~= e0 + Seq::empty());
            return;
        }
        self.cells.set(idx, Cell { fallout_ttl: here.fallout_ttl - 1, ..here });
        let (acts, dir, noise, lucky) = c;
        if acts {
            match neighbour(x, y, dir, w, h) {
                Some((nx, ny)) => {
                    proof {
                        lemma_at_in_range(self@, nx as int, ny as int);
                        lemma_at_distinct(self@, x as int, y as int, nx as int, ny as int);
                    }
                    let nidx = (ny * w + nx) as usize;
                    let n = self.cells[nidx];
                    if n.material == STEEL {
                        self.cells.set(nidx, Cell { material: RUST, noise, ..n });
                        events.push(FalloutEvent::Rusted);
                    } else if n.material == WOOD {
                        self.cells.set(nidx, Cell { material: ASH, noise, ..n });
                        events.push(FalloutEvent::Ashed);
                    } else if n.material == STONE {
                        if lucky {
                            let e = self.empty_cell();
                            self.cells.set(nidx, e);
                            events.push(FalloutEvent::StoneBroken);
                        }
                    } else if n.material == GLASS {
                        let e = self.empty_cell();
                        self.cells.set(nidx, e);
                        events.push(FalloutEvent::GlassBroken);
                    } else if n.material == RUST {
                        if lucky {
                            let e = self.empty_cell();
                            self.cells.set(nidx, e);
                        }
                    }
                },
                None => {},
            }
        }
        assert(events@ =~= e0 + fallout_rule(old(self)@, x as int, y as int, c).1);
    }

    /// One fallout pass with the choices either `given` (row `r` holds the
    /// choices of row `r`) or drawn at random where needed.
    fn fallout_pass(&mut self, given: Option<&Vec<Vec<(bool, u8, u8, bool)>>>) -> (events: Vec<FalloutEvent>)
        requires
            old(self)@.wf(),
            match given {
                Some(g) => fallout_choices(old(self)@, choice_rows(g@)),
                None => true,
            },
        ensures
            exists|rows: Seq<Seq<(bool, u8, u8, bool)>>|
                fallout_choices(old(self)@, rows)
                && (match given { Some(g) => rows == choice_rows(g@), None => true })
                && final(self)@ == (#[trigger] fallout_rows(old(self)@, rows)).0
                && events@ == fallout_rows(old(self)@, rows).1,
            final(self)@.wf(),
            final(self)@.width == old(self)@.width,
            final(self)@.height == old(self)@.height,
            final(self)@.blank == old(self)@.blank,
    {
        let w = self.width;
        let h = self.height;
        let mut rng = thread_rng();
        let mut events: Vec<FalloutEvent> = Vec::new();
        let ghost mut rows: Seq<Seq<(bool, u8, u8, bool)>> = Seq::empty();
        let mut y: u32 = 0;
        while y < h
            invariant
                self@.wf(),
                self@.width == old(self)@.width,
                self@.height == old(self)@.height,
                self@.blank == old(self)@.blank,
                w == self@.width,
                h == self@.height,
                y <= h,
                rows.len() == y,
                forall|r: int| 0 <= r < rows.len() ==> (#[trigger] rows[r]).len() == w,
                forall|r: int, k: int| 0 <= r < rows.len() && 0 <= k < rows[r].len() ==>
                    (#[trigger] rows[r][k]).1 < 4 && rows[r][k].2 < 40,
                match given {
                    Some(g) => fallout_choices(old(self)@, choice_rows(g@))
                        && forall|r: int| 0 <= r < rows.len() ==> #[trigger] rows[r] == g@[r]@,
                    None => true,
                },
                self@ == fallout_rows(old(self)@, rows).0,
                events@ == fallout_rows(old(self)@, rows).1,
            decreases h - y,
        {
            let ghost base = self@;
            let ghost base_events = events@;
            let ghost mut cs: Seq<(bool, u8, u8, bool)> = Seq::empty();
            let mut x: u32 = 0;
            while x < w
                invariant
                    self@.wf(),
                    self@.width == old(self)@.width,
                    self@.height == old(self)@.height,
                    self@.blank == old(self)@.blank,
                    w == self@.width,
                    h == self@.height,
                    y < h,
                    x <= w,
                    cs.len() == x,
                    rows.len() == y,
                    forall|k: int| 0 <= k < cs.len() ==> (#[trigger] cs[k]).1 < 4 && cs[k].2 < 40,
                    match given {
                        Some(g) => fallout_choices(old(self)@, choice_rows(g@))
                            && cs == g@[y as int]@.subrange(0, x as int),
                        None => true,
                    },
                    self@ == fallout_row(base, y as int, cs).0,
                    events@ == base_events + fallout_row(base, y as int, cs).1,
                decreases w - x,
            {
                let c: (bool, u8, u8, bool) = match given {
                    Some(g) => {
                        proof {
                            let gr = choice_rows(g@);
                            assert(gr[y as int] == g@[y as int]@);
                            assert(gr[y as int][x as int].1 < 4 && gr[y as int][x as int].2 < 40);
                        }
                        g[y as usize][x as usize]
                    },
                    None => self.draw_fallout_choice(x, y, &mut rng),
                };
                let ghost before_events = events@;
                self.fallout_cell(x, y, c, &mut events);
                proof {
                    let cs2 = cs.push(c);
                    assert(cs2.drop_last() =~= cs);
                    assert(events@ =~= base_events + fallout_row(base, y as int, cs2).1);
                    match given {
                        Some(g) => {
                            assert(cs2 =~= g@[y as int]@.subrange(0, x + 1));
                        },
                        None => {},
                    }
                    cs = cs2;
                }
                x += 1;
            }
            proof {
                let rows2 = rows.push(cs);
                assert(rows2.drop_last() =~= rows);
                assert forall|r: int| 0 <= r < rows2.len() implies (#[trigger] rows2[r]).len() == w by {
                    if r < rows.len() {
                        assert(rows2[r] == rows[r]);
                    }
                }
                assert forall|r: int, k: int| 0 <= r < rows2.len() && 0 <= k < rows2[r].len() implies
                    (#[trigger] rows2[r][k]).1 < 4 && rows2[r][k].2 < 40 by {
                    if r < rows.len() {
                        assert(rows2[r] == rows[r]);
                    } else {
                        assert(rows2[r] == cs);
                    }
                }
                match given {
                    Some(g) => {
                        assert(choice_rows(g@)[y as int] == g@[y as int]@);
                        assert(cs =~= g@[y as int]@);
                        assert forall|k: int| 0 <= k < rows2.len() implies #[trigger] rows2[k] == g@[k]@ by {
                            if k < rows.len() {
                                assert(rows2[k] == rows[k]);
                            }
                        }
                    },
                    None => {},
                }
                assert(events@ =~= fallout_rows(old(self)@, rows2).1);
                rows = rows2;
            }
            y += 1;
        }
        proof {
            match given {
                Some(g) => {
                    assert(rows =~= choice_rows(g@));
                },
                None => {},
            }
        }
        events
    }

    /// Draw the choices the fallout cell at (`x`, `y`) uses: whether it acts
    /// (chance 3 in 100), a direction, and, by the neighbour it meets, a
    /// texture offset for steel or wood, or luck for stone (1 in 5) or rust
    /// (1 in 10).
    fn draw_fallout_choice(&self, x: u32, y: u32, rng: &mut rand::rngs::ThreadRng) -> (c: (bool, u8, u8, bool))
        requires
            self@.wf(),
            self@.in_bounds(x as int, y as int),
        ensures
            c.1 < 4,
            c.2 < 40,
    {
        let w = self.width;
        let h = self.height;
        proof {
            lemma_at_in_range(self@, x as int, y as int);
        }
        let here = self.cells[(y * w + x) as usize];
        if here.material != FALLOUT || here.fallout_ttl == 0 {
            return (false, 0, 0, false);
        }
        if !random_ratio(rng, 3, 100) {
            return (false, 0, 0, false);
        }
        let dir = random_range_u8(rng, 0, 4);
        let m = match neighbour(x, y, dir, w, h) {
            Some((nx, ny)) => {
                proof {
                    lemma_at_in_range(self@, nx as int, ny as int);
                }
                self.cells[(ny * w + nx) as usize].material
            },
            None => EMPTY,
        };
        let noise = if m == STEEL || m == WOOD { random_range_u8(rng, 0, 40) } else { 0 };
        let lucky = if m == STONE {
            random_ratio(rng, 1, 5)
        } else if m == RUST {
            random_ratio(rng, 1, 10)
        } else {
            false
        };
        (true, dir, noise, lucky)
    }

    /// Age every fallout cell by one tick, row by row from the top, and let
    /// each act on a random neighbour with chance 3 in 100: steel rusts,
    /// wood turns to ash, glass breaks, stone breaks with chance 1 in 5 and
    /// rust with chance 1 in 10. Returns the events, in order.
    pub fn tick_fallout(&mut self) -> (events: Vec<FalloutEvent>)
        requires
            old(self)@.wf(),
        ensures
            exists|rows: Seq<Seq<(bool, u8, u8, bool)>>|
                fallout_choices(old(self)@, rows)
                && final(self)@ == (#[trigger] fallout_rows(old(self)@, rows)).0
                && events@ == fallout_rows(old(self)@, rows).1,
            final(self)@.wf(),
            final(self)@.width == old(self)@.width,
            final(self)@.height == old(self)@.height,
            final(self)@.blank == old(self)@.blank,
    {
        self.fallout_pass(None)
    }

    /// The fallout pass of [`Self::tick_fallout`] with the choices given:
    /// `choices[y][x]` = (acts, direction, texture offset, lucky) for the
    /// cell at (`x`, `y`). Returns the events, in order.
    pub fn tick_fallout_with(&mut self, choices: &Vec<Vec<(bool, u8, u8, bool)>>) -> (events: Vec<FalloutEvent>)
        requires
            old(self)@.wf(),
            fallout_choices(old(self)@, choice_rows(choices@)),
        ensures
            final(self)@ == fallout_rows(old(self)@, choice_rows(choices@)).0,
            events@ == fallout_rows(old(self)@, choice_rows(choices@)).1,
            final(self)@.wf(),
    {
        self.fallout_pass(Some(choices))
    }

    /// Empty every cell.
    pub fn clear(&mut self)
        ensures
            final(self)@.width == old(self)@.width,
            final(self)@.height == old(self)@.height,
            final(self)@.blank == old(self)@.blank,
            final(self)@.cells.len() == old(self)@.cells.len(),
            forall|k: int| 0 <= k < old(self)@.cells.len() ==> #[trigger] final(self)@.cells[k] == old(self)@.empty(),
    {
        let e = self.empty_cell();
        let n = self.cells.len();
        let mut k: usize = 0;
        while k < n
            invariant
                n == self@.cells.len(),
                k <= n,
                self@.width == old(self)@.width,
                self@.height == old(self)@.height,
                self@.blank == old(self)@.blank,
                self@.cells.len() == old(self)@.cells.len(),
                e == old(self)@.empty(),
                forall|j: int| 0 <= j < k ==> #[trigger] self@.cells[j] == e,
            decreases n - k,
        {
            self.cells.set(k, e);
            k += 1;
        }
    }
}

} // verus!
