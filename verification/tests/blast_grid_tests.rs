use sim_engines::blast::{EMPTY, FALLOUT, GLASS, MOLTEN_STEEL, STEEL, STONE, WOOD};
use sim_engines::blast_grid::{Cell, FalloutEvent, MaterialGrid};

type Motion = (f32, f32, f32);

const BLANK: Motion = (0.0, 0.0, 0.0);

fn grid(w: u32, h: u32) -> MaterialGrid<Motion> {
    MaterialGrid::new(w, h, BLANK)
}

fn put(g: &mut MaterialGrid<Motion>, x: u32, y: u32, material: u8, ttl: u16, rest: Motion) {
    let w = g.width();
    g.set_cell((y * w + x) as usize, Cell { material, noise: 7, fallout_ttl: ttl, rest });
}

fn at(g: &MaterialGrid<Motion>, x: u32, y: u32) -> Cell<Motion> {
    g.cell((y * g.width() + x) as usize)
}

#[test]
fn new_grid_is_empty() {
    let g = grid(4, 3);
    assert_eq!(g.len(), 12);
    for k in 0..12 {
        let c = g.cell(k);
        assert_eq!(c.material, EMPTY);
        assert_eq!(c.noise, 0);
        assert_eq!(c.fallout_ttl, 0);
        assert_eq!(c.rest, BLANK);
    }
    assert_eq!(g.cell_at(10, 10), EMPTY);
}

#[test]
fn cell_at_reads_material_and_off_grid_is_empty() {
    let mut g = grid(3, 3);
    put(&mut g, 2, 1, STONE, 0, BLANK);
    assert_eq!(g.cell_at(2, 1), STONE);
    assert_eq!(g.cell_at(1, 2), EMPTY);
    assert_eq!(g.cell_at(3, 1), EMPTY);
    assert_eq!(g.cell_at(0, 3), EMPTY);
    assert_eq!(g.materials(), vec![0, 0, 0, 0, 0, STONE, 0, 0, 0]);
}

#[test]
fn paint_fills_a_disc_with_textured_cells() {
    let mut g = grid(5, 5);
    g.paint(2, 2, WOOD, 1);
    for y in 0..5u32 {
        for x in 0..5u32 {
            let dx = x as i32 - 2;
            let dy = y as i32 - 2;
            let c = at(&g, x, y);
            if dx * dx + dy * dy <= 1 {
                assert_eq!(c.material, WOOD);
                assert!(c.noise < 40);
                assert_eq!(c.fallout_ttl, 0);
            } else {
                assert_eq!(c.material, EMPTY);
            }
        }
    }
}

#[test]
fn paint_clips_at_the_border_and_erases() {
    let mut g = grid(3, 3);
    g.paint(0, 0, STEEL, 2);
    assert_eq!(g.materials(), vec![STEEL, STEEL, STEEL, STEEL, STEEL, 0, STEEL, 0, 0]);
    g.paint(0, 0, EMPTY, 0);
    let c = at(&g, 0, 0);
    assert_eq!(c.material, EMPTY);
    assert_eq!(c.noise, 0);
    assert_eq!(g.cell_at(1, 0), STEEL);
}

#[test]
fn molten_steel_falls_straight_down() {
    let mut g = grid(3, 3);
    put(&mut g, 1, 0, MOLTEN_STEEL, 0, (1.0, 2.0, 3.0));
    let falls = g.tick_liquids();
    assert_eq!(falls, 1);
    assert_eq!(g.cell_at(1, 0), EMPTY);
    assert_eq!(at(&g, 1, 0).rest, BLANK);
    assert_eq!(g.cell_at(1, 1), MOLTEN_STEEL);
    assert_eq!(at(&g, 1, 1).rest, (1.0, 2.0, 3.0));
}

#[test]
fn molten_steel_flows_diagonally_when_blocked() {
    let mut g = grid(3, 2);
    put(&mut g, 1, 0, MOLTEN_STEEL, 0, BLANK);
    put(&mut g, 1, 1, STONE, 0, BLANK);
    let falls = g.tick_liquids();
    assert_eq!(falls, 0);
    assert_eq!(g.cell_at(1, 0), EMPTY);
    assert_eq!(g.cell_at(1, 1), STONE);
    let left = g.cell_at(0, 1) == MOLTEN_STEEL;
    let right = g.cell_at(2, 1) == MOLTEN_STEEL;
    assert!(left != right);
}

#[test]
fn boxed_in_molten_steel_stays() {
    let mut g = grid(3, 2);
    put(&mut g, 1, 0, MOLTEN_STEEL, 0, BLANK);
    put(&mut g, 0, 1, STONE, 0, BLANK);
    put(&mut g, 1, 1, STONE, 0, BLANK);
    put(&mut g, 2, 1, STONE, 0, BLANK);
    assert_eq!(g.tick_liquids(), 0);
    assert_eq!(g.cell_at(1, 0), MOLTEN_STEEL);
}

#[test]
fn molten_steel_on_the_bottom_row_stays() {
    let mut g = grid(2, 1);
    put(&mut g, 0, 0, MOLTEN_STEEL, 0, BLANK);
    assert_eq!(g.tick_liquids(), 0);
    assert_eq!(g.cell_at(0, 0), MOLTEN_STEEL);
}

#[test]
fn spent_fallout_vanishes() {
    let mut g = grid(2, 2);
    put(&mut g, 0, 0, FALLOUT, 0, (5.0, 5.0, 5.0));
    let events = g.tick_fallout();
    assert!(events.is_empty());
    let c = at(&g, 0, 0);
    assert_eq!(c.material, EMPTY);
    assert_eq!(c.rest, BLANK);
}

#[test]
fn fallout_counts_down() {
    let mut g = grid(1, 1);
    put(&mut g, 0, 0, FALLOUT, 5, BLANK);
    let events = g.tick_fallout();
    assert!(events.is_empty());
    assert_eq!(at(&g, 0, 0).fallout_ttl, 4);
    assert_eq!(g.cell_at(0, 0), FALLOUT);
}

#[test]
fn fallout_only_degrades_its_neighbours() {
    let mut g = grid(3, 3);
    put(&mut g, 1, 1, FALLOUT, 60000, BLANK);
    put(&mut g, 1, 0, STEEL, 0, BLANK);
    put(&mut g, 2, 1, WOOD, 0, BLANK);
    put(&mut g, 1, 2, GLASS, 0, BLANK);
    put(&mut g, 0, 1, STONE, 0, BLANK);
    put(&mut g, 0, 0, GLASS, 0, BLANK);
    for _ in 0..2000 {
        for e in g.tick_fallout() {
            let expected = match e {
                FalloutEvent::Rusted => (1, 0),
                FalloutEvent::Ashed => (2, 1),
                FalloutEvent::GlassBroken => (1, 2),
                FalloutEvent::StoneBroken => (0, 1),
            };
            let m = g.cell_at(expected.0, expected.1);
            assert!(m != STEEL && m != WOOD);
        }
    }
    assert_eq!(g.cell_at(0, 0), GLASS);
    assert_eq!(g.cell_at(1, 1), FALLOUT);
}

#[test]
fn clear_empties_every_cell() {
    let mut g = grid(2, 2);
    g.paint(0, 0, STONE, 3);
    g.clear();
    assert_eq!(g.materials(), vec![EMPTY; 4]);
}

#[test]
fn flowing_keeps_every_material_count() {
    let mut g = grid(6, 6);
    g.paint(2, 1, MOLTEN_STEEL, 1);
    put(&mut g, 0, 5, STONE, 0, BLANK);
    put(&mut g, 3, 4, WOOD, 0, BLANK);
    put(&mut g, 4, 2, GLASS, 0, BLANK);
    let count = |g: &MaterialGrid<Motion>, m: u8| g.materials().iter().filter(|&&x| x == m).count();
    let before: Vec<usize> = (0..9).map(|m| count(&g, m)).collect();
    for _ in 0..30 {
        g.tick_liquids();
        let after: Vec<usize> = (0..9).map(|m| count(&g, m)).collect();
        assert_eq!(after, before);
    }
    // Every move lowers a cell by one row, so by now the flow has stopped:
    // molten steel rests on the bottom or on something.
    for x in 0..6u32 {
        for y in 0..5u32 {
            if g.cell_at(x, y) == MOLTEN_STEEL {
                assert_ne!(g.cell_at(x, y + 1), EMPTY);
            }
        }
    }
}

#[test]
fn fallout_never_spreads() {
    let mut g = grid(5, 5);
    put(&mut g, 2, 2, FALLOUT, 3, BLANK);
    put(&mut g, 0, 4, FALLOUT, 50, BLANK);
    put(&mut g, 2, 1, STEEL, 0, BLANK);
    for t in 0..60 {
        g.tick_fallout();
        for y in 0..5u32 {
            for x in 0..5u32 {
                if g.cell_at(x, y) == FALLOUT {
                    assert!((x, y) == (2, 2) || (x, y) == (0, 4));
                }
            }
        }
        // The short-lived cell counts down from 3 and is gone on the fourth pass.
        assert_eq!(g.cell_at(2, 2) == FALLOUT, t < 3);
    }
    assert_eq!(g.cell_at(0, 4), EMPTY);
}

#[test]
fn given_side_choices_steer_the_flow() {
    for (left_first, lands) in [(true, 0u32), (false, 2u32)] {
        let mut g = grid(3, 2);
        put(&mut g, 1, 0, MOLTEN_STEEL, 0, BLANK);
        put(&mut g, 1, 1, STONE, 0, BLANK);
        let falls = g.tick_liquids_with(&vec![vec![left_first; 3]]);
        assert_eq!(falls, 0);
        assert_eq!(g.cell_at(1, 0), EMPTY);
        assert_eq!(g.cell_at(lands, 1), MOLTEN_STEEL);
        assert_eq!(g.cell_at(2 - lands, 1), EMPTY);
    }
}

#[test]
fn given_fallout_choices_rust_the_steel_above() {
    let mut g = grid(3, 3);
    put(&mut g, 1, 1, FALLOUT, 5, BLANK);
    put(&mut g, 1, 0, STEEL, 0, (1.0, 0.0, 0.5));
    let mut table = vec![vec![(false, 0u8, 0u8, false); 3]; 3];
    table[1][1] = (true, 0, 33, false); // acts, upward, texture offset 33
    let events = g.tick_fallout_with(&table);
    assert_eq!(events, vec![FalloutEvent::Rusted]);
    let c = at(&g, 1, 0);
    assert_eq!(c.material, sim_engines::blast::RUST);
    assert_eq!(c.noise, 33);
    assert_eq!(c.rest, (1.0, 0.0, 0.5));
    assert_eq!(at(&g, 1, 1).fallout_ttl, 4);
}

#[test]
fn given_fallout_choices_break_glass_but_spare_unlucky_stone() {
    let mut g = grid(3, 1);
    put(&mut g, 1, 0, FALLOUT, 5, BLANK);
    put(&mut g, 0, 0, STONE, 0, BLANK);
    put(&mut g, 2, 0, GLASS, 0, BLANK);
    // Acts towards the left (3) without luck: the stone stays.
    let mut table = vec![vec![(false, 0u8, 0u8, false); 3]];
    table[0][1] = (true, 3, 0, false);
    assert!(g.tick_fallout_with(&table).is_empty());
    assert_eq!(g.cell_at(0, 0), STONE);
    // Acts towards the right (1): the glass breaks.
    table[0][1] = (true, 1, 0, false);
    assert_eq!(g.tick_fallout_with(&table), vec![FalloutEvent::GlassBroken]);
    assert_eq!(g.cell_at(2, 0), EMPTY);
}

#[test]
fn given_texture_offsets_are_painted_by_cell_index() {
    let mut g = grid(4, 4);
    let offsets: Vec<u8> = (0..16).collect();
    g.paint_with(1, 1, WOOD, 1, &offsets);
    for y in 0..4u32 {
        for x in 0..4u32 {
            let dx = x as i32 - 1;
            let dy = y as i32 - 1;
            let c = at(&g, x, y);
            if dx * dx + dy * dy <= 1 {
                assert_eq!(c.material, WOOD);
                assert_eq!(c.noise as u32, y * 4 + x);
            } else {
                assert_eq!(c.material, EMPTY);
            }
        }
    }
}
