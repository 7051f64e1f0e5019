use sim_engines::sand::{Universe, EMPTY, SAND, WATER, STONE, WOOD, FIRE, SMOKE, PLANT, STEAM};

fn count(u: &Universe, kind: u8) -> usize {
    let mut n = 0;
    for y in 0..u.height() {
        for x in 0..u.width() {
            if u.cell_at(x, y) == kind {
                n += 1;
            }
        }
    }
    n
}

#[test]
fn new_world_is_empty() {
    let u = Universe::new(4, 3);
    assert_eq!(u.width(), 4);
    assert_eq!(u.height(), 3);
    assert_eq!(u.pixels_len(), 48);
    assert_eq!(count(&u, EMPTY), 12);
}

#[test]
fn paint_fills_a_disc() {
    let mut u = Universe::new(5, 5);
    u.paint(2, 2, WOOD, 1);
    // radius 1: the centre and its four neighbours, not the corners
    assert_eq!(count(&u, WOOD), 5);
    assert_eq!(u.cell_at(2, 1), WOOD);
    assert_eq!(u.cell_at(1, 1), EMPTY);
    u.paint(0, 0, FIRE, 0);
    assert_eq!(u.cell_at(0, 0), FIRE);
    assert_eq!(u.life_at(0, 0), 40);
    u.paint(4, 4, STEAM, 0);
    assert_eq!(u.life_at(4, 4), 80);
    // a disc partly off the grid is clipped
    u.paint(-1, 4, STONE, 1);
    assert_eq!(u.cell_at(0, 4), STONE);
    // a negative radius paints nothing
    u.paint(3, 3, SAND, -2);
    assert_eq!(count(&u, SAND), 0);
}

#[test]
fn sand_falls_one_cell_per_tick() {
    let mut u = Universe::new(3, 3);
    u.paint(1, 0, SAND, 0);
    u.tick();
    assert_eq!(u.cell_at(1, 1), SAND);
    assert_eq!(u.cell_at(1, 0), EMPTY);
    u.tick();
    assert_eq!(u.cell_at(1, 2), SAND);
    u.tick();
    assert_eq!(u.cell_at(1, 2), SAND);
}

#[test]
fn sand_sinks_through_water() {
    let mut u = Universe::new(1, 2);
    u.paint(0, 0, SAND, 0);
    u.paint(0, 1, WATER, 0);
    u.tick();
    assert_eq!(u.cell_at(0, 1), SAND);
    assert_eq!(u.cell_at(0, 0), WATER);
}

#[test]
fn sand_slides_off_a_pile() {
    let mut u = Universe::new(3, 2);
    u.paint(1, 1, STONE, 0);
    u.paint(1, 0, SAND, 0);
    u.tick();
    assert_eq!(u.cell_at(1, 1), STONE);
    assert!(u.cell_at(0, 1) == SAND || u.cell_at(2, 1) == SAND);
    assert_eq!(u.cell_at(1, 0), EMPTY);
}

#[test]
fn water_spreads_sideways_on_the_floor() {
    let mut u = Universe::new(3, 1);
    u.paint(1, 0, WATER, 0);
    u.tick();
    assert_eq!(count(&u, WATER), 1);
    assert_eq!(count(&u, EMPTY), 2);
}

#[test]
fn smoke_rises_and_ages() {
    let mut u = Universe::new(1, 3);
    u.paint(0, 2, SMOKE, 0);
    u.tick();
    // rows are processed bottom to top, so the rising smoke is met again
    // in every row it enters and ages each time
    assert_eq!(u.cell_at(0, 0), SMOKE);
    assert_eq!(u.life_at(0, 0), 57);
}

#[test]
fn water_puts_out_fire() {
    let mut u = Universe::new(3, 3);
    u.paint(0, 0, FIRE, 0);
    u.paint(1, 0, WATER, 0);
    u.tick();
    assert_eq!(count(&u, FIRE), 0);
    assert_eq!(count(&u, WATER), 0);
    assert_eq!(count(&u, SMOKE), 1);
    assert_eq!(count(&u, STEAM), 1);
}

#[test]
fn stone_never_moves_and_sand_is_conserved() {
    let mut u = Universe::new(12, 10);
    u.paint(5, 2, SAND, 2);
    u.paint(8, 1, WATER, 2);
    u.paint(2, 7, STONE, 1);
    u.paint(9, 8, WOOD, 1);
    u.paint(9, 6, FIRE, 0);
    u.paint(3, 3, PLANT, 0);
    u.paint(4, 3, WATER, 0);
    u.paint(6, 6, STEAM, 1);
    let stone_before: Vec<(u32, u32)> = (0..10)
        .flat_map(|y| (0..12).map(move |x| (x, y)))
        .filter(|&(x, y)| u.cell_at(x, y) == STONE)
        .collect();
    let sand_before = count(&u, SAND);
    for _ in 0..60 {
        u.tick();
        assert_eq!(count(&u, SAND), sand_before);
        for &(x, y) in &stone_before {
            assert_eq!(u.cell_at(x, y), STONE);
        }
        assert_eq!(count(&u, STONE), stone_before.len());
        for y in 0..10 {
            for x in 0..12 {
                assert!(u.cell_at(x, y) <= STEAM);
            }
        }
    }
}

#[test]
fn render_writes_colours() {
    let mut u = Universe::new(2, 1);
    u.paint(0, 0, SAND, 0);
    u.render();
    assert_eq!(&u.pixels()[0..4], &[0xE0, 0xC0, 0x68, 0xFF]);
    assert_eq!(&u.pixels()[4..8], &[0x1C, 0x1C, 0x24, 0xFF]);
}

#[test]
fn fire_colour_flickers_by_position() {
    let mut u = Universe::new(3, 1);
    u.paint(0, 0, FIRE, 0);
    u.paint(1, 0, FIRE, 0);
    u.paint(2, 0, FIRE, 0);
    u.render();
    for i in 0..3usize {
        let shade = (i.wrapping_mul(2654435761) >> 4) % 3;
        let g = [0x44, 0x88, 0xCC][shade];
        assert_eq!(&u.pixels()[i * 4..i * 4 + 4], &[0xFF, g, 0x00, 0xFF]);
    }
}

#[test]
fn clear_empties_the_world() {
    let mut u = Universe::new(3, 3);
    u.paint(1, 1, FIRE, 1);
    u.clear();
    assert_eq!(count(&u, EMPTY), 9);
    assert_eq!(u.life_at(1, 1), 0);
}

/// Step choices for a `w` x `h` world: every row scanned left to right,
/// every cell with the same choices.
fn choices(w: usize, h: usize, cell: (bool, bool, Vec<bool>)) -> Vec<(bool, Vec<(bool, bool, Vec<bool>)>)> {
    (0..h).map(|_| (true, vec![cell.clone(); w])).collect()
}

#[test]
fn given_choices_steer_sliding_sand() {
    for (left_first, lands) in [(true, 0u32), (false, 2u32)] {
        let mut u = Universe::new(3, 2);
        u.paint(1, 0, SAND, 0);
        u.paint(1, 1, STONE, 0);
        u.tick_with(&choices(3, 2, (left_first, false, vec![false; 8])));
        assert_eq!(u.cell_at(1, 0), EMPTY);
        assert_eq!(u.cell_at(lands, 1), SAND);
        assert_eq!(u.cell_at(2 - lands, 1), EMPTY);
    }
}

#[test]
fn given_choices_decide_what_fire_ignites() {
    // Fire at (1,1) with wood to its left (neighbour 3) and right
    // (neighbour 4); only the left one is ignited, and the fire does not
    // flicker upward.
    let mut ignite = vec![false; 8];
    ignite[3] = true;
    let mut u = Universe::new(3, 3);
    u.paint(0, 1, WOOD, 0);
    u.paint(2, 1, WOOD, 0);
    u.paint(1, 1, FIRE, 0);
    let mut table = choices(3, 3, (false, false, vec![false; 8]));
    // Row y = 1 is entry 1; (1,1) is scan position 1.
    table[1].1[1] = (false, false, ignite);
    u.tick_with(&table);
    assert_eq!(u.cell_at(1, 1), FIRE);
    assert_eq!(u.life_at(1, 1), 39);
    assert_eq!(u.cell_at(0, 1), FIRE);
    assert_eq!(u.cell_at(2, 1), WOOD);
}

#[test]
fn given_choices_set_the_scan_direction() {
    // Water on the floor of a 3x1 world spreading left first. Scanned left
    // to right it moves once, to (0,0); scanned right to left it moves to
    // (0,0) and is met again at (0,0), where the left is off the grid, so it
    // moves back right.
    for (left_to_right, lands) in [(true, 0u32), (false, 1u32)] {
        let mut u = Universe::new(3, 1);
        u.paint(1, 0, WATER, 0);
        let table = vec![(left_to_right, vec![(true, true, vec![false; 8]); 3])];
        u.tick_with(&table);
        for x in 0..3u32 {
            assert_eq!(u.cell_at(x, 0) == WATER, x == lands);
        }
    }
}
