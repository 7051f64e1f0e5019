use sim_engines::blast::{empty_cell_rgba, melt_outcome, Melt, ASH};
use sim_engines::blast::{
    darken_edges, marker_color, marker_covers, material_at, material_color, textured_channel, BombList, PlacedBomb,
    BOMB_C4, BOMB_DIRTY, BOMB_THERMITE, EMPTY, GLASS, RUST, STEEL, STONE, WOOD,
};

#[test]
fn material_colours() {
    assert_eq!(material_color(WOOD), [139, 90, 43, 255]);
    assert_eq!(material_color(GLASS), [170, 215, 230, 200]);
    assert_eq!(material_color(RUST), [160, 80, 30, 255]);
    assert_eq!(material_color(EMPTY), [0, 0, 0, 0]);
    assert_eq!(material_color(200), [0, 0, 0, 0]);
}

#[test]
fn texture_offsets_are_clamped() {
    assert_eq!(textured_channel(100, 20), 100);
    assert_eq!(textured_channel(100, 39), 119);
    assert_eq!(textured_channel(100, 0), 80);
    assert_eq!(textured_channel(5, 0), 0);
    assert_eq!(textured_channel(250, 39), 255);
}

#[test]
fn material_lookup_reads_empty_off_the_grid() {
    let mats = vec![WOOD, STONE, STEEL, GLASS, EMPTY, RUST];
    assert_eq!(material_at(&mats, 3, 2, 0, 0), WOOD);
    assert_eq!(material_at(&mats, 3, 2, 2, 1), RUST);
    assert_eq!(material_at(&mats, 3, 2, 3, 0), EMPTY);
    assert_eq!(material_at(&mats, 3, 2, 0, 2), EMPTY);
}

#[test]
fn edges_are_darkened() {
    // 3x3 grid: wood everywhere except stone in the middle right
    let (w, h) = (4usize, 3usize);
    let mats = vec![WOOD, WOOD, WOOD, WOOD, WOOD, WOOD, STONE, WOOD, WOOD, WOOD, WOOD, WOOD];
    let mut px = vec![100u8; w * h * 4];
    darken_edges(&mats, &mut px, w, h);
    // (1,1) borders stone on its right: darkened, alpha kept
    assert_eq!(&px[(1 * w + 1) * 4..(1 * w + 1) * 4 + 4], &[70, 70, 70, 100]);
    // (2,1) is the stone: different from its neighbours
    assert_eq!(&px[(1 * w + 2) * 4..(1 * w + 2) * 4 + 4], &[70, 70, 70, 100]);
    // border cells are never touched
    assert_eq!(&px[0..4], &[100, 100, 100, 100]);
    assert_eq!(&px[(1 * w + 3) * 4..(1 * w + 3) * 4 + 4], &[100, 100, 100, 100]);
}

#[test]
fn empty_cells_get_no_outline() {
    let (w, h) = (3usize, 3usize);
    let mats = vec![WOOD, WOOD, WOOD, WOOD, EMPTY, WOOD, WOOD, WOOD, WOOD];
    let mut px = vec![50u8; w * h * 4];
    darken_edges(&mats, &mut px, w, h);
    assert!(px.iter().all(|&b| b == 50));
}

#[test]
fn single_row_frames_are_left_alone() {
    let mats = vec![WOOD, STONE];
    let mut px = vec![9u8; 8];
    darken_edges(&mats, &mut px, 2, 1);
    assert!(px.iter().all(|&b| b == 9));
}

#[test]
fn bombs_are_taken_in_order_with_their_type_mask() {
    let mut bombs = BombList::new();
    assert_eq!(bombs.bomb_count(), 0);
    bombs.place_bomb(5, 6, BOMB_DIRTY);
    bombs.place_bomb(1, 2, BOMB_C4);
    bombs.place_bomb(3, 3, BOMB_C4);
    assert_eq!(bombs.bomb_count(), 3);
    let (taken, mask) = bombs.take_all();
    assert_eq!(taken, vec![
        PlacedBomb { x: 5, y: 6, bomb_type: BOMB_DIRTY },
        PlacedBomb { x: 1, y: 2, bomb_type: BOMB_C4 },
        PlacedBomb { x: 3, y: 3, bomb_type: BOMB_C4 },
    ]);
    assert_eq!(mask, 0b101);
    assert_eq!(bombs.bomb_count(), 0);
    let (taken, mask) = bombs.take_all();
    assert!(taken.is_empty());
    assert_eq!(mask, 0);
}

#[test]
fn clearing_bombs() {
    let mut bombs = BombList::new();
    bombs.place_bomb(0, 0, BOMB_THERMITE);
    assert_eq!(bombs.bombs()[0].bomb_type, BOMB_THERMITE);
    bombs.clear_bombs();
    assert_eq!(bombs.bomb_count(), 0);
}

#[test]
fn bomb_markers() {
    assert_eq!(marker_color(BOMB_C4), (255, 160, 40));
    assert_eq!(marker_color(BOMB_THERMITE), (255, 60, 60));
    assert_eq!(marker_color(BOMB_DIRTY), (60, 255, 80));
    assert_eq!(marker_color(7), (255, 255, 255));
    assert!(marker_covers(0, 0));
    assert!(marker_covers(0, -6));
    assert!(!marker_covers(1, -6));
    assert!(marker_covers(5, 0));
    assert!(!marker_covers(2, 2));
    assert!(marker_covers(3, 3));
    assert!(!marker_covers(3, 2));
    assert!(marker_covers(4, 3));
    assert!(!marker_covers(5, 5));
    assert!(!marker_covers(6, 6));
}

#[test]
fn melting_and_background() {
    assert_eq!(empty_cell_rgba(), [18, 18, 22, 255]);
    assert_eq!(melt_outcome(STEEL), Melt::Liquefies);
    assert_eq!(melt_outcome(WOOD), Melt::Chars);
    assert_eq!(melt_outcome(GLASS), Melt::Shatters);
    assert_eq!(melt_outcome(STONE), Melt::Burns);
    assert_eq!(melt_outcome(RUST), Melt::Burns);
    assert_eq!(melt_outcome(ASH), Melt::Burns);
}
