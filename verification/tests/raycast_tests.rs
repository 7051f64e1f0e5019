use sim_engines::raycast::{
    blend_minimap, draw_column, draw_column_no_wall, draw_minimap_border, draw_player_dot, draw_span,
    generate_map, is_open_cell, shade_side, MAP_H, MAP_SIZE, MAP_W,
};
use sim_engines::frame::set_pixel_if;

fn pixel(p: &[u8], w: usize, x: usize, y: usize) -> [u8; 4] {
    let i = (y * w + x) * 4;
    [p[i], p[i + 1], p[i + 2], p[i + 3]]
}

#[test]
fn maze_is_closed_and_start_is_open() {
    let m = generate_map();
    assert_eq!(m.len(), MAP_SIZE);
    for k in 0..64 {
        assert_eq!(m[k], 1);
        assert_eq!(m[63 * 64 + k], 1);
        assert_eq!(m[k * 64], 1);
        assert_eq!(m[k * 64 + 63], 1);
    }
    assert!(is_open_cell(&m, 3, 3));
    assert!(m.iter().all(|&c| c <= 1));
}

#[test]
fn maze_has_its_walls_and_pillars() {
    let m = generate_map();
    // horizontal wall (1, 8) .. (20, 8)
    for x in 1..=20 {
        assert_eq!(m[8 * MAP_W + x], 1);
    }
    assert_eq!(m[8 * MAP_W + 21], 0);
    // vertical wall (10, 1) .. (10, 6)
    for y in 1..=6 {
        assert_eq!(m[y * MAP_W + 10], 1);
    }
    assert_eq!(m[7 * MAP_W + 10], 0);
    // pillar at (15, 12)
    assert_eq!(m[12 * MAP_W + 15], 1);
    assert_eq!(m[13 * MAP_W + 16], 1);
    assert_eq!(m[14 * MAP_W + 15], 0);
}

#[test]
fn off_map_cells_are_walls() {
    let m = generate_map();
    assert!(!is_open_cell(&m, MAP_W, 3));
    assert!(!is_open_cell(&m, 3, MAP_H));
    assert!(!is_open_cell(&m, 0, 0));
}

#[test]
fn wall_span_is_centred_and_clipped() {
    assert_eq!(draw_span(40, 100), (30, 70));
    assert_eq!(draw_span(300, 100), (0, 100));
    assert_eq!(draw_span(0, 100), (50, 50));
    assert_eq!(draw_span(41, 101), (30, 70));
}

#[test]
fn y_side_walls_are_darker() {
    assert_eq!(shade_side(200, 101, 3, 1), (100, 50, 1));
    assert_eq!(shade_side(200, 101, 3, 0), (200, 101, 3));
}

#[test]
fn columns_have_ceiling_wall_and_floor() {
    let (w, h) = (3usize, 6usize);
    let mut p = vec![7u8; w * h * 4];
    draw_column(&mut p, w, h, 1, 2, 4, 10, 20, 30);
    assert_eq!(pixel(&p, w, 1, 0), [0x22, 0x22, 0x28, 0xFF]);
    assert_eq!(pixel(&p, w, 1, 1), [0x22, 0x22, 0x28, 0xFF]);
    assert_eq!(pixel(&p, w, 1, 2), [10, 20, 30, 0xFF]);
    assert_eq!(pixel(&p, w, 1, 3), [10, 20, 30, 0xFF]);
    assert_eq!(pixel(&p, w, 1, 4), [0x30, 0x24, 0x18, 0xFF]);
    assert_eq!(pixel(&p, w, 1, 5), [0x30, 0x24, 0x18, 0xFF]);
    assert_eq!(pixel(&p, w, 0, 3), [7, 7, 7, 7]);
    assert_eq!(pixel(&p, w, 2, 3), [7, 7, 7, 7]);
}

#[test]
fn columns_without_wall_split_at_the_middle() {
    let (w, h) = (2usize, 5usize);
    let mut p = vec![0u8; w * h * 4];
    draw_column_no_wall(&mut p, w, h, 0);
    assert_eq!(pixel(&p, w, 0, 1), [0x22, 0x22, 0x28, 0xFF]);
    assert_eq!(pixel(&p, w, 0, 2), [0x30, 0x24, 0x18, 0xFF]);
    assert_eq!(pixel(&p, w, 1, 2), [0, 0, 0, 0]);
}

#[test]
fn minimap_blends_map_over_frame() {
    let m = generate_map();
    let (w, h) = (140usize, 140usize);
    let mut p = vec![0u8; w * h * 4];
    blend_minimap(&mut p, w, h, &m);
    // map cell (0,0) is a wall: slate at 80% over black
    assert_eq!(pixel(&p, w, 4, 4), [(0x66 * 0xCC / 255) as u8, (0x66 * 0xCC / 255) as u8, (0x88 * 0xCC / 255) as u8, 0xFF]);
    assert_eq!(pixel(&p, w, 5, 5), pixel(&p, w, 4, 4));
    // map cell (3,3) is open floor
    assert_eq!(pixel(&p, w, 4 + 6, 4 + 6), [(0x11 * 0xAA / 255) as u8, (0x11 * 0xAA / 255) as u8, (0x18 * 0xAA / 255) as u8, 0xFF]);
    // outside the minimap nothing changes
    assert_eq!(pixel(&p, w, 3, 3), [0, 0, 0, 0]);
    assert_eq!(pixel(&p, w, 132, 10), [0, 0, 0, 0]);
}

#[test]
fn minimap_is_clipped_to_small_frames() {
    let m = generate_map();
    let (w, h) = (6usize, 5usize);
    let mut p = vec![255u8; w * h * 4];
    blend_minimap(&mut p, w, h, &m);
    assert_eq!(pixel(&p, w, 5, 4)[3], 0xFF);
    assert_eq!(pixel(&p, w, 3, 4), [255, 255, 255, 255]);
}

#[test]
fn minimap_border_and_player_dot() {
    let (w, h) = (140usize, 140usize);
    let mut p = vec![0u8; w * h * 4];
    draw_minimap_border(&mut p, w, h);
    assert_eq!(pixel(&p, w, 4, 3), [0x44, 0x44, 0x55, 0xFF]);
    assert_eq!(pixel(&p, w, 131, 132), [0x44, 0x44, 0x55, 0xFF]);
    assert_eq!(pixel(&p, w, 3, 50), [0x44, 0x44, 0x55, 0xFF]);
    assert_eq!(pixel(&p, w, 132, 50), [0x44, 0x44, 0x55, 0xFF]);
    assert_eq!(pixel(&p, w, 3, 3), [0, 0, 0, 0]);
    assert_eq!(pixel(&p, w, 50, 50), [0, 0, 0, 0]);
    draw_player_dot(&mut p, w, h, 11, 11);
    assert_eq!(pixel(&p, w, 12, 12), [0x00, 0xFF, 0x00, 0xFF]);
    assert_eq!(pixel(&p, w, 13, 12), [0, 0, 0, 0]);
    // clipped at the frame edge
    draw_player_dot(&mut p, w, h, 139, 139);
    assert_eq!(pixel(&p, w, 139, 139), [0x00, 0xFF, 0x00, 0xFF]);
}

#[test]
fn set_pixel_ignores_points_off_the_frame() {
    let mut p = vec![0u8; 2 * 2 * 4];
    set_pixel_if(&mut p, 2, 2, 2, 0, 1, 2, 3);
    assert!(p.iter().all(|&b| b == 0));
    set_pixel_if(&mut p, 2, 2, 1, 1, 1, 2, 3);
    assert_eq!(pixel(&p, 2, 1, 1), [1, 2, 3, 0xFF]);
}
