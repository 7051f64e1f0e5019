use sim_engines::snake::{get_score, key_command, swipe_direction, Direction, GameState, KeyCommand, Point};

fn game(w: i32, h: i32) -> GameState {
    assert!(GameState::can_start(w, h));
    GameState::new(w, h)
}

#[test]
fn new_game_layout() {
    let g = game(10, 8);
    assert_eq!(g.snake(), &[Point { x: 5, y: 4 }, Point { x: 4, y: 4 }, Point { x: 3, y: 4 }]);
    assert_eq!(g.score(), 0);
    assert!(!g.game_over());
    assert_eq!(g.direction(), Direction::Right);
    let f = g.food();
    assert!(f.x >= 0 && f.x < 10 && f.y >= 0 && f.y < 8);
    assert!(!g.snake().contains(&f));
}

#[test]
fn food_always_lands_on_a_free_cell() {
    for _ in 0..200 {
        let g = game(4, 1);
        // the snake covers (2,0), (1,0), (0,0): only (3,0) is free
        assert_eq!(g.food(), Point { x: 3, y: 0 });
    }
}

#[test]
fn moves_one_cell_per_tick() {
    let mut g = game(10, 10);
    assert!(g.place_food(Point { x: 0, y: 0 }));
    g.tick();
    assert_eq!(g.snake(), &[Point { x: 6, y: 5 }, Point { x: 5, y: 5 }, Point { x: 4, y: 5 }]);
    g.set_direction(Direction::Down);
    g.tick();
    assert_eq!(g.snake()[0], Point { x: 6, y: 6 });
    assert_eq!(g.snake().len(), 3);
}

#[test]
fn eating_grows_and_scores() {
    let mut g = game(10, 10);
    assert!(g.place_food(Point { x: 6, y: 5 }));
    g.tick();
    assert_eq!(g.score(), 1);
    assert_eq!(g.snake().len(), 4);
    assert_eq!(g.snake()[0], Point { x: 6, y: 5 });
    assert!(!g.snake().contains(&g.food()));
}

#[test]
fn food_cannot_be_placed_on_the_snake_or_off_the_board() {
    let mut g = game(10, 10);
    let before = g.food();
    assert!(!g.place_food(Point { x: 5, y: 5 }));
    assert!(!g.place_food(Point { x: 10, y: 0 }));
    assert!(!g.place_food(Point { x: -1, y: 3 }));
    assert_eq!(g.food(), before);
}

#[test]
fn hitting_a_wall_ends_the_game() {
    let mut g = game(4, 4);
    assert!(g.place_food(Point { x: 0, y: 0 }));
    g.tick();
    g.tick();
    assert!(g.game_over());
    assert_eq!(g.snake()[0], Point { x: 3, y: 2 });
    // a finished game does not move
    let snake: Vec<Point> = g.snake().to_vec();
    g.set_direction(Direction::Up);
    g.tick();
    assert_eq!(g.snake(), snake.as_slice());
    assert!(g.game_over());
}

#[test]
fn reversal_is_ignored() {
    let mut g = game(10, 10);
    assert!(g.place_food(Point { x: 0, y: 0 }));
    g.set_direction(Direction::Left);
    g.tick();
    assert_eq!(g.snake()[0], Point { x: 6, y: 5 });
    assert!(!g.game_over());
}

#[test]
fn running_into_the_body_ends_the_game() {
    let mut g = game(10, 10);
    // grow to length 5 by eating twice to the right
    assert!(g.place_food(Point { x: 6, y: 5 }));
    g.tick();
    assert!(g.place_food(Point { x: 7, y: 5 }));
    g.tick();
    assert!(g.place_food(Point { x: 0, y: 0 }));
    assert_eq!(g.snake().len(), 5);
    // down, left, up: the head meets the body
    g.set_direction(Direction::Down);
    g.tick();
    g.set_direction(Direction::Left);
    g.tick();
    g.set_direction(Direction::Up);
    g.tick();
    assert!(g.game_over());
}

#[test]
fn chasing_the_tail_is_allowed() {
    // a 2x2 loop: the head moves into the cell the tail is leaving
    let mut g = game(10, 10);
    assert!(g.place_food(Point { x: 6, y: 5 }));
    g.tick(); // length 4: (6,5) (5,5) (4,5) (3,5)
    assert!(g.place_food(Point { x: 0, y: 0 }));
    g.set_direction(Direction::Down);
    g.tick(); // (6,6) (6,5) (5,5) (4,5)
    g.set_direction(Direction::Left);
    g.tick(); // (5,6) (6,6) (6,5) (5,5)
    g.set_direction(Direction::Up);
    g.tick(); // into (5,5), which the tail leaves
    assert!(!g.game_over());
    assert_eq!(g.snake()[0], Point { x: 5, y: 5 });
}

#[test]
fn boards_without_room_cannot_start() {
    assert!(!GameState::can_start(0, 5));
    assert!(!GameState::can_start(5, -1));
    assert!(!GameState::can_start(1, 1));
    assert!(!GameState::can_start(2, 1));
    assert!(GameState::can_start(3, 1));
}

#[test]
fn keys_map_to_commands() {
    assert_eq!(key_command("ArrowUp"), KeyCommand::Turn(Direction::Up));
    assert_eq!(key_command("w"), KeyCommand::Turn(Direction::Up));
    assert_eq!(key_command("S"), KeyCommand::Turn(Direction::Down));
    assert_eq!(key_command("ArrowLeft"), KeyCommand::Turn(Direction::Left));
    assert_eq!(key_command("d"), KeyCommand::Turn(Direction::Right));
    assert_eq!(key_command("R"), KeyCommand::Restart);
    assert_eq!(key_command("x"), KeyCommand::Ignore);
    assert_eq!(key_command("ArrowUpp"), KeyCommand::Ignore);
    assert_eq!(key_command(""), KeyCommand::Ignore);
}

#[test]
fn score_reported_to_the_page_follows_the_game() {
    let mut g = game(10, 1);
    assert_eq!(get_score(&g), 0);
    // Snake covers x = 3..=5 heading right; put food right in front of it.
    assert!(g.place_food(Point { x: 6, y: 0 }));
    g.tick();
    assert_eq!(g.score(), 1);
    assert_eq!(get_score(&g), 1);
}

#[test]
fn full_board_after_eating_cannot_tick() {
    // 4x1 board: snake covers three cells, food on the last one
    let g = game(4, 1);
    assert!(!g.can_tick());
    let g = game(5, 1);
    assert!(g.can_tick());
}

#[test]
fn swipes_turn_along_their_longer_axis_and_taps_do_not() {
    assert_eq!(swipe_direction(30, 5), Some(Direction::Right));
    assert_eq!(swipe_direction(-30, 25), Some(Direction::Left));
    assert_eq!(swipe_direction(10, 21), Some(Direction::Down));
    assert_eq!(swipe_direction(-21, -21), Some(Direction::Up));
    assert_eq!(swipe_direction(20, -20), None);
    assert_eq!(swipe_direction(0, 0), None);
}
