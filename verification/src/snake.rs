//! The game state of snake on a `grid_w` x `grid_h` board: the snake moves
//! one cell per tick, grows by one segment for every food it eats, and the
//! game ends when it runs into a wall or into itself.
use vstd::prelude::*;
use crate::rng::{thread_rng, random_range_i32};

verus! {

#[derive(Clone, Copy, PartialEq, Eq, Structural, Debug)]
pub enum Direction {
    Up,
    Down,
    Left,
    Right,
}

#[derive(Clone, Copy, PartialEq, Eq, Structural, Debug)]
pub struct Point {
    pub x: i32,
    pub y: i32,
}

/// What a key press asks of the game.
#[derive(Clone, Copy, PartialEq, Eq, Structural, Debug)]
pub enum KeyCommand {
    Turn(Direction),
    Restart,
    Ignore,
}

/// The abstract game.
#[verifier::ext_equal]
pub struct SnakeState {
    pub snake: Seq<Point>,
    pub direction: Direction,
    pub next_direction: Direction,
    pub food: Point,
    pub score: u32,
    pub game_over: bool,
    pub grid_w: i32,
    pub grid_h: i32,
}

/// Whether `b` is the reverse of `a`.
pub open spec fn opposite(a: Direction, b: Direction) -> bool {
    match (a, b) {
        (Direction::Up, Direction::Down) => true,
        (Direction::Down, Direction::Up) => true,
        (Direction::Left, Direction::Right) => true,
        (Direction::Right, Direction::Left) => true,
        _ => false,
    }
}

pub open spec fn in_grid(p: Point, w: int, h: int) -> bool {
    0 <= p.x < w && 0 <= p.y < h
}

/// The cell next to `p` in direction `d`.
pub open spec fn moved(p: Point, d: Direction) -> Point {
    match d {
        Direction::Up => Point { x: p.x, y: (p.y - 1) as i32 },
        Direction::Down => Point { x: p.x, y: (p.y + 1) as i32 },
        Direction::Left => Point { x: (p.x - 1) as i32, y: p.y },
        Direction::Right => Point { x: (p.x + 1) as i32, y: p.y },
    }
}

/// Whether two cells share an edge.
pub open spec fn adjacent(a: Point, b: Point) -> bool {
    ||| a.x == b.x && (a.y - b.y == 1 || b.y - a.y == 1)
    ||| a.y == b.y && (a.x - b.x == 1 || b.x - a.x == 1)
}

/// Whether some board cell is not covered by `snake`.
pub open spec fn has_free(snake: Seq<Point>, w: int, h: int) -> bool {
    exists|p: Point| in_grid(p, w, h) && !snake.contains(p)
}

/// The snake a new game starts with: three segments in the middle row,
/// heading right.
pub open spec fn initial_snake(w: i32, h: i32) -> Seq<Point> {
    seq![
        Point { x: (w / 2) as i32, y: (h / 2) as i32 },
        Point { x: (w / 2 - 1) as i32, y: (h / 2) as i32 },
        Point { x: (w / 2 - 2) as i32, y: (h / 2) as i32 }
    ]
}

/// Whether a game can be started on a `w` x `h` board: the board is not
/// empty and leaves a cell for the food.
pub open spec fn can_start_spec(w: i32, h: i32) -> bool {
    w > 0 && h > 0 && has_free(initial_snake(w, h), w as int, h as int)
}

/// The command a key stands for.
pub open spec fn key_command_spec(key: Seq<char>) -> KeyCommand {
    if key == "ArrowUp"@ || key == "w"@ || key == "W"@ {
        KeyCommand::Turn(Direction::Up)
    } else if key == "ArrowDown"@ || key == "s"@ || key == "S"@ {
        KeyCommand::Turn(Direction::Down)
    } else if key == "ArrowLeft"@ || key == "a"@ || key == "A"@ {
        KeyCommand::Turn(Direction::Left)
    } else if key == "ArrowRight"@ || key == "d"@ || key == "D"@ {
        KeyCommand::Turn(Direction::Right)
    } else if key == "r"@ || key == "R"@ {
        KeyCommand::Restart
    } else {
        KeyCommand::Ignore
    }
}

impl SnakeState {
    /// The invariant of every game reachable through the public API.
    pub open spec fn wf(self) -> bool {
        &&& self.grid_w > 0
        &&& self.grid_h > 0
        &&& self.snake.len() == self.score + 3
        &&& in_grid(self.snake[0], self.grid_w as int, self.grid_h as int)
        &&& in_grid(self.food, self.grid_w as int, self.grid_h as int)
        &&& !self.snake.contains(self.food)
        &&& forall|i: int, j: int| 0 <= i < j < self.snake.len() ==> self.snake[i] != self.snake[j]
        &&& forall|i: int| 0 <= i < self.snake.len() - 1 ==> adjacent(#[trigger] self.snake[i], self.snake[i + 1])
        &&& !opposite(self.direction, self.next_direction)
    }

    /// Where the head goes on the next tick.
    pub open spec fn new_head(self) -> Point {
        moved(self.snake[0], self.next_direction)
    }

    /// Whether the next move runs into a wall or into the body (the tail
    /// end moves away, so it does not count).
    pub open spec fn crashes(self) -> bool {
        ||| !in_grid(self.new_head(), self.grid_w as int, self.grid_h as int)
        ||| self.snake.subrange(0, self.snake.len() - 1).contains(self.new_head())
    }

    /// Whether the next tick eats the food.
    pub open spec fn eats(self) -> bool {
        !self.game_over && !self.crashes() && self.new_head() == self.food
    }

    /// The ticks that terminate: after eating there must be room for new
    /// food, and the score must not overflow.
    pub open spec fn tick_ok(self) -> bool {
        self.eats() ==> (self.score < u32::MAX && has_free(seq![self.new_head()] + self.snake, self.grid_w as int, self.grid_h as int))
    }

    /// The state after a tick that does not eat.
    pub open spec fn plain_tick(self) -> SnakeState {
        if self.game_over {
            self
        } else if self.crashes() {
            SnakeState { direction: self.next_direction, game_over: true, ..self }
        } else {
            SnakeState {
                direction: self.next_direction,
                snake: seq![self.new_head()] + self.snake.drop_last(),
                ..self
            }
        }
    }

    /// The state after eating, before new food is placed.
    pub open spec fn grown(self) -> SnakeState {
        SnakeState {
            direction: self.next_direction,
            snake: seq![self.new_head()] + self.snake,
            score: (self.score + 1) as u32,
            ..self
        }
    }

    /// The state after asking to turn towards `dir`: ignored when it would
    /// reverse the snake.
    pub open spec fn turned(self, dir: Direction) -> SnakeState {
        if opposite(self.direction, dir) { self } else { SnakeState { next_direction: dir, ..self } }
    }
}

// ---------------------------------------------------------------------------
// Laws
// ---------------------------------------------------------------------------

/// A step from a cell on the board lands next to it.
pub proof fn lemma_moved_adjacent(p: Point, d: Direction, w: int, h: int)
    requires
        in_grid(p, w, h),
        w <= i32::MAX,
        h <= i32::MAX,
    ensures
        adjacent(moved(p, d), p),
        adjacent(p, moved(p, d)),
{
}

/// A tick that does not eat keeps every invariant of the game: the snake
/// stays three segments longer than the score, its
/// segments stay distinct and joined, its head stays on the board, the
/// food stays off the snake, and the queued direction never reverses it.
pub proof fn lemma_plain_tick_keeps_wf(s: SnakeState)
    requires
        s.wf(),
        !s.eats(),
    ensures
        s.plain_tick().wf(),
{
    if s.game_over || s.crashes() {
    } else {
        let nh = s.new_head();
        let t = s.plain_tick();
        let body = s.snake.drop_last();
        lemma_moved_adjacent(s.snake[0], s.next_direction, s.grid_w as int, s.grid_h as int);
        assert(s.snake.subrange(0, s.snake.len() - 1) =~= body);
        assert forall|i: int, j: int| 0 <= i < j < t.snake.len() implies t.snake[i] != t.snake[j] by {
            if i == 0 {
                assert(t.snake[j] == body[j - 1]);
                assert(body.contains(body[j - 1]));
            } else {
                assert(t.snake[i] == s.snake[i - 1] && t.snake[j] == s.snake[j - 1]);
            }
        }
        assert forall|i: int| 0 <= i < t.snake.len() - 1 implies adjacent(#[trigger] t.snake[i], t.snake[i + 1]) by {
            if i == 0 {
                assert(t.snake[1] == s.snake[0]);
            } else {
                assert(t.snake[i] == s.snake[i - 1] && t.snake[i + 1] == s.snake[i]);
            }
        }
        assert(!t.snake.contains(s.food)) by {
            if t.snake.contains(s.food) {
                let k = choose|k: int| 0 <= k < t.snake.len() && t.snake[k] == s.food;
                if k > 0 {
                    assert(s.snake[k - 1] == s.food);
                    assert(s.snake.contains(s.food));
                }
            }
        }
    }
}

/// A tick that eats keeps the invariants once new food is placed on a
/// free cell.
pub proof fn lemma_grown_keeps_wf(s: SnakeState, food: Point)
    requires
        s.wf(),
        s.eats(),
        s.score < u32::MAX,
        in_grid(food, s.grid_w as int, s.grid_h as int),
        !s.grown().snake.contains(food),
    ensures
        (SnakeState { food, ..s.grown() }).wf(),
{
    let t = SnakeState { food, ..s.grown() };
    let nh = s.new_head();
    lemma_moved_adjacent(s.snake[0], s.next_direction, s.grid_w as int, s.grid_h as int);
    assert forall|i: int, j: int| 0 <= i < j < t.snake.len() implies t.snake[i] != t.snake[j] by {
        if i == 0 {
            assert(t.snake[j] == s.snake[j - 1]);
            assert(s.snake.contains(s.snake[j - 1]));
        } else {
            assert(t.snake[i] == s.snake[i - 1] && t.snake[j] == s.snake[j - 1]);
        }
    }
    assert forall|i: int| 0 <= i < t.snake.len() - 1 implies adjacent(#[trigger] t.snake[i], t.snake[i + 1]) by {
        if i == 0 {
            assert(t.snake[1] == s.snake[0]);
        } else {
            assert(t.snake[i] == s.snake[i - 1] && t.snake[i + 1] == s.snake[i]);
        }
    }
}

/// A finished game stays finished and unchanged.
pub proof fn lemma_game_over_is_final(s: SnakeState)
    requires
        s.game_over,
    ensures
        s.plain_tick() == s,
        !s.eats(),
{
}

/// Turning never queues a reversal.
pub proof fn lemma_turn_never_reverses(s: SnakeState, dir: Direction)
    requires
        !opposite(s.direction, s.next_direction),
    ensures
        !opposite(s.turned(dir).direction, s.turned(dir).next_direction),
{
}

// ---------------------------------------------------------------------------
// The game
// ---------------------------------------------------------------------------

/// How many random cells food placement tries before it settles for the
/// first free cell in row-major order.
pub const FOOD_ATTEMPTS: u64 = 0xFFFF_FFFF_FFFF_FFFF;

pub struct GameState {
    snake: Vec<Point>,
    direction: Direction,
    next_direction: Direction,
    food: Point,
    score: u32,
    game_over: bool,
    grid_w: i32,
    grid_h: i32,
}

impl View for GameState {
    type V = SnakeState;

    closed spec fn view(&self) -> SnakeState {
        SnakeState {
            snake: self.snake@,
            direction: self.direction,
            next_direction: self.next_direction,
            food: self.food,
            score: self.score,
            game_over: self.game_over,
            grid_w: self.grid_w,
            grid_h: self.grid_h,
        }
    }
}

/// Whether `snake[..len]` holds `p`.
fn covers(snake: &Vec<Point>, len: usize, p: Point) -> (b: bool)
    requires
        len <= snake@.len(),
    ensures
        b == snake@.subrange(0, len as int).contains(p),
{
    let mut i: usize = 0;
    while i < len
        invariant
            len <= snake@.len(),
            i <= len,
            forall|k: int| 0 <= k < i ==> snake@[k] != p,
        decreases len - i,
    {
        if snake[i] == p {
            assert(snake@.subrange(0, len as int)[i as int] == p);
            return true;
        }
        i += 1;
    }
    assert forall|k: int| 0 <= k < len implies snake@.subrange(0, len as int)[k] != p by {}
    false
}

/// The first board cell, in row-major order, that `snake` leaves free.
fn first_free_cell(snake: &Vec<Point>, w: i32, h: i32) -> (found: Option<Point>)
    ensures
        found matches Some(p) ==> in_grid(p, w as int, h as int) && !snake@.contains(p),
        found is None ==> !has_free(snake@, w as int, h as int),
{
    let mut y: i32 = 0;
    while y < h
        invariant
            0 <= y,
            h >= 0 ==> y <= h,
            forall|p: Point| 0 <= p.y < y && 0 <= p.x < w ==> snake@.contains(p),
        decreases h - y,
    {
        let mut x: i32 = 0;
        while x < w
            invariant
                0 <= y < h,
                0 <= x,
                w >= 0 ==> x <= w,
                forall|p: Point| 0 <= p.y < y && 0 <= p.x < w ==> snake@.contains(p),
                forall|p: Point| p.y == y && 0 <= p.x < x ==> snake@.contains(p),
            decreases w - x,
        {
            let p = Point { x, y };
            if !covers(snake, snake.len(), p) {
                assert(snake@.subrange(0, snake@.len() as int) =~= snake@);
                return Some(p);
            }
            assert(snake@.subrange(0, snake@.len() as int) =~= snake@);
            x += 1;
        }
        y += 1;
    }
    None
}

impl GameState {
    /// A new game: a three-segment snake in the middle heading right, and
    /// food on a random free cell.
    pub fn new(grid_w: i32, grid_h: i32) -> (g: GameState)
        requires
            can_start_spec(grid_w, grid_h),
        ensures
            g@.wf(),
            g@ == (SnakeState {
                snake: initial_snake(grid_w, grid_h),
                direction: Direction::Right,
                next_direction: Direction::Right,
                food: g@.food,
                score: 0,
                game_over: false,
                grid_w,
                grid_h,
            }),
    {
        let mid_x = grid_w / 2;
        let mid_y = grid_h / 2;
        let mut snake: Vec<Point> = Vec::new();
        snake.push(Point { x: mid_x, y: mid_y });
        snake.push(Point { x: mid_x - 1, y: mid_y });
        snake.push(Point { x: mid_x - 2, y: mid_y });
        assert(snake@ =~= initial_snake(grid_w, grid_h));
        let mut state = GameState {
            snake,
            direction: Direction::Right,
            next_direction: Direction::Right,
            food: Point { x: 0, y: 0 },
            score: 0,
            game_over: false,
            grid_w,
            grid_h,
        };
        state.spawn_food();
        proof {
            let t = state@;
            assert(t.snake[0] == Point { x: mid_x, y: mid_y });
            assert forall|i: int, j: int| 0 <= i < j < t.snake.len() implies t.snake[i] != t.snake[j] by {}
            assert forall|i: int| 0 <= i < t.snake.len() - 1 implies adjacent(#[trigger] t.snake[i], t.snake[i + 1]) by {}
        }
        state
    }

    /// Whether a game can start on a `grid_w` x `grid_h` board (see
    /// [`can_start_spec`]).
    pub fn can_start(grid_w: i32, grid_h: i32) -> (b: bool)
        ensures
            b == can_start_spec(grid_w, grid_h),
    {
        if grid_w <= 0 || grid_h <= 0 {
            return false;
        }
        let mid_x = grid_w / 2;
        let mid_y = grid_h / 2;
        let mut snake: Vec<Point> = Vec::new();
        snake.push(Point { x: mid_x, y: mid_y });
        snake.push(Point { x: mid_x - 1, y: mid_y });
        snake.push(Point { x: mid_x - 2, y: mid_y });
        assert(snake@ =~= initial_snake(grid_w, grid_h));
        let free = first_free_cell(&snake, grid_w, grid_h);
        free.is_some()
    }

    /// Put the food on `p` if `p` is a board cell the snake does not cover;
    /// reports whether it did.
    pub fn place_food(&mut self, p: Point) -> (placed: bool)
        ensures
            placed == (in_grid(p, old(self)@.grid_w as int, old(self)@.grid_h as int) && !old(self)@.snake.contains(p)),
            placed ==> final(self)@ == (SnakeState { food: p, ..old(self)@ }),
            !placed ==> final(self)@ == old(self)@,
    {
        if p.x < 0 || p.x >= self.grid_w || p.y < 0 || p.y >= self.grid_h {
            return false;
        }
        let taken = covers(&self.snake, self.snake.len(), p);
        assert(self@.snake.subrange(0, self@.snake.len() as int) =~= self@.snake);
        if !taken {
            self.food = p;
        }
        !taken
    }

    /// Move the food to a random free cell.
    fn spawn_food(&mut self)
        requires
            old(self)@.grid_w > 0,
            old(self)@.grid_h > 0,
            has_free(old(self)@.snake, old(self)@.grid_w as int, old(self)@.grid_h as int),
        ensures
            final(self)@ == (SnakeState { food: final(self)@.food, ..old(self)@ }),
            in_grid(final(self)@.food, old(self)@.grid_w as int, old(self)@.grid_h as int),
            !old(self)@.snake.contains(final(self)@.food),
    {
        let mut rng = thread_rng();
        let mut attempts: u64 = 0;
        while attempts < FOOD_ATTEMPTS
            invariant
                self@ == old(self)@,
                self@.grid_w > 0,
                self@.grid_h > 0,
            decreases FOOD_ATTEMPTS - attempts,
        {
            let p = Point {
                x: random_range_i32(&mut rng, 0, self.grid_w),
                y: random_range_i32(&mut rng, 0, self.grid_h),
            };
            if self.place_food(p) {
                return;
            }
            attempts += 1;
        }
        match first_free_cell(&self.snake, self.grid_w, self.grid_h) {
            Some(p) => {
                self.food = p;
            },
            None => {},
        }
    }

    /// Advance the game by one move.
    pub fn tick(&mut self)
        requires
            old(self)@.wf(),
            old(self)@.tick_ok(),
        ensures
            final(self)@.wf(),
            !old(self)@.eats() ==> final(self)@ == old(self)@.plain_tick(),
            old(self)@.eats() ==> final(self)@ == (SnakeState { food: final(self)@.food, ..old(self)@.grown() }),
    {
        if self.game_over {
            return;
        }
        self.direction = self.next_direction;

        let head = self.snake[0];
        let new_head = match self.direction {
            Direction::Up => Point { x: head.x, y: head.y - 1 },
            Direction::Down => Point { x: head.x, y: head.y + 1 },
            Direction::Left => Point { x: head.x - 1, y: head.y },
            Direction::Right => Point { x: head.x + 1, y: head.y },
        };
        assert(new_head == old(self)@.new_head());

        // Wall collision
        if new_head.x < 0 || new_head.x >= self.grid_w || new_head.y < 0 || new_head.y >= self.grid_h {
            self.game_over = true;
            proof {
                lemma_plain_tick_keeps_wf(old(self)@);
            }
            return;
        }

        // Self collision (skip the tail, which moves away)
        if covers(&self.snake, self.snake.len() - 1, new_head) {
            self.game_over = true;
            proof {
                lemma_plain_tick_keeps_wf(old(self)@);
            }
            return;
        }

        self.snake.insert(0, new_head);
        assert(self@.snake =~= seq![new_head] + old(self)@.snake);

        if new_head == self.food {
            self.score += 1;
            self.spawn_food();
            proof {
                lemma_grown_keeps_wf(old(self)@, self@.food);
            }
        } else {
            self.snake.pop();
            assert(self@.snake =~= seq![new_head] + old(self)@.snake.drop_last());
            proof {
                lemma_plain_tick_keeps_wf(old(self)@);
            }
        }
    }

    /// Whether the next tick terminates (see [`SnakeState::tick_ok`]).
    pub fn can_tick(&self) -> (b: bool)
        requires
            self@.wf(),
        ensures
            b == self@.tick_ok(),
    {
        if self.game_over {
            return true;
        }
        let head = self.snake[0];
        let new_head = match self.next_direction {
            Direction::Up => Point { x: head.x, y: head.y - 1 },
            Direction::Down => Point { x: head.x, y: head.y + 1 },
            Direction::Left => Point { x: head.x - 1, y: head.y },
            Direction::Right => Point { x: head.x + 1, y: head.y },
        };
        if new_head.x < 0 || new_head.x >= self.grid_w || new_head.y < 0 || new_head.y >= self.grid_h {
            return true;
        }
        if covers(&self.snake, self.snake.len() - 1, new_head) || new_head != self.food {
            return true;
        }
        if self.score == u32::MAX {
            return false;
        }
        let mut grown: Vec<Point> = Vec::new();
        grown.push(new_head);
        let mut i: usize = 0;
        while i < self.snake.len()
            invariant
                i <= self.snake@.len(),
                grown@ =~= seq![new_head] + self.snake@.subrange(0, i as int),
            decreases self.snake@.len() - i,
        {
            grown.push(self.snake[i]);
            assert(self.snake@.subrange(0, i + 1) =~= self.snake@.subrange(0, i as int).push(self.snake@[i as int]));
            i += 1;
        }
        assert(self.snake@.subrange(0, self.snake@.len() as int) =~= self.snake@);
        first_free_cell(&grown, self.grid_w, self.grid_h).is_some()
    }

    /// Queue a turn; a turn that would reverse the snake is ignored.
    pub fn set_direction(&mut self, dir: Direction)
        ensures
            final(self)@ == old(self)@.turned(dir),
            old(self)@.wf() ==> final(self)@.wf(),
    {
        let dominated = match (self.direction, dir) {
            (Direction::Up, Direction::Down) => true,
            (Direction::Down, Direction::Up) => true,
            (Direction::Left, Direction::Right) => true,
            (Direction::Right, Direction::Left) => true,
            _ => false,
        };
        if !dominated {
            self.next_direction = dir;
        }
    }

    // -- Accessors ------------------------------------------------------------

    /// The segments, head first.
    pub fn snake(&self) -> (s: &[Point])
        ensures
            s@ == self@.snake,
    {
        self.snake.as_slice()
    }

    pub fn food(&self) -> (p: Point)
        ensures
            p == self@.food,
    {
        self.food
    }

    pub fn score(&self) -> (n: u32)
        ensures
            n == self@.score,
    {
        self.score
    }

    pub fn game_over(&self) -> (b: bool)
        ensures
            b == self@.game_over,
    {
        self.game_over
    }

    pub fn grid_w(&self) -> (w: i32)
        ensures
            w == self@.grid_w,
    {
        self.grid_w
    }

    pub fn grid_h(&self) -> (h: i32)
        ensures
            h == self@.grid_h,
    {
        self.grid_h
    }

    pub fn direction(&self) -> (d: Direction)
        ensures
            d == self@.direction,
    {
        self.direction
    }
}

/// Whether two strings are equal.
fn str_equal(a: &str, b: &str) -> (eq: bool)
    ensures
        eq == (a@ == b@),
{
    let n = a.unicode_len();
    if n != b.unicode_len() {
        return false;
    }
    let mut i: usize = 0;
    while i < n
        invariant
            n == a@.len(),
            n == b@.len(),
            i <= n,
            forall|k: int| 0 <= k < i ==> a@[k] == b@[k],
        decreases n - i,
    {
        if a.get_char(i) != b.get_char(i) {
            return false;
        }
        i += 1;
    }
    assert(a@ =~= b@);
    true
}

/// The command a key stands for: arrows and WASD turn the snake, R
/// restarts, anything else is ignored.
pub fn key_command(key: &str) -> (c: KeyCommand)
    ensures
        c == key_command_spec(key@),
{
    if str_equal(key, "ArrowUp") || str_equal(key, "w") || str_equal(key, "W") {
        KeyCommand::Turn(Direction::Up)
    } else if str_equal(key, "ArrowDown") || str_equal(key, "s") || str_equal(key, "S") {
        KeyCommand::Turn(Direction::Down)
    } else if str_equal(key, "ArrowLeft") || str_equal(key, "a") || str_equal(key, "A") {
        KeyCommand::Turn(Direction::Left)
    } else if str_equal(key, "ArrowRight") || str_equal(key, "d") || str_equal(key, "D") {
        KeyCommand::Turn(Direction::Right)
    } else if str_equal(key, "r") || str_equal(key, "R") {
        KeyCommand::Restart
    } else {
        KeyCommand::Ignore
    }
}

/// The arrow key for direction `d`.
pub open spec fn arrow_key(d: Direction) -> Seq<char> {
    match d {
        Direction::Up => "ArrowUp"@,
        Direction::Down => "ArrowDown"@,
        Direction::Left => "ArrowLeft"@,
        Direction::Right => "ArrowRight"@,
    }
}

/// The WASD letter for direction `d`, in lower case or, with `upper`, in
/// upper case.
pub open spec fn wasd_key(d: Direction, upper: bool) -> Seq<char> {
    match d {
        Direction::Up => if upper { "W"@ } else { "w"@ },
        Direction::Down => if upper { "S"@ } else { "s"@ },
        Direction::Left => if upper { "A"@ } else { "a"@ },
        Direction::Right => if upper { "D"@ } else { "d"@ },
    }
}

/// Every direction has its arrow key and its WASD letter, in either case,
/// and each of them turns the snake that way; R restarts.
pub proof fn lemma_keys_turn_their_way(d: Direction, upper: bool)
    ensures
        key_command_spec(arrow_key(d)) == KeyCommand::Turn(d),
        key_command_spec(wasd_key(d, upper)) == KeyCommand::Turn(d),
        key_command_spec(wasd_key(d, upper)) == key_command_spec(arrow_key(d)),
        key_command_spec("r"@) == KeyCommand::Restart,
        key_command_spec("R"@) == KeyCommand::Restart,
{
    reveal_strlit("ArrowUp");
    reveal_strlit("ArrowDown");
    reveal_strlit("ArrowLeft");
    reveal_strlit("ArrowRight");
    reveal_strlit("w");
    reveal_strlit("W");
    reveal_strlit("s");
    reveal_strlit("S");
    reveal_strlit("a");
    reveal_strlit("A");
    reveal_strlit("d");
    reveal_strlit("D");
    reveal_strlit("r");
    reveal_strlit("R");
    assert("ArrowUp"@.len() == 7 && "ArrowDown"@.len() == 9 && "ArrowLeft"@.len() == 9 && "ArrowRight"@.len() == 10);
    assert("ArrowLeft"@[5] != "ArrowDown"@[5]);
    assert("ArrowUp"@ != "ArrowDown"@ && "ArrowUp"@ != "ArrowLeft"@ && "ArrowUp"@ != "ArrowRight"@);
    assert("ArrowDown"@ != "ArrowLeft"@ && "ArrowDown"@ != "ArrowRight"@ && "ArrowLeft"@ != "ArrowRight"@);
    let letters: Seq<Seq<char>> = seq!["w"@, "W"@, "s"@, "S"@, "a"@, "A"@, "d"@, "D"@];
    assert forall|i: int| 0 <= i < 8 implies letters[i][0] != "r"@[0] && letters[i][0] != "R"@[0]
        && letters[i] != "r"@ && letters[i] != "R"@ by {}
    assert forall|i: int, j: int| 0 <= i < j < 8 implies letters[i][0] != letters[j][0] && letters[i] != letters[j] by {}
}

/// The absolute value.
pub open spec fn abs(v: int) -> int {
    if v < 0 { -v } else { v }
}

/// The turn a swipe by (`dx`, `dy`) pixels asks for: along its longer axis
/// when it is longer than 20 pixels on some axis, none (a tap) otherwise.
pub open spec fn swipe_spec(dx: int, dy: int) -> Option<Direction> {
    if abs(dx) > 20 || abs(dy) > 20 {
        if abs(dx) > abs(dy) {
            Some(if dx > 0 { Direction::Right } else { Direction::Left })
        } else {
            Some(if dy > 0 { Direction::Down } else { Direction::Up })
        }
    } else {
        None
    }
}

/// Classify a touch that moved by (`dx`, `dy`) pixels (see [`swipe_spec`]).
pub fn swipe_direction(dx: i64, dy: i64) -> (d: Option<Direction>)
    requires
        dx > i64::MIN,
        dy > i64::MIN,
    ensures
        d == swipe_spec(dx as int, dy as int),
{
    let ax = if dx < 0 { -dx } else { dx };
    let ay = if dy < 0 { -dy } else { dy };
    if ax > 20 || ay > 20 {
        if ax > ay {
            Some(if dx > 0 { Direction::Right } else { Direction::Left })
        } else {
            Some(if dy > 0 { Direction::Down } else { Direction::Up })
        }
    } else {
        None
    }
}

/// The score of the running game `g`, as reported to the page.
pub fn get_score(g: &GameState) -> (score: u32)
    ensures
        score == g@.score,
{
    g.score
}

} // verus!
