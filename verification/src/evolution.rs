//! The integer side of an evolving-walkers simulation: the muscle topology
//! of a creature, the population size, which survivor each member of the
//! next generation descends from, and the generation clock. Bodies, muscles
//! and DNA are floating point and stay with the caller.
use vstd::prelude::*;

verus! {

pub const POINTS_PER: usize = 4;
pub const MUSCLES_PER: usize = 6;
pub const DNA_PER_MUSCLE: usize = 3;
pub const DNA_SIZE: usize = 18;
/// Physics steps per generation (10 seconds at 60 fps).
pub const GENERATION_TICKS: u32 = 600;

/// First end point of muscle `i`.
///
///   0---1        edges: 0-1 top, 2-3 bottom, 0-2 left, 1-3 right
///   |\ /|        diagonals: 0-3 backslash, 1-2 slash
///   | X |
///   |/ \|
///   2---3
pub open spec fn muscle_a(i: int) -> usize {
    if i == 0 { 0 } else if i == 1 { 2 } else if i == 2 { 0 } else if i == 3 { 1 } else if i == 4 { 0 } else { 1 }
}

/// Second end point of muscle `i`.
pub open spec fn muscle_b(i: int) -> usize {
    if i == 0 { 1 } else if i == 1 { 3 } else if i == 2 { 2 } else if i == 3 { 3 } else if i == 4 { 3 } else { 2 }
}

/// The two points muscle `i` joins.
pub fn muscle_ends(i: usize) -> (ends: (usize, usize))
    requires
        i < MUSCLES_PER,
    ensures
        ends == (muscle_a(i as int), muscle_b(i as int)),
{
    match i {
        0 => (0, 1),
        1 => (2, 3),
        2 => (0, 2),
        3 => (1, 3),
        4 => (0, 3),
        _ => (1, 2),
    }
}

/// The topology template the page draws muscles with:
/// `[a0, b0, a1, b1, ...]`.
pub fn muscle_index_buffer() -> (buf: Vec<u32>)
    ensures
        buf@.len() == 2 * MUSCLES_PER,
        forall|i: int| 0 <= i < MUSCLES_PER ==> buf@[2 * i] == muscle_a(i) && buf@[2 * i + 1] == muscle_b(i),
{
    let mut buf: Vec<u32> = Vec::new();
    let mut i: usize = 0;
    while i < MUSCLES_PER
        invariant
            i <= MUSCLES_PER,
            buf@.len() == 2 * i,
            forall|k: int| 0 <= k < i ==> buf@[2 * k] == muscle_a(k) && buf@[2 * k + 1] == muscle_b(k),
        decreases MUSCLES_PER - i,
    {
        let (a, b) = muscle_ends(i);
        buf.push(a as u32);
        buf.push(b as u32);
        i += 1;
    }
    buf
}

/// The population size used for a requested size: at least four.
pub fn population_size(requested: u32) -> (n: usize)
    ensures
        n == (if requested < 4 { 4 } else { requested }),
{
    if requested < 4 { 4 } else { requested as usize }
}

/// Where each member of the next generation comes from: the best half
/// survives in place, and the rest are mutated copies of the survivors
/// taken in turn. Entry `i` is the index (in the fitness-sorted
/// population) of the parent of member `i`.
pub open spec fn parent_of(pop_size: int, i: int) -> int {
    let half = pop_size / 2;
    if i < half { i } else { (i - half) % half }
}

pub fn breeding_plan(pop_size: usize) -> (plan: Vec<usize>)
    requires
        pop_size >= 2,
    ensures
        plan@.len() == pop_size,
        forall|i: int| 0 <= i < pop_size ==> #[trigger] plan@[i] == parent_of(pop_size as int, i),
{
    let half = pop_size / 2;
    let mut plan: Vec<usize> = Vec::new();
    // Survivors.
    let mut i: usize = 0;
    while i < half
        invariant
            half == pop_size / 2,
            i <= half,
            plan@.len() == i,
            forall|k: int| 0 <= k < i ==> #[trigger] plan@[k] == parent_of(pop_size as int, k),
        decreases half - i,
    {
        plan.push(i);
        i += 1;
    }
    // Children.
    let mut j: usize = 0;
    while j < pop_size - half
        invariant
            pop_size >= 2,
            half == pop_size / 2,
            half >= 1,
            j <= pop_size - half,
            plan@.len() == half + j,
            forall|k: int| 0 <= k < half + j ==> #[trigger] plan@[k] == parent_of(pop_size as int, k),
        decreases pop_size - half - j,
    {
        plan.push(j % half);
        j += 1;
    }
    plan
}

/// Every parent in the plan is a survivor.
pub proof fn lemma_parents_are_survivors(pop_size: int, i: int)
    requires
        pop_size >= 2,
        0 <= i < pop_size,
    ensures
        0 <= parent_of(pop_size, i) < pop_size / 2,
{
}

// ---------------------------------------------------------------------------
// The generation clock
// ---------------------------------------------------------------------------

pub struct ClockState {
    pub generation: u32,
    pub ticks_in_gen: u32,
}

/// Counts physics steps and generations.
pub struct GenerationClock {
    generation: u32,
    ticks_in_gen: u32,
}

impl View for GenerationClock {
    type V = ClockState;

    closed spec fn view(&self) -> ClockState {
        ClockState { generation: self.generation, ticks_in_gen: self.ticks_in_gen }
    }
}

impl GenerationClock {
    /// Generation 1, no steps taken.
    pub fn new() -> (c: GenerationClock)
        ensures
            c@ == (ClockState { generation: 1, ticks_in_gen: 0 }),
    {
        GenerationClock { generation: 1, ticks_in_gen: 0 }
    }

    /// Count one physics step; reports whether it ended the generation, in
    /// which case the next generation has begun.
    pub fn advance(&mut self) -> (evolve: bool)
        requires
            old(self)@.ticks_in_gen < GENERATION_TICKS,
            old(self)@.ticks_in_gen + 1 >= GENERATION_TICKS ==> old(self)@.generation < u32::MAX,
        ensures
            evolve == (old(self)@.ticks_in_gen + 1 >= GENERATION_TICKS),
            evolve ==> final(self)@ == (ClockState { generation: (old(self)@.generation + 1) as u32, ticks_in_gen: 0 }),
            !evolve ==> final(self)@ == (ClockState { generation: old(self)@.generation, ticks_in_gen: (old(self)@.ticks_in_gen + 1) as u32 }),
            final(self)@.ticks_in_gen < GENERATION_TICKS,
    {
        self.ticks_in_gen += 1;
        if self.ticks_in_gen >= GENERATION_TICKS {
            self.generation += 1;
            self.ticks_in_gen = 0;
            true
        } else {
            false
        }
    }

    /// Back to generation 1 (a hard reset of the population).
    pub fn reset(&mut self)
        ensures
            final(self)@ == (ClockState { generation: 1, ticks_in_gen: 0 }),
    {
        self.generation = 1;
        self.ticks_in_gen = 0;
    }

    pub fn generation(&self) -> (g: u32)
        ensures
            g == self@.generation,
    {
        self.generation
    }

    pub fn ticks_in_gen(&self) -> (t: u32)
        ensures
            t == self@.ticks_in_gen,
    {
        self.ticks_in_gen
    }
}

} // verus!
