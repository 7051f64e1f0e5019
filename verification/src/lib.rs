//! Verified cores of a set of small browser simulations: a CHIP-8
//! interpreter, a falling-sand cellular automaton and a snake game, and the
//! integer parts of a raycaster, a blast simulator (its bomb list and its
//! material grid), a fractal explorer, an evolving-walkers simulation and a
//! synthesizer. Random choices come from the `rand` crate; every function
//! that makes one is specified for every value it could draw.

mod rng;
pub mod chip8;
pub mod sand;
pub mod snake;
pub mod frame;
pub mod raycast;
pub mod blast;
pub mod blast_grid;
pub mod fractal;
pub mod evolution;
pub mod synth;
