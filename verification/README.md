# sim_engines

Verified cores of small browser simulations, written in Verus.

- `src/` is the library. Each module states its behaviour in `requires` /
  `ensures` contracts over a mathematical model of its state, and Verus
  proves them:
  - `chip8`: a CHIP-8 interpreter (fetch, decode, execute, timers, keys).
  - `sand`: a falling-sand automaton (sand, water, fire, smoke, steam,
    plants) with its painting and rendering.
  - `snake`: the snake game state.
  - `raycast`, `frame`: the maze and the column and minimap drawing of a
    raycaster.
  - `blast`, `blast_grid`: the bomb list, colours, outlines and the
    material grid of a blast simulator.
  - `fractal`, `evolution`, `synth`: the integer parts of a Mandelbrot
    explorer, an evolving-walkers simulation and a synthesizer.
  - `rng`: the calls into the `rand` crate, with what they promise.
- `tests/` runs the library on concrete inputs.
- `app/` binds everything to JavaScript with `wasm-bindgen` and holds what
  works in floating point (cameras, explosions, particles, oscillators,
  physics, flocking) and the WebGL drawing of the snake game.
