use sim_engines::evolution::{breeding_plan, muscle_ends, muscle_index_buffer, population_size, GenerationClock, GENERATION_TICKS};
use sim_engines::synth::{select_waveform, SAWTOOTH, SINE, TRIANGLE};

#[test]
fn muscle_topology() {
    assert_eq!(muscle_index_buffer(), vec![0, 1, 2, 3, 0, 2, 1, 3, 0, 3, 1, 2]);
    assert_eq!(muscle_ends(4), (0, 3));
}

#[test]
fn population_has_at_least_four() {
    assert_eq!(population_size(0), 4);
    assert_eq!(population_size(3), 4);
    assert_eq!(population_size(4), 4);
    assert_eq!(population_size(50), 50);
}

#[test]
fn survivors_breed_in_turn() {
    assert_eq!(breeding_plan(6), vec![0, 1, 2, 0, 1, 2]);
    assert_eq!(breeding_plan(7), vec![0, 1, 2, 0, 1, 2, 0]);
    assert_eq!(breeding_plan(4), vec![0, 1, 0, 1]);
}

#[test]
fn generations_last_a_fixed_number_of_steps() {
    let mut clock = GenerationClock::new();
    assert_eq!(clock.generation(), 1);
    for step in 1..GENERATION_TICKS {
        assert!(!clock.advance());
        assert_eq!(clock.ticks_in_gen(), step);
    }
    assert!(clock.advance());
    assert_eq!(clock.generation(), 2);
    assert_eq!(clock.ticks_in_gen(), 0);
    for _ in 0..GENERATION_TICKS {
        clock.advance();
    }
    assert_eq!(clock.generation(), 3);
    clock.reset();
    assert_eq!((clock.generation(), clock.ticks_in_gen()), (1, 0));
}

#[test]
fn unknown_waveforms_are_ignored() {
    assert_eq!(select_waveform(SINE, SAWTOOTH), SAWTOOTH);
    assert_eq!(select_waveform(SINE, TRIANGLE), TRIANGLE);
    assert_eq!(select_waveform(SAWTOOTH, 4), SAWTOOTH);
    assert_eq!(select_waveform(SAWTOOTH, 255), SAWTOOTH);
}
