use sim_engines::chip8::Cpu;

fn cpu_with(rom: &[u8]) -> Cpu {
    let mut cpu = Cpu::new();
    cpu.load_rom(rom);
    cpu
}

fn run(cpu: &mut Cpu, steps: usize) {
    for _ in 0..steps {
        assert!(cpu.can_tick_cpu());
        cpu.tick_cpu_with(0);
    }
}

#[test]
fn power_on_state() {
    let cpu = Cpu::new();
    assert_eq!(cpu.pc(), 0x200);
    assert_eq!(cpu.i_reg(), 0);
    assert_eq!(cpu.sp(), 0);
    assert_eq!(cpu.memory(0), 0xF0);
    assert_eq!(cpu.memory(5), 0x20);
    assert_eq!(cpu.memory(79), 0x80);
    assert_eq!(cpu.memory(80), 0);
    assert!(cpu.display().iter().all(|&p| p == 0));
    assert!(!cpu.sound_active());
    assert_eq!(cpu.display_len(), 2048);
    assert_eq!(cpu.display_width(), 64);
    assert_eq!(cpu.display_height(), 32);
}

#[test]
fn load_immediate_and_wrapping_add() {
    // V0 = 0xFF; V0 += 2 (wraps to 1, VF untouched)
    let mut cpu = cpu_with(&[0x60, 0xFF, 0x70, 0x02]);
    run(&mut cpu, 2);
    assert_eq!(cpu.register(0), 1);
    assert_eq!(cpu.register(15), 0);
    assert_eq!(cpu.pc(), 0x204);
}

#[test]
fn add_sets_carry() {
    // V0 = 200, V1 = 100, V0 += V1
    let mut cpu = cpu_with(&[0x60, 200, 0x61, 100, 0x80, 0x14]);
    run(&mut cpu, 3);
    assert_eq!(cpu.register(0), 44);
    assert_eq!(cpu.register(15), 1);
    // the sum is the result plus 256 times the carry
    assert_eq!(cpu.register(0) as u32 + 256 * cpu.register(15) as u32, 300);
}

#[test]
fn sub_sets_not_borrow() {
    let mut cpu = cpu_with(&[0x60, 5, 0x61, 7, 0x80, 0x15]);
    run(&mut cpu, 3);
    assert_eq!(cpu.register(0), 254);
    assert_eq!(cpu.register(15), 0);
    let mut cpu = cpu_with(&[0x60, 9, 0x61, 7, 0x80, 0x15]);
    run(&mut cpu, 3);
    assert_eq!(cpu.register(0), 2);
    assert_eq!(cpu.register(15), 1);
    // 8XY7: V0 = V1 - V0
    let mut cpu = cpu_with(&[0x60, 9, 0x61, 7, 0x80, 0x17]);
    run(&mut cpu, 3);
    assert_eq!(cpu.register(0), 254);
    assert_eq!(cpu.register(15), 0);
}

#[test]
fn logic_ops_reset_vf() {
    let mut cpu = cpu_with(&[0x6F, 9, 0x60, 0b1100, 0x61, 0b1010, 0x80, 0x11]);
    run(&mut cpu, 4);
    assert_eq!(cpu.register(0), 0b1110);
    assert_eq!(cpu.register(15), 0);
    let mut cpu = cpu_with(&[0x6F, 9, 0x60, 0b1100, 0x61, 0b1010, 0x80, 0x12]);
    run(&mut cpu, 4);
    assert_eq!(cpu.register(0), 0b1000);
    assert_eq!(cpu.register(15), 0);
    let mut cpu = cpu_with(&[0x6F, 9, 0x60, 0b1100, 0x61, 0b1010, 0x80, 0x13]);
    run(&mut cpu, 4);
    assert_eq!(cpu.register(0), 0b0110);
    assert_eq!(cpu.register(15), 0);
}

#[test]
fn shifts_report_shifted_out_bit() {
    // 8XY6 shifts VY into VX
    let mut cpu = cpu_with(&[0x61, 0b1000_0011, 0x80, 0x16]);
    run(&mut cpu, 2);
    assert_eq!(cpu.register(0), 0b0100_0001);
    assert_eq!(cpu.register(15), 1);
    let mut cpu = cpu_with(&[0x61, 0b1000_0011, 0x80, 0x1E]);
    run(&mut cpu, 2);
    assert_eq!(cpu.register(0), 0b0000_0110);
    assert_eq!(cpu.register(15), 1);
    // 8XY0 copies
    let mut cpu = cpu_with(&[0x61, 42, 0x80, 0x10]);
    run(&mut cpu, 2);
    assert_eq!(cpu.register(0), 42);
}

#[test]
fn skips_and_jumps() {
    // 3XKK skips when equal
    let mut cpu = cpu_with(&[0x60, 7, 0x30, 7]);
    run(&mut cpu, 2);
    assert_eq!(cpu.pc(), 0x206);
    // 4XKK does not skip when equal
    let mut cpu = cpu_with(&[0x60, 7, 0x40, 7]);
    run(&mut cpu, 2);
    assert_eq!(cpu.pc(), 0x204);
    // 5XY0 and 9XY0
    let mut cpu = cpu_with(&[0x60, 7, 0x61, 7, 0x50, 0x10]);
    run(&mut cpu, 3);
    assert_eq!(cpu.pc(), 0x208);
    let mut cpu = cpu_with(&[0x60, 7, 0x61, 7, 0x90, 0x10]);
    run(&mut cpu, 3);
    assert_eq!(cpu.pc(), 0x206);
    // 5XY1 is not an instruction and does nothing
    let mut cpu = cpu_with(&[0x60, 7, 0x61, 7, 0x50, 0x11]);
    run(&mut cpu, 3);
    assert_eq!(cpu.pc(), 0x206);
    // 1NNN
    let mut cpu = cpu_with(&[0x13, 0x45]);
    run(&mut cpu, 1);
    assert_eq!(cpu.pc(), 0x345);
    // BNNN jumps to NNN + V0
    let mut cpu = cpu_with(&[0x60, 0x10, 0xB3, 0x00]);
    run(&mut cpu, 2);
    assert_eq!(cpu.pc(), 0x310);
}

#[test]
fn call_then_return() {
    // 0x200: CALL 0x206; 0x202: LD V0, 1; ... 0x206: RET
    let mut cpu = cpu_with(&[0x22, 0x06, 0x60, 0x01, 0x00, 0x00, 0x00, 0xEE]);
    run(&mut cpu, 1);
    assert_eq!(cpu.pc(), 0x206);
    assert_eq!(cpu.sp(), 1);
    run(&mut cpu, 1);
    assert_eq!(cpu.pc(), 0x202);
    assert_eq!(cpu.sp(), 0);
    run(&mut cpu, 1);
    assert_eq!(cpu.register(0), 1);
}

#[test]
fn return_with_empty_stack_cannot_run() {
    let cpu = cpu_with(&[0x00, 0xEE]);
    assert!(!cpu.can_tick_cpu());
}

#[test]
fn index_register_ops() {
    let mut cpu = cpu_with(&[0xA1, 0x23, 0x60, 0x05, 0xF0, 0x1E]);
    run(&mut cpu, 3);
    assert_eq!(cpu.i_reg(), 0x128);
    // FX29 points I at the glyph of the low nibble of VX
    let mut cpu = cpu_with(&[0x60, 0x1A, 0xF0, 0x29]);
    run(&mut cpu, 2);
    assert_eq!(cpu.i_reg(), 50);
}

#[test]
fn bcd_stores_decimal_digits() {
    let mut cpu = cpu_with(&[0x60, 123, 0xA3, 0x00, 0xF0, 0x33]);
    run(&mut cpu, 3);
    assert_eq!(cpu.memory(0x300), 1);
    assert_eq!(cpu.memory(0x301), 2);
    assert_eq!(cpu.memory(0x302), 3);
}

#[test]
fn store_and_load_registers() {
    // V0..V2 = 1, 2, 3; store at 0x300; I advances by 3
    let mut cpu = cpu_with(&[0x60, 1, 0x61, 2, 0x62, 3, 0xA3, 0x00, 0xF2, 0x55]);
    run(&mut cpu, 5);
    assert_eq!(cpu.memory(0x300), 1);
    assert_eq!(cpu.memory(0x301), 2);
    assert_eq!(cpu.memory(0x302), 3);
    assert_eq!(cpu.i_reg(), 0x303);
    // load them back into fresh registers
    let mut cpu = cpu_with(&[0xA2, 0x08, 0xF2, 0x65, 0x00, 0x00, 0x00, 0x00, 7, 8, 9]);
    run(&mut cpu, 2);
    assert_eq!(cpu.register(0), 7);
    assert_eq!(cpu.register(1), 8);
    assert_eq!(cpu.register(2), 9);
    assert_eq!(cpu.register(3), 0);
    assert_eq!(cpu.i_reg(), 0x20B);
}

#[test]
fn draw_font_glyph_and_erase_it() {
    // I = glyph "0" (address 0); draw 5 rows at (0, 0); draw again
    let mut cpu = cpu_with(&[0xA0, 0x00, 0xD0, 0x15, 0xD0, 0x15]);
    run(&mut cpu, 2);
    let d = cpu.display();
    // first row 0xF0: four lit pixels
    assert_eq!(&d[0..8], &[0xFF, 0xFF, 0xFF, 0xFF, 0, 0, 0, 0]);
    // second row 0x90: pixels 0 and 3
    assert_eq!(&d[64..68], &[0xFF, 0, 0, 0xFF]);
    assert_eq!(cpu.register(15), 0);
    run(&mut cpu, 1);
    assert!(cpu.display().iter().all(|&p| p == 0));
    assert_eq!(cpu.register(15), 1);
}

#[test]
fn sprites_clip_at_the_edges() {
    // V0 = 62, V1 = 30: the glyph is cut at the right and bottom edges
    let mut cpu = cpu_with(&[0x60, 62, 0x61, 30, 0xA0, 0x00, 0xD0, 0x15]);
    run(&mut cpu, 4);
    let d = cpu.display();
    assert_eq!(d[30 * 64 + 62], 0xFF);
    assert_eq!(d[30 * 64 + 63], 0xFF);
    assert_eq!(d[31 * 64 + 62], 0xFF);
    assert_eq!(d[31 * 64 + 63], 0);
    assert_eq!(d.iter().filter(|&&p| p != 0).count(), 3);
}

#[test]
fn clear_screen() {
    let mut cpu = cpu_with(&[0xA0, 0x00, 0xD0, 0x15, 0x00, 0xE0]);
    run(&mut cpu, 3);
    assert!(cpu.display().iter().all(|&p| p == 0));
}

#[test]
fn random_byte_is_masked() {
    let mut cpu = cpu_with(&[0xC0, 0x0F]);
    cpu.tick_cpu_with(0xFF);
    assert_eq!(cpu.register(0), 0x0F);
    for _ in 0..20 {
        let mut cpu = cpu_with(&[0xC0, 0x0F, 0xC1, 0x00]);
        cpu.tick_cpu();
        cpu.tick_cpu();
        assert!(cpu.register(0) <= 0x0F);
        assert_eq!(cpu.register(1), 0);
    }
}

#[test]
fn wait_for_key_halts_until_pressed() {
    let mut cpu = cpu_with(&[0xF3, 0x0A, 0x60, 0x01]);
    run(&mut cpu, 1);
    assert!(cpu.waiting_for_key());
    let pc = cpu.pc();
    cpu.tick_cpu();
    assert_eq!(cpu.pc(), pc);
    cpu.key_down(0x20); // not a key
    assert!(cpu.waiting_for_key());
    cpu.key_down(0xB);
    assert!(!cpu.waiting_for_key());
    assert_eq!(cpu.register(3), 0xB);
    assert!(cpu.key_pressed(0xB));
    cpu.key_up(0xB);
    assert!(!cpu.key_pressed(0xB));
    run(&mut cpu, 1);
    assert_eq!(cpu.register(0), 1);
}

#[test]
fn key_skips() {
    let mut cpu = cpu_with(&[0x60, 0x15, 0xE0, 0x9E]);
    cpu.key_down(5);
    run(&mut cpu, 2);
    assert_eq!(cpu.pc(), 0x206);
    let mut cpu = cpu_with(&[0x60, 0x05, 0xE0, 0xA1]);
    run(&mut cpu, 2);
    assert_eq!(cpu.pc(), 0x206);
}

#[test]
fn timers_count_down_to_zero() {
    let mut cpu = cpu_with(&[0x60, 2, 0xF0, 0x15, 0xF0, 0x18, 0xF1, 0x07]);
    run(&mut cpu, 3);
    assert_eq!(cpu.delay_timer(), 2);
    assert!(cpu.sound_active());
    cpu.tick_timers();
    run(&mut cpu, 1);
    assert_eq!(cpu.register(1), 1);
    cpu.tick_timers();
    cpu.tick_timers();
    assert_eq!(cpu.delay_timer(), 0);
    assert_eq!(cpu.sound_timer(), 0);
    assert!(!cpu.sound_active());
}

#[test]
fn reset_restores_power_on_state() {
    let mut cpu = cpu_with(&[0x60, 9, 0xA3, 0x00, 0xF0, 0x33, 0xD0, 0x15]);
    run(&mut cpu, 4);
    cpu.key_down(3);
    cpu.reset();
    let fresh = Cpu::new();
    assert_eq!(cpu.pc(), fresh.pc());
    assert_eq!(cpu.register(0), 0);
    assert_eq!(cpu.i_reg(), 0);
    assert!(!cpu.key_pressed(3));
    for a in 0..4096 {
        assert_eq!(cpu.memory(a), fresh.memory(a));
    }
    assert_eq!(cpu.display(), fresh.display());
}

#[test]
fn rom_is_truncated_to_memory() {
    let rom = vec![0xAB; 5000];
    let cpu = cpu_with(&rom);
    assert_eq!(cpu.memory(0x200), 0xAB);
    assert_eq!(cpu.memory(4095), 0xAB);
    // the font area is untouched
    assert_eq!(cpu.memory(0), 0xF0);
    assert_eq!(cpu.memory(0x1FF), 0);
}

#[test]
fn fetch_past_memory_end_cannot_run() {
    let mut cpu = cpu_with(&[0x1F, 0xFF]);
    run(&mut cpu, 1);
    assert_eq!(cpu.pc(), 0xFFF);
    assert!(!cpu.can_tick_cpu());
}
