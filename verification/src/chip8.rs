//! A CHIP-8 interpreter: 4 KiB of memory, sixteen byte registers, a
//! sixteen-entry call stack, two countdown timers, a 64x32 monochrome
//! display and a sixteen-key keypad.
//!
//! The machine is modelled by [`CpuState`]; every operation is specified
//! as a function from the state before to the state after.
use vstd::prelude::*;
use crate::rng::{thread_rng, random_u8};

verus! {

pub const RAM_SIZE: usize = 4096;
pub const NUM_REGS: usize = 16;
pub const STACK_SIZE: usize = 16;
pub const DISPLAY_WIDTH: usize = 64;
pub const DISPLAY_HEIGHT: usize = 32;
pub const DISPLAY_SIZE: usize = 2048;
pub const NUM_KEYS: usize = 16;
pub const PROGRAM_START: u16 = 0x200;
pub const FONT_LEN: usize = 80;

/// The abstract machine state.
#[verifier::ext_equal]
pub struct CpuState {
    pub ram: Seq<u8>,
    pub v: Seq<u8>,
    pub i_reg: u16,
    pub pc: u16,
    pub stack: Seq<u16>,
    pub sp: u16,
    pub delay_timer: u8,
    pub sound_timer: u8,
    pub display: Seq<u8>,
    pub keys: Seq<bool>,
    pub waiting_for_key: bool,
    pub key_register: u8,
}

/// The built-in hexadecimal font: sixteen glyphs of five bytes each.
pub open spec fn font() -> Seq<u8> {
    seq![
        0xF0u8, 0x90, 0x90, 0x90, 0xF0, 0x20, 0x60, 0x20, 0x20, 0x70,
        0xF0, 0x10, 0xF0, 0x80, 0xF0, 0xF0, 0x10, 0xF0, 0x10, 0xF0,
        0x90, 0x90, 0xF0, 0x10, 0x10, 0xF0, 0x80, 0xF0, 0x10, 0xF0,
        0xF0, 0x80, 0xF0, 0x90, 0xF0, 0xF0, 0x10, 0x20, 0x40, 0x40,
        0xF0, 0x90, 0xF0, 0x90, 0xF0, 0xF0, 0x90, 0xF0, 0x10, 0xF0,
        0xF0, 0x90, 0xF0, 0x90, 0x90, 0xE0, 0x90, 0xE0, 0x90, 0xE0,
        0xF0, 0x80, 0x80, 0x80, 0xF0, 0xE0, 0x90, 0x90, 0x90, 0xE0,
        0xF0, 0x80, 0xF0, 0x80, 0xF0, 0xF0, 0x80, 0xF0, 0x80, 0x80
    ]
}

impl CpuState {
    /// The shape every reachable state has.
    pub open spec fn wf(self) -> bool {
        &&& self.ram.len() == RAM_SIZE
        &&& self.v.len() == NUM_REGS
        &&& self.stack.len() == STACK_SIZE
        &&& self.display.len() == DISPLAY_SIZE
        &&& self.keys.len() == NUM_KEYS
        &&& self.sp <= 16
        &&& self.key_register < 16
    }
}

/// Memory at power-on: the font at address 0, zeros elsewhere.
pub open spec fn initial_ram() -> Seq<u8> {
    Seq::new(RAM_SIZE as nat, |k: int| if k < 80 { font()[k] } else { 0u8 })
}

/// The power-on state: font loaded, everything else zero, PC at 0x200.
pub open spec fn initial_state() -> CpuState {
    CpuState {
        ram: initial_ram(),
        v: Seq::new(16, |k: int| 0u8),
        i_reg: 0,
        pc: PROGRAM_START,
        stack: Seq::new(16, |k: int| 0u16),
        sp: 0,
        delay_timer: 0,
        sound_timer: 0,
        display: Seq::new(2048, |k: int| 0u8),
        keys: Seq::new(16, |k: int| false),
        waiting_for_key: false,
        key_register: 0,
    }
}

// ---------------------------------------------------------------------------
// Decoding
// ---------------------------------------------------------------------------

pub open spec fn nib1(op: u16) -> int { op as int / 4096 }
pub open spec fn nib2(op: u16) -> int { (op as int / 256) % 16 }
pub open spec fn nib3(op: u16) -> int { (op as int / 16) % 16 }
pub open spec fn nib4(op: u16) -> int { op as int % 16 }
pub open spec fn addr_of(op: u16) -> u16 { (op as int % 4096) as u16 }
pub open spec fn byte_of(op: u16) -> u8 { (op as int % 256) as u8 }

/// The opcode stored big-endian at `pc`.
pub open spec fn opcode_at(s: CpuState) -> u16 {
    (s.ram[s.pc as int] as int * 256 + s.ram[s.pc as int + 1] as int) as u16
}

/// The state after the opcode at `pc` has been fetched.
pub open spec fn fetched(s: CpuState) -> CpuState {
    CpuState { pc: (s.pc + 2) as u16, ..s }
}

// ---------------------------------------------------------------------------
// Semantics of single instructions
// ---------------------------------------------------------------------------

/// `pc` advanced past the next instruction when `cond` holds.
pub open spec fn skip_if(s: CpuState, cond: bool) -> CpuState {
    if cond { CpuState { pc: (s.pc + 2) as u16, ..s } } else { s }
}

/// The register file after an `8XYN` arithmetic/logic instruction.
pub open spec fn alu(v: Seq<u8>, x: int, y: int, n: int) -> Seq<u8> {
    let vx = v[x];
    let vy = v[y];
    if n == 0 {
        v.update(x, vy)
    } else if n == 1 {
        v.update(x, vx | vy).update(15, 0)
    } else if n == 2 {
        v.update(x, vx & vy).update(15, 0)
    } else if n == 3 {
        v.update(x, vx ^ vy).update(15, 0)
    } else if n == 4 {
        v.update(x, ((vx + vy) % 256) as u8).update(15, if vx + vy > 255 { 1u8 } else { 0u8 })
    } else if n == 5 {
        v.update(x, ((vx - vy) % 256) as u8).update(15, if vx < vy { 0u8 } else { 1u8 })
    } else if n == 6 {
        v.update(x, vy / 2).update(15, vy % 2)
    } else if n == 7 {
        v.update(x, ((vy - vx) % 256) as u8).update(15, if vy < vx { 0u8 } else { 1u8 })
    } else if n == 0xE {
        v.update(x, ((vy * 2) % 256) as u8).update(15, vy / 128)
    } else {
        v
    }
}

/// Bit `col` (0 = leftmost) of a sprite row.
pub open spec fn sprite_bit(row: u8, col: int) -> bool {
    (row >> ((7 - col) as usize)) & 1u8 == 1u8
}

/// Whether display cell `k` is flipped when drawing the `n`-row sprite at
/// address `i` with its top-left corner at (`xc`, `yc`). Sprites clip at
/// the right and bottom edges.
pub open spec fn draw_hit(ram: Seq<u8>, i: u16, n: int, xc: int, yc: int, k: int) -> bool {
    let px = k % 64;
    let py = k / 64;
    &&& 0 <= k < 2048
    &&& xc <= px < xc + 8
    &&& yc <= py < yc + n
    &&& sprite_bit(ram[i as int + (py - yc)], px - xc)
}

/// The number of sprite rows that land on the screen.
pub open spec fn rows_drawn(n: int, yc: int) -> int {
    if yc + n <= 32 { n } else { 32 - yc }
}

/// The `DXYN` instruction.
pub open spec fn draw(s: CpuState, x: int, y: int, n: int) -> CpuState {
    let xc = s.v[x] as int % 64;
    let yc = s.v[y] as int % 32;
    let collision = exists|k: int| #[trigger] draw_hit(s.ram, s.i_reg, n, xc, yc, k) && s.display[k] != 0;
    CpuState {
        display: Seq::new(2048, |k: int|
            if draw_hit(s.ram, s.i_reg, n, xc, yc, k) { s.display[k] ^ 0xFFu8 } else { s.display[k] }),
        v: s.v.update(15, if collision { 1u8 } else { 0u8 }),
        ..s
    }
}

/// The `FX__` instructions.
pub open spec fn misc(s: CpuState, x: int, lo: int) -> CpuState {
    let vx = s.v[x];
    let i = s.i_reg as int;
    if lo == 0x07 {
        CpuState { v: s.v.update(x, s.delay_timer), ..s }
    } else if lo == 0x0A {
        CpuState { waiting_for_key: true, key_register: x as u8, ..s }
    } else if lo == 0x15 {
        CpuState { delay_timer: vx, ..s }
    } else if lo == 0x18 {
        CpuState { sound_timer: vx, ..s }
    } else if lo == 0x1E {
        CpuState { i_reg: ((i + vx) % 65536) as u16, ..s }
    } else if lo == 0x29 {
        CpuState { i_reg: ((vx % 16) * 5) as u16, ..s }
    } else if lo == 0x33 {
        CpuState {
            ram: s.ram.update(i, vx / 100).update(i + 1, (vx / 10) % 10).update(i + 2, vx % 10),
            ..s
        }
    } else if lo == 0x55 {
        CpuState {
            ram: Seq::new(4096, |k: int| if i <= k <= i + x { s.v[k - i] } else { s.ram[k] }),
            i_reg: (i + x + 1) as u16,
            ..s
        }
    } else if lo == 0x65 {
        CpuState {
            v: Seq::new(16, |r: int| if r <= x { s.ram[i + r] } else { s.v[r] }),
            i_reg: (i + x + 1) as u16,
            ..s
        }
    } else {
        s
    }
}

/// The effect of executing `op` in state `s`; `rnd` is the byte drawn by
/// `CXKK` and is ignored by every other instruction.
pub open spec fn execute_spec(s: CpuState, op: u16, rnd: u8) -> CpuState {
    let a = nib1(op);
    let x = nib2(op);
    let y = nib3(op);
    let n = nib4(op);
    let nnn = addr_of(op);
    let kk = byte_of(op);
    if a == 0x0 {
        if x == 0 && y == 0xE && n == 0 {
            CpuState { display: Seq::new(2048, |k: int| 0u8), ..s }
        } else if x == 0 && y == 0xE && n == 0xE {
            CpuState { sp: (s.sp - 1) as u16, pc: s.stack[s.sp - 1], ..s }
        } else {
            s
        }
    } else if a == 0x1 {
        CpuState { pc: nnn, ..s }
    } else if a == 0x2 {
        CpuState { stack: s.stack.update(s.sp as int, s.pc), sp: (s.sp + 1) as u16, pc: nnn, ..s }
    } else if a == 0x3 {
        skip_if(s, s.v[x] == kk)
    } else if a == 0x4 {
        skip_if(s, s.v[x] != kk)
    } else if a == 0x5 {
        if n == 0 { skip_if(s, s.v[x] == s.v[y]) } else { s }
    } else if a == 0x6 {
        CpuState { v: s.v.update(x, kk), ..s }
    } else if a == 0x7 {
        CpuState { v: s.v.update(x, ((s.v[x] + kk) % 256) as u8), ..s }
    } else if a == 0x8 {
        CpuState { v: alu(s.v, x, y, n), ..s }
    } else if a == 0x9 {
        if n == 0 { skip_if(s, s.v[x] != s.v[y]) } else { s }
    } else if a == 0xA {
        CpuState { i_reg: nnn, ..s }
    } else if a == 0xB {
        CpuState { pc: (nnn + s.v[0]) as u16, ..s }
    } else if a == 0xC {
        CpuState { v: s.v.update(x, rnd & kk), ..s }
    } else if a == 0xD {
        draw(s, x, y, n)
    } else if a == 0xE {
        if y == 0x9 && n == 0xE {
            skip_if(s, s.keys[s.v[x] as int % 16])
        } else if y == 0xA && n == 0x1 {
            skip_if(s, !s.keys[s.v[x] as int % 16])
        } else {
            s
        }
    } else {
        misc(s, x, y * 16 + n)
    }
}

/// The inputs on which executing `op` stays within memory and the stack.
pub open spec fn execute_ok(s: CpuState, op: u16) -> bool {
    let a = nib1(op);
    let x = nib2(op);
    let y = nib3(op);
    let n = nib4(op);
    let lo = y * 16 + n;
    let i = s.i_reg as int;
    &&& s.pc <= 4096
    &&& (a == 0 && x == 0 && y == 0xE && n == 0xE ==> s.sp > 0)
    &&& (a == 2 ==> s.sp < 16)
    &&& (a == 0xD ==> rows_drawn(n, s.v[y] as int % 32) <= 0 || i + rows_drawn(n, s.v[y] as int % 32) <= 4096)
    &&& (a == 0xF && lo == 0x33 ==> i + 2 < 4096)
    &&& (a == 0xF && (lo == 0x55 || lo == 0x65) ==> i + x < 4096)
}

/// Whether `op` draws on the random generator.
pub open spec fn uses_random(op: u16) -> bool {
    nib1(op) == 0xC
}

/// One CPU cycle: nothing while waiting for a key, otherwise fetch and
/// execute.
pub open spec fn tick_spec(s: CpuState, rnd: u8) -> CpuState {
    if s.waiting_for_key { s } else { execute_spec(fetched(s), opcode_at(s), rnd) }
}

/// The states in which a CPU cycle does not fault.
pub open spec fn tick_ok(s: CpuState) -> bool {
    !s.waiting_for_key ==> (s.pc as int + 1 < 4096 && execute_ok(fetched(s), opcode_at(s)))
}

/// Timers count down by one each tick until they reach zero.
pub open spec fn timers_spec(s: CpuState) -> CpuState {
    CpuState {
        delay_timer: if s.delay_timer > 0 { (s.delay_timer - 1) as u8 } else { 0 },
        sound_timer: if s.sound_timer > 0 { (s.sound_timer - 1) as u8 } else { 0 },
        ..s
    }
}

/// Pressing `key`: recorded when it names a key, and delivered to the
/// waiting register if the CPU is blocked on `FX0A`.
pub open spec fn key_down_spec(s: CpuState, key: u8) -> CpuState {
    if key < 16 {
        if s.waiting_for_key {
            CpuState {
                keys: s.keys.update(key as int, true),
                v: s.v.update(s.key_register as int, key),
                waiting_for_key: false,
                ..s
            }
        } else {
            CpuState { keys: s.keys.update(key as int, true), ..s }
        }
    } else {
        s
    }
}

/// Releasing `key`.
pub open spec fn key_up_spec(s: CpuState, key: u8) -> CpuState {
    if key < 16 { CpuState { keys: s.keys.update(key as int, false), ..s } } else { s }
}

/// Memory after copying a ROM to 0x200, truncated to what fits.
pub open spec fn load_rom_ram(ram: Seq<u8>, rom: Seq<u8>) -> Seq<u8> {
    Seq::new(4096, |k: int| if 0x200 <= k < 0x200 + rom.len() { rom[k - 0x200] } else { ram[k] })
}


// ---------------------------------------------------------------------------
// The interpreter
// ---------------------------------------------------------------------------

/// The complete CHIP-8 interpreter state.
pub struct Cpu {
    ram: Vec<u8>,
    v: Vec<u8>,
    i_reg: u16,
    pc: u16,
    stack: Vec<u16>,
    sp: u16,
    delay_timer: u8,
    sound_timer: u8,
    display: Vec<u8>,
    keys: Vec<bool>,
    waiting_for_key: bool,
    key_register: u8,
}

impl View for Cpu {
    type V = CpuState;

    closed spec fn view(&self) -> CpuState {
        CpuState {
            ram: self.ram@,
            v: self.v@,
            i_reg: self.i_reg,
            pc: self.pc,
            stack: self.stack@,
            sp: self.sp,
            delay_timer: self.delay_timer,
            sound_timer: self.sound_timer,
            display: self.display@,
            keys: self.keys@,
            waiting_for_key: self.waiting_for_key,
            key_register: self.key_register,
        }
    }
}

fn zeroed_u8(n: usize) -> (out: Vec<u8>)
    ensures
        out@ == Seq::new(n as nat, |k: int| 0u8),
{
    let mut out: Vec<u8> = Vec::new();
    while out.len() < n
        invariant
            out.len() <= n,
            forall|k: int| 0 <= k < out.len() ==> out@[k] == 0u8,
        decreases n - out.len(),
    {
        out.push(0);
    }
    assert(out@ =~= Seq::new(n as nat, |k: int| 0u8));
    out
}

fn zeroed_u16(n: usize) -> (out: Vec<u16>)
    ensures
        out@ == Seq::new(n as nat, |k: int| 0u16),
{
    let mut out: Vec<u16> = Vec::new();
    while out.len() < n
        invariant
            out.len() <= n,
            forall|k: int| 0 <= k < out.len() ==> out@[k] == 0u16,
        decreases n - out.len(),
    {
        out.push(0);
    }
    assert(out@ =~= Seq::new(n as nat, |k: int| 0u16));
    out
}

fn released_keys(n: usize) -> (out: Vec<bool>)
    ensures
        out@ == Seq::new(n as nat, |k: int| false),
{
    let mut out: Vec<bool> = Vec::new();
    while out.len() < n
        invariant
            out.len() <= n,
            forall|k: int| 0 <= k < out.len() ==> !out@[k],
        decreases n - out.len(),
    {
        out.push(false);
    }
    assert(out@ =~= Seq::new(n as nat, |k: int| false));
    out
}

/// The built-in font as bytes.
fn fontset() -> (out: Vec<u8>)
    ensures
        out@ == font(),
{
    let out = vec![
        0xF0u8, 0x90, 0x90, 0x90, 0xF0, 0x20, 0x60, 0x20, 0x20, 0x70,
        0xF0, 0x10, 0xF0, 0x80, 0xF0, 0xF0, 0x10, 0xF0, 0x10, 0xF0,
        0x90, 0x90, 0xF0, 0x10, 0x10, 0xF0, 0x80, 0xF0, 0x10, 0xF0,
        0xF0, 0x80, 0xF0, 0x90, 0xF0, 0xF0, 0x10, 0x20, 0x40, 0x40,
        0xF0, 0x90, 0xF0, 0x90, 0xF0, 0xF0, 0x90, 0xF0, 0x10, 0xF0,
        0xF0, 0x90, 0xF0, 0x90, 0x90, 0xE0, 0x90, 0xE0, 0x90, 0xE0,
        0xF0, 0x80, 0x80, 0x80, 0xF0, 0xE0, 0x90, 0x90, 0x90, 0xE0,
        0xF0, 0x80, 0xF0, 0x80, 0xF0, 0xF0, 0x80, 0xF0, 0x80, 0x80
    ];
    assert(out@ =~= font());
    out
}

/// Power-on memory: the font at address 0, zeros elsewhere.
fn power_on_ram() -> (ram: Vec<u8>)
    ensures
        ram@ == initial_ram(),
{
    let mut ram = zeroed_u8(RAM_SIZE);
    let font_bytes = fontset();
    let mut k: usize = 0;
    while k < FONT_LEN
        invariant
            k <= FONT_LEN,
            font_bytes@ == font(),
            ram@.len() == RAM_SIZE,
            forall|j: int| 0 <= j < k ==> ram@[j] == font()[j],
            forall|j: int| k <= j < RAM_SIZE ==> ram@[j] == 0u8,
        decreases FONT_LEN - k,
    {
        ram.set(k, font_bytes[k]);
        k += 1;
    }
    assert(ram@ =~= initial_ram());
    ram
}

/// Splits an index of the 64-wide display into column and row.
proof fn lemma_cell_coords(px: int, py: int)
    requires
        0 <= px < 64,
        0 <= py < 32,
    ensures
        (py * 64 + px) % 64 == px,
        (py * 64 + px) / 64 == py,
        0 <= py * 64 + px < 2048,
{
    vstd::arithmetic::div_mod::lemma_fundamental_div_mod_converse(py * 64 + px, 64, py, px);
    assert(0 <= py * 64 + px < 2048) by (nonlinear_arith)
        requires
            0 <= px < 64,
            0 <= py < 32,
    ;
}

/// Display cells already visited when the sprite drawing loop is at
/// (`row`, `col`).
spec fn visited(k: int, xc: int, yc: int, row: int, col: int) -> bool {
    k / 64 < yc + row || (k / 64 == yc + row && k % 64 < xc + col)
}

/// XOR the sprite onto the display; reports whether a lit pixel was
/// turned off.
fn xor_sprite(display: &mut Vec<u8>, ram: &Vec<u8>, i_reg: u16, n: usize, xc: usize, yc: usize) -> (collision: bool)
    requires
        old(display)@.len() == 2048,
        ram@.len() == 4096,
        xc < 64,
        yc < 32,
        n < 16,
        rows_drawn(n as int, yc as int) <= 0 || i_reg as int + rows_drawn(n as int, yc as int) <= 4096,
    ensures
        final(display)@ == Seq::new(2048, |k: int|
            if draw_hit(ram@, i_reg, n as int, xc as int, yc as int, k) { old(display)@[k] ^ 0xFFu8 } else { old(display)@[k] }),
        collision == exists|k: int| #[trigger] draw_hit(ram@, i_reg, n as int, xc as int, yc as int, k) && old(display)@[k] != 0,
{
    let ghost d0 = display@;
    let ghost r = ram@;
    let ghost ni = n as int;
    let mut collision = false;
    let mut row: usize = 0;
    while row < n && yc + row < DISPLAY_HEIGHT
        invariant
            d0.len() == 2048,
            r == ram@,
            r.len() == 4096,
            ni == n,
            xc < 64,
            yc < 32,
            n < 16,
            rows_drawn(n as int, yc as int) <= 0 || i_reg as int + rows_drawn(n as int, yc as int) <= 4096,
            row <= n,
            yc + row <= 32,
            display@.len() == 2048,
            forall|k: int| 0 <= k < 2048 ==> #[trigger] display@[k] == (
                if draw_hit(r, i_reg, ni, xc as int, yc as int, k) && visited(k, xc as int, yc as int, row as int, 0) { d0[k] ^ 0xFFu8 } else { d0[k] }),
            collision == exists|k: int| #[trigger] draw_hit(r, i_reg, ni, xc as int, yc as int, k)
                && visited(k, xc as int, yc as int, row as int, 0) && d0[k] != 0,
        decreases n - row,
    {
        let py = yc + row;
        assert(i_reg as int + row < 4096);
        let sprite_byte = ram[i_reg as usize + row];
        let mut col: usize = 0;
        while col < 8 && xc + col < DISPLAY_WIDTH
            invariant
                d0.len() == 2048,
                r == ram@,
                r.len() == 4096,
                ni == n,
                xc < 64,
                yc < 32,
                row < n,
                py == yc + row,
                py < 32,
                i_reg as int + row < 4096,
                sprite_byte == r[i_reg as int + row],
                col <= 8,
                display@.len() == 2048,
                forall|k: int| 0 <= k < 2048 ==> #[trigger] display@[k] == (
                    if draw_hit(r, i_reg, ni, xc as int, yc as int, k) && visited(k, xc as int, yc as int, row as int, col as int) { d0[k] ^ 0xFFu8 } else { d0[k] }),
                collision == exists|k: int| #[trigger] draw_hit(r, i_reg, ni, xc as int, yc as int, k)
                    && visited(k, xc as int, yc as int, row as int, col as int) && d0[k] != 0,
            decreases 8 - col,
        {
            let px = xc + col;
            let sprite_pixel = (sprite_byte >> (7 - col)) & 1;
            let idx = py * DISPLAY_WIDTH + px;
            proof {
                lemma_cell_coords(px as int, py as int);
                assert(draw_hit(r, i_reg, ni, xc as int, yc as int, idx as int) == (sprite_pixel == 1));
            }
            let ghost before = display@;
            let ghost col_before = collision;
            if sprite_pixel == 1 {
                if display[idx] != 0 {
                    collision = true;
                }
                let cur = display[idx];
                display.set(idx, cur ^ 0xFF);
            }
            proof {
                assert forall|k: int| 0 <= k < 2048 implies #[trigger] display@[k] == (
                    if draw_hit(r, i_reg, ni, xc as int, yc as int, k) && visited(k, xc as int, yc as int, row as int, col + 1) { d0[k] ^ 0xFFu8 } else { d0[k] }) by {
                    if k != idx {
                        assert(display@[k] == before[k]);
                        assert(visited(k, xc as int, yc as int, row as int, col + 1) == visited(k, xc as int, yc as int, row as int, col as int));
                    }
                }
                if collision {
                    if !col_before {
                        assert(draw_hit(r, i_reg, ni, xc as int, yc as int, idx as int) && visited(idx as int, xc as int, yc as int, row as int, col + 1) && d0[idx as int] != 0);
                    }
                } else {
                    assert forall|k: int| #[trigger] draw_hit(r, i_reg, ni, xc as int, yc as int, k)
                        && visited(k, xc as int, yc as int, row as int, col + 1) implies d0[k] == 0 by {
                        if k != idx {
                            assert(visited(k, xc as int, yc as int, row as int, col as int));
                        }
                    }
                }
            }
            col += 1;
        }
        proof {
            assert forall|k: int| #[trigger] draw_hit(r, i_reg, ni, xc as int, yc as int, k) implies
                visited(k, xc as int, yc as int, row as int, col as int) == visited(k, xc as int, yc as int, row + 1, 0) by {}
            assert forall|k: int| 0 <= k < 2048 implies #[trigger] display@[k] == (
                if draw_hit(r, i_reg, ni, xc as int, yc as int, k) && visited(k, xc as int, yc as int, row + 1, 0) { d0[k] ^ 0xFFu8 } else { d0[k] }) by {
                if draw_hit(r, i_reg, ni, xc as int, yc as int, k) {
                    assert(visited(k, xc as int, yc as int, row as int, col as int) == visited(k, xc as int, yc as int, row + 1, 0));
                }
            }
        }
        row += 1;
    }
    proof {
        assert forall|k: int| #[trigger] draw_hit(r, i_reg, ni, xc as int, yc as int, k) implies
            visited(k, xc as int, yc as int, row as int, 0) by {}
    }
    assert(display@ =~= Seq::new(2048, |k: int|
        if draw_hit(r, i_reg, ni, xc as int, yc as int, k) { d0[k] ^ 0xFFu8 } else { d0[k] }));
    collision
}

/// The `8XYN` arithmetic and logic instructions on the register file.
fn alu_op(v: &mut Vec<u8>, x: usize, y: usize, n: u8)
    requires
        old(v)@.len() == 16,
        x < 16,
        y < 16,
    ensures
        final(v)@ == alu(old(v)@, x as int, y as int, n as int),
{
    let vx = v[x];
    let vy = v[y];
    match n {
        // 8XY0 — LD Vx, Vy
        0x0 => {
            v.set(x, vy);
        },
        // 8XY1 — OR Vx, Vy (VF reset)
        0x1 => {
            v.set(x, vx | vy);
            v.set(15, 0);
        },
        // 8XY2 — AND Vx, Vy (VF reset)
        0x2 => {
            v.set(x, vx & vy);
            v.set(15, 0);
        },
        // 8XY3 — XOR Vx, Vy (VF reset)
        0x3 => {
            v.set(x, vx ^ vy);
            v.set(15, 0);
        },
        // 8XY4 — ADD Vx, Vy (VF = carry)
        0x4 => {
            let result = vx.wrapping_add(vy);
            let overflow = vx as u16 + vy as u16 > 0xFF;
            v.set(x, result);
            v.set(15, if overflow { 1 } else { 0 });
        },
        // 8XY5 — SUB Vx, Vy (VF = NOT borrow)
        0x5 => {
            let result = vx.wrapping_sub(vy);
            let borrow = vx < vy;
            v.set(x, result);
            v.set(15, if borrow { 0 } else { 1 });
        },
        // 8XY6 — SHR Vx {, Vy} (VF = shifted-out bit)
        0x6 => {
            let lsb = vy & 1;
            proof {
                assert(vy & 1 == vy % 2) by (bit_vector);
                assert(vy >> 1 == vy / 2) by (bit_vector);
            }
            v.set(x, vy >> 1);
            v.set(15, lsb);
        },
        // 8XY7 — SUBN Vx, Vy (VF = NOT borrow)
        0x7 => {
            let result = vy.wrapping_sub(vx);
            let borrow = vy < vx;
            v.set(x, result);
            v.set(15, if borrow { 0 } else { 1 });
        },
        // 8XYE — SHL Vx {, Vy} (VF = shifted-out bit)
        0xE => {
            let msb = (vy >> 7) & 1;
            proof {
                assert((vy >> 7) & 1 == vy / 128) by (bit_vector);
                assert(vy << 1 == ((vy * 2) % 256) as u8) by (bit_vector);
            }
            v.set(x, vy << 1);
            v.set(15, msb);
        },
        _ => {},
    }
}

/// Decoding an opcode into its four nibbles.
proof fn lemma_decode(op: u16)
    ensures
        ((op & 0xF000) >> 12) as int == nib1(op),
        ((op & 0x0F00) >> 8) as int == nib2(op),
        ((op & 0x00F0) >> 4) as int == nib3(op),
        (op & 0x000F) as int == nib4(op),
        op & 0x0FFF == addr_of(op),
        (op & 0x00FF) as int == byte_of(op) as int,
        nib1(op) < 16,
        nib2(op) < 16,
        nib3(op) < 16,
{
    assert(((op & 0xF000) >> 12) == op / 4096) by (bit_vector);
    assert(((op & 0x0F00) >> 8) == (op / 256) % 16) by (bit_vector);
    assert(((op & 0x00F0) >> 4) == (op / 16) % 16) by (bit_vector);
    assert((op & 0x000F) == op % 16) by (bit_vector);
    assert((op & 0x0FFF) == op % 4096) by (bit_vector);
    assert((op & 0x00FF) == op % 256) by (bit_vector);
}

impl Cpu {
    /// A fresh CPU with the font loaded and PC at 0x200.
    pub fn new() -> (cpu: Cpu)
        ensures
            cpu@ == initial_state(),
            cpu@.wf(),
    {
        let cpu = Cpu {
            ram: power_on_ram(),
            v: zeroed_u8(NUM_REGS),
            i_reg: 0,
            pc: PROGRAM_START,
            stack: zeroed_u16(STACK_SIZE),
            sp: 0,
            delay_timer: 0,
            sound_timer: 0,
            display: zeroed_u8(DISPLAY_SIZE),
            keys: released_keys(NUM_KEYS),
            waiting_for_key: false,
            key_register: 0,
        };
        assert(cpu@ =~= initial_state());
        cpu
    }

    /// Copy a ROM into memory starting at 0x200; bytes that would fall past
    /// the end of memory are dropped.
    pub fn load_rom(&mut self, rom: &[u8])
        requires
            old(self)@.wf(),
        ensures
            final(self)@ == (CpuState { ram: load_rom_ram(old(self)@.ram, rom@), ..old(self)@ }),
            final(self)@.wf(),
    {
        let start: usize = PROGRAM_START as usize;
        let room: usize = RAM_SIZE - start;
        let count: usize = if rom.len() < room { rom.len() } else { room };
        let mut k: usize = 0;
        while k < count
            invariant
                start == 0x200,
                count <= rom@.len(),
                count <= 4096 - 0x200,
                count == rom@.len() || count == 4096 - 0x200,
                k <= count,
                self.ram@.len() == RAM_SIZE,
                forall|j: int| 0 <= j < 4096 ==> self.ram@[j] == (
                    if 0x200 <= j < 0x200 + k { rom@[j - 0x200] } else { old(self)@.ram[j] }),
                self.v == old(self).v,
                self.i_reg == old(self).i_reg,
                self.pc == old(self).pc,
                self.stack == old(self).stack,
                self.sp == old(self).sp,
                self.delay_timer == old(self).delay_timer,
                self.sound_timer == old(self).sound_timer,
                self.display == old(self).display,
                self.keys == old(self).keys,
                self.waiting_for_key == old(self).waiting_for_key,
                self.key_register == old(self).key_register,
            decreases count - k,
        {
            self.ram.set(start + k, rom[k]);
            k += 1;
        }
        assert(self.ram@ =~= load_rom_ram(old(self)@.ram, rom@));
    }

    /// Hard reset to the power-on state (font kept, everything else
    /// cleared).
    pub fn reset(&mut self)
        ensures
            final(self)@ == initial_state(),
            final(self)@.wf(),
    {
        self.ram = power_on_ram();
        self.v = zeroed_u8(NUM_REGS);
        self.i_reg = 0;
        self.pc = PROGRAM_START;
        self.stack = zeroed_u16(STACK_SIZE);
        self.sp = 0;
        self.delay_timer = 0;
        self.sound_timer = 0;
        self.display = zeroed_u8(DISPLAY_SIZE);
        self.keys = released_keys(NUM_KEYS);
        self.waiting_for_key = false;
        self.key_register = 0;
        assert(self@ =~= initial_state());
    }

    /// Count both timers down by one, stopping at zero.
    pub fn tick_timers(&mut self)
        ensures
            final(self)@ == timers_spec(old(self)@),
            old(self)@.wf() ==> final(self)@.wf(),
    {
        if self.delay_timer > 0 {
            self.delay_timer -= 1;
        }
        if self.sound_timer > 0 {
            self.sound_timer -= 1;
        }
    }

    /// Whether the buzzer sounds.
    pub fn sound_active(&self) -> (b: bool)
        ensures
            b == (self@.sound_timer > 0),
    {
        self.sound_timer > 0
    }

    /// Register a key press.
    pub fn key_down(&mut self, key: u8)
        requires
            old(self)@.wf(),
        ensures
            final(self)@ == key_down_spec(old(self)@, key),
            final(self)@.wf(),
    {
        if (key as usize) < NUM_KEYS {
            self.keys.set(key as usize, true);
            if self.waiting_for_key {
                self.v.set(self.key_register as usize, key);
                self.waiting_for_key = false;
            }
        }
    }

    /// Register a key release.
    pub fn key_up(&mut self, key: u8)
        requires
            old(self)@.wf(),
        ensures
            final(self)@ == key_up_spec(old(self)@, key),
            final(self)@.wf(),
    {
        if (key as usize) < NUM_KEYS {
            self.keys.set(key as usize, false);
        }
    }

    /// The display, one byte per pixel (0x00 off, 0xFF on), row by row.
    pub fn display(&self) -> (d: &[u8])
        ensures
            d@ == self@.display,
    {
        self.display.as_slice()
    }

    /// Register `Vx`.
    pub fn register(&self, x: usize) -> (r: u8)
        requires
            self@.wf(),
            x < NUM_REGS,
        ensures
            r == self@.v[x as int],
    {
        self.v[x]
    }

    /// The byte at memory address `addr`.
    pub fn memory(&self, addr: usize) -> (b: u8)
        requires
            self@.wf(),
            addr < RAM_SIZE,
        ensures
            b == self@.ram[addr as int],
    {
        self.ram[addr]
    }

    pub fn pc(&self) -> (pc: u16)
        ensures
            pc == self@.pc,
    {
        self.pc
    }

    pub fn i_reg(&self) -> (i: u16)
        ensures
            i == self@.i_reg,
    {
        self.i_reg
    }

    pub fn sp(&self) -> (sp: u16)
        ensures
            sp == self@.sp,
    {
        self.sp
    }

    pub fn delay_timer(&self) -> (t: u8)
        ensures
            t == self@.delay_timer,
    {
        self.delay_timer
    }

    pub fn sound_timer(&self) -> (t: u8)
        ensures
            t == self@.sound_timer,
    {
        self.sound_timer
    }

    pub fn waiting_for_key(&self) -> (b: bool)
        ensures
            b == self@.waiting_for_key,
    {
        self.waiting_for_key
    }

    /// Whether key `k` is held down.
    pub fn key_pressed(&self, k: usize) -> (b: bool)
        requires
            self@.wf(),
            k < NUM_KEYS,
        ensures
            b == self@.keys[k as int],
    {
        self.keys[k]
    }

    pub fn display_len(&self) -> (n: usize)
        ensures
            n == DISPLAY_SIZE,
    {
        DISPLAY_SIZE
    }

    pub fn display_width(&self) -> (n: usize)
        ensures
            n == DISPLAY_WIDTH,
    {
        DISPLAY_WIDTH
    }

    pub fn display_height(&self) -> (n: usize)
        ensures
            n == DISPLAY_HEIGHT,
    {
        DISPLAY_HEIGHT
    }

    /// Whether the next CPU cycle stays within memory and the stack.
    pub fn can_tick_cpu(&self) -> (ok: bool)
        requires
            self@.wf(),
        ensures
            ok == tick_ok(self@),
    {
        if self.waiting_for_key {
            return true;
        }
        if self.pc as usize + 1 >= RAM_SIZE {
            return false;
        }
        let hi = self.ram[self.pc as usize] as u16;
        let lo = self.ram[(self.pc as usize) + 1] as u16;
        proof {
            assert((hi << 8) | lo == hi * 256 + lo) by (bit_vector)
                requires
                    hi < 256,
                    lo < 256,
            ;
        }
        let op = (hi << 8) | lo;
        let pc = self.pc + 2;
        proof {
            lemma_decode(op);
        }
        let nib1 = ((op & 0xF000) >> 12) as u8;
        let x = ((op & 0x0F00) >> 8) as usize;
        let y = ((op & 0x00F0) >> 4) as usize;
        let n = (op & 0x000F) as u8;
        let i = self.i_reg as usize;
        if nib1 == 0x0 && x == 0 && y == 0xE && n == 0xE {
            self.sp > 0
        } else if nib1 == 0x2 {
            self.sp < 16
        } else if nib1 == 0xD {
            let yc = self.v[y] as usize % DISPLAY_HEIGHT;
            let rows = if yc + (n as usize) <= DISPLAY_HEIGHT { n as usize } else { DISPLAY_HEIGHT - yc };
            rows == 0 || i + rows <= RAM_SIZE
        } else if nib1 == 0xF && y == 3 && n == 3 {
            i + 2 < RAM_SIZE
        } else if nib1 == 0xF && ((y == 5 && n == 5) || (y == 6 && n == 5)) {
            i + x < RAM_SIZE
        } else {
            true
        }
    }

    /// Fetch the 2-byte opcode at PC and advance PC by 2.
    fn fetch(&mut self) -> (op: u16)
        requires
            old(self)@.wf(),
            old(self)@.pc as int + 1 < 4096,
        ensures
            op == opcode_at(old(self)@),
            final(self)@ == fetched(old(self)@),
    {
        let hi = self.ram[self.pc as usize] as u16;
        let lo = self.ram[(self.pc as usize) + 1] as u16;
        self.pc += 2;
        proof {
            assert((hi << 8) | lo == hi * 256 + lo) by (bit_vector)
                requires
                    hi < 256,
                    lo < 256,
            ;
        }
        (hi << 8) | lo
    }

    /// Decode and execute one opcode; `rnd` is the byte `CXKK` masks.
    fn execute(&mut self, op: u16, rnd: u8)
        requires
            old(self)@.wf(),
            execute_ok(old(self)@, op),
        ensures
            final(self)@ == execute_spec(old(self)@, op, rnd),
    {
        proof {
            lemma_decode(op);
        }
        let nib1 = ((op & 0xF000) >> 12) as u8;
        let nib2 = ((op & 0x0F00) >> 8) as u8;
        let nib3 = ((op & 0x00F0) >> 4) as u8;
        let nib4 = (op & 0x000F) as u8;

        let x = nib2 as usize;
        let y = nib3 as usize;
        let nnn = op & 0x0FFF;
        let kk = (op & 0x00FF) as u8;
        let n = nib4;

        match (nib1, nib2, nib3, nib4) {
            // 00E0 — CLS
            (0x0, 0x0, 0xE, 0x0) => {
                self.display = zeroed_u8(DISPLAY_SIZE);
            },
            // 00EE — RET
            (0x0, 0x0, 0xE, 0xE) => {
                self.sp -= 1;
                self.pc = self.stack[self.sp as usize];
            },
            // 0NNN — SYS addr (ignored)
            (0x0, _, _, _) => {},
            // 1NNN — JP addr
            (0x1, _, _, _) => {
                self.pc = nnn;
            },
            // 2NNN — CALL addr
            (0x2, _, _, _) => {
                self.stack.set(self.sp as usize, self.pc);
                self.sp += 1;
                self.pc = nnn;
            },
            // 3XKK — SE Vx, byte
            (0x3, _, _, _) => {
                if self.v[x] == kk {
                    self.pc += 2;
                }
            },
            // 4XKK — SNE Vx, byte
            (0x4, _, _, _) => {
                if self.v[x] != kk {
                    self.pc += 2;
                }
            },
            // 5XY0 — SE Vx, Vy
            (0x5, _, _, 0x0) => {
                if self.v[x] == self.v[y] {
                    self.pc += 2;
                }
            },
            // 6XKK — LD Vx, byte
            (0x6, _, _, _) => {
                self.v.set(x, kk);
            },
            // 7XKK — ADD Vx, byte (wrapping, no carry flag)
            (0x7, _, _, _) => {
                let sum = self.v[x].wrapping_add(kk);
                self.v.set(x, sum);
            },
            // 8XYN — register/register arithmetic and logic
            (0x8, _, _, _) => {
                alu_op(&mut self.v, x, y, n);
            },
            // 9XY0 — SNE Vx, Vy
            (0x9, _, _, 0x0) => {
                if self.v[x] != self.v[y] {
                    self.pc += 2;
                }
            },
            // ANNN — LD I, addr
            (0xA, _, _, _) => {
                self.i_reg = nnn;
            },
            // BNNN — JP V0, addr
            (0xB, _, _, _) => {
                self.pc = nnn + self.v[0] as u16;
            },
            // CXKK — RND Vx, byte
            (0xC, _, _, _) => {
                self.v.set(x, rnd & kk);
            },
            // DXYN — DRW Vx, Vy, N
            (0xD, _, _, _) => {
                let x_coord = self.v[x] as usize % DISPLAY_WIDTH;
                let y_coord = self.v[y] as usize % DISPLAY_HEIGHT;
                let collision = xor_sprite(&mut self.display, &self.ram, self.i_reg, n as usize, x_coord, y_coord);
                self.v.set(15, if collision { 1 } else { 0 });
            },
            // EX9E — SKP Vx
            (0xE, _, 0x9, 0xE) => {
                let key = self.v[x] as usize & 0xF;
                proof {
                    let b = self.v@[x as int] as usize;
                    assert(b & 0xF == b % 16) by (bit_vector);
                }
                if self.keys[key] {
                    self.pc += 2;
                }
            },
            // EXA1 — SKNP Vx
            (0xE, _, 0xA, 0x1) => {
                let key = self.v[x] as usize & 0xF;
                proof {
                    let b = self.v@[x as int] as usize;
                    assert(b & 0xF == b % 16) by (bit_vector);
                }
                if !self.keys[key] {
                    self.pc += 2;
                }
            },
            // FX07 — LD Vx, DT
            (0xF, _, 0x0, 0x7) => {
                self.v.set(x, self.delay_timer);
            },
            // FX0A — LD Vx, K (wait for a key)
            (0xF, _, 0x0, 0xA) => {
                self.waiting_for_key = true;
                self.key_register = x as u8;
            },
            // FX15 — LD DT, Vx
            (0xF, _, 0x1, 0x5) => {
                self.delay_timer = self.v[x];
            },
            // FX18 — LD ST, Vx
            (0xF, _, 0x1, 0x8) => {
                self.sound_timer = self.v[x];
            },
            // FX1E — ADD I, Vx
            (0xF, _, 0x1, 0xE) => {
                self.i_reg = self.i_reg.wrapping_add(self.v[x] as u16);
            },
            // FX29 — LD F, Vx
            (0xF, _, 0x2, 0x9) => {
                let digit = self.v[x] as u16;
                proof {
                    assert(digit & 0xF == digit % 16) by (bit_vector);
                }
                self.i_reg = (digit & 0xF) * 5;
            },
            // FX33 — LD B, Vx (binary-coded decimal)
            (0xF, _, 0x3, 0x3) => {
                let val = self.v[x];
                let base = self.i_reg as usize;
                self.ram.set(base, val / 100);
                self.ram.set(base + 1, (val / 10) % 10);
                self.ram.set(base + 2, val % 10);
            },
            // FX55 — LD [I], Vx
            (0xF, _, 0x5, 0x5) => {
                self.store_registers(x);
            },
            // FX65 — LD Vx, [I]
            (0xF, _, 0x6, 0x5) => {
                self.load_registers(x);
            },
            // Unknown opcode — ignored.
            _ => {},
        }
    }

    /// `FX55`: store V0..=Vx at I, then advance I past them.
    fn store_registers(&mut self, x: usize)
        requires
            old(self)@.wf(),
            x < 16,
            old(self)@.i_reg as int + x < 4096,
        ensures
            final(self)@ == misc(old(self)@, x as int, 0x55),
    {
        let base = self.i_reg as usize;
        let ghost s0 = self@;
        let mut reg: usize = 0;
        while reg <= x
            invariant
                s0.wf(),
                x < 16,
                base == s0.i_reg,
                base + x < 4096,
                reg <= x + 1,
                self@ == (CpuState { ram: self@.ram, ..s0 }),
                self.ram@.len() == 4096,
                forall|k: int| 0 <= k < 4096 ==> #[trigger] self.ram@[k] == (
                    if base <= k < base + reg { s0.v[k - base] } else { s0.ram[k] }),
            decreases x + 1 - reg,
        {
            let val = self.v[reg];
            self.ram.set(base + reg, val);
            reg += 1;
        }
        self.i_reg += x as u16 + 1;
        assert(self.ram@ =~= misc(s0, x as int, 0x55).ram);
    }

    /// `FX65`: load V0..=Vx from I, then advance I past them.
    fn load_registers(&mut self, x: usize)
        requires
            old(self)@.wf(),
            x < 16,
            old(self)@.i_reg as int + x < 4096,
        ensures
            final(self)@ == misc(old(self)@, x as int, 0x65),
    {
        let base = self.i_reg as usize;
        let ghost s0 = self@;
        let mut reg: usize = 0;
        while reg <= x
            invariant
                s0.wf(),
                x < 16,
                base == s0.i_reg,
                base + x < 4096,
                reg <= x + 1,
                self@ == (CpuState { v: self@.v, ..s0 }),
                self.v@.len() == 16,
                forall|r: int| 0 <= r < 16 ==> #[trigger] self.v@[r] == (
                    if r < reg { s0.ram[base + r] } else { s0.v[r] }),
            decreases x + 1 - reg,
        {
            let val = self.ram[base + reg];
            self.v.set(reg, val);
            reg += 1;
        }
        self.i_reg += x as u16 + 1;
        assert(self.v@ =~= misc(s0, x as int, 0x65).v);
    }

    /// One CPU cycle with `rnd` as the byte a `CXKK` instruction draws.
    pub fn tick_cpu_with(&mut self, rnd: u8)
        requires
            old(self)@.wf(),
            tick_ok(old(self)@),
        ensures
            final(self)@ == tick_spec(old(self)@, rnd),
            final(self)@.wf(),
    {
        proof {
            lemma_tick_preserves_wf(self@, rnd);
        }
        if self.waiting_for_key {
            return;
        }
        let opcode = self.fetch();
        self.execute(opcode, rnd);
    }

    /// One CPU cycle: fetch, decode, execute. A `CXKK` instruction draws
    /// its byte from the thread-local random generator.
    pub fn tick_cpu(&mut self)
        requires
            old(self)@.wf(),
            tick_ok(old(self)@),
        ensures
            exists|rnd: u8| final(self)@ == #[trigger] tick_spec(old(self)@, rnd),
            old(self)@.waiting_for_key || !uses_random(opcode_at(old(self)@)) ==>
                final(self)@ == tick_spec(old(self)@, 0),
            final(self)@.wf(),
    {
        if self.waiting_for_key {
            assert(self@ == tick_spec(old(self)@, 0));
            return;
        }
        let opcode = self.fetch();
        proof {
            lemma_decode(opcode);
        }
        let rnd = if (opcode & 0xF000) >> 12 == 0xC {
            let mut rng = thread_rng();
            random_u8(&mut rng)
        } else {
            0
        };
        self.execute(opcode, rnd);
        assert(self@ == tick_spec(old(self)@, rnd));
        proof {
            lemma_tick_preserves_wf(old(self)@, rnd);
        }
    }
}

// ---------------------------------------------------------------------------
// Laws
// ---------------------------------------------------------------------------

/// Every instruction that does not fault leaves a well-formed machine
/// well-formed.
pub proof fn lemma_execute_preserves_wf(s: CpuState, op: u16, rnd: u8)
    requires
        s.wf(),
        execute_ok(s, op),
    ensures
        execute_spec(s, op, rnd).wf(),
{
    let x = nib2(op);
    let y = nib3(op);
    assert(nib2(op) < 16 && nib3(op) < 16 && nib4(op) < 16);
    if nib1(op) == 0xF && y * 16 + nib4(op) == 0x0A {
        assert(misc(s, x, 0x0A).key_register == x as u8);
    }
}

/// A CPU cycle that does not fault leaves a well-formed machine
/// well-formed.
pub proof fn lemma_tick_preserves_wf(s: CpuState, rnd: u8)
    requires
        s.wf(),
        tick_ok(s),
    ensures
        tick_spec(s, rnd).wf(),
{
    if !s.waiting_for_key {
        lemma_execute_preserves_wf(fetched(s), opcode_at(s), rnd);
    }
}

/// While the CPU waits for a key it does not move.
pub proof fn lemma_waiting_cpu_is_halted(s: CpuState, rnd: u8)
    requires
        s.waiting_for_key,
    ensures
        tick_spec(s, rnd) == s,
{
}

/// A key press ends a wait for a key and stores the key in the register
/// that `FX0A` named.
pub proof fn lemma_key_press_ends_wait(s: CpuState, key: u8)
    requires
        s.wf(),
        s.waiting_for_key,
        key < 16,
    ensures
        !key_down_spec(s, key).waiting_for_key,
        key_down_spec(s, key).v[s.key_register as int] == key,
        key_down_spec(s, key).keys[key as int],
{
}

/// Sprites are XORed onto the display: drawing the same sprite twice at the
/// same place restores the display, as long as neither coordinate register
/// is VF (which the first draw overwrites).
pub proof fn lemma_draw_twice_restores(s: CpuState, op: u16, r1: u8, r2: u8)
    requires
        s.wf(),
        nib1(op) == 0xD,
        nib2(op) != 15,
        nib3(op) != 15,
    ensures
        execute_spec(execute_spec(s, op, r1), op, r2).display == s.display,
{
    let x = nib2(op);
    let y = nib3(op);
    let n = nib4(op);
    let t = execute_spec(s, op, r1);
    assert(t == draw(s, x, y, n));
    assert(t.v[x] == s.v[x] && t.v[y] == s.v[y]);
    let u = execute_spec(t, op, r2);
    assert(u == draw(t, x, y, n));
    assert forall|k: int| 0 <= k < 2048 implies u.display[k] == s.display[k] by {
        let d = s.display[k];
        assert((d ^ 0xFFu8) ^ 0xFFu8 == d) by (bit_vector);
    }
    assert(u.display =~= s.display);
}

/// A call followed by a return comes back to the instruction after the
/// call, with the stack pointer where it was.
pub proof fn lemma_call_then_return(s: CpuState, call: u16, r1: u8, r2: u8)
    requires
        s.wf(),
        nib1(call) == 0x2,
        s.sp < 16,
    ensures
        execute_spec(execute_spec(s, call, r1), 0x00EE, r2).pc == s.pc,
        execute_spec(execute_spec(s, call, r1), 0x00EE, r2).sp == s.sp,
        execute_spec(s, call, r1).pc == addr_of(call),
{
    let t = execute_spec(s, call, r1);
    assert(nib1(0x00EE) == 0 && nib2(0x00EE) == 0 && nib3(0x00EE) == 0xE && nib4(0x00EE) == 0xE);
    assert(t.stack[t.sp - 1] == s.pc);
}

/// `FX55` stores V0..VX at I and `FX65` loads them back: after a store,
/// whatever happens to the registers, once I points at the block again and
/// memory is untouched, the load restores V0..VX and keeps the registers
/// above X. Both instructions leave I just past the block.
pub proof fn lemma_store_then_load(s: CpuState, u: CpuState, x: int, r1: u8, r2: u8)
    requires
        s.wf(),
        u.wf(),
        0 <= x < 16,
        s.i_reg as int + x < 4096,
        u.ram == execute_spec(s, (0xF055 + 256 * x) as u16, r1).ram,
        u.i_reg == s.i_reg,
    ensures
        execute_spec(s, (0xF055 + 256 * x) as u16, r1).i_reg == s.i_reg + x + 1,
        execute_spec(u, (0xF065 + 256 * x) as u16, r2).i_reg == s.i_reg + x + 1,
        forall|r: int| 0 <= r <= x ==> #[trigger] execute_spec(u, (0xF065 + 256 * x) as u16, r2).v[r] == s.v[r],
        forall|r: int| x < r < 16 ==> #[trigger] execute_spec(u, (0xF065 + 256 * x) as u16, r2).v[r] == u.v[r],
{
    let store = (0xF055 + 256 * x) as u16;
    let load = (0xF065 + 256 * x) as u16;
    assert(nib1(store) == 0xF && nib2(store) == x && nib3(store) == 5 && nib4(store) == 5);
    assert(nib1(load) == 0xF && nib2(load) == x && nib3(load) == 6 && nib4(load) == 5);
    let t = execute_spec(s, store, r1);
    assert(t == misc(s, x, 0x55));
    let w = execute_spec(u, load, r2);
    assert(w == misc(u, x, 0x65));
}

/// `8XY4` adds with carry: the sum is the result plus 256 times VF.
pub proof fn lemma_add_with_carry(s: CpuState, op: u16, rnd: u8)
    requires
        s.wf(),
        nib1(op) == 0x8,
        nib4(op) == 0x4,
        nib2(op) != 15,
    ensures
        execute_spec(s, op, rnd).v[nib2(op)] as int + 256 * execute_spec(s, op, rnd).v[15] as int
            == s.v[nib2(op)] as int + s.v[nib3(op)] as int,
{
}

/// `8XYE` shifts VY left by one into VX and reports in VF the bit shifted
/// out, the top bit of VY; `8XY6` shifts VY right and reports its low bit.
pub proof fn lemma_shifts_report_the_lost_bit(s: CpuState, op: u16, rnd: u8)
    requires
        s.wf(),
        nib1(op) == 0x8,
        nib4(op) == 0xE || nib4(op) == 0x6,
    ensures
        nib4(op) == 0xE ==> execute_spec(s, op, rnd).v[15] == s.v[nib3(op)] >> 7u8,
        nib4(op) == 0xE && nib2(op) != 15 ==> execute_spec(s, op, rnd).v[nib2(op)] == s.v[nib3(op)] << 1u8,
        nib4(op) == 0x6 ==> execute_spec(s, op, rnd).v[15] == s.v[nib3(op)] & 1u8,
        nib4(op) == 0x6 && nib2(op) != 15 ==> execute_spec(s, op, rnd).v[nib2(op)] == s.v[nib3(op)] >> 1u8,
{
    let vy = s.v[nib3(op)];
    assert(vy / 128 == vy >> 7u8) by (bit_vector);
    assert(((vy * 2) % 256) as u8 == vy << 1u8) by (bit_vector);
    assert(vy % 2 == vy & 1u8) by (bit_vector);
    assert(vy / 2 == vy >> 1u8) by (bit_vector);
    assert(nib2(op) < 16 && nib3(op) < 16);
}

/// `8XY5` subtracts modulo 256 and sets VF exactly when no borrow occurs.
pub proof fn lemma_sub_with_borrow(s: CpuState, op: u16, rnd: u8)
    requires
        s.wf(),
        nib1(op) == 0x8,
        nib4(op) == 0x5,
        nib2(op) != 15,
    ensures
        execute_spec(s, op, rnd).v[nib2(op)] as int
            == (s.v[nib2(op)] as int - s.v[nib3(op)] as int) % 256,
        (execute_spec(s, op, rnd).v[15] == 1) == (s.v[nib2(op)] >= s.v[nib3(op)]),
{
}

/// `FX33` stores the three decimal digits of VX.
pub proof fn lemma_bcd_digits(s: CpuState, op: u16, rnd: u8)
    requires
        s.wf(),
        nib1(op) == 0xF,
        nib3(op) == 3,
        nib4(op) == 3,
        s.i_reg as int + 2 < 4096,
    ensures
        ({
            let t = execute_spec(s, op, rnd);
            let i = s.i_reg as int;
            &&& t.ram[i] < 10 && t.ram[i + 1] < 10 && t.ram[i + 2] < 10
            &&& 100 * t.ram[i] + 10 * t.ram[i + 1] + t.ram[i + 2] == s.v[nib2(op)] as int
        }),
{
    let vx = s.v[nib2(op)];
    assert(100 * (vx / 100) + 10 * ((vx / 10) % 10) + vx % 10 == vx as int) by (nonlinear_arith)
        requires
            vx < 256,
    ;
}

/// Loading a ROM leaves the interpreter area below 0x200, where the font
/// lives, untouched.
pub proof fn lemma_load_rom_keeps_font(ram: Seq<u8>, rom: Seq<u8>)
    requires
        ram.len() == 4096,
    ensures
        load_rom_ram(ram, rom).subrange(0, 0x200) == ram.subrange(0, 0x200),
        load_rom_ram(ram, rom).len() == 4096,
{
    assert(load_rom_ram(ram, rom).subrange(0, 0x200) =~= ram.subrange(0, 0x200));
}

} // verus!
