//! The CHIP-8 interpreter: registers, memory, stack, timers, and the
//! fetch-decode-execute step.
//!
//! A note on bounds, a deliberate design choice of this interpreter: every
//! memory access is checked, reads (instruction fetch, sprite rows, register
//! reload) as well as writes, and an access outside the 4096-byte space is
//! rejected with `BoundsError`. Stack overflow on call and underflow on
//! return likewise raise `BoundsError`, carrying the stack pointer, rather
//! than indexing out of the 16-entry storage.

use vstd::prelude::*;
use vstd::arithmetic::div_mod::{lemma_mod_sub_multiples_vanish, lemma_small_mod};
use crate::display::{
    blank_screen, spec_draw_sprite, spec_draw_sprite_hits, spec_draw_sprite_hits_upto,
    spec_draw_sprite_upto, Display,
};
use crate::util::{spec_halfword, Wrapable};

verus! {

/// A fatal interpreter fault; every error aborts the current run.
///
/// `UnknownInstruction` carries the raw 16-bit instruction that no dispatch
/// branch matched. `UnimplementedInstruction` is reserved for
/// partially-specified extensions and is never raised by this interpreter.
/// `BoundsError` carries the offending register index, memory address, or
/// stack pointer of a rejected access.
#[derive(Clone, Copy, Debug, PartialEq, Eq, Structural)]
pub enum Chip8Error {
    UnimplementedInstruction(u16),
    UnknownInstruction(u16),
    BoundsError(usize),
}

/// The interpreter's execution state: freely running, or parked on the
/// wait-for-key instruction until the host latches a key.
#[derive(Clone, Copy, Debug, PartialEq, Eq, Structural)]
pub enum Chip8State {
    Running,
    WaitingForKey(usize),
}

/// The mathematical state of the machine: every contract of the interpreter
/// speaks about this view.
#[verifier::ext_equal]
pub ghost struct Chip8View {
    /// The 64x32 pixel grid, row-major.
    pub screen: Seq<bool>,
    /// The 4096-byte address space.
    pub mem: Seq<u8>,
    /// The 16-entry return-address stack.
    pub stack: Seq<u16>,
    /// The 16 general-purpose registers V0..VF.
    pub v: Seq<u8>,
    /// The delay timer.
    pub dt: u8,
    /// The sound timer.
    pub st: u8,
    /// The stack pointer: the number of live stack entries.
    pub sp: u8,
    /// The program counter.
    pub pc: u16,
    /// The index register.
    pub i: u16,
    /// The host's single-slot key latch.
    pub key: Option<u8>,
    /// Running, or waiting for a key.
    pub state: Chip8State,
    /// The dirty flag: the screen changed during the last step.
    pub show: bool,
}

impl Chip8View {
    /// Shape invariant of the machine: fixed sizes, stack pointer within
    /// capacity, and a valid target register while waiting for a key.
    pub open spec fn wf(self) -> bool {
        &&& self.screen.len() == 2048
        &&& self.mem.len() == 4096
        &&& self.stack.len() == 16
        &&& self.v.len() == 16
        &&& self.sp <= 16
        &&& match self.state {
            Chip8State::Running => true,
            Chip8State::WaitingForKey(r) => r < 16,
        }
    }
}

/// The fixed 80-byte font table: 16 five-byte glyphs for the hex digits,
/// preloaded at address 0.
pub open spec fn spec_font() -> Seq<u8> {
    seq![
        0xF0u8, 0x90, 0x90, 0x90, 0xF0, 0x20, 0x60, 0x20,
        0x20, 0x70, 0xF0, 0x10, 0xF0, 0x80, 0xF0, 0xF0,
        0x10, 0xF0, 0x10, 0xF0, 0x90, 0x90, 0xF0, 0x10,
        0x10, 0xF0, 0x80, 0xF0, 0x10, 0xF0, 0xF0, 0x80,
        0xF0, 0x90, 0xF0, 0xF0, 0x10, 0x20, 0x40, 0x40,
        0xF0, 0x90, 0xF0, 0x90, 0xF0, 0xF0, 0x90, 0xF0,
        0x10, 0xF0, 0xF0, 0x90, 0xF0, 0x90, 0x90, 0xE0,
        0x90, 0xE0, 0x90, 0xE0, 0xF0, 0x80, 0x80, 0x80,
        0xF0, 0xE0, 0x90, 0x90, 0x90, 0xE0, 0xF0, 0x80,
        0xF0, 0x80, 0xF0, 0xF0, 0x80, 0xF0, 0x80, 0x80,
    ]
}

/// The opcode family: the top 4 bits of an instruction.
pub open spec fn spec_opcode(instr: u16) -> u16 {
    instr / 0x1000
}

/// The `nnn` field: the low 12 bits, an address.
pub open spec fn spec_addr(instr: u16) -> u16 {
    instr % 0x1000
}

/// The `n` field: the lowest nibble.
pub open spec fn spec_n(instr: u16) -> u8 {
    (instr % 0x10) as u8
}

/// The `x` field: the second nibble, a register index.
pub open spec fn spec_x(instr: u16) -> int {
    (instr as int / 0x100) % 0x10
}

/// The `y` field: the third nibble, a register index.
pub open spec fn spec_y(instr: u16) -> int {
    (instr as int / 0x10) % 0x10
}

/// The `kk` field: the low byte.
pub open spec fn spec_kk(instr: u16) -> u8 {
    (instr % 0x100) as u8
}

/// A value reduced to 8 bits.
pub open spec fn wrap8(a: int) -> u8 {
    (a % 256) as u8
}

/// A value reduced to 16 bits.
pub open spec fn wrap16(a: int) -> u16 {
    (a % 0x10000) as u16
}

/// The first out-of-range address of an ascending run of accesses that
/// starts at `base` and leaves the 4096-byte space.
pub open spec fn spec_oob(base: u16) -> usize {
    if base >= 4096 {
        base as usize
    } else {
        4096
    }
}

/// Memory after registers V0..Vx are stored at `base`.
pub open spec fn spec_store_regs(mem: Seq<u8>, v: Seq<u8>, base: int, x: int) -> Seq<u8> {
    Seq::new(mem.len(), |a: int| if base <= a <= base + x { v[a - base] } else { mem[a] })
}

/// Registers after V0..Vx are reloaded from memory at `base`.
pub open spec fn spec_load_regs(v: Seq<u8>, mem: Seq<u8>, base: int, x: int) -> Seq<u8> {
    Seq::new(v.len(), |r: int| if r <= x { mem[base + r] } else { v[r] })
}

/// Memory after a ROM image is copied in verbatim at 0x200.
pub open spec fn spec_load_rom(mem: Seq<u8>, game: Seq<u8>) -> Seq<u8> {
    Seq::new(mem.len(), |a: int| if 512 <= a < 512 + game.len() { game[a - 512] } else { mem[a] })
}

/// Both timers decremented by one, saturating at zero.
pub open spec fn spec_tick(s: Chip8View) -> Chip8View {
    Chip8View {
        dt: if s.dt > 0 {
            (s.dt - 1) as u8
        } else {
            0
        },
        st: if s.st > 0 {
            (s.st - 1) as u8
        } else {
            0
        },
        ..s
    }
}

/// The effect of one decoded instruction on the machine, given the random
/// byte `rnd` drawn for the `Cxkk` instruction. Returns the successor state
/// and whether the instruction set the program counter itself (suppressing
/// the automatic advance), or the error that rejects the instruction, in
/// which case the machine is unchanged.
pub open spec fn spec_exec(pre: Chip8View, instr: u16, rnd: u8) -> Result<
    (Chip8View, bool),
    Chip8Error,
> {
    let addr = spec_addr(instr);
    let n = spec_n(instr);
    let x = spec_x(instr);
    let y = spec_y(instr);
    let kk = spec_kk(instr);
    let vx = pre.v[x];
    let vy = pre.v[y];
    if instr == 0x00E0 {
        Ok((Chip8View { screen: blank_screen(), show: true, ..pre }, false))
    } else if instr == 0x00EE {
        if pre.sp == 0 {
            Err(Chip8Error::BoundsError(0))
        } else {
            Ok((Chip8View { sp: (pre.sp - 1) as u8, pc: pre.stack[pre.sp - 1], ..pre }, false))
        }
    } else if spec_opcode(instr) == 0x0 {
        Err(Chip8Error::UnknownInstruction(instr))
    } else if spec_opcode(instr) == 0x1 {
        Ok((Chip8View { pc: addr, ..pre }, true))
    } else if spec_opcode(instr) == 0x2 {
        if pre.sp >= 16 {
            Err(Chip8Error::BoundsError(pre.sp as usize))
        } else {
            Ok(
                (
                    Chip8View {
                        stack: pre.stack.update(pre.sp as int, pre.pc),
                        sp: (pre.sp + 1) as u8,
                        pc: addr,
                        ..pre
                    },
                    true,
                ),
            )
        }
    } else if spec_opcode(instr) == 0x3 {
        if vx == kk {
            Ok((Chip8View { pc: wrap16(pre.pc + 2), ..pre }, false))
        } else {
            Ok((pre, false))
        }
    } else if spec_opcode(instr) == 0x4 {
        if vx != kk {
            Ok((Chip8View { pc: wrap16(pre.pc + 2), ..pre }, false))
        } else {
            Ok((pre, false))
        }
    } else if spec_opcode(instr) == 0x5 {
        if vx == vy {
            Ok((Chip8View { pc: wrap16(pre.pc + 2), ..pre }, false))
        } else {
            Ok((pre, false))
        }
    } else if spec_opcode(instr) == 0x6 {
        Ok((Chip8View { v: pre.v.update(x, kk), ..pre }, false))
    } else if spec_opcode(instr) == 0x7 {
        Ok((Chip8View { v: pre.v.update(x, wrap8(vx + kk)), ..pre }, false))
    } else if spec_opcode(instr) == 0x8 {
        if n == 0x0 {
            Ok((Chip8View { v: pre.v.update(x, vy), ..pre }, false))
        } else if n == 0x1 {
            Ok((Chip8View { v: pre.v.update(x, vx | vy), ..pre }, false))
        } else if n == 0x2 {
            Ok((Chip8View { v: pre.v.update(x, vx & vy), ..pre }, false))
        } else if n == 0x3 {
            Ok((Chip8View { v: pre.v.update(x, vx ^ vy), ..pre }, false))
        } else if n == 0x4 {
            let flag: u8 = if vx + vy > 255 {
                1
            } else {
                0
            };
            Ok((Chip8View { v: pre.v.update(x, wrap8(vx + vy)).update(15, flag), ..pre }, false))
        } else if n == 0x5 {
            let flag: u8 = if vx > vy {
                1
            } else {
                0
            };
            Ok(
                (
                    Chip8View { v: pre.v.update(x, wrap8(vx - vy + 256)).update(15, flag), ..pre },
                    false,
                ),
            )
        } else if n == 0x6 {
            Ok(
                (
                    Chip8View {
                        v: pre.v.update(15, (vx % 2) as u8).update(x, (vx / 2) as u8),
                        ..pre
                    },
                    false,
                ),
            )
        } else if n == 0x7 {
            let flag: u8 = if vy > vx {
                1
            } else {
                0
            };
            Ok(
                (
                    Chip8View { v: pre.v.update(x, wrap8(vy - vx + 256)).update(15, flag), ..pre },
                    false,
                ),
            )
        } else if n == 0xE {
            Ok(
                (
                    Chip8View {
                        v: pre.v.update(15, (vx / 128) as u8).update(x, wrap8(2 * vx)),
                        ..pre
                    },
                    false,
                ),
            )
        } else {
            Err(Chip8Error::UnknownInstruction(instr))
        }
    } else if spec_opcode(instr) == 0x9 {
        if vx != vy {
            Ok((Chip8View { pc: wrap16(pre.pc + 2), ..pre }, false))
        } else {
            Ok((pre, false))
        }
    } else if spec_opcode(instr) == 0xA {
        Ok((Chip8View { i: addr, ..pre }, false))
    } else if spec_opcode(instr) == 0xB {
        Ok((Chip8View { pc: wrap16(addr + pre.v[0]), ..pre }, true))
    } else if spec_opcode(instr) == 0xC {
        Ok((Chip8View { v: pre.v.update(x, rnd & kk), ..pre }, false))
    } else if spec_opcode(instr) == 0xD {
        if n == 0 {
            Ok((Chip8View { v: pre.v.update(15, 0), show: true, ..pre }, false))
        } else if pre.i + n > 4096 {
            Err(Chip8Error::BoundsError(spec_oob(pre.i)))
        } else {
            let rows = pre.mem.subrange(pre.i as int, pre.i as int + n as int);
            let hit = spec_draw_sprite_hits(pre.screen, vx as int, vy as int, rows);
            Ok(
                (
                    Chip8View {
                        screen: spec_draw_sprite(pre.screen, vx as int, vy as int, rows),
                        v: pre.v.update(15, if hit { 1u8 } else { 0u8 }),
                        show: true,
                        ..pre
                    },
                    false,
                ),
            )
        }
    } else if spec_opcode(instr) == 0xE {
        if kk == 0x9E {
            if pre.key == Some(vx) {
                Ok((Chip8View { pc: wrap16(pre.pc + 2), ..pre }, false))
            } else {
                Ok((pre, false))
            }
        } else if kk == 0xA1 {
            if pre.key != Some(vx) {
                Ok((Chip8View { pc: wrap16(pre.pc + 2), ..pre }, false))
            } else {
                Ok((pre, false))
            }
        } else {
            Err(Chip8Error::UnknownInstruction(instr))
        }
    } else if spec_opcode(instr) == 0xF {
        if kk == 0x07 {
            Ok((Chip8View { v: pre.v.update(x, pre.dt), ..pre }, false))
        } else if kk == 0x0A {
            Ok((Chip8View { state: Chip8State::WaitingForKey(x as usize), ..pre }, false))
        } else if kk == 0x15 {
            Ok((Chip8View { dt: vx, ..pre }, false))
        } else if kk == 0x18 {
            Ok((Chip8View { st: vx, ..pre }, false))
        } else if kk == 0x1E {
            Ok((Chip8View { i: wrap16(pre.i + vx), ..pre }, false))
        } else if kk == 0x29 {
            Ok((Chip8View { i: (5 * vx) as u16, ..pre }, false))
        } else if kk == 0x33 {
            if pre.i + 2 > 4095 {
                Err(Chip8Error::BoundsError(spec_oob(pre.i)))
            } else {
                let hundreds = (vx / 100) as u8;
                let tens = ((vx / 10) % 10) as u8;
                let ones = (vx % 10) as u8;
                Ok(
                    (
                        Chip8View {
                            mem: pre.mem.update(pre.i as int, hundreds).update(
                                pre.i + 1,
                                tens,
                            ).update(pre.i + 2, ones),
                            ..pre
                        },
                        false,
                    ),
                )
            }
        } else if kk == 0x55 {
            if pre.i + x > 4095 {
                Err(Chip8Error::BoundsError(spec_oob(pre.i)))
            } else {
                Ok(
                    (
                        Chip8View {
                            mem: spec_store_regs(pre.mem, pre.v, pre.i as int, x),
                            ..pre
                        },
                        false,
                    ),
                )
            }
        } else if kk == 0x65 {
            if pre.i + x > 4095 {
                Err(Chip8Error::BoundsError(spec_oob(pre.i)))
            } else {
                Ok(
                    (
                        Chip8View { v: spec_load_regs(pre.v, pre.mem, pre.i as int, x), ..pre },
                        false,
                    ),
                )
            }
        } else {
            Err(Chip8Error::UnknownInstruction(instr))
        }
    } else {
        Err(Chip8Error::UnknownInstruction(instr))
    }
}

/// One host-driven step of the machine: clear the dirty flag; while running,
/// fetch and execute one instruction, decrement the timers, and advance the
/// program counter by 2 unless the instruction set it itself; while waiting
/// for a key, consume a latched key into the target register or do nothing.
pub open spec fn spec_step(pre: Chip8View, rnd: u8) -> (Chip8View, Result<(), Chip8Error>) {
    let cleared = Chip8View { show: false, ..pre };
    match pre.state {
        Chip8State::Running => {
            if pre.pc + 1 >= 4096 {
                (cleared, Err(Chip8Error::BoundsError(spec_oob(pre.pc))))
            } else {
                let instr = spec_halfword(pre.mem[pre.pc as int], pre.mem[pre.pc as int + 1]);
                match spec_exec(cleared, instr, rnd) {
                    Ok(res) => {
                        let ticked = spec_tick(res.0);
                        if res.1 {
                            (ticked, Ok(()))
                        } else {
                            (Chip8View { pc: wrap16(ticked.pc + 2), ..ticked }, Ok(()))
                        }
                    },
                    Err(e) => (cleared, Err(e)),
                }
            }
        },
        Chip8State::WaitingForKey(r) => {
            match pre.key {
                Some(k) => (
                    Chip8View {
                        v: cleared.v.update(r as int, k),
                        state: Chip8State::Running,
                        ..cleared
                    },
                    Ok(()),
                ),
                None => (cleared, Ok(())),
            }
        },
    }
}

/// The CHIP-8 virtual machine.
#[derive(Clone, Debug)]
pub struct Chip8 {
    /// The 64x32 display; the host reads it to render.
    pub display: Display,
    memory: Vec<u8>,
    stack: Vec<u16>,
    v: Vec<u8>,
    dt: u8,
    st: u8,
    sp: u8,
    pc: u16,
    i: u16,
    /// The single-slot key latch, written by the host before each step.
    pub key: Option<u8>,
    state: Chip8State,
    /// The dirty flag, read by the host after each step.
    pub show: bool,
}

impl View for Chip8 {
    type V = Chip8View;

    closed spec fn view(&self) -> Chip8View {
        Chip8View {
            screen: self.display@,
            mem: self.memory@,
            stack: self.stack@,
            v: self.v@,
            dt: self.dt,
            st: self.st,
            sp: self.sp,
            pc: self.pc,
            i: self.i,
            key: self.key,
            state: self.state,
            show: self.show,
        }
    }
}

/// Reduces a sum of two bytes to 8 bits.
fn wrap_byte(s: u16) -> (r: u8)
    requires
        s < 512,
    ensures
        r == wrap8(s as int),
{
    proof {
        if s >= 256 {
            lemma_mod_sub_multiples_vanish(s as int, 256);
            lemma_small_mod((s - 256) as nat, 256);
        } else {
            lemma_small_mod(s as nat, 256);
        }
    }
    if s >= 256 {
        (s - 256) as u8
    } else {
        s as u8
    }
}

/// Reduces a sum of two 16-bit words to 16 bits.
fn wrap_word(s: u32) -> (r: u16)
    requires
        s < 0x20000,
    ensures
        r == wrap16(s as int),
{
    proof {
        if s >= 0x10000 {
            lemma_mod_sub_multiples_vanish(s as int, 0x10000);
            lemma_small_mod((s - 0x10000) as nat, 0x10000);
        } else {
            lemma_small_mod(s as nat, 0x10000);
        }
    }
    if s >= 0x10000 {
        (s - 0x10000) as u16
    } else {
        s as u16
    }
}

/// The font table as bytes; see `spec_font`.
fn font_table() -> (f: Vec<u8>)
    ensures
        f@ == spec_font(),
{
    let f: Vec<u8> = vec![
        0xF0u8, 0x90, 0x90, 0x90, 0xF0, 0x20, 0x60, 0x20,
        0x20, 0x70, 0xF0, 0x10, 0xF0, 0x80, 0xF0, 0xF0,
        0x10, 0xF0, 0x10, 0xF0, 0x90, 0x90, 0xF0, 0x10,
        0x10, 0xF0, 0x80, 0xF0, 0x10, 0xF0, 0xF0, 0x80,
        0xF0, 0x90, 0xF0, 0xF0, 0x10, 0x20, 0x40, 0x40,
        0xF0, 0x90, 0xF0, 0x90, 0xF0, 0xF0, 0x90, 0xF0,
        0x10, 0xF0, 0xF0, 0x90, 0xF0, 0x90, 0x90, 0xE0,
        0x90, 0xE0, 0x90, 0xE0, 0xF0, 0x80, 0x80, 0x80,
        0xF0, 0xE0, 0x90, 0x90, 0x90, 0xE0, 0xF0, 0x80,
        0xF0, 0x80, 0xF0, 0xF0, 0x80, 0xF0, 0x80, 0x80,
    ];
    proof {
        assert(f@ =~= spec_font());
    }
    f
}

impl Chip8 {
    /// Shape invariant of the machine; see `Chip8View::wf`.
    pub open spec fn wf(&self) -> bool {
        self@.wf()
    }

    /// A fresh machine: font preloaded at address 0, all registers, timers,
    /// stack and screen cleared, program counter at 0x200, running, with no
    /// key latched.
    pub fn new() -> (c: Chip8)
        ensures
            c.wf(),
            c@.mem == spec_font() + Seq::new(4016, |a: int| 0u8),
            c@.stack == Seq::new(16, |a: int| 0u16),
            c@.v == Seq::new(16, |a: int| 0u8),
            c@.screen == blank_screen(),
            c@.dt == 0,
            c@.st == 0,
            c@.sp == 0,
            c@.pc == 0x200,
            c@.i == 0,
            c@.key is None,
            c@.state == Chip8State::Running,
            !c@.show,
    {
        let display = Display::new();
        let mut memory = font_table();
        let mut zeros: Vec<u8> = vec![0u8; 4016];
        memory.append(&mut zeros);
        let stack: Vec<u16> = vec![0u16; 16];
        let v: Vec<u8> = vec![0u8; 16];
        let c = Chip8 {
            display,
            memory,
            stack,
            v,
            dt: 0,
            st: 0,
            sp: 0,
            pc: 0x200,
            i: 0,
            key: None,
            state: Chip8State::Running,
            show: false,
        };
        proof {
            assert(c@.mem =~= spec_font() + Seq::new(4016, |a: int| 0u8));
            assert(c@.stack =~= Seq::new(16, |a: int| 0u16));
            assert(c@.v =~= Seq::new(16, |a: int| 0u8));
        }
        c
    }

    /// Copies a ROM image verbatim into memory starting at 0x200; an image
    /// that would run past the end of memory is rejected whole, naming the
    /// first address past the end.
    pub fn load(&mut self, game: Vec<u8>) -> (r: Result<(), Chip8Error>)
        requires
            old(self).wf(),
        ensures
            final(self).wf(),
            game@.len() <= 3584 ==> r == Ok::<(), Chip8Error>(()) && final(self)@ == (Chip8View {
                mem: spec_load_rom(old(self)@.mem, game@),
                ..old(self)@
            }),
            game@.len() > 3584 ==> r == Err::<(), Chip8Error>(Chip8Error::BoundsError(4096))
                && final(self)@ == old(self)@,
    {
        let ghost pre = self@;
        if game.len() > 3584 {
            return Err(Chip8Error::BoundsError(4096));
        }
        let mut r: usize = 0;
        while r < game.len()
            invariant
                pre.wf(),
                game@.len() <= 3584,
                r <= game@.len(),
                self@ == (Chip8View {
                    mem: Seq::new(
                        4096,
                        |a: int| if 512 <= a < 512 + r { game@[a - 512] } else { pre.mem[a] },
                    ),
                    ..pre
                }),
            decreases game@.len() - r,
        {
            self.memory[512 + r] = game[r];
            proof {
                assert(self@.mem =~= Seq::new(
                    4096,
                    |a: int| if 512 <= a < 512 + (r + 1) { game@[a - 512] } else { pre.mem[a] },
                ));
            }
            r = r + 1;
        }
        proof {
            assert(self@.mem =~= spec_load_rom(pre.mem, game@));
        }
        Ok(())
    }

    /// Writes a general register; an index outside 0..=15 is rejected and
    /// nothing changes.
    pub fn set_vx(&mut self, vx: usize, y: u8) -> (r: Result<(), Chip8Error>)
        requires
            old(self).wf(),
        ensures
            final(self).wf(),
            vx < 16 ==> r == Ok::<(), Chip8Error>(()) && final(self)@ == (Chip8View {
                v: old(self)@.v.update(vx as int, y),
                ..old(self)@
            }),
            vx >= 16 ==> r == Err::<(), Chip8Error>(Chip8Error::BoundsError(vx)) && final(self)@
                == old(self)@,
    {
        if vx > 0xF {
            Err(Chip8Error::BoundsError(vx))
        } else {
            self.v[vx] = y;
            Ok(())
        }
    }

    /// Reads a general register.
    pub fn get_vx(&self, vx: usize) -> (r: u8)
        requires
            self.wf(),
            vx < 16,
        ensures
            r == self@.v[vx as int],
    {
        self.v[vx]
    }

    /// Writes a memory byte; an address outside the 4096-byte space is
    /// rejected and nothing changes.
    pub fn set_memory_location(&mut self, location: usize, x: u8) -> (r: Result<(), Chip8Error>)
        requires
            old(self).wf(),
        ensures
            final(self).wf(),
            location < 4096 ==> r == Ok::<(), Chip8Error>(()) && final(self)@ == (Chip8View {
                mem: old(self)@.mem.update(location as int, x),
                ..old(self)@
            }),
            location >= 4096 ==> r == Err::<(), Chip8Error>(Chip8Error::BoundsError(location))
                && final(self)@ == old(self)@,
    {
        if location > 0xFFF {
            Err(Chip8Error::BoundsError(location))
        } else {
            self.memory[location] = x;
            Ok(())
        }
    }

    /// Reads a memory byte.
    pub fn get_memory_location(&self, location: usize) -> (r: u8)
        requires
            self.wf(),
            location < 4096,
        ensures
            r == self@.mem[location as int],
    {
        self.memory[location]
    }

    /// The program counter.
    pub fn get_pc(&self) -> (r: u16)
        ensures
            r == self@.pc,
    {
        self.pc
    }

    /// The index register.
    pub fn get_i(&self) -> (r: u16)
        ensures
            r == self@.i,
    {
        self.i
    }

    /// The delay timer.
    pub fn get_dt(&self) -> (r: u8)
        ensures
            r == self@.dt,
    {
        self.dt
    }

    /// The sound timer.
    pub fn get_st(&self) -> (r: u8)
        ensures
            r == self@.st,
    {
        self.st
    }

    /// The stack pointer.
    pub fn get_sp(&self) -> (r: u8)
        ensures
            r == self@.sp,
    {
        self.sp
    }

    /// The execution state.
    pub fn get_state(&self) -> (r: Chip8State)
        ensures
            r == self@.state,
    {
        self.state
    }

    /// Advances the program counter past one 2-byte instruction, wrapping at
    /// 16 bits.
    fn pc_incr(&mut self)
        ensures
            final(self)@ == (Chip8View { pc: wrap16(old(self)@.pc + 2), ..old(self)@ }),
    {
        self.pc = self.pc.wrap_add(2);
    }

    /// Decrements both timers by one, stopping at zero.
    fn timers_decr(&mut self)
        ensures
            final(self)@ == spec_tick(old(self)@),
    {
        if self.dt > 0 {
            self.dt = self.dt - 1;
        }
        if self.st > 0 {
            self.st = self.st - 1;
        }
    }

    /// Stores a latched key into register `v` and resumes running; without a
    /// latched key nothing changes. A register index outside 0..=15 is
    /// rejected when a key is latched.
    pub fn wait_for_key(&mut self, v: usize) -> (r: Result<(), Chip8Error>)
        requires
            old(self).wf(),
        ensures
            final(self).wf(),
            match old(self)@.key {
                Some(k) => if v < 16 {
                    r == Ok::<(), Chip8Error>(()) && final(self)@ == (Chip8View {
                        v: old(self)@.v.update(v as int, k),
                        state: Chip8State::Running,
                        ..old(self)@
                    })
                } else {
                    r == Err::<(), Chip8Error>(Chip8Error::BoundsError(v)) && final(self)@ == old(
                        self,
                    )@
                },
                None => r == Ok::<(), Chip8Error>(()) && final(self)@ == old(self)@,
            },
    {
        match self.key {
            Some(k) => {
                if v > 0xF {
                    return Err(Chip8Error::BoundsError(v));
                }
                self.v[v] = k;
                self.state = Chip8State::Running;
                Ok(())
            },
            None => Ok(()),
        }
    }

    /// Executes one already-fetched instruction; see `spec_exec`. Returns
    /// whether the instruction set the program counter itself.
    #[verifier::rlimit(100)]
    fn exec_instruction(&mut self, instruction: u16, rnd: u8) -> (r: Result<bool, Chip8Error>)
        requires
            old(self).wf(),
        ensures
            final(self).wf(),
            match spec_exec(old(self)@, instruction, rnd) {
                Ok(res) => r == Ok::<bool, Chip8Error>(res.1) && final(self)@ == res.0,
                Err(e) => r == Err::<bool, Chip8Error>(e) && final(self)@ == old(self)@,
            },
    {
        let ghost pre = self@;
        let opcode = instruction / 0x1000;
        let addr = instruction % 0x1000;
        let n = (instruction % 0x10) as u8;
        let x = ((instruction / 0x100) % 0x10) as usize;
        let y = ((instruction / 0x10) % 0x10) as usize;
        let kk = (instruction % 0x100) as u8;
        let vx = self.v[x];
        let vy = self.v[y];
        match opcode {
            0x0 => {
                if instruction == 0x00E0 {
                    let _cleared = self.display.clear();
                    self.show = true;
                    Ok(false)
                } else if instruction == 0x00EE {
                    if self.sp == 0 {
                        Err(Chip8Error::BoundsError(0))
                    } else {
                        self.sp = self.sp - 1;
                        self.pc = self.stack[self.sp as usize];
                        Ok(false)
                    }
                } else {
                    Err(Chip8Error::UnknownInstruction(instruction))
                }
            },
            0x1 => {
                self.pc = addr;
                Ok(true)
            },
            0x2 => {
                if self.sp >= 16 {
                    Err(Chip8Error::BoundsError(self.sp as usize))
                } else {
                    self.stack[self.sp as usize] = self.pc;
                    self.sp = self.sp + 1;
                    self.pc = addr;
                    Ok(true)
                }
            },
            0x3 => {
                if vx == kk {
                    self.pc_incr();
                }
                Ok(false)
            },
            0x4 => {
                if vx != kk {
                    self.pc_incr();
                }
                Ok(false)
            },
            0x5 => {
                if vx == vy {
                    self.pc_incr();
                }
                Ok(false)
            },
            0x6 => {
                self.v[x] = kk;
                Ok(false)
            },
            0x7 => {
                self.v[x] = wrap_byte(vx as u16 + kk as u16);
                Ok(false)
            },
            0x8 => {
                match n {
                    0x0 => {
                        self.v[x] = vy;
                        Ok(false)
                    },
                    0x1 => {
                        self.v[x] = vx | vy;
                        Ok(false)
                    },
                    0x2 => {
                        self.v[x] = vx & vy;
                        Ok(false)
                    },
                    0x3 => {
                        self.v[x] = vx ^ vy;
                        Ok(false)
                    },
                    0x4 => {
                        let sum = vx as u16 + vy as u16;
                        self.v[x] = wrap_byte(sum);
                        self.v[0xF] = if sum > 255 {
                            1
                        } else {
                            0
                        };
                        Ok(false)
                    },
                    0x5 => {
                        self.v[x] = wrap_byte(vx as u16 + 256 - vy as u16);
                        self.v[0xF] = if vx > vy {
                            1
                        } else {
                            0
                        };
                        Ok(false)
                    },
                    0x6 => {
                        self.v[0xF] = vx % 2;
                        self.v[x] = vx / 2;
                        Ok(false)
                    },
                    0x7 => {
                        self.v[x] = wrap_byte(vy as u16 + 256 - vx as u16);
                        self.v[0xF] = if vy > vx {
                            1
                        } else {
                            0
                        };
                        Ok(false)
                    },
                    0xE => {
                        self.v[0xF] = vx / 128;
                        self.v[x] = wrap_byte(2 * vx as u16);
                        Ok(false)
                    },
                    _ => Err(Chip8Error::UnknownInstruction(instruction)),
                }
            },
            0x9 => {
                if vx != vy {
                    self.pc_incr();
                }
                Ok(false)
            },
            0xA => {
                self.i = addr;
                Ok(false)
            },
            0xB => {
                self.pc = wrap_word(addr as u32 + self.v[0] as u32);
                Ok(true)
            },
            0xC => {
                self.v[x] = rnd & kk;
                Ok(false)
            },
            0xD => {
                if n == 0 {
                    self.v[0xF] = 0;
                    self.show = true;
                    Ok(false)
                } else if self.i as usize + n as usize > 4096 {
                    Err(
                        Chip8Error::BoundsError(
                            if self.i >= 4096 {
                                self.i as usize
                            } else {
                                4096
                            },
                        ),
                    )
                } else {
                    let base = self.i as usize;
                    let n_rows = n as usize;
                    let ghost rows = pre.mem.subrange(base as int, base as int + n_rows as int);
                    let mut hit = false;
                    let mut row: usize = 0;
                    while row < n_rows
                        invariant
                            pre.wf(),
                            self.display.wf(),
                            row <= n_rows,
                            n_rows <= 15,
                            base + n_rows <= 4096,
                            base == pre.i,
                            vx == pre.v[spec_x(instruction)],
                            vy == pre.v[spec_y(instruction)],
                            rows == pre.mem.subrange(base as int, base as int + n_rows as int),
                            self@ == (Chip8View {
                                screen: spec_draw_sprite_upto(
                                    pre.screen,
                                    vx as int,
                                    vy as int,
                                    rows,
                                    row as int,
                                ),
                                ..pre
                            }),
                            hit == spec_draw_sprite_hits_upto(
                                pre.screen,
                                vx as int,
                                vy as int,
                                rows,
                                row as int,
                            ),
                        decreases n_rows - row,
                    {
                        let byte = self.memory[base + row];
                        assert(byte == rows[row as int]);
                        let h = self.display.draw_byte(vx as usize, vy as usize + row, byte);
                        hit = hit || h;
                        row = row + 1;
                    }
                    self.v[0xF] = if hit {
                        1
                    } else {
                        0
                    };
                    self.show = true;
                    Ok(false)
                }
            },
            0xE => {
                if kk == 0x9E {
                    let pressed = match self.key {
                        Some(k) => k == vx,
                        None => false,
                    };
                    if pressed {
                        self.pc_incr();
                    }
                    Ok(false)
                } else if kk == 0xA1 {
                    let pressed = match self.key {
                        Some(k) => k == vx,
                        None => false,
                    };
                    if !pressed {
                        self.pc_incr();
                    }
                    Ok(false)
                } else {
                    Err(Chip8Error::UnknownInstruction(instruction))
                }
            },
            0xF => {
                if kk == 0x07 {
                    self.v[x] = self.dt;
                    Ok(false)
                } else if kk == 0x0A {
                    self.state = Chip8State::WaitingForKey(x);
                    Ok(false)
                } else if kk == 0x15 {
                    self.dt = vx;
                    Ok(false)
                } else if kk == 0x18 {
                    self.st = vx;
                    Ok(false)
                } else if kk == 0x1E {
                    self.i = wrap_word(self.i as u32 + vx as u32);
                    Ok(false)
                } else if kk == 0x29 {
                    self.i = 5 * vx as u16;
                    Ok(false)
                } else if kk == 0x33 {
                    if self.i > 4093 {
                        Err(
                            Chip8Error::BoundsError(
                                if self.i >= 4096 {
                                    self.i as usize
                                } else {
                                    4096
                                },
                            ),
                        )
                    } else {
                        let base = self.i as usize;
                        self.memory[base] = vx / 100;
                        self.memory[base + 1] = (vx / 10) % 10;
                        self.memory[base + 2] = vx % 10;
                        Ok(false)
                    }
                } else if kk == 0x55 {
                    if self.i as usize + x > 4095 {
                        Err(
                            Chip8Error::BoundsError(
                                if self.i >= 4096 {
                                    self.i as usize
                                } else {
                                    4096
                                },
                            ),
                        )
                    } else {
                        let base = self.i as usize;
                        let mut r: usize = 0;
                        while r < x + 1
                            invariant
                                pre.wf(),
                                r <= x + 1,
                                x < 16,
                                base + x <= 4095,
                                base == pre.i,
                                self@ == (Chip8View {
                                    mem: Seq::new(
                                        4096,
                                        |a: int| if base <= a < base + r {
                                            pre.v[a - base]
                                        } else {
                                            pre.mem[a]
                                        },
                                    ),
                                    ..pre
                                }),
                            decreases x + 1 - r,
                        {
                            self.memory[base + r] = self.v[r];
                            proof {
                                assert(self@.mem =~= Seq::new(
                                    4096,
                                    |a: int| if base <= a < base + (r + 1) {
                                        pre.v[a - base]
                                    } else {
                                        pre.mem[a]
                                    },
                                ));
                            }
                            r = r + 1;
                        }
                        proof {
                            assert(self@.mem =~= spec_store_regs(
                                pre.mem,
                                pre.v,
                                base as int,
                                x as int,
                            ));
                        }
                        Ok(false)
                    }
                } else if kk == 0x65 {
                    if self.i as usize + x > 4095 {
                        Err(
                            Chip8Error::BoundsError(
                                if self.i >= 4096 {
                                    self.i as usize
                                } else {
                                    4096
                                },
                            ),
                        )
                    } else {
                        let base = self.i as usize;
                        let mut r: usize = 0;
                        while r < x + 1
                            invariant
                                pre.wf(),
                                r <= x + 1,
                                x < 16,
                                base + x <= 4095,
                                base == pre.i,
                                self@ == (Chip8View {
                                    v: Seq::new(
                                        16,
                                        |q: int| if q < r {
                                            pre.mem[base + q]
                                        } else {
                                            pre.v[q]
                                        },
                                    ),
                                    ..pre
                                }),
                            decreases x + 1 - r,
                        {
                            self.v[r] = self.memory[base + r];
                            proof {
                                assert(self@.v =~= Seq::new(
                                    16,
                                    |q: int| if q < r + 1 {
                                        pre.mem[base + q]
                                    } else {
                                        pre.v[q]
                                    },
                                ));
                            }
                            r = r + 1;
                        }
                        proof {
                            assert(self@.v =~= spec_load_regs(pre.v, pre.mem, base as int, x as int));
                        }
                        Ok(false)
                    }
                } else {
                    Err(Chip8Error::UnknownInstruction(instruction))
                }
            },
            _ => Err(Chip8Error::UnknownInstruction(instruction)),
        }
    }

    /// One step of the machine driven by an explicit random byte, consumed
    /// only by the `Cxkk` instruction; see `spec_step`. Handing the byte in
    /// makes a step fully deterministic.
    pub fn step_with_random(&mut self, rnd: u8) -> (r: Result<(), Chip8Error>)
        requires
            old(self).wf(),
        ensures
            final(self).wf(),
            final(self)@ == spec_step(old(self)@, rnd).0,
            r == spec_step(old(self)@, rnd).1,
    {
        self.show = false;
        match self.state {
            Chip8State::Running => {
                if self.pc >= 4095 {
                    return Err(
                        Chip8Error::BoundsError(
                            if self.pc >= 4096 {
                                self.pc as usize
                            } else {
                                4096
                            },
                        ),
                    );
                }
                let hi = self.memory[self.pc as usize];
                let lo = self.memory[self.pc as usize + 1];
                let instruction = (hi as u16) * 256 + lo as u16;
                match self.exec_instruction(instruction, rnd) {
                    Ok(suppress) => {
                        self.timers_decr();
                        if !suppress {
                            self.pc_incr();
                        }
                        Ok(())
                    },
                    Err(e) => Err(e),
                }
            },
            Chip8State::WaitingForKey(reg) => {
                let r = self.wait_for_key(reg);
                proof {
                    assert(r == Ok::<(), Chip8Error>(()));
                }
                Ok(())
            },
        }
    }

    /// One host-driven step: draws the random byte for `Cxkk` from the
    /// system generator and steps the machine with it. Every outcome is one
    /// of the `spec_step` outcomes for some byte.
    pub fn run_once(&mut self) -> (r: Result<(), Chip8Error>)
        requires
            old(self).wf(),
        ensures
            final(self).wf(),
            exists|rnd: u8| #[trigger] spec_step(old(self)@, rnd) == (final(self)@, r),
    {
        let rnd = random_byte();
        let r = self.step_with_random(rnd);
        proof {
            assert(spec_step(old(self)@, rnd) == (self@, r));
        }
        r
    }
}

/// Relies on rand::random: one byte from the thread-local generator. The
/// value depends on the generator's hidden state, so nothing is promised of
/// it; callers must be correct for every byte.
#[verifier::external_body]
fn random_byte() -> u8 {
    rand::random::<u8>()
}


// The laws below state the interpreter's headline properties over the
// machine view, so that they hold once and for all inputs.

/// The instruction sitting at the program counter, high byte first.
pub open spec fn spec_fetched(pre: Chip8View) -> u16 {
    spec_halfword(pre.mem[pre.pc as int], pre.mem[pre.pc as int + 1])
}

/// Writing a register or memory cell and reading it back returns exactly the
/// value written, and no other cell changes; this holds for every valid
/// index of the 16-register file and of the 4096-byte memory.
pub proof fn lemma_set_get_round_trip(s: Seq<u8>, idx: int, val: u8)
    requires
        0 <= idx < s.len(),
    ensures
        s.update(idx, val)[idx] == val,
        forall|j: int| 0 <= j < s.len() && j != idx ==> s.update(idx, val)[j] == s[j],
{
}

/// After the clear-display instruction 00E0 executes, every pixel reads
/// false.
pub proof fn lemma_step_clear_blanks(pre: Chip8View, rnd: u8)
    requires
        pre.wf(),
        pre.state == Chip8State::Running,
        pre.pc + 1 < 4096,
        spec_fetched(pre) == 0x00E0,
    ensures
        spec_step(pre, rnd).1 == Ok::<(), Chip8Error>(()),
        forall|p: int| 0 <= p < 2048 ==> !spec_step(pre, rnd).0.screen[p],
{
}

/// The jump instruction 1nnn sets the program counter to exactly nnn, with
/// no automatic advance applied afterwards.
pub proof fn lemma_step_jump_sets_pc(pre: Chip8View, rnd: u8)
    requires
        pre.wf(),
        pre.state == Chip8State::Running,
        pre.pc + 1 < 4096,
        spec_opcode(spec_fetched(pre)) == 0x1,
    ensures
        spec_step(pre, rnd).1 == Ok::<(), Chip8Error>(()),
        spec_step(pre, rnd).0.pc == spec_addr(spec_fetched(pre)),
{
}

/// A call 2nnn followed by the return 00EE brings the program counter to
/// the instruction immediately following the call and restores the stack
/// pointer, whenever the call depth stays within the 16-entry stack.
pub proof fn lemma_call_then_return_restores_pc(pre: Chip8View, rnd1: u8, rnd2: u8)
    requires
        pre.wf(),
        pre.state == Chip8State::Running,
        pre.pc + 1 < 4096,
        spec_opcode(spec_fetched(pre)) == 0x2,
        pre.sp < 16,
        spec_addr(spec_fetched(pre)) + 1 < 4096,
        pre.mem[spec_addr(spec_fetched(pre)) as int] == 0x00,
        pre.mem[spec_addr(spec_fetched(pre)) as int + 1] == 0xEE,
    ensures
        spec_step(pre, rnd1).1 == Ok::<(), Chip8Error>(()),
        spec_step(spec_step(pre, rnd1).0, rnd2).1 == Ok::<(), Chip8Error>(()),
        spec_step(spec_step(pre, rnd1).0, rnd2).0.pc == pre.pc + 2,
        spec_step(spec_step(pre, rnd1).0, rnd2).0.sp == pre.sp,
{
    let nnn = spec_addr(spec_fetched(pre));
    let mid = spec_step(pre, rnd1).0;
    assert(mid.pc == nnn);
    assert(mid.sp == pre.sp + 1);
    assert(mid.stack == pre.stack.update(pre.sp as int, pre.pc));
    assert(mid.stack[pre.sp as int] == pre.pc);
    assert(mid.mem == pre.mem);
    let instr2 = spec_fetched(mid);
    assert(instr2 == spec_halfword(0x00, 0xEE));
    assert(instr2 == 0x00EE);
    let fin = spec_step(mid, rnd2).0;
    assert(fin.pc == wrap16(pre.pc + 2));
    lemma_small_mod((pre.pc + 2) as nat, 0x10000);
}

/// The conditional skips 3xkk and 4xkk advance the program counter by 4 in
/// total when the skip condition holds, and by 2 when it does not.
pub proof fn lemma_step_skip_const(pre: Chip8View, rnd: u8)
    requires
        pre.wf(),
        pre.state == Chip8State::Running,
        pre.pc + 1 < 4096,
        spec_opcode(spec_fetched(pre)) == 0x3 || spec_opcode(spec_fetched(pre)) == 0x4,
    ensures
        spec_step(pre, rnd).1 == Ok::<(), Chip8Error>(()),
        ({
            let instr = spec_fetched(pre);
            let holds = if spec_opcode(instr) == 0x3 {
                pre.v[spec_x(instr)] == spec_kk(instr)
            } else {
                pre.v[spec_x(instr)] != spec_kk(instr)
            };
            spec_step(pre, rnd).0.pc == if holds {
                pre.pc + 4
            } else {
                pre.pc + 2
            }
        }),
{
    lemma_small_mod((pre.pc + 2) as nat, 0x10000);
    lemma_small_mod((pre.pc + 4) as nat, 0x10000);
}

/// Storing V0..Vx with Fx55 and then reloading with Fx65 at the same x and I
/// round-trips the registers exactly, as long as the stored range does not
/// overwrite the reload instruction itself.
pub proof fn lemma_store_then_load_round_trips(pre: Chip8View, rnd1: u8, rnd2: u8)
    requires
        pre.wf(),
        pre.state == Chip8State::Running,
        pre.pc + 3 < 4096,
        spec_opcode(spec_fetched(pre)) == 0xF,
        spec_kk(spec_fetched(pre)) == 0x55,
        pre.i + spec_x(spec_fetched(pre)) <= 4095,
        pre.i > pre.pc + 3 || pre.i + spec_x(spec_fetched(pre)) < pre.pc + 2,
        spec_opcode(spec_halfword(pre.mem[pre.pc + 2], pre.mem[pre.pc + 3])) == 0xF,
        spec_kk(spec_halfword(pre.mem[pre.pc + 2], pre.mem[pre.pc + 3])) == 0x65,
        spec_x(spec_halfword(pre.mem[pre.pc + 2], pre.mem[pre.pc + 3])) == spec_x(
            spec_fetched(pre),
        ),
    ensures
        spec_step(pre, rnd1).1 == Ok::<(), Chip8Error>(()),
        spec_step(spec_step(pre, rnd1).0, rnd2).1 == Ok::<(), Chip8Error>(()),
        spec_step(spec_step(pre, rnd1).0, rnd2).0.v == pre.v,
{
    let instr1 = spec_fetched(pre);
    let x = spec_x(instr1);
    let base = pre.i as int;
    let mid = spec_step(pre, rnd1).0;
    lemma_small_mod((pre.pc + 2) as nat, 0x10000);
    assert(mid.v == pre.v);
    assert(mid.mem == spec_store_regs(pre.mem, pre.v, base, x));
    assert(mid.pc == pre.pc + 2);
    assert(mid.i == pre.i);
    assert(mid.state == Chip8State::Running);
    assert(mid.mem[mid.pc as int] == pre.mem[pre.pc + 2]);
    assert(mid.mem[mid.pc as int + 1] == pre.mem[pre.pc + 3]);
    let instr2 = spec_fetched(mid);
    assert(spec_opcode(instr2) == 0xF && spec_kk(instr2) == 0x65 && spec_x(instr2) == x);
    let fin = spec_step(mid, rnd2).0;
    assert(fin.v == spec_load_regs(mid.v, mid.mem, base, x));
    assert forall|q: int| 0 <= q < 16 implies fin.v[q] == pre.v[q] by {
        if q <= x {
            assert(mid.mem[base + q] == pre.v[q]);
        }
    }
    assert(fin.v =~= pre.v);
}

/// While waiting for a key with none latched, a step is a pure no-op apart
/// from the cleared dirty flag: every register, the memory, the timers, and
/// the program counter keep their values.
pub proof fn lemma_wait_without_key(pre: Chip8View, rnd: u8, r: usize)
    requires
        pre.wf(),
        pre.state == Chip8State::WaitingForKey(r),
        pre.key is None,
    ensures
        spec_step(pre, rnd).1 == Ok::<(), Chip8Error>(()),
        spec_step(pre, rnd).0 == (Chip8View { show: false, ..pre }),
{
}

/// Latching a key while waiting stores it into the target register and
/// resumes running; every other register, the timers, and the program
/// counter keep their values.
pub proof fn lemma_wait_with_key(pre: Chip8View, rnd: u8, r: usize, k: u8)
    requires
        pre.wf(),
        pre.state == Chip8State::WaitingForKey(r),
        pre.key == Some(k),
    ensures
        spec_step(pre, rnd).1 == Ok::<(), Chip8Error>(()),
        spec_step(pre, rnd).0.v == pre.v.update(r as int, k),
        spec_step(pre, rnd).0.state == Chip8State::Running,
        spec_step(pre, rnd).0.pc == pre.pc,
        spec_step(pre, rnd).0.dt == pre.dt,
        spec_step(pre, rnd).0.st == pre.st,
        spec_step(pre, rnd).0.mem == pre.mem,
{
}

/// A group-0 instruction that is neither 00E0 nor 00EE is rejected with
/// `UnknownInstruction` carrying the raw instruction; the machine keeps its
/// state apart from the cleared dirty flag.
pub proof fn lemma_group0_unknown_rejected(pre: Chip8View, rnd: u8)
    requires
        pre.wf(),
        pre.state == Chip8State::Running,
        pre.pc + 1 < 4096,
        spec_opcode(spec_fetched(pre)) == 0x0,
        spec_fetched(pre) != 0x00E0,
        spec_fetched(pre) != 0x00EE,
    ensures
        spec_step(pre, rnd).1 == Err::<(), Chip8Error>(
            Chip8Error::UnknownInstruction(spec_fetched(pre)),
        ),
        spec_step(pre, rnd).0 == (Chip8View { show: false, ..pre }),
{
}

/// After a draw instruction Dxyn, the collision flag VF is 1 exactly when
/// at least one pixel went from set to unset during that draw.
pub proof fn lemma_draw_sets_collision_flag(pre: Chip8View, rnd: u8)
    requires
        pre.wf(),
        pre.state == Chip8State::Running,
        pre.pc + 1 < 4096,
        spec_opcode(spec_fetched(pre)) == 0xD,
        spec_n(spec_fetched(pre)) > 0,
        pre.i + spec_n(spec_fetched(pre)) <= 4096,
    ensures
        spec_step(pre, rnd).1 == Ok::<(), Chip8Error>(()),
        ({
            let post = spec_step(pre, rnd).0;
            (post.v[15] == 1 <==> exists|p: int|
                0 <= p < 2048 && #[trigger] pre.screen[p] && !post.screen[p]) && (post.v[15] == 1
                || post.v[15] == 0)
        }),
{
    let instr = spec_fetched(pre);
    let n = spec_n(instr);
    let rows = pre.mem.subrange(pre.i as int, pre.i + n);
    let vx = pre.v[spec_x(instr)];
    let vy = pre.v[spec_y(instr)];
    crate::display::lemma_draw_sprite_hits_iff_transition(
        pre.screen,
        vx as int,
        vy as int,
        rows,
    );
    let post = spec_step(pre, rnd).0;
    assert(post.screen == spec_draw_sprite(pre.screen, vx as int, vy as int, rows));
    assert(post.v[15] == if spec_draw_sprite_hits(pre.screen, vx as int, vy as int, rows) {
        1u8
    } else {
        0u8
    });
}


} // verus!

