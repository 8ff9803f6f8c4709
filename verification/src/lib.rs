//! A verified CHIP-8 virtual machine.
//!
//! The crate models the classic CHIP-8 interpreter: a 4096-byte memory with a
//! preloaded hexadecimal font, sixteen 8-bit registers, a 16-entry call stack,
//! two timers, a 64x32 monochrome display with XOR drawing, and a
//! fetch-decode-execute step driven by a host loop.

pub mod display;
pub mod util;
pub mod vm;
