//! Reserved RAM addresses of the target machine.
use vstd::prelude::*;

verus! {

pub const SP: u16 = 0;

pub const LCL: u16 = 1;

pub const ARG: u16 = 2;

pub const THIS: u16 = 3;

pub const THAT: u16 = 4;

pub const TEMP: u16 = 5;

pub const STATIC: u16 = 16;

pub const POINTER: u16 = 3;

pub const R0: u16 = 0;

pub const R1: u16 = 1;

pub const R2: u16 = 2;

pub const R3: u16 = 3;

pub const R4: u16 = 4;

pub const R5: u16 = 5;

pub const R6: u16 = 6;

pub const R7: u16 = 7;

pub const R8: u16 = 8;

pub const R9: u16 = 9;

pub const R10: u16 = 10;

pub const R11: u16 = 11;

pub const R12: u16 = 12;

pub const R13: u16 = 13;

pub const R14: u16 = 14;

pub const R15: u16 = 15;

pub const SCREEN: u16 = 0x4000;

pub const KBD: u16 = 0x6000;

} // verus!
