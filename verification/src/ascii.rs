//! Named ASCII byte values used throughout the lexer and the tables.

use vstd::prelude::*;

verus! {

pub const SP: u8 = 32;

pub const TAB: u8 = 9;

pub const LF: u8 = 10;

pub const VT: u8 = 11;

pub const FF: u8 = 12;

pub const CR: u8 = 13;

pub const SEMI: u8 = 59;

pub const HASH: u8 = 35;

pub const PERCENT: u8 = 37;

pub const SLASH: u8 = 47;

pub const D0: u8 = 48;

pub const D9: u8 = 57;

pub const UP_A: u8 = 65;

pub const UP_Z: u8 = 90;

pub const L_A: u8 = 97;

pub const L_B: u8 = 98;

pub const L_C: u8 = 99;

pub const L_D: u8 = 100;

pub const L_E: u8 = 101;

pub const L_F: u8 = 102;

pub const L_G: u8 = 103;

pub const L_I: u8 = 105;

pub const L_L: u8 = 108;

pub const L_M: u8 = 109;

pub const L_N: u8 = 110;

pub const L_O: u8 = 111;

pub const L_R: u8 = 114;

pub const L_S: u8 = 115;

pub const L_T: u8 = 116;

pub const L_V: u8 = 118;

pub const L_Z: u8 = 122;

} // verus!
