//! Names for the ASCII byte values the scanners dispatch on.

use vstd::prelude::*;

verus! {

pub const TAB: u8 = 9;

pub const NL: u8 = 10;

pub const CR: u8 = 13;

pub const SP: u8 = 32;

pub const QUOTE: u8 = 34;

pub const HASH: u8 = 35;

pub const APOS: u8 = 39;

pub const LPAR: u8 = 40;

pub const RPAR: u8 = 41;

pub const STAR: u8 = 42;

pub const COMMA: u8 = 44;

pub const DOT: u8 = 46;

pub const SLASH: u8 = 47;

pub const D0: u8 = 48;

pub const D7: u8 = 55;

pub const D9: u8 = 57;

pub const QMARK: u8 = 63;

pub const UP_A: u8 = 65;

pub const UP_F: u8 = 70;

pub const UP_L: u8 = 76;

pub const UP_R: u8 = 82;

pub const UP_U: u8 = 85;

pub const UP_Z: u8 = 90;

pub const BSLASH: u8 = 92;

pub const UNDER: u8 = 95;

pub const LO_A: u8 = 97;

pub const LO_B: u8 = 98;

pub const LO_F: u8 = 102;

pub const LO_N: u8 = 110;

pub const LO_R: u8 = 114;

pub const LO_T: u8 = 116;

pub const LO_U: u8 = 117;

pub const LO_V: u8 = 118;

pub const LO_X: u8 = 120;

pub const LO_Z: u8 = 122;

} // verus!
