//! ASCII codes of the characters that the puzzle text uses.
use vstd::prelude::*;

verus! {

/// '#'
pub const HASH: u8 = 35;

/// '+'
pub const PLUS: u8 = 43;

/// '|'
pub const PIPE: u8 = 124;

/// '.'
pub const DOT: u8 = 46;

/// '-'
pub const DASH: u8 = 45;

/// ' '
pub const SPACE: u8 = 32;

/// '\t'
pub const TAB: u8 = 9;

/// '\n'
pub const NL: u8 = 10;

/// '\r'
pub const CR: u8 = 13;

/// '_'
pub const UNDERSCORE: u8 = 95;

/// '<'
pub const LT: u8 = 60;

/// '>'
pub const GT: u8 = 62;

/// '^'
pub const CARET: u8 = 94;

/// '!'
pub const BANG: u8 = 33;

/// '@'
pub const AT: u8 = 64;

/// '$'
pub const DOLLAR: u8 = 36;

/// '='
pub const EQ: u8 = 61;

/// '0'
pub const ZERO: u8 = 48;

/// '9'
pub const NINE: u8 = 57;

/// '8'
pub const EIGHT: u8 = 56;

/// 'A'
pub const UP_A: u8 = 65;

/// 'B'
pub const UP_B: u8 = 66;

/// 'C'
pub const UP_C: u8 = 67;

/// 'D'
pub const UP_D: u8 = 68;

/// 'E'
pub const UP_E: u8 = 69;

/// 'F'
pub const UP_F: u8 = 70;

/// 'G'
pub const UP_G: u8 = 71;

/// 'H'
pub const UP_H: u8 = 72;

/// 'I'
pub const UP_I: u8 = 73;

/// 'J'
pub const UP_J: u8 = 74;

/// 'K'
pub const UP_K: u8 = 75;

/// 'L'
pub const UP_L: u8 = 76;

/// 'M'
pub const UP_M: u8 = 77;

/// 'N'
pub const UP_N: u8 = 78;

/// 'O'
pub const UP_O: u8 = 79;

/// 'P'
pub const UP_P: u8 = 80;

/// 'Q'
pub const UP_Q: u8 = 81;

/// 'R'
pub const UP_R: u8 = 82;

/// 'S'
pub const UP_S: u8 = 83;

/// 'T'
pub const UP_T: u8 = 84;

/// 'U'
pub const UP_U: u8 = 85;

/// 'V'
pub const UP_V: u8 = 86;

/// 'W'
pub const UP_W: u8 = 87;

/// 'X'
pub const UP_X: u8 = 88;

/// 'Y'
pub const UP_Y: u8 = 89;

/// 'Z'
pub const UP_Z: u8 = 90;

/// 'a'
pub const LO_a: u8 = 97;

/// 'b'
pub const LO_b: u8 = 98;

/// 'c'
pub const LO_c: u8 = 99;

/// 'd'
pub const LO_d: u8 = 100;

/// 'e'
pub const LO_e: u8 = 101;

/// 'f'
pub const LO_f: u8 = 102;

/// 'g'
pub const LO_g: u8 = 103;

/// 'h'
pub const LO_h: u8 = 104;

/// 'i'
pub const LO_i: u8 = 105;

/// 'j'
pub const LO_j: u8 = 106;

/// 'k'
pub const LO_k: u8 = 107;

/// 'l'
pub const LO_l: u8 = 108;

/// 'm'
pub const LO_m: u8 = 109;

/// 'n'
pub const LO_n: u8 = 110;

/// 'o'
pub const LO_o: u8 = 111;

/// 'p'
pub const LO_p: u8 = 112;

/// 'q'
pub const LO_q: u8 = 113;

/// 'r'
pub const LO_r: u8 = 114;

/// 's'
pub const LO_s: u8 = 115;

/// 't'
pub const LO_t: u8 = 116;

/// 'u'
pub const LO_u: u8 = 117;

/// 'v'
pub const LO_v: u8 = 118;

/// 'w'
pub const LO_w: u8 = 119;

/// 'x'
pub const LO_x: u8 = 120;

/// 'y'
pub const LO_y: u8 = 121;

/// 'z'
pub const LO_z: u8 = 122;

} // verus!
