//! Tag bytes of the wire format and the byte-length ceilings of the integer codec.
use vstd::prelude::*;

use crate::integer::pow256;

verus! {

pub const NULL: u8 = 0x00;
pub const NULL_ESCAPE: u8 = 0xFF;

pub const BYTES_CODE: u8 = 0x01;
pub const STRING_CODE: u8 = 0x02;
pub const NESTED_CODE: u8 = 0x05;
pub const INT_ZERO_CODE: u8 = 0x14;
pub const INT_NEG_MIN_CODE: u8 = INT_ZERO_CODE - 8;
pub const INT_NEG_MAX_CODE: u8 = INT_ZERO_CODE - 1;
pub const INT_POS_MIN_CODE: u8 = INT_ZERO_CODE + 1;
pub const INT_POS_MAX_CODE: u8 = INT_ZERO_CODE + 8;
pub const FLOAT_CODE: u8 = 0x20;
pub const DOUBLE_CODE: u8 = 0x21;
pub const FALSE_CODE: u8 = 0x26;
pub const TRUE_CODE: u8 = 0x27;
pub const UUID_CODE: u8 = 0x30;

/// The largest magnitude that fits in `n` bytes: `2^(8n) - 1`.
pub fn size_limit(n: usize) -> (r: u64)
    requires
        n <= 8,
    ensures
        r as nat == pow256(n as nat) - 1,
{
    proof {
        crate::integer::lemma_pow256_values();
    }
    match n {
        0 => 0,
        1 => 0xFF,
        2 => 0xFFFF,
        3 => 0xFF_FFFF,
        4 => 0xFFFF_FFFF,
        5 => 0xFF_FFFF_FFFF,
        6 => 0xFFFF_FFFF_FFFF,
        7 => 0xFF_FFFF_FFFF_FFFF,
        _ => 0xFFFF_FFFF_FFFF_FFFF,
    }
}

} // verus!
