//! Words read as signed numbers, and numbers of other widths.

use vstd::prelude::*;

verus! {

/// A word as a signed number.
pub open spec fn as_signed(x: usize) -> isize {
    if x <= isize::MAX {
        x as isize
    } else {
        (x - usize::MAX - 1) as isize
    }
}

/// A word as a signed number.
pub fn to_signed(x: usize) -> (r: isize)
    ensures
        r == as_signed(x),
{
    if x <= isize::MAX as usize {
        x as isize
    } else {
        -((usize::MAX - x) as isize) - 1
    }
}

/// The low 32 bits of a word as a signed number.
pub open spec fn low32(x: usize) -> i32 {
    let n = x as int % 0x1_0000_0000;
    if n < 0x8000_0000 {
        n as i32
    } else {
        (n - 0x1_0000_0000) as i32
    }
}

/// The low 32 bits of a word as a signed number.
pub fn to_i32(x: usize) -> (r: i32)
    ensures
        r == low32(x),
{
    let n: u64 = x as u64 % 0x1_0000_0000;
    if n < 0x8000_0000 {
        n as i32
    } else {
        -((0xFFFF_FFFF - n) as i32) - 1
    }
}

/// A signed number as a word, a negative one wrapped round.
pub open spec fn as_word(x: i32) -> usize {
    if x >= 0 {
        x as usize
    } else {
        (x + usize::MAX + 1) as usize
    }
}

/// A signed number as a word, a negative one wrapped round.
pub fn to_word(x: i32) -> (r: usize)
    ensures
        r == as_word(x),
{
    if x >= 0 {
        x as usize
    } else {
        usize::MAX - (-(x + 1)) as usize
    }
}

/// A number of 64 bits as a signed one.
pub open spec fn signed(x: u64) -> int {
    if x <= i64::MAX {
        x as int
    } else {
        x - 0x1_0000_0000_0000_0000
    }
}

/// A number of 64 bits as a signed one.
pub fn to_i64(x: u64) -> (r: i64)
    ensures
        r == signed(x),
{
    if x <= i64::MAX as u64 {
        x as i64
    } else {
        -((u64::MAX - x) as i64) - 1
    }
}

/// A signed number as one of 64 bits, a negative one wrapped round.
pub open spec fn wrapped(x: int) -> int {
    if x < 0 {
        x + 0x1_0000_0000_0000_0000
    } else {
        x
    }
}

/// A signed number as one of 64 bits, a negative one wrapped round.
pub fn to_u64(x: i64) -> (r: u64)
    ensures
        r == wrapped(x as int),
{
    if x >= 0 {
        x as u64
    } else {
        u64::MAX - (-(x + 1)) as u64
    }
}

} // verus!
