//! Bit manipulation, alignment and integer hashing.

use vstd::arithmetic::power2::pow2;
use vstd::prelude::*;

verus! {

/// Bit `i` of `v`.
pub open spec fn bit(v: u64, i: u64) -> bool {
    (v >> i) & 1 == 1
}

/// Number of set bits of `v` among its lowest `n`.
pub open spec fn ones_below(v: u64, n: nat) -> nat
    decreases n,
{
    if n == 0 {
        0
    } else {
        ones_below(v, (n - 1) as nat) + (if bit(v, (n - 1) as u64) { 1nat } else { 0nat })
    }
}

/// Setting bits of a word and clearing them.
pub proof fn lemma_set_and_clear(e: u32, s: u32, mask: u32)
    ensures
        (e & !0u32) | s == e | s,
        (e | s) & s == s,
        (e | s) | s == e | s,
        s & mask != 0 ==> (e | s) & mask != 0,
        e & mask != 0 ==> (e | s) & mask != 0,
        ((e & !s) | 0) & s == 0,
{
    assert((e & !0u32) | s == e | s && (e | s) & s == s && (e | s) | s == e | s && (s & mask != 0 ==> (e | s) & mask
        != 0) && (e & mask != 0 ==> (e | s) & mask != 0) && ((e & !s) | 0) & s == 0) by (bit_vector);
}

/// The low bits of a word are its remainder.
pub proof fn lemma_low_bits(n: usize)
    ensures
        n & 1 == n % 2,
        n & 3 == n % 4,
        n & 0xF == n % 16,
        n & 0xFF == n % 256,
{
    assert(n & 1 == n % 2 && n & 3 == n % 4 && n & 0xF == n % 16 && n & 0xFF == n % 256) by (bit_vector);
}

/// `v` is a power of two.
pub open spec fn power_of_two(v: nat) -> bool {
    exists|k: nat| v == pow2(k)
}

/// Takes the bits of `b` where `mask` is set and those of `a` elsewhere.
pub fn bitwise_merge(a: u64, b: u64, mask: u64) -> (r: u64)
    ensures
        r == (a & !mask) | (b & mask),
        forall|i: u64| i < 64 ==> #[trigger] bit(r, i) == (if bit(mask, i) { bit(b, i) } else { bit(a, i) }),
{
    let r: u64 = (a & !mask) | (b & mask);
    assert(forall|i: u64| i < 64 ==> #[trigger] bit(r, i) == (if bit(mask, i) { bit(b, i) } else { bit(a, i) }))
        by (bit_vector)
        requires r == (a & !mask) | (b & mask);
    r
}

/// `r` is `value` with its lowest `width` bits rotated left by `amount` and the bits above dropped,
/// or `value` itself where there is nothing to rotate.
pub open spec fn is_rotation(value: u64, amount: u32, width: u32, r: u64) -> bool {
    &&& width == 0 || width > 64 || amount % width == 0 ==> r == value
    &&& 0 < width <= 64 && amount % width != 0 ==> forall|i: u64| i < 64 ==> #[trigger] bit(r, i) == (i < width && bit(
        value,
        if i >= amount % width {
            (i - amount % width) as u64
        } else {
            (i + width - amount % width) as u64
        },
    ))
}

/// Rotating on to a full round restores the bits that were rotated.
pub proof fn law_rotate_back(value: u64, amount: u32, more: u32, width: u32, r: u64, back: u64, i: u64)
    requires
        0 < width <= 64,
        (amount + more) % width as int == 0,
        is_rotation(value, amount, width, r),
        is_rotation(r, more, width, back),
        i < width,
    ensures
        bit(back, i) == bit(value, i),
{
    let w = width as int;
    let a = amount as int % w;
    let b = more as int % w;
    vstd::arithmetic::div_mod::lemma_add_mod_noop(amount as int, more as int, w);
    assert(0 <= a < w && 0 <= b < w);
    assert((a + b) % w == 0);
    if a + b < w {
        vstd::arithmetic::div_mod::lemma_small_mod((a + b) as nat, w as nat);
    } else if a + b > w {
        vstd::arithmetic::div_mod::lemma_mod_add_multiples_vanish(a + b - w, w);
        vstd::arithmetic::div_mod::lemma_small_mod((a + b - w) as nat, w as nat);
    }
    if a != 0 {
        let j: u64 = if i >= b {
            (i - b) as u64
        } else {
            (i + w - b) as u64
        };
        assert(bit(back, i) == bit(r, j));
        assert(bit(r, j) == bit(value, i));
    }
}

/// Rotates the lowest `width` bits of `value` left by `amount`, dropping the bits above.
///
/// A width of zero or more than 64, and an amount that is a multiple of the width,
/// leave the value as it is.
pub fn rotate_bits(value: u64, amount: u32, width: u32) -> (r: u64)
    ensures
        is_rotation(value, amount, width, r),
{
    if width == 0 || width > 64 {
        return value;
    }
    let actual: u32 = amount % width;
    if actual == 0 {
        return value;
    }
    let mask: u64 = if width == 64 {
        !0u64
    } else {
        assert(1u64 << width >= 1) by (bit_vector)
            requires width < 64;
        (1u64 << width) - 1
    };
    let v: u64 = value & mask;
    let r: u64 = ((v << actual) | (v >> (width - actual))) & mask;
    proof {
        let a: u64 = actual as u64;
        let w: u64 = width as u64;
        assert forall|i: u64| i < 64 implies #[trigger] bit(r, i) == (i < width && bit(
            value,
            if i >= actual { (i - actual) as u64 } else { (i + width - actual) as u64 },
        )) by {
            let j: u64 = if i >= actual { (i - actual) as u64 } else { (i + width - actual) as u64 };
            lemma_low_mask_bit(mask, w, i);
            lemma_low_mask_bit(mask, w, j);
            lemma_bit_ops(v << actual | v >> (width - actual), mask, 0, i);
            lemma_bit_ops(v << actual, v >> (width - actual), 0, i);
            lemma_bit_ops(v, 0, a, i);
            lemma_bit_ops(v, 0, (w - a) as u64, i);
            lemma_bit_ops(value, mask, 0, j);
            if i >= actual {
                let k: u64 = (i + width - actual) as u64;
                if k < 64 {
                    lemma_low_mask_bit(mask, w, k);
                    lemma_bit_ops(value, mask, 0, k);
                }
            }
        }
    }
    r
}

/// How the bits of a conjunction, a disjunction and the two shifts come about.
proof fn lemma_bit_ops(x: u64, y: u64, a: u64, i: u64)
    by (bit_vector)
    requires
        i < 64,
        a < 64,
    ensures
        bit(x & y, i) == (bit(x, i) && bit(y, i)),
        bit(x | y, i) == (bit(x, i) || bit(y, i)),
        bit(x << a, i) == (i >= a && bit(x, (i - a) as u64)),
        bit(x >> a, i) == (i + a < 64 && bit(x, (i + a) as u64)),
{
}

proof fn lemma_low_mask_bit(mask: u64, w: u64, i: u64)
    by (bit_vector)
    requires
        i < 64,
        0 < w <= 64,
        mask == (if w == 64 { !0u64 } else { ((1u64 << w) - 1) as u64 }),
    ensures
        bit(mask, i) == (i < w),
{
}

/// One byte of the folded word counts the set bits of the same byte of `v`.
#[verifier::rlimit(100)]
#[verifier::spinoff_prover]
proof fn lemma_folded_byte(v: u64, v1: u64, v2: u64, v3: u64, k: u64)
    requires
        v1 == v - ((v >> 1) & 0x5555555555555555),
        v2 == (v1 & 0x3333333333333333) + ((v1 >> 2) & 0x3333333333333333),
        v3 == ((v2 + (v2 >> 4)) as u64) & 0x0F0F0F0F0F0F0F0F,
        k < 8,
    ensures
        ones_below(v, (8 * k + 8) as nat) == ones_below(v, (8 * k) as nat) + ((v3 >> (8 * k) as u64) & 0xff),
{
    let s: u64 = (8 * k) as u64;
    assert(((v3 >> s) & 0xff) == ((v >> s) & 1) + ((v >> ((s + 1) as u64)) & 1) + ((v >> ((s + 2) as u64)) & 1) + ((v >> ((s + 3) as u64)) & 1)
        + ((v >> ((s + 4) as u64)) & 1) + ((v >> ((s + 5) as u64)) & 1) + ((v >> ((s + 6) as u64)) & 1) + ((v >> ((s + 7) as u64)) & 1)) by (bit_vector)
        requires
            v1 == v - ((v >> 1) & 0x5555555555555555),
            v2 == (v1 & 0x3333333333333333) + ((v1 >> 2) & 0x3333333333333333),
            v3 == ((v2 + (v2 >> 4)) as u64) & 0x0F0F0F0F0F0F0F0F,
            s == 8 * k,
            k < 8,
    ;
    assert(forall|x: u64| #[trigger] (x & 1) <= 1) by (bit_vector);
    reveal_with_fuel(ones_below, 9);
}

/// Number of set bits.
pub fn popcount64(v: u64) -> (r: u32)
    ensures
        r == ones_below(v, 64),
{
    assert(v >= (v >> 1) & 0x5555555555555555) by (bit_vector);
    let v1: u64 = v - ((v >> 1) & 0x5555555555555555);
    assert((v1 & 0x3333333333333333) + ((v1 >> 2) & 0x3333333333333333) <= 0x6666666666666666) by (bit_vector);
    let v2: u64 = (v1 & 0x3333333333333333) + ((v1 >> 2) & 0x3333333333333333);
    assert(v2 + (v2 >> 4) <= u64::MAX) by (bit_vector)
        requires
            v2 <= 0x6666666666666666u64,
    ;
    let v3: u64 = (v2 + (v2 >> 4)) & 0x0F0F0F0F0F0F0F0F;
    assert(v3 == v3 & 0x0F0F0F0F0F0F0F0F) by (bit_vector)
        requires
            v3 == ((v2 + (v2 >> 4)) as u64) & 0x0F0F0F0F0F0F0F0F,
    ;
    let r: u32 = (v3.wrapping_mul(0x0101010101010101) >> 56) as u32;
    proof {
        lemma_folded_byte(v, v1, v2, v3, 0);
        lemma_folded_byte(v, v1, v2, v3, 1);
        lemma_folded_byte(v, v1, v2, v3, 2);
        lemma_folded_byte(v, v1, v2, v3, 3);
        lemma_folded_byte(v, v1, v2, v3, 4);
        lemma_folded_byte(v, v1, v2, v3, 5);
        lemma_folded_byte(v, v1, v2, v3, 6);
        lemma_folded_byte(v, v1, v2, v3, 7);
        let m: u64 = v3.wrapping_mul(0x0101010101010101);
        assert(m >> 56 == (v3 & 0xff) + ((v3 >> 8) & 0xff) + ((v3 >> 16) & 0xff) + ((v3 >> 24) & 0xff) + ((v3 >> 32)
            & 0xff) + ((v3 >> 40) & 0xff) + ((v3 >> 48) & 0xff) + ((v3 >> 56) & 0xff) && m >> 56 <= 0x80) by (bit_vector)
            requires
                m == (v3 * 0x0101010101010101u64) % 0x1_0000_0000_0000_0000,
                v3 == v3 & 0x0F0F0F0F0F0F0F0F,
        ;
        assert(v3 >> 0 == v3) by (bit_vector);
    }
    r
}

/// Number of zero bits above the highest set bit; 64 for zero.
pub fn clz64(v: u64) -> (r: u32)
    ensures
        v == 0 ==> r == 64,
        v != 0 ==> r < 64 && v >> (63 - r) as u64 == 1,
{
    if v == 0 {
        return 64;
    }
    let mut n: u32 = 0;
    let mut x: u64 = v;
    if x & 0xFFFFFFFF00000000 == 0 {
        n += 32;
        x <<= 32;
    }
    let ghost x1 = x;
    if x & 0xFFFF000000000000 == 0 {
        n += 16;
        x <<= 16;
    }
    let ghost x2 = x;
    if x & 0xFF00000000000000 == 0 {
        n += 8;
        x <<= 8;
    }
    let ghost x3 = x;
    if x & 0xF000000000000000 == 0 {
        n += 4;
        x <<= 4;
    }
    let ghost x4 = x;
    if x & 0xC000000000000000 == 0 {
        n += 2;
        x <<= 2;
    }
    let ghost x5 = x;
    if x & 0x8000000000000000 == 0 {
        n += 1;
    }
    proof {
        assert(v >> (63 - n) as u64 == 1) by (bit_vector)
            requires
                v != 0,
                x1 == (if v & 0xFFFFFFFF00000000 == 0 { v << 32 } else { v }),
                x2 == (if x1 & 0xFFFF000000000000 == 0 { x1 << 16 } else { x1 }),
                x3 == (if x2 & 0xFF00000000000000 == 0 { x2 << 8 } else { x2 }),
                x4 == (if x3 & 0xF000000000000000 == 0 { x3 << 4 } else { x3 }),
                x5 == (if x4 & 0xC000000000000000 == 0 { x4 << 2 } else { x4 }),
                n == (if v & 0xFFFFFFFF00000000 == 0 { 32u32 } else { 0 }) + (if x1 & 0xFFFF000000000000 == 0 {
                    16u32
                } else {
                    0
                }) + (if x2 & 0xFF00000000000000 == 0 { 8u32 } else { 0 }) + (if x3 & 0xF000000000000000 == 0 {
                    4u32
                } else {
                    0
                }) + (if x4 & 0xC000000000000000 == 0 { 2u32 } else { 0 }) + (if x5 & 0x8000000000000000 == 0 {
                    1u32
                } else {
                    0
                }),
        ;
    }
    n
}

/// Index of the lowest set bit, if there is one.
pub fn ffs64(v: u64) -> (r: Option<u32>)
    ensures
        r is None <==> v == 0,
        r matches Some(k) ==> k < 64 && bit(v, k as u64) && forall|i: u64| i < k ==> !#[trigger] bit(v, i),
{
    if v == 0 {
        return None;
    }
    let neg: u64 = 0u64.wrapping_sub(v);
    let low: u64 = v & neg;
    proof {
        assert(low != 0) by (bit_vector)
            requires
                v != 0,
                low == v & neg,
                neg + v == 0x1_0000_0000_0000_0000,
        ;
    }
    let n: u32 = clz64(low);
    let k: u32 = 63 - n;
    proof {
        let kk: u64 = k as u64;
        assert(bit(v, kk) && forall|i: u64| i < kk ==> !#[trigger] bit(v, i)) by (bit_vector)
            requires
                low == v & neg,
                neg + v == 0x1_0000_0000_0000_0000,
                low >> kk == 1,
                kk < 64,
        ;
    }
    Some(k)
}

/// Lowest address at or above `addr` that is a multiple of `align`, where `align` is a power
/// of two; any other alignment leaves the address as it is.
pub fn align_up(addr: usize, align: usize) -> (r: usize)
    requires
        power_of_two(align as nat) ==> addr + align <= usize::MAX,
    ensures
        !power_of_two(align as nat) ==> r == addr,
        power_of_two(align as nat) ==> r % align == 0 && addr <= r < addr + align,
{
    if !is_power_of_two(align) {
        return addr;
    }
    proof {
        lemma_mask_low_bits(addr, align);
        lemma_mask_low_bits((addr + align - 1) as usize, align);
    }
    let r: usize = (addr + (align - 1)) & !(align - 1);
    r
}

/// Highest address at or below `addr` that is a multiple of `align`, where `align` is a power
/// of two; any other alignment leaves the address as it is.
pub fn align_down(addr: usize, align: usize) -> (r: usize)
    ensures
        !power_of_two(align as nat) ==> r == addr,
        power_of_two(align as nat) ==> r % align == 0 && r <= addr < r + align,
{
    if !is_power_of_two(align) {
        return addr;
    }
    proof {
        lemma_mask_low_bits(addr, align);
    }
    let r: usize = addr & !(align - 1);
    r
}

/// Whether `v` is a power of two.
pub fn is_power_of_two(v: usize) -> (r: bool)
    ensures
        r == power_of_two(v as nat),
{
    proof {
        if v != 0 {
            lemma_power_of_two_mask(v);
        } else {
            assert forall|k: nat| 0 != pow2(k) by {
                vstd::arithmetic::power2::lemma_pow2_pos(k);
            }
        }
    }
    v != 0 && (v & (v - 1)) == 0
}

/// A positive number is a power of two exactly if it shares no bit with its predecessor.
pub proof fn lemma_power_of_two_mask(v: usize)
    requires
        v != 0,
    ensures
        power_of_two(v as nat) <==> v & (v - 1) as usize == 0,
    decreases v,
{
    use_pow2_unfold();
    if v == 1 {
        assert(1usize & 0usize == 0) by (bit_vector);
        assert(1nat == pow2(0));
    } else {
        let h: usize = v / 2;
        assert((v & (v - 1) as usize == 0) <==> (v % 2 == 0 && h & (h - 1) as usize == 0)) by (bit_vector)
            requires
                v > 1,
                h == v / 2,
        ;
        lemma_power_of_two_mask(h);
        if power_of_two(v as nat) {
            let k = choose|k: nat| v == pow2(k);
            assert(k != 0);
            assert(h == pow2((k - 1) as nat));
        }
        if v % 2 == 0 && power_of_two(h as nat) {
            let k = choose|k: nat| h == pow2(k);
            assert(v == pow2(k + 1));
        }
    }
}

proof fn use_pow2_unfold()
    ensures
        pow2(0) == 1,
        forall|k: nat| k > 0 ==> #[trigger] pow2(k) == 2 * pow2((k - 1) as nat),
        forall|k: nat| #[trigger] pow2(k + 1) == 2 * pow2(k),
{
    vstd::arithmetic::power2::lemma2_to64();
    assert forall|k: nat| k > 0 implies #[trigger] pow2(k) == 2 * pow2((k - 1) as nat) by {
        vstd::arithmetic::power2::lemma_pow2_unfold(k);
    }
    assert forall|k: nat| #[trigger] pow2(k + 1) == 2 * pow2(k) by {
        vstd::arithmetic::power2::lemma_pow2_unfold(k + 1);
    }
}

/// Clearing the bits below a power of two rounds down to a multiple of it.
pub proof fn lemma_mask_low_bits(x: usize, align: usize)
    requires
        power_of_two(align as nat),
    ensures
        align > 0,
        x & !((align - 1) as usize) == x - x % align,
        x & (align - 1) as usize == x % align,
        (x - x % align) % align as int == 0,
{
    let k = choose|k: nat| align == pow2(k);
    vstd::arithmetic::power2::lemma_pow2_pos(k);
    if k >= usize::BITS {
        lemma_pow2_usize_bound(k);
    }
    vstd::bits::lemma_usize_low_bits_mask_is_mod(x, k);
    assert(vstd::bits::low_bits_mask(k) == align - 1);
    let m: usize = (align - 1) as usize;
    assert(x & !m == x - (x & m)) by (bit_vector);
    assert((x - x % align) % align as int == 0) by (nonlinear_arith)
        requires
            align > 0,
    ;
}

proof fn lemma_pow2_usize_bound(k: nat)
    requires
        k >= usize::BITS,
    ensures
        pow2(k) > usize::MAX,
    decreases k,
{
    vstd::arithmetic::power2::lemma2_to64();
    vstd::arithmetic::power2::lemma2_to64_rest();
    if k > usize::BITS {
        use_pow2_unfold();
        lemma_pow2_usize_bound((k - 1) as nat);
    }
}

/// Exponent of the highest power of two that does not exceed `v`; zero for zero.
pub fn log2_floor(v: usize) -> (r: usize)
    ensures
        v == 0 ==> r == 0,
        v != 0 ==> pow2(r as nat) <= v < pow2((r + 1) as nat),
{
    if v == 0 {
        return 0;
    }
    let n: u32 = clz64(v as u64);
    let r: usize = (63 - n) as usize;
    proof {
        vstd::bits::lemma_u64_shr_is_div(v as u64, r as u64);
        vstd::arithmetic::power2::lemma_pow2_pos(r as nat);
        use_pow2_unfold();
        let d = pow2(r as nat);
        assert(d <= v < 2 * d) by (nonlinear_arith)
            requires
                (v as nat) / d == 1,
                d > 0,
        ;
    }
    r
}

/// Mixes `value` into `seed`.
pub fn hash_combine(seed: u64, value: u64) -> (r: u64)
    ensures
        r == seed ^ value.wrapping_mul(0x9e3779b97f4a7c15).wrapping_add(seed << 6).wrapping_add(seed >> 2),
{
    seed ^ (value.wrapping_mul(0x9e3779b97f4a7c15).wrapping_add(seed << 6).wrapping_add(seed >> 2))
}

/// Folds the upper bits of `h` into the lower ones.
pub open spec fn xor_shift(h: u64) -> u64 {
    h ^ (h >> 33)
}

/// Final avalanche step of the 64-bit Murmur3 hash.
pub fn murmurhash3_finalize(h: u64) -> (r: u64)
    ensures
        r == xor_shift(
            xor_shift(xor_shift(h).wrapping_mul(0xff51afd7ed558ccd)).wrapping_mul(0xc4ceb9fe1a85ec53),
        ),
{
    let mut h: u64 = h;
    h ^= h >> 33;
    h = h.wrapping_mul(0xff51afd7ed558ccd);
    h ^= h >> 33;
    h = h.wrapping_mul(0xc4ceb9fe1a85ec53);
    h ^= h >> 33;
    h
}

/// A carriage return becomes a line feed; every other byte stays.
pub fn ser(c: u8) -> (r: u8)
    ensures
        r == (if c == 13 { 10 } else { c }),
{
    if c == 13 {
        10
    } else {
        c
    }
}

} // verus!
