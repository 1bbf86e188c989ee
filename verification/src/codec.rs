//! Checksums and variable-length integers.

use vstd::arithmetic::power2::pow2;
use vstd::prelude::*;

verus! {

/// Polynomial of the reflected 32-bit cyclic redundancy check.
pub const CRC_POLY: u32 = 0xEDB8_8320;

/// One bit of the reflected division.
pub open spec fn crc_step(c: u32) -> u32 {
    if c & 1 != 0 {
        (c >> 1) ^ CRC_POLY
    } else {
        c >> 1
    }
}

/// `n` bits of the reflected division.
pub open spec fn crc_steps(c: u32, n: nat) -> u32
    decreases n,
{
    if n == 0 {
        c
    } else {
        crc_step(crc_steps(c, (n - 1) as nat))
    }
}

/// The register after the bytes of `data`, started from `c`.
pub open spec fn crc_fold(c: u32, data: Seq<u8>) -> u32
    decreases data.len(),
{
    if data.len() == 0 {
        c
    } else {
        crc_steps(crc_fold(c, data.drop_last()) ^ data.last() as u32, 8)
    }
}

/// The 32-bit cyclic redundancy check of `data`.
pub fn compute_crc32(data: &[u8]) -> (r: u32)
    ensures
        r == !crc_fold(0xFFFF_FFFF, data@),
{
    let mut crc: u32 = 0xFFFF_FFFF;
    let mut i: usize = 0;
    while i < data.len()
        invariant
            i <= data@.len(),
            crc == crc_fold(0xFFFF_FFFF, data@.take(i as int)),
        decreases data@.len() - i,
    {
        let ghost before = crc;
        crc ^= data[i] as u32;
        let ghost start = crc;
        let mut k: u32 = 0;
        while k < 8
            invariant
                k <= 8,
                crc == crc_steps(start, k as nat),
            decreases 8 - k,
        {
            if crc & 1 != 0 {
                crc = (crc >> 1) ^ CRC_POLY;
            } else {
                crc >>= 1;
            }
            k += 1;
        }
        assert(data@.take(i + 1).drop_last() =~= data@.take(i as int));
        i += 1;
    }
    assert(data@.take(i as int) =~= data@);
    !crc
}

/// The register of a concatenation is the register of the second part, started from that of
/// the first.
pub proof fn law_crc_concat(c: u32, a: Seq<u8>, b: Seq<u8>)
    ensures
        crc_fold(c, a + b) == crc_fold(crc_fold(c, a), b),
    decreases b.len(),
{
    if b.len() == 0 {
        assert(a + b =~= a);
    } else {
        assert((a + b).drop_last() =~= a + b.drop_last());
        assert((a + b).last() == b.last());
        law_crc_concat(c, a, b.drop_last());
    }
}

/// `v` in groups of seven bits, lowest first; the top bit of a byte says that more follow.
pub open spec fn varint(v: nat) -> Seq<u8>
    decreases v,
{
    if v < 128 {
        seq![v as u8]
    } else {
        seq![(v % 128 + 128) as u8] + varint(v / 128)
    }
}

/// The number that groups of seven bits, lowest first, stand for.
pub open spec fn varint_value(s: Seq<u8>) -> nat
    decreases s.len(),
{
    if s.len() == 0 {
        0
    } else {
        (s[0] % 128) as nat + 128 * varint_value(s.drop_first())
    }
}

/// `n` is the position of the first byte that nothing follows.
pub open spec fn varint_end(data: Seq<u8>, n: int) -> bool {
    &&& 0 <= n < data.len()
    &&& data[n] < 128
    &&& forall|k: int| 0 <= k < n ==> #[trigger] data[k] >= 128
}

/// `data` starts with a number of at most 64 bits whose last byte is at position `n`.
pub open spec fn varint_fits(data: Seq<u8>, n: int) -> bool {
    &&& varint_end(data, n)
    &&& n <= 9
    &&& n == 9 ==> data[9] <= 1
}

/// Appends `value` to `out` and returns how many bytes that took.
pub fn encode_varint(value: u64, out: &mut Vec<u8>) -> (count: usize)
    ensures
        final(out)@ == old(out)@ + varint(value as nat),
        count == varint(value as nat).len(),
{
    let mut rest: u64 = value;
    let mut count: usize = 0;
    proof {
        vstd::arithmetic::power2::lemma2_to64_rest();
        lemma_varint_shape(value as nat, 9);
    }
    loop
        invariant_except_break
            old(out)@ + varint(value as nat) == out@ + varint(rest as nat),
            count + varint(rest as nat).len() == varint(value as nat).len(),
        invariant
            varint(value as nat).len() <= 10,
        ensures
            out@ == old(out)@ + varint(value as nat),
            count == varint(value as nat).len(),
        decreases rest,
    {
        let low: u8 = (rest & 0x7F) as u8;
        let ghost here = rest;
        let ghost text = out@;
        assert(here & 0x7F == here % 128 && here >> 7 == here / 128) by (bit_vector);
        rest >>= 7;
        let byte: u8 = if rest != 0 {
            low | 0x80
        } else {
            low
        };
        assert(low < 128 ==> low | 0x80 == low + 128) by (bit_vector);
        out.push(byte);
        count += 1;
        assert(text + varint(here as nat) =~= out@ + (if rest == 0 { Seq::empty() } else { varint(rest as nat) }));
        if rest == 0 {
            assert(out@ + Seq::<u8>::empty() =~= out@);
            break;
        }
    }
    count
}

/// Reads the number at the start of `data`, with the count of bytes it takes.
pub fn decode_varint(data: &[u8]) -> (r: Option<(u64, usize)>)
    ensures
        r is Some <==> exists|n: int| varint_fits(data@, n),
        r matches Some((v, used)) ==> varint_fits(data@, used - 1) && v == varint_value(data@.take(used as int)),
{
    let mut result: u64 = 0;
    let mut shift: u32 = 0;
    let mut i: usize = 0;
    proof {
        vstd::arithmetic::power2::lemma2_to64();
    }
    while i < data.len()
        invariant
            i <= data@.len(),
            i <= 9,
            shift == 7 * i,
            forall|k: int| 0 <= k < i ==> #[trigger] data@[k] >= 128,
            result == varint_value(data@.take(i as int)),
            result < pow2(shift as nat),
        decreases data@.len() - i,
    {
        let byte: u8 = data[i];
        if shift >= 63 && byte > 1 {
            assert forall|n: int| !varint_fits(data@, n) by {
                if varint_fits(data@, n) {
                    if n < 9 { assert(data@[n] >= 128); }
                    if n > 9 { }
                }
            }
            return None;
        }
        let ghost before = result;
        result |= ((byte & 0x7F) as u64) << shift;
        proof {
            lemma_varint_group(data@, i as int, before, byte, shift, result);
        }
        if byte & 0x80 == 0 {
            assert(byte < 128) by (bit_vector)
                requires
                    byte & 0x80 == 0,
            ;
            assert(varint_fits(data@, i as int));
            return Some((result, i + 1));
        }
        assert(byte >= 128) by (bit_vector)
            requires
                byte & 0x80 != 0,
        ;
        shift += 7;
        if i >= 9 {
            return None;
        }
        i += 1;
    }
    None
}

/// Adding a group above the bits that are there already.
proof fn lemma_varint_group(data: Seq<u8>, i: int, before: u64, byte: u8, shift: u32, result: u64)
    requires
        0 <= i < data.len(),
        i <= 9,
        shift == 7 * i,
        byte == data[i],
        i == 9 ==> byte <= 1,
        before == varint_value(data.take(i)),
        before < pow2(shift as nat),
        result == before | ((byte & 0x7F) as u64) << shift,
    ensures
        result == varint_value(data.take(i + 1)),
        i < 9 ==> result < pow2((shift + 7) as nat),
{
    let g: u64 = (byte & 0x7F) as u64;
    let s: u64 = shift as u64;
    assert(byte & 0x7F == byte % 128) by (bit_vector);
    vstd::bits::lemma_u64_pow2_no_overflow(shift as nat);
    vstd::bits::lemma_u64_shl_is_mul(1, s);
    vstd::arithmetic::power2::lemma2_to64();
    vstd::arithmetic::power2::lemma2_to64_rest();
    assert(result == before + (g << s) && (g << s) == g * (1u64 << s) && (s < 63 ==> result < 128 * (1u64 << s))) by (bit_vector)
        requires
            result == before | (g << s),
            before < 1u64 << s,
            g < 128,
            s < 64,
            s <= 56 || (s == 63 && g <= 1),
    ;
    lemma_varint_value_push(data.take(i), byte);
    assert(data.take(i + 1) =~= data.take(i).push(byte));
    assert(7 * data.take(i).len() == shift as nat);
    assert(1 * pow2(shift as nat) == pow2(shift as nat));
    let p = 1u64 << s;
    assert(g * p == p * g) by (nonlinear_arith);
    vstd::arithmetic::power2::lemma_pow2_adds(7, shift as nat);
}

/// A further byte counts seven bits higher than those before it.
proof fn lemma_varint_value_push(s: Seq<u8>, b: u8)
    ensures
        varint_value(s.push(b)) == varint_value(s) + pow2(7 * s.len()) * (b % 128),
    decreases s.len(),
{
    vstd::arithmetic::power2::lemma2_to64();
    if s.len() == 0 {
        assert(s.push(b).drop_first() =~= Seq::<u8>::empty());
        assert(varint_value(Seq::<u8>::empty()) == 0);
        assert(pow2(7 * s.len()) == 1);
    } else {
        assert(s.push(b).drop_first() =~= s.drop_first().push(b));
        lemma_varint_value_push(s.drop_first(), b);
        vstd::arithmetic::power2::lemma_pow2_adds(7, 7 * s.drop_first().len());
        let p = pow2(7 * s.drop_first().len());
        let x = (b % 128) as nat;
        assert(7 + 7 * s.drop_first().len() == 7 * s.len());
        assert(128 * (p * x) == (128 * p) * x) by (nonlinear_arith);
    }
}

/// At most ten bytes are needed, and the last of ten is at most one.
proof fn lemma_varint_shape(v: nat, groups: nat)
    requires
        v < pow2(7 * groups + 1),
    ensures
        1 <= varint(v).len() <= groups + 1,
        varint_end(varint(v), varint(v).len() - 1),
        varint(v).len() == groups + 1 && groups > 0 ==> varint(v).last() <= 1,
        varint_value(varint(v)) == v,
    decreases groups,
{
    vstd::arithmetic::power2::lemma2_to64();
    let s = varint(v);
    if v < 128 {
        assert(s.drop_first() =~= Seq::<u8>::empty());
        assert(varint_value(Seq::<u8>::empty()) == 0);
        assert(varint_value(s) == v);
        if groups == 0 {
        }
    } else {
        assert(groups > 0);
        vstd::arithmetic::power2::lemma_pow2_adds(7, (7 * groups + 1 - 7) as nat);
        lemma_varint_shape(v / 128, (groups - 1) as nat);
        let rest = varint(v / 128);
        assert(s.drop_first() =~= rest);
        assert forall|k: int| 0 <= k < s.len() - 1 implies #[trigger] s[k] >= 128 by {
            if k > 0 {
                assert(rest[k - 1] >= 128);
            }
        }
        assert(s.last() == rest.last());
        if groups == 1 {
            assert(v / 128 < 2);
            assert(rest =~= seq![(v / 128) as u8]);
        }
    }
}

/// Reading gives back what was written, whatever follows it.
pub proof fn law_varint_roundtrip(v: u64, rest: Seq<u8>)
    ensures
        varint_fits(varint(v as nat) + rest, varint(v as nat).len() - 1),
        varint_value((varint(v as nat) + rest).take(varint(v as nat).len() as int)) == v,
        forall|n: int| #[trigger] varint_fits(varint(v as nat) + rest, n) ==> n == varint(v as nat).len() - 1,
{
    vstd::arithmetic::power2::lemma2_to64_rest();
    lemma_varint_shape(v as nat, 9);
    let s = varint(v as nat);
    let d = s + rest;
    assert(d.take(s.len() as int) =~= s);
    assert forall|k: int| 0 <= k < s.len() - 1 implies #[trigger] d[k] >= 128 by {
        assert(s[k] >= 128);
    }
    assert forall|n: int| #[trigger] varint_fits(d, n) implies n == s.len() - 1 by {
        if n < s.len() - 1 {
            assert(d[n] >= 128);
        }
        if n > s.len() - 1 {
            assert(d[s.len() - 1] >= 128);
        }
    }
}

/// No other way of writing a number down is shorter.
pub proof fn law_varint_is_shortest(s: Seq<u8>)
    requires
        s.len() > 0,
    ensures
        varint(varint_value(s)).len() <= s.len(),
    decreases s.len(),
{
    let v = varint_value(s);
    let rest = s.drop_first();
    if rest.len() == 0 {
        assert(varint_value(rest) == 0);
        assert(v < 128);
    } else if v >= 128 {
        law_varint_is_shortest(rest);
        assert(v / 128 == varint_value(rest));
    }
}

} // verus!
