//! Internet headers and checksums.

use vstd::prelude::*;

verus! {

pub const SOCK_STREAM: u32 = 1;

pub const SOCK_DGRAM: u32 = 2;

pub const SOCK_RAW: u32 = 3;

pub const AF_INET: u32 = 2;

pub const AF_INET6: u32 = 10;

pub const AF_UNIX: u32 = 1;

#[derive(Clone, Copy, Debug, PartialEq, Eq, Structural)]
pub enum SocketState {
    Closed,
    Listen,
    SynSent,
    SynRecvd,
    Established,
    FinWait1,
    FinWait2,
    TimeWait,
    CloseWait,
    LastAck,
    Closing,
}

/// The number that bytes spell, the first one counting most.
pub open spec fn big_endian(b: Seq<u8>) -> nat
    decreases b.len(),
{
    if b.len() == 0 {
        0
    } else {
        big_endian(b.drop_last()) * 256 + b.last() as nat
    }
}

/// The sum of the words of two bytes that some bytes make up. A last byte on its own is the high
/// byte of a word.
pub open spec fn word_sum(b: Seq<u8>) -> nat
    decreases b.len(),
{
    if b.len() == 0 {
        0
    } else {
        let i = b.len() - 1;
        word_sum(b.drop_last()) + (if i % 2 == 0 {
            b[i] as nat * 256
        } else {
            b[i] as nat
        })
    }
}

/// A sum with all carries added back in at the low end.
pub open spec fn folded(n: int) -> int {
    if n == 0 {
        0
    } else {
        (n - 1) % 0xFFFF + 1
    }
}

/// Adds the carries back in, and takes the complement.
fn fold(n: u32) -> (r: u16)
    ensures
        r == 0xFFFF - folded(n as int),
{
    let mut sum: u32 = n;
    while sum > 0xFFFF
        invariant
            folded(sum as int) == folded(n as int),
        decreases sum,
    {
        let low: u32 = sum % 0x10000;
        let high: u32 = sum / 0x10000;
        assert((sum - 1) % 0xFFFF == (low + high - 1) % 0xFFFF) by {
            assert(sum - 1 == high * 0xFFFF + (low + high - 1));
            vstd::arithmetic::div_mod::lemma_mod_multiples_vanish(high as int, low + high - 1, 0xFFFF);
        }
        sum = low + high;
    }
    assert(folded(sum as int) == sum);
    (0xFFFF - sum) as u16
}

/// Sums up the words of `data` onto `start`.
fn sum_words(start: u32, data: &[u8]) -> (sum: u32)
    requires
        start + word_sum(data@) <= u32::MAX,
    ensures
        sum == start + word_sum(data@),
{
    let mut sum: u32 = start;
    let mut i: usize = 0;
    while i < data.len()
        invariant
            i <= data@.len(),
            start + word_sum(data@) <= u32::MAX,
            sum == start + word_sum(data@.take(i as int)),
        decreases data@.len() - i,
    {
        proof {
            lemma_sum_grows(data@, i + 1);
            assert(data@.take(i + 1).drop_last() =~= data@.take(i as int));
        }
        if i % 2 == 0 {
            sum += data[i] as u32 * 256;
        } else {
            sum += data[i] as u32;
        }
        i += 1;
    }
    assert(data@.take(i as int) =~= data@);
    sum
}

proof fn lemma_sum_grows(b: Seq<u8>, k: int)
    requires
        0 <= k <= b.len(),
    ensures
        word_sum(b.take(k)) <= word_sum(b),
    decreases b.len() - k,
{
    if k < b.len() {
        lemma_sum_grows(b, k + 1);
        assert(b.take(k + 1).drop_last() =~= b.take(k));
    } else {
        assert(b.take(k) =~= b);
    }
}

/// What the addresses, the protocol and the length add to the sum of a segment.
pub open spec fn pseudo_sum(src_ip: u32, dst_ip: u32, len: nat) -> int {
    src_ip / 0x10000 + src_ip % 0x10000 + dst_ip / 0x10000 + dst_ip % 0x10000 + 6 + len % 0x1_0000_0000
}

pub fn tcp_checksum(src_ip: u32, dst_ip: u32, payload: &[u8]) -> (r: u16)
    requires
        pseudo_sum(src_ip, dst_ip, payload@.len()) + word_sum(payload@) <= u32::MAX,
    ensures
        r == 0xFFFF - folded(pseudo_sum(src_ip, dst_ip, payload@.len()) + word_sum(payload@)),
{
    let len: u32 = (payload.len() as u64 % 0x1_0000_0000) as u32;
    let start: u32 = src_ip / 0x10000 + src_ip % 0x10000 + dst_ip / 0x10000 + dst_ip % 0x10000 + 6 + len;
    fold(sum_words(start, payload))
}

pub fn compute_inet_checksum(data: &[u8]) -> (r: u16)
    requires
        word_sum(data@) <= u32::MAX,
    ensures
        r == 0xFFFF - folded(word_sum(data@) as int),
{
    fold(sum_words(0, data))
}

/// The packet starts with a whole header of version 4.
pub open spec fn has_ipv4_header(pkt: Seq<u8>) -> bool {
    &&& pkt.len() >= 20
    &&& pkt[0] / 16 == 4
    &&& pkt[0] % 16 >= 5
    &&& pkt.len() >= pkt[0] as int % 16 * 4
}

/// Source, destination, protocol and total length from the header of a packet.
pub fn parse_ipv4_header(pkt: &[u8]) -> (r: Option<(u32, u32, u8, u16)>)
    ensures
        r == (if has_ipv4_header(pkt@) {
            Some(
                (
                    big_endian(pkt@.subrange(12, 16)) as u32,
                    big_endian(pkt@.subrange(16, 20)) as u32,
                    pkt@[9],
                    big_endian(pkt@.subrange(2, 4)) as u16,
                ),
            )
        } else {
            None
        }),
{
    if pkt.len() < 20 {
        return None;
    }
    let version: u8 = pkt[0] / 16;
    if version != 4 {
        return None;
    }
    let ihl: usize = (pkt[0] % 16) as usize;
    if ihl < 5 || pkt.len() < ihl * 4 {
        return None;
    }
    let total_len: u16 = pkt[2] as u16 * 256 + pkt[3] as u16;
    let src: u32 = word_at(pkt, 12);
    let dst: u32 = word_at(pkt, 16);
    proof {
        let b = pkt@.subrange(2, 4);
        reveal_with_fuel(big_endian, 3);
        assert(b.drop_last().drop_last().len() == 0);
        assert(b.drop_last().last() == pkt@[2] && b.last() == pkt@[3]);
    }
    Some((src, dst, pkt[9], total_len))
}

fn word_at(pkt: &[u8], at: usize) -> (r: u32)
    requires
        at + 4 <= pkt@.len(),
    ensures
        r == big_endian(pkt@.subrange(at as int, at + 4)),
{
    proof {
        let b = pkt@.subrange(at as int, at + 4);
        reveal_with_fuel(big_endian, 5);
        assert(b.drop_last().drop_last().drop_last().drop_last().len() == 0);
        assert(b.last() == pkt@[at + 3] && b.drop_last().last() == pkt@[at + 2]);
        assert(b.drop_last().drop_last().last() == pkt@[at + 1]);
        assert(b.drop_last().drop_last().drop_last().last() == pkt@[at as int]);
    }
    let total: usize = pkt.len();
    pkt[at] as u32 * 0x100_0000 + pkt[at + 1] as u32 * 0x1_0000 + pkt[at + 2] as u32 * 0x100 + pkt[at + 3] as u32
}

/// The addresses, a zero, the protocol and the length, the high bytes first.
pub open spec fn pseudo_header(src: u32, dst: u32, proto: u8, length: u16) -> Seq<u8> {
    seq![
        (src / 0x100_0000) as u8,
        (src / 0x1_0000 % 256) as u8,
        (src / 0x100 % 256) as u8,
        (src % 256) as u8,
        (dst / 0x100_0000) as u8,
        (dst / 0x1_0000 % 256) as u8,
        (dst / 0x100 % 256) as u8,
        (dst % 256) as u8,
        0u8,
        proto,
        (length / 256) as u8,
        (length % 256) as u8,
    ]
}

/// The header that a segment is checked with: the addresses, a zero, the protocol and the
/// length.
pub fn build_pseudo_header(src: u32, dst: u32, proto: u8, length: u16) -> (r: Vec<u8>)
    ensures
        r@ == pseudo_header(src, dst, proto, length),
        r@.len() == 12,
        big_endian(r@.subrange(0, 4)) == src,
        big_endian(r@.subrange(4, 8)) == dst,
        r@[8] == 0,
        r@[9] == proto,
        big_endian(r@.subrange(10, 12)) == length,
{
    let mut hdr: Vec<u8> = Vec::with_capacity(12);
    hdr.push((src / 0x100_0000) as u8);
    hdr.push((src / 0x1_0000 % 256) as u8);
    hdr.push((src / 0x100 % 256) as u8);
    hdr.push((src % 256) as u8);
    hdr.push((dst / 0x100_0000) as u8);
    hdr.push((dst / 0x1_0000 % 256) as u8);
    hdr.push((dst / 0x100 % 256) as u8);
    hdr.push((dst % 256) as u8);
    hdr.push(0);
    hdr.push(proto);
    hdr.push((length / 256) as u8);
    hdr.push((length % 256) as u8);
    assert(hdr@ =~= pseudo_header(src, dst, proto, length));
    proof {
        reveal_with_fuel(big_endian, 5);
        lemma_spells(hdr@.subrange(0, 4));
        lemma_spells(hdr@.subrange(4, 8));
        let b = hdr@.subrange(10, 12);
        assert(b.drop_last().drop_last().len() == 0);
        assert(b.drop_last().last() == hdr@[10] && b.last() == hdr@[11]);
    }
    hdr
}

proof fn lemma_spells(b: Seq<u8>)
    requires
        b.len() == 4,
    ensures
        big_endian(b) == b[0] * 0x100_0000 + b[1] * 0x1_0000 + b[2] * 0x100 + b[3],
{
    reveal_with_fuel(big_endian, 5);
    assert(b.drop_last().drop_last().drop_last().drop_last().len() == 0);
    assert(b.drop_last().last() == b[2]);
    assert(b.drop_last().drop_last().last() == b[1]);
    assert(b.drop_last().drop_last().drop_last().last() == b[0]);
}

/// Data of even length with its checksum behind it has the checksum zero.
pub proof fn law_checksum_checks(data: Seq<u8>, sum: u16)
    requires
        data.len() % 2 == 0,
        sum == 0xFFFF - folded(word_sum(data) as int),
    ensures
        0xFFFF - folded(word_sum(data.push((sum / 256) as u8).push((sum % 256) as u8)) as int) == 0,
{
    let hi = (sum / 256) as u8;
    let lo = (sum % 256) as u8;
    let one = data.push(hi);
    let two = one.push(lo);
    assert(two.drop_last() =~= one);
    assert(one.drop_last() =~= data);
    let s = word_sum(data) as int;
    assert(one[one.len() - 1] == hi && two[two.len() - 1] == lo);
    assert(word_sum(one) == s + hi as nat * 256);
    assert(word_sum(two) == word_sum(one) + lo as nat);
    if s > 0 {
        let f = (s - 1) % 0xFFFF + 1;
        let q = (s - 1) / 0xFFFF;
        assert(s - 1 == q * 0xFFFF + (f - 1));
        assert(s + sum - 1 == q * 0xFFFF + 0xFFFE);
        vstd::arithmetic::div_mod::lemma_mod_multiples_vanish(q, 0xFFFE, 0xFFFF);
    }
}

/// The checksum of a segment is the internet checksum of its pseudo header followed by its
/// bytes.
pub proof fn law_tcp_checksum_covers_pseudo_header(src: u32, dst: u32, payload: Seq<u8>)
    requires
        payload.len() <= 0xFFFF,
    ensures
        pseudo_sum(src, dst, payload.len()) + word_sum(payload) == word_sum(
            pseudo_header(src, dst, 6, payload.len() as u16) + payload,
        ),
{
    let h = pseudo_header(src, dst, 6, payload.len() as u16);
    lemma_sum_joins(h, payload);
    lemma_halves(src);
    lemma_halves(dst);
    lemma_sum_of_pairs(h, 2, src / 0x1_0000);
    lemma_sum_of_pairs(h, 4, src % 0x1_0000);
    lemma_sum_of_pairs(h, 6, dst / 0x1_0000);
    lemma_sum_of_pairs(h, 8, dst % 0x1_0000);
    lemma_sum_of_pairs(h, 10, 6);
    lemma_sum_of_pairs(h, 12, payload.len() as u32);
    assert(h.take(0) =~= Seq::empty());
    assert(h.take(12) =~= h);
}

proof fn lemma_halves(x: u32)
    ensures
        (x / 0x100_0000) as u8 * 256 + (x / 0x1_0000 % 256) as u8 == x / 0x1_0000,
        (x / 0x100 % 256) as u8 * 256 + (x % 256) as u8 == x % 0x1_0000,
{
}

/// What the two bytes before place `n` add to the sum.
proof fn lemma_sum_of_pairs(b: Seq<u8>, n: int, w: u32)
    requires
        2 <= n <= b.len(),
        n % 2 == 0,
        w == b[n - 2] * 256 + b[n - 1],
    ensures
        word_sum(b.take(n)) == word_sum(b.take(n - 2)) + w,
{
    let t = b.take(n);
    let c = t.drop_last();
    assert(c.drop_last() =~= b.take(n - 2));
    assert(c.len() - 1 == n - 2);
    assert((n - 2) % 2 == 0);
    assert((n - 1) % 2 == 1);
    assert(word_sum(c) == word_sum(c.drop_last()) + c[n - 2] as nat * 256);
    assert(word_sum(t) == word_sum(c) + t[n - 1] as nat);
}

proof fn lemma_sum_joins(a: Seq<u8>, b: Seq<u8>)
    requires
        a.len() % 2 == 0,
    ensures
        word_sum(a + b) == word_sum(a) + word_sum(b),
    decreases b.len(),
{
    if b.len() == 0 {
        assert(a + b =~= a);
    } else {
        lemma_sum_joins(a, b.drop_last());
        assert((a + b).drop_last() =~= a + b.drop_last());
    }
}

} // verus!
