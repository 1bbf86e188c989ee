//! What holds of numbers, bytes, limits, objects and memory.

use crate::bits::{bit, is_rotation, ones_below, power_of_two, xor_shift};
use crate::capability::{holds, CapabilitySet};
use crate::circbuf::{laid, next_place, walk};
use crate::codec::{crc_fold, crc_step, crc_steps};
use crate::cpu::context::{fnv_mix, ContextView};
use crate::cpu::trap::TrapView;
use crate::elf::{elf_of, little_endian, phdr_at, phdr_count};
use crate::fs::disk::DiskView;
use crate::limits::ResourceLimits;
use crate::memory::{access_of, page_ceil, page_floor, region_weight, total_weight, Platform, VmRegion};
use crate::net::{big_endian, folded, has_ipv4_header, word_sum};
use crate::ordered::{ascending, lemma_ascending_exists, lemma_filter_ascends, strictly_ascending};
use crate::proc::init::{stack_size, stored, word};
use crate::registry::{edges, is_owned, KernelObjectEntry, RegistryView};
use crate::scan::{occurrences, occurs_at};
use crate::text::{decimal, digit};
use crate::word::{as_signed, as_word, low32, signed, wrapped};
use vstd::arithmetic::power2::pow2;
use vstd::prelude::*;
use vstd::utf8::*;

verus! {

/// A word and the signed number it is read as differ by a whole turn or not at all, and small
/// numbers are read as themselves.
pub proof fn law_words_and_numbers(x: usize, y: i32, z: u64)
    ensures
        as_signed(x) == x || as_signed(x) == x - usize::MAX - 1,
        as_signed(x) >= 0 <==> x <= isize::MAX,
        (low32(x) - x) % 0x1_0000_0000 == 0,
        x <= i32::MAX ==> low32(x) == x,
        as_word(y) == y || as_word(y) == y + usize::MAX + 1,
        y >= 0 ==> as_word(y) == y,
        low32(as_word(y)) == y,
        wrapped(signed(z)) == z,
        z <= i64::MAX ==> signed(z) == z,
        signed(z) == z || signed(z) == z - 0x1_0000_0000_0000_0000,
{
    let n = x as int % 0x1_0000_0000;
    let q = x as int / 0x1_0000_0000;
    assert(x == q * 0x1_0000_0000 + n);
    assert(low32(x) - x == -(q * 0x1_0000_0000) || low32(x) - x == -((q + 1) * 0x1_0000_0000));
    assert(usize::MAX == 0xFFFF_FFFF || usize::MAX == 0xFFFF_FFFF_FFFF_FFFF);
}

/// The number that a row of digits spells.
pub open spec fn spelled(s: Seq<char>) -> int
    decreases s.len(),
{
    if s.len() == 0 {
        0
    } else {
        spelled(s.drop_last()) * 10 + (s.last() as int - 48)
    }
}

/// A numeral spells its number, has digits only, and starts with a zero for zero alone.
pub proof fn law_numeral_spells_its_number(n: nat)
    ensures
        spelled(decimal(n)) == n,
        decimal(n).len() > 0,
        forall|i: int| 0 <= i < decimal(n).len() ==> 48 <= #[trigger] decimal(n)[i] as int <= 57,
        n > 0 ==> decimal(n)[0] as int != 48,
    decreases n,
{
    reveal_with_fuel(spelled, 2);
    assert(digit(n % 10) as int == 48 + n % 10);
    if n < 10 {
        let s = decimal(n);
        assert(s == seq![digit(n)]);
        assert(s.drop_last().len() == 0);
    } else {
        law_numeral_spells_its_number(n / 10);
        let f = decimal(n / 10);
        let s = decimal(n);
        assert(s.drop_last() =~= f);
        assert forall|i: int| 0 <= i < s.len() implies 48 <= #[trigger] s[i] as int <= 57 by {
            if i < f.len() {
                assert(s[i] == f[i]);
            }
        }
        assert(s[0] == f[0]);
    }
}

/// A bit is set if the number with that bit alone has something in common with the word. The set
/// bits of a word and of its complement are all bits.
pub proof fn law_bits_are_counted(v: u64, n: nat, i: u64)
    requires
        n <= 64,
        i < 64,
    ensures
        bit(v, i) <==> v & (1u64 << i) != 0,
        ones_below(v, n) + ones_below(!v, n) == n,
        ones_below(0, n) == 0,
        n > 0 && bit(v, (n - 1) as u64) ==> ones_below(v, n) == ones_below(v, (n - 1) as nat) + 1,
    decreases n,
{
    assert(((v >> i) & 1 == 1) == (v & (1u64 << i) != 0)) by (bit_vector)
        requires
            i < 64,
    ;
    if n > 0 {
        law_bits_are_counted(v, (n - 1) as nat, i);
        let k = (n - 1) as u64;
        assert(((v >> k) & 1 == 1) != ((!v >> k) & 1 == 1) && (0u64 >> k) & 1 == 0) by (bit_vector)
            requires
                k < 64,
        ;
    }
}

/// A rotation moves every bit up by the amount, counted round, and those that leave at the top
/// come in at the bottom. What lies above is dropped. A full round, or a width that is none,
/// leaves the value as it is.
pub proof fn law_rotation_moves_up(value: u64, amount: u32, width: u32, r: u64, up: int, i: u64)
    requires
        is_rotation(value, amount, width, r),
        0 < width <= 64 ==> up == amount as int % width as int,
        i < 64,
    ensures
        width == 0 || width > 64 ==> r == value,
        0 < width <= 64 && up == 0 ==> r == value,
        0 < width <= 64 && i < width && i + up < width ==> bit(r, (i + up) as u64) == bit(value, i),
        0 < width <= 64 && i < width && i + up >= width ==> bit(r, (i + up - width) as u64) == bit(value, i),
        0 < width <= 64 && up > 0 && i >= width ==> !bit(r, i),
{
    if 0 < width <= 64 {
        vstd::arithmetic::div_mod::lemma_mod_bound(amount as int, width as int);
        if up > 0 && i < width {
            let j: u64 = if i + up < width {
                (i + up) as u64
            } else {
                (i + up - width) as u64
            };
            assert(bit(r, j) == bit(value, i));
        } else if up > 0 {
            assert(!bit(r, i));
        }
    }
}

/// A walk of so many steps round a ring ends where they lead, counted round.
pub proof fn law_walk_round_the_ring(x: usize, k: nat, cap: usize)
    requires
        x < cap,
    ensures
        walk(x, k, cap) == (x + k) % cap as int,
        next_place(x, cap) == (if x + 1 == cap {
            0
        } else {
            x + 1
        }),
    decreases k,
{
    vstd::arithmetic::div_mod::lemma_small_mod(x as nat, cap as nat);
    if x + 1 < cap {
        vstd::arithmetic::div_mod::lemma_small_mod((x + 1) as nat, cap as nat);
    } else {
        vstd::arithmetic::div_mod::lemma_mod_self_0(cap as int);
    }
    if k > 0 {
        law_walk_round_the_ring(x, (k - 1) as nat, cap);
        let p = walk(x, (k - 1) as nat, cap);
        vstd::arithmetic::div_mod::lemma_mod_bound(x + k - 1, cap as int);
        assert(p < cap);
        if p + 1 < cap {
            vstd::arithmetic::div_mod::lemma_small_mod((p + 1) as nat, cap as nat);
        } else {
            vstd::arithmetic::div_mod::lemma_mod_self_0(cap as int);
        }
        assert(next_place(p, cap) == (1 + p) % cap as int);
        vstd::arithmetic::div_mod::lemma_add_mod_noop_right(1, x + k - 1, cap as int);
        assert(1 + (x + k - 1) == x + k);
    }
}

proof fn lemma_crc_step(a: u32, b: u32)
    ensures
        crc_step(a) == crc_step(b) ==> a == b,
        crc_step(a ^ b) == crc_step(a) ^ crc_step(b),
{
    let p = 0xEDB8_8320u32;
    let x = if a & 1 != 0 {
        (a >> 1) ^ p
    } else {
        a >> 1
    };
    let y = if b & 1 != 0 {
        (b >> 1) ^ p
    } else {
        b >> 1
    };
    assert(x == y ==> a == b) by (bit_vector)
        requires
            p == 0xEDB8_8320u32,
            x == (if a & 1 != 0 {
                (a >> 1) ^ p
            } else {
                a >> 1
            }),
            y == (if b & 1 != 0 {
                (b >> 1) ^ p
            } else {
                b >> 1
            }),
    ;
    let z = if (a ^ b) & 1 != 0 {
        ((a ^ b) >> 1) ^ p
    } else {
        (a ^ b) >> 1
    };
    assert(z == x ^ y) by (bit_vector)
        requires
            x == (if a & 1 != 0 {
                (a >> 1) ^ p
            } else {
                a >> 1
            }),
            y == (if b & 1 != 0 {
                (b >> 1) ^ p
            } else {
                b >> 1
            }),
            z == (if (a ^ b) & 1 != 0 {
                ((a ^ b) >> 1) ^ p
            } else {
                (a ^ b) >> 1
            }),
    ;
}

proof fn lemma_crc_steps(a: u32, b: u32, n: nat)
    ensures
        crc_steps(a, n) == crc_steps(b, n) ==> a == b,
        crc_steps(a ^ b, n) == crc_steps(a, n) ^ crc_steps(b, n),
    decreases n,
{
    if n > 0 {
        lemma_crc_steps(a, b, (n - 1) as nat);
        lemma_crc_step(crc_steps(a, (n - 1) as nat), crc_steps(b, (n - 1) as nat));
    }
}

/// A step of the check divides by the generator: it halves what is even, one leaves the generator,
/// and sums can be taken before or after.
pub proof fn law_check_divides(a: u32, b: u32)
    ensures
        crc_step(a ^ b) == crc_step(a) ^ crc_step(b),
        crc_step(1) == 0xEDB8_8320,
        a % 2 == 0 ==> crc_step(a) == a / 2,
{
    lemma_crc_step(a, b);
    assert((a & 1 == a % 2) && a >> 1 == a / 2 && 1u32 & 1 == 1 && (1u32 >> 1) ^ 0xEDB8_8320u32 == 0xEDB8_8320u32)
        by (bit_vector);
}

/// Two rows of bytes that differ in one byte have different checks, wherever it is and whatever
/// stands around it.
pub proof fn law_check_sees_a_changed_byte(c: u32, a: Seq<u8>, x: u8, y: u8, b: Seq<u8>)
    requires
        x != y,
    ensures
        crc_fold(c, a.push(x) + b) != crc_fold(c, a.push(y) + b),
    decreases b.len(),
{
    if b.len() == 0 {
        let f = crc_fold(c, a);
        assert(a.push(x) + b =~= a.push(x));
        assert(a.push(y) + b =~= a.push(y));
        assert(a.push(x).drop_last() =~= a);
        assert(a.push(y).drop_last() =~= a);
        lemma_crc_steps(f ^ x as u32, f ^ y as u32, 8);
        let u = x as u32;
        let v = y as u32;
        assert(f ^ u == f ^ v ==> u == v) by (bit_vector);
    } else {
        law_check_sees_a_changed_byte(c, a, x, y, b.drop_last());
        let s = a.push(x) + b;
        let t = a.push(y) + b;
        assert(s.drop_last() =~= a.push(x) + b.drop_last());
        assert(t.drop_last() =~= a.push(y) + b.drop_last());
        let f = crc_fold(c, s.drop_last());
        let g = crc_fold(c, t.drop_last());
        let w = b.last() as u32;
        lemma_crc_steps(f ^ w, g ^ w, 8);
        assert(f ^ w == g ^ w ==> f == g) by (bit_vector);
    }
}

/// Bytes from the network count the first one most, and those of a file the first one least.
pub proof fn law_byte_orders(b: Seq<u8>)
    requires
        b.len() == 4,
    ensures
        big_endian(b) == 0x100_0000 * b[0] + 0x1_0000 * b[1] + 0x100 * b[2] + b[3],
        big_endian(b.take(2)) == 0x100 * b[0] + b[1],
        little_endian(b, 0, 4) == b[0] + 0x100 * b[1] + 0x1_0000 * b[2] + 0x100_0000 * b[3],
        little_endian(b, 1, 2) == b[1] + 0x100 * b[2],
{
    reveal_with_fuel(big_endian, 5);
    reveal_with_fuel(little_endian, 5);
    assert(b.drop_last().drop_last().drop_last().drop_last().len() == 0);
    assert(b.take(2).drop_last().drop_last().len() == 0);
}

/// The sum of words goes on behind an even number of bytes, adding the carries back keeps the
/// remainder, and a full word is left as it is.
pub proof fn law_checksum_parts(a: Seq<u8>, b: Seq<u8>, n: int, x: u8, y: u8)
    requires
        a.len() % 2 == 0,
        0 <= n,
    ensures
        word_sum(a + b) == word_sum(a) + word_sum(b),
        word_sum(seq![x, y]) == 256 * x + y,
        word_sum(seq![x]) == 256 * x,
        n <= 0xFFFF ==> folded(n) == n,
        n > 0 ==> 0 < folded(n) <= 0xFFFF,
        (folded(n) - n) % 0xFFFF == 0,
    decreases b.len(),
{
    reveal_with_fuel(word_sum, 3);
    assert(seq![x, y].drop_last() =~= seq![x]);
    assert(seq![x].drop_last() =~= Seq::<u8>::empty());
    if b.len() == 0 {
        assert(a + b =~= a);
    } else {
        law_checksum_parts(a, b.drop_last(), n, x, y);
        assert((a + b).drop_last() =~= a + b.drop_last());
        let i = (a + b).len() - 1;
        assert((a + b)[i] == b[b.len() - 1]);
        assert(i % 2 == (b.len() - 1) % 2);
    }
    if n > 0 {
        let q = (n - 1) / 0xFFFF;
        let r = (n - 1) % 0xFFFF;
        assert(n - 1 == q * 0xFFFF + r);
        assert(folded(n) - n == -(q * 0xFFFF));
    }
}

/// A packet has a header of version 4 if its first half byte says so, the second one says how many
/// words it has, at least five, and all of them are there.
pub proof fn law_header_is_whole(pkt: Seq<u8>, words: int)
    requires
        pkt.len() > 0,
        0 <= words < 16,
        pkt[0] == 0x40 + words,
    ensures
        has_ipv4_header(pkt) <==> words >= 5 && pkt.len() >= 4 * words,
{
}

/// An executable is accepted if it is long enough, is of the right kind in every respect, and has
/// program headers that lie inside it and of which one is to be loaded. Then its entry point is
/// given.
pub proof fn law_executable_is_accepted(d: Seq<u8>)
    ensures
        elf_of(d) is Ok <==> {
            &&& d.len() >= 64
            &&& d.take(7) == seq![0x7fu8, 0x45, 0x4c, 0x46, 2, 1, 1]
            &&& d[17] == 0 && (d[16] == 2 || d[16] == 3)
            &&& little_endian(d, 56, 2) > 0
            &&& little_endian(d, 32, 8) + little_endian(d, 56, 2) * little_endian(d, 54, 2) <= d.len()
            &&& exists|i: int|
                0 <= i < little_endian(d, 56, 2) && #[trigger] phdr_at(d, i) + 4 <= d.len() && little_endian(
                    d,
                    phdr_at(d, i),
                    4,
                ) == 1
        },
        elf_of(d) is Ok ==> elf_of(d)->Ok_0 == little_endian(d, 24, 8) as usize,
        d.len() < 64 ==> elf_of(d) == Err::<usize, _>("too_short"),
{
    reveal_with_fuel(little_endian, 3);
    let m = seq![0x7fu8, 0x45, 0x4c, 0x46, 2, 1, 1];
    if d.len() >= 64 {
        if d.take(7) == m {
            assert(d.take(7)[0] == m[0] && d.take(7)[1] == m[1] && d.take(7)[2] == m[2] && d.take(7)[3] == m[3]
                && d.take(7)[4] == m[4] && d.take(7)[5] == m[5] && d.take(7)[6] == m[6]);
        }
        if elf_of(d) is Ok {
            assert(d.take(7) =~= m);
        }
        assert(phdr_at(d, phdr_count(d)) == little_endian(d, 32, 8) + little_endian(d, 56, 2) * little_endian(
            d,
            54,
            2,
        ));
    }
}

/// A pattern stands where its bytes stand one after another, and its places are listed in
/// ascending order, each once.
pub proof fn law_pattern_places(data: Seq<u8>, pat: Seq<u8>, n: nat, i: int)
    requires
        0 < pat.len(),
        n <= data.len() <= usize::MAX,
        0 <= i,
    ensures
        occurs_at(data, pat, i) <==> i + pat.len() <= data.len() && forall|j: int|
            0 <= j < pat.len() ==> data[i + j] == #[trigger] pat[j],
        strictly_ascending(occurrences(data, pat, n)),
        forall|x: int| 0 <= x < occurrences(data, pat, n).len() ==> (#[trigger] occurrences(data, pat, n)[x]) + pat.len() <= n,
    decreases n,
{
    if i + pat.len() <= data.len() {
        let s = data.subrange(i, i + pat.len());
        if s == pat {
            assert forall|j: int| 0 <= j < pat.len() implies data[i + j] == #[trigger] pat[j] by {
                assert(s[j] == pat[j]);
            }
        }
        if forall|j: int| 0 <= j < pat.len() ==> data[i + j] == #[trigger] pat[j] {
            assert forall|j: int| 0 <= j < pat.len() implies s[j] == pat[j] by {
                assert(data[i + j] == pat[j]);
            }
            assert(s =~= pat);
        }
    }
    if n > 0 {
        law_pattern_places(data, pat, (n - 1) as nat, i);
    }
}

/// Granting and dropping leave what is ambient, and of what is inheritable all else. A child gets
/// the lower forty capabilities that its parent has, and all that are ambient.
pub proof fn law_capabilities_in_detail(c: CapabilitySet, cap: u32, other: u32)
    requires
        cap < 64,
        other < 64,
        other != cap,
    ensures
        c.granted(cap).ambient == c.ambient,
        c.dropped(cap).ambient == c.ambient,
        holds(c.granted(cap).inheritable, other) == holds(c.inheritable, other),
        holds(c.dropped(cap).inheritable, other) == holds(c.inheritable, other),
        holds(c.inherited().effective, cap) <==> holds(c.effective, cap) && cap < 40,
        holds(c.inherited().inheritable, cap) <==> holds(c.inheritable, cap) && cap < 40,
        c.inherited().ambient == c.ambient,
        holds(c.effective, cap) <==> bit(c.effective, cap as u64),
{
    let v = c.inheritable;
    let e = c.effective;
    assert((v | (1u64 << cap)) & (1u64 << other) == v & (1u64 << other) && (v & !(1u64 << cap)) & (1u64 << other) == v & (
    1u64 << other) && ((e & 0xFF_FFFF_FFFF) & (1u64 << cap) != 0) == (e & (1u64 << cap) != 0 && cap < 40) && ((v
        & 0xFF_FFFF_FFFF) & (1u64 << cap) != 0) == (v & (1u64 << cap) != 0 && cap < 40) && ((e >> cap) & 1 == 1) == (e & (1u64
        << cap) != 0)) by (bit_vector)
        requires
            cap < 64,
            other < 64,
            other != cap,
    ;
    let k = cap as u64;
    assert((e >> k) & 1 == (e >> cap) & 1) by (bit_vector)
        requires
            k == cap as u64,
    ;
}

/// Which number stands for which limit. Any other number stands for none and sets nothing.
pub proof fn law_limits_by_number(l: ResourceLimits, n: usize, v: usize)
    ensures
        l.limit(0) == Some(l.cpu_time_limit),
        l.limit(1) == Some(l.max_file_size),
        l.limit(2) == Some(l.max_data_size),
        l.limit(3) == Some(l.max_stack_size),
        l.limit(7) == Some(l.max_fds),
        n != 0 && n != 1 && n != 2 && n != 3 && n != 7 ==> l.limit(n) is None && l.changed(n, v) == l,
        l.changed(n, v).max_threads == l.max_threads,
        l.changed(n, v).max_mappings == l.max_mappings,
{
}

/// A new object has one reference, its type, owner, time and parent, and is listed last under its
/// type. Nothing else changes.
pub proof fn law_registered_object(
    r: RegistryView,
    tag: u32,
    owner: usize,
    parent: Option<usize>,
    tick: usize,
    other: usize,
    t: u32,
)
    requires
        other != r.seq,
        t != tag,
    ensures
        ({
            let a = r.with_object(tag, owner, parent, tick);
            let o = a.objects[r.seq];
            &&& a.objects.dom() == r.objects.dom().insert(r.seq)
            &&& o.obj_id == r.seq && o.type_tag == tag && o.owner_pid == owner && o.created_tick == tick && o.ref_count == 1
                && o.parent_id == parent
            &&& r.objects.dom().contains(other) ==> a.objects[other] == r.objects[other]
            &&& a.of_type(tag) == r.of_type(tag) + seq![r.seq]
            &&& a.of_type(t) == r.of_type(t)
            &&& r.seq < usize::MAX ==> a.seq == r.seq + 1
        }),
{
    let a = r.with_object(tag, owner, parent, tick);
    assert(a.objects.dom() =~= r.objects.dom().insert(r.seq));
    assert(r.of_type(tag).push(r.seq) =~= r.of_type(tag) + seq![r.seq]);
}

/// Taking an object off takes it and its entry under its type, and nothing else. Counting
/// references changes just the count.
pub proof fn law_object_is_taken_off(r: RegistryView, id: usize, other: usize, n: usize)
    requires
        r.objects.dom().contains(id),
        other != id,
    ensures
        !r.without(id).objects.dom().contains(id),
        r.without(id).objects.dom().contains(other) == r.objects.dom().contains(other),
        r.objects.dom().contains(other) ==> r.without(id).objects[other] == r.objects[other],
        !r.without(id).of_type(r.objects[id].type_tag).contains(id),
        r.without(id).seq == r.seq,
        r.with_count(id, n).objects[id] == (KernelObjectEntry { ref_count: n, ..r.objects[id] }),
        r.with_count(id, n).objects.dom() == r.objects.dom(),
        r.objects.dom().contains(other) ==> r.with_count(id, n).objects[other] == r.objects[other],
        r.with_count(id, n).seq == r.seq && r.with_count(id, n).type_index == r.type_index,
{
    let tag = r.objects[id].type_tag;
    assert(r.with_count(id, n).objects.dom() =~= r.objects.dom());
    if r.type_index.dom().contains(tag) {
        let s = r.type_index[tag];
        let keep = crate::registry::not_id(id);
        let f = s.filter(keep);
        if f.contains(id) {
            let i = choose|i: int| 0 <= i < f.len() && f[i] == id;
            s.lemma_filter_pred(keep, i);
        }
    }
}

/// The objects of a process are those registered that it owns, in ascending order. The graph has
/// an edge for each object that has a parent, from the parent to it, and no other.
pub proof fn law_owners_and_graph(r: RegistryView, pid: usize, id: usize, p: usize)
    requires
        r.objects.dom().finite(),
    ensures
        ({
            let mine = ascending(r.objects.dom()).filter(is_owned(r.objects, pid));
            let g = edges(ascending(r.objects.dom()), r.objects);
            &&& strictly_ascending(mine)
            &&& mine.contains(id) <==> r.objects.dom().contains(id) && r.objects[id].owner_pid == pid
            &&& g.contains((p, id)) <==> r.objects.dom().contains(id) && r.objects[id].parent_id == Some(p)
        }),
{
    let ids = ascending(r.objects.dom());
    lemma_ascending_exists(r.objects.dom());
    lemma_filter_ascends(ids, is_owned(r.objects, pid));
    assert(ids.to_set().contains(id) == r.objects.dom().contains(id));
    let mine = ids.filter(is_owned(r.objects, pid));
    if mine.contains(id) {
        let i = choose|i: int| 0 <= i < mine.len() && mine[i] == id;
        assert(ids.contains(mine[i]) && is_owned(r.objects, pid)(mine[i]));
    }
    if r.objects.dom().contains(id) && r.objects[id].owner_pid == pid {
        assert(is_owned(r.objects, pid)(id));
    }
    lemma_edges(ids, r.objects, p, id);
}

proof fn lemma_edges(ids: Seq<usize>, objects: Map<usize, KernelObjectEntry>, p: usize, id: usize)
    ensures
        edges(ids, objects).contains((p, id)) <==> ids.contains(id) && objects[id].parent_id == Some(p),
    decreases ids.len(),
{
    if ids.len() > 0 {
        let t = ids.drop_last();
        let last = ids[ids.len() - 1];
        lemma_edges(t, objects, p, id);
        let f = edges(t, objects);
        let g = edges(ids, objects);
        assert(ids.contains(id) <==> t.contains(id) || id == last) by {
            if ids.contains(id) && id != last {
                let i = choose|i: int| 0 <= i < ids.len() && ids[i] == id;
                assert(t[i] == id);
            }
            if t.contains(id) {
                let i = choose|i: int| 0 <= i < t.len() && t[i] == id;
                assert(ids[i] == id);
            }
            assert(ids[ids.len() - 1] == last);
        }
        if let Some(q) = objects[last].parent_id {
            assert(g == f.push((q, last)));
            if g.contains((p, id)) {
                let i = choose|i: int| 0 <= i < g.len() && g[i] == (p, id);
                if i < f.len() {
                    assert(f[i] == (p, id));
                }
            }
            if f.contains((p, id)) {
                let i = choose|i: int| 0 <= i < f.len() && f[i] == (p, id);
                assert(g[i] == (p, id));
            }
            assert(g[f.len() as int] == (q, last));
        }
    }
}

/// Rounding down and up to a page: the nearest multiples on either side, which are the number
/// itself where it is one.
pub proof fn law_pages(n: int)
    requires
        0 <= n,
    ensures
        page_floor(n) % 4096 == 0,
        page_floor(n) <= n < page_floor(n) + 4096,
        page_ceil(n) % 4096 == 0,
        page_ceil(n) - 4096 < n <= page_ceil(n),
        n % 4096 == 0 ==> page_floor(n) == n && page_ceil(n) == n,
{
}

/// When an access to user memory is let through, and which refusal comes first.
pub proof fn law_access_is_checked(p: Platform, ranges: Seq<(usize, usize)>, mode: u8, addr: usize, len: usize)
    ensures
        ({
            let r = access_of(p, ranges, mode, addr, len);
            let end = addr + len;
            let inside = exists|i: int| 0 <= i < ranges.len() && (#[trigger] ranges[i]).0 <= addr && end <= ranges[i].1;
            let span = (end + 4095) / 4096 * 4096 - addr as int / 4096 * 4096;
            &&& len == 0 ==> r is Ok
            &&& r is Ok && len > 0 <==> {
                &&& len > 0
                &&& end <= usize::MAX
                &&& end < p.kern_base
                &&& mode <= 2
                &&& mode == 2 ==> span <= p.kheap_sz
                &&& inside
            }
            &&& len > 0 && end > usize::MAX ==> r == Err::<(), _>("eoverflow")
            &&& len > 0 && p.kern_base <= end <= usize::MAX ==> r == Err::<(), _>("efault")
            &&& len > 0 && end < p.kern_base && end <= usize::MAX && mode > 2 ==> r == Err::<(), _>("einval")
        }),
{
    let end = addr + len;
    assert((end + 4095) - (end + 4095) % 4096 == (end + 4095) / 4096 * 4096);
    assert(addr - addr as int % 4096 == addr as int / 4096 * 4096);
}

/// What a region counts for: its pages, three times if it can be executed, twice if it can just be
/// written, and all that double unless it is shared. Regions add up.
pub proof fn law_regions_add_up(a: Seq<VmRegion>, b: Seq<VmRegion>, r: VmRegion, pages: int)
    requires
        pages * 4096 - 4096 < r.len <= pages * 4096,
    ensures
        total_weight(a + b) == total_weight(a) + total_weight(b),
        total_weight(seq![r]) == region_weight(r),
        ({
            let n = pages * 4096 * (if r.flags & 8 != 0 {
                1
            } else {
                2int
            });
            &&& r.flags & 4 != 0 ==> region_weight(r) == 3 * n
            &&& r.flags & 4 == 0 && r.flags & 2 != 0 ==> region_weight(r) == 2 * n
            &&& r.flags & 4 == 0 && r.flags & 2 == 0 ==> region_weight(r) == n
        }),
    decreases b.len(),
{
    let n = r.len as int;
    assert(n + 4095 - (n + 4095) % 4096 == pages * 4096);
    reveal_with_fuel(total_weight, 2);
    assert(seq![r].drop_last() =~= Seq::<VmRegion>::empty());
    if b.len() == 0 {
        assert(a + b =~= a);
    } else {
        law_regions_add_up(a, b.drop_last(), r, pages);
        assert((a + b).drop_last() =~= a + b.drop_last());
        assert((a + b).last() == b.last());
    }
}

/// What a stack takes: one argument or variable more takes its bytes, a zero behind them and a
/// word to point at it, one auxiliary entry two words, and five words stand there in any case.
pub proof fn law_stack_grows(args: Seq<String>, envs: Seq<String>, aux: nat, s: String)
    ensures
        stack_size(args.push(s), envs, aux) == stack_size(args, envs, aux) + encode_utf8(s@).len() + 1 + word(),
        stack_size(args, envs.push(s), aux) == stack_size(args, envs, aux) + encode_utf8(s@).len() + 1 + word(),
        stack_size(args, envs, aux + 1) == stack_size(args, envs, aux) + 2 * word(),
        stack_size(Seq::empty(), Seq::empty(), 0) == 5 * word(),
{
    assert(args.push(s).drop_last() =~= args);
    assert(envs.push(s).drop_last() =~= envs);
    let w = word() as int;
    let n = aux * 2 + 2 + args.len() + 1 + envs.len() + 1 + 1;
    assert((n + 1) * w == n * w + w) by (nonlinear_arith);
    assert((n + 2) * w == n * w + 2 * w) by (nonlinear_arith);
    assert(stored(Seq::<String>::empty()) == 0);
}

/// Which part of a context an operation replaces, and that it leaves the others.
pub proof fn law_context_parts(c: ContextView, op: u8, val: u64, i: int)
    requires
        c.r.len() == 16,
        op < 16,
        0 <= i < 16,
    ensures
        ({
            let d = c.transformed(op, val);
            &&& d.r.len() == 16
            &&& op == 0 ==> d.r[0] == val
            &&& op == 1 ==> d.ip == val
            &&& op == 2 ==> d.r[15] == val
            &&& op == 3 ==> d.r[14] == val
            &&& op == 4 ==> d.flags == val
            &&& op > 5 ==> d == c
            &&& op != 1 ==> d.ip == c.ip
            &&& op != 4 ==> d.flags == c.flags
            &&& (op == 0 && i != 0) || (op == 2 && i != 15) || (op == 3 && i != 14) || op == 1 || op == 4 ==> d.r[i] == c.r[i]
            &&& op == 5 && val < 0x1000_0000_0000_0000 ==> d.r[(val / 0x100_0000_0000_0000) as int] == val
                % 0x100_0000_0000_0000
            &&& op == 5 && val >= 0x1000_0000_0000_0000 ==> d == c
        }),
{
    assert(op & 0x0F == op && val >> 56 == val / 0x100_0000_0000_0000 && val & 0x00FF_FFFF_FFFF_FFFF == val
        % 0x100_0000_0000_0000) by (bit_vector)
        requires
            op < 16,
    ;
}

/// A mask with one bit lets just that one through: the first eight go by hardware's mask and the
/// next eight by software's, and none after those. A trap that is taken is counted and its context
/// kept.
pub proof fn law_masks_let_through(t: TrapView, v: u32, w: u32, c: ContextView)
    requires
        v < 8,
        w < 8,
    ensures
        t.hw_mask == 1u32 << v ==> (t.lets(w as usize) <==> w == v),
        t.sw_mask == 1u32 << v ==> (t.lets((w + 8) as usize) <==> w == v),
        !t.lets(16),
        t.dispatched(c).frame == Some(c),
        t.nest < usize::MAX ==> t.dispatched(c).nest == t.nest + 1,
        t.dispatched(c) == (TrapView { frame: Some(c), nest: t.dispatched(c).nest, ..t }),
{
    let x = w as usize;
    assert(((1u32 << v) & (1u32 << x) != 0) == (w == v)) by (bit_vector)
        requires
            v < 8,
            w < 8,
            x == w as usize,
    ;
}

/// A write to a disk counts one access and uses up one error if there are any left that run out.
pub proof fn law_write_uses_up_an_error(d: DiskView)
    ensures
        d.ops < usize::MAX ==> d.after_access().ops == d.ops + 1,
        0 < d.errs < usize::MAX ==> d.after_access().errs == d.errs - 1,
        d.errs == 0 || d.errs == usize::MAX ==> d.after_access().errs == d.errs,
        d.after_access() == (DiskView { errs: d.after_access().errs, ops: d.after_access().ops, ..d }),
{
}

/// One is a power of two, zero is none, and doubling makes powers of powers and of nothing else.
/// No other odd number is one.
pub proof fn law_powers_of_two(v: nat)
    ensures
        power_of_two(1),
        !power_of_two(0),
        power_of_two(2 * v) <==> power_of_two(v),
        v > 0 ==> !power_of_two(2 * v + 1),
{
    vstd::arithmetic::power2::lemma2_to64();
    assert(1 == pow2(0));
    assert forall|k: nat| #[trigger] pow2(k) > 0 && (k > 0 ==> pow2(k) == 2 * pow2((k - 1) as nat)) by {
        vstd::arithmetic::power2::lemma_pow2_pos(k);
        if k > 0 {
            vstd::arithmetic::power2::lemma_pow2_unfold(k);
        }
    }
    if power_of_two(v) {
        let k = choose|k: nat| v == pow2(k);
        assert(2 * v == pow2(k + 1));
    }
    if power_of_two(2 * v) {
        let k = choose|k: nat| 2 * v == pow2(k);
        assert(v == pow2((k - 1) as nat));
    }
    if power_of_two(2 * v + 1) {
        let k = choose|k: nat| 2 * v + 1 == pow2(k);
        assert(k > 0 ==> pow2(k) == 2 * pow2((k - 1) as nat));
    }
}

/// Folding the upper bits into the lower ones undoes itself.
pub proof fn law_folding_undoes_itself(h: u64)
    ensures
        xor_shift(xor_shift(h)) == h,
        h < 0x2_0000_0000 ==> xor_shift(h) == h,
{
    assert((h ^ (h >> 33)) ^ ((h ^ (h >> 33)) >> 33) == h && (h < 0x2_0000_0000 ==> h ^ (h >> 33) == h)) by (bit_vector);
}

/// Words that differ in one place are mixed into different values, whatever stands before and
/// behind it.
pub proof fn law_mixing_tells_words_apart(a: Seq<u64>, x: u64, y: u64, b: Seq<u64>)
    requires
        x != y,
    ensures
        fnv_mix(a.push(x) + b) != fnv_mix(a.push(y) + b),
    decreases b.len(),
{
    let s = a.push(x) + b;
    let t = a.push(y) + b;
    let (f, g, u, v) = if b.len() == 0 {
        assert(s.drop_last() =~= a);
        assert(t.drop_last() =~= a);
        (fnv_mix(a), fnv_mix(a), x, y)
    } else {
        law_mixing_tells_words_apart(a, x, y, b.drop_last());
        assert(s.drop_last() =~= a.push(x) + b.drop_last());
        assert(t.drop_last() =~= a.push(y) + b.drop_last());
        (fnv_mix(s.drop_last()), fnv_mix(t.drop_last()), b.last(), b.last())
    };
    assert(s.last() == u && t.last() == v);
    assert((f == g && u != v) || (f != g && u == v) ==> f ^ u != g ^ v) by (bit_vector);
    lemma_times_prime(f ^ u);
    lemma_times_prime(g ^ v);
}

/// Multiplying by the prime can be undone.
proof fn lemma_times_prime(p: u64)
    ensures
        (p.wrapping_mul(0x100000001b3) as int * 0xce965057aff6957b) % 0x1_0000_0000_0000_0000 == p,
{
    let m = 0x1_0000_0000_0000_0000int;
    let a = p as int * 0x100000001b3;
    vstd::arithmetic::div_mod::lemma_mul_mod_noop_left(a, 0xce965057aff6957b, m);
    vstd::arithmetic::div_mod::lemma_fundamental_div_mod(a * 0xce965057aff6957b, m);
    let n = 0x100000001b3int * 0xce965057aff6957b;
    assert(a * 0xce965057aff6957b == p * n) by (nonlinear_arith)
        requires
            a == p as int * 0x100000001b3,
            n == 0x100000001b3int * 0xce965057aff6957b,
    ;
    let c = n / m;
    assert(n == c * m + 1);
    assert(p * n == p as int + m * (p * c)) by (nonlinear_arith)
        requires
            n == c * m + 1,
    ;
    vstd::arithmetic::div_mod::lemma_mod_multiples_vanish(p * c, p as int, m);
    vstd::arithmetic::div_mod::lemma_small_mod(p as nat, m as nat);
}

/// Bytes that are laid into a ring stand behind the tail, one after another, and all else stays.
pub proof fn law_bytes_are_laid(data: Seq<u8>, tail: usize, src: Seq<u8>, cap: usize, at: int)
    requires
        tail < cap,
        data.len() == cap,
        src.len() <= cap,
        1 <= at <= cap,
    ensures
        laid(data, tail, src, cap).len() == cap,
        at <= src.len() ==> laid(data, tail, src, cap)[(tail + at) % cap as int] == src[at - 1],
        at > src.len() ==> laid(data, tail, src, cap)[(tail + at) % cap as int] == data[(tail + at) % cap as int],
    decreases src.len(),
{
    vstd::arithmetic::div_mod::lemma_mod_bound(tail + at, cap as int);
    if src.len() > 0 {
        law_bytes_are_laid(data, tail, src.drop_last(), cap, at);
        law_walk_round_the_ring(tail, src.len(), cap);
        let n = src.len() as int;
        vstd::arithmetic::div_mod::lemma_mod_bound(tail + n, cap as int);
        if at != n {
            lemma_places_differ(tail as int, at, n, cap as int);
        }
    }
}

proof fn lemma_places_differ(t: int, a: int, b: int, cap: int)
    requires
        0 <= t < cap,
        1 <= a <= cap,
        1 <= b <= cap,
        a != b,
    ensures
        (t + a) % cap != (t + b) % cap,
{
    lemma_place(t + a, cap);
    lemma_place(t + b, cap);
}

proof fn lemma_place(x: int, cap: int)
    requires
        0 < cap,
        0 <= x < 2 * cap,
    ensures
        x % cap == (if x < cap {
            x
        } else {
            x - cap
        }),
{
    if x < cap {
        vstd::arithmetic::div_mod::lemma_small_mod(x as nat, cap as nat);
    } else {
        vstd::arithmetic::div_mod::lemma_small_mod((x - cap) as nat, cap as nat);
        vstd::arithmetic::div_mod::lemma_mod_multiples_vanish(1, x - cap, cap);
    }
}

} // verus!
