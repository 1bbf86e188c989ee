//! The header of an executable file.

use vstd::prelude::*;

verus! {

/// The number that the `n` bytes from place `at` on spell, the first one counting least.
pub open spec fn little_endian(d: Seq<u8>, at: int, n: nat) -> nat
    decreases n,
{
    if n == 0 {
        0
    } else {
        d[at] as nat + 256 * little_endian(d, at + 1, (n - 1) as nat)
    }
}

/// Where program header number `i` starts.
pub open spec fn phdr_at(d: Seq<u8>, i: int) -> int {
    little_endian(d, 32, 8) + i * little_endian(d, 54, 2)
}

pub open spec fn phdr_count(d: Seq<u8>) -> int {
    little_endian(d, 56, 2) as int
}

/// Some program header asks for a segment to be loaded.
pub open spec fn has_load(d: Seq<u8>) -> bool {
    exists|i: int|
        0 <= i < phdr_count(d) && #[trigger] phdr_at(d, i) + 4 <= d.len() && little_endian(d, phdr_at(d, i), 4) == 1
}

/// The identification and the kind of the file are as they must be, and there are program
/// headers.
pub open spec fn reaches_phdrs(d: Seq<u8>) -> bool {
    &&& d.len() >= 64
    &&& d[0] == 0x7f && d[1] == 0x45 && d[2] == 0x4c && d[3] == 0x46
    &&& d[4] == 2 && d[5] == 1 && d[6] == 1
    &&& little_endian(d, 16, 2) == 2 || little_endian(d, 16, 2) == 3
    &&& phdr_count(d) > 0
}

/// What is found of a header: the entry point, or the first thing that is wrong with it.
pub open spec fn elf_of(d: Seq<u8>) -> Result<usize, &'static str> {
    if d.len() < 64 {
        Err("too_short")
    } else if !(d[0] == 0x7f && d[1] == 0x45 && d[2] == 0x4c && d[3] == 0x46) {
        Err("bad_magic")
    } else if d[4] != 2 {
        Err("not_64bit")
    } else if d[5] != 1 {
        Err("not_le")
    } else if d[6] != 1 {
        Err("bad_version")
    } else if little_endian(d, 16, 2) != 2 && little_endian(d, 16, 2) != 3 {
        Err("not_exec")
    } else if phdr_count(d) == 0 {
        Err("no_phdrs")
    } else if phdr_at(d, phdr_count(d)) > d.len() {
        Err("ph_overflow")
    } else if !has_load(d) {
        Err("no_load")
    } else {
        Ok(little_endian(d, 24, 8) as usize)
    }
}

fn read_le(d: &[u8], at: usize, n: usize) -> (r: u64)
    requires
        n <= 8,
        at + n <= d@.len(),
    ensures
        r == little_endian(d@, at as int, n as nat),
        n == 2 ==> r < 0x1_0000,
        n == 4 ==> r < 0x1_0000_0000,
    decreases n,
{
    let total: usize = d.len();
    proof {
        lemma_le_bound(d@, at as int, n as nat);
        vstd::arithmetic::power::lemma_pow0(256);
        reveal_with_fuel(vstd::arithmetic::power::pow, 9);
    }
    if n == 0 {
        return 0;
    }
    let rest: u64 = read_le(d, at + 1, n - 1);
    d[at] as u64 + 256 * rest
}

proof fn lemma_le_bound(d: Seq<u8>, at: int, n: nat)
    requires
        n <= 8,
    ensures
        little_endian(d, at, n) < vstd::arithmetic::power::pow(256, n),
    decreases n,
{
    reveal(vstd::arithmetic::power::pow);
    if n > 0 {
        lemma_le_bound(d, at + 1, (n - 1) as nat);
    }
}

/// Checks the header of a 64-bit little-endian executable and returns its entry point.
pub fn validate_elf_header(data: &[u8]) -> (r: Result<usize, &'static str>)
    requires
        reaches_phdrs(data@) ==> {
            &&& phdr_at(data@, phdr_count(data@)) <= usize::MAX
            &&& little_endian(data@, 24, 8) <= usize::MAX
        },
    ensures
        r == elf_of(data@),
{
    if data.len() < 64 {
        return Err("too_short");
    }
    if data[0] != 0x7f || data[1] != 0x45 || data[2] != 0x4c || data[3] != 0x46 {
        return Err("bad_magic");
    }
    if data[4] != 2 {
        return Err("not_64bit");
    }
    if data[5] != 1 {
        return Err("not_le");
    }
    if data[6] != 1 {
        return Err("bad_version");
    }
    let e_type: u64 = read_le(data, 16, 2);
    if e_type != 2 && e_type != 3 {
        return Err("not_exec");
    }
    let phentsize: usize = read_le(data, 54, 2) as usize;
    let phnum: usize = read_le(data, 56, 2) as usize;
    if phnum == 0 {
        return Err("no_phdrs");
    }
    let entry: u64 = read_le(data, 24, 8);
    let phoff: u64 = read_le(data, 32, 8);
    proof {
        assert(phnum * phentsize >= 0) by (nonlinear_arith)
            requires
                phnum >= 0,
                phentsize >= 0,
        ;
    }
    let phoff: usize = phoff as usize;
    let ph_end: usize = phoff + phnum * phentsize;
    if ph_end > data.len() {
        return Err("ph_overflow");
    }
    let total: usize = data.len();
    let mut found: bool = false;
    let mut i: usize = 0;
    while i < phnum
        invariant_except_break
            found == exists|k: int|
                0 <= k < i && #[trigger] phdr_at(data@, k) + 4 <= data@.len() && little_endian(
                    data@,
                    phdr_at(data@, k),
                    4,
                ) == 1,
        invariant
            i <= phnum,
            phnum == phdr_count(data@),
            phoff == little_endian(data@, 32, 8),
            phentsize == little_endian(data@, 54, 2),
            phoff + phnum * phentsize <= data@.len() == total,
        ensures
            found == has_load(data@),
        decreases phnum - i,
    {
        assert(0 <= i * phentsize <= phnum * phentsize) by (nonlinear_arith)
            requires
                0 <= i <= phnum,
                0 <= phentsize,
        ;
        let base: usize = phoff + i * phentsize;
        assert(base == phdr_at(data@, i as int));
        if data.len() - base < 4 {
            proof {
                assert forall|k: int| i <= k < phdr_count(data@) implies #[trigger] phdr_at(data@, k) + 4 > data@.len() by {
                    assert(i * phentsize <= k * phentsize) by (nonlinear_arith)
                        requires
                            i <= k,
                            0 <= phentsize,
                    ;
                }
            }
            break;
        }
        let p_type: u64 = read_le(data, base, 4);
        if p_type == 1 {
            found = true;
        }
        i += 1;
    }
    if !found {
        return Err("no_load");
    }
    Ok(entry as usize)
}

} // verus!
