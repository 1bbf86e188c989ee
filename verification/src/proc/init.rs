//! The first stack of a process.
//!
//! The stack grows downward. From the top down it holds the environment strings, the argument
//! strings, the auxiliary vector with its terminator, the pointers to the environment and to the
//! arguments, each with a null behind them, and the number of arguments. Below that it is padded
//! to a multiple of sixteen.

use crate::bits::lemma_mask_low_bits;
use std::collections::BTreeMap;
use vstd::layout::*;
use vstd::prelude::*;
use vstd::string::*;
use vstd::utf8::*;

verus! {

pub const AT_NULL: u8 = 0;

pub const AT_IGNORE: u8 = 1;

pub const AT_EXECFD: u8 = 2;

pub const AT_PHDR: u8 = 3;

pub const AT_PHENT: u8 = 4;

pub const AT_PHNUM: u8 = 5;

pub const AT_PAGESZ: u8 = 6;

pub const AT_BASE: u8 = 7;

pub const AT_ENTRY: u8 = 9;

pub const AT_NOTELF: u8 = 10;

pub const AT_UID: u8 = 11;

pub const AT_EUID: u8 = 12;

pub const AT_GID: u8 = 13;

pub const AT_EGID: u8 = 14;

pub struct ProcInit {
    pub args: Vec<String>,
    pub envs: Vec<String>,
    pub auxv: BTreeMap<u8, usize>,
}

/// The bytes that some strings take, each with a zero behind it.
pub open spec fn stored(v: Seq<String>) -> nat
    decreases v.len(),
{
    if v.len() == 0 {
        0
    } else {
        stored(v.drop_last()) + encode_utf8(v.last()@).len() + 1
    }
}

/// The bytes of a machine word.
pub open spec fn word() -> nat {
    size_of::<usize>()
}

/// `n` rounded down to a multiple of sixteen.
pub open spec fn floor16(n: int) -> int {
    n - n % 16
}

/// The words below the strings: the auxiliary vector, the pointers and the count.
pub open spec fn stack_words(args: nat, envs: nat, aux: nat) -> nat {
    aux * 2 + 2 + args + 1 + envs + 1 + 1
}

/// The bytes that a stack takes, without padding.
pub open spec fn stack_size(args: Seq<String>, envs: Seq<String>, aux: nat) -> nat {
    stored(args) + stored(envs) + stack_words(args.len(), envs.len(), aux) * word()
}

impl ProcInit {
    /// The words below the strings.
    pub open spec fn words(&self) -> nat {
        stack_words(self.args@.len(), self.envs@.len(), self.auxv@.len())
    }

    /// The bytes that the stack takes, without padding.
    pub open spec fn size(&self) -> nat {
        stack_size(self.args@, self.envs@, self.auxv@.len())
    }

    /// Where the stack pointer comes to stand for a stack that starts at `top`.
    pub fn push_at(&self, top: usize) -> (sp: usize)
        requires
            self.size() <= top,
        ensures
            sp == floor16(top - self.size()),
    {
        let w: usize = core::mem::size_of::<usize>();
        proof {
            lemma_word();
            lemma_part(self.words(), self.auxv@.len() * 2 + 2, self.envs@.len() + 1, self.args@.len() + 1, 1);
        }
        let mut sp: usize = top;
        let env_bytes: usize = stored_bytes(&self.envs, top);
        sp -= env_bytes;
        let arg_bytes: usize = stored_bytes(&self.args, sp);
        sp -= arg_bytes;
        let aux: usize = self.auxv.len();
        assert((aux * 2 + 2) * w <= self.words() * word());
        let aux_bytes: usize = (aux * 2 + 2) * w;
        sp -= aux_bytes;
        let env_ptrs_bytes: usize = (self.envs.len() + 1) * w;
        sp -= env_ptrs_bytes;
        let arg_ptrs_bytes: usize = (self.args.len() + 1) * w;
        sp -= arg_ptrs_bytes;
        sp -= w;
        assert(sp == top - self.size());
        proof {
            vstd::arithmetic::power2::lemma2_to64();
            assert(16 == vstd::arithmetic::power2::pow2(4));
            lemma_mask_low_bits(sp, 16);
        }
        let align: usize = sp & 0xF;
        sp - align
    }

    /// The bytes that the stack takes, without padding.
    pub fn total_size(&self) -> (r: usize)
        requires
            self.size() <= usize::MAX,
        ensures
            r == self.size(),
    {
        let w: usize = core::mem::size_of::<usize>();
        proof {
            lemma_word();
            lemma_part(self.words(), self.auxv@.len() * 2 + 2, self.envs@.len() + 1, self.args@.len() + 1, 1);
        }
        let args: usize = stored_bytes(&self.args, usize::MAX);
        let envs: usize = stored_bytes(&self.envs, usize::MAX);
        let n: usize = self.auxv.len() * 2 + 2 + self.args.len() + 1 + self.envs.len() + 1 + 1;
        args + envs + n * w
    }
}

proof fn lemma_word()
    ensures
        word() == 4 || word() == 8,
{
    broadcast use layout_of_primitives;

}

proof fn lemma_part(n: nat, a: nat, b: nat, c: nat, d: nat)
    requires
        n == a + b + c + d,
        word() >= 1,
    ensures
        n * word() == a * word() + b * word() + c * word() + d * word(),
        n <= n * word(),
        0 <= a * word(),
        0 <= b * word(),
        0 <= c * word(),
{
    let w = word();
    assert(n * w == a * w + b * w + c * w + d * w) by (nonlinear_arith)
        requires
            n == a + b + c + d,
    ;
    assert(n <= n * w) by (nonlinear_arith)
        requires
            w >= 1,
    ;
    assert(0 <= a * w && 0 <= b * w && 0 <= c * w) by (nonlinear_arith);
}

proof fn lemma_stored_grows(v: Seq<String>, k: int)
    requires
        0 <= k <= v.len(),
    ensures
        stored(v.take(k)) <= stored(v),
    decreases v.len() - k,
{
    if k < v.len() {
        lemma_stored_grows(v, k + 1);
        assert(v.take(k + 1).drop_last() =~= v.take(k));
    } else {
        assert(v.take(k) =~= v);
    }
}

fn stored_bytes(v: &Vec<String>, limit: usize) -> (r: usize)
    requires
        stored(v@) <= limit,
    ensures
        r == stored(v@),
{
    let mut n: usize = 0;
    let mut i: usize = 0;
    while i < v.len()
        invariant
            i <= v@.len(),
            stored(v@) <= limit,
            n == stored(v@.take(i as int)),
        decreases v@.len() - i,
    {
        let b = v[i].as_str().as_bytes();
        proof {
            lemma_stored_grows(v@, i + 1);
            assert(v@.take(i + 1).drop_last() =~= v@.take(i as int));
        }
        n += b.len() + 1;
        i += 1;
    }
    assert(v@.take(i as int) =~= v@);
    n
}

/// The stack pointer is aligned, and the stack fits between it and the top with less than
/// sixteen bytes of padding.
pub proof fn law_stack_fits(p: ProcInit, top: int)
    requires
        p.size() <= top,
    ensures
        floor16(top - p.size()) % 16 == 0,
        0 <= floor16(top - p.size()),
        p.size() <= top - floor16(top - p.size()) < p.size() + 16,
{
}

} // verus!
