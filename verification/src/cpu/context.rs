//! The registers of a thread.

use vstd::prelude::*;

verus! {

pub const N_REGS: usize = 16;

pub const FNV_BASIS: u64 = 0xcbf29ce484222325;

pub const FNV_PRIME: u64 = 0x100000001b3;

/// General registers, instruction pointer and flags.
#[derive(Clone, Copy, Debug, PartialEq, Eq)]
pub struct Context {
    pub r: [u64; N_REGS],
    pub ip: u64,
    pub flags: u64,
}

/// What a context stands for.
#[verifier::ext_equal]
pub ghost struct ContextView {
    pub r: Seq<u64>,
    pub ip: u64,
    pub flags: u64,
}

impl View for Context {
    type V = ContextView;

    open spec fn view(&self) -> ContextView {
        ContextView { r: self.r@, ip: self.ip, flags: self.flags }
    }
}

impl ContextView {
    pub open spec fn new() -> ContextView {
        ContextView { r: Seq::new(N_REGS as nat, |i: int| 0u64), ip: 0, flags: 0 }
    }

    pub open spec fn wf(self) -> bool {
        self.r.len() == N_REGS
    }

    pub open spec fn with_reg(self, i: int, v: u64) -> ContextView {
        ContextView { r: self.r.update(i, v), ..self }
    }

    /// The context with one part replaced: which one, the low four bits of `op` say. In the
    /// sixth form the top byte of `val` names the register and the rest is its value.
    pub open spec fn transformed(self, op: u8, val: u64) -> ContextView {
        let k = op & 0x0F;
        if k == 0 {
            self.with_reg(0, val)
        } else if k == 1 {
            ContextView { ip: val, ..self }
        } else if k == 2 {
            self.with_reg(N_REGS - 1, val)
        } else if k == 3 {
            self.with_reg(N_REGS - 2, val)
        } else if k == 4 {
            ContextView { flags: val, ..self }
        } else if k == 5 && val >> 56 < N_REGS as u64 {
            self.with_reg((val >> 56) as int, val & 0x00FF_FFFF_FFFF_FFFF)
        } else {
            self
        }
    }

    /// The registers, instruction pointer and flags as one row of words.
    pub open spec fn words(self) -> Seq<u64> {
        self.r.push(self.ip).push(self.flags)
    }
}

/// The words are mixed in one after another.
pub open spec fn fnv_mix(words: Seq<u64>) -> u64
    decreases words.len(),
{
    if words.len() == 0 {
        FNV_BASIS
    } else {
        (fnv_mix(words.drop_last()) ^ words.last()).wrapping_mul(FNV_PRIME)
    }
}

/// The places among the first `n` where two rows differ, with what each holds there.
pub open spec fn differences(a: Seq<u64>, b: Seq<u64>, n: nat) -> Seq<(usize, u64, u64)>
    decreases n,
{
    if n == 0 {
        Seq::empty()
    } else {
        let front = differences(a, b, (n - 1) as nat);
        if a[n - 1] != b[n - 1] {
            front.push(((n - 1) as usize, a[n - 1], b[n - 1]))
        } else {
            front
        }
    }
}

impl Context {
    /// All zero.
    pub fn new() -> (c: Self)
        ensures
            c@ == ContextView::new(),
    {
        let c = Context { r: [0u64; N_REGS], ip: 0, flags: 0 };
        assert(c.r@ =~= ContextView::new().r);
        c
    }

    /// A context with the given registers.
    pub fn capture(src: &[u64; N_REGS]) -> (c: Self)
        ensures
            c@ == (ContextView { r: src@, ip: 0, flags: 0 }),
    {
        Context { r: *src, ip: 0, flags: 0 }
    }

    pub fn apply(&self) -> (r: [u64; N_REGS])
        ensures
            r@ == self@.r,
    {
        self.r
    }

    pub fn set_ip(&mut self, v: u64)
        ensures
            final(self)@ == (ContextView { ip: v, ..old(self)@ }),
    {
        self.ip = v;
    }

    pub fn set_flags(&mut self, v: u64)
        ensures
            final(self)@ == (ContextView { flags: v, ..old(self)@ }),
    {
        self.flags = v;
    }

    pub fn set_sp(&mut self, v: u64)
        ensures
            final(self)@ == old(self)@.with_reg(N_REGS - 1, v),
    {
        self.r[N_REGS - 1] = v;
    }

    pub fn set_ret(&mut self, v: u64)
        ensures
            final(self)@ == old(self)@.with_reg(0, v),
    {
        self.r[0] = v;
    }

    pub fn set_tls(&mut self, v: u64)
        ensures
            final(self)@ == old(self)@.with_reg(N_REGS - 2, v),
    {
        self.r[N_REGS - 2] = v;
    }

    pub fn transform(&self, op: u8, val: u64) -> (c: Context)
        ensures
            c@ == self@.transformed(op, val),
    {
        let mut out: Context = *self;
        match op & 0x0F {
            0 => {
                out.r[0] = val;
            },
            1 => {
                out.ip = val;
            },
            2 => {
                out.r[N_REGS - 1] = val;
            },
            3 => {
                out.r[N_REGS - 2] = val;
            },
            4 => {
                out.flags = val;
            },
            5 => {
                assert(val >> 56 < 256) by (bit_vector);
                let idx: usize = (val >> 56) as usize;
                if idx < N_REGS {
                    out.r[idx] = val & 0x00FF_FFFF_FFFF_FFFF;
                }
            },
            _ => {},
        }
        out
    }

    pub fn syscall_args(&self) -> (r: (u64, u64, u64, u64, u64, u64))
        ensures
            r == (self@.r[0], self@.r[1], self@.r[2], self@.r[3], self@.r[4], self@.r[5]),
    {
        (self.r[0], self.r[1], self.r[2], self.r[3], self.r[4], self.r[5])
    }

    pub fn clone_with_ret(&self, ret: u64) -> (c: Context)
        ensures
            c@ == self@.with_reg(0, ret),
    {
        let mut c: Context = *self;
        c.r[0] = ret;
        c
    }

    /// Where two contexts differ. The instruction pointer and the flags count as two more
    /// registers.
    pub fn diff(&self, other: &Context) -> (changes: Vec<(usize, u64, u64)>)
        ensures
            changes@ == differences(self@.words(), other@.words(), (N_REGS + 2) as nat),
    {
        let mut changes: Vec<(usize, u64, u64)> = Vec::new();
        let ghost a = self@.words();
        let ghost b = other@.words();
        let mut i: usize = 0;
        while i < N_REGS
            invariant
                i <= N_REGS,
                a == self@.words(),
                b == other@.words(),
                changes@ == differences(a, b, i as nat),
            decreases N_REGS - i,
        {
            assert(a[i as int] == self.r@[i as int] && b[i as int] == other.r@[i as int]);
            if self.r[i] != other.r[i] {
                changes.push((i, self.r[i], other.r[i]));
            }
            i += 1;
        }
        if self.ip != other.ip {
            changes.push((N_REGS, self.ip, other.ip));
        }
        if self.flags != other.flags {
            changes.push((N_REGS + 1, self.flags, other.flags));
        }
        proof {
            reveal_with_fuel(differences, 3);
            assert(a[N_REGS as int] == self.ip && b[N_REGS as int] == other.ip);
            assert(a[N_REGS + 1] == self.flags && b[N_REGS + 1] == other.flags);
        }
        changes
    }

    pub fn hash(&self) -> (h: u64)
        ensures
            h == fnv_mix(self@.r.push(self@.ip)) ^ self@.flags,
    {
        let mut h: u64 = FNV_BASIS;
        let mut i: usize = 0;
        while i < N_REGS
            invariant
                i <= N_REGS,
                h == fnv_mix(self@.r.take(i as int)),
            decreases N_REGS - i,
        {
            assert(self@.r.take(i + 1).drop_last() =~= self@.r.take(i as int));
            h = (h ^ self.r[i]).wrapping_mul(FNV_PRIME);
            i += 1;
        }
        assert(self@.r.take(N_REGS as int) =~= self@.r);
        assert(self@.r.push(self@.ip).drop_last() =~= self@.r);
        h = (h ^ self.ip).wrapping_mul(FNV_PRIME);
        h ^ self.flags
    }

    /// What a register holds, read by the class that its top four bits name.
    pub fn reg_class(&self, idx: usize) -> (r: u64)
        ensures
            r == (if idx >= N_REGS {
                0
            } else {
                let v = self@.r[idx as int];
                let class = v >> 60;
                if class <= 3 {
                    v & 0x0FFF_FFFF_FFFF_FFFF
                } else if class <= 7 {
                    (v << 4) >> 4
                } else if class <= 11 {
                    0u64.wrapping_sub(v)
                } else {
                    v
                }
            }),
    {
        if idx >= N_REGS {
            return 0;
        }
        let v: u64 = self.r[idx];
        let class: u64 = v >> 60;
        if class <= 3 {
            v & 0x0FFF_FFFF_FFFF_FFFF
        } else if class <= 7 {
            (v << 4) >> 4
        } else if class <= 11 {
            0u64.wrapping_sub(v)
        } else {
            v
        }
    }
}

/// A context has no differences from itself.
pub proof fn law_no_differences_from_itself(a: Seq<u64>, n: nat)
    ensures
        differences(a, a, n) == Seq::<(usize, u64, u64)>::empty(),
    decreases n,
{
    if n > 0 {
        law_no_differences_from_itself(a, (n - 1) as nat);
    }
}

/// Each place is listed at most once, in ascending order, and just where the rows differ, with
/// what each holds there.
pub proof fn law_differences_are_listed_once(a: Seq<u64>, b: Seq<u64>, n: nat)
    requires
        n <= usize::MAX,
    ensures
        ({
            let d = differences(a, b, n);
            &&& forall|i: int, j: int| 0 <= i < j < d.len() ==> (#[trigger] d[i]).0 < (#[trigger] d[j]).0
            &&& forall|i: int|
                0 <= i < d.len() ==> {
                    let (k, x, y) = #[trigger] d[i];
                    k < n && x == a[k as int] && y == b[k as int] && x != y
                }
            &&& forall|k: usize|
                k < n && #[trigger] a[k as int] != b[k as int] ==> d.contains((k, a[k as int], b[k as int]))
        }),
    decreases n,
{
    if n > 0 {
        let m = (n - 1) as nat;
        law_differences_are_listed_once(a, b, m);
        let e = differences(a, b, m);
        let d = differences(a, b, n);
        assert forall|k: usize| k < n && #[trigger] a[k as int] != b[k as int] implies d.contains(
            (k, a[k as int], b[k as int]),
        ) by {
            if k < m {
                assert(e.contains((k, a[k as int], b[k as int])));
                let i = choose|i: int| 0 <= i < e.len() && e[i] == (k, a[k as int], b[k as int]);
                assert(d[i] == e[i]);
            } else {
                assert(d[e.len() as int] == (k, a[k as int], b[k as int]));
            }
        }
    }
}

/// Seen from the other side the differences are the same with the two values exchanged.
pub proof fn law_differences_are_symmetric(a: Seq<u64>, b: Seq<u64>, n: nat)
    ensures
        differences(b, a, n) == differences(a, b, n).map_values(|d: (usize, u64, u64)| (d.0, d.2, d.1)),
    decreases n,
{
    let swap = |d: (usize, u64, u64)| (d.0, d.2, d.1);
    if n > 0 {
        law_differences_are_symmetric(a, b, (n - 1) as nat);
    }
    assert(differences(b, a, n) =~= differences(a, b, n).map_values(swap));
}

} // verus!
