//! Capabilities.

use vstd::prelude::*;

verus! {

pub const CAP_CHOWN: u32 = 0;

pub const CAP_KILL: u32 = 5;

pub const CAP_SETGID: u32 = 6;

pub const CAP_SETUID: u32 = 7;

pub const CAP_NET_BIND: u32 = 10;

pub const CAP_NET_RAW: u32 = 13;

pub const CAP_SYS_PTRACE: u32 = 19;

pub const CAP_SYS_ADMIN: u32 = 21;

pub const INHERITABLE_MASK: u64 = 0x0000_00FF_FFFF_FFFF;

/// Sets of capabilities, a bit for each.
#[derive(Clone, Copy, Debug, PartialEq, Eq, Structural)]
pub struct CapabilitySet {
    pub inheritable: u64,
    pub effective: u64,
    pub ambient: u64,
}

/// Bit `cap` of `set` is set.
pub open spec fn holds(set: u64, cap: u32) -> bool {
    cap < 64 && set & (1u64 << cap) != 0
}

impl CapabilitySet {
    pub open spec fn granted(self, cap: u32) -> CapabilitySet {
        if cap < 64 {
            CapabilitySet {
                inheritable: self.inheritable | (1u64 << cap),
                effective: self.effective | (1u64 << cap),
                ambient: self.ambient,
            }
        } else {
            self
        }
    }

    pub open spec fn dropped(self, cap: u32) -> CapabilitySet {
        if cap < 64 {
            CapabilitySet {
                inheritable: self.inheritable & !(1u64 << cap),
                effective: self.effective & !(1u64 << cap),
                ambient: self.ambient,
            }
        } else {
            self
        }
    }

    pub open spec fn inherited(self) -> CapabilitySet {
        CapabilitySet {
            inheritable: self.inheritable & INHERITABLE_MASK,
            effective: self.effective & INHERITABLE_MASK,
            ambient: self.ambient,
        }
    }

    /// No capabilities.
    pub fn new() -> (r: Self)
        ensures
            r == (CapabilitySet { inheritable: 0, effective: 0, ambient: 0 }),
    {
        CapabilitySet { inheritable: 0, effective: 0, ambient: 0 }
    }

    /// All capabilities, none of them ambient.
    pub fn full() -> (r: Self)
        ensures
            r == (CapabilitySet { inheritable: u64::MAX, effective: u64::MAX, ambient: 0 }),
    {
        CapabilitySet { inheritable: u64::MAX, effective: u64::MAX, ambient: 0 }
    }

    pub fn check(&self, cap: u32) -> (r: bool)
        ensures
            r == holds(self.effective, cap),
    {
        if cap >= 64 {
            return false;
        }
        (self.effective & (1u64 << cap)) != 0
    }

    /// Makes `cap` effective and inheritable. Numbers from 64 on name nothing.
    pub fn grant(&mut self, cap: u32)
        ensures
            *final(self) == old(self).granted(cap),
    {
        if cap < 64 {
            self.inheritable = self.inheritable | (1u64 << cap);
            self.effective = self.effective | (1u64 << cap);
        }
    }

    /// Takes `cap` away. An ambient one stays.
    pub fn drop_cap(&mut self, cap: u32)
        ensures
            *final(self) == old(self).dropped(cap),
    {
        if cap < 64 {
            self.inheritable = self.inheritable & !(1u64 << cap);
            self.effective = self.effective & !(1u64 << cap);
        }
    }

    /// What a child gets: the capabilities of the mask.
    pub fn inherit(parent: &CapabilitySet) -> (r: CapabilitySet)
        ensures
            r == parent.inherited(),
    {
        CapabilitySet {
            inheritable: parent.inheritable & INHERITABLE_MASK,
            effective: parent.effective & INHERITABLE_MASK,
            ambient: parent.ambient,
        }
    }

    pub fn has_any(&self, mask: u64) -> (r: bool)
        ensures
            r == (self.effective & mask != 0),
    {
        (self.effective & mask) != 0
    }

    pub fn clear_ambient(&mut self)
        ensures
            *final(self) == (CapabilitySet { ambient: 0, ..*old(self) }),
    {
        self.ambient = 0;
    }

    /// Makes an inheritable capability ambient, and tells whether it was inheritable.
    pub fn raise_ambient(&mut self, cap: u32) -> (r: bool)
        ensures
            r == holds(old(self).inheritable, cap),
            *final(self) == (if r {
                CapabilitySet { ambient: old(self).ambient | (1u64 << cap), ..*old(self) }
            } else {
                *old(self)
            }),
    {
        if cap >= 64 {
            return false;
        }
        let bit: u64 = 1u64 << cap;
        if (self.inheritable & bit) != 0 {
            self.ambient = self.ambient | bit;
            true
        } else {
            false
        }
    }
}

/// Granting and dropping decide about the capability they name, and about no other.
pub proof fn law_grant_and_drop(c: CapabilitySet, cap: u32, other: u32)
    requires
        cap < 64,
        other != cap,
    ensures
        holds(c.granted(cap).effective, cap),
        holds(c.granted(cap).inheritable, cap),
        !holds(c.dropped(cap).effective, cap),
        !holds(c.dropped(cap).inheritable, cap),
        holds(c.granted(cap).effective, other) == holds(c.effective, other),
        holds(c.dropped(cap).effective, other) == holds(c.effective, other),
{
    lemma_one_bit(c.effective, cap, other);
    lemma_one_bit(c.inheritable, cap, other);
}

proof fn lemma_one_bit(v: u64, a: u32, b: u32)
    requires
        a < 64,
        a != b,
    ensures
        (v | (1u64 << a)) & (1u64 << a) != 0,
        (v & !(1u64 << a)) & (1u64 << a) == 0,
        b < 64 ==> (v | (1u64 << a)) & (1u64 << b) == v & (1u64 << b),
        b < 64 ==> (v & !(1u64 << a)) & (1u64 << b) == v & (1u64 << b),
{
    assert((v | (1u64 << a)) & (1u64 << a) != 0 && (v & !(1u64 << a)) & (1u64 << a) == 0 && (b < 64 ==> (v | (1u64
        << a)) & (1u64 << b) == v & (1u64 << b) && (v & !(1u64 << a)) & (1u64 << b) == v & (1u64 << b))) by (bit_vector)
        requires
            a < 64,
            a != b,
    ;
}

/// A child holds nothing that its parent does not hold.
pub proof fn law_inherit_adds_nothing(c: CapabilitySet, cap: u32)
    requires
        holds(c.inherited().effective, cap),
    ensures
        holds(c.effective, cap),
        cap < 40,
{
    let e = c.effective;
    assert((e & 0x0000_00FF_FFFF_FFFF) & (1u64 << cap) != 0 ==> e & (1u64 << cap) != 0 && cap < 40) by (bit_vector)
        requires
            cap < 64,
    ;
}

} // verus!
