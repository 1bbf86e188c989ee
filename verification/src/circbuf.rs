//! A ring of bytes.

use vstd::prelude::*;

verus! {

pub const RBUF_CAP: usize = 256;

/// A ring of at most `cap` bytes. `head` is the place before the oldest byte, `tail` the place
/// of the newest.
pub struct CircBuf {
    pub data: Vec<u8>,
    pub head: usize,
    pub tail: usize,
    pub cap: usize,
    pub n: usize,
}

/// The place after `x` in a ring of `cap` places.
pub open spec fn next_place(x: usize, cap: usize) -> usize {
    x.wrapping_add(1) % cap
}

/// The place `k` steps after `x`.
pub open spec fn walk(x: usize, k: nat, cap: usize) -> usize
    decreases k,
{
    if k == 0 {
        x
    } else {
        next_place(walk(x, (k - 1) as nat, cap), cap)
    }
}

/// The places after `tail` were written with `src`, one after another.
pub open spec fn laid(data: Seq<u8>, tail: usize, src: Seq<u8>, cap: usize) -> Seq<u8>
    decreases src.len(),
{
    if src.len() == 0 {
        data
    } else {
        laid(data, tail, src.drop_last(), cap).update(walk(tail, src.len(), cap) as int, src.last())
    }
}

impl View for CircBuf {
    type V = Seq<u8>;

    /// The bytes in the ring, oldest first.
    open spec fn view(&self) -> Seq<u8> {
        Seq::new(self.n as nat, |i: int| self.data@[walk(self.head, (i + 1) as nat, self.cap) as int])
    }
}

impl CircBuf {
    /// There is a byte for every place, and bytes are only in a ring that has places.
    pub open spec fn sized(&self) -> bool {
        &&& self.data@.len() == self.cap
        &&& self.n > 0 ==> self.cap > 0
    }

    /// No more bytes are in the ring than it has places, and the newest one is as far from the
    /// head as there are bytes.
    pub open spec fn wf(&self) -> bool {
        &&& self.sized()
        &&& self.n <= self.cap
        &&& self.cap > 0 ==> next_place(self.tail, self.cap) == walk(self.head, (self.n + 1) as nat, self.cap)
    }

    /// An empty ring with room for `c` bytes.
    pub fn new(c: usize) -> (r: Self)
        ensures
            r.wf(),
            r.cap == c,
            r.data@ == Seq::new(c as nat, |i: int| 0u8),
            r@ == Seq::<u8>::empty(),
            r.head == 0,
            r.tail == 0,
    {
        let r = Self { data: vec![0u8; c], head: 0, tail: 0, cap: c, n: 0 };
        proof {
            reveal_with_fuel(walk, 2);
        }
        assert(r.data@ =~= Seq::new(c as nat, |i: int| 0u8));
        assert(r@ =~= Seq::<u8>::empty());
        r
    }

    /// A ring of zeros between the marks `r` and `w`.
    pub fn with_pos(c: usize, r: usize, w: usize) -> (b: Self)
        requires
            w < r ==> r <= c,
        ensures
            b.cap == c,
            b.head == r,
            b.tail == w,
            b.n == (if w >= r { w - r } else { c - r + w }),
            b.data@ == Seq::new(c as nat, |i: int| 0u8),
            r < c && w < c ==> b.wf() && b@ == Seq::new(b.n as nat, |i: int| 0u8),
    {
        let n: usize = if w >= r {
            w - r
        } else {
            c - r + w
        };
        let b = Self { data: vec![0u8; c], head: r, tail: w, cap: c, n };
        assert(b.data@ =~= Seq::new(c as nat, |i: int| 0u8));
        proof {
            if r < c && w < c {
                lemma_walk(r, (n + 1) as nat, c);
                lemma_add_mod(r + 1, n as int, c as int);
                if w < r {
                    vstd::arithmetic::div_mod::lemma_mod_add_multiples_vanish(w + 1, c as int);
                }
                assert forall|i: int| 0 <= i < n implies b@[i] == 0u8 by {
                    lemma_walk(r, (i + 1) as nat, c);
                }
                assert(b@ =~= Seq::new(n as nat, |i: int| 0u8));
            }
        }
        b
    }

    /// Adds a byte unless the ring is full.
    pub fn push(&mut self, v: u8) -> (ok: bool)
        requires
            old(self).sized(),
        ensures
            ok == (old(self).n < old(self).cap),
            ok ==> {
                &&& final(self).tail == next_place(old(self).tail, old(self).cap)
                &&& final(self).data@ == old(self).data@.update(final(self).tail as int, v)
                &&& final(self).n == old(self).n + 1
            },
            !ok ==> final(self).tail == old(self).tail && final(self).data@ == old(self).data@ && final(self).n == old(
                self,
            ).n,
            final(self).sized(),
            final(self).cap == old(self).cap,
            final(self).head == old(self).head,
            old(self).wf() ==> final(self).wf() && final(self)@ == (if ok { old(self)@.push(v) } else { old(self)@ }),
    {
        if self.n >= self.cap {
            return false;
        }
        self.tail = self.tail.wrapping_add(1);
        self.tail %= self.cap;
        self.data[self.tail] = v;
        self.n += 1;
        proof {
            if old(self).wf() {
                let c = self.cap;
                let h = self.head;
                assert(self.tail == walk(h, self.n as nat, c));
                assert(next_place(self.tail, c) == walk(h, (self.n + 1) as nat, c));
                assert forall|i: int| 0 <= i < self.n implies self@[i] == old(self)@.push(v)[i] by {
                    lemma_walk(h, (i + 1) as nat, c);
                    lemma_walk(h, self.n as nat, c);
                    if i < self.n - 1 {
                        let f = next_place(h, c) as int;
                        lemma_distinct(f + i, f + self.n - 1, c as int);
                    }
                }
                assert(self@ =~= old(self)@.push(v));
            }
        }
        true
    }

    /// Takes the oldest byte out.
    pub fn pop(&mut self) -> (r: Option<u8>)
        requires
            old(self).sized(),
        ensures
            old(self)@.len() == 0 ==> r is None && final(self)@ == old(self)@ && final(self).head == old(self).head,
            old(self)@.len() > 0 ==> {
                &&& r == Some(old(self)@[0])
                &&& final(self)@ == old(self)@.drop_first()
                &&& final(self).head == next_place(old(self).head, old(self).cap)
            },
            final(self).sized(),
            final(self).cap == old(self).cap,
            final(self).tail == old(self).tail,
            final(self).data@ == old(self).data@,
            old(self).wf() ==> final(self).wf(),
    {
        if self.n == 0 {
            return None;
        }
        let ghost h = self.head;
        let ghost c = self.cap;
        self.head = self.head.wrapping_add(1);
        self.head %= self.cap;
        self.n -= 1;
        proof {
            reveal_with_fuel(walk, 2);
            assert(self.head == walk(h, 1, c));
            lemma_walk_on(h, 1, (self.n + 1) as nat, c);
            assert forall|i: int| 0 <= i < self.n implies self@[i] == old(self)@.drop_first()[i] by {
                lemma_walk_on(h, 1, (i + 1) as nat, c);
            }
            assert(self@ =~= old(self)@.drop_first());
            lemma_walk(h, 1, c);
        }
        Some(self.data[self.head])
    }

    pub fn len(&self) -> (r: usize)
        ensures
            r == self@.len(),
    {
        self.n
    }

    pub fn empty(&self) -> (r: bool)
        ensures
            r == (self@.len() == 0),
    {
        self.n == 0
    }

    pub fn full(&self) -> (r: bool)
        ensures
            r == (self@.len() >= self.cap),
    {
        self.n >= self.cap
    }

    /// The oldest byte, left in place.
    pub fn peek(&self) -> (r: Option<u8>)
        requires
            self.sized(),
        ensures
            r == (if self@.len() == 0 { None } else { Some(self@[0]) }),
    {
        if self.n == 0 {
            return None;
        }
        proof {
            reveal_with_fuel(walk, 2);
            lemma_walk(self.head, 1, self.cap);
        }
        let i: usize = self.head.wrapping_add(1) % self.cap;
        Some(self.data[i])
    }

    /// Moves up to `max` bytes, oldest first, to the end of `dst`.
    pub fn drain_to(&mut self, dst: &mut Vec<u8>, max: usize) -> (take: usize)
        requires
            old(self).sized(),
        ensures
            take == (if max < old(self)@.len() { max as int } else { old(self)@.len() as int }),
            final(dst)@ == old(dst)@ + old(self)@.take(take as int),
            final(self)@ == old(self)@.skip(take as int),
            final(self).head == walk(old(self).head, take as nat, old(self).cap),
            final(self).sized(),
            final(self).cap == old(self).cap,
            final(self).tail == old(self).tail,
            final(self).data@ == old(self).data@,
            old(self).wf() ==> final(self).wf(),
    {
        let take: usize = if max < self.n {
            max
        } else {
            self.n
        };
        assert(old(dst)@ + old(self)@.take(0) =~= old(dst)@);
        assert(old(self)@.skip(0) =~= old(self)@);
        let mut i: usize = 0;
        while i < take
            invariant
                i <= take <= old(self)@.len(),
                self.sized(),
                self.cap == old(self).cap,
                self.tail == old(self).tail,
                self.data@ == old(self).data@,
                self.head == walk(old(self).head, i as nat, self.cap),
                old(self).wf() ==> self.wf(),
                dst@ == old(dst)@ + old(self)@.take(i as int),
                self@ == old(self)@.skip(i as int),
            decreases take - i,
        {
            if let Some(b) = self.pop() {
                dst.push(b);
            }
            assert(old(dst)@ + old(self)@.take(i + 1) =~= (old(dst)@ + old(self)@.take(i as int)).push(
                old(self)@[i as int],
            ));
            assert(old(self)@.skip(i as int).drop_first() =~= old(self)@.skip(i + 1));
            i += 1;
        }
        take
    }

    /// Adds bytes of `src` in order until the ring is full.
    pub fn fill_from(&mut self, src: &[u8]) -> (written: usize)
        requires
            old(self).sized(),
        ensures
            written == (if old(self).n >= old(self).cap {
                0
            } else if src@.len() < old(self).cap - old(self).n {
                src@.len() as int
            } else {
                old(self).cap - old(self).n
            }),
            final(self).n == old(self).n + written,
            final(self).tail == walk(old(self).tail, written as nat, old(self).cap),
            final(self).data@ == laid(old(self).data@, old(self).tail, src@.take(written as int), old(self).cap),
            final(self).sized(),
            final(self).cap == old(self).cap,
            final(self).head == old(self).head,
            old(self).wf() ==> final(self).wf() && final(self)@ == old(self)@ + src@.take(written as int),
    {
        let mut written: usize = 0;
        assert(old(self)@ + src@.take(0) =~= old(self)@);
        assert(src@.take(0) =~= Seq::empty());
        while written < src.len()
            invariant
                written <= src@.len(),
                old(self).n >= old(self).cap ==> written == 0,
                old(self).n < old(self).cap ==> written <= old(self).cap - old(self).n,
                self.sized(),
                self.cap == old(self).cap,
                self.head == old(self).head,
                self.n == old(self).n + written,
                self.tail == walk(old(self).tail, written as nat, self.cap),
                self.data@ == laid(old(self).data@, old(self).tail, src@.take(written as int), self.cap),
                old(self).wf() ==> self.wf() && self@ == old(self)@ + src@.take(written as int),
            decreases src@.len() - written,
        {
            if !self.push(src[written]) {
                return written;
            }
            assert(old(self)@ + src@.take(written + 1) =~= (old(self)@ + src@.take(written as int)).push(
                src@[written as int],
            ));
            assert(src@.take(written + 1).drop_last() =~= src@.take(written as int));
            written += 1;
        }
        written
    }

    /// How many more bytes fit.
    pub fn remaining(&self) -> (r: usize)
        ensures
            r == (if self.cap >= self@.len() { self.cap - self@.len() } else { 0 }),
    {
        self.cap.saturating_sub(self.n)
    }
}

/// From its first step on a walk goes round the ring.
proof fn lemma_walk(x: usize, k: nat, cap: usize)
    requires
        cap > 0,
        k > 0,
    ensures
        walk(x, k, cap) == (next_place(x, cap) + k - 1) % cap as int,
        walk(x, k, cap) < cap,
    decreases k,
{
    let f = next_place(x, cap);
    if k == 1 {
        reveal_with_fuel(walk, 2);
        lemma_around(f as int, cap as int);
    } else {
        lemma_walk(x, (k - 1) as nat, cap);
        let p = walk(x, (k - 1) as nat, cap);
        lemma_around(p + 1, cap as int);
        vstd::arithmetic::div_mod::lemma_add_mod_noop(f + k - 2, 1, cap as int);
        lemma_add_mod(f + k - 2, 1, cap as int);
        lemma_around(f + k - 1, cap as int);
    }
}

proof fn lemma_walk_on(x: usize, a: nat, b: nat, cap: usize)
    ensures
        walk(walk(x, a, cap), b, cap) == walk(x, a + b, cap),
    decreases b,
{
    if b > 0 {
        lemma_walk_on(x, a, (b - 1) as nat, cap);
    }
}

proof fn lemma_around(x: int, c: int)
    requires
        0 <= x,
        0 < c,
    ensures
        0 <= x % c < c,
        x < c ==> x % c == x,
        c <= x < 2 * c ==> x % c == x - c,
{
    if x < c {
        vstd::arithmetic::div_mod::lemma_small_mod(x as nat, c as nat);
    } else if x < 2 * c {
        vstd::arithmetic::div_mod::lemma_mod_add_multiples_vanish(x - c, c);
        vstd::arithmetic::div_mod::lemma_small_mod((x - c) as nat, c as nat);
    }
}

proof fn lemma_add_mod(a: int, b: int, c: int)
    requires
        0 < c,
    ensures
        (a % c + b) % c == (a + b) % c,
{
    vstd::arithmetic::div_mod::lemma_add_mod_noop(a, b, c);
    vstd::arithmetic::div_mod::lemma_add_mod_noop(a % c, b, c);
    vstd::arithmetic::div_mod::lemma_mod_twice(a, c);
}

/// Places that are less than a round apart are different.
proof fn lemma_distinct(a: int, b: int, c: int)
    requires
        0 <= a < b < a + c,
        0 < c,
    ensures
        a % c != b % c,
{
    if a % c == b % c {
        vstd::arithmetic::div_mod::lemma_fundamental_div_mod(a, c);
        vstd::arithmetic::div_mod::lemma_fundamental_div_mod(b, c);
        let k = b / c - a / c;
        assert(b - a == c * k) by (nonlinear_arith)
            requires
                a == c * (a / c) + a % c,
                b == c * (b / c) + b % c,
                a % c == b % c,
                k == b / c - a / c,
        ;
        assert(false) by (nonlinear_arith)
            requires
                0 < b - a < c,
                b - a == c * k,
        ;
    }
}

} // verus!
