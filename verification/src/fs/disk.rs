//! Disks that fail a set number of times, and their journals.
//!
//! Several disks may have one journal, so disks are kept in a set, and a disk is known by its
//! place in it.

use vstd::prelude::*;

verus! {

/// What a set keeps of a disk. The next `errs` accesses fail, or all of them if that is the
/// greatest number. A failed read goes to the journal. No journal leads back to where it is the
/// journal of: each lies less deep.
pub struct DiskState {
    pub errs: usize,
    pub ops: usize,
    pub label: String,
    pub journal: Option<usize>,
    pub depth: Ghost<nat>,
}

/// All disks.
pub struct Disks {
    pub disks: Vec<DiskState>,
}

/// The disk at place `at` of the set.
#[derive(Clone, Copy, Debug, PartialEq, Eq, Structural)]
pub struct Disk {
    pub at: usize,
}

/// What a disk stands for.
#[verifier::ext_equal]
pub ghost struct DiskView {
    pub errs: usize,
    pub ops: usize,
    pub label: Seq<char>,
    pub journal: Option<usize>,
    pub depth: nat,
}

impl View for DiskState {
    type V = DiskView;

    open spec fn view(&self) -> DiskView {
        DiskView {
            errs: self.errs,
            ops: self.ops,
            label: self.label@,
            journal: self.journal,
            depth: self.depth@,
        }
    }
}

impl View for Disks {
    type V = Seq<DiskView>;

    open spec fn view(&self) -> Seq<DiskView> {
        self.disks@.map_values(|d: DiskState| d@)
    }
}

/// The journal of disk `i` is a disk of the set that lies less deep.
pub open spec fn sound_at(s: Seq<DiskView>, i: int) -> bool {
    s[i].journal matches Some(j) ==> j < s.len() && s[j as int].depth < s[i].depth
}

/// Journals are disks of the set, and going from journal to journal comes to an end.
pub open spec fn disks_wf(s: Seq<DiskView>) -> bool {
    forall|i: int| 0 <= i < s.len() ==> #[trigger] sound_at(s, i)
}

/// Disk `j` is the journal of some disk.
pub open spec fn is_journal(s: Seq<DiskView>, j: usize) -> bool {
    exists|i: int| 0 <= i < s.len() && (#[trigger] s[i]).journal == Some(j)
}

/// A new disk, to be put into a set.
pub open spec fn blank(errs: usize, label: Seq<char>) -> DiskView {
    DiskView { errs, ops: 0, label, journal: None, depth: 0 }
}

/// How many accesses one read fails with that gives up after `lim` of them, or never for zero.
pub open spec fn fails_once(errs: int, lim: int) -> int {
    if errs == usize::MAX {
        lim
    } else if lim > 0 && errs >= lim {
        lim
    } else {
        errs
    }
}

/// Such a read comes to an end with the data.
pub open spec fn succeeds(errs: int, lim: int) -> bool {
    errs != usize::MAX && (lim == 0 || errs < lim)
}

/// What is left of the errors after such a read.
pub open spec fn left_once(errs: int, lim: int) -> int {
    if errs == usize::MAX {
        errs
    } else {
        errs - fails_once(errs, lim)
    }
}

/// What is left of the errors after `t` such reads.
pub open spec fn left(errs: int, lim: int, t: nat) -> int
    decreases t,
{
    if t == 0 {
        errs
    } else {
        left_once(left(errs, lim, (t - 1) as nat), lim)
    }
}

/// How many accesses fail in `t` such reads.
pub open spec fn fails(errs: int, lim: int, t: nat) -> int
    decreases t,
{
    if t == 0 {
        0
    } else {
        fails(errs, lim, (t - 1) as nat) + fails_once(left(errs, lim, (t - 1) as nat), lim)
    }
}

/// How many accesses there are in `t` such reads.
pub open spec fn accesses(errs: int, lim: int, t: nat) -> int
    decreases t,
{
    if t == 0 {
        0
    } else {
        let e = left(errs, lim, (t - 1) as nat);
        accesses(errs, lim, (t - 1) as nat) + fails_once(e, lim) + (if succeeds(e, lim) {
            1int
        } else {
            0
        })
    }
}

/// `n` counted on from `ops`, wrapping round at the size of a word.
pub open spec fn counted(ops: usize, n: int) -> usize {
    ((ops + n) % (usize::MAX + 1)) as usize
}

pub open spec fn at_most_5(lim: int) -> int {
    if lim < 5 {
        lim
    } else {
        5
    }
}

/// The disks after `t` reads of disk `i` with limit `lim`. Each failed access was a read of the
/// journal.
pub open spec fn after_reads(s: Seq<DiskView>, i: int, lim: int, t: nat) -> Seq<DiskView>
    decreases s[i].depth,
{
    let d = s[i];
    let mid = s.update(
        i,
        DiskView {
            errs: left(d.errs as int, lim, t) as usize,
            ops: counted(d.ops, accesses(d.errs as int, lim, t)),
            ..d
        },
    );
    match d.journal {
        Some(j) => if mid[j as int].depth < d.depth {
            after_reads(mid, j as int, at_most_5(lim), fails(d.errs as int, lim, t) as nat)
        } else {
            mid
        },
        None => mid,
    }
}

/// Reads without a limit come to an end, on the disk and on every journal that they reach.
pub open spec fn ends(s: Seq<DiskView>, i: int, lim: int) -> bool
    decreases s[i].depth,
{
    lim > 0 || (s[i].errs != usize::MAX && (s[i].errs > 0 ==> match s[i].journal {
        Some(j) => s[j as int].depth < s[i].depth && ends(s, j as int, 0),
        None => true,
    }))
}

/// Disk `i` has those counts, and its journal was read `t` times with limit `lim`.
pub open spec fn so_far(s: Seq<DiskView>, i: int, errs: usize, ops: usize, lim: int, t: nat) -> Seq<DiskView> {
    let mid = s.update(i, DiskView { errs, ops, ..s[i] });
    match s[i].journal {
        Some(j) => after_reads(mid, j as int, lim, t),
        None => mid,
    }
}

/// The disks after a read of disk `i` that goes on until it succeeds.
pub open spec fn after_read(s: Seq<DiskView>, i: int) -> Seq<DiskView> {
    so_far(s, i, 0, counted(s[i].ops, s[i].errs + 1), 5, s[i].errs as nat)
}

impl DiskView {
    /// One access was counted, and it used up an error.
    pub open spec fn after_access(self) -> DiskView {
        DiskView {
            errs: if self.errs == 0 || self.errs == usize::MAX {
                self.errs
            } else {
                (self.errs - 1) as usize
            },
            ..self.used()
        }
    }

    /// One access was counted.
    pub open spec fn used(self) -> DiskView {
        DiskView { ops: self.ops.wrapping_add(1), ..self }
    }
}

impl Disks {
    pub fn new() -> (r: Self)
        ensures
            r@ == Seq::<DiskView>::empty(),
    {
        let r = Disks { disks: Vec::new() };
        assert(r@ =~= Seq::<DiskView>::empty());
        r
    }

    fn put(&mut self, errs: usize, s: &str) -> (r: Disk)
        requires
            disks_wf(old(self)@),
        ensures
            r.at == old(self)@.len(),
            r.wf(final(self)@),
            final(self)@ == old(self)@.push(blank(errs, s@)),
            disks_wf(final(self)@),
    {
        let at: usize = self.disks.len();
        self.disks.push(
            DiskState { errs, ops: 0, label: s.to_owned(), journal: None, depth: Ghost(0) },
        );
        assert(self@ =~= old(self)@.push(blank(errs, s@)));
        assert forall|i: int| 0 <= i < self@.len() implies #[trigger] sound_at(self@, i) by {
            if i < at {
                assert(sound_at(old(self)@, i));
            }
        }
        Disk { at }
    }
}

impl Disk {
    pub open spec fn wf(self, s: Seq<DiskView>) -> bool {
        self.at < s.len() && disks_wf(s)
    }

    /// The disk in the set.
    pub open spec fn of(self, s: Seq<DiskView>) -> DiskView {
        s[self.at as int]
    }

    pub fn new(ds: &mut Disks, s: &str) -> (r: Self)
        requires
            disks_wf(old(ds)@),
        ensures
            r.at == old(ds)@.len(),
            r.wf(final(ds)@),
            final(ds)@ == old(ds)@.push(blank(0, s@)),
    {
        ds.put(0, s)
    }

    pub fn failing(ds: &mut Disks, s: &str, n: usize) -> (r: Self)
        requires
            disks_wf(old(ds)@),
        ensures
            r.at == old(ds)@.len(),
            r.wf(final(ds)@),
            final(ds)@ == old(ds)@.push(blank(n, s@)),
    {
        ds.put(n, s)
    }

    /// Makes `d` the journal of this disk, which is no journal itself. Other disks may have the
    /// same journal.
    pub fn attach_journal(&self, ds: &mut Disks, d: Disk)
        requires
            self.wf(old(ds)@),
            d.wf(old(ds)@),
            self.at != d.at,
            !is_journal(old(ds)@, self.at),
        ensures
            final(ds)@ == old(ds)@.update(
                self.at as int,
                DiskView { journal: Some(d.at), depth: d.of(old(ds)@).depth + 1, ..self.of(old(ds)@) },
            ),
            disks_wf(final(ds)@),
    {
        let ghost s = ds@;
        let ghost deep: nat = s[d.at as int].depth + 1;
        ds.disks[self.at].journal = Some(d.at);
        ds.disks[self.at].depth = Ghost(deep);
        assert(ds@ =~= s.update(
            self.at as int,
            DiskView { journal: Some(d.at), depth: deep, ..s[self.at as int] },
        ));
        assert forall|i: int| 0 <= i < ds@.len() implies #[trigger] sound_at(ds@, i) by {
            if i != self.at {
                assert(sound_at(s, i));
                assert(s[i].journal != Some(self.at));
            }
        }
    }

    pub fn set_errs(&self, ds: &mut Disks, n: usize)
        requires
            self.wf(old(ds)@),
        ensures
            final(ds)@ == old(ds)@.update(self.at as int, DiskView { errs: n, ..self.of(old(ds)@) }),
            disks_wf(final(ds)@),
    {
        ds.disks[self.at].errs = n;
        assert(ds@ =~= old(ds)@.update(self.at as int, DiskView { errs: n, ..self.of(old(ds)@) }));
        proof {
            lemma_counts_wf(old(ds)@, self.at as int, ds@[self.at as int]);
        }
    }

    /// Reads a block, as often as it takes.
    #[verifier::rlimit(30)]
    pub fn read_block(&self, ds: &mut Disks, blk: usize, out: &mut [u8]) -> (r: Result<(), &'static str>)
        requires
            self.wf(old(ds)@),
            self.of(old(ds)@).errs != usize::MAX,
        ensures
            r == Ok::<(), &'static str>(()),
            final(ds)@ == after_read(old(ds)@, self.at as int),
            disks_wf(final(ds)@),
            final(out)@ == Seq::new(
                old(out)@.len(),
                |i: int| ((blk % 256) as u8).wrapping_mul(0x9D) | 0xAA,
            ),
    {
        let ghost s = ds@;
        let ghost i = self.at as int;
        let mut failed: usize = 0;
        proof {
            lemma_counted(s[i].ops, 0);
            lemma_so_far_starts(s, i, 5);
        }
        while ds.disks[self.at].errs != 0
            invariant
                s == old(ds)@,
                i == self.at,
                self.wf(s),
                s[i].errs != usize::MAX,
                out@ == old(out)@,
                failed <= s[i].errs,
                ds@ == so_far(
                    s,
                    i,
                    (s[i].errs - failed) as usize,
                    counted(s[i].ops, failed as int),
                    5,
                    failed as nat,
                ),
                ds@.len() == s.len(),
                ds@[i].errs == s[i].errs - failed,
                ds@[i].ops == counted(s[i].ops, failed as int),
                disks_wf(ds@),
            decreases ds@[i].errs,
        {
            let ghost before = ds@;
            let errs: usize = ds.disks[self.at].errs - 1;
            self.fail_once(ds, blk, errs, 5);
            failed += 1;
            proof {
                lemma_counted(s[i].ops, failed - 1);
                lemma_so_far_step(
                    s,
                    i,
                    before[i].errs,
                    before[i].ops,
                    errs,
                    counted(s[i].ops, failed as int),
                    5,
                    (failed - 1) as nat,
                );
                lemma_so_far_frame(s, i, errs, counted(s[i].ops, failed as int), 5, failed as nat);
            }
        }
        let ghost before = ds@;
        self.count(ds);
        proof {
            let o = counted(s[i].ops, failed as int);
            lemma_counted(s[i].ops, failed as int);
            lemma_so_far_frame(s, i, 0, o, 5, failed as nat);
            lemma_so_far_counts(s, i, 0, o, 0, o.wrapping_add(1), 5, failed as nat);
        }
        let fill: u8 = ((blk % 256) as u8).wrapping_mul(0x9D) | 0xAA;
        let mut k: usize = 0;
        while k < out.len()
            invariant
                k <= out@.len() == old(out)@.len(),
                forall|n: int| 0 <= n < k ==> out@[n] == fill,
            decreases out@.len() - k,
        {
            out[k] = fill;
            k += 1;
        }
        assert(out@ =~= Seq::new(old(out)@.len(), |i: int| ((blk % 256) as u8).wrapping_mul(0x9D) | 0xAA));
        Ok(())
    }

    /// Counts one access.
    pub(crate) fn count(&self, ds: &mut Disks)
        requires
            self.wf(old(ds)@),
        ensures
            final(ds)@ == old(ds)@.update(self.at as int, self.of(old(ds)@).used()),
            disks_wf(final(ds)@),
    {
        ds.disks[self.at].ops = ds.disks[self.at].ops.wrapping_add(1);
        assert(ds@ =~= old(ds)@.update(self.at as int, self.of(old(ds)@).used()));
        proof {
            lemma_counts_wf(old(ds)@, self.at as int, ds@[self.at as int]);
        }
    }

    /// An access that fails, with `errs` errors left, and the read of the journal that follows.
    fn fail_once(&self, ds: &mut Disks, blk: usize, errs: usize, lim: usize)
        requires
            self.wf(old(ds)@),
            self.of(old(ds)@).journal matches Some(j) ==> ends(old(ds)@, j as int, lim as int),
        ensures
            final(ds)@ == so_far(
                old(ds)@,
                self.at as int,
                errs,
                self.of(old(ds)@).ops.wrapping_add(1),
                lim as int,
                1,
            ),
            disks_wf(final(ds)@),
        decreases self.of(old(ds)@).depth, 0nat,
    {
        let ghost s = ds@;
        let ghost i = self.at as int;
        self.count(ds);
        let ghost mid = ds@;
        assert(mid.len() == ds.disks@.len());
        ds.disks[self.at].errs = errs;
        assert(ds@ =~= mid.update(i, DiskView { errs, ..mid[i] }));
        let ghost v = DiskView { errs, ..s[i].used() };
        assert(ds@ =~= s.update(i, v));
        proof {
            lemma_counts_wf(s, i, v);
            if let Some(j) = s[i].journal {
                assert(sound_at(s, i));
                lemma_ends_above(s, j as int, lim as int, i, v);
            }
        }
        assert(ds@[i] == ds.disks@[i]@);
        assert(sound_at(ds@, i));
        if let Some(j) = ds.disks[self.at].journal {
            let mut scratch: [u8; 8] = [0u8; 8];
            let _r = Disk { at: j }.read_block_n(ds, blk, &mut scratch, lim);
        }
    }

    /// Reads a block in at most `lim` accesses, or in any number for zero. Returns how many it
    /// took.
    #[verifier::rlimit(30)]
    pub fn read_block_n(&self, ds: &mut Disks, blk: usize, out: &mut [u8], lim: usize) -> (r: Result<
        usize,
        &'static str,
    >)
        requires
            self.wf(old(ds)@),
            ends(old(ds)@, self.at as int, lim as int),
        ensures
            final(ds)@ == after_reads(old(ds)@, self.at as int, lim as int, 1),
            disks_wf(final(ds)@),
            succeeds(self.of(old(ds)@).errs as int, lim as int) ==> {
                &&& r == Ok::<usize, &'static str>((self.of(old(ds)@).errs + 1) as usize)
                &&& final(out)@ == Seq::new(old(out)@.len(), |i: int| 0xAAu8 ^ ((i % 256) as u8))
            },
            !succeeds(self.of(old(ds)@).errs as int, lim as int) ==> r == Err::<usize, _>("limit") && final(out)@
                == old(out)@,
        decreases self.of(old(ds)@).depth, 1nat,
    {
        let ghost s = ds@;
        let ghost i = self.at as int;
        let ghost d = s[i];
        let lim5: usize = if lim < 5 {
            lim
        } else {
            5
        };
        let ghost l5 = at_most_5(lim as int);
        let mut failed: usize = 0;
        proof {
            lemma_counted(d.ops, 0);
            lemma_so_far_starts(s, i, l5);
            lemma_one_read(s, i, lim as int);
        }
        while ds.disks[self.at].errs != 0
            invariant
                s == old(ds)@,
                i == self.at,
                d == s[i],
                self.wf(s),
                ends(s, i, lim as int),
                l5 == at_most_5(lim as int),
                lim5 == l5,
                out@ == old(out)@,
                d.errs != usize::MAX ==> ds@[i].errs + failed == d.errs,
                d.errs == usize::MAX ==> ds@[i].errs == usize::MAX,
                lim > 0 ==> failed < lim,
                ds@ == so_far(s, i, ds@[i].errs, counted(d.ops, failed as int), l5, failed as nat),
                ds@.len() == s.len(),
                ds@[i].ops == counted(d.ops, failed as int),
                ds@[i].depth == d.depth,
                ds@[i].journal == d.journal,
                disks_wf(ds@),
                after_reads(s, i, lim as int, 1) == so_far(
                    s,
                    i,
                    left_once(d.errs as int, lim as int) as usize,
                    counted(d.ops, fails_once(d.errs as int, lim as int) + if succeeds(d.errs as int, lim as int) {
                        1int
                    } else {
                        0
                    }),
                    l5,
                    fails_once(d.errs as int, lim as int) as nat,
                ),
            decreases (if lim > 0 { lim - failed } else { ds@[i].errs as int }),
        {
            let ghost before = ds@;
            let now: usize = ds.disks[self.at].errs;
            let errs: usize = if now != usize::MAX {
                now - 1
            } else {
                now
            };
            proof {
                lemma_so_far_ends(s, i, before[i].errs, before[i].ops, l5, failed as nat);
            }
            self.fail_once(ds, blk, errs, lim5);
            proof {
                let o = counted(d.ops, failed + 1);
                lemma_counted(d.ops, failed as int);
                lemma_so_far_step(s, i, before[i].errs, before[i].ops, errs, o, l5, failed as nat);
                lemma_so_far_frame(s, i, errs, o, l5, (failed + 1) as nat);
            }
            failed += 1;
            if lim > 0 && failed >= lim {
                return Err("limit");
            }
        }
        self.count(ds);
        proof {
            let o = counted(d.ops, failed as int);
            lemma_counted(d.ops, failed as int);
            lemma_so_far_frame(s, i, 0, o, l5, failed as nat);
            lemma_so_far_counts(s, i, 0, o, 0, o.wrapping_add(1), l5, failed as nat);
        }
        let mut k: usize = 0;
        while k < out.len()
            invariant
                k <= out@.len() == old(out)@.len(),
                forall|n: int| 0 <= n < k ==> out@[n] == 0xAAu8 ^ ((n % 256) as u8),
            decreases out@.len() - k,
        {
            out[k] = 0xAAu8 ^ ((k % 256) as u8);
            k += 1;
        }
        assert(out@ =~= Seq::new(old(out)@.len(), |i: int| 0xAAu8 ^ ((i % 256) as u8)));
        Ok(failed + 1)
    }

    pub fn total_ops(&self, ds: &Disks) -> (r: usize)
        requires
            self.wf(ds@),
        ensures
            r == self.of(ds@).ops,
    {
        ds.disks[self.at].ops
    }

    pub fn reset_ops(&self, ds: &mut Disks)
        requires
            self.wf(old(ds)@),
        ensures
            final(ds)@ == old(ds)@.update(self.at as int, DiskView { ops: 0, ..self.of(old(ds)@) }),
            disks_wf(final(ds)@),
    {
        ds.disks[self.at].ops = 0;
        assert(ds@ =~= old(ds)@.update(self.at as int, DiskView { ops: 0, ..self.of(old(ds)@) }));
        proof {
            lemma_counts_wf(old(ds)@, self.at as int, ds@[self.at as int]);
        }
    }

    /// Writes a block. It fails while there are errors left, and keeps nothing of the data.
    pub fn write_block(&self, ds: &mut Disks, _blk: usize, _data: &[u8]) -> (r: Result<(), &'static str>)
        requires
            self.wf(old(ds)@),
        ensures
            final(ds)@ == old(ds)@.update(self.at as int, self.of(old(ds)@).after_access()),
            disks_wf(final(ds)@),
            r == (if self.of(old(ds)@).errs == 0 { Ok::<(), &'static str>(()) } else { Err("io_error") }),
    {
        let ghost s = ds@;
        self.count(ds);
        let ghost mid = ds@;
        assert(mid == s.update(self.at as int, self.of(s).used()));
        assert(mid.len() == s.len());
        assert(mid.len() == ds.disks@.len());
        assert(mid[self.at as int] == ds.disks@[self.at as int]@);
        let errs: usize = ds.disks[self.at].errs;
        if errs != 0 {
            if errs != usize::MAX {
                ds.disks[self.at].errs = errs - 1;
                assert(ds@ =~= mid.update(self.at as int, DiskView { errs: (errs - 1) as usize, ..mid[self.at as int] }));
            }
            assert(ds@ =~= old(ds)@.update(self.at as int, self.of(old(ds)@).after_access()));
            proof {
                lemma_counts_wf(old(ds)@, self.at as int, ds@[self.at as int]);
            }
            return Err("io_error");
        }
        Ok(())
    }

    /// Counts one access, and one on the journal.
    pub fn flush(&self, ds: &mut Disks) -> (r: Result<(), &'static str>)
        requires
            self.wf(old(ds)@),
        ensures
            r == Ok::<(), &'static str>(()),
            final(ds)@ == ({
                let mid = old(ds)@.update(self.at as int, self.of(old(ds)@).used());
                match self.of(old(ds)@).journal {
                    Some(j) => mid.update(j as int, mid[j as int].used()),
                    None => mid,
                }
            }),
            disks_wf(final(ds)@),
    {
        assert(sound_at(ds@, self.at as int));
        self.count(ds);
        assert(ds@.len() == ds.disks@.len() == old(ds)@.len());
        assert(ds@[self.at as int] == ds.disks@[self.at as int]@);
        if let Some(j) = ds.disks[self.at].journal {
            Disk { at: j }.count(ds);
        }
        Ok(())
    }
}

/// Counts change no links.
proof fn lemma_counts_wf(s: Seq<DiskView>, i: int, v: DiskView)
    requires
        disks_wf(s),
        0 <= i < s.len(),
        v.journal == s[i].journal,
        v.depth == s[i].depth,
    ensures
        disks_wf(s.update(i, v)),
{
    let u = s.update(i, v);
    assert forall|k: int| 0 <= k < u.len() implies #[trigger] sound_at(u, k) by {
        assert(sound_at(s, k));
    }
}

proof fn lemma_counted(ops: usize, n: int)
    requires
        0 <= n,
    ensures
        counted(ops, 0) == ops,
        counted(ops, n).wrapping_add(1) == counted(ops, n + 1),
{
    let m = usize::MAX as int + 1;
    assert(ops as int % m == ops) by (nonlinear_arith)
        requires
            0 <= ops < m,
    ;
    vstd::arithmetic::div_mod::lemma_add_mod_noop(ops + n, 1, m);
    let r = (ops + n) % m;
    assert(0 <= r < m) by (nonlinear_arith)
        requires
            m > 0,
            r == (ops + n) % m,
    ;
    assert((r + 1) % m == (if r + 1 == m { 0 } else { r + 1 })) by (nonlinear_arith)
        requires
            0 <= r < m,
    ;
    assert(1int % m == 1) by (nonlinear_arith)
        requires
            m > 1,
    ;
}

proof fn lemma_counted_add(ops: usize, a: int, b: int)
    requires
        0 <= a,
        0 <= b,
    ensures
        counted(counted(ops, a), b) == counted(ops, a + b),
    decreases b,
{
    if b == 0 {
        lemma_counted(counted(ops, a), 0);
    } else {
        lemma_counted_add(ops, a, b - 1);
        lemma_counted(counted(ops, a), b - 1);
        lemma_counted(ops, a + b - 1);
    }
}

/// How the three counts add up over two runs of reads.
proof fn lemma_runs(e: int, lim: int, a: nat, b: nat)
    requires
        0 <= e <= usize::MAX,
        0 <= lim,
    ensures
        0 <= left(e, lim, a) <= usize::MAX,
        0 <= fails(e, lim, a),
        0 <= accesses(e, lim, a),
        left(e, lim, a + b) == left(left(e, lim, a), lim, b),
        fails(e, lim, a + b) == fails(e, lim, a) + fails(left(e, lim, a), lim, b),
        accesses(e, lim, a + b) == accesses(e, lim, a) + accesses(left(e, lim, a), lim, b),
    decreases a + b,
{
    if b > 0 {
        lemma_runs(e, lim, a, (b - 1) as nat);
        assert(a + b - 1 == a + (b - 1) as nat);
    } else if a > 0 {
        lemma_runs(e, lim, (a - 1) as nat, 0);
    }
}

/// Reads change counts only, and those of the disk and of what lies less deep.
proof fn lemma_frame(s: Seq<DiskView>, i: int, lim: int, t: nat)
    requires
        disks_wf(s),
        0 <= i < s.len(),
    ensures
        ({
            let u = after_reads(s, i, lim, t);
            &&& u.len() == s.len()
            &&& disks_wf(u)
            &&& u[i] == (DiskView {
                errs: left(s[i].errs as int, lim, t) as usize,
                ops: counted(s[i].ops, accesses(s[i].errs as int, lim, t)),
                ..s[i]
            })
            &&& forall|k: int|
                0 <= k < s.len() ==> (#[trigger] u[k]) == (DiskView { errs: u[k].errs, ops: u[k].ops, ..s[k] })
            &&& forall|k: int| 0 <= k < s.len() && k != i && s[k].depth >= s[i].depth ==> #[trigger] u[k] == s[k]
        }),
    decreases s[i].depth,
{
    let d = s[i];
    let v = DiskView {
        errs: left(d.errs as int, lim, t) as usize,
        ops: counted(d.ops, accesses(d.errs as int, lim, t)),
        ..d
    };
    let mid = s.update(i, v);
    lemma_counts_wf(s, i, v);
    if let Some(j) = d.journal {
        assert(sound_at(s, i));
        lemma_frame(mid, j as int, at_most_5(lim), fails(d.errs as int, lim, t) as nat);
        let u = after_reads(s, i, lim, t);
        assert forall|k: int| 0 <= k < s.len() implies (#[trigger] u[k]) == (DiskView {
            errs: u[k].errs,
            ops: u[k].ops,
            ..s[k]
        }) by {
            assert(u[k] == (DiskView { errs: u[k].errs, ops: u[k].ops, ..mid[k] }));
        }
        assert forall|k: int| 0 <= k < s.len() && k != i && s[k].depth >= s[i].depth implies #[trigger] u[k] == s[k] by {
            assert(mid[k] == s[k]);
        }
    }
}

/// Reads do not see the counts of what lies deeper.
proof fn lemma_reads_above(s: Seq<DiskView>, j: int, lim: int, t: nat, i: int, v: DiskView)
    requires
        disks_wf(s),
        0 <= i < s.len(),
        0 <= j < s.len(),
        s[j].depth < s[i].depth,
        v.journal == s[i].journal,
        v.depth == s[i].depth,
    ensures
        after_reads(s.update(i, v), j, lim, t) == after_reads(s, j, lim, t).update(i, v),
    decreases s[j].depth,
{
    let d = s[j];
    let w = DiskView {
        errs: left(d.errs as int, lim, t) as usize,
        ops: counted(d.ops, accesses(d.errs as int, lim, t)),
        ..d
    };
    let mid = s.update(j, w);
    assert(s.update(i, v).update(j, w) =~= mid.update(i, v));
    lemma_counts_wf(s, j, w);
    if let Some(k) = d.journal {
        assert(sound_at(s, j));
        lemma_reads_above(mid, k as int, at_most_5(lim), fails(d.errs as int, lim, t) as nat, i, v);
    }
}

proof fn lemma_ends_above(s: Seq<DiskView>, j: int, lim: int, i: int, v: DiskView)
    requires
        disks_wf(s),
        0 <= i < s.len(),
        0 <= j < s.len(),
        s[j].depth < s[i].depth,
        v.journal == s[i].journal,
        v.depth == s[i].depth,
    ensures
        ends(s.update(i, v), j, lim) == ends(s, j, lim),
    decreases s[j].depth,
{
    if let Some(k) = s[j].journal {
        assert(sound_at(s, j));
        lemma_ends_above(s, k as int, 0, i, v);
    }
}

proof fn lemma_no_reads(s: Seq<DiskView>, i: int, lim: int)
    requires
        disks_wf(s),
        0 <= i < s.len(),
        0 <= lim,
    ensures
        after_reads(s, i, lim, 0) == s,
    decreases s[i].depth,
{
    lemma_counted(s[i].ops, 0);
    assert(s.update(i, s[i]) =~= s);
    if let Some(j) = s[i].journal {
        assert(sound_at(s, i));
        lemma_no_reads(s, j as int, at_most_5(lim));
    }
}

/// Reads add up.
#[verifier::spinoff_prover]
#[verifier::rlimit(30)]
proof fn lemma_reads_add(s: Seq<DiskView>, i: int, lim: int, a: nat, b: nat)
    requires
        disks_wf(s),
        0 <= i < s.len(),
        0 <= lim,
    ensures
        after_reads(after_reads(s, i, lim, a), i, lim, b) == after_reads(s, i, lim, a + b),
    decreases s[i].depth,
{
    let d = s[i];
    let e = d.errs as int;
    lemma_runs(e, lim, a, b);
    lemma_runs(left(e, lim, a), lim, b, 0);
    lemma_counted_add(d.ops, accesses(e, lim, a), accesses(left(e, lim, a), lim, b));
    let va = DiskView { errs: left(e, lim, a) as usize, ops: counted(d.ops, accesses(e, lim, a)), ..d };
    let vb = DiskView {
        errs: left(e, lim, a + b) as usize,
        ops: counted(d.ops, accesses(e, lim, a + b)),
        ..d
    };
    let mid = s.update(i, va);
    lemma_counts_wf(s, i, va);
    lemma_frame(s, i, lim, a);
    assert(mid.update(i, vb) =~= s.update(i, vb));
    if let Some(j) = d.journal {
        assert(sound_at(s, i));
        let l5 = at_most_5(lim);
        let fa = fails(e, lim, a) as nat;
        let fb = fails(left(e, lim, a), lim, b) as nat;
        let r = after_reads(mid, j as int, l5, fa);
        lemma_frame(mid, j as int, l5, fa);
        lemma_reads_above(r, j as int, l5, fb, i, vb);
        lemma_reads_add(mid, j as int, l5, fa, fb);
        lemma_reads_above(mid, j as int, l5, fa + fb, i, vb);
        assert(r[i] == va);
        assert(r[j as int].depth < r[i].depth);
        assert(r.update(i, vb)[j as int].depth < r[i].depth);
        assert(after_reads(r, i, lim, b) == after_reads(r.update(i, vb), j as int, l5, fb));
        assert(after_reads(s, i, lim, a + b) == after_reads(s.update(i, vb), j as int, l5, fa + fb));
    }
}

proof fn lemma_reads_end(s: Seq<DiskView>, i: int, lim: int, t: nat)
    requires
        disks_wf(s),
        0 <= i < s.len(),
        0 <= lim,
        ends(s, i, lim),
    ensures
        ends(after_reads(s, i, lim, t), i, lim),
    decreases s[i].depth,
{
    let u = after_reads(s, i, lim, t);
    lemma_frame(s, i, lim, t);
    if lim == 0 {
        if t == 0 {
            lemma_no_reads(s, i, 0);
        } else {
            lemma_runs(s[i].errs as int, 0, (t - 1) as nat, 0);
            lemma_not_max(s[i].errs as int, (t - 1) as nat);
        }
    }
}

proof fn lemma_so_far_starts(s: Seq<DiskView>, i: int, lim: int)
    requires
        disks_wf(s),
        0 <= i < s.len(),
        0 <= lim,
    ensures
        so_far(s, i, s[i].errs, s[i].ops, lim, 0) == s,
{
    assert(s.update(i, s[i]) =~= s);
    if let Some(j) = s[i].journal {
        assert(sound_at(s, i));
        lemma_no_reads(s, j as int, lim);
    }
}

proof fn lemma_so_far_frame(s: Seq<DiskView>, i: int, errs: usize, ops: usize, lim: int, t: nat)
    requires
        disks_wf(s),
        0 <= i < s.len(),
    ensures
        ({
            let u = so_far(s, i, errs, ops, lim, t);
            &&& u.len() == s.len()
            &&& disks_wf(u)
            &&& u[i] == (DiskView { errs, ops, ..s[i] })
            &&& forall|k: int|
                0 <= k < s.len() ==> (#[trigger] u[k]) == (DiskView { errs: u[k].errs, ops: u[k].ops, ..s[k] })
        }),
{
    let v = DiskView { errs, ops, ..s[i] };
    let mid = s.update(i, v);
    lemma_counts_wf(s, i, v);
    if let Some(j) = s[i].journal {
        assert(sound_at(s, i));
        lemma_frame(mid, j as int, lim, t);
        let u = so_far(s, i, errs, ops, lim, t);
        assert forall|k: int| 0 <= k < s.len() implies (#[trigger] u[k]) == (DiskView {
            errs: u[k].errs,
            ops: u[k].ops,
            ..s[k]
        }) by {
            assert(u[k] == (DiskView { errs: u[k].errs, ops: u[k].ops, ..mid[k] }));
        }
    }
}

proof fn lemma_so_far_counts(
    s: Seq<DiskView>,
    i: int,
    errs: usize,
    ops: usize,
    errs2: usize,
    ops2: usize,
    lim: int,
    t: nat,
)
    requires
        disks_wf(s),
        0 <= i < s.len(),
    ensures
        so_far(s, i, errs, ops, lim, t).update(i, DiskView { errs: errs2, ops: ops2, ..s[i] }) == so_far(
            s,
            i,
            errs2,
            ops2,
            lim,
            t,
        ),
{
    let v = DiskView { errs, ops, ..s[i] };
    let w = DiskView { errs: errs2, ops: ops2, ..s[i] };
    let mid = s.update(i, v);
    lemma_counts_wf(s, i, v);
    assert(mid.update(i, w) =~= s.update(i, w));
    if let Some(j) = s[i].journal {
        assert(sound_at(s, i));
        lemma_reads_above(mid, j as int, lim, t, i, w);
    }
}

proof fn lemma_so_far_step(
    s: Seq<DiskView>,
    i: int,
    errs: usize,
    ops: usize,
    errs2: usize,
    ops2: usize,
    lim: int,
    t: nat,
)
    requires
        disks_wf(s),
        0 <= i < s.len(),
        0 <= lim,
    ensures
        so_far(so_far(s, i, errs, ops, lim, t), i, errs2, ops2, lim, 1) == so_far(s, i, errs2, ops2, lim, t + 1),
{
    lemma_so_far_frame(s, i, errs, ops, lim, t);
    lemma_so_far_counts(s, i, errs, ops, errs2, ops2, lim, t);
    let w = DiskView { errs: errs2, ops: ops2, ..s[i] };
    let mid = s.update(i, w);
    lemma_counts_wf(s, i, w);
    if let Some(j) = s[i].journal {
        assert(sound_at(s, i));
        lemma_reads_add(mid, j as int, lim, t, 1);
    }
}

proof fn lemma_so_far_ends(s: Seq<DiskView>, i: int, errs: usize, ops: usize, lim: int, t: nat)
    requires
        disks_wf(s),
        0 <= i < s.len(),
        0 <= lim,
        s[i].journal matches Some(j) ==> ends(s, j as int, lim),
    ensures
        s[i].journal matches Some(j) ==> ends(so_far(s, i, errs, ops, lim, t), j as int, lim),
{
    let v = DiskView { errs, ops, ..s[i] };
    let mid = s.update(i, v);
    lemma_counts_wf(s, i, v);
    if let Some(j) = s[i].journal {
        assert(sound_at(s, i));
        lemma_ends_above(s, j as int, lim, i, v);
        lemma_reads_end(mid, j as int, lim, t);
    }
}

/// What one read comes to.
proof fn lemma_one_read(s: Seq<DiskView>, i: int, lim: int)
    requires
        disks_wf(s),
        0 <= i < s.len(),
    ensures
        ({
            let e = s[i].errs as int;
            after_reads(s, i, lim, 1) == so_far(
                s,
                i,
                left_once(e, lim) as usize,
                counted(s[i].ops, fails_once(e, lim) + if succeeds(e, lim) {
                    1int
                } else {
                    0
                }),
                at_most_5(lim),
                fails_once(e, lim) as nat,
            )
        }),
{
    reveal_with_fuel(left, 2);
    reveal_with_fuel(fails, 2);
    reveal_with_fuel(accesses, 2);
    if let Some(j) = s[i].journal {
        assert(sound_at(s, i));
    }
}

proof fn lemma_not_max(e: int, t: nat)
    requires
        0 <= e < usize::MAX,
    ensures
        0 <= left(e, 0, t) < usize::MAX,
    decreases t,
{
    if t > 0 {
        lemma_not_max(e, (t - 1) as nat);
    }
}

/// A disk that fails for good never gets better, and any other has no errors left after a read
/// that goes on until it succeeds.
pub proof fn law_errors_run_out(s: Seq<DiskView>, i: int, lim: int, t: nat)
    requires
        disks_wf(s),
        0 <= i < s.len(),
        0 <= lim,
    ensures
        s[i].errs == usize::MAX ==> after_reads(s, i, lim, t)[i].errs == usize::MAX,
        s[i].errs != usize::MAX ==> after_read(s, i)[i].errs == 0,
{
    lemma_stays_max(lim, t);
    lemma_frame(s, i, lim, t);
    lemma_so_far_frame(s, i, 0, counted(s[i].ops, s[i].errs + 1), 5, s[i].errs as nat);
}

/// A disk and its journals are all that a read touches: a disk that lies as deep stays as it is,
/// and of every other only counts change.
pub proof fn law_reads_leave_the_rest(s: Seq<DiskView>, i: int, lim: int, t: nat, k: int)
    requires
        disks_wf(s),
        0 <= i < s.len(),
        0 <= k < s.len(),
    ensures
        k != i && s[k].depth >= s[i].depth ==> after_reads(s, i, lim, t)[k] == s[k],
        ({
            let u = after_reads(s, i, lim, t);
            u[k] == (DiskView { errs: u[k].errs, ops: u[k].ops, ..s[k] })
        }),
{
    lemma_frame(s, i, lim, t);
}

/// Reads of two disks with one journal add up on the journal: whichever disk fails, it is the
/// same journal that is read.
pub proof fn law_shared_journal(s: Seq<DiskView>, a: int, b: int, j: usize, ta: nat, tb: nat, lim: int)
    requires
        disks_wf(s),
        0 <= a < s.len(),
        0 <= b < s.len(),
        a != b,
        s[a].journal == Some(j),
        s[b].journal == Some(j),
        0 <= lim,
    ensures
        ({
            let fa = fails(s[a].errs as int, lim, ta);
            let fb = fails(s[b].errs as int, lim, tb);
            after_reads(after_reads(s, a, lim, ta), b, lim, tb)[j as int] == after_reads(
                s,
                j as int,
                at_most_5(lim),
                (fa + fb) as nat,
            )[j as int]
        }),
{
    assert(sound_at(s, a) && sound_at(s, b));
    let l5 = at_most_5(lim);
    let fa = fails(s[a].errs as int, lim, ta) as nat;
    let fb = fails(s[b].errs as int, lim, tb) as nat;
    lemma_runs(s[a].errs as int, lim, ta, 0);
    lemma_runs(s[b].errs as int, lim, tb, 0);
    let va = DiskView {
        errs: left(s[a].errs as int, lim, ta) as usize,
        ops: counted(s[a].ops, accesses(s[a].errs as int, lim, ta)),
        ..s[a]
    };
    lemma_reads_above(s, j as int, l5, fa, a, va);
    let r = after_reads(s, j as int, l5, fa);
    let u = after_reads(s, a, lim, ta);
    lemma_frame(s, j as int, l5, fa);
    lemma_counts_wf(s, a, va);
    assert(s.update(a, va)[j as int].depth < s[a].depth);
    assert(u == r.update(a, va));
    lemma_counts_wf(r, a, va);
    let vb = DiskView {
        errs: left(s[b].errs as int, lim, tb) as usize,
        ops: counted(s[b].ops, accesses(s[b].errs as int, lim, tb)),
        ..s[b]
    };
    lemma_frame(s, a, lim, ta);
    assert(u[b] == s[b]);
    assert(u.update(b, vb)[j as int].depth < u[b].depth);
    lemma_reads_above(u, j as int, l5, fb, b, vb);
    lemma_reads_above(r, j as int, l5, fb, a, va);
    lemma_reads_add(s, j as int, l5, fa, fb);
    lemma_frame(u, j as int, l5, fb);
    lemma_frame(r, j as int, l5, fb);
    assert(after_reads(u, b, lim, tb) == after_reads(u.update(b, vb), j as int, l5, fb));
}

proof fn lemma_stays_max(lim: int, t: nat)
    ensures
        left(usize::MAX as int, lim, t) == usize::MAX,
    decreases t,
{
    if t > 0 {
        lemma_stays_max(lim, (t - 1) as nat);
    }
}

/// Reads in a row use up errors one for one, and come to as many accesses as fail and succeed.
pub proof fn law_reads_of_a_disk(errs: int, lim: int, t: nat)
    requires
        0 <= errs < usize::MAX,
        0 <= lim,
    ensures
        left(errs, lim, t) + fails(errs, lim, t) == errs,
        0 <= left(errs, lim, t) <= errs,
        fails(errs, lim, t) <= accesses(errs, lim, t) <= fails(errs, lim, t) + t,
        lim == 0 ==> accesses(errs, lim, t) == fails(errs, lim, t) + t,
        lim == 0 && t > 0 ==> left(errs, lim, t) == 0,
    decreases t,
{
    if t > 0 {
        law_reads_of_a_disk(errs, lim, (t - 1) as nat);
    }
}

/// A read of a disk that goes on until it succeeds takes one access more than there are errors.
/// The journal is read once for every error, and gives up after five times.
pub proof fn law_read_reads_the_journal(s: Seq<DiskView>, i: int)
    requires
        disks_wf(s),
        0 <= i < s.len(),
        s[i].errs != usize::MAX,
        s[i].ops + s[i].errs < usize::MAX,
    ensures
        after_read(s, i)[i].ops == s[i].ops + s[i].errs + 1,
        after_read(s, i).len() == s.len(),
        s[i].journal matches Some(j) ==> after_read(s, i)[j as int] == after_reads(s, j as int, 5, s[i].errs as nat)[j as int],
        s[i].journal is None ==> forall|k: int| 0 <= k < s.len() && k != i ==> after_read(s, i)[k] == #[trigger] s[k],
{
    lemma_so_far_frame(s, i, 0, counted(s[i].ops, s[i].errs + 1), 5, s[i].errs as nat);
    vstd::arithmetic::div_mod::lemma_small_mod((s[i].ops + s[i].errs + 1) as nat, (usize::MAX + 1) as nat);
    if let Some(j) = s[i].journal {
        assert(sound_at(s, i));
        let v = DiskView { errs: 0, ops: counted(s[i].ops, s[i].errs + 1), ..s[i] };
        lemma_counts_wf(s, i, v);
        lemma_frame(s.update(i, v), j as int, 5, s[i].errs as nat);
        lemma_frame(s, j as int, 5, s[i].errs as nat);
    }
}

} // verus!
