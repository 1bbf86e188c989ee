//! What a file descriptor can stand for.

use crate::fs::epoll::{EpollInstance, EpollView};
use crate::fs::file;
use crate::fs::file::{FHandle, FHandleView};
use crate::fs::pipe::PipeNode;
use crate::fs::store::{pipes_delivered, Store, StoreView};
use crate::ordered::{sorted_keys, strictly_ascending};
use std::collections::BTreeMap;
use vstd::prelude::*;

verus! {

broadcast use {vstd::std_specs::btree::group_btree_axioms, vstd::laws_cmp::group_laws_cmp};

pub enum FileLike {
    File(FHandle),
    Pipe(PipeNode),
    Epoll(EpollInstance),
}

/// What a file descriptor stands for.
pub ghost enum FileView {
    File(FHandleView),
    Pipe(PipeNode),
    Epoll(EpollView),
}

impl View for FileLike {
    type V = FileView;

    open spec fn view(&self) -> FileView {
        match self {
            FileLike::File(f) => FileView::File(f@),
            FileLike::Pipe(p) => FileView::Pipe(*p),
            FileLike::Epoll(e) => FileView::Epoll(e@),
        }
    }
}

impl Clone for FileLike {
    fn clone(&self) -> (r: Self)
        ensures
            r@ == self@,
    {
        match self {
            FileLike::File(f) => FileLike::File(f.dup(f.cloexec)),
            FileLike::Pipe(p) => FileLike::Pipe(*p),
            FileLike::Epoll(e) => FileLike::Epoll(e.clone()),
        }
    }
}

impl FileView {
    pub open spec fn wf(self, st: StoreView) -> bool {
        match self {
            FileView::File(f) => f.wf(st),
            FileView::Pipe(p) => p.wf(st),
            FileView::Epoll(e) => e.wf(st),
        }
    }

    pub open spec fn dup(self, cloexec: bool) -> FileView {
        match self {
            FileView::File(f) => FileView::File(f.dup(cloexec)),
            FileView::Pipe(_) => self,
            FileView::Epoll(_) => self,
        }
    }

    /// A cursor lies where the machine can count.
    pub open spec fn can_read(self, st: StoreView) -> bool {
        self matches FileView::File(f) ==> f.cursor(st).off <= usize::MAX
    }

    /// A write of `n` bytes stays within what the machine can count.
    pub open spec fn can_write(self, st: StoreView, n: int) -> bool {
        self matches FileView::File(f) ==> file::can_write(f, st, n)
    }

    pub open spec fn read_of(self, st: StoreView, buf: Seq<u8>) -> (StoreView, Result<usize, &'static str>, Seq<u8>) {
        match self {
            FileView::File(f) => file::read_of(f, st, buf),
            FileView::Pipe(p) => p.read_of(st, buf),
            FileView::Epoll(_) => (st, Err("not supported"), buf),
        }
    }

    pub open spec fn write_of(self, st: StoreView, buf: Seq<u8>) -> (StoreView, Result<usize, &'static str>) {
        match self {
            FileView::File(f) => file::write_of(f, st, buf),
            FileView::Pipe(p) => p.write_of(st, buf),
            FileView::Epoll(_) => (st, Err("not supported")),
        }
    }

    /// Whether it can be read, can be written, and is in error.
    pub open spec fn poll_of(self, st: StoreView) -> (bool, bool, bool) {
        match self {
            FileView::File(f) => (
                f.cursor(st).opt.read,
                f.cursor(st).opt.write,
                f.path.len() == 0 && f.blob(st).len() == 0,
            ),
            FileView::Pipe(p) => (p.readable(st), p.writable(st), p.broken(st)),
            FileView::Epoll(e) => (st.sets[e.ready as int].len() > 0, false, false),
        }
    }

    pub open spec fn io_ctl_of(self, req: usize) -> Result<usize, &'static str> {
        match self {
            FileView::File(_) => Ok(0),
            FileView::Pipe(_) => if req == 0x5421 {
                Ok(0)
            } else {
                Err("enotty")
            },
            FileView::Epoll(_) => Err("not supported"),
        }
    }

    pub open spec fn mmap_of(self, start: usize, end: usize) -> Result<(), &'static str> {
        if start >= end {
            Err("invalid range")
        } else if self is File {
            Ok(())
        } else {
            Err("not supported")
        }
    }

    /// The store after a copy was dropped.
    pub open spec fn dropped(self, st: StoreView) -> StoreView {
        match self {
            FileView::Pipe(p) => p.dropped(st),
            _ => st,
        }
    }
}

impl FileLike {
    /// A second copy. Only a file takes `cloexec`.
    pub fn dup(&self, cloexec: bool) -> (r: FileLike)
        ensures
            r@ == self@.dup(cloexec),
    {
        match self {
            FileLike::File(f) => FileLike::File(f.dup(cloexec)),
            FileLike::Pipe(p) => FileLike::Pipe(*p),
            FileLike::Epoll(e) => FileLike::Epoll(e.clone()),
        }
    }

    /// Reads. Those who wait for the events of a pipe hear of it.
    pub fn read<F: Fn(usize, u32) -> bool>(&self, st: &mut Store, buf: &mut [u8], run: &F) -> (r: Result<
        usize,
        &'static str,
    >)
        requires
            self@.wf(old(st)@),
            self@.can_read(old(st)@),
            forall|c: usize, e: u32| call_requires(*run, (c, e)),
        ensures
            r == self@.read_of(old(st)@, old(buf)@).1,
            final(buf)@ == self@.read_of(old(st)@, old(buf)@).2,
            pipes_delivered(*run, self@.read_of(old(st)@, old(buf)@).0, final(st)@),
    {
        let r = self.note_read(st, buf);
        st.deliver(run);
        r
    }

    /// A read whose events are noted.
    pub(crate) fn note_read(&self, st: &mut Store, buf: &mut [u8]) -> (r: Result<usize, &'static str>)
        requires
            self@.wf(old(st)@),
            self@.can_read(old(st)@),
        ensures
            (final(st)@, r, final(buf)@) == self@.read_of(old(st)@, old(buf)@),
    {
        match self {
            FileLike::File(f) => f.read(st, buf),
            FileLike::Pipe(p) => p.note_read(st, buf),
            FileLike::Epoll(_) => Err("not supported"),
        }
    }

    /// Writes. Those who wait for the events of a pipe hear of it.
    pub fn write<F: Fn(usize, u32) -> bool>(&self, st: &mut Store, buf: &[u8], run: &F) -> (r: Result<
        usize,
        &'static str,
    >)
        requires
            self@.wf(old(st)@),
            self@.can_write(old(st)@, buf@.len() as int),
            forall|c: usize, e: u32| call_requires(*run, (c, e)),
        ensures
            r == self@.write_of(old(st)@, buf@).1,
            pipes_delivered(*run, self@.write_of(old(st)@, buf@).0, final(st)@),
    {
        let r = self.note_write(st, buf);
        st.deliver(run);
        r
    }

    /// A write whose events are noted.
    pub(crate) fn note_write(&self, st: &mut Store, buf: &[u8]) -> (r: Result<usize, &'static str>)
        requires
            self@.wf(old(st)@),
            self@.can_write(old(st)@, buf@.len() as int),
        ensures
            (final(st)@, r) == self@.write_of(old(st)@, buf@),
    {
        match self {
            FileLike::File(f) => f.write(st, buf),
            FileLike::Pipe(p) => p.note_write(st, buf),
            FileLike::Epoll(_) => Err("not supported"),
        }
    }

    /// A file accepts every request, a pipe only the one that switches blocking.
    pub fn io_ctl(&self, req: usize, a1: usize) -> (r: Result<usize, &'static str>)
        ensures
            r == self@.io_ctl_of(req),
    {
        match self {
            FileLike::File(f) => f.io_ctl(0, a1),
            FileLike::Pipe(_) => if req == 0x5421 {
                Ok(0)
            } else {
                Err("enotty")
            },
            FileLike::Epoll(_) => Err("not supported"),
        }
    }

    pub fn mmap_fl(&self, start: usize, end: usize, off: usize) -> (r: Result<(), &'static str>)
        ensures
            r == self@.mmap_of(start, end),
    {
        if start >= end {
            return Err("invalid range");
        }
        match self {
            FileLike::File(f) => f.mmap(start, end, off),
            _ => Err("not supported"),
        }
    }

    /// Whether a file or an epoll set can be read, can be written, and is in error. A pipe is not
    /// to be asked this way.
    pub fn poll(&self, st: &Store) -> (r: (bool, bool, bool))
        requires
            self@.wf(st@),
            !(self@ is Pipe),
        ensures
            r == self@.poll_of(st@),
    {
        match self {
            FileLike::File(f) => f.poll_status(st),
            FileLike::Pipe(p) => p.poll(st),
            FileLike::Epoll(e) => {
                let ready = &st.sets[e.ready];
                (ready.len() > 0, false, false)
            },
        }
    }

    /// Drops a copy. Those who wait for the events of a pipe hear of it.
    pub fn release<F: Fn(usize, u32) -> bool>(&self, st: &mut Store, run: &F)
        requires
            self@.wf(old(st)@),
            forall|c: usize, e: u32| call_requires(*run, (c, e)),
        ensures
            pipes_delivered(*run, self@.dropped(old(st)@), final(st)@),
    {
        self.note_release(st);
        st.deliver(run);
    }

    /// Drops a copy. Its events are noted.
    pub(crate) fn note_release(&self, st: &mut Store)
        requires
            self@.wf(old(st)@),
        ensures
            final(st)@ == self@.dropped(old(st)@),
    {
        match self {
            FileLike::Pipe(p) => p.note_release(st),
            _ => {},
        }
    }
}

/// The entry is a file without a path.
pub open spec fn suspect(f: FileView) -> bool {
    f matches FileView::File(h) && h.path.len() == 0
}

/// `x` is a suspect entry, or a number that is free between two entries.
pub open spec fn leaked(files: Map<usize, FileLike>, x: usize) -> bool {
    if files.dom().contains(x) {
        suspect(files[x]@)
    } else {
        &&& exists|a: usize| files.dom().contains(a) && a < x
        &&& exists|b: usize| files.dom().contains(b) && x < b
    }
}

/// Lists, in ascending order, the suspect entries of a table and the gaps between its entries. A
/// table with pipes is not to be audited.
pub fn audit_fd_table(files: &BTreeMap<usize, FileLike>) -> (r: Vec<usize>)
    requires
        forall|fd: usize| #[trigger] files@.dom().contains(fd) ==> !(files@[fd]@ is Pipe),
    ensures
        strictly_ascending(r@),
        forall|x: usize| r@.contains(x) <==> leaked(files@, x),
{
    let keys = sorted_keys(files);
    let mut leaks: Vec<usize> = Vec::new();
    let mut i: usize = 0;
    assert forall|x: usize| !leaks@.contains(x) by {}
    while i < keys.len()
        invariant
            i <= keys@.len(),
            strictly_ascending(keys@),
            keys@.to_set() == files@.dom(),
            strictly_ascending(leaks@),
            i == 0 ==> leaks@.len() == 0,
            i > 0 ==> listed(leaks@, files@, keys@[i - 1] + 1),
        decreases keys@.len() - i,
    {
        let fd: usize = keys[i];
        assert(keys@.to_set().contains(fd));
        if i > 0 {
            let prev: usize = keys[i - 1];
            assert(keys@.to_set().contains(prev));
            let mut gap: usize = prev + 1;
            while gap < fd
                invariant
                    0 < i < keys@.len(),
                    prev == keys@[i - 1],
                    fd == keys@[i as int],
                    prev < gap <= fd,
                    files@.dom().contains(prev),
                    files@.dom().contains(fd),
                    strictly_ascending(keys@),
                    keys@.to_set() == files@.dom(),
                    strictly_ascending(leaks@),
                    listed(leaks@, files@, gap as int),
                decreases fd - gap,
            {
                proof {
                    if files@.dom().contains(gap) {
                        assert(keys@.contains(gap));
                        let k = choose|k: int| 0 <= k < keys@.len() && keys@[k] == gap;
                        assert(k < i || k >= i);
                    }
                    assert(leaked(files@, gap));
                    note_push(leaks@, files@, gap);
                }
                leaks.push(gap);
                gap += 1;
            }
        } else {
            assert forall|x: usize| x < fd implies !leaked(files@, x) by {
                if leaked(files@, x) {
                    let a = if files@.dom().contains(x) {
                        x
                    } else {
                        choose|a: usize| files@.dom().contains(a) && a < x
                    };
                    assert(keys@.contains(a));
                    let k = choose|k: int| 0 <= k < keys@.len() && keys@[k] == a;
                    assert(k >= i);
                }
            }
        }
        assert(listed(leaks@, files@, fd as int));
        let bad: bool = match files.get(&fd) {
            Some(FileLike::File(h)) => h.path.as_str().is_empty(),
            _ => false,
        };
        if bad {
            proof {
                note_push(leaks@, files@, fd);
            }
            leaks.push(fd);
        }
        i += 1;
    }
    proof {
        assert forall|x: usize| leaks@.contains(x) <==> leaked(files@, x) by {
            if leaked(files@, x) {
                let b = if files@.dom().contains(x) {
                    x
                } else {
                    choose|b: usize| files@.dom().contains(b) && x < b
                };
                assert(keys@.contains(b));
                let k = choose|k: int| 0 <= k < keys@.len() && keys@[k] == b;
                assert(keys@[k] <= keys@[keys@.len() - 1]);
            }
        }
    }
    leaks
}

/// `leaks` holds just the leaks below `n`.
spec fn listed(leaks: Seq<usize>, files: Map<usize, FileLike>, n: int) -> bool {
    forall|x: usize| #[trigger] leaks.contains(x) <==> x < n && leaked(files, x)
}

proof fn note_push(leaks: Seq<usize>, files: Map<usize, FileLike>, x: usize)
    requires
        strictly_ascending(leaks),
        listed(leaks, files, x as int),
        leaked(files, x),
    ensures
        strictly_ascending(leaks.push(x)),
        listed(leaks.push(x), files, x + 1),
{
    let more = leaks.push(x);
    assert forall|y: usize| #[trigger] more.contains(y) <==> y < x + 1 && leaked(files, y) by {
        if more.contains(y) {
            let k = choose|k: int| 0 <= k < more.len() && more[k] == y;
            if k < leaks.len() {
                assert(leaks.contains(y));
            }
        }
        if y < x + 1 && leaked(files, y) {
            if y == x {
                assert(more[leaks.len() as int] == y);
            } else {
                assert(leaks.contains(y));
                let k = choose|k: int| 0 <= k < leaks.len() && leaks[k] == y;
                assert(more[k] == y);
            }
        }
    }
    assert forall|i: int, j: int| 0 <= i < j < more.len() implies more[i] < more[j] by {
        if j == leaks.len() {
            assert(leaks.contains(more[i]));
        }
    }
}

} // verus!
