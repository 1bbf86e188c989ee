//! Handles for regular files.

use crate::fs::store::{FdOpt, FdState, Store, StoreView, O_NONBLOCK};
use crate::text::{decimal, push_decimal};
use crate::word::{signed, to_i64, to_u64, wrapped};
use vstd::prelude::*;

verus! {

/// Where a cursor is to go.
#[derive(Debug)]
pub enum FSeek {
    Start(u64),
    End(i64),
    Cur(i64),
}

/// An open file. `data` is the place of its contents and `state` that of its cursor.
pub struct FHandle {
    pub path: String,
    pub data: usize,
    pub state: usize,
    pub pipe: bool,
    pub cloexec: bool,
}

/// What a handle stands for.
#[verifier::ext_equal]
pub ghost struct FHandleView {
    pub path: Seq<char>,
    pub data: usize,
    pub state: usize,
    pub pipe: bool,
    pub cloexec: bool,
}

impl View for FHandle {
    type V = FHandleView;

    open spec fn view(&self) -> FHandleView {
        FHandleView {
            path: self.path@,
            data: self.data,
            state: self.state,
            pipe: self.pipe,
            cloexec: self.cloexec,
        }
    }
}

impl FHandleView {
    /// The places that the handle holds are places of the store.
    pub open spec fn wf(self, st: StoreView) -> bool {
        self.data < st.blobs.len() && self.state < st.states.len()
    }

    pub open spec fn blob(self, st: StoreView) -> Seq<u8> {
        st.blobs[self.data as int]
    }

    pub open spec fn cursor(self, st: StoreView) -> FdState {
        st.states[self.state as int]
    }

    pub open spec fn dup(self, cloexec: bool) -> FHandleView {
        FHandleView { cloexec, ..self }
    }
}

pub open spec fn not_readable() -> &'static str {
    "This file is not readable!"
}

pub open spec fn not_writable() -> &'static str {
    "This file is not writable!"
}

/// The bytes of `d` from position `off`, at most `want` of them.
pub open spec fn chunk(d: Seq<u8>, off: int, want: int) -> Seq<u8> {
    if off >= d.len() {
        Seq::empty()
    } else if want < d.len() - off {
        d.subrange(off, off + want)
    } else {
        d.skip(off)
    }
}

/// `d` with zeros added up to length `n`.
pub open spec fn extended(d: Seq<u8>, n: int) -> Seq<u8> {
    if n <= d.len() {
        d
    } else {
        Seq::new(n as nat, |i: int| if i < d.len() { d[i] } else { 0u8 })
    }
}

/// `d` cut or extended with zeros to length `n`.
pub open spec fn resized(d: Seq<u8>, n: int) -> Seq<u8> {
    if n <= d.len() {
        d.take(n)
    } else {
        extended(d, n)
    }
}

/// `d`, extended where needed, with `buf` written over it from position `off`.
pub open spec fn patched(d: Seq<u8>, off: int, buf: Seq<u8>) -> Seq<u8> {
    let e = extended(d, off + buf.len());
    Seq::new(e.len(), |i: int| if off <= i < off + buf.len() { buf[i - off] } else { e[i] })
}

/// `buf` with the first bytes replaced by those of `src`.
pub open spec fn overlaid(buf: Seq<u8>, src: Seq<u8>) -> Seq<u8> {
    Seq::new(buf.len(), |i: int| if i < src.len() { src[i] } else { buf[i] })
}

/// What a read at `off` returns, and what it leaves in a buffer that held `buf`.
pub open spec fn read_at_of(h: FHandleView, st: StoreView, off: int, buf: Seq<u8>) -> (
    Result<usize, &'static str>,
    Seq<u8>,
) {
    if !h.cursor(st).opt.read {
        (Err(not_readable()), buf)
    } else {
        let b = chunk(h.blob(st), off, buf.len() as int);
        (Ok(b.len() as usize), overlaid(buf, b))
    }
}

/// A read at the cursor: the store after it, its result and the buffer.
pub open spec fn read_of(h: FHandleView, st: StoreView, buf: Seq<u8>) -> (
    StoreView,
    Result<usize, &'static str>,
    Seq<u8>,
) {
    let c = h.cursor(st);
    let (r, b) = read_at_of(h, st, c.off as int, buf);
    match r {
        Ok(n) => (st.set_state(h.state as int, FdState { off: (c.off + n) as u64, ..c }), r, b),
        Err(_) => (st, r, b),
    }
}

/// A write at `off`: the store after it and its result.
pub open spec fn write_at_of(h: FHandleView, st: StoreView, off: int, buf: Seq<u8>) -> (
    StoreView,
    Result<usize, &'static str>,
) {
    if !h.cursor(st).opt.write {
        (st, Err(not_writable()))
    } else {
        (st.set_blob(h.data as int, patched(h.blob(st), off, buf)), Ok(buf.len() as usize))
    }
}

/// A write at the cursor, or at the end where the file was opened for appending.
pub open spec fn write_of(h: FHandleView, st: StoreView, buf: Seq<u8>) -> (StoreView, Result<usize, &'static str>) {
    let c = h.cursor(st);
    let (t, r) = write_at_of(h, st, if c.opt.append { h.blob(st).len() as int } else { c.off as int }, buf);
    match r {
        Ok(n) => (t.set_state(h.state as int, FdState { off: (c.off + n) as u64, ..c }), r),
        Err(_) => (t, r),
    }
}

/// Cutting or extending the file to `n` bytes: the store after it and its result.
pub open spec fn set_len_of(h: FHandleView, st: StoreView, n: int) -> (StoreView, Result<(), &'static str>) {
    if !h.cursor(st).opt.write {
        (st, Err(not_writable()))
    } else {
        (st.set_blob(h.data as int, resized(h.blob(st), n)), Ok(()))
    }
}

/// Extending the file so that it reaches `n`: the store after it and its result.
pub open spec fn fallocate_of(h: FHandleView, st: StoreView, n: int) -> (StoreView, Result<(), &'static str>) {
    if !h.cursor(st).opt.write {
        (st, Err(not_writable()))
    } else {
        (st.set_blob(h.data as int, extended(h.blob(st), n)), Ok(()))
    }
}

/// Where a move of the cursor leads.
pub open spec fn seek_to(h: FHandleView, st: StoreView, pos: FSeek) -> u64 {
    match pos {
        FSeek::Start(o) => o,
        FSeek::End(o) => wrapped(h.blob(st).len() + o) as u64,
        FSeek::Cur(o) => wrapped(signed(h.cursor(st).off) + o) as u64,
    }
}

/// The store after the cursor was moved.
pub open spec fn seek_of(h: FHandleView, st: StoreView, pos: FSeek) -> StoreView {
    st.set_state(h.state as int, FdState { off: seek_to(h, st, pos), ..h.cursor(st) })
}

/// The write stays within what the machine can count.
pub open spec fn can_write(h: FHandleView, st: StoreView, n: int) -> bool {
    let c = h.cursor(st);
    c.opt.write ==> {
        &&& if c.opt.append { h.blob(st).len() + n <= usize::MAX } else { c.off + n <= usize::MAX }
        &&& c.off + n <= u64::MAX
    }
}

impl FHandle {
    /// A new file at `path`.
    pub fn new(st: &mut Store, path: &str, opt: FdOpt, pipe: bool, cloexec: bool) -> (r: Self)
        ensures
            r@ == (FHandleView {
                path: path@,
                data: old(st)@.blobs.len() as usize,
                state: old(st)@.states.len() as usize,
                pipe,
                cloexec,
            }),
            r@.wf(final(st)@),
            final(st)@ == (StoreView {
                blobs: old(st)@.blobs.push(Seq::empty()),
                states: old(st)@.states.push(FdState { off: 0, opt }),
                ..old(st)@
            }),
    {
        let data: usize = st.add_blob(Vec::new());
        let state: usize = st.add_state(FdState::create(opt));
        FHandle { path: path.to_owned(), data, state, pipe, cloexec }
    }

    /// A new file that holds `d`.
    pub fn with_data(st: &mut Store, path: &str, opt: FdOpt, d: Vec<u8>) -> (r: Self)
        ensures
            r@ == (FHandleView {
                path: path@,
                data: old(st)@.blobs.len() as usize,
                state: old(st)@.states.len() as usize,
                pipe: false,
                cloexec: false,
            }),
            r@.wf(final(st)@),
            final(st)@ == (StoreView {
                blobs: old(st)@.blobs.push(d@),
                states: old(st)@.states.push(FdState { off: 0, opt }),
                ..old(st)@
            }),
    {
        let data: usize = st.add_blob(d);
        let state: usize = st.add_state(FdState::create(opt));
        FHandle { path: path.to_owned(), data, state, pipe: false, cloexec: false }
    }

    /// A second handle for the same file and the same cursor.
    pub fn dup(&self, cloexec: bool) -> (r: Self)
        ensures
            r@ == self@.dup(cloexec),
    {
        FHandle {
            path: self.path.clone(),
            data: self.data,
            state: self.state,
            pipe: self.pipe,
            cloexec,
        }
    }

    /// Takes over whether calls are to block; the other options stay.
    pub fn set_opt(&self, st: &mut Store, arg: usize)
        requires
            self@.wf(old(st)@),
        ensures
            final(st)@ == old(st)@.set_state(
                self.state as int,
                FdState {
                    opt: FdOpt { non_blocking: arg & O_NONBLOCK != 0, ..self@.cursor(old(st)@).opt },
                    ..self@.cursor(old(st)@)
                },
            ),
    {
        let mut d: FdState = st.states[self.state];
        d.opt.non_blocking = (arg & O_NONBLOCK) != 0;
        st.states[self.state] = d;
    }

    pub fn get_opt(&self, st: &Store) -> (r: FdOpt)
        requires
            self@.wf(st@),
        ensures
            r == self@.cursor(st@).opt,
    {
        st.states[self.state].opt
    }

    /// Reads at the cursor and moves it on.
    pub fn read(&self, st: &mut Store, buf: &mut [u8]) -> (r: Result<usize, &'static str>)
        requires
            self@.wf(old(st)@),
            self@.cursor(old(st)@).off <= usize::MAX,
        ensures
            (final(st)@, r, final(buf)@) == read_of(self@, old(st)@, old(buf)@),
    {
        let off: usize = st.states[self.state].off as usize;
        match self.read_at(st, off, buf) {
            Ok(n) => {
                let mut d: FdState = st.states[self.state];
                assert(self@.blob(st@).len() == st.blobs[self.data as int].len());
                d.off += n as u64;
                st.states[self.state] = d;
                Ok(n)
            },
            Err(e) => Err(e),
        }
    }

    /// Reads at position `off`; past the end there is nothing to read.
    pub fn read_at(&self, st: &Store, off: usize, buf: &mut [u8]) -> (r: Result<usize, &'static str>)
        requires
            self@.wf(st@),
        ensures
            (r, final(buf)@) == read_at_of(self@, st@, off as int, old(buf)@),
    {
        if !st.states[self.state].opt.read {
            return Err("This file is not readable!");
        }
        let d = &st.blobs[self.data];
        if off >= d.len() {
            assert(old(buf)@ =~= overlaid(old(buf)@, Seq::empty()));
            return Ok(0);
        }
        let avail: usize = d.len() - off;
        let n: usize = if buf.len() < avail {
            buf.len()
        } else {
            avail
        };
        assert(d@.subrange(off as int, off + n) =~= chunk(d@, off as int, buf@.len() as int));
        copy_in(buf, d, off, n);
        Ok(n)
    }

    /// Writes at the cursor, or at the end of a file opened for appending, and moves the cursor
    /// on by as much.
    pub fn write(&self, st: &mut Store, buf: &[u8]) -> (r: Result<usize, &'static str>)
        requires
            self@.wf(old(st)@),
            can_write(self@, old(st)@, buf@.len() as int),
        ensures
            (final(st)@, r) == write_of(self@, old(st)@, buf@),
    {
        let c: FdState = st.states[self.state];
        if !c.opt.write {
            return Err("This file is not writable!");
        }
        let off: usize = if c.opt.append {
            st.blobs[self.data].len()
        } else {
            c.off as usize
        };
        match self.write_at(st, off, buf) {
            Ok(n) => {
                let mut d: FdState = st.states[self.state];
                d.off += n as u64;
                st.states[self.state] = d;
                Ok(n)
            },
            Err(e) => Err(e),
        }
    }

    /// Writes at position `off`, extending the file with zeros where that lies past its end.
    pub fn write_at(&self, st: &mut Store, off: usize, buf: &[u8]) -> (r: Result<usize, &'static str>)
        requires
            self@.wf(old(st)@),
            self@.cursor(old(st)@).opt.write ==> off + buf@.len() <= usize::MAX,
        ensures
            (final(st)@, r) == write_at_of(self@, old(st)@, off as int, buf@),
    {
        if !st.states[self.state].opt.write {
            return Err("This file is not writable!");
        }
        let d = overwrite(&st.blobs[self.data], off, buf);
        st.replace_blob(self.data, d);
        Ok(buf.len())
    }

    /// Moves the cursor. It may leave the file, and a sum below zero wraps round.
    pub fn seek(&self, st: &mut Store, pos: FSeek) -> (r: Result<u64, &'static str>)
        requires
            self@.wf(old(st)@),
            pos matches FSeek::End(o) ==> self@.blob(old(st)@).len() <= i64::MAX && self@.blob(old(st)@).len() + o
                <= i64::MAX,
            pos matches FSeek::Cur(o) ==> i64::MIN <= signed(self@.cursor(old(st)@).off) + o <= i64::MAX,
        ensures
            ({
                let c = self@.cursor(old(st)@);
                let to = match pos {
                    FSeek::Start(o) => o as int,
                    FSeek::End(o) => wrapped(self@.blob(old(st)@).len() + o),
                    FSeek::Cur(o) => wrapped(signed(c.off) + o),
                };
                &&& r == Ok::<u64, &'static str>(to as u64)
                &&& final(st)@ == old(st)@.set_state(self.state as int, FdState { off: to as u64, ..c })
            }),
            r == Ok::<u64, &'static str>(seek_to(self@, old(st)@, pos)),
            final(st)@ == seek_of(self@, old(st)@, pos),
    {
        let c: FdState = st.states[self.state];
        let off: u64 = match pos {
            FSeek::Start(o) => o,
            FSeek::End(o) => to_u64(st.blobs[self.data].len() as i64 + o),
            FSeek::Cur(o) => to_u64(to_i64(c.off) + o),
        };
        st.states[self.state] = FdState { off, opt: c.opt };
        Ok(off)
    }

    /// Cuts the file, or extends it with zeros.
    pub fn set_len(&self, st: &mut Store, len: u64) -> (r: Result<(), &'static str>)
        requires
            self@.wf(old(st)@),
            len <= usize::MAX,
        ensures
            !self@.cursor(old(st)@).opt.write ==> r == Err::<(), _>(not_writable()) && final(st)@ == old(st)@,
            self@.cursor(old(st)@).opt.write ==> {
                &&& r == Ok::<(), &'static str>(())
                &&& final(st)@ == old(st)@.set_blob(self.data as int, resized(self@.blob(old(st)@), len as int))
            },
            (final(st)@, r) == set_len_of(self@, old(st)@, len as int),
            r is Ok ==> {
                &&& self@.blob(final(st)@).len() == len
                &&& forall|i: int|
                    0 <= i < len ==> #[trigger] self@.blob(final(st)@)[i] == (if i < self@.blob(old(st)@).len() {
                        self@.blob(old(st)@)[i]
                    } else {
                        0u8
                    })
            },
    {
        if !st.states[self.state].opt.write {
            return Err("This file is not writable!");
        }
        let d = resize(&st.blobs[self.data], len as usize);
        st.replace_blob(self.data, d);
        Ok(())
    }

    /// Contents live in memory, so there is nothing to write back.
    pub fn sync_all(&self) -> (r: Result<(), &'static str>)
        ensures
            r == Ok::<(), &'static str>(()),
    {
        Ok(())
    }

    /// Contents live in memory, so there is nothing to write back.
    pub fn sync_data(&self) -> (r: Result<(), &'static str>)
        ensures
            r == Ok::<(), &'static str>(()),
    {
        Ok(())
    }

    pub fn metadata_sz(&self, st: &Store) -> (r: usize)
        requires
            self@.wf(st@),
        ensures
            r == self@.blob(st@).len(),
    {
        st.blobs[self.data].len()
    }

    /// Every path is found.
    pub fn lookup(&self, _path: &str, _depth: usize) -> (r: Result<(), &'static str>)
        ensures
            r == Ok::<(), &'static str>(()),
    {
        Ok(())
    }

    /// Names the entry at the cursor after its number, and moves the cursor on by one.
    pub fn read_entry(&self, st: &mut Store) -> (r: Result<String, &'static str>)
        requires
            self@.wf(old(st)@),
            self@.cursor(old(st)@).off < u64::MAX,
        ensures
            ({
                let c = self@.cursor(old(st)@);
                if !c.opt.read {
                    r == Err::<String, _>(not_readable()) && final(st)@ == old(st)@
                } else {
                    &&& r is Ok
                    &&& r->Ok_0@ == "entry_"@ + decimal(c.off as nat)
                    &&& final(st)@ == old(st)@.set_state(self.state as int, FdState { off: (c.off + 1) as u64, ..c })
                }
            }),
    {
        let mut d: FdState = st.states[self.state];
        if !d.opt.read {
            return Err("This file is not readable!");
        }
        let off: u64 = d.off;
        d.off += 1;
        st.states[self.state] = d;
        let mut name: String = "entry_".to_owned();
        push_decimal(&mut name, off);
        Ok(name)
    }

    /// Whether the file can be read, can be written, and is in error: without a path and empty.
    pub fn poll_status(&self, st: &Store) -> (r: (bool, bool, bool))
        requires
            self@.wf(st@),
        ensures
            r == (
                self@.cursor(st@).opt.read,
                self@.cursor(st@).opt.write,
                self@.path.len() == 0 && self@.blob(st@).len() == 0,
            ),
    {
        let c: FdState = st.states[self.state];
        (c.opt.read, c.opt.write, self.path.as_str().is_empty() && st.blobs[self.data].len() == 0)
    }

    pub fn io_ctl(&self, _cmd: u32, _arg: usize) -> (r: Result<usize, &'static str>)
        ensures
            r == Ok::<usize, &'static str>(0),
    {
        Ok(0)
    }

    pub fn mmap(&self, _start: usize, _end: usize, _off: usize) -> (r: Result<(), &'static str>)
        ensures
            r == Ok::<(), &'static str>(()),
    {
        Ok(())
    }

    /// The place of the contents.
    pub fn inode_ref(&self) -> (r: usize)
        ensures
            r == self@.data,
    {
        self.data
    }

    pub fn advise_readahead(&self, _offset: usize, _len: usize) -> (r: Result<(), &'static str>)
        ensures
            r == Ok::<(), &'static str>(()),
    {
        Ok(())
    }

    /// Extends the file with zeros so that it reaches `offset + len`.
    pub fn fallocate(&self, st: &mut Store, offset: usize, len: usize) -> (r: Result<(), &'static str>)
        requires
            self@.wf(old(st)@),
            self@.cursor(old(st)@).opt.write ==> offset + len <= usize::MAX,
        ensures
            !self@.cursor(old(st)@).opt.write ==> r == Err::<(), _>(not_writable()) && final(st)@ == old(st)@,
            self@.cursor(old(st)@).opt.write ==> {
                &&& r == Ok::<(), &'static str>(())
                &&& final(st)@ == old(st)@.set_blob(self.data as int, extended(self@.blob(old(st)@), offset + len))
            },
            (final(st)@, r) == fallocate_of(self@, old(st)@, offset + len),
            r is Ok ==> {
                &&& self@.blob(final(st)@).len() >= offset + len
                &&& forall|i: int|
                    0 <= i < self@.blob(final(st)@).len() ==> #[trigger] self@.blob(final(st)@)[i] == (if i
                        < self@.blob(old(st)@).len() {
                        self@.blob(old(st)@)[i]
                    } else {
                        0u8
                    })
            },
    {
        if !st.states[self.state].opt.write {
            return Err("This file is not writable!");
        }
        let needed: usize = offset + len;
        if needed > st.blobs[self.data].len() {
            let d = resize(&st.blobs[self.data], needed);
            st.replace_blob(self.data, d);
        }
        assert(st@.blobs =~= old(st)@.set_blob(self.data as int, extended(self@.blob(old(st)@), offset + len)).blobs);
        Ok(())
    }

    /// Moves up to `count` bytes from the cursor of this file to `dst`, as a write there.
    ///
    /// The cursor here moves on even where `dst` refuses the write.
    pub fn splice_to(&self, st: &mut Store, dst: &FHandle, count: usize) -> (r: Result<usize, &'static str>)
        requires
            self@.wf(old(st)@),
            dst@.wf(old(st)@),
            self@.cursor(old(st)@).off <= usize::MAX,
            ({
                let mid = spliced_source(self@, old(st)@, count as int);
                can_write(dst@, mid.0, mid.1.len() as int)
            }),
        ensures
            ({
                let mid = spliced_source(self@, old(st)@, count as int);
                if self@.cursor(old(st)@).off >= self@.blob(old(st)@).len() {
                    r == Ok::<usize, &'static str>(0) && final(st)@ == old(st)@
                } else {
                    (final(st)@, r) == write_of(dst@, mid.0, mid.1)
                }
            }),
    {
        let c: FdState = st.states[self.state];
        let off: usize = c.off as usize;
        let total: usize = st.blobs[self.data].len();
        if off >= total {
            return Ok(0);
        }
        let avail: usize = total - off;
        let n: usize = if count < avail {
            count
        } else {
            avail
        };
        assert(self@.blob(st@).subrange(off as int, off + n) =~= chunk(self@.blob(st@), off as int, count as int));
        let mut chunk: Vec<u8> = Vec::new();
        let mut i: usize = 0;
        while i < n
            invariant
                i <= n,
                self@.wf(st@),
                st@ == old(st)@,
                off + n <= self@.blob(st@).len() <= usize::MAX,
                chunk@ == self@.blob(st@).subrange(off as int, off + i),
            decreases n - i,
        {
            chunk.push(st.blobs[self.data][off + i]);
            i += 1;
            assert(chunk@ =~= self@.blob(st@).subrange(off as int, off + i));
        }
        st.states[self.state] = FdState { off: c.off + n as u64, opt: c.opt };
        dst.write(st, chunk.as_slice())
    }

    /// Reads where the lowest bit of `dir` is set and writes where it is not, at `offset` or, if
    /// there is none, at the cursor.
    pub fn transfer(
        &self,
        st: &mut Store,
        dir: u8,
        offset: Option<usize>,
        buf_rd: Option<&mut [u8]>,
        buf_wr: Option<&[u8]>,
    ) -> (r: Result<usize, &'static str>)
        requires
            self@.wf(old(st)@),
            self@.cursor(old(st)@).off <= usize::MAX,
            dir & 1 == 0 ==> (buf_wr matches Some(buf) ==> match offset {
                Some(off) => off + buf@.len() <= usize::MAX,
                None => can_write(self@, old(st)@, buf@.len() as int),
            }),
        ensures
            dir & 1 != 0 ==> match (offset, buf_rd) {
                (Some(off), Some(buf)) => {
                    &&& (r, final(buf)@) == read_at_of(self@, old(st)@, off as int, (*buf)@)
                    &&& final(st)@ == old(st)@
                },
                (None, Some(buf)) => (final(st)@, r, final(buf)@) == read_of(self@, old(st)@, (*buf)@),
                _ => r == Err::<usize, _>("no buffer to read") && final(st)@ == old(st)@,
            },
            dir & 1 == 0 ==> match (offset, buf_wr) {
                (Some(off), Some(buf)) => (final(st)@, r) == write_at_of(self@, old(st)@, off as int, buf@),
                (None, Some(buf)) => (final(st)@, r) == write_of(self@, old(st)@, buf@),
                _ => r == Err::<usize, _>("no buffer to write") && final(st)@ == old(st)@,
            },
    {
        if dir & 1 != 0 {
            match (offset, buf_rd) {
                (Some(off), Some(buf)) => self.read_at(st, off, buf),
                (None, Some(buf)) => self.read(st, buf),
                _ => Err("no buffer to read"),
            }
        } else {
            match (offset, buf_wr) {
                (Some(off), Some(buf)) => self.write_at(st, off, buf),
                (None, Some(buf)) => self.write(st, buf),
                _ => Err("no buffer to write"),
            }
        }
    }
}

/// A read at the place of a write gives back what was written.
pub proof fn law_read_gives_back_write(h: FHandleView, st: StoreView, off: int, data: Seq<u8>, buf: Seq<u8>)
    requires
        h.wf(st),
        h.cursor(st).opt.read,
        h.cursor(st).opt.write,
        0 <= off,
        off + data.len() <= usize::MAX,
        buf.len() == data.len(),
    ensures
        write_at_of(h, st, off, data).1 == Ok::<usize, &'static str>(data.len() as usize),
        read_at_of(h, write_at_of(h, st, off, data).0, off, buf) == (
            Ok::<usize, &'static str>(data.len() as usize),
            data,
        ),
{
    let after = write_at_of(h, st, off, data).0;
    assert(chunk(h.blob(after), off, buf.len() as int) =~= data);
    assert(overlaid(buf, data) =~= data);
}

/// A write changes no byte outside its range, and what lies between the old end and the range
/// is zero.
pub proof fn law_write_keeps_the_rest(h: FHandleView, st: StoreView, off: int, data: Seq<u8>, i: int)
    requires
        h.wf(st),
        h.cursor(st).opt.write,
        0 <= off,
        0 <= i < h.blob(write_at_of(h, st, off, data).0).len(),
        !(off <= i < off + data.len()),
    ensures
        h.blob(write_at_of(h, st, off, data).0)[i] == (if i < h.blob(st).len() {
            h.blob(st)[i]
        } else {
            0u8
        }),
{
}

/// Duplicates share the cursor: reading through one moves the other, and both read alike.
pub proof fn law_dup_shares_cursor(h: FHandleView, st: StoreView, cloexec: bool, buf: Seq<u8>)
    ensures
        read_of(h.dup(cloexec), st, buf) == read_of(h, st, buf),
        h.dup(cloexec).cursor(read_of(h, st, buf).0) == h.cursor(read_of(h, st, buf).0),
        h.dup(cloexec).blob(st) == h.blob(st),
{
}

/// The store after up to `count` bytes were taken at the cursor of `h`, and those bytes.
pub open spec fn spliced_source(h: FHandleView, st: StoreView, count: int) -> (StoreView, Seq<u8>) {
    let c = h.cursor(st);
    let b = chunk(h.blob(st), c.off as int, count);
    (st.set_state(h.state as int, FdState { off: (c.off + b.len()) as u64, ..c }), b)
}

/// Copies `n` bytes of `src` from position `off` to the start of `buf`.
pub fn copy_in(buf: &mut [u8], src: &Vec<u8>, off: usize, n: usize)
    requires
        n <= old(buf)@.len(),
        off + n <= src@.len(),
    ensures
        final(buf)@ == overlaid(old(buf)@, src@.subrange(off as int, off + n)),
{
    let ghost start = buf@;
    let total: usize = src.len();
    let mut i: usize = 0;
    assert(buf@ =~= overlaid(start, src@.subrange(off as int, off + 0)));
    while i < n
        invariant
            i <= n <= start.len(),
            buf@.len() == start.len(),
            off + n <= src@.len() == total,
            buf@ == overlaid(start, src@.subrange(off as int, off + i)),
        decreases n - i,
    {
        buf[i] = src[off + i];
        i += 1;
        assert(buf@ =~= overlaid(start, src@.subrange(off as int, off + i)));
    }
}

fn overwrite(d: &Vec<u8>, off: usize, buf: &[u8]) -> (r: Vec<u8>)
    requires
        off + buf@.len() <= usize::MAX,
    ensures
        r@ == patched(d@, off as int, buf@),
{
    let mut r: Vec<u8> = if off + buf.len() > d.len() {
        resize(d, off + buf.len())
    } else {
        resize(d, d.len())
    };
    let ghost e = extended(d@, off + buf@.len());
    assert(r@ =~= e);
    let mut i: usize = 0;
    while i < buf.len()
        invariant
            i <= buf@.len(),
            off + buf@.len() <= e.len(),
            e.len() <= usize::MAX,
            r@ == Seq::new(e.len(), |j: int| if off <= j < off + i { buf@[j - off] } else { e[j] }),
        decreases buf@.len() - i,
    {
        r[off + i] = buf[i];
        i += 1;
        assert(r@ =~= Seq::new(e.len(), |j: int| if off <= j < off + i { buf@[j - off] } else { e[j] }));
    }
    assert(r@ =~= patched(d@, off as int, buf@));
    r
}

fn resize(d: &Vec<u8>, n: usize) -> (r: Vec<u8>)
    ensures
        r@ == resized(d@, n as int),
{
    let mut r: Vec<u8> = Vec::with_capacity(n);
    let mut i: usize = 0;
    while i < n
        invariant
            i <= n,
            r@.len() == i,
            forall|j: int| 0 <= j < i ==> r@[j] == (if j < d@.len() { d@[j] } else { 0u8 }),
        decreases n - i,
    {
        if i < d.len() {
            r.push(d[i]);
        } else {
            r.push(0);
        }
        i += 1;
    }
    assert(r@ =~= resized(d@, n as int));
    r
}

} // verus!
