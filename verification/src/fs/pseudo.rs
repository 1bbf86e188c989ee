//! Read-only nodes with fixed contents.

use crate::fs::file::{chunk, copy_in, overlaid};
use vstd::prelude::*;
use vstd::string::*;

verus! {

pub struct PseudoNode {
    pub content: Vec<u8>,
    pub ftype: u8,
}

impl PseudoNode {
    /// A node that holds the bytes of `s`.
    pub fn new(s: &str, ft: u8) -> (r: Self)
        ensures
            r.content@ == s.spec_bytes(),
            r.ftype == ft,
    {
        let b = s.as_bytes();
        let mut content: Vec<u8> = Vec::new();
        let mut i: usize = 0;
        while i < b.len()
            invariant
                i <= b@.len(),
                content@ == b@.take(i as int),
            decreases b@.len() - i,
        {
            content.push(b[i]);
            i += 1;
            assert(content@ =~= b@.take(i as int));
        }
        assert(b@.take(i as int) =~= b@);
        PseudoNode { content, ftype: ft }
    }

    /// Reads from position `off`; past the end there is nothing to read.
    pub fn read_at(&self, off: usize, buf: &mut [u8]) -> (r: usize)
        ensures
            r == chunk(self.content@, off as int, old(buf)@.len() as int).len(),
            final(buf)@ == overlaid(old(buf)@, chunk(self.content@, off as int, old(buf)@.len() as int)),
    {
        if off >= self.content.len() {
            assert(buf@ =~= overlaid(buf@, Seq::empty()));
            return 0;
        }
        let avail: usize = self.content.len() - off;
        let n: usize = if avail < buf.len() {
            avail
        } else {
            buf.len()
        };
        assert(self.content@.subrange(off as int, off + n) =~= chunk(self.content@, off as int, buf@.len() as int));
        copy_in(buf, &self.content, off, n);
        n
    }

    /// Such a node cannot be written.
    pub fn write_at(&self, _off: usize, _buf: &[u8]) -> (r: Result<usize, &'static str>)
        ensures
            r == Err::<usize, _>("nosup"),
    {
        Err("nosup")
    }

    pub fn metadata_sz(&self) -> (r: usize)
        ensures
            r == self.content@.len(),
    {
        self.content.len()
    }
}

} // verus!
