//! Buffered byte input with one-byte pushback and resumable marks.
//!
//! The scanner is refilled with chunks of bytes; unconsumed bytes from the
//! prior fill are preserved at the head of the buffer, so a mark taken at
//! the start of an in-progress escape sequence stays valid across refills
//! for any sequence shorter than the buffer.
use vstd::prelude::*;

verus! {

/// Buffer capacity in bytes: 4 KiB.
pub const SCANNER_CAP: usize = 4 << 10;

/// ByteScanner supports reading a byte at a time from buffered input
/// as well as backing up by one byte.
pub struct ByteScanner {
    buf: Vec<u8>,
    ofs: usize,
}

impl ByteScanner {
    /// The bytes currently buffered, consumed and unconsumed alike.
    pub closed spec fn contents(self) -> Seq<u8> {
        self.buf@
    }

    /// The read offset: how many buffered bytes have been consumed.
    pub closed spec fn pos(self) -> int {
        self.ofs as int
    }

    /// The bytes still unconsumed.
    pub open spec fn avail(self) -> Seq<u8> {
        self.contents().skip(self.pos())
    }

    /// Well-formedness: the offset is within the buffer and the buffer
    /// within its capacity.
    pub open spec fn wf(self) -> bool {
        0 <= self.pos() <= self.contents().len() <= SCANNER_CAP
    }

    /// How many more bytes the next refill can accept.
    pub open spec fn spec_free(self) -> int {
        SCANNER_CAP - self.avail().len()
    }

    pub fn new() -> (s: ByteScanner)
        ensures
            s.wf(),
            s.contents() == Seq::<u8>::empty(),
            s.pos() == 0,
    {
        ByteScanner { buf: Vec::new(), ofs: 0 }
    }

    /// How many more bytes the next refill can accept.
    pub fn free(&self) -> (r: usize)
        requires
            self.wf(),
        ensures
            r == self.spec_free(),
    {
        SCANNER_CAP - (self.buf.len() - self.ofs)
    }

    /// Refill: compacts unconsumed bytes to offset 0, then appends as much
    /// of `data` as fits in the capacity. Returns true when at least one
    /// byte is available to consume.
    pub fn read(&mut self, data: &[u8]) -> (r: bool)
        requires
            old(self).wf(),
        ensures
            final(self).wf(),
            final(self).pos() == 0,
            final(self).contents() == old(self).avail() + data@.take(
                if data@.len() <= old(self).spec_free() {
                    data@.len() as int
                } else {
                    old(self).spec_free()
                },
            ),
            r == (final(self).contents().len() > 0),
    {
        let ghost keep = self.avail();
        let mut nb: Vec<u8> = Vec::new();
        let mut i: usize = self.ofs;
        while i < self.buf.len()
            invariant
                self.ofs <= i <= self.buf.len() <= SCANNER_CAP,
                nb@ == self.buf@.subrange(self.ofs as int, i as int),
            decreases self.buf.len() - i,
        {
            nb.push(self.buf[i]);
            i += 1;
        }
        proof {
            assert(nb@ == keep);
        }
        let mut j: usize = 0;
        while j < data.len() && nb.len() < SCANNER_CAP
            invariant
                j <= data@.len(),
                nb@.len() <= SCANNER_CAP,
                nb@ == keep + data@.take(j as int),
                j > 0 ==> nb@.len() == keep.len() + j,
                nb@.len() == keep.len() + j,
            decreases data@.len() - j,
        {
            nb.push(data[j]);
            j += 1;
        }
        proof {
            let copied = if data@.len() <= SCANNER_CAP - keep.len() {
                data@.len() as int
            } else {
                SCANNER_CAP - keep.len()
            };
            assert(j == copied);
            assert(nb@ == keep + data@.take(copied));
        }
        self.buf = nb;
        self.ofs = 0;
        self.buf.len() > 0
    }

    /// Back up by one byte; only valid after a successful `next`, never
    /// at the start of the buffer.
    pub fn back(&mut self)
        requires
            old(self).wf(),
            old(self).pos() > 0,
        ensures
            final(self).wf(),
            final(self).contents() == old(self).contents(),
            final(self).pos() == old(self).pos() - 1,
    {
        self.ofs -= 1;
    }

    /// A cheap handle on the current offset, to rewind to with `pop_mark`.
    pub fn mark(&mut self) -> (r: usize)
        ensures
            *final(self) == *old(self),
            r == old(self).pos(),
    {
        self.ofs
    }

    /// Rewind (or advance) the read offset to a handle from `mark`.
    pub fn pop_mark(&mut self, n: usize)
        requires
            old(self).wf(),
            n <= old(self).contents().len(),
        ensures
            final(self).wf(),
            final(self).contents() == old(self).contents(),
            final(self).pos() == n,
    {
        self.ofs = n;
    }

    /// Consume and return the next byte, or None when the buffer is spent.
    pub fn next(&mut self) -> (r: Option<u8>)
        requires
            old(self).wf(),
        ensures
            final(self).wf(),
            final(self).contents() == old(self).contents(),
            old(self).avail().len() == 0 ==> r is None && final(self).pos() == old(self).pos(),
            old(self).avail().len() > 0 ==> r == Option::Some(old(self).avail()[0])
                && final(self).pos() == old(self).pos() + 1,
    {
        if self.ofs == self.buf.len() {
            return Option::None;
        }
        let c = self.buf[self.ofs];
        self.ofs += 1;
        Option::Some(c)
    }
}

} // verus!
