//! Positioned buffered readers and writers over log file contents.
//!
//! The engine needs to know, cheaply, at which offset in a log file each
//! record begins and ends. Both wrappers therefore carry an explicit
//! position: every successful transfer advances it by the number of
//! characters moved, and a seek sets it to the seek target. The file's
//! contents are held here as an in-memory text buffer; what has been
//! flushed is kept apart from what is still pending, so that durability
//! arguments can refer to the flushed part alone.

use vstd::prelude::*;
use crate::error::KvsError;

verus! {

/// A reader over a log file's contents that tracks its own position.
pub struct BufReaderWithPos {
    /// The entire contents of the file being read.
    pub content: String,
    /// The current read offset, in characters from the start.
    pub pos: u64,
}

impl BufReaderWithPos {
    /// Open a reader at the start of the given contents.
    pub fn new(content: String) -> (r: BufReaderWithPos)
        ensures
            r.content@ == content@,
            r.pos == 0,
    {
        BufReaderWithPos { content, pos: 0 }
    }

    /// Move the read position; later reads continue from there.
    pub fn seek(&mut self, pos: u64) -> (r: u64)
        ensures
            final(self).content@ == old(self).content@,
            final(self).pos == pos,
            r == pos,
    {
        self.pos = pos;
        pos
    }

    /// Read up to `len` characters from the current position. The
    /// position advances by exactly the characters returned; a read
    /// past the end returns nothing and leaves the position where the
    /// seek put it.
    pub fn read(&mut self, len: u64) -> (r: String)
        ensures
            final(self).content@ == old(self).content@,
            ({
                let n = old(self).content@.len() as int;
                let from = old(self).pos as int;
                if from <= n {
                    let to = if from + len as int <= n { from + len as int } else { n };
                    &&& r@ == old(self).content@.subrange(from, to)
                    &&& final(self).pos as int == from + r@.len()
                } else {
                    &&& r@ == Seq::<char>::empty()
                    &&& final(self).pos == old(self).pos
                }
            }),
    {
        let n = self.content.as_str().unicode_len();
        if self.pos > n as u64 {
            return String::new();
        }
        let from: usize = self.pos as usize;
        let avail = n - from;
        let take: usize = if len <= avail as u64 {
            len as usize
        } else {
            avail
        };
        let piece = self.content.as_str().substring_char(from, from + take);
        self.pos = (from + take) as u64;
        String::from_str(piece)
    }

    /// Read up to `len` characters starting at `pos`, without moving the
    /// reader's own position. A read past the end returns nothing.
    pub fn read_at(&self, pos: u64, len: u64) -> (r: String)
        ensures
            ({
                let n = self.content@.len() as int;
                if pos as int <= n {
                    let to = if pos as int + len as int <= n { pos as int + len as int } else { n };
                    r@ == self.content@.subrange(pos as int, to)
                } else {
                    r@ == Seq::<char>::empty()
                }
            }),
    {
        let n = self.content.as_str().unicode_len();
        if pos > n as u64 {
            return String::new();
        }
        let from: usize = pos as usize;
        let avail = n - from;
        let take: usize = if len <= avail as u64 {
            len as usize
        } else {
            avail
        };
        let piece = self.content.as_str().substring_char(from, from + take);
        String::from_str(piece)
    }

    /// Read everything from the current position to the end of the
    /// file. The position advances by exactly the characters returned; a
    /// read past the end returns nothing and does not move it.
    pub fn read_to_end(&mut self) -> (r: String)
        ensures
            final(self).content@ == old(self).content@,
            ({
                let n = old(self).content@.len() as int;
                let from = old(self).pos as int;
                if from <= n {
                    &&& r@ == old(self).content@.skip(from)
                    &&& final(self).pos as int == from + r@.len()
                } else {
                    &&& r@ == Seq::<char>::empty()
                    &&& final(self).pos == old(self).pos
                }
            }),
    {
        let n = self.content.as_str().unicode_len();
        if self.pos > n as u64 {
            return String::new();
        }
        let from: usize = self.pos as usize;
        let piece = self.content.as_str().substring_char(from, n);
        self.pos = n as u64;
        proof {
            assert(self.content@.subrange(from as int, n as int) =~= self.content@.skip(from as int));
        }
        String::from_str(piece)
    }
}

/// A writer for a log file that tracks its own position and keeps what
/// has been flushed apart from what is still buffered.
pub struct BufWriterWithPos {
    /// What has reached the file: the durable part of its contents.
    pub flushed: String,
    /// What has been written but not yet flushed.
    pub pending: String,
    /// The current write offset: the length of everything written.
    pub pos: u64,
}

impl BufWriterWithPos {
    /// Whether the writer's position can advance by `n` more characters.
    pub open spec fn fits(&self, n: int) -> bool {
        self.pos as int + n <= u64::MAX as int
    }

    /// Open a writer for a freshly created, empty file.
    pub fn new() -> (r: BufWriterWithPos)
        ensures
            r.flushed@ == Seq::<char>::empty(),
            r.pending@ == Seq::<char>::empty(),
            r.pos == 0,
    {
        BufWriterWithPos { flushed: String::new(), pending: String::new(), pos: 0 }
    }

    /// Append text at the current position. Fails, leaving the writer
    /// untouched, only when the position would no longer fit in `u64`.
    pub fn write(&mut self, text: &str) -> (r: Result<(), KvsError>)
        ensures
            old(self).fits(text@.len() as int) ==> {
                &&& r is Ok
                &&& final(self).flushed@ == old(self).flushed@
                &&& final(self).pending@ == old(self).pending@ + text@
                &&& final(self).pos == old(self).pos + text@.len()
            },
            !old(self).fits(text@.len() as int) ==> r == Err::<(), KvsError>(KvsError::Io)
                && *final(self) == *old(self),
    {
        let len = text.unicode_len();
        if len as u64 > u64::MAX - self.pos {
            return Err(KvsError::Io);
        }
        self.pending.append(text);
        self.pos = self.pos + len as u64;
        Ok(())
    }

    /// Move everything pending into the flushed contents.
    pub fn flush(&mut self) -> (r: Result<(), KvsError>)
        ensures
            r is Ok,
            final(self).flushed@ == old(self).flushed@ + old(self).pending@,
            final(self).pending@ == Seq::<char>::empty(),
            final(self).pos == old(self).pos,
    {
        let mut pending = String::new();
        core::mem::swap(&mut self.pending, &mut pending);
        self.flushed.append(pending.as_str());
        Ok(())
    }
}

} // verus!
