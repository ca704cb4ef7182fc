//! Where a record lives: the in-memory index points each key at the
//! location of its latest `Put` record in the log.

use vstd::prelude::*;

verus! {

/// The position of one record in the log.
///
/// `file_id` names the generation whose file holds the record, `pos` its
/// first character within that file, and `len` its length in characters.
#[derive(Debug, Clone, Copy)]
pub struct CommandPos {
    /// The generation number of the log file holding the record.
    pub file_id: u64,
    /// The offset of the record's first character within that file.
    pub pos: u64,
    /// The record's length, in characters.
    pub len: u64,
}

impl CommandPos {
    /// The location of the record spanning `start..end` in file `file_id`.
    pub fn from_range(file_id: u64, start: u64, end: u64) -> (r: CommandPos)
        requires
            start <= end,
        ensures
            r.file_id == file_id,
            r.pos == start,
            r.len == end - start,
    {
        CommandPos { file_id, pos: start, len: end - start }
    }
}

} // verus!
