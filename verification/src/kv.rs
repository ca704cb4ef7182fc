//! The log-structured storage engine.
//!
//! The store is an append-only log of `Put` and `Remove` records spread
//! over generation-numbered files, together with an in-memory index that
//! points each live key at its latest `Put` record. The meaning of the
//! store is fixed by one function: replaying every log file in ascending
//! generation order, record by record. The index is proved equal to that
//! replay at all times, reads are proved to return the replayed value,
//! and compaction is proved to rewrite the representation without
//! changing the replayed map.

use vstd::prelude::*;
use crate::codec::{encode, encode_all, encode_command, decode_command, record_stream,
    lemma_encode_all_push, lemma_encode_all_first, lemma_encode_unambiguous,
    lemma_encode_all_injective};
use crate::command::{Command, CommandView};
use crate::error::KvsError;
use crate::index::CommandPos;
use crate::log_io::{BufReaderWithPos, BufWriterWithPos};

verus! {

/// Compaction starts once this many stale characters have accumulated.
pub const COMPACTION_THRESHOLD: u64 = 1024 * 1024;

/// What the index knows about one live key: where its latest `Put`
/// record lies, and (in specification only) the value that record holds.
pub struct EntryV {
    /// The generation of the log file holding the record.
    pub gen: u64,
    /// The record's first character within that file.
    pub pos: int,
    /// The record's length in characters.
    pub len: int,
    /// The value the record assigns.
    pub value: Seq<char>,
}

/// Replay the records of one log file, in order, over an index `m`.
pub open spec fn replay_recs(m: Map<Seq<char>, EntryV>, gen: u64, rs: Seq<CommandView>) -> Map<
    Seq<char>,
    EntryV,
>
    decreases rs.len(),
{
    if rs.len() == 0 {
        m
    } else {
        let prev = replay_recs(m, gen, rs.drop_last());
        match rs.last() {
            CommandView::Put { key, value } => prev.insert(
                key,
                EntryV {
                    gen,
                    pos: encode_all(rs.drop_last()).len() as int,
                    len: encode(rs.last()).len() as int,
                    value,
                },
            ),
            CommandView::Remove { key } => prev.remove(key),
        }
    }
}

/// Replay a sequence of log files, in order, over an index `m`.
pub open spec fn replay_logs(
    m: Map<Seq<char>, EntryV>,
    logs: Seq<(u64, Seq<CommandView>)>,
) -> Map<Seq<char>, EntryV>
    decreases logs.len(),
{
    if logs.len() == 0 {
        m
    } else {
        replay_recs(replay_logs(m, logs.drop_last()), logs.last().0, logs.last().1)
    }
}

/// The index that a full replay of `logs` produces.
pub open spec fn replay(logs: Seq<(u64, Seq<CommandView>)>) -> Map<Seq<char>, EntryV> {
    replay_logs(Map::empty(), logs)
}

/// The key-to-value mapping that a full replay of `logs` produces.
pub open spec fn kv_of(logs: Seq<(u64, Seq<CommandView>)>) -> Map<Seq<char>, Seq<char>> {
    replay(logs).map_values(|e: EntryV| e.value)
}

/// An in-memory index corresponds to a replayed index: same keys, and
/// for each key the same location.
pub open spec fn index_matches(ix: Seq<(String, CommandPos)>, m: Map<Seq<char>, EntryV>) -> bool {
    &&& forall|i: int|
        0 <= i < ix.len() ==> {
            let p = #[trigger] ix[i];
            &&& m.contains_key(p.0@)
            &&& m[p.0@].gen == p.1.file_id
            &&& m[p.0@].pos == p.1.pos as int
            &&& m[p.0@].len == p.1.len as int
        }
    &&& forall|k: Seq<char>|
        #[trigger] m.contains_key(k) ==> exists|i: int| 0 <= i < ix.len() && (#[trigger] ix[i]).0@ == k
    &&& forall|i: int, j: int| 0 <= i < j < ix.len() ==> ix[i].0@ != ix[j].0@
}

/// The characters of the log that live records occupy, summed over an
/// index.
pub open spec fn sum_lens(ix: Seq<(String, CommandPos)>) -> int
    decreases ix.len(),
{
    if ix.len() == 0 {
        0
    } else {
        sum_lens(ix.drop_last()) + ix.last().1.len as int
    }
}

/// Addition on the stale-character estimate never leaves `u64`.
pub open spec fn sat_add(a: int, b: int) -> int {
    if a + b > u64::MAX as int {
        u64::MAX as int
    } else {
        a + b
    }
}

/// An integer clipped to what a `u64` estimate can hold.
pub open spec fn cap_u64(x: int) -> int {
    if x > u64::MAX as int {
        u64::MAX as int
    } else {
        x
    }
}

/// The stale characters that replaying one file's records accrues over
/// an index `m`: a `Put` that displaces an entry adds the displaced
/// record's length; a `Remove` adds the displaced length (if any) and
/// its own, since the record is garbage once the `Put` it shadows is
/// compacted away.
pub open spec fn replay_stale(m: Map<Seq<char>, EntryV>, gen: u64, rs: Seq<CommandView>) -> int
    decreases rs.len(),
{
    if rs.len() == 0 {
        0
    } else {
        let prev = replay_recs(m, gen, rs.drop_last());
        let acc = replay_stale(m, gen, rs.drop_last());
        match rs.last() {
            CommandView::Put { key, value } => acc + if prev.contains_key(key) {
                prev[key].len
            } else {
                0
            },
            CommandView::Remove { key } => acc + (if prev.contains_key(key) {
                prev[key].len
            } else {
                0
            }) + encode(rs.last()).len() as int,
        }
    }
}

/// The stale characters that replaying a whole log accrues.
pub open spec fn replay_stale_logs(logs: Seq<(u64, Seq<CommandView>)>) -> int
    decreases logs.len(),
{
    if logs.len() == 0 {
        0
    } else {
        replay_stale_logs(logs.drop_last()) + replay_stale(
            replay(logs.drop_last()),
            logs.last().0,
            logs.last().1,
        )
    }
}

/// A text is a well-formed log file: some record sequence writes it.
pub open spec fn decodable(s: Seq<char>) -> bool {
    exists|rs: Seq<CommandView>| s == encode_all(rs)
}

/// The record sequence that writes a decodable text. By
/// [`lemma_encode_all_injective`] there is exactly one.
pub open spec fn records_of(s: Seq<char>) -> Seq<CommandView> {
    choose|rs: Seq<CommandView>| s == encode_all(rs)
}

/// An index entry points at a `Put` record for its key, written whole
/// inside the file contents `content`.
pub open spec fn entry_points_at(e: EntryV, content: Seq<char>, k: Seq<char>) -> bool {
    &&& 0 <= e.pos
    &&& 0 <= e.len
    &&& e.pos + e.len <= content.len()
    &&& content.subrange(e.pos, e.pos + e.len) == encode(
        (CommandView::Put { key: k, value: e.value }),
    )
}

/// Every entry of `m` points at a `Put` record for its key in one of the
/// listed log files.
pub open spec fn entries_valid(m: Map<Seq<char>, EntryV>, logs: Seq<(u64, Seq<CommandView>)>) -> bool {
    forall|k: Seq<char>|
        #[trigger] m.contains_key(k) ==> exists|i: int|
            0 <= i < logs.len() && logs[i].0 == m[k].gen && entry_points_at(
                m[k],
                encode_all(logs[i].1),
                k,
            )
}

/// The persistent key/value store.
///
/// `readers` holds every sealed log file, ascending by generation;
/// `writer` appends to the current generation's file; `index` locates
/// the latest `Put` for each live key; `uncompacted` estimates how many
/// characters of the log no live entry references. The ghost `hist`
/// carries the records each file holds, tying the files' text to the
/// replay that defines the store's meaning.
pub struct KvStore {
    readers: Vec<(u64, BufReaderWithPos)>,
    writer: BufWriterWithPos,
    current_file: u64,
    index: Vec<(String, CommandPos)>,
    uncompacted: u64,
    hist: Ghost<Seq<Seq<CommandView>>>,
}

impl View for KvStore {
    type V = Map<Seq<char>, Seq<char>>;

    /// The mapping the store holds: each live key to its value.
    closed spec fn view(&self) -> Map<Seq<char>, Seq<char>> {
        self.entries().map_values(|e: EntryV| e.value)
    }
}

impl KvStore {
    /// The store's log: each file's generation and records, ascending by
    /// generation, the current (write) generation last.
    pub closed spec fn logs(&self) -> Seq<(u64, Seq<CommandView>)> {
        Seq::new(
            self.readers@.len() as nat + 1,
            |i: int|
                if i < self.readers@.len() {
                    (self.readers@[i].0, self.hist@[i])
                } else {
                    (self.current_file, self.hist@[i])
                },
        )
    }

    /// The replayed index of the store's log.
    pub closed spec fn entries(&self) -> Map<Seq<char>, EntryV> {
        replay(self.logs())
    }

    /// The generation the writer is appending to.
    pub closed spec fn generation(&self) -> u64 {
        self.current_file
    }

    /// The generations of the log files that exist, ascending.
    pub closed spec fn file_gens(&self) -> Seq<u64> {
        self.logs().map_values(|l: (u64, Seq<CommandView>)| l.0)
    }

    /// The stale-character estimate that triggers compaction.
    pub closed spec fn stale_bytes(&self) -> u64 {
        self.uncompacted
    }

    /// The writer's position: the length of the current log file.
    pub closed spec fn writer_pos(&self) -> u64 {
        self.writer.pos
    }

    /// The length of the record the index holds for key `k`.
    pub closed spec fn entry_len(&self, k: Seq<char>) -> int {
        self.entries()[k].len
    }

    /// The characters that live records occupy, summed over the index.
    pub closed spec fn live_size(&self) -> int {
        sum_lens(self.index@)
    }

    /// A `Put` of this key and value can be appended to the log: the
    /// writer position stays within `u64`. A caller can bound the
    /// record's length with [`crate::codec::lemma_esc_len_bound`].
    pub open spec fn put_fits(&self, k: Seq<char>, v: Seq<char>) -> bool {
        self.writer_pos() as int + encode((CommandView::Put { key: k, value: v })).len() as int
            <= u64::MAX as int
    }

    /// A `Remove` of this key can be appended to the log: the writer
    /// position stays within `u64`.
    pub open spec fn remove_fits(&self, k: Seq<char>) -> bool {
        self.writer_pos() as int + encode((CommandView::Remove { key: k })).len() as int
            <= u64::MAX as int
    }

    /// `set` of this key and value succeeds: the record fits, and if it
    /// would push the stale estimate past the threshold, the compaction
    /// that then runs can take two fresh generations and fit every live
    /// record's position.
    pub open spec fn set_succeeds(&self, k: Seq<char>, v: Seq<char>) -> bool {
        let displaced: int = if self@.contains_key(k) {
            self.entry_len(k)
        } else {
            0
        };
        let mid_stale = sat_add(self.stale_bytes() as int, displaced);
        let rec_len = encode((CommandView::Put { key: k, value: v })).len() as int;
        &&& self.put_fits(k, v)
        &&& (mid_stale > COMPACTION_THRESHOLD ==> self.generation() as int + 2 <= u64::MAX as int
            && self.live_size() - displaced + rec_len <= u64::MAX as int)
    }

    /// `remove` of this key succeeds: the key is live and its `Remove`
    /// record fits.
    pub open spec fn remove_succeeds(&self, k: Seq<char>) -> bool {
        &&& self@.contains_key(k)
        &&& self.remove_fits(k)
    }

    /// Compaction can run: two fresh generation numbers exist and the
    /// copied live records' positions stay within `u64`.
    pub open spec fn can_compact(&self) -> bool {
        &&& self.generation() as int + 2 <= u64::MAX as int
        &&& self.live_size() <= u64::MAX as int
    }

    /// The store's representation invariant.
    pub closed spec fn wf(&self) -> bool {
        let n = self.readers@.len() as int;
        &&& self.hist@.len() == n + 1
        &&& forall|i: int|
            0 <= i < n ==> (#[trigger] self.readers@[i]).1.content@ == encode_all(self.hist@[i])
        &&& self.writer.flushed@ == encode_all(self.hist@[n])
        &&& self.writer.pending@ == Seq::<char>::empty()
        &&& self.writer.pos as int == self.writer.flushed@.len() as int
        &&& forall|i: int, j: int| 0 <= i < j < n ==> self.readers@[i].0 < self.readers@[j].0
        &&& forall|i: int| 0 <= i < n ==> (#[trigger] self.readers@[i]).0 < self.current_file
        &&& self.current_file >= 1
        &&& index_matches(self.index@, self.entries())
    }
}

/// Find the position of a key in the index, if it is there.
fn index_find(ix: &Vec<(String, CommandPos)>, key: &String) -> (r: Option<usize>)
    ensures
        (match r {
            Option::Some(i) => i < ix@.len() && ix@[i as int].0@ == key@,
            Option::None => forall|i: int| 0 <= i < ix@.len() ==> (#[trigger] ix@[i]).0@ != key@,
        }),
{
    let mut i: usize = 0;
    while i < ix.len()
        invariant
            i <= ix@.len(),
            forall|j: int| 0 <= j < i ==> (#[trigger] ix@[j]).0@ != key@,
        decreases ix@.len() - i,
    {
        if ix[i].0.eq(key) {
            return Some(i);
        }
        i = i + 1;
    }
    None
}

/// Insert or overwrite a key's location, handing back what it displaced.
fn index_insert(ix: &mut Vec<(String, CommandPos)>, key: String, cp: CommandPos) -> (r: Option<
    CommandPos,
>)
    ensures
        (match r {
            Option::Some(d) => exists|i: int|
                {
                    &&& 0 <= i < old(ix)@.len()
                    &&& (#[trigger] old(ix)@[i]).0@ == key@
                    &&& d == old(ix)@[i].1
                    &&& final(ix)@.len() == old(ix)@.len()
                    &&& final(ix)@[i].0@ == key@
                    &&& final(ix)@[i].1 == cp
                    &&& forall|j: int| 0 <= j < old(ix)@.len() && j != i ==> final(ix)@[j] == old(ix)@[j]
                },
            Option::None => {
                &&& (forall|i: int| 0 <= i < old(ix)@.len() ==> (#[trigger] old(ix)@[i]).0@ != key@)
                &&& final(ix)@.len() == old(ix)@.len() + 1
                &&& final(ix)@[old(ix)@.len() as int].0@ == key@
                &&& final(ix)@[old(ix)@.len() as int].1 == cp
                &&& forall|j: int| 0 <= j < old(ix)@.len() ==> final(ix)@[j] == old(ix)@[j]
            },
        }),
{
    let mut i: usize = 0;
    while i < ix.len()
        invariant
            i <= ix@.len(),
            ix@ == old(ix)@,
            forall|j: int| 0 <= j < i ==> (#[trigger] ix@[j]).0@ != key@,
        decreases ix@.len() - i,
    {
        if ix[i].0.eq(&key) {
            let d = ix[i].1;
            ix.set(i, (key, cp));
            return Some(d);
        }
        i = i + 1;
    }
    ix.push((key, cp));
    None
}

/// Remove a key's location from the index, handing back what was there.
fn index_remove(ix: &mut Vec<(String, CommandPos)>, key: &String) -> (r: Option<CommandPos>)
    ensures
        (match r {
            Option::Some(d) => exists|i: int|
                {
                    &&& 0 <= i < old(ix)@.len()
                    &&& (#[trigger] old(ix)@[i]).0@ == key@
                    &&& d == old(ix)@[i].1
                    &&& final(ix)@ == old(ix)@.remove(i)
                },
            Option::None => {
                &&& (forall|i: int| 0 <= i < old(ix)@.len() ==> (#[trigger] old(ix)@[i]).0@ != key@)
                &&& final(ix)@ == old(ix)@
            },
        }),
{
    let mut i: usize = 0;
    while i < ix.len()
        invariant
            i <= ix@.len(),
            ix@ == old(ix)@,
            forall|j: int| 0 <= j < i ==> (#[trigger] ix@[j]).0@ != key@,
        decreases ix@.len() - i,
    {
        if ix[i].0.eq(key) {
            let d = ix[i].1;
            ix.remove(i);
            return Some(d);
        }
        i = i + 1;
    }
    None
}

/// The saturating form of the stale-character estimate's addition.
fn stale_add(a: u64, b: u64) -> (r: u64)
    ensures
        r as int == sat_add(a as int, b as int),
{
    if b > u64::MAX - a {
        u64::MAX
    } else {
        a + b
    }
}

/// The key a record names. It is applied under all-`Put` hypotheses;
/// on a `Remove` it gives that record's key.
pub open spec fn put_key(c: CommandView) -> Seq<char> {
    match c {
        CommandView::Put { key, value } => key,
        CommandView::Remove { key } => key,
    }
}

/// The value a `Put` record assigns. It is applied under all-`Put`
/// hypotheses; a `Remove` names no value and gives the empty one.
pub open spec fn put_value(c: CommandView) -> Seq<char> {
    match c {
        CommandView::Put { key, value } => value,
        CommandView::Remove { key } => Seq::empty(),
    }
}

/// Find the reader for a generation, if one is open.
fn find_reader(readers: &Vec<(u64, BufReaderWithPos)>, gen: u64) -> (r: Option<usize>)
    ensures
        (match r {
            Option::Some(j) => j < readers@.len() && readers@[j as int].0 == gen,
            Option::None => forall|j: int|
                0 <= j < readers@.len() ==> (#[trigger] readers@[j]).0 != gen,
        }),
{
    let mut j: usize = 0;
    while j < readers.len()
        invariant
            j <= readers@.len(),
            forall|jj: int| 0 <= jj < j ==> (#[trigger] readers@[jj]).0 != gen,
        decreases readers@.len() - j,
    {
        if readers[j].0 == gen {
            return Some(j);
        }
        j = j + 1;
    }
    None
}

/// One more index entry adds its length to the sum.
proof fn lemma_sum_take_step(ix: Seq<(String, CommandPos)>, t: int)
    requires
        0 <= t < ix.len(),
    ensures
        sum_lens(ix.take(t + 1)) == sum_lens(ix.take(t)) + ix[t].1.len as int,
{
    assert(ix.take(t + 1).drop_last() =~= ix.take(t));
    assert(ix.take(t + 1).last() == ix[t]);
}

/// The sum over a prefix never exceeds the sum over the whole index.
proof fn lemma_sum_prefix(ix: Seq<(String, CommandPos)>, t: int)
    requires
        0 <= t <= ix.len(),
    ensures
        sum_lens(ix.take(t)) <= sum_lens(ix),
    decreases ix.len() - t,
{
    if t == ix.len() {
        assert(ix.take(t) =~= ix);
    } else {
        lemma_sum_take_step(ix, t);
        lemma_sum_prefix(ix, t + 1);
    }
}

/// Replacing one entry shifts the sum by the difference of lengths.
proof fn lemma_sum_update(ix: Seq<(String, CommandPos)>, i: int, p: (String, CommandPos))
    requires
        0 <= i < ix.len(),
    ensures
        sum_lens(ix.update(i, p)) == sum_lens(ix) - ix[i].1.len as int + p.1.len as int,
    decreases ix.len(),
{
    if i == ix.len() - 1 {
        assert(ix.update(i, p).drop_last() =~= ix.drop_last());
        assert(ix.update(i, p).last() == p);
    } else {
        assert(ix.update(i, p).drop_last() =~= ix.drop_last().update(i, p));
        assert(ix.update(i, p).last() == ix.last());
        lemma_sum_update(ix.drop_last(), i, p);
    }
}

/// Appending an entry adds its length to the sum.
proof fn lemma_sum_push(ix: Seq<(String, CommandPos)>, p: (String, CommandPos))
    ensures
        sum_lens(ix.push(p)) == sum_lens(ix) + p.1.len as int,
{
    assert(ix.push(p).drop_last() =~= ix);
    assert(ix.push(p).last() == p);
}


/// Two indexes whose entries have the same lengths have the same sum.
proof fn lemma_sum_same_lens(a: Seq<(String, CommandPos)>, b: Seq<(String, CommandPos)>)
    requires
        a.len() == b.len(),
        forall|i: int| 0 <= i < a.len() ==> a[i].1.len == b[i].1.len,
    ensures
        sum_lens(a) == sum_lens(b),
    decreases a.len(),
{
    if a.len() > 0 {
        lemma_sum_same_lens(a.drop_last(), b.drop_last());
    }
}

/// A prefix of a record stream writes no more text than the whole.
proof fn lemma_encode_all_prefix_len(rs: Seq<CommandView>, j: int)
    requires
        0 <= j <= rs.len(),
    ensures
        encode_all(rs.take(j)).len() <= encode_all(rs).len(),
    decreases rs.len() - j,
{
    if j == rs.len() {
        assert(rs.take(j) =~= rs);
    } else {
        assert(rs.take(j + 1) =~= rs.take(j).push(rs[j]));
        lemma_encode_all_push(rs.take(j), rs[j]);
        lemma_encode_all_prefix_len(rs, j + 1);
    }
}

/// Replaying a file of `Put` records with pairwise distinct keys, over an
/// empty index, indexes exactly those keys, each at the position where
/// its record was written.
proof fn lemma_replay_puts(gen: u64, rs: Seq<CommandView>)
    requires
        forall|j: int| 0 <= j < rs.len() ==> (#[trigger] rs[j]) is Put,
        forall|j1: int, j2: int|
            0 <= j1 < j2 < rs.len() ==> put_key(rs[j1]) != put_key(rs[j2]),
    ensures
        ({
            let m = replay_recs(Map::empty(), gen, rs);
            &&& forall|k: Seq<char>|
                #[trigger] m.contains_key(k) ==> exists|j: int| 0 <= j < rs.len() && put_key(#[trigger] rs[j]) == k
            &&& forall|j: int|
                0 <= j < rs.len() ==> {
                    &&& m.contains_key(put_key(#[trigger] rs[j]))
                    &&& m[put_key(rs[j])] == (EntryV {
                        gen,
                        pos: encode_all(rs.take(j)).len() as int,
                        len: encode(rs[j]).len() as int,
                        value: put_value(rs[j]),
                    })
                }
        }),
    decreases rs.len(),
{
    if rs.len() == 0 {
    } else {
        let head = rs.drop_last();
        lemma_replay_puts(gen, head);
        let prev = replay_recs(Map::empty(), gen, head);
        let m = replay_recs(Map::empty(), gen, rs);
        let jn = rs.len() - 1;
        assert(rs[jn] is Put);
        assert(rs.take(jn) =~= head);
        assert forall|j: int| 0 <= j < rs.len() implies {
            &&& m.contains_key(put_key(#[trigger] rs[j]))
            &&& m[put_key(rs[j])] == (EntryV {
                gen,
                pos: encode_all(rs.take(j)).len() as int,
                len: encode(rs[j]).len() as int,
                value: put_value(rs[j]),
            })
        } by {
            if j < jn {
                assert(head[j] == rs[j]);
                assert(head.take(j) =~= rs.take(j));
                assert(put_key(rs[j]) != put_key(rs[jn]));
            }
        }
        assert forall|k: Seq<char>| #[trigger] m.contains_key(k) implies exists|j: int|
            0 <= j < rs.len() && put_key(#[trigger] rs[j]) == k by {
            if k == put_key(rs[jn]) {
                assert(put_key(rs[jn]) == k);
            } else {
                assert(prev.contains_key(k));
                let j = choose|j: int| 0 <= j < head.len() && put_key(#[trigger] head[j]) == k;
                assert(put_key(rs[j]) == k);
            }
        }
    }
}

/// One more record replays as one more step.
proof fn lemma_replay_recs_push(m: Map<Seq<char>, EntryV>, gen: u64, rs: Seq<CommandView>, c: CommandView)
    ensures
        replay_recs(m, gen, rs.push(c)) == (match c {
            CommandView::Put { key, value } => replay_recs(m, gen, rs).insert(
                key,
                EntryV {
                    gen,
                    pos: encode_all(rs).len() as int,
                    len: encode(c).len() as int,
                    value,
                },
            ),
            CommandView::Remove { key } => replay_recs(m, gen, rs).remove(key),
        }),
{
    assert(rs.push(c).drop_last() =~= rs);
    assert(rs.push(c).last() == c);
}

/// One more record adds one more stale step.
proof fn lemma_replay_stale_push(m: Map<Seq<char>, EntryV>, gen: u64, rs: Seq<CommandView>, c: CommandView)
    ensures
        replay_stale(m, gen, rs.push(c)) == replay_stale(m, gen, rs) + (match c {
            CommandView::Put { key, value } => if replay_recs(m, gen, rs).contains_key(key) {
                replay_recs(m, gen, rs)[key].len
            } else {
                0
            },
            CommandView::Remove { key } => (if replay_recs(m, gen, rs).contains_key(key) {
                replay_recs(m, gen, rs)[key].len
            } else {
                0
            }) + encode(c).len() as int,
        }),
{
    assert(rs.push(c).drop_last() =~= rs);
    assert(rs.push(c).last() == c);
}

/// Replayed entries never have negative lengths.
proof fn lemma_replay_recs_nonneg(m: Map<Seq<char>, EntryV>, gen: u64, rs: Seq<CommandView>)
    requires
        forall|k: Seq<char>| #[trigger] m.contains_key(k) ==> m[k].len >= 0,
    ensures
        forall|k: Seq<char>| #[trigger] replay_recs(m, gen, rs).contains_key(k)
            ==> replay_recs(m, gen, rs)[k].len >= 0,
    decreases rs.len(),
{
    if rs.len() > 0 {
        lemma_replay_recs_nonneg(m, gen, rs.drop_last());
        let prev = replay_recs(m, gen, rs.drop_last());
        let out = replay_recs(m, gen, rs);
        assert forall|k: Seq<char>| #[trigger] out.contains_key(k) implies out[k].len >= 0 by {
            match rs.last() {
                CommandView::Put { key, value } => {
                    if k == key {
                        assert(out[k].len == encode(rs.last()).len() as int);
                    } else {
                        assert(prev.contains_key(k) && out[k] == prev[k]);
                    }
                }
                CommandView::Remove { key } => {
                    assert(prev.contains_key(k) && out[k] == prev[k]);
                }
            }
        }
    }
}

/// Replay never accrues a negative stale count.
proof fn lemma_replay_stale_nonneg(m: Map<Seq<char>, EntryV>, gen: u64, rs: Seq<CommandView>)
    requires
        forall|k: Seq<char>| #[trigger] m.contains_key(k) ==> m[k].len >= 0,
    ensures
        replay_stale(m, gen, rs) >= 0,
    decreases rs.len(),
{
    if rs.len() > 0 {
        lemma_replay_stale_nonneg(m, gen, rs.drop_last());
        lemma_replay_recs_nonneg(m, gen, rs.drop_last());
    }
}

/// Saturating addition onto a capped estimate caps the true sum.
proof fn lemma_sat_cap(a: int, b: int)
    requires
        a >= 0,
        b >= 0,
    ensures
        sat_add(cap_u64(a), b) == cap_u64(a + b),
        sat_add(cap_u64(a), cap_u64(b)) == cap_u64(a + b),
{
}

/// Replaying records keeps every entry pointing at a whole `Put` record
/// in one of the files seen so far.
proof fn lemma_replay_recs_valid(
    m: Map<Seq<char>, EntryV>,
    gen: u64,
    rs: Seq<CommandView>,
    logs: Seq<(u64, Seq<CommandView>)>,
)
    requires
        entries_valid(m, logs),
    ensures
        entries_valid(replay_recs(m, gen, rs), logs.push((gen, rs))),
    decreases rs.len(),
{
    let out = replay_recs(m, gen, rs);
    let full = logs.push((gen, rs));
    if rs.len() == 0 {
        assert forall|k: Seq<char>| #[trigger] out.contains_key(k) implies exists|i: int|
            0 <= i < full.len() && full[i].0 == out[k].gen && entry_points_at(
                out[k],
                encode_all(full[i].1),
                k,
            ) by {
            let i = choose|i: int|
                0 <= i < logs.len() && logs[i].0 == m[k].gen && entry_points_at(
                    m[k],
                    encode_all(logs[i].1),
                    k,
                );
            assert(full[i] == logs[i]);
            assert(0 <= i < full.len() && full[i].0 == out[k].gen && entry_points_at(
                out[k],
                encode_all(full[i].1),
                k,
            ));
        }
    } else {
        let head = rs.drop_last();
        let prev = replay_recs(m, gen, head);
        lemma_replay_recs_valid(m, gen, head, logs);
        // entries of `prev` stay valid when the last file grows
        assert forall|k: Seq<char>| #[trigger] prev.contains_key(k) implies exists|i: int|
            0 <= i < full.len() && full[i].0 == prev[k].gen && entry_points_at(
                prev[k],
                encode_all(full[i].1),
                k,
            ) by {
            let part = logs.push((gen, head));
            let i = choose|i: int|
                0 <= i < part.len() && part[i].0 == prev[k].gen && entry_points_at(
                    prev[k],
                    encode_all(part[i].1),
                    k,
                );
            if i < logs.len() {
                assert(full[i] == logs[i]);
                assert(entry_points_at(prev[k], encode_all(full[i].1), k));
            } else {
                let e = prev[k];
                assert(part[i] == (gen, head));
                assert(entry_points_at(e, encode_all(head), k));
                let grown = encode_all(head) + encode(rs.last());
                assert(encode_all(rs) == grown);
                assert(0 <= e.pos && e.pos + e.len <= encode_all(head).len());
                assert forall|jx: int| 0 <= jx < e.len implies #[trigger] grown[e.pos + jx]
                    == encode_all(head)[e.pos + jx] by {
                }
                assert(grown.subrange(e.pos, e.pos + e.len) =~= encode_all(head).subrange(
                    e.pos,
                    e.pos + e.len,
                ));
                assert(entry_points_at(e, encode_all(full[i].1), k));
            }
            assert(0 <= i < full.len() && full[i].0 == prev[k].gen && entry_points_at(
                prev[k],
                encode_all(full[i].1),
                k,
            ));
        }
        match rs.last() {
            CommandView::Put { key, value } => {
                let e = EntryV {
                    gen,
                    pos: encode_all(head).len() as int,
                    len: encode(rs.last()).len() as int,
                    value,
                };
                assert(out == prev.insert(key, e));
                assert(encode_all(rs) == encode_all(head) + encode(rs.last()));
                assert(encode_all(rs).subrange(e.pos, e.pos + e.len) =~= encode(rs.last()));
                assert(entry_points_at(e, encode_all(rs), key));
                assert forall|k: Seq<char>| #[trigger] out.contains_key(k) implies exists|i: int|
                    0 <= i < full.len() && full[i].0 == out[k].gen && entry_points_at(
                        out[k],
                        encode_all(full[i].1),
                        k,
                    ) by {
                    if k == key {
                        let i = logs.len() as int;
                        assert(full[i] == (gen, rs));
                        assert(0 <= i < full.len() && full[i].0 == out[k].gen && entry_points_at(
                            out[k],
                            encode_all(full[i].1),
                            k,
                        ));
                    } else {
                        assert(prev.contains_key(k) && out[k] == prev[k]);
                    }
                }
            }
            CommandView::Remove { key } => {
                assert(out == prev.remove(key));
                assert forall|k: Seq<char>| #[trigger] out.contains_key(k) implies exists|i: int|
                    0 <= i < full.len() && full[i].0 == out[k].gen && entry_points_at(
                        out[k],
                        encode_all(full[i].1),
                        k,
                    ) by {
                    assert(prev.contains_key(k) && out[k] == prev[k]);
                }
            }
        }
    }
}

/// Every entry of a full replay points at a whole `Put` record for its
/// key inside the file its generation names.
proof fn lemma_replay_valid(logs: Seq<(u64, Seq<CommandView>)>)
    ensures
        entries_valid(replay(logs), logs),
    decreases logs.len(),
{
    if logs.len() == 0 {
    } else {
        lemma_replay_valid(logs.drop_last());
        lemma_replay_recs_valid(
            replay(logs.drop_last()),
            logs.last().0,
            logs.last().1,
            logs.drop_last(),
        );
        assert(logs.drop_last().push(logs.last()) =~= logs);
    }
}

impl KvStore {
    /// Look up a key.
    ///
    /// Returns the value of the key's latest `Put`, or nothing when no
    /// record is live for it. The store is not changed.
    pub fn get(&mut self, key: String) -> (r: Result<Option<String>, KvsError>)
        requires
            old(self).wf(),
        ensures
            *final(self) == *old(self),
            final(self).wf(),
            r is Ok,
            (match r {
                Ok(v) => (match v {
                    Option::Some(s) => old(self)@.contains_key(key@) && s@ == old(self)@[key@],
                    Option::None => !old(self)@.contains_key(key@),
                }),
                Err(_) => false,
            }),
    {
        let found = index_find(&self.index, &key);
        match found {
            Option::None => {
                proof {
                    if self.entries().contains_key(key@) {
                        let i = choose|i: int|
                            0 <= i < self.index@.len() && (#[trigger] self.index@[i]).0@ == key@;
                        assert(false);
                    }
                }
                Ok(None)
            }
            Option::Some(ii) => {
                let cp = self.index[ii].1;
                let ghost e = self.entries()[key@];
                proof {
                    lemma_replay_valid(self.logs());
                    assert(self.entries().contains_key(key@));
                    assert(e.gen == cp.file_id && e.pos == cp.pos as int && e.len == cp.len as int);
                }
                let ghost pv = CommandView::Put { key: key@, value: e.value };
                let ghost fi = choose|fi: int|
                    0 <= fi < self.logs().len() && self.logs()[fi].0 == e.gen && entry_points_at(
                        e,
                        encode_all(self.logs()[fi].1),
                        key@,
                    );
                let n = self.readers.len();
                let chunk: String;
                if cp.file_id == self.current_file {
                    proof {
                        if fi < n {
                            assert(self.logs()[fi].0 == self.readers@[fi].0);
                            assert(false);
                        }
                        assert(self.logs()[fi].1 == self.hist@[n as int]);
                        assert(encode_all(self.hist@[n as int]) == self.writer.flushed@);
                    }
                    let wlen = self.writer.flushed.as_str().unicode_len();
                    proof {
                        assert(e.pos + e.len <= wlen as int);
                    }
                    let a = cp.pos as usize;
                    let b = cp.len as usize;
                    chunk = String::from_str(
                        self.writer.flushed.as_str().substring_char(a, a + b),
                    );
                } else {
                    let mut j: usize = 0;
                    let mut found_at: Option<usize> = None;
                    while j < n
                        invariant
                            n == self.readers@.len(),
                            j <= n,
                            (match found_at {
                                Option::Some(jj) => jj < n && self.readers@[jj as int].0
                                    == cp.file_id,
                                Option::None => forall|jj: int|
                                    0 <= jj < j ==> (#[trigger] self.readers@[jj]).0 != cp.file_id,
                            }),
                        decreases n - j,
                    {
                        if found_at.is_none() && self.readers[j].0 == cp.file_id {
                            found_at = Some(j);
                        }
                        j = j + 1;
                    }
                    proof {
                        assert(fi < n) by {
                            if fi == n {
                                assert(self.logs()[fi].0 == self.current_file);
                                assert(false);
                            }
                        }
                        assert(self.readers@[fi].0 == cp.file_id);
                        if found_at is None {
                            assert(false);
                        }
                    }
                    let jj = found_at.unwrap();
                    proof {
                        // the generations are distinct, so this is the file
                        // the entry names
                        if jj as int != fi {
                            if (jj as int) < fi {
                                assert(self.readers@[jj as int].0 < self.readers@[fi].0);
                            } else {
                                assert(self.readers@[fi].0 < self.readers@[jj as int].0);
                            }
                            assert(false);
                        }
                        assert(self.readers@[jj as int].1.content@ == encode_all(
                            self.logs()[fi].1,
                        ));
                        assert(e.pos + e.len <= self.readers@[jj as int].1.content@.len());
                    }
                    chunk = self.readers[jj].1.read_at(cp.pos, cp.len);
                }
                proof {
                    assert(chunk@ == encode(pv));
                    assert(chunk@.skip(0) =~= encode(pv) + Seq::<char>::empty());
                    assert(chunk@.skip(0) == record_stream(pv, Seq::<char>::empty()));
                }
                match decode_command(chunk.as_str(), 0) {
                    Ok((cmd, used)) => {
                        proof {
                            assert(chunk@.subrange(0, used as int) == encode(cmd@));
                            assert(chunk@.skip(0) =~= chunk@.subrange(0, used as int) + chunk@.skip(
                                used as int,
                            ));
                            lemma_encode_unambiguous(
                                cmd@,
                                pv,
                                chunk@.skip(used as int),
                                Seq::<char>::empty(),
                            );
                            assert(cmd@ == pv);
                        }
                        match cmd {
                            Command::Put { key: _, value } => {
                                proof {
                                    assert(old(self)@[key@] == e.value);
                                }
                                Ok(Some(value))
                            }
                            Command::Remove { .. } => {
                                // a live index entry never names a `Remove`
                                proof {
                                    assert(false);
                                }
                                Err(KvsError::UnexpectedCommandType)
                            }
                        }
                    }
                    Err(_) => {
                        proof {
                            assert(false);
                        }
                        Err(KvsError::UnexpectedCommandType)
                    }
                }
            }
        }
    }

    /// Delete a key.
    ///
    /// Appends a `Remove` record, flushes it, and only then drops the key
    /// from the index; the old record's characters join the stale
    /// estimate. Fails with `KeyNotFound` when the key is not live.
    pub fn remove(&mut self, key: String) -> (r: Result<(), KvsError>)
        requires
            old(self).wf(),
        ensures
            final(self).wf(),
            !old(self)@.contains_key(key@) ==> r == Err::<(), KvsError>(KvsError::KeyNotFound)
                && *final(self) == *old(self),
            old(self)@.contains_key(key@) && !old(self).remove_fits(key@) ==> r == Err::<
                (),
                KvsError,
            >(KvsError::Io) && *final(self) == *old(self),
            old(self)@.contains_key(key@) && old(self).remove_fits(key@) ==> {
                &&& r is Ok
                &&& final(self)@ == old(self)@.remove(key@)
                &&& final(self).entries() == old(self).entries().remove(key@)
                &&& final(self).stale_bytes() as int == sat_add(
                    old(self).stale_bytes() as int,
                    old(self).entry_len(key@),
                )
                &&& final(self).generation() == old(self).generation()
                &&& final(self).file_gens() == old(self).file_gens()
                &&& final(self).writer_pos() as int == old(self).writer_pos() as int + encode(
                    (CommandView::Remove { key: key@ }),
                ).len() as int
            },
            r is Ok <==> old(self).remove_succeeds(key@),
    {
        let ghost kview = key@;
        let found = index_find(&self.index, &key);
        let i0: usize;
        match found {
            Option::None => {
                proof {
                    if self.entries().contains_key(key@) {
                        let i = choose|i: int|
                            0 <= i < self.index@.len() && (#[trigger] self.index@[i]).0@ == key@;
                        assert(false);
                    }
                }
                return Err(KvsError::KeyNotFound);
            }
            Option::Some(i) => {
                i0 = i;
            }
        }
        let ghost e = self.entries()[key@];
        let cmd = Command::remove(key);
        let ghost cv = cmd@;
        let text = encode_command(&cmd);
        let tlen = text.as_str().unicode_len();
        if tlen as u64 > u64::MAX - self.writer.pos {
            proof {
                assert(!old(self).remove_fits(kview));
            }
            return Err(KvsError::Io);
        }
        let ghost old_logs = self.logs();
        let ghost n = self.readers@.len() as int;
        let ghost old_rs = self.hist@[n];
        match self.writer.write(text.as_str()) {
            Ok(()) => {}
            Err(e2) => {
                proof {
                    assert(false);
                }
                return Err(e2);
            }
        }
        let _ = self.writer.flush();
        proof {
            lemma_encode_all_push(old_rs, cv);
            self.hist@ = self.hist@.update(n, old_rs.push(cv));
            assert(self.writer.flushed@ == encode_all(old_rs.push(cv)));
            assert(self.logs() =~= old_logs.update(n, (self.current_file, old_rs.push(cv))));
            assert(self.logs().drop_last() =~= old_logs.drop_last());
            assert(replay_logs(Map::empty(), self.logs().drop_last()) == replay_logs(
                Map::empty(),
                old_logs.drop_last(),
            ));
            lemma_replay_recs_push(
                replay_logs(Map::empty(), old_logs.drop_last()),
                self.current_file,
                old_rs,
                cv,
            );
            assert(self.entries() == old(self).entries().remove(kview));
        }
        if let Command::Remove { key } = cmd {
            let d = index_remove(&mut self.index, &key);
            match d {
                Option::Some(old_cp) => {
                    self.uncompacted = stale_add(self.uncompacted, old_cp.len);
                    proof {
                        let i = choose|i: int|
                            {
                                &&& 0 <= i < old(self).index@.len()
                                &&& (#[trigger] old(self).index@[i]).0@ == key@
                                &&& old_cp == old(self).index@[i].1
                                &&& self.index@ == old(self).index@.remove(i)
                            };
                        assert(old_cp.len as int == e.len);
                        assert forall|k: Seq<char>| #[trigger] self.entries().contains_key(k)
                            implies exists|jj: int|
                            0 <= jj < self.index@.len() && (#[trigger] self.index@[jj]).0@ == k by {
                            let j0 = choose|j0: int|
                                0 <= j0 < old(self).index@.len() && (#[trigger] old(
                                    self,
                                ).index@[j0]).0@ == k;
                            if j0 < i {
                                assert(self.index@[j0].0@ == k);
                            } else {
                                assert(j0 != i);
                                assert(self.index@[j0 - 1].0@ == k);
                            }
                        }
                        assert(index_matches(self.index@, self.entries()));
                    }
                }
                Option::None => {
                    proof {
                        assert(false);
                    }
                }
            }
        }
        proof {
            assert(self@ =~= old(self)@.remove(kview));
            assert(self.file_gens() =~= old(self).file_gens());
        }
        Ok(())
    }
}


impl KvStore {
    /// Rewrite every live record into a fresh compaction file and drop
    /// every older log file.
    ///
    /// Two fresh generations are taken: the live records are copied into
    /// the first, and the writer continues in the second, so that new
    /// appends never collide with the copy. The replayed mapping is
    /// unchanged; afterwards no file older than the compaction file
    /// remains and the stale estimate is zero.
    #[verifier::rlimit(100)]
    #[verifier::spinoff_prover]
    #[verifier::loop_isolation(false)]
    pub fn compact(&mut self) -> (r: Result<(), KvsError>)
        requires
            old(self).wf(),
        ensures
            final(self).wf(),
            final(self)@ == old(self)@,
            r is Ok <==> old(self).can_compact(),
            r is Err ==> *final(self) == *old(self) && r == Err::<(), KvsError>(KvsError::Io),
            r is Ok ==> {
                &&& final(self).stale_bytes() == 0
                &&& final(self).generation() == old(self).generation() + 2
                &&& final(self).file_gens() == seq![
                    (old(self).generation() + 1) as u64,
                    (old(self).generation() + 2) as u64,
                ]
                &&& final(self).writer_pos() == 0
                &&& final(self).live_size() == old(self).live_size()
                &&& forall|k: Seq<char>|
                    #[trigger] final(self).entries().contains_key(k) ==> {
                        let e = final(self).entries()[k];
                        &&& e.gen == old(self).generation() + 1
                        &&& e.len == old(self).entries()[k].len
                        &&& 0 <= e.pos
                        &&& e.pos + e.len <= old(self).live_size()
                    }
            },
    {
        if self.current_file > u64::MAX - 2 {
            return Err(KvsError::Io);
        }
        let compaction_file = self.current_file + 1;
        let new_write_file = self.current_file + 2;
        // make sure every copied record's position will fit
        let mut total: u64 = 0;
        let mut t: usize = 0;
        while t < self.index.len()
            invariant
                *self == *old(self),
                t <= self.index@.len(),
                total as int == sum_lens(self.index@.take(t as int)),
            decreases self.index@.len() - t,
        {
            let l = self.index[t].1.len;
            proof {
                lemma_sum_take_step(self.index@, t as int);
            }
            if l > u64::MAX - total {
                proof {
                    lemma_sum_prefix(self.index@, t + 1);
                }
                return Err(KvsError::Io);
            }
            total = total + l;
            t = t + 1;
        }
        proof {
            assert(self.index@.take(self.index@.len() as int) =~= self.index@);
            assert(old(self).can_compact());
        }
        // seal the current file; the writer moves two generations on
        let mut w = BufWriterWithPos::new();
        core::mem::swap(&mut self.writer, &mut w);
        let sealed_gen = self.current_file;
        self.readers.push((sealed_gen, BufReaderWithPos::new(w.flushed)));
        self.current_file = new_write_file;
        let ghost logs_before = old(self).logs();
        proof {
            self.hist@ = self.hist@.push(Seq::<CommandView>::empty());
            assert(self.logs() =~= logs_before.push(
                (new_write_file, Seq::<CommandView>::empty()),
            ));
            assert(self.logs().drop_last() =~= logs_before);
            assert(self.entries() == old(self).entries());
        }
        let ghost m0 = self.entries();
        let ghost logs0 = self.logs();
        let ghost ix0 = self.index@;
        let ghost readers0 = self.readers@;
        let ghost hist0 = self.hist@;
        proof {
            lemma_replay_valid(logs0);
        }
        // copy every live record into the compaction file
        let mut comp = BufWriterWithPos::new();
        let ghost comp_rs: Seq<CommandView> = Seq::empty();
        let mut i: usize = 0;
        while i < self.index.len()
            invariant
                self.readers@ == readers0,
                self.hist@ == hist0,
                self.current_file == new_write_file,
                self.uncompacted == old(self).uncompacted,
                self.writer.flushed@ == Seq::<char>::empty(),
                self.writer.pending@ == Seq::<char>::empty(),
                self.writer.pos == 0,
                self.logs() == logs0,
                self.entries() == m0,
                index_matches(ix0, m0),
                entries_valid(m0, logs0),
                forall|ii: int, jj: int| 0 <= ii < jj < readers0.len() ==> readers0[ii].0 < readers0[jj].0,
                forall|ii: int| 0 <= ii < readers0.len() ==> (#[trigger] readers0[ii]).1.content@ == encode_all(hist0[ii]),
                forall|ii: int| 0 <= ii < readers0.len() ==> (#[trigger] readers0[ii]).0 < new_write_file,
                hist0.len() == readers0.len() + 1,
                compaction_file < new_write_file,
                forall|ii: int| 0 <= ii < readers0.len() ==> (#[trigger] readers0[ii]).0 != compaction_file,
                i <= ix0.len(),
                self.index@.len() == ix0.len(),
                forall|j: int| i <= j < ix0.len() ==> self.index@[j] == ix0[j],
                forall|j: int| 0 <= j < ix0.len() ==> (#[trigger] self.index@[j]).0@ == ix0[j].0@,
                comp_rs.len() == i,
                forall|j: int|
                    0 <= j < i ==> #[trigger] comp_rs[j] == (CommandView::Put {
                        key: ix0[j].0@,
                        value: m0[ix0[j].0@].value,
                    }),
                forall|j: int|
                    0 <= j < i ==> {
                        let p = #[trigger] self.index@[j].1;
                        &&& p.file_id == compaction_file
                        &&& p.pos as int == encode_all(comp_rs.take(j)).len()
                        &&& p.len == ix0[j].1.len
                    },
                comp.flushed@ == Seq::<char>::empty(),
                comp.pending@ == encode_all(comp_rs),
                comp.pos as int == encode_all(comp_rs).len(),
                comp.pos as int == sum_lens(ix0.take(i as int)),
                total as int == sum_lens(ix0),
                total <= u64::MAX,
            decreases ix0.len() - i,
        {
            let cp = self.index[i].1;
            let ghost k = ix0[i as int].0@;
            let ghost e = m0[k];
            proof {
                assert(self.index@[i as int] == ix0[i as int]);
                assert(m0.contains_key(k));
                assert(e.gen == cp.file_id && e.pos == cp.pos as int && e.len == cp.len as int);
            }
            let ghost fi = choose|fi: int|
                0 <= fi < logs0.len() && logs0[fi].0 == e.gen && entry_points_at(
                    e,
                    encode_all(logs0[fi].1),
                    k,
                );
            proof {
                // the entry points at a record, so its file is not the
                // empty file of the new write generation
                if fi == readers0.len() as int {
                    assert(logs0[fi].1 == hist0[fi]);
                    assert(hist0[fi] == Seq::<CommandView>::empty());
                    assert(encode_all(logs0[fi].1).len() == 0);
                    assert(encode(
                        (CommandView::Put { key: k, value: e.value }),
                    ).len() > 0);
                    assert(false);
                }
                assert(readers0[fi].0 == cp.file_id);
            }
            let jj: usize;
            match find_reader(&self.readers, cp.file_id) {
                Option::Some(j) => {
                    jj = j;
                }
                Option::None => {
                    proof {
                        assert(false);
                    }
                    return Err(KvsError::Io);
                }
            }
            proof {
                if jj as int != fi {
                    if (jj as int) < fi {
                        assert(readers0[jj as int].0 < readers0[fi].0);
                    } else {
                        assert(readers0[fi].0 < readers0[jj as int].0);
                    }
                    assert(false);
                }
                assert(readers0[jj as int].1.content@ == encode_all(logs0[fi].1));
            }
            let chunk = self.readers[jj].1.read_at(cp.pos, cp.len);
            proof {
                assert(chunk@ == encode((CommandView::Put { key: k, value: e.value })));
                lemma_sum_take_step(ix0, i as int);
                lemma_sum_prefix(ix0, i + 1);
            }
            let new_pos = comp.pos;
            match comp.write(chunk.as_str()) {
                Ok(()) => {}
                Err(e2) => {
                    proof {
                        assert(false);
                    }
                    return Err(e2);
                }
            }
            let keyc = self.index[i].0.clone();
            proof {
                assert(keyc@ == ix0[i as int].0@);
            }
            self.index.set(i, (keyc, CommandPos { file_id: compaction_file, pos: new_pos, len: cp.len }));
            proof {
                let c = CommandView::Put { key: k, value: e.value };
                lemma_encode_all_push(comp_rs, c);
                let grown = comp_rs.push(c);
                assert(grown.take(i as int) =~= comp_rs);
                assert forall|j: int| 0 <= j < i implies grown.take(j) =~= comp_rs.take(j) by {}
                comp_rs = grown;
            }
            i = i + 1;
        }
        proof {
            assert(ix0.take(ix0.len() as int) =~= ix0);
        }
        let _ = comp.flush();
        let mut new_readers: Vec<(u64, BufReaderWithPos)> = Vec::new();
        new_readers.push((compaction_file, BufReaderWithPos::new(comp.flushed)));
        self.readers = new_readers;
        self.uncompacted = 0;
        proof {
            self.hist@ = seq![comp_rs, Seq::<CommandView>::empty()];
            let new_logs = self.logs();
            let l1 = seq![(compaction_file, comp_rs), (new_write_file, Seq::<CommandView>::empty())];
            let l2 = seq![(compaction_file, comp_rs)];
            assert(new_logs =~= l1);
            assert(l1.last() == (new_write_file, Seq::<CommandView>::empty()));
            assert(l1.drop_last() =~= l2);
            assert(l2.last() == (compaction_file, comp_rs));
            assert(l2.drop_last() =~= Seq::<(u64, Seq<CommandView>)>::empty());
            assert(replay_logs(Map::empty(), l2.drop_last()) == Map::<Seq<char>, EntryV>::empty());
            assert(replay_logs(Map::empty(), l2) == replay_recs(
                Map::empty(),
                compaction_file,
                comp_rs,
            ));
            assert(replay_logs(Map::empty(), l1) == replay_recs(
                replay_logs(Map::empty(), l1.drop_last()),
                new_write_file,
                Seq::<CommandView>::empty(),
            ));
            assert(self.entries() == replay_recs(Map::empty(), compaction_file, comp_rs));
            assert forall|j1: int, j2: int| 0 <= j1 < j2 < comp_rs.len() implies put_key(
                comp_rs[j1],
            ) != put_key(comp_rs[j2]) by {
                assert(ix0[j1].0@ != ix0[j2].0@);
            }
            lemma_replay_puts(compaction_file, comp_rs);
            let m1 = self.entries();
            // same keys, same values: the mapping is preserved
            assert forall|k: Seq<char>| #[trigger] m1.contains_key(k) implies m0.contains_key(k)
                && m1[k].value == m0[k].value by {
                let j = choose|j: int| 0 <= j < comp_rs.len() && put_key(#[trigger] comp_rs[j]) == k;
                assert(comp_rs[j] == (CommandView::Put { key: ix0[j].0@, value: m0[ix0[j].0@].value }));
                assert(ix0[j].0@ == k);
                assert(m0.contains_key(k));
            }
            assert forall|k: Seq<char>| #[trigger] m0.contains_key(k) implies m1.contains_key(k) by {
                let j = choose|j: int| 0 <= j < ix0.len() && (#[trigger] ix0[j]).0@ == k;
                assert(put_key(comp_rs[j]) == k);
            }
            assert(self@ =~= old(self)@);
            // the index matches the new replay
            assert forall|j: int| 0 <= j < self.index@.len() implies {
                let p = #[trigger] self.index@[j];
                &&& m1.contains_key(p.0@)
                &&& m1[p.0@].gen == p.1.file_id
                &&& m1[p.0@].pos == p.1.pos as int
                &&& m1[p.0@].len == p.1.len as int
            } by {
                assert(put_key(comp_rs[j]) == ix0[j].0@);
                assert(m1[ix0[j].0@] == (EntryV {
                    gen: compaction_file,
                    pos: encode_all(comp_rs.take(j)).len() as int,
                    len: encode(comp_rs[j]).len() as int,
                    value: put_value(comp_rs[j]),
                }));
                let e0 = m0[ix0[j].0@];
                let fi0 = choose|fi0: int|
                    0 <= fi0 < logs0.len() && logs0[fi0].0 == e0.gen && entry_points_at(
                        e0,
                        encode_all(logs0[fi0].1),
                        ix0[j].0@,
                    );
                assert(encode(comp_rs[j]).len() == e0.len);
            }
            assert forall|k: Seq<char>| #[trigger] m1.contains_key(k) implies exists|j: int|
                0 <= j < self.index@.len() && (#[trigger] self.index@[j]).0@ == k by {
                let j = choose|j: int| 0 <= j < comp_rs.len() && put_key(#[trigger] comp_rs[j]) == k;
                assert(self.index@[j].0@ == k);
            }
            assert(index_matches(self.index@, m1));
            assert(self.file_gens() =~= seq![compaction_file, new_write_file]);
            // the new locations: every record now sits whole inside the
            // compaction file, its length unchanged
            assert(ix0 == old(self).index@);
            assert(sum_lens(ix0) == old(self).live_size());
            assert forall|k: Seq<char>| #[trigger] m1.contains_key(k) implies {
                let e = m1[k];
                &&& e.gen == compaction_file
                &&& e.len == m0[k].len
                &&& 0 <= e.pos
                &&& e.pos + e.len <= old(self).live_size()
            } by {
                let j = choose|j: int| 0 <= j < comp_rs.len() && put_key(#[trigger] comp_rs[j]) == k;
                assert(ix0[j].0@ == k);
                assert(m1[k] == (EntryV {
                    gen: compaction_file,
                    pos: encode_all(comp_rs.take(j)).len() as int,
                    len: encode(comp_rs[j]).len() as int,
                    value: put_value(comp_rs[j]),
                }));
                let e0 = m0[k];
                let fi0 = choose|fi0: int|
                    0 <= fi0 < logs0.len() && logs0[fi0].0 == e0.gen && entry_points_at(
                        e0,
                        encode_all(logs0[fi0].1),
                        k,
                    );
                assert(encode(comp_rs[j]).len() == e0.len);
                assert(comp_rs.take(j + 1) =~= comp_rs.take(j).push(comp_rs[j]));
                lemma_encode_all_push(comp_rs.take(j), comp_rs[j]);
                lemma_encode_all_prefix_len(comp_rs, j + 1);
                assert(encode_all(comp_rs).len() == sum_lens(ix0));
            }
            assert forall|jx: int| 0 <= jx < self.index@.len() implies (#[trigger] self.index@[jx]).1.len
                == ix0[jx].1.len by {}
            lemma_sum_same_lens(self.index@, ix0);
            assert(self.live_size() == old(self).live_size());
        }
        Ok(())
    }
}

impl KvStore {
    /// Assign a value to a key, overwriting any previous value.
    ///
    /// Appends a `Put` record, flushes it, and only then points the index
    /// at it; a displaced record's characters join the stale estimate,
    /// and when the estimate passes the threshold the log is compacted.
    #[verifier::rlimit(100)]
    #[verifier::spinoff_prover]
    #[verifier::loop_isolation(false)]
    pub fn set(&mut self, key: String, value: String) -> (r: Result<(), KvsError>)
        requires
            old(self).wf(),
        ensures
            final(self).wf(),
            !old(self).put_fits(key@, value@) ==> r == Err::<(), KvsError>(KvsError::Io)
                && *final(self) == *old(self),
            old(self).put_fits(key@, value@) ==> {
                let displaced: int = if old(self)@.contains_key(key@) {
                    old(self).entry_len(key@)
                } else {
                    0
                };
                let mid_stale = sat_add(old(self).stale_bytes() as int, displaced);
                let rec_len = encode((CommandView::Put { key: key@, value: value@ })).len() as int;
                let mid_live = old(self).live_size() - displaced + rec_len;
                &&& final(self)@ == old(self)@.insert(key@, value@)
                &&& (mid_stale <= COMPACTION_THRESHOLD ==> {
                    &&& r is Ok
                    &&& final(self).stale_bytes() as int == mid_stale
                    &&& final(self).generation() == old(self).generation()
                    &&& final(self).file_gens() == old(self).file_gens()
                    &&& final(self).writer_pos() as int == old(self).writer_pos() as int + rec_len
                    &&& final(self).entries() == old(self).entries().insert(
                        key@,
                        (EntryV {
                            gen: old(self).generation(),
                            pos: old(self).writer_pos() as int,
                            len: rec_len,
                            value: value@,
                        }),
                    )
                })
                &&& (mid_stale > COMPACTION_THRESHOLD ==> {
                    &&& (r is Ok <==> old(self).generation() as int + 2 <= u64::MAX as int
                        && mid_live <= u64::MAX as int)
                    &&& (r is Ok ==> {
                        &&& final(self).stale_bytes() == 0
                        &&& final(self).generation() == old(self).generation() + 2
                        &&& final(self).file_gens() == seq![
                            (old(self).generation() + 1) as u64,
                            (old(self).generation() + 2) as u64,
                        ]
                        &&& final(self).writer_pos() == 0
                    })
                    &&& (r is Err ==> r == Err::<(), KvsError>(KvsError::Io)
                        && final(self).stale_bytes() as int == mid_stale
                        && final(self).generation() == old(self).generation())
                })
            },
            r is Ok <==> old(self).set_succeeds(key@, value@),
    {
        let ghost kview = key@;
        let ghost vview = value@;
        let cmd = Command::set(key, value);
        let ghost cv = cmd@;
        let pos = self.writer.pos;
        let text = encode_command(&cmd);
        let tlen = text.as_str().unicode_len();
        if tlen as u64 > u64::MAX - self.writer.pos {
            proof {
                assert(!old(self).put_fits(kview, vview));
            }
            return Err(KvsError::Io);
        }
        let ghost old_logs = self.logs();
        let ghost n = self.readers@.len() as int;
        let ghost old_rs = self.hist@[n];
        match self.writer.write(text.as_str()) {
            Ok(()) => {}
            Err(e2) => {
                proof {
                    assert(false);
                }
                return Err(e2);
            }
        }
        let _ = self.writer.flush();
        let ghost new_entry = EntryV {
            gen: self.current_file,
            pos: pos as int,
            len: tlen as int,
            value: vview,
        };
        proof {
            lemma_encode_all_push(old_rs, cv);
            self.hist@ = self.hist@.update(n, old_rs.push(cv));
            assert(self.writer.flushed@ == encode_all(old_rs.push(cv)));
            assert(self.logs() =~= old_logs.update(n, (self.current_file, old_rs.push(cv))));
            assert(self.logs().drop_last() =~= old_logs.drop_last());
            assert(replay_logs(Map::empty(), self.logs().drop_last()) == replay_logs(
                Map::empty(),
                old_logs.drop_last(),
            ));
            lemma_replay_recs_push(
                replay_logs(Map::empty(), old_logs.drop_last()),
                self.current_file,
                old_rs,
                cv,
            );
            assert(encode_all(old_rs).len() == pos as int);
            assert(self.entries() == old(self).entries().insert(kview, new_entry));
        }
        if let Command::Put { key, value: _ } = cmd {
            let cp = CommandPos { file_id: self.current_file, pos, len: self.writer.pos - pos };
            proof {
                assert(cp.len == tlen as u64);
            }
            let d = index_insert(&mut self.index, key, cp);
            match d {
                Option::Some(old_cp) => {
                    self.uncompacted = stale_add(self.uncompacted, old_cp.len);
                    proof {
                        let i = choose|i: int|
                            {
                                &&& 0 <= i < old(self).index@.len()
                                &&& (#[trigger] old(self).index@[i]).0@ == kview
                                &&& old_cp == old(self).index@[i].1
                                &&& self.index@.len() == old(self).index@.len()
                                &&& self.index@[i].0@ == kview
                                &&& self.index@[i].1 == cp
                                &&& forall|j: int|
                                    0 <= j < old(self).index@.len() && j != i ==> self.index@[j]
                                        == old(self).index@[j]
                            };
                        assert(old(self)@.contains_key(kview));
                        assert(old_cp.len as int == old(self).entry_len(kview));
                        assert(self.index@ =~= old(self).index@.update(i, (self.index@[i].0, cp)));
                        lemma_sum_update(old(self).index@, i, (self.index@[i].0, cp));
                        assert forall|k2: Seq<char>| #[trigger] self.entries().contains_key(k2)
                            implies exists|jj: int|
                            0 <= jj < self.index@.len() && (#[trigger] self.index@[jj]).0@
                                == k2 by {
                            if k2 == kview {
                                assert(self.index@[i].0@ == k2);
                            } else {
                                let j0 = choose|j0: int|
                                    0 <= j0 < old(self).index@.len() && (#[trigger] old(
                                        self,
                                    ).index@[j0]).0@ == k2;
                                assert(j0 != i);
                                assert(self.index@[j0].0@ == k2);
                            }
                        }
                        assert(index_matches(self.index@, self.entries()));
                    }
                }
                Option::None => {
                    proof {
                        if old(self)@.contains_key(kview) {
                            let j0 = choose|j0: int|
                                0 <= j0 < old(self).index@.len() && (#[trigger] old(
                                    self,
                                ).index@[j0]).0@ == kview;
                            assert(false);
                        }
                        lemma_sum_push(old(self).index@, (self.index@[old(self).index@.len() as int].0, cp));
                        assert(self.index@ =~= old(self).index@.push(
                            (self.index@[old(self).index@.len() as int].0, cp),
                        ));
                        assert forall|k2: Seq<char>| #[trigger] self.entries().contains_key(k2)
                            implies exists|jj: int|
                            0 <= jj < self.index@.len() && (#[trigger] self.index@[jj]).0@
                                == k2 by {
                            if k2 == kview {
                                assert(self.index@[old(self).index@.len() as int].0@ == k2);
                            } else {
                                let j0 = choose|j0: int|
                                    0 <= j0 < old(self).index@.len() && (#[trigger] old(
                                        self,
                                    ).index@[j0]).0@ == k2;
                                assert(self.index@[j0].0@ == k2);
                            }
                        }
                        assert(index_matches(self.index@, self.entries()));
                    }
                }
            }
        }
        proof {
            assert(self@ =~= old(self)@.insert(kview, vview));
            assert(self.wf());
        }
        if self.uncompacted > COMPACTION_THRESHOLD {
            let ghost mid = *self;
            let cr = self.compact();
            proof {
                assert(mid.generation() == old(self).generation());
                assert(mid.live_size() == old(self).live_size() - (
                    if old(self)@.contains_key(kview) {
                        old(self).entry_len(kview)
                    } else {
                        0
                    }
                ) + encode(cv).len() as int);
            }
            match cr {
                Ok(()) => {}
                Err(e2) => {
                    return Err(e2);
                }
            }
            proof {
                assert(self.file_gens() =~= self.file_gens());
            }
        } else {
            proof {
                assert(self.file_gens() =~= old(self).file_gens());
            }
        }
        Ok(())
    }
}

/// Concatenating record sequences concatenates their written forms.
proof fn lemma_encode_all_cat(a: Seq<CommandView>, b: Seq<CommandView>)
    ensures
        encode_all(a + b) == encode_all(a) + encode_all(b),
    decreases b.len(),
{
    if b.len() == 0 {
        assert(a + b =~= a);
        assert(encode_all(a) + encode_all(b) =~= encode_all(a));
    } else {
        assert((a + b).drop_last() =~= a + b.drop_last());
        assert((a + b).last() == b.last());
        lemma_encode_all_cat(a, b.drop_last());
        assert(encode_all(a + b) == (encode_all(a) + encode_all(b.drop_last())) + encode(b.last()));
        assert((encode_all(a) + encode_all(b.drop_last())) + encode(b.last()) =~= encode_all(a) + (
        encode_all(b.drop_last()) + encode(b.last())));
    }
}

/// A record stream written at the front of a longer stream is its
/// record-for-record prefix.
#[verifier::rlimit(60)]
#[verifier::spinoff_prover]
proof fn lemma_stream_prefix(rs0: Seq<CommandView>, rs: Seq<CommandView>, t: Seq<char>)
    requires
        encode_all(rs0) + t == encode_all(rs),
    ensures
        rs0.len() <= rs.len(),
        rs0 == rs.take(rs0.len() as int),
        t == encode_all(rs.skip(rs0.len() as int)),
    decreases rs0.len(),
{
    if rs0.len() == 0 {
        assert(rs.take(0) =~= rs0);
        assert(rs.skip(0) =~= rs);
        assert(t =~= (encode_all(rs0) + t).skip(0));
    } else {
        lemma_encode_all_first(rs0);
        if rs.len() == 0 {
            assert(encode_all(rs).len() == 0);
            assert(encode(rs0[0]).len() > 0);
            assert(false);
        }
        lemma_encode_all_first(rs);
        assert(encode_all(rs0) + t =~= encode(rs0[0]) + (encode_all(rs0.skip(1)) + t));
        lemma_encode_unambiguous(rs0[0], rs[0], encode_all(rs0.skip(1)) + t, encode_all(rs.skip(1)));
        lemma_stream_prefix(rs0.skip(1), rs.skip(1), t);
        assert(rs.take(rs0.len() as int) =~= seq![rs[0]] + rs.skip(1).take(rs0.len() - 1));
        assert(rs0 =~= seq![rs0[0]] + rs0.skip(1));
        assert(rs.skip(1).skip(rs0.len() - 1) =~= rs.skip(rs0.len() as int));
    }
}

/// Replay one log file into the index, accounting stale characters.
///
/// The reader is rewound and read to its end; each decoded record is
/// applied to the index in order. A decode failure means the file is not
/// a record stream at all: the log is corrupt.
#[verifier::rlimit(100)]
#[verifier::spinoff_prover]
#[verifier::loop_isolation(false)]
fn load(
    file_id: u64,
    reader: &mut BufReaderWithPos,
    ix: &mut Vec<(String, CommandPos)>,
    Ghost(m): Ghost<Map<Seq<char>, EntryV>>,
) -> (r: Result<u64, KvsError>)
    requires
        index_matches(old(ix)@, m),
    ensures
        final(reader).content@ == old(reader).content@,
        (match r {
            Ok(u) => {
                &&& decodable(old(reader).content@)
                &&& index_matches(
                    final(ix)@,
                    replay_recs(m, file_id, records_of(old(reader).content@)),
                )
                &&& u as int == cap_u64(
                    replay_stale(m, file_id, records_of(old(reader).content@)),
                )
            },
            Err(e) => e == KvsError::Serialization && !decodable(old(reader).content@),
        }),
{
    reader.seek(0);
    let text = reader.read_to_end();
    proof {
        assert(text@ =~= old(reader).content@);
    }
    let n = text.as_str().unicode_len();
    let mut pos: usize = 0;
    let ghost rs: Seq<CommandView> = Seq::empty();
    let mut stale: u64 = 0;
    proof {
        assert(text@.take(0) =~= encode_all(rs));
    }
    while pos < n
        invariant
            n == text@.len(),
            pos <= n,
            text@.take(pos as int) == encode_all(rs),
            pos as int == encode_all(rs).len(),
            index_matches(ix@, replay_recs(m, file_id, rs)),
            stale as int == cap_u64(replay_stale(m, file_id, rs)),
            replay_stale(m, file_id, rs) >= 0,
        decreases n - pos,
    {
        match decode_command(text.as_str(), pos) {
            Err(_) => {
                proof {
                    if decodable(text@) {
                        let rr = choose|rr: Seq<CommandView>| text@ == encode_all(rr);
                        assert(text@ =~= text@.take(pos as int) + text@.skip(pos as int));
                        lemma_stream_prefix(rs, rr, text@.skip(pos as int));
                        let tail = rr.skip(rs.len() as int);
                        assert(text@.skip(pos as int) == encode_all(tail));
                        assert(tail.len() > 0) by {
                            if tail.len() == 0 {
                                assert(encode_all(tail).len() == 0);
                                assert(text@.skip(pos as int).len() == n - pos);
                                assert(false);
                            }
                        }
                        lemma_encode_all_first(tail);
                        assert(text@.skip(pos as int) == record_stream(
                            tail[0],
                            encode_all(tail.skip(1)),
                        ));
                        assert(false);
                    }
                }
                return Err(KvsError::Serialization);
            }
            Ok((cmd, used)) => {
                let ghost cv = cmd@;
                let ghost mcur = replay_recs(m, file_id, rs);
                proof {
                    lemma_encode_all_push(rs, cv);
                    lemma_replay_recs_push(m, file_id, rs, cv);
                    assert(text@.take(pos + used) =~= text@.take(pos as int) + text@.subrange(
                        pos as int,
                        pos + used,
                    ));
                }
                match cmd {
                    Command::Put { key, value: _ } => {
                        let ghost kview = key@;
                        let cp = CommandPos { file_id, pos: pos as u64, len: used as u64 };
                        let ghost ix_before = ix@;
                        let d = index_insert(ix, key, cp);
                        proof {
                            let mnext = replay_recs(m, file_id, rs.push(cv));
                            match d {
                                Option::Some(old_cp) => {
                                    let i = choose|i: int|
                                        {
                                            &&& 0 <= i < ix_before.len()
                                            &&& (#[trigger] ix_before[i]).0@ == kview
                                            &&& old_cp == ix_before[i].1
                                            &&& ix@.len() == ix_before.len()
                                            &&& ix@[i].0@ == kview
                                            &&& ix@[i].1 == cp
                                            &&& forall|j: int|
                                                0 <= j < ix_before.len() && j != i ==> ix@[j]
                                                    == ix_before[j]
                                        };
                                    assert forall|k2: Seq<char>| #[trigger] mnext.contains_key(k2)
                                        implies exists|jj: int|
                                        0 <= jj < ix@.len() && (#[trigger] ix@[jj]).0@ == k2 by {
                                        if k2 == kview {
                                            assert(ix@[i].0@ == k2);
                                        } else {
                                            let j0 = choose|j0: int|
                                                0 <= j0 < ix_before.len() && (#[trigger] ix_before[j0]).0@
                                                    == k2;
                                            assert(j0 != i);
                                            assert(ix@[j0].0@ == k2);
                                        }
                                    }
                                    assert(index_matches(ix@, mnext));
                                }
                                Option::None => {
                                    assert forall|k2: Seq<char>| #[trigger] mnext.contains_key(k2)
                                        implies exists|jj: int|
                                        0 <= jj < ix@.len() && (#[trigger] ix@[jj]).0@ == k2 by {
                                        if k2 == kview {
                                            assert(ix@[ix_before.len() as int].0@ == k2);
                                        } else {
                                            let j0 = choose|j0: int|
                                                0 <= j0 < ix_before.len() && (#[trigger] ix_before[j0]).0@
                                                    == k2;
                                            assert(ix@[j0].0@ == k2);
                                        }
                                    }
                                    assert(index_matches(ix@, mnext));
                                }
                            }
                        }
                        match d {
                            Option::Some(old_cp) => {
                                stale = stale_add(stale, old_cp.len);
                                proof {
                                    let i = choose|i: int|
                                        0 <= i < ix_before.len() && (#[trigger] ix_before[i]).0@
                                            == kview && old_cp == ix_before[i].1;
                                    assert(mcur.contains_key(kview) && mcur[kview].len
                                        == old_cp.len as int);
                                    lemma_replay_stale_push(m, file_id, rs, cv);
                                    lemma_sat_cap(replay_stale(m, file_id, rs), old_cp.len as int);
                                    assert(stale as int == cap_u64(
                                        replay_stale(m, file_id, rs.push(cv)),
                                    ));
                                }
                            }
                            Option::None => {
                                proof {
                                    assert(!mcur.contains_key(kview)) by {
                                        if mcur.contains_key(kview) {
                                            let j0 = choose|j0: int|
                                                0 <= j0 < ix_before.len() && (#[trigger] ix_before[j0]).0@
                                                    == kview;
                                            assert(false);
                                        }
                                    }
                                    lemma_replay_stale_push(m, file_id, rs, cv);
                                    assert(stale as int == cap_u64(
                                        replay_stale(m, file_id, rs.push(cv)),
                                    ));
                                }
                            }
                        }
                    }
                    Command::Remove { key } => {
                        let ghost kview = key@;
                        let ghost ix_before = ix@;
                        let d = index_remove(ix, &key);
                        proof {
                            let mnext = replay_recs(m, file_id, rs.push(cv));
                            match d {
                                Option::Some(old_cp) => {
                                    let i = choose|i: int|
                                        {
                                            &&& 0 <= i < ix_before.len()
                                            &&& (#[trigger] ix_before[i]).0@ == kview
                                            &&& old_cp == ix_before[i].1
                                            &&& ix@ == ix_before.remove(i)
                                        };
                                    assert forall|k2: Seq<char>| #[trigger] mnext.contains_key(k2)
                                        implies exists|jj: int|
                                        0 <= jj < ix@.len() && (#[trigger] ix@[jj]).0@ == k2 by {
                                        let j0 = choose|j0: int|
                                            0 <= j0 < ix_before.len() && (#[trigger] ix_before[j0]).0@
                                                == k2;
                                        if j0 < i {
                                            assert(ix@[j0].0@ == k2);
                                        } else {
                                            assert(j0 != i);
                                            assert(ix@[j0 - 1].0@ == k2);
                                        }
                                    }
                                    assert(index_matches(ix@, mnext));
                                }
                                Option::None => {
                                    // removing an absent key leaves the replay unchanged
                                    assert(!replay_recs(m, file_id, rs).contains_key(kview)) by {
                                        if replay_recs(m, file_id, rs).contains_key(kview) {
                                            let j0 = choose|j0: int|
                                                0 <= j0 < ix_before.len() && (#[trigger] ix_before[j0]).0@
                                                    == kview;
                                            assert(false);
                                        }
                                    }
                                    assert(mnext =~= replay_recs(m, file_id, rs));
                                    assert(index_matches(ix@, mnext));
                                }
                            }
                        }
                        proof {
                            assert(used as int == encode(cv).len());
                        }
                        match d {
                            Option::Some(old_cp) => {
                                stale = stale_add(stale, old_cp.len);
                                stale = stale_add(stale, used as u64);
                                proof {
                                    let i = choose|i: int|
                                        0 <= i < ix_before.len() && (#[trigger] ix_before[i]).0@
                                            == kview && old_cp == ix_before[i].1;
                                    assert(mcur.contains_key(kview) && mcur[kview].len
                                        == old_cp.len as int);
                                    lemma_replay_stale_push(m, file_id, rs, cv);
                                    lemma_sat_cap(replay_stale(m, file_id, rs), old_cp.len as int);
                                    lemma_sat_cap(
                                        replay_stale(m, file_id, rs) + old_cp.len as int,
                                        used as int,
                                    );
                                    assert(stale as int == cap_u64(
                                        replay_stale(m, file_id, rs.push(cv)),
                                    ));
                                }
                            }
                            Option::None => {
                                stale = stale_add(stale, used as u64);
                                proof {
                                    assert(!mcur.contains_key(kview)) by {
                                        if mcur.contains_key(kview) {
                                            let j0 = choose|j0: int|
                                                0 <= j0 < ix_before.len() && (#[trigger] ix_before[j0]).0@
                                                    == kview;
                                            assert(false);
                                        }
                                    }
                                    lemma_replay_stale_push(m, file_id, rs, cv);
                                    lemma_sat_cap(replay_stale(m, file_id, rs), used as int);
                                    assert(stale as int == cap_u64(
                                        replay_stale(m, file_id, rs.push(cv)),
                                    ));
                                }
                            }
                        }
                    }
                }
                proof {
                    rs = rs.push(cv);
                }
                pos = pos + used;
            }
        }
    }
    proof {
        assert(text@.take(n as int) =~= text@);
        assert(decodable(text@));
        lemma_encode_all_injective(rs, records_of(text@));
    }
    Ok(stale)
}

/// The generation the writer takes after opening over these files.
pub open spec fn next_gen(files: Seq<(u64, String)>) -> u64 {
    if files.len() == 0 {
        1u64
    } else {
        (files.last().0 + 1) as u64
    }
}

/// The log that opening over these files recovers: each file's records,
/// and an empty file for the fresh write generation.
pub open spec fn opened_logs(files: Seq<(u64, String)>) -> Seq<(u64, Seq<CommandView>)> {
    Seq::new(
        files.len() + 1,
        |i: int|
            if i < files.len() {
                (files[i].0, records_of(files[i].1@))
            } else {
                (next_gen(files), Seq::<CommandView>::empty())
            },
    )
}

impl KvStore {
    /// Recover a store from its log files, given ascending by generation.
    ///
    /// Every file is replayed from its start, in order; the writer then
    /// starts a fresh generation, one past the last. Fails when a file is
    /// not a record stream, or when no fresh generation number is left.
    #[verifier::rlimit(100)]
    #[verifier::spinoff_prover]
    #[verifier::loop_isolation(false)]
    pub fn open(files: Vec<(u64, String)>) -> (r: Result<KvStore, KvsError>)
        requires
            forall|i: int, j: int| 0 <= i < j < files@.len() ==> files@[i].0 < files@[j].0,
        ensures
            (r is Ok <==> (forall|i: int| 0 <= i < files@.len() ==> decodable(
                (#[trigger] files@[i]).1@,
            )) && (files@.len() > 0 ==> files@.last().0 < u64::MAX)),
            (r == Err::<KvStore, KvsError>(KvsError::Serialization) <==> exists|i: int|
                0 <= i < files@.len() && !decodable((#[trigger] files@[i]).1@)),
            (r == Err::<KvStore, KvsError>(KvsError::Io) <==> (forall|i: int|
                0 <= i < files@.len() ==> decodable((#[trigger] files@[i]).1@)) && files@.len() > 0
                && files@.last().0 == u64::MAX),
            (match r {
                Ok(store) => {
                    &&& store.wf()
                    &&& store.logs() == opened_logs(files@)
                    &&& store.generation() == next_gen(files@)
                    &&& store@ == kv_of(opened_logs(files@))
                    &&& store.writer_pos() == 0
                    &&& store.stale_bytes() as int == cap_u64(
                        replay_stale_logs(opened_logs(files@)),
                    )
                    &&& files@.len() == 0 ==> store@ == Map::<Seq<char>, Seq<char>>::empty()
                        && store.stale_bytes() == 0
                },
                Err(e) => e == KvsError::Serialization || e == KvsError::Io,
            }),
    {
        let mut readers: Vec<(u64, BufReaderWithPos)> = Vec::new();
        let mut ix: Vec<(String, CommandPos)> = Vec::new();
        let mut uncompacted: u64 = 0;
        let ghost m: Map<Seq<char>, EntryV> = Map::empty();
        let ghost hist: Seq<Seq<CommandView>> = Seq::empty();
        let mut fi: usize = 0;
        while fi < files.len()
            invariant
                fi <= files@.len(),
                readers@.len() == fi,
                hist.len() == fi,
                forall|j: int| 0 <= j < fi ==> (#[trigger] readers@[j]).0 == files@[j].0,
                forall|j: int|
                    0 <= j < fi ==> (#[trigger] readers@[j]).1.content@ == files@[j].1@,
                forall|j: int| 0 <= j < fi ==> #[trigger] hist[j] == records_of(files@[j].1@),
                forall|j: int|
                    0 <= j < fi ==> (#[trigger] readers@[j]).1.content@ == encode_all(hist[j]),
                forall|j: int| 0 <= j < fi ==> decodable((#[trigger] files@[j]).1@),
                m == replay_logs(
                    Map::empty(),
                    Seq::new(fi as nat, |i: int| (files@[i].0, records_of(files@[i].1@))),
                ),
                index_matches(ix@, m),
                forall|k: Seq<char>| #[trigger] m.contains_key(k) ==> m[k].len >= 0,
                uncompacted as int == cap_u64(replay_stale_logs(
                    Seq::new(fi as nat, |i: int| (files@[i].0, records_of(files@[i].1@))),
                )),
                replay_stale_logs(
                    Seq::new(fi as nat, |i: int| (files@[i].0, records_of(files@[i].1@))),
                ) >= 0,
            decreases files@.len() - fi,
        {
            let gen = files[fi].0;
            let mut reader = BufReaderWithPos::new(files[fi].1.clone());
            let ghost logs_so_far = Seq::new(
                fi as nat,
                |i: int| (files@[i].0, records_of(files@[i].1@)),
            );
            match load(gen, &mut reader, &mut ix, Ghost(m)) {
                Ok(u) => {
                    uncompacted = stale_add(uncompacted, u);
                }
                Err(e) => {
                    return Err(e);
                }
            }
            proof {
                let rrs = records_of(files@[fi as int].1@);
                assert(files@[fi as int].1@ == encode_all(rrs));
                let m_prev = m;
                lemma_replay_recs_nonneg(m_prev, gen, rrs);
                lemma_replay_stale_nonneg(m_prev, gen, rrs);
                m = replay_recs(m, gen, rrs);
                hist = hist.push(rrs);
                let logs_next = Seq::new(
                    (fi + 1) as nat,
                    |i: int| (files@[i].0, records_of(files@[i].1@)),
                );
                assert(logs_next.drop_last() =~= logs_so_far);
                assert(logs_next.last() == (files@[fi as int].0, rrs));
                assert(m == replay_logs(Map::empty(), logs_next));
                assert(replay_stale_logs(logs_next) == replay_stale_logs(logs_so_far)
                    + replay_stale(m_prev, gen, rrs));
                lemma_sat_cap(replay_stale_logs(logs_so_far), replay_stale(m_prev, gen, rrs));
                assert(uncompacted as int == cap_u64(replay_stale_logs(logs_next)));
            }
            readers.push((gen, reader));
            fi = fi + 1;
        }
        let current_file: u64;
        if readers.len() == 0 {
            current_file = 1;
        } else {
            let lastgen = readers[readers.len() - 1].0;
            if lastgen == u64::MAX {
                return Err(KvsError::Io);
            }
            current_file = lastgen + 1;
        }
        let writer = BufWriterWithPos::new();
        let ghost hist_full = hist.push(Seq::<CommandView>::empty());
        let store = KvStore {
            readers,
            writer,
            current_file,
            index: ix,
            uncompacted,
            hist: Ghost(hist_full),
        };
        proof {
            assert(store.logs() =~= opened_logs(files@));
            assert(store.logs().drop_last() =~= Seq::new(
                files@.len(),
                |i: int| (files@[i].0, records_of(files@[i].1@)),
            ));
            assert(store.entries() == m);
            assert forall|j: int| 0 <= j < files@.len() implies (#[trigger] files@[j]).0
                < current_file by {
                if j < files@.len() - 1 {
                    assert(files@[j].0 < files@[files@.len() - 1].0);
                }
            }
            assert(store.wf());
            assert(store@ =~= kv_of(opened_logs(files@)));
            assert(store.writer_pos() == 0);
            let mapped = Seq::new(
                files@.len(),
                |i: int| (files@[i].0, records_of(files@[i].1@)),
            );
            let opened = opened_logs(files@);
            assert(opened.drop_last() =~= mapped);
            assert(opened.last().1 == Seq::<CommandView>::empty());
            assert(replay_stale(replay(mapped), opened.last().0, opened.last().1) == 0);
            assert(replay_stale_logs(opened) == replay_stale_logs(mapped));
            assert(store.stale_bytes() as int == cap_u64(replay_stale_logs(opened)));
            if files@.len() == 0 {
                assert(store@ =~= Map::<Seq<char>, Seq<char>>::empty());
                assert(store.stale_bytes() == 0);
            }
        }
        Ok(store)
    }
}

/// Apply a sequence of operations to a plain mapping: each `Put` inserts,
/// each `Remove` deletes.
pub open spec fn apply_ops(
    m: Map<Seq<char>, Seq<char>>,
    ops: Seq<CommandView>,
) -> Map<Seq<char>, Seq<char>>
    decreases ops.len(),
{
    if ops.len() == 0 {
        m
    } else {
        let prev = apply_ops(m, ops.drop_last());
        match ops.last() {
            CommandView::Put { key, value } => prev.insert(key, value),
            CommandView::Remove { key } => prev.remove(key),
        }
    }
}

/// The value of the latest `Put` for `k` in `ops` that no later `Remove`
/// of `k` supersedes, if there is one.
pub open spec fn latest_value(ops: Seq<CommandView>, k: Seq<char>) -> Option<Seq<char>>
    decreases ops.len(),
{
    if ops.len() == 0 {
        Option::None
    } else {
        match ops.last() {
            CommandView::Put { key, value } => if key == k {
                Option::Some(value)
            } else {
                latest_value(ops.drop_last(), k)
            },
            CommandView::Remove { key } => if key == k {
                Option::None
            } else {
                latest_value(ops.drop_last(), k)
            },
        }
    }
}

/// Reads see writes: after any sequence of operations on a fresh store's
/// mapping, a key holds the value of its latest `Put` with no later
/// `Remove`, and is absent otherwise. Together with the contracts of
/// `set`, `remove` and `get` — which update and read the mapping exactly
/// this way — this pins down what any read returns after any history.
pub proof fn lemma_read_your_writes(ops: Seq<CommandView>, k: Seq<char>)
    ensures
        (match latest_value(ops, k) {
            Option::Some(v) => apply_ops(Map::empty(), ops).contains_key(k) && apply_ops(
                Map::empty(),
                ops,
            )[k] == v,
            Option::None => !apply_ops(Map::empty(), ops).contains_key(k),
        }),
    decreases ops.len(),
{
    if ops.len() == 0 {
    } else {
        lemma_read_your_writes(ops.drop_last(), k);
    }
}


/// The sequential heart of serving many writers: when every operation is
/// a `Put` and no two touch the same key, every key afterwards reads
/// back exactly the value its own `Put` assigned, whatever the order the
/// operations ran in was.
pub proof fn lemma_distinct_puts_all_read_back(ops: Seq<CommandView>, j: int)
    requires
        forall|i: int| 0 <= i < ops.len() ==> (#[trigger] ops[i]) is Put,
        forall|i1: int, i2: int| 0 <= i1 < i2 < ops.len() ==> put_key(ops[i1]) != put_key(ops[i2]),
        0 <= j < ops.len(),
    ensures
        apply_ops(Map::empty(), ops).contains_key(put_key(ops[j])),
        apply_ops(Map::empty(), ops)[put_key(ops[j])] == put_value(ops[j]),
    decreases ops.len(),
{
    let last = ops.len() - 1;
    assert(ops[last] is Put);
    if j == last {
    } else {
        assert(ops.drop_last()[j] == ops[j]);
        lemma_distinct_puts_all_read_back(ops.drop_last(), j);
        assert(put_key(ops[j]) != put_key(ops[last]));
    }
}

/// Writes to one key leave every other key alone.
pub proof fn lemma_distinct_keys_independent(
    m: Map<Seq<char>, Seq<char>>,
    k1: Seq<char>,
    v: Seq<char>,
    k2: Seq<char>,
)
    requires
        k1 != k2,
    ensures
        m.insert(k1, v).contains_key(k2) == m.contains_key(k2),
        m.contains_key(k2) ==> m.insert(k1, v)[k2] == m[k2],
{
}

impl KvStore {
    /// The store's log files as they stand: each generation with its
    /// full flushed contents, ascending, the current generation last.
    ///
    /// Handing these to [`KvStore::open`] recovers the same mapping; see
    /// [`lemma_recovery_exact`].
    pub fn log_files(&self) -> (r: Vec<(u64, String)>)
        requires
            self.wf(),
        ensures
            r@.len() == self.logs().len(),
            r@.len() > 0 && r@[r@.len() - 1].0 == self.generation(),
            forall|i: int|
                0 <= i < r@.len() ==> (#[trigger] r@[i]).0 == self.logs()[i].0 && r@[i].1@
                    == encode_all(self.logs()[i].1),
            forall|i: int, j: int| 0 <= i < j < r@.len() ==> r@[i].0 < r@[j].0,
    {
        let mut out: Vec<(u64, String)> = Vec::new();
        let mut i: usize = 0;
        let n = self.readers.len();
        while i < n
            invariant
                self.wf(),
                n == self.readers@.len(),
                i <= n,
                out@.len() == i,
                forall|j: int|
                    0 <= j < i ==> (#[trigger] out@[j]).0 == self.logs()[j].0 && out@[j].1@
                        == encode_all(self.logs()[j].1),
            decreases n - i,
        {
            out.push((self.readers[i].0, self.readers[i].1.content.clone()));
            i = i + 1;
        }
        out.push((self.current_file, self.writer.flushed.clone()));
        proof {
            assert forall|i2: int, j2: int| 0 <= i2 < j2 < out@.len() implies out@[i2].0
                < out@[j2].0 by {
                if j2 < out@.len() - 1 {
                    assert(self.readers@[i2].0 < self.readers@[j2].0);
                } else {
                    assert(self.readers@[i2].0 < self.current_file);
                }
            }
        }
        out
    }
}

/// Recovery is exact: files carrying precisely a store's log replay to
/// precisely that store's mapping. This is what makes a close and reopen
/// preserve every acknowledged write.
pub proof fn lemma_recovery_exact(s: KvStore, files: Seq<(u64, String)>)
    requires
        s.wf(),
        files.len() == s.logs().len(),
        forall|i: int|
            0 <= i < files.len() ==> (#[trigger] files[i]).0 == s.logs()[i].0 && files[i].1@
                == encode_all(s.logs()[i].1),
    ensures
        forall|i: int| 0 <= i < files.len() ==> decodable((#[trigger] files[i]).1@),
        kv_of(opened_logs(files)) == s@,
{
    assert forall|i: int| 0 <= i < files.len() implies decodable((#[trigger] files[i]).1@) by {
        assert(files[i].1@ == encode_all(s.logs()[i].1));
    }
    assert forall|i: int| 0 <= i < files.len() implies records_of((#[trigger] files[i]).1@)
        == s.logs()[i].1 by {
        lemma_encode_all_injective(records_of(files[i].1@), s.logs()[i].1);
    }
    let ol = opened_logs(files);
    assert(ol.drop_last() =~= s.logs());
    assert(ol.last().1 == Seq::<CommandView>::empty());
    assert(replay(ol) == replay_recs(replay_logs(Map::empty(), ol.drop_last()), ol.last().0, ol.last().1));
    assert(replay(ol) == replay(s.logs()));
    assert(kv_of(ol) =~= s@);
}

/// A decimal digit.
pub open spec fn is_digit(c: char) -> bool {
    0x30 <= (c as u32) <= 0x39
}

/// The number a string of decimal digits names.
pub open spec fn digits_val(s: Seq<char>) -> int
    decreases s.len(),
{
    if s.len() == 0 {
        0
    } else {
        digits_val(s.drop_last()) * 10 + ((s.last() as u32) as int - 0x30)
    }
}

/// The extension that log files carry.
pub open spec fn log_suffix() -> Seq<char> {
    seq!['.', 'l', 'o', 'g']
}

/// The generation a file name denotes: `<digits>.log` with at least one
/// digit and a value that fits `u64`; anything else is not a log file.
pub open spec fn parse_gen(s: Seq<char>) -> Option<u64> {
    if s.len() >= 5 && s.skip(s.len() - 4) == log_suffix() && (forall|i: int|
        0 <= i < s.len() - 4 ==> is_digit(#[trigger] s[i])) && digits_val(s.take(s.len() - 4))
        <= u64::MAX as int {
        Option::Some(digits_val(s.take(s.len() - 4)) as u64)
    } else {
        Option::None
    }
}

/// The generations named by a list of file names, in the list's order.
pub open spec fn gen_list(names: Seq<String>) -> Seq<u64>
    decreases names.len(),
{
    if names.len() == 0 {
        Seq::empty()
    } else {
        let rest = gen_list(names.drop_last());
        match parse_gen(names.last()@) {
            Option::Some(g) => rest.push(g),
            Option::None => rest,
        }
    }
}

/// A longer digit string names at least as large a number.
proof fn lemma_digits_val_mono(s: Seq<char>, j: int)
    requires
        0 <= j <= s.len(),
        forall|i: int| 0 <= i < s.len() ==> is_digit(#[trigger] s[i]),
    ensures
        0 <= digits_val(s.take(j)),
        digits_val(s.take(j)) <= digits_val(s),
    decreases s.len() - j, s.len(),
{
    if j == s.len() {
        assert(s.take(j) =~= s);
        if s.len() == 0 {
        } else {
            assert(s.drop_last() =~= s.take(s.len() - 1));
            lemma_digits_val_mono(s.drop_last(), s.len() - 1);
            assert(s.drop_last().take(s.len() - 1) =~= s.drop_last());
        }
    } else {
        lemma_digits_val_mono(s, j + 1);
        assert(s.take(j + 1).drop_last() =~= s.take(j));
        assert(s.take(j + 1).last() == s[j]);
        assert(digits_val(s.take(j + 1)) == digits_val(s.take(j)) * 10 + ((s[j] as u32) as int
            - 0x30));
    }
}

/// Read the generation a file name denotes, if it is a log file's name.
#[verifier::loop_isolation(false)]
pub fn parse_file_gen(name: &str) -> (r: Option<u64>)
    ensures
        r == parse_gen(name@),
{
    let n = name.unicode_len();
    proof {
        reveal_strlit(".log");
        assert(".log"@ =~= log_suffix());
    }
    if n < 5 {
        return None;
    }
    if !crate::codec::match_pattern(name, n, n - 4, ".log") {
        proof {
            assert(name@.skip(n - 4) =~= name@.subrange(n - 4, n as int));
        }
        return None;
    }
    proof {
        assert(name@.skip(n - 4) =~= name@.subrange(n - 4, n as int));
    }
    let digits = n - 4;
    let mut val: u64 = 0;
    let mut i: usize = 0;
    while i < digits
        invariant
            i <= digits,
            forall|j: int| 0 <= j < i ==> is_digit(#[trigger] name@[j]),
            val as int == digits_val(name@.take(i as int)),
        decreases digits - i,
    {
        let c = name.get_char(i);
        let u = c as u32;
        if !(0x30 <= u && u <= 0x39) {
            return None;
        }
        let d = (u - 0x30) as u64;
        proof {
            assert(name@.take(i + 1).drop_last() =~= name@.take(i as int));
            assert(name@.take(i + 1).last() == name@[i as int]);
        }
        let next = match val.checked_mul(10) {
            Some(v10) => v10.checked_add(d),
            None => None,
        };
        match next {
            Some(v) => {
                val = v;
            }
            None => {
                proof {
                    assert(digits_val(name@.take(i + 1)) > u64::MAX as int);
                    if parse_gen(name@) is Some {
                        lemma_digits_val_mono(name@.take(digits as int), i + 1);
                        assert(name@.take(digits as int).take(i + 1) =~= name@.take(i + 1));
                        assert(false);
                    }
                }
                return None;
            }
        }
        i = i + 1;
    }
    proof {
        if !(parse_gen(name@) == Option::Some(val)) {
            assert(digits_val(name@.take(digits as int)) == val as int);
            assert(false);
        }
    }
    Some(val)
}

/// Ten to the `k`.
pub open spec fn pow10(k: nat) -> int
    decreases k,
{
    if k == 0 {
        1
    } else {
        10 * pow10((k - 1) as nat)
    }
}

/// Prepending a digit raises its value by the right power of ten.
proof fn lemma_digits_prepend(d: char, s: Seq<char>)
    ensures
        digits_val(seq![d] + s) == ((d as u32) as int - 0x30) * pow10(s.len()) + digits_val(s),
    decreases s.len(),
{
    let t = seq![d] + s;
    if s.len() == 0 {
        assert(t =~= seq![d]);
        assert(t.drop_last() =~= Seq::<char>::empty());
        assert(digits_val(Seq::<char>::empty()) == 0);
        assert(t.last() == d);
        assert(digits_val(t) == (d as u32) as int - 0x30);
        assert(pow10(s.len()) == 1);
        assert(digits_val(s) == 0);
    } else {
        assert(t.drop_last() =~= seq![d] + s.drop_last());
        assert(t.last() == s.last());
        lemma_digits_prepend(d, s.drop_last());
        let a = (d as u32) as int - 0x30;
        let p = pow10(s.drop_last().len());
        let b = digits_val(s.drop_last());
        assert(pow10(s.len()) == 10 * p);
        assert((a * p + b) * 10 == a * (10 * p) + b * 10) by (nonlinear_arith);
    }
}

/// The canonical name of a generation's log file. Parsing gives the
/// generation back: the name round-trips.
#[verifier::loop_isolation(false)]
pub fn log_file_name(gen: u64) -> (r: String)
    ensures
        parse_gen(r@) == Some(gen),
{
    let mut digits: Vec<char> = Vec::new();
    if gen == 0 {
        digits.push('0');
        proof {
            assert(digits@ =~= seq!['0']);
            assert(digits@.drop_last() =~= Seq::<char>::empty());
            assert(digits_val(Seq::<char>::empty()) == 0);
            assert(digits@.last() == '0');
            assert(digits_val(digits@) == 0);
        }
    } else {
        let mut n = gen;
        while n > 0
            invariant
                gen as int == n as int * pow10(digits@.len()) + digits_val(digits@),
                forall|i: int| 0 <= i < digits@.len() ==> is_digit(#[trigger] digits@[i]),
                digits@.len() == 0 ==> n == gen,
            decreases n,
        {
            let d = (n % 10) as u8;
            let c = (0x30 + d) as char;
            let ghost prev = digits@;
            digits.insert(0, c);
            proof {
                assert(digits@ =~= seq![c] + prev);
                lemma_digits_prepend(c, prev);
                assert((c as u32) as int - 0x30 == d as int);
                let q = (n / 10) as int;
                let p = pow10(prev.len());
                assert(n as int == q * 10 + d as int);
                assert((q * 10 + d as int) * p == q * (10 * p) + (d as int) * p)
                    by (nonlinear_arith);
                assert(pow10(digits@.len()) == 10 * p);
                assert(gen as int == q * pow10(digits@.len()) + digits_val(digits@));
            }
            n = n / 10;
        }
        proof {
            assert(digits@.len() > 0);
            assert(gen as int == digits_val(digits@));
        }
    }
    let mut out = String::new();
    let mut i: usize = 0;
    proof {
        assert(out@ =~= digits@.take(0));
    }
    while i < digits.len()
        invariant
            i <= digits@.len(),
            out@ == digits@.take(i as int),
        decreases digits@.len() - i,
    {
        crate::codec::push_char(&mut out, digits[i]);
        proof {
            assert(digits@.take(i + 1) =~= digits@.take(i as int).push(digits@[i as int]));
        }
        i = i + 1;
    }
    proof {
        assert(digits@.take(digits@.len() as int) =~= digits@);
        reveal_strlit(".log");
        assert(".log"@ =~= log_suffix());
    }
    out.append(".log");
    proof {
        let t = out@;
        let dl = digits@.len() as int;
        assert(t =~= digits@ + log_suffix());
        assert(t.len() == dl + 4);
        assert(t.skip(dl) =~= log_suffix());
        assert(t.take(dl) =~= digits@);
        assert(digits_val(t.take(dl)) == gen as int);
        assert forall|j: int| 0 <= j < dl implies is_digit(#[trigger] t[j]) by {
            assert(t[j] == digits@[j]);
        }
        assert(parse_gen(t) == Some(gen));
    }
    out
}

/// Put one generation into a strictly ascending list, keeping it
/// strictly ascending: a generation already present is left alone.
#[verifier::loop_isolation(false)]
fn insert_sorted(out: &mut Vec<u64>, g: u64)
    requires
        forall|i: int, j: int| 0 <= i < j < old(out)@.len() ==> old(out)@[i] < old(out)@[j],
    ensures
        forall|i: int, j: int| 0 <= i < j < final(out)@.len() ==> final(out)@[i] < final(out)@[j],
        forall|x: u64| (#[trigger] final(out)@.contains(x)) <==> (old(out)@.contains(x) || x == g),
{
    let mut p: usize = 0;
    while p < out.len() && out[p] < g
        invariant
            p <= out@.len(),
            forall|i: int| 0 <= i < p ==> out@[i] < g,
            out@ == old(out)@,
        decreases out@.len() - p,
    {
        p = p + 1;
    }
    if p < out.len() && out[p] == g {
        proof {
            assert forall|x: u64| (#[trigger] out@.contains(x)) <==> (old(out)@.contains(x) || x
                == g) by {
                if x == g {
                    assert(out@[p as int] == g);
                    assert(out@.contains(g));
                }
            }
        }
        return;
    }
    proof {
        assert forall|j: int| p <= j < out@.len() implies out@[j] > g by {
            if j == p {
            } else {
                assert(out@[p as int] < out@[j]);
                assert(out@[p as int] > g || out@[p as int] == g || out@[p as int] < g);
            }
        }
    }
    let ghost prev = out@;
    out.insert(p, g);
    proof {
        assert(out@[p as int] == g);
        assert forall|x: u64| #[trigger] out@.contains(x) implies (prev.contains(x) || x == g) by {
            let j = choose|j: int| 0 <= j < out@.len() && out@[j] == x;
            if j < p {
                assert(prev[j] == x);
            } else if j > p {
                assert(prev[j - 1] == x);
            }
        }
        assert forall|x: u64| prev.contains(x) || x == g implies #[trigger] out@.contains(x) by {
            if x == g {
                assert(out@[p as int] == x);
            } else {
                let j = choose|j: int| 0 <= j < prev.len() && prev[j] == x;
                if j < p {
                    assert(out@[j] == x);
                } else {
                    assert(out@[j + 1] == x);
                }
            }
        }
    }
}

/// The generations of the log files among the given file names, strictly
/// ascending: each generation once, however many names denote it. Names
/// that are not `<N>.log` do not contribute.
#[verifier::loop_isolation(false)]
pub fn sorted_file_list(names: &Vec<String>) -> (r: Vec<u64>)
    ensures
        forall|i: int, j: int| 0 <= i < j < r@.len() ==> r@[i] < r@[j],
        forall|g: u64| (#[trigger] r@.contains(g)) <==> (#[trigger] gen_list(names@).contains(g)),
{
    let mut out: Vec<u64> = Vec::new();
    let mut i: usize = 0;
    proof {
        assert(gen_list(names@.take(0)) =~= Seq::<u64>::empty());
    }
    while i < names.len()
        invariant
            i <= names@.len(),
            forall|a: int, b: int| 0 <= a < b < out@.len() ==> out@[a] < out@[b],
            forall|g: u64| (#[trigger] out@.contains(g)) <==> (#[trigger] gen_list(
                names@.take(i as int),
            ).contains(g)),
        decreases names@.len() - i,
    {
        let ghost before = gen_list(names@.take(i as int));
        proof {
            assert(names@.take(i + 1).drop_last() =~= names@.take(i as int));
            assert(names@.take(i + 1).last() == names@[i as int]);
        }
        match parse_file_gen(names[i].as_str()) {
            Some(g) => {
                insert_sorted(&mut out, g);
                proof {
                    assert(gen_list(names@.take(i + 1)) == before.push(g));
                    assert forall|x: u64| (#[trigger] out@.contains(x)) <==> (
                    #[trigger] before.push(g).contains(x)) by {
                        if before.push(g).contains(x) {
                            let j = choose|j: int|
                                0 <= j < before.push(g).len() && before.push(g)[j] == x;
                            if j < before.len() {
                                assert(before[j] == x);
                            }
                        }
                        if before.contains(x) {
                            let j = choose|j: int| 0 <= j < before.len() && before[j] == x;
                            assert(before.push(g)[j] == x);
                        }
                        if x == g {
                            assert(before.push(g)[before.len() as int] == x);
                        }
                    }
                }
            }
            None => {
                proof {
                    assert(gen_list(names@.take(i + 1)) == before);
                }
            }
        }
        i = i + 1;
    }
    proof {
        assert(names@.take(names@.len() as int) =~= names@);
    }
    out
}

} // verus!
