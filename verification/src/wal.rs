//! The write-ahead log: what is appended for a write, and what a log replays to.

use vstd::prelude::*;
use vstd::slice::slice_to_vec;

use crate::format::{
    OP_DELETE, OP_PUT, EntryView, a_changed_byte_is_detected, body_entry, body_value, crc32,
    decode_wal_record, encodable, encode_wal_record, four_bytes_are_little_endian, le_bytes,
    le_value, op_of, record_body, torn_wal_record_is_rejected, value_bytes, wal_record,
    wal_record_roundtrip, wal_span, wal_valid, wrong_checksum_is_rejected,
};
use crate::metrics::{EngineMetrics, MetricsView};
use crate::model::{all_encodable, lemma_total_size_concat, lemma_total_size_one, total_size};

verus! {

/// A write as the log records it.
#[derive(Debug)]
pub enum WalEntry {
    Put { key: Vec<u8>, value: Vec<u8> },
    Delete { key: Vec<u8> },
}

impl View for WalEntry {
    type V = EntryView;

    open spec fn view(&self) -> EntryView {
        match self {
            WalEntry::Put { key, value } => (key@, Some(value@)),
            WalEntry::Delete { key } => (key@, None),
        }
    }
}

impl Clone for WalEntry {
    fn clone(&self) -> (r: Self)
        ensures
            r@ == self@,
    {
        match self {
            WalEntry::Put { key, value } => WalEntry::Put {
                key: slice_to_vec(key.as_slice()),
                value: slice_to_vec(value.as_slice()),
            },
            WalEntry::Delete { key } => WalEntry::Delete { key: slice_to_vec(key.as_slice()) },
        }
    }
}

/// What a sequence of log entries says.
pub open spec fn writes_view(s: Seq<WalEntry>) -> Seq<EntryView> {
    Seq::new(s.len(), |i: int| s[i]@)
}

/// The log record of a write.
pub open spec fn write_record(e: EntryView) -> Seq<u8> {
    wal_record(e.0, value_bytes(e.1), op_of(e.1))
}

/// The log of the writes `ws`: their records one after the other.
pub open spec fn log_of(ws: Seq<EntryView>) -> Seq<u8>
    decreases ws.len(),
{
    if ws.len() == 0 {
        Seq::empty()
    } else {
        write_record(ws[0]) + log_of(ws.drop_first())
    }
}

/// What the log `raw` replays to: the writes of its records up to the first that is cut short or
/// corrupt, and the number of bytes that those records take.
pub open spec fn replayed(raw: Seq<u8>) -> (Seq<EntryView>, nat)
    decreases raw.len(),
{
    if raw.len() == 0 || !wal_valid(raw) {
        (Seq::empty(), 0)
    } else {
        let n = wal_span(raw)->0;
        let (entries, len) = replayed(raw.skip(n as int));
        (seq![body_entry(raw, 4)] + entries, n + len)
    }
}

// ---------------------------------------------------------------------------
// Laws of the log
// ---------------------------------------------------------------------------

/// Appending the record of a write extends the log by that write.
pub proof fn log_grows_by_append(ws: Seq<EntryView>, w: EntryView)
    ensures
        log_of(ws.push(w)) == log_of(ws) + write_record(w),
    decreases ws.len(),
{
    let all = ws.push(w);
    if ws.len() == 0 {
        assert(all.drop_first() =~= Seq::empty());
        assert(log_of(all.drop_first()) =~= Seq::empty());
        assert(log_of(all) =~= log_of(ws) + write_record(w));
    } else {
        assert(all.drop_first() =~= ws.drop_first().push(w));
        log_grows_by_append(ws.drop_first(), w);
        assert(log_of(all) =~= log_of(ws) + write_record(w));
    }
}

/// A log replays to the writes that it was made of, in order. A tail that does not hold a whole,
/// intact record is left out.
pub proof fn replay_gives_back_the_writes(ws: Seq<EntryView>, tail: Seq<u8>)
    requires
        all_encodable(ws),
        tail.len() == 0 || !wal_valid(tail),
    ensures
        replayed(log_of(ws) + tail) == (ws, log_of(ws).len()),
    decreases ws.len(),
{
    let raw = log_of(ws) + tail;
    if ws.len() == 0 {
        assert(raw =~= tail);
        assert(replayed(raw).0 =~= ws);
    } else {
        let w = ws[0];
        let rest = ws.drop_first();
        assert(all_encodable(rest)) by {
            assert forall|i: int| 0 <= i < rest.len() implies encodable(#[trigger] rest[i]) by {
                assert(rest[i] == ws[i + 1]);
            }
        }
        replay_gives_back_the_writes(rest, tail);
        let after = log_of(rest) + tail;
        wal_record_roundtrip(w.0, value_bytes(w.1), op_of(w.1), after);
        assert(raw =~= write_record(w) + after);
        assert(raw.skip(write_record(w).len() as int) =~= after);
        assert(body_entry(raw, 4) == w);
        assert(replayed(raw).0 =~= ws);
    }
}

/// A log whose last record was torn while it was written, at any byte, replays to exactly the writes
/// before it: every write that was completed survives, and nothing else appears.
pub proof fn torn_write_loses_only_itself(ws: Seq<EntryView>, w: EntryView, cut: int)
    requires
        all_encodable(ws),
        encodable(w),
        0 <= cut < write_record(w).len(),
    ensures
        replayed(log_of(ws) + write_record(w).take(cut)) == (ws, log_of(ws).len()),
{
    torn_wal_record_is_rejected(w.0, value_bytes(w.1), op_of(w.1), cut);
    replay_gives_back_the_writes(ws, write_record(w).take(cut));
}

/// A whole record whose stored checksum is not that of its payload ends the replay, however long it is
/// and whatever follows: the log replays to just the writes before it.
pub proof fn a_corrupt_record_ends_the_replay(
    ws: Seq<EntryView>,
    stored: Seq<u8>,
    key: Seq<u8>,
    value: Seq<u8>,
    op: u8,
    rest: Seq<u8>,
)
    requires
        all_encodable(ws),
        key.len() <= u32::MAX,
        value.len() <= u32::MAX,
        stored.len() == 4,
        le_value(stored) != crc32(record_body(key, value, op)),
    ensures
        replayed(log_of(ws) + (stored + record_body(key, value, op) + rest)) == (
            ws,
            log_of(ws).len(),
        ),
{
    wrong_checksum_is_rejected(stored, key, value, op, rest);
    replay_gives_back_the_writes(ws, stored + record_body(key, value, op) + rest);
}

/// A log in which one byte of a record has changed, other than in its length fields, replays to the
/// writes before that record, whatever follows it.
pub proof fn a_changed_byte_ends_the_replay(
    ws: Seq<EntryView>,
    w: EntryView,
    i: int,
    byte: u8,
    rest: Seq<u8>,
)
    requires
        all_encodable(ws),
        encodable(w),
        0 <= i < 4 || 12 <= i < write_record(w).len(),
        byte != write_record(w)[i],
    ensures
        replayed(log_of(ws) + (write_record(w).update(i, byte) + rest)) == (ws, log_of(ws).len()),
{
    wal_record_roundtrip(w.0, value_bytes(w.1), op_of(w.1), Seq::empty());
    a_changed_byte_is_detected(w.0, value_bytes(w.1), op_of(w.1), i, byte, rest);
    replay_gives_back_the_writes(ws, write_record(w).update(i, byte) + rest);
}

/// The record that is appended for a write: the checksum of the rest in four bytes, the lengths of key
/// and value, 0 for a put and 1 for a deletion, the key, and the value of a put.
pub proof fn the_record_of_a_write(key: Seq<u8>, value: Seq<u8>)
    requires
        key.len() <= u32::MAX,
        value.len() <= u32::MAX,
    ensures
        ({
            let put = le_bytes(key.len(), 4) + le_bytes(value.len(), 4) + seq![0u8] + key + value;
            let delete = le_bytes(key.len(), 4) + seq![0u8, 0u8, 0u8, 0u8, 1u8] + key;
            &&& write_record((key, Some(value))) == le_bytes(crc32(put) as nat, 4) + put
            &&& write_record((key, None)) == le_bytes(crc32(delete) as nat, 4) + delete
        }),
{
    let put = le_bytes(key.len(), 4) + le_bytes(value.len(), 4) + seq![0u8] + key + value;
    let delete = le_bytes(key.len(), 4) + seq![0u8, 0u8, 0u8, 0u8, 1u8] + key;
    let none = Seq::<u8>::empty();
    four_bytes_are_little_endian(0);
    assert(record_body(key, value, 0) =~= put);
    assert(record_body(key, none, 1) =~= delete);
}

/// Replay goes on as long as it can: it stops at the end of the log or at bytes that are no record.
pub proof fn replay_stops_only_at_a_bad_record(raw: Seq<u8>)
    ensures
        replayed(raw).1 <= raw.len(),
        replayed(raw).1 == raw.len() || !wal_valid(raw.skip(replayed(raw).1 as int)),
    decreases raw.len(),
{
    if raw.len() > 0 && wal_valid(raw) {
        let n = wal_span(raw)->0 as int;
        let rest = raw.skip(n);
        replay_stops_only_at_a_bad_record(rest);
        assert(rest.skip(replayed(rest).1 as int) =~= raw.skip(replayed(raw).1 as int));
    } else {
        assert(raw.skip(0) =~= raw);
    }
}

/// A valid record stays valid when bytes after it are cut off.
proof fn lemma_valid_in_prefix(raw: Seq<u8>, m: int)
    requires
        wal_valid(raw),
        wal_span(raw)->0 <= m <= raw.len(),
    ensures
        wal_valid(raw.take(m)),
        wal_span(raw.take(m)) == wal_span(raw),
        body_entry(raw.take(m), 4) == body_entry(raw, 4),
{
    let cut = raw.take(m);
    let n = wal_span(raw)->0;
    assert(cut.subrange(4, 8) =~= raw.subrange(4, 8));
    assert(cut.subrange(8, 12) =~= raw.subrange(8, 12));
    assert(cut.subrange(0, 4) =~= raw.subrange(0, 4));
    assert(cut.subrange(4, n as int) =~= raw.subrange(4, n as int));
    assert(body_entry(cut, 4).0 =~= body_entry(raw, 4).0);
    assert(body_value(cut, 4) =~= body_value(raw, 4));
}

/// Cutting a log to the length that replay accepted keeps what it replays to and leaves nothing to
/// cut.
pub proof fn truncated_log_replays_the_same(raw: Seq<u8>)
    ensures
        replayed(raw).1 <= raw.len(),
        replayed(raw.take(replayed(raw).1 as int)) == replayed(raw),
    decreases raw.len(),
{
    if raw.len() == 0 || !wal_valid(raw) {
        assert(raw.take(0).len() == 0);
    } else {
        let n = wal_span(raw)->0;
        let rest = raw.skip(n as int);
        truncated_log_replays_the_same(rest);
        let m = replayed(raw).1 as int;
        lemma_valid_in_prefix(raw, m);
        assert(raw.take(m).skip(n as int) =~= rest.take(m - n));
    }
}

/// The writes that a log replays to are no larger than the log.
pub proof fn replayed_writes_fit_the_log(raw: Seq<u8>)
    ensures
        total_size(replayed(raw).0) + replayed(raw).0.len() <= raw.len(),
    decreases raw.len(),
{
    if raw.len() > 0 && wal_valid(raw) {
        let n = wal_span(raw)->0;
        let rest = raw.skip(n as int);
        replayed_writes_fit_the_log(rest);
        lemma_total_size_concat(seq![body_entry(raw, 4)], replayed(rest).0);
        lemma_total_size_one(body_entry(raw, 4));
    }
}

// ---------------------------------------------------------------------------
// The log
// ---------------------------------------------------------------------------

/// What a replay of the log gives.
pub struct Replay {
    /// The writes, oldest first.
    pub entries: Vec<WalEntry>,
    /// The length of the part that was accepted. A longer file is to be cut to it.
    pub valid_len: usize,
}

/// The state of the log: its length as last seen on disk.
pub struct Wal {
    size: u64,
}

impl Wal {
    /// The length of the log as last seen.
    pub closed spec fn size(&self) -> u64 {
        self.size
    }

    /// A log whose file is `size` bytes long.
    pub fn open(size: u64, metrics: &mut EngineMetrics) -> (r: Self)
        ensures
            r.size() == size,
            final(metrics)@ == (MetricsView { wal_size_bytes: size, ..old(metrics)@ }),
    {
        let mut wal = Wal { size };
        wal.sync_size_to_metrics(size, metrics);
        wal
    }

    /// The record to append, and to force to disk, for a write of `value` under `key`.
    pub fn append_put(&self, key: &[u8], value: &[u8]) -> (r: Vec<u8>)
        ensures
            r@ == write_record((key@, Some(value@))),
    {
        encode_wal_record(key, value, OP_PUT)
    }

    /// The record to append, and to force to disk, for a deletion of `key`.
    pub fn append_delete(&self, key: &[u8]) -> (r: Vec<u8>)
        ensures
            r@ == write_record((key@, None)),
    {
        let nothing: Vec<u8> = Vec::new();
        assert(nothing@ =~= value_bytes(None));
        encode_wal_record(key, nothing.as_slice(), OP_DELETE)
    }

    /// The writes in the log `raw`, in order, up to the first record that is cut short or corrupt.
    pub fn replay(raw: &[u8]) -> (r: Replay)
        ensures
            writes_view(r.entries@) == replayed(raw@).0,
            r.valid_len == replayed(raw@).1,
            total_size(writes_view(r.entries@)) + r.entries@.len() <= raw@.len(),
    {
        let mut entries: Vec<WalEntry> = Vec::new();
        let mut cursor: usize = 0;
        assert(raw@.skip(0) =~= raw@);
        assert(writes_view(entries@) + replayed(raw@).0 =~= replayed(raw@).0);
        while cursor < raw.len()
            invariant_except_break
                cursor <= raw@.len(),
                replayed(raw@) == (
                    writes_view(entries@) + replayed(raw@.skip(cursor as int)).0,
                    cursor as nat + replayed(raw@.skip(cursor as int)).1,
                ),
            ensures
                cursor <= raw@.len(),
                replayed(raw@) == (writes_view(entries@), cursor as nat),
            decreases raw@.len() - cursor,
        {
            let rest = &raw[cursor..raw.len()];
            assert(rest@ =~= raw@.skip(cursor as int));
            match decode_wal_record(rest) {
                Some((key, value, op, consumed)) => {
                    let entry = if op == OP_PUT {
                        WalEntry::Put { key, value }
                    } else {
                        WalEntry::Delete { key }
                    };
                    let ghost before = entries@;
                    entries.push(entry);
                    cursor = cursor + consumed;
                    proof {
                        assert(entry@ == body_entry(rest@, 4));
                        assert(rest@.skip(consumed as int) =~= raw@.skip(cursor as int));
                        assert(writes_view(entries@) + replayed(raw@.skip(cursor as int)).0
                            =~= writes_view(before) + replayed(rest@).0);
                    }
                },
                None => {
                    assert(writes_view(entries@) + replayed(rest@).0 =~= writes_view(entries@));
                    break;
                },
            }
        }
        proof {
            assert(writes_view(entries@) + Seq::empty() =~= writes_view(entries@));
            replayed_writes_fit_the_log(raw@);
        }
        Replay { entries, valid_len: cursor }
    }

    /// Notes the length that the file has after an append, a replay or a truncation.
    pub fn sync_size_to_metrics(&mut self, size: u64, metrics: &mut EngineMetrics)
        ensures
            final(self).size() == size,
            final(metrics)@ == (MetricsView { wal_size_bytes: size, ..old(metrics)@ }),
    {
        self.size = size;
        metrics.set_wal_size(size);
    }

    /// Notes that the file was emptied, as it is once its writes are in a table.
    pub fn truncate(&mut self, metrics: &mut EngineMetrics)
        ensures
            final(self).size() == 0,
            final(metrics)@ == (MetricsView { wal_size_bytes: 0, ..old(metrics)@ }),
    {
        self.sync_size_to_metrics(0, metrics);
    }

    /// The length of the log as last seen.
    pub fn size_bytes(&self) -> (r: u64)
        ensures
            r == self.size(),
    {
        self.size
    }
}

} // verus!
