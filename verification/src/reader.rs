//! Searching a table file whose bytes are elsewhere.
//!
//! A search says which bytes of the file it needs next and is resumed with them. What it comes to is a
//! function of the file's bytes alone, as long as each reply gives the bytes that the file has.

use vstd::prelude::*;
use vstd::slice::slice_to_vec;
use vstd::string::StringExecFns;

use crate::error::EngineError;
use crate::format::{
    OP_PUT, EntryView, body_entry, body_fits, body_key, body_len, body_op, body_value, decode_u32,
    decode_u64, u32_at,
};
use crate::layout::data_end;
use crate::memtable::MemValue;
use crate::model::{a_range_is_half_open, lemma_layer_holds, lemma_layer_key_written};
use crate::order::{KeyOrder, key_le, key_lt, lemma_key_lt_excludes, lemma_key_lt_total, order_keys};
use crate::search::{
    Fault, beyond, find_from, find_in, read_end, records_from, records_in, scan_from, scan_in,
    seek_end, seek_offset,
};
use crate::sorted::{Entry, entries_view, entry_view};
use crate::sstable::{
    SSTable, TableView, a_lookup_reads_at_most_sixteen_records, file_layer, sound, stop_view,
    table_get, table_lookup_is_exact, table_records, table_scan, table_scan_is_exact,
};

verus! {

/// Bytes that a search needs.
#[derive(Debug, Clone, Copy, PartialEq, Eq, Structural)]
pub enum Request {
    /// The last `len` bytes of the file.
    Tail { len: u64 },
    /// `len` bytes from `offset` on.
    At { offset: u64, len: u64 },
}

/// The answer to a request.
pub enum Reply {
    /// The bytes asked for.
    Bytes(Vec<u8>),
    /// The file does not have all of them; the error says so.
    Eof(std::io::Error),
    /// Reading failed for another reason.
    Failed(std::io::Error),
}

impl Request {
    /// How many bytes are asked for.
    pub open spec fn len(self) -> u64 {
        match self {
            Request::Tail { len } => len,
            Request::At { offset, len } => len,
        }
    }

    /// The bytes asked for, if `file` has them.
    pub open spec fn taken_from(self, file: Seq<u8>) -> Option<Seq<u8>> {
        match self {
            Request::Tail { len } => if len <= file.len() {
                Some(file.skip(file.len() - len))
            } else {
                None
            },
            Request::At { offset, len } => if offset + len <= file.len() {
                Some(file.subrange(offset as int, offset + len))
            } else {
                None
            },
        }
    }

    /// `reply` has the form of an answer: as many bytes as were asked for, from a place that a file
    /// can have.
    pub open spec fn answered_by(self, reply: Reply) -> bool {
        reply matches Reply::Bytes(b) ==> {
            &&& b@.len() == self.len()
            &&& self matches Request::At { offset, len } ==> offset + len <= u64::MAX
        }
    }

    /// `reply` says what `file` has, or that reading failed.
    pub open spec fn truthful(self, file: Seq<u8>, reply: Reply) -> bool {
        match reply {
            Reply::Bytes(b) => self.taken_from(file) == Some(b@),
            Reply::Eof(_) => self.taken_from(file) is None,
            Reply::Failed(_) => true,
        }
    }
}

/// The bytes that a file has at the place asked for are the answer to a request, and only where it has
/// none is the end of the file an answer.
pub proof fn the_bytes_asked_for_are_the_answer(
    file: Seq<u8>,
    offset: u64,
    len: u64,
    bytes: Vec<u8>,
    e: std::io::Error,
)
    requires
        file.len() <= u64::MAX,
    ensures
        offset + len <= file.len() && bytes@ == file.subrange(offset as int, offset + len) ==> {
            let request = Request::At { offset, len };
            request.answered_by(Reply::Bytes(bytes)) && request.truthful(file, Reply::Bytes(bytes))
        },
        offset + len > file.len() ==> {
            let request = Request::At { offset, len };
            request.answered_by(Reply::Eof(e)) && request.truthful(file, Reply::Eof(e))
        },
        len <= file.len() && bytes@ == file.skip(file.len() - len) ==> {
            let request = Request::Tail { len };
            request.answered_by(Reply::Bytes(bytes)) && request.truthful(file, Reply::Bytes(bytes))
        },
        len > file.len() ==> {
            let request = Request::Tail { len };
            request.answered_by(Reply::Eof(e)) && request.truthful(file, Reply::Eof(e))
        },
{
}

/// The error that a fault is reported as, given the reply that revealed it.
pub open spec fn reports(error: EngineError, fault: Fault, reply: Reply) -> bool {
    match fault {
        Fault::TooSmall => error matches EngineError::Corruption(msg) && msg@
            == "SSTable too small"@,
        Fault::CutShort => reply matches Reply::Eof(e) && error == EngineError::Io(e),
    }
}

// ---------------------------------------------------------------------------
// One record after the other
// ---------------------------------------------------------------------------

/// What a reader is waiting for.
enum Stage {
    Footer,
    Header,
    Body { key_len: u32, value_len: u32, op: u8 },
}

/// Reads records one after the other.
struct RecordReader {
    pos: u64,
    /// Where to stop before the end of the data.
    stop: Option<u64>,
    end: u64,
    stage: Stage,
}

/// What a reply brings a reader to.
enum ReadStep {
    /// More bytes are needed.
    More,
    /// A record was read.
    Record(Entry),
    /// There are no more records.
    End,
    /// The search fails.
    Fail(EngineError),
}

impl RecordReader {
    /// Where reading ends in `file`.
    spec fn end_in(self, file: Seq<u8>) -> nat {
        read_end(data_end(file), stop_view(self.stop))
    }

    /// What the reader remembers is what the file says.
    spec fn agrees(self, file: Seq<u8>) -> bool {
        match self.stage {
            Stage::Footer => true,
            Stage::Header => file.len() >= 16 && self.end == self.end_in(file) && self.pos
                < self.end,
            Stage::Body { key_len, value_len, op } => {
                &&& file.len() >= 16
                &&& self.end == self.end_in(file)
                &&& self.pos < self.end
                &&& self.pos + 9 <= file.len()
                &&& u32_at(file, self.pos as int) == key_len
                &&& u32_at(file, self.pos + 4) == value_len
                &&& body_op(file, self.pos as int) == op
            },
        }
    }

    /// How much is left to do on `file`.
    spec fn rank(self, file: Seq<u8>) -> nat {
        let left = if self.pos <= file.len() {
            2 * (file.len() - self.pos)
        } else {
            0
        };
        match self.stage {
            Stage::Footer => (left + 3) as nat,
            Stage::Header => (left + 2) as nat,
            Stage::Body { .. } => (left + 1) as nat,
        }
    }

    spec fn request_spec(self) -> Request {
        match self.stage {
            Stage::Footer => Request::Tail { len: 16 },
            Stage::Header => Request::At { offset: self.pos, len: 9 },
            Stage::Body { key_len, value_len, op } => Request::At {
                offset: (self.pos + 9) as u64,
                len: (key_len + value_len) as u64,
            },
        }
    }

    /// The reader can ask for its bytes: in the body of a record the header lies below the end of the
    /// address space.
    spec fn wf(self) -> bool {
        self.stage is Body ==> self.pos + 9 <= u64::MAX
    }

    fn start(pos: u64, stop: Option<u64>) -> (r: Self)
        ensures
            r.wf(),
            r.stage is Footer,
            r.pos == pos,
            r.stop == stop,
    {
        RecordReader { pos, stop, end: 0, stage: Stage::Footer }
    }

    fn request(&self) -> (r: Request)
        requires
            self.wf(),
        ensures
            r == self.request_spec(),
    {
        match self.stage {
            Stage::Footer => Request::Tail { len: 16 },
            Stage::Header => Request::At { offset: self.pos, len: 9 },
            Stage::Body { key_len, value_len, op } => Request::At {
                offset: self.pos + 9,
                len: key_len as u64 + value_len as u64,
            },
        }
    }

    /// Takes the reply to the last request.
    fn feed(&mut self, reply: Reply) -> (r: ReadStep)
        requires
            old(self).wf(),
            old(self).request_spec().answered_by(reply),
        ensures
            final(self).wf(),
            reply matches Reply::Failed(e) ==> r == ReadStep::Fail(EngineError::Io(e)),
            r matches ReadStep::Record(_) ==> old(self).stage is Body && final(self).stage is Header
                && final(self).end == old(self).end,
            final(self).stop == old(self).stop,
            r matches ReadStep::Fail(error) ==> match reply {
                Reply::Failed(e) => error == EngineError::Io(e),
                Reply::Eof(e) => if old(self).stage is Footer {
                    reports(error, Fault::TooSmall, reply)
                } else {
                    reports(error, Fault::CutShort, reply)
                },
                Reply::Bytes(_) => false,
            },
            forall|file: Seq<u8>| #[trigger]
                old(self).agrees(file) && old(self).request_spec().truthful(file, reply) && !(
                reply is Failed) ==> old(self).stepped(file, *final(self), r),
    {
        match reply {
            Reply::Failed(e) => ReadStep::Fail(EngineError::from(e)),
            Reply::Eof(e) => match self.stage {
                Stage::Footer => ReadStep::Fail(
                    EngineError::Corruption(String::from_str("SSTable too small")),
                ),
                Stage::Header => ReadStep::End,
                Stage::Body { .. } => ReadStep::Fail(EngineError::from(e)),
            },
            Reply::Bytes(bytes) => match self.stage {
                Stage::Footer => self.feed_footer(bytes),
                Stage::Header => self.feed_header(bytes),
                Stage::Body { key_len, value_len, op } => self.feed_body(
                    bytes,
                    key_len,
                    value_len,
                    op,
                ),
            },
        }
    }

    /// One step of the reader `self` on `file` led to the reader `next` with the outcome `step`.
    spec fn stepped(self, file: Seq<u8>, next: RecordReader, step: ReadStep) -> bool {
        match step {
            ReadStep::More => {
                &&& next.agrees(file)
                &&& next.pos == self.pos
                &&& next.rank(file) < self.rank(file)
                &&& !(next.stage is Footer)
                &&& next.end == self.end_in(file)
                &&& !(self.stage is Footer) ==> self.stage is Header && next.stage is Body
            },
            ReadStep::Record(e) => {
                &&& body_fits(file, self.pos as int)
                &&& entry_view(e) == body_entry(file, self.pos as int)
                &&& next.pos == self.pos + body_len(file, self.pos as int)
                &&& next.rank(file) < self.rank(file)
            },
            ReadStep::End => {
                ||| self.stage is Footer && file.len() >= 16 && self.pos >= self.end_in(file)
                ||| self.stage is Header && self.pos + 9 > file.len()
            },
            ReadStep::Fail(_) => {
                ||| self.stage is Footer && file.len() < 16
                ||| self.stage is Body && !body_fits(file, self.pos as int)
            },
        }
    }

    fn feed_footer(&mut self, bytes: Vec<u8>) -> (r: ReadStep)
        requires
            old(self).stage is Footer,
            bytes@.len() == 16,
        ensures
            final(self).wf(),
            final(self).stop == old(self).stop,
            r is More || r is End,
            forall|file: Seq<u8>| #[trigger]
                old(self).agrees(file) && old(self).request_spec().taken_from(file) == Some(bytes@)
                    ==> old(self).stepped(file, *final(self), r),
    {
        let ghost before = *self;
        let data_end = decode_u64(&bytes.as_slice()[8..16]);
        let end = match self.stop {
            Some(n) => if n < data_end {
                n
            } else {
                data_end
            },
            None => data_end,
        };
        self.end = end;
        proof {
            assert forall|file: Seq<u8>| #[trigger]
                before.agrees(file) && before.request_spec().taken_from(file) == Some(
                    bytes@,
                ) implies file.len() >= 16 && data_end == crate::layout::data_end(file) by {
                assert(bytes@.subrange(8, 16).subrange(0, 8) =~= file.subrange(
                    file.len() - 8,
                    file.len() as int,
                ));
            }
        }
        if self.pos >= end {
            ReadStep::End
        } else {
            self.stage = Stage::Header;
            ReadStep::More
        }
    }

    fn feed_header(&mut self, bytes: Vec<u8>) -> (r: ReadStep)
        requires
            old(self).stage is Header,
            bytes@.len() == 9,
            old(self).pos + 9 <= u64::MAX,
        ensures
            final(self).wf(),
            final(self).stop == old(self).stop,
            r is More,
            forall|file: Seq<u8>| #[trigger]
                old(self).agrees(file) && old(self).request_spec().taken_from(file) == Some(bytes@)
                    ==> old(self).stepped(file, *final(self), r),
    {
        let ghost before = *self;
        let key_len = decode_u32(&bytes.as_slice()[0..4]);
        let value_len = decode_u32(&bytes.as_slice()[4..8]);
        let op = bytes[8];
        self.stage = Stage::Body { key_len, value_len, op };
        proof {
            assert forall|file: Seq<u8>| #[trigger]
                before.agrees(file) && before.request_spec().taken_from(file) == Some(
                    bytes@,
                ) implies before.stepped(file, *self, ReadStep::More) by {
                let pos = before.pos as int;
                assert(bytes@.subrange(0, 4).subrange(0, 4) =~= file.subrange(pos, pos + 4));
                assert(bytes@.subrange(4, 8).subrange(0, 4) =~= file.subrange(
                    pos + 4,
                    pos + 4 + 4,
                ));
            }
        }
        ReadStep::More
    }

    fn feed_body(&mut self, bytes: Vec<u8>, key_len: u32, value_len: u32, op: u8) -> (r: ReadStep)
        requires
            old(self).stage == (Stage::Body { key_len, value_len, op }),
            old(self).wf(),
            bytes@.len() == key_len + value_len,
            old(self).pos + 9 + key_len + value_len <= u64::MAX,
        ensures
            final(self).wf(),
            r is Record,
            final(self).stage is Header,
            final(self).end == old(self).end,
            final(self).stop == old(self).stop,
            forall|file: Seq<u8>| #[trigger]
                old(self).agrees(file) && old(self).request_spec().taken_from(file) == Some(bytes@)
                    ==> old(self).stepped(file, *final(self), r),
    {
        let ghost before = *self;
        let split = key_len as usize;
        let key = slice_to_vec(&bytes.as_slice()[0..split]);
        let value = if op == OP_PUT {
            MemValue::Value(slice_to_vec(&bytes.as_slice()[split..bytes.len()]))
        } else {
            MemValue::Tombstone
        };
        self.pos = self.pos + 9 + key_len as u64 + value_len as u64;
        self.stage = Stage::Header;
        proof {
            let r = ReadStep::Record((key, value));
            assert forall|file: Seq<u8>| #[trigger]
                before.agrees(file) && before.request_spec().taken_from(file) == Some(
                    bytes@,
                ) implies before.stepped(file, *self, r) by {
                let pos = before.pos as int;
                assert(key@ =~= body_key(file, pos));
                if op == OP_PUT {
                    assert(value@->0 =~= body_value(file, pos));
                }
            }
        }
        ReadStep::Record((key, value))
    }

    /// No record is left.
    fn at_end(&self) -> (r: bool)
        ensures
            r == (self.pos >= self.end),
    {
        self.pos >= self.end
    }
}

// ---------------------------------------------------------------------------
// Looking a key up
// ---------------------------------------------------------------------------

/// What a stored value says, or `None` where there is none.
pub open spec fn option_view(v: Option<MemValue>) -> Option<Option<Seq<u8>>> {
    match v {
        Some(x) => Some(x@),
        None => None,
    }
}

/// A search for a key in one table.
pub struct Lookup {
    key: Vec<u8>,
    reader: RecordReader,
}

/// What a reply brings a lookup to.
pub enum LookupStep {
    /// It needs more bytes.
    More(Lookup),
    /// It is over.
    Done(Result<Option<MemValue>, EngineError>),
}

/// The result of a search is what the file decides.
pub open spec fn found(
    result: Result<Option<MemValue>, EngineError>,
    outcome: Result<Option<Option<Seq<u8>>>, Fault>,
    reply: Reply,
) -> bool {
    match (result, outcome) {
        (Ok(v), Ok(o)) => option_view(v) == o,
        (Err(error), Err(fault)) => reports(error, fault, reply),
        _ => false,
    }
}

impl Lookup {
    /// The key that is sought.
    pub closed spec fn key(self) -> Seq<u8> {
        self.key@
    }

    pub closed spec fn wf(self) -> bool {
        self.reader.wf()
    }

    /// What has been read so far is what `file` says.
    pub closed spec fn agrees(self, file: Seq<u8>) -> bool {
        self.reader.agrees(file)
    }

    /// What the search will come to on `file`.
    pub closed spec fn outcome(self, file: Seq<u8>) -> Result<Option<Option<Seq<u8>>>, Fault> {
        if self.reader.stage is Footer {
            find_in(file, self.reader.pos as nat, stop_view(self.reader.stop), self.key@)
        } else {
            find_from(file, self.reader.pos as int, self.reader.end as int, self.key@)
        }
    }

    /// How many records the search still reads on `file`.
    pub closed spec fn records(self, file: Seq<u8>) -> nat {
        if self.reader.stage is Footer {
            records_in(file, self.reader.pos as nat, stop_view(self.reader.stop), self.key@)
        } else {
            records_from(file, self.reader.pos as int, self.reader.end as int, self.key@)
        }
    }

    /// The bytes that are needed next are the key and value of a record.
    pub closed spec fn reads_record(self) -> bool {
        self.reader.stage is Body
    }

    /// How much is left to do on `file`.
    pub closed spec fn rank(self, file: Seq<u8>) -> nat {
        self.reader.rank(file)
    }

    /// The bytes that are needed next.
    pub closed spec fn wants(self) -> Request {
        self.reader.request_spec()
    }

    /// Begins the search for `key` where the index of `table` leads.
    fn start(table: &SSTable, key: &[u8]) -> (r: Self)
        ensures
            r.wf(),
            r.key() == key@,
            forall|file: Seq<u8>| #[trigger] r.agrees(file),
            forall|file: Seq<u8>| #[trigger]
                r.outcome(file) == find_in(
                    file,
                    seek_offset(table@.index, key@),
                    seek_end(table@.index, key@),
                    key@,
                ),
            forall|file: Seq<u8>| #[trigger]
                r.records(file) == records_in(
                    file,
                    seek_offset(table@.index, key@),
                    seek_end(table@.index, key@),
                    key@,
                ),
    {
        let (from, stop) = table.index_block(key);
        Lookup { key: slice_to_vec(key), reader: RecordReader::start(from, stop) }
    }

    /// The bytes that are needed next.
    pub fn request(&self) -> (r: Request)
        requires
            self.wf(),
        ensures
            r == self.wants(),
    {
        self.reader.request()
    }

    /// Goes on with the reply to the last request.
    pub fn resume(self, reply: Reply) -> (r: LookupStep)
        requires
            self.wf(),
            self.wants().answered_by(reply),
        ensures
            r matches LookupStep::More(next) ==> next.wf() && next.key() == self.key(),
            reply matches Reply::Failed(e) ==> r == LookupStep::Done(Err(EngineError::Io(e))),
            forall|file: Seq<u8>| #[trigger]
                self.agrees(file) && self.wants().truthful(file, reply) && !(reply is Failed)
                    ==> match r {
                    LookupStep::More(next) => {
                        &&& next.agrees(file)
                        &&& next.outcome(file) == self.outcome(file)
                        &&& next.rank(file) < self.rank(file)
                        &&& self.records(file) == next.records(file) + if self.reads_record() {
                            1nat
                        } else {
                            0nat
                        }
                    },
                    LookupStep::Done(result) => {
                        &&& found(result, self.outcome(file), reply)
                        &&& self.records(file) == if self.reads_record() {
                            1nat
                        } else {
                            0nat
                        }
                    },
                },
    {
        let mut this = self;
        proof {
            reveal_with_fuel(records_from, 2);
        }
        match this.reader.feed(reply) {
            ReadStep::More => LookupStep::More(this),
            ReadStep::End => LookupStep::Done(Ok(None)),
            ReadStep::Fail(error) => LookupStep::Done(Err(error)),
            ReadStep::Record((key, value)) => {
                match order_keys(key.as_slice(), this.key.as_slice()) {
                    KeyOrder::Same => LookupStep::Done(Ok(Some(value))),
                    KeyOrder::After => {
                        proof {
                            lemma_key_lt_excludes(self.key@, key@);
                        }
                        LookupStep::Done(Ok(None))
                    },
                    KeyOrder::Before => {
                        proof {
                            lemma_key_lt_excludes(key@, self.key@);
                        }
                        if this.reader.at_end() {
                            LookupStep::Done(Ok(None))
                        } else {
                            LookupStep::More(this)
                        }
                    },
                }
            },
        }
    }
}

proof fn lemma_records_bounded(t: TableView, key: Seq<u8>)
    ensures
        forall|file: Seq<u8>| sound(t, file) ==> #[trigger] table_records(t, file, key) <= 16,
{
    assert forall|file: Seq<u8>| sound(t, file) implies #[trigger] table_records(t, file, key)
        <= 16 by {
        a_lookup_reads_at_most_sixteen_records(t, file, key);
    }
}

impl SSTable {
    /// Begins the lookup of `key` in this table. If the filter rules the key out, it is over at once
    /// and the file is not touched. Otherwise it reads at most sixteen records of a sound table.
    pub fn get(&self, key: &[u8]) -> (r: LookupStep)
        requires
            self@.reaches(key@),
        ensures
            r is More <==> self@.admits(key@),
            r matches LookupStep::Done(result) ==> result == Ok::<Option<MemValue>, EngineError>(
                None,
            ),
            r matches LookupStep::More(lookup) ==> {
                &&& lookup.wf()
                &&& lookup.key() == key@
                &&& forall|file: Seq<u8>| #[trigger] lookup.agrees(file)
                &&& forall|file: Seq<u8>| #[trigger]
                    lookup.outcome(file) == table_get(self@, file, key@)
                &&& forall|file: Seq<u8>| #[trigger]
                    lookup.records(file) == table_records(self@, file, key@)
                &&& forall|file: Seq<u8>| sound(self@, file) ==> #[trigger] lookup.records(file) <= 16
            },
    {
        if self.rules_out(key) {
            LookupStep::Done(Ok(None))
        } else {
            let lookup = Lookup::start(self, key);
            proof {
                lemma_records_bounded(self@, key@);
                assert forall|file: Seq<u8>| #[trigger] lookup.records(file) == table_records(
                    self@,
                    file,
                    key@,
                ) by {}
                assert forall|file: Seq<u8>| sound(self@, file) implies #[trigger] lookup.records(
                    file,
                ) <= 16 by {
                    assert(lookup.records(file) == table_records(self@, file, key@));
                }
            }
            LookupStep::More(lookup)
        }
    }

    /// Begins the scan of this table for the keys from `start` up to but not including `stop`, or to
    /// the end of the table. The filter plays no part.
    pub fn scan(&self, start: &[u8], stop: Option<&[u8]>) -> (r: RangeScan)
        ensures
            r.wf(),
            forall|file: Seq<u8>| #[trigger] r.agrees(file),
            forall|file: Seq<u8>| #[trigger]
                r.outcome(file) == table_scan(self@, file, start@, slice_bound(stop)),
    {
        RangeScan::start(self, start, stop)
    }
}

/// How faults are reported: a file that is too short as corruption, a record that is cut short as the
/// error that came when its bytes were asked for.
pub proof fn faults_are_reported(error: EngineError, reply: Reply)
    ensures
        reports(error, Fault::TooSmall, reply) ==> error is Corruption,
        reports(error, Fault::CutShort, reply) ==> reply is Eof && error == EngineError::Io(
            reply->Eof_0,
        ),
{
}

/// A lookup in a sound table ends with what its file holds: the value of the key, the tombstone of the
/// key, or that the key is not there.
pub proof fn a_finished_lookup_is_exact(
    t: TableView,
    file: Seq<u8>,
    key: Seq<u8>,
    result: Result<Option<MemValue>, EngineError>,
    reply: Reply,
)
    requires
        sound(t, file),
        found(result, table_get(t, file, key), reply),
    ensures
        match result {
            Ok(Some(MemValue::Value(value))) => file_layer(file).contains_pair(key, Some(value@)),
            Ok(Some(MemValue::Tombstone)) => file_layer(file).contains_pair(key, None),
            Ok(None) => !file_layer(file).contains_key(key),
            Err(_) => false,
        },
{
    table_lookup_is_exact(t, file, key);
}

/// A scan of a sound table ends with the entries of the range, tombstones included, in the ascending
/// order of their keys.
pub proof fn a_finished_table_scan_is_exact(
    t: TableView,
    file: Seq<u8>,
    start: Seq<u8>,
    stop: Option<Seq<u8>>,
    result: Result<Vec<Entry>, EngineError>,
    reply: Reply,
)
    requires
        sound(t, file),
        scanned(result, table_scan(t, file, start, stop), reply),
    ensures
        result matches Ok(entries) && {
            &&& forall|i: int, j: int|
                0 <= i < j < entries@.len() ==> key_lt(
                    (#[trigger] entries@[i]).0@,
                    (#[trigger] entries@[j]).0@,
                )
            &&& forall|i: int|
                0 <= i < entries@.len() ==> file_layer(file).contains_pair(
                    (#[trigger] entries@[i]).0@,
                    entries@[i].1@,
                ) && !key_lt(entries@[i].0@, start) && (stop matches Some(e) ==> key_lt(
                    entries@[i].0@,
                    e,
                ))
            &&& forall|k: Seq<u8>| #[trigger]
                file_layer(file).contains_key(k) && !key_lt(k, start) && (stop matches Some(e)
                    ==> key_lt(k, e)) ==> exists|i: int|
                    0 <= i < entries@.len() && (#[trigger] entries@[i]).0@ == k
        },
{
    table_scan_is_exact(t, file, start, stop);
    let entries = result->Ok_0;
    let es = entries_view(entries@);
    let m = file_layer(file);
    let none = Map::<Seq<u8>, Seq<u8>>::empty();
    let end = match stop {
        Some(e) => e,
        None => Seq::empty(),
    };
    assert forall|i: int, j: int| 0 <= i < j < entries@.len() implies key_lt(
        (#[trigger] entries@[i]).0@,
        (#[trigger] entries@[j]).0@,
    ) by {
        assert(es[i] == entry_view(entries@[i]) && es[j] == entry_view(entries@[j]));
        assert(key_lt(es[i].0, es[j].0));
    }
    assert forall|i: int| 0 <= i < entries@.len() implies m.contains_pair(
        (#[trigger] entries@[i]).0@,
        entries@[i].1@,
    ) && !key_lt(entries@[i].0@, start) && (stop matches Some(e) ==> key_lt(
        entries@[i].0@,
        e,
    )) by {
        assert(es[i] == entry_view(entries@[i]));
        lemma_layer_holds(es, i);
        a_range_is_half_open(none, m, start, end, es[i].0);
    }
    assert forall|k: Seq<u8>| #[trigger]
        m.contains_key(k) && !key_lt(k, start) && (stop matches Some(e) ==> key_lt(
            k,
            e,
        )) implies exists|i: int| 0 <= i < entries@.len() && (#[trigger] entries@[i]).0@ == k by {
        a_range_is_half_open(none, m, start, end, k);
        lemma_layer_key_written(es, k);
        let i = choose|i: int| 0 <= i < es.len() && #[trigger] es[i].0 == k;
        assert(es[i] == entry_view(entries@[i]));
        assert(entries@[i].0@ == k);
    }
}

// ---------------------------------------------------------------------------
// Scanning a range
// ---------------------------------------------------------------------------

/// What an optional bound says.
pub open spec fn bound_view(stop: Option<Vec<u8>>) -> Option<Seq<u8>> {
    match stop {
        Some(e) => Some(e@),
        None => None,
    }
}

/// A scan of one table for the keys from `start` up to but not including `stop`, or to the end of the
/// table.
pub struct RangeScan {
    start: Vec<u8>,
    stop: Option<Vec<u8>>,
    reader: RecordReader,
    entries: Vec<Entry>,
}

/// What a reply brings a scan to.
pub enum ScanStep {
    /// It needs more bytes.
    More(RangeScan),
    /// It is over.
    Done(Result<Vec<Entry>, EngineError>),
}

/// The result of a scan is what the file decides.
pub open spec fn scanned(
    result: Result<Vec<Entry>, EngineError>,
    outcome: Result<Seq<EntryView>, Fault>,
    reply: Reply,
) -> bool {
    match (result, outcome) {
        (Ok(v), Ok(o)) => entries_view(v@) == o,
        (Err(error), Err(fault)) => reports(error, fault, reply),
        _ => false,
    }
}

/// `front`, then the entries of `rest`.
pub open spec fn prepended(front: Seq<EntryView>, rest: Result<Seq<EntryView>, Fault>) -> Result<
    Seq<EntryView>,
    Fault,
> {
    match rest {
        Ok(es) => Ok(front + es),
        Err(fault) => Err(fault),
    }
}

impl RangeScan {
    pub closed spec fn wf(self) -> bool {
        self.reader.wf() && self.reader.stop is None
    }

    /// What has been read so far is what `file` says.
    pub closed spec fn agrees(self, file: Seq<u8>) -> bool {
        self.reader.agrees(file)
    }

    /// What the scan will come to on `file`.
    pub closed spec fn outcome(self, file: Seq<u8>) -> Result<Seq<EntryView>, Fault> {
        prepended(
            entries_view(self.entries@),
            if self.reader.stage is Footer {
                scan_in(file, self.reader.pos as nat, self.start@, bound_view(self.stop))
            } else {
                scan_from(
                    file,
                    self.reader.pos as int,
                    self.reader.end as int,
                    self.start@,
                    bound_view(self.stop),
                )
            },
        )
    }

    /// How much is left to do on `file`.
    pub closed spec fn rank(self, file: Seq<u8>) -> nat {
        self.reader.rank(file)
    }

    /// The bytes that are needed next.
    pub closed spec fn wants(self) -> Request {
        self.reader.request_spec()
    }

    /// Begins the scan where the index of `table` leads.
    fn start(table: &SSTable, start: &[u8], stop: Option<&[u8]>) -> (r: Self)
        ensures
            r.wf(),
            forall|file: Seq<u8>| #[trigger] r.agrees(file),
            forall|file: Seq<u8>| #[trigger]
                r.outcome(file) == scan_in(
                    file,
                    seek_offset(table@.index, start@),
                    start@,
                    slice_bound(stop),
                ),
    {
        let stop_owned: Option<Vec<u8>> = match stop {
            Some(e) => Some(slice_to_vec(e)),
            None => None,
        };
        let r = RangeScan {
            start: slice_to_vec(start),
            stop: stop_owned,
            reader: RecordReader::start(table.index_seek(start), None),
            entries: Vec::new(),
        };
        proof {
            let none = entries_view(r.entries@);
            assert(none =~= Seq::empty());
            assert forall|file: Seq<u8>| #[trigger] r.outcome(file) == scan_in(
                file,
                seek_offset(table@.index, start@),
                start@,
                slice_bound(stop),
            ) by {
                let whole = scan_in(
                    file,
                    seek_offset(table@.index, start@),
                    start@,
                    slice_bound(stop),
                );
                if whole is Ok {
                    assert(none + whole->Ok_0 =~= whole->Ok_0);
                }
            }
        }
        r
    }

    /// The bytes that are needed next.
    pub fn request(&self) -> (r: Request)
        requires
            self.wf(),
        ensures
            r == self.wants(),
    {
        self.reader.request()
    }

    /// Goes on with the reply to the last request.
    pub fn resume(self, reply: Reply) -> (r: ScanStep)
        requires
            self.wf(),
            self.wants().answered_by(reply),
        ensures
            r matches ScanStep::More(next) ==> next.wf(),
            reply matches Reply::Failed(e) ==> r == ScanStep::Done(Err(EngineError::Io(e))),
            forall|file: Seq<u8>| #[trigger]
                self.agrees(file) && self.wants().truthful(file, reply) && !(reply is Failed)
                    ==> match r {
                    ScanStep::More(next) => next.agrees(file) && next.outcome(file) == self.outcome(
                        file,
                    ) && next.rank(file) < self.rank(file),
                    ScanStep::Done(result) => scanned(result, self.outcome(file), reply),
                },
    {
        let mut this = self;
        let ghost front = entries_view(self.entries@);
        assert(front + Seq::empty() =~= front);
        match this.reader.feed(reply) {
            ReadStep::More => ScanStep::More(this),
            ReadStep::End => ScanStep::Done(Ok(this.entries)),
            ReadStep::Fail(error) => ScanStep::Done(Err(error)),
            ReadStep::Record(entry) => {
                let ghost e = entry_view(entry);
                if this.is_beyond(entry.0.as_slice()) {
                    return ScanStep::Done(Ok(this.entries));
                }
                let wanted = match order_keys(entry.0.as_slice(), this.start.as_slice()) {
                    KeyOrder::Before => false,
                    _ => true,
                };
                assert(wanted == key_le(self.start@, e.0)) by {
                    if key_lt(e.0, self.start@) {
                        lemma_key_lt_excludes(e.0, self.start@);
                    }
                    lemma_key_lt_total(e.0, self.start@);
                }
                if wanted {
                    this.entries.push(entry);
                }
                proof {
                    let now = entries_view(this.entries@);
                    assert(now =~= if wanted { front.push(e) } else { front });
                    assert forall|rest: Seq<EntryView>| #[trigger] (front.push(e) + rest) =~= front
                        + (seq![e] + rest) by {}
                }
                if this.reader.at_end() {
                    assert(entries_view(this.entries@) + Seq::empty() =~= entries_view(
                        this.entries@,
                    ));
                    ScanStep::Done(Ok(this.entries))
                } else {
                    ScanStep::More(this)
                }
            },
        }
    }

    /// Whether `key` lies beyond the range.
    fn is_beyond(&self, key: &[u8]) -> (r: bool)
        ensures
            r == beyond(key@, bound_view(self.stop)),
    {
        match &self.stop {
            Some(end) => match order_keys(key, end.as_slice()) {
                KeyOrder::Before => false,
                _ => true,
            },
            None => false,
        }
    }
}

/// What an optional bound says.
pub open spec fn slice_bound(stop: Option<&[u8]>) -> Option<Seq<u8>> {
    match stop {
        Some(e) => Some(e@),
        None => None,
    }
}

} // verus!
