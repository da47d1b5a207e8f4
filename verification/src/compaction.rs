//! Compaction: merging the oldest tables into one.

use vstd::prelude::*;
use vstd::slice::slice_to_vec;

use crate::bloom::byte_count;
use crate::error::EngineError;
use crate::memtable::MemValue;
use crate::merge::{MergeScan, MergeStep, merge_from};
use crate::metrics::{EngineMetrics, MetricsView};
use crate::model::{Disk, Layer, layer_of, lemma_layer_key_written, sorted, without_tombstones};
use crate::names::{names_view, table_file, table_file_name};
use crate::order::{key_lt, lemma_key_lt_irreflexive};
use crate::reader::{Reply, Request, reports};
use crate::search::Fault;
use crate::sorted::{Entry, entries_view, entry_view};
use crate::sstable::{SSTable, TableFile, TableView, flushed, tables_view};

verus! {

/// At most this many tables are merged at once.
pub const MERGE_LIMIT: usize = 4;

/// Of `n` tables, the position from which on they are merged.
pub open spec fn first_merged(n: nat) -> nat {
    if n <= MERGE_LIMIT {
        0
    } else {
        (n - MERGE_LIMIT) as nat
    }
}

/// What is kept of the merged tables. Where these are all there are, their tombstones hide nothing
/// and are dropped; a partial compaction keeps them.
pub open spec fn kept(m: Layer, lo: nat) -> Layer {
    if lo == 0 {
        without_tombstones(m)
    } else {
        m
    }
}

/// The four oldest tables are merged, or all where there are no more than four.
pub proof fn the_four_oldest_are_merged(n: nat)
    ensures
        first_merged(n) <= n,
        n <= 4 ==> first_merged(n) == 0,
        n > 4 ==> n - first_merged(n) == 4,
{
}

/// The names of the tables `ts`.
pub open spec fn table_names(ts: Seq<TableView>) -> Seq<Seq<u8>> {
    Seq::new(ts.len(), |i: int| ts[i].name)
}

/// The names that the `lo` tables that are newer than the merged ones get, newest first: their numbers
/// fall to just above `next`, the number of the merged table, so that it stays older than they are.
pub open spec fn young_names(next: nat, lo: nat) -> Seq<Seq<u8>> {
    Seq::new(lo, |i: int| table_file((next + lo - i) as nat))
}

/// A compaction that is reading its tables.
pub struct Compaction {
    merge: MergeScan,
    lo: usize,
    name: Vec<u8>,
    renames: Vec<Vec<u8>>,
}

/// What the tables of a compaction were merged to.
pub struct Merged {
    /// The entries to keep, in the order of their keys.
    pub entries: Vec<Entry>,
    /// The names of the merged files.
    pub consumed: Vec<Vec<u8>>,
    /// The name of the file to write.
    pub name: Vec<u8>,
    /// The new names of the newest tables, from the newest on. Their files are to be renamed in this
    /// order before the new file is written.
    pub renames: Vec<Vec<u8>>,
}

/// What a reply brings a compaction to.
pub enum CompactionStep {
    /// It needs more bytes.
    More(Compaction),
    /// The tables are read.
    Done(Result<Merged, EngineError>),
}

/// The merge came to what the files decide.
pub open spec fn merged_to(
    result: Result<Merged, EngineError>,
    outcome: Result<Layer, Fault>,
    lo: nat,
    reply: Reply,
) -> bool {
    match (result, outcome) {
        (Ok(merged), Ok(m)) => layer_of(entries_view(merged.entries@)) == kept(m, lo),
        (Err(error), Err(fault)) => reports(error, fault, reply),
        _ => false,
    }
}

/// A table that is to replace the merged ones, with the bytes of its file.
pub struct Replacement {
    /// The new table. There is none if nothing was kept.
    pub file: Option<TableFile>,
    /// The names of the merged files.
    pub consumed: Vec<Vec<u8>>,
    /// The number of entries of the new table.
    pub entries_written: usize,
}

/// A finished compaction.
pub struct CompactionResult {
    /// The table that replaces the merged ones. There is none if nothing was kept.
    pub new_sst: Option<SSTable>,
    /// The names of the merged files, newest first.
    pub consumed_paths: Vec<Vec<u8>>,
    /// The number of entries of the new table.
    pub entries_written: usize,
}

/// Begins to merge the oldest tables into one, which will have the number `next_seq`. Fewer than two
/// tables are left alone.
pub fn compact(sstables: &Vec<SSTable>, next_seq: u64) -> (r: Option<Compaction>)
    requires
        next_seq + first_merged(sstables@.len()) <= u64::MAX,
    ensures
        r is None <==> sstables@.len() < 2,
        r matches Some(c) ==> {
            &&& c.wf()
            &&& c.at() == sstables@.len() - 1
            &&& c.lo() == first_merged(sstables@.len())
            &&& c.name() == table_file(next_seq as nat)
            &&& c.renames() == young_names(next_seq as nat, c.lo())
            &&& forall|disk: Disk| #[trigger] c.agrees(tables_view(sstables@), disk)
            &&& forall|disk: Disk| #[trigger]
                c.outcome(tables_view(sstables@), disk) == merge_from(
                    tables_view(sstables@),
                    disk,
                    c.lo() as int,
                    sstables@.len() - 1,
                    Seq::empty(),
                    None,
                    Map::empty(),
                )
        },
{
    let n = sstables.len();
    if n < 2 {
        return None;
    }
    let lo = if n <= MERGE_LIMIT {
        0
    } else {
        n - MERGE_LIMIT
    };
    let least: Vec<u8> = Vec::new();
    assert(least@ =~= Seq::empty());
    let merge = MergeScan::start(sstables, lo, least.as_slice(), None);
    Some(
        Compaction {
            merge,
            lo,
            name: table_file_name(next_seq),
            renames: names_above(next_seq, lo),
        },
    )
}

/// The names for the `lo` newest tables.
fn names_above(next: u64, lo: usize) -> (r: Vec<Vec<u8>>)
    requires
        next + lo <= u64::MAX,
    ensures
        names_view(r@) == young_names(next as nat, lo as nat),
{
    let mut names: Vec<Vec<u8>> = Vec::new();
    let mut i: usize = 0;
    while i < lo
        invariant
            i <= lo,
            next + lo <= u64::MAX,
            names@.len() == i,
            forall|j: int|
                0 <= j < i ==> (#[trigger] names@[j])@ == young_names(next as nat, lo as nat)[j],
        decreases lo - i,
    {
        names.push(table_file_name(next + (lo - i) as u64));
        i = i + 1;
    }
    assert(names_view(names@) =~= young_names(next as nat, lo as nat));
    names
}

impl Compaction {
    pub closed spec fn wf(self) -> bool {
        self.merge.wf()
    }

    /// The position of the newest table that is merged.
    pub closed spec fn lo(self) -> nat {
        self.lo as nat
    }

    /// The name of the file to write.
    pub closed spec fn name(self) -> Seq<u8> {
        self.name@
    }

    /// The new names of the tables before that position.
    pub closed spec fn renames(self) -> Seq<Seq<u8>> {
        names_view(self.renames@)
    }

    /// The position of the table that is being read.
    pub closed spec fn at(self) -> nat {
        self.merge.at()
    }

    /// The bytes that are needed next of that table's file.
    pub closed spec fn wants(self) -> Request {
        self.merge.wants()
    }

    /// What has been read so far of the current table is what its file says.
    pub closed spec fn agrees(self, ts: Seq<TableView>, disk: Disk) -> bool {
        self.merge.agrees(ts, disk)
    }

    /// What the merge will come to.
    pub closed spec fn outcome(self, ts: Seq<TableView>, disk: Disk) -> Result<Layer, Fault> {
        self.merge.outcome(ts, disk)
    }

    /// How much is left to do in the current table.
    pub closed spec fn rank(self, ts: Seq<TableView>, disk: Disk) -> nat {
        self.merge.rank(ts, disk)
    }

    /// The table that is being read, and the bytes that are needed next of its file.
    pub fn request(&self) -> (r: (usize, Request))
        requires
            self.wf(),
        ensures
            r.0 == self.at(),
            r.1 == self.wants(),
    {
        self.merge.request()
    }

    /// Goes on with the reply to the last request.
    pub fn resume(self, sstables: &Vec<SSTable>, reply: Reply) -> (r: CompactionStep)
        requires
            self.wf(),
            self.lo() <= sstables@.len(),
            self.at() < sstables@.len(),
            self.wants().answered_by(reply),
        ensures
            r matches CompactionStep::More(next) ==> {
                &&& next.wf()
                &&& next.lo() == self.lo()
                &&& next.name() == self.name()
                &&& next.renames() == self.renames()
                &&& next.at() <= self.at()
            },
            r matches CompactionStep::Done(Ok(merged)) ==> {
                &&& sorted(entries_view(merged.entries@))
                &&& self.lo() == 0 ==> forall|n: int|
                    0 <= n < merged.entries@.len() ==> (#[trigger] merged.entries@[n]).1 is Value
                &&& merged.name@ == self.name()
                &&& names_view(merged.renames@) == self.renames()
                &&& names_view(merged.consumed@) == table_names(
                    tables_view(sstables@).skip(self.lo() as int),
                )
            },
            reply matches Reply::Failed(e) ==> r == CompactionStep::Done(Err(EngineError::Io(e))),
            forall|disk: Disk| #[trigger]
                self.agrees(tables_view(sstables@), disk) && self.wants().truthful(
                    disk[tables_view(sstables@)[self.at() as int].name],
                    reply,
                ) && !(reply is Failed) ==> match r {
                    CompactionStep::More(next) => {
                        &&& next.agrees(tables_view(sstables@), disk)
                        &&& next.outcome(tables_view(sstables@), disk) == self.outcome(
                            tables_view(sstables@),
                            disk,
                        )
                        &&& next.at() < self.at() || next.rank(tables_view(sstables@), disk)
                            < self.rank(tables_view(sstables@), disk)
                    },
                    CompactionStep::Done(result) => merged_to(
                        result,
                        self.outcome(tables_view(sstables@), disk),
                        self.lo(),
                        reply,
                    ),
                },
    {
        let Compaction { merge, lo, name, renames } = self;
        match merge.resume(sstables, reply) {
            MergeStep::More(merge) => CompactionStep::More(
                Compaction { merge, lo, name, renames },
            ),
            MergeStep::Done(Err(error)) => CompactionStep::Done(Err(error)),
            MergeStep::Done(Ok(all)) => {
                let all = all.into_entries();
                let entries = if lo == 0 {
                    live_entries(all)
                } else {
                    all
                };
                let consumed = names_from(sstables, lo);
                CompactionStep::Done(Ok(Merged { entries, consumed, name, renames }))
            },
        }
    }
}

/// The entries that are not tombstones.
pub(crate) fn live_entries(entries: Vec<Entry>) -> (r: Vec<Entry>)
    requires
        sorted(entries_view(entries@)),
    ensures
        sorted(entries_view(r@)),
        forall|n: int| 0 <= n < r@.len() ==> (#[trigger] r@[n]).1 is Value,
        layer_of(entries_view(r@)) == without_tombstones(layer_of(entries_view(entries@))),
{
    let ghost es = entries_view(entries@);
    let mut out: Vec<Entry> = Vec::new();
    proof {
        assert(es.take(0) =~= Seq::empty());
        assert(entries_view(out@) =~= Seq::empty());
        assert(layer_of(entries_view(out@)) =~= without_tombstones(layer_of(es.take(0))));
    }
    for entry in it: entries
        invariant
            es == entries_view(it.seq()),
            sorted(es),
            sorted(entries_view(out@)),
            forall|n: int| 0 <= n < out@.len() ==> (#[trigger] out@[n]).1 is Value,
            forall|k: int, j: int|
                0 <= k < out@.len() && it.index() <= j < es.len() ==> key_lt(
                    #[trigger] entries_view(out@)[k].0,
                    #[trigger] es[j].0,
                ),
            layer_of(entries_view(out@)) == without_tombstones(layer_of(es.take(it.index()))),
    {
        let ghost before = entries_view(out@);
        let ghost i = it.index();
        let ghost e = es[i];
        let ghost m = layer_of(es.take(i));
        proof {
            assert(e == entry_view(entry));
            assert(es.take(i + 1).drop_last() =~= es.take(i));
            assert(es.take(i + 1).last() == e);
            if m.contains_key(e.0) {
                lemma_layer_key_written(es.take(i), e.0);
                let j = choose|j: int| 0 <= j < i && #[trigger] es.take(i)[j].0 == e.0;
                assert(key_lt(es[j].0, es[i].0));
                lemma_key_lt_irreflexive(e.0);
            }
        }
        match entry {
            (key, MemValue::Value(value)) => {
                out.push((key, MemValue::Value(value)));
                proof {
                    let now = entries_view(out@);
                    assert(now =~= before.push(e));
                    assert(now.drop_last() =~= before);
                    assert(sorted(now)) by {
                        assert forall|a: int, b: int| 0 <= a < b < now.len() implies key_lt(
                            #[trigger] now[a].0,
                            #[trigger] now[b].0,
                        ) by {
                            if b < before.len() {
                                assert(key_lt(before[a].0, before[b].0));
                            } else {
                                assert(key_lt(before[a].0, es[i].0));
                            }
                        }
                    }
                    assert forall|k: int, j: int|
                        0 <= k < now.len() && i + 1 <= j < es.len() implies key_lt(
                        #[trigger] now[k].0,
                        #[trigger] es[j].0,
                    ) by {
                        if k < before.len() {
                            assert(key_lt(before[k].0, es[j].0));
                        } else {
                            assert(key_lt(es[i].0, es[j].0));
                        }
                    }
                    assert(layer_of(now) =~= without_tombstones(m.insert(e.0, e.1)));
                }
            },
            (_, MemValue::Tombstone) => {
                assert(layer_of(before) =~= without_tombstones(m.insert(e.0, e.1)));
            },
        }
    }
    assert(es.take(es.len() as int) =~= es);
    out
}

/// The names of the tables from position `lo` on.
fn names_from(sstables: &Vec<SSTable>, lo: usize) -> (r: Vec<Vec<u8>>)
    requires
        lo <= sstables@.len(),
    ensures
        names_view(r@) == table_names(tables_view(sstables@).skip(lo as int)),
{
    let ghost wanted = table_names(tables_view(sstables@).skip(lo as int));
    let mut names: Vec<Vec<u8>> = Vec::new();
    let mut i: usize = lo;
    while i < sstables.len()
        invariant
            lo <= i <= sstables@.len(),
            names@.len() == i - lo,
            wanted == table_names(tables_view(sstables@).skip(lo as int)),
            forall|j: int| 0 <= j < names@.len() ==> (#[trigger] names@[j])@ == wanted[j],
        decreases sstables@.len() - i,
    {
        names.push(slice_to_vec(sstables[i].name.as_slice()));
        i = i + 1;
    }
    assert(names_view(names@) =~= wanted);
    names
}

impl Merged {
    /// Makes the table of the kept entries, once the newest tables are renamed, with a filter of the size asked for.
    pub fn build(self, num_bits: u64, num_hash_fns: u8) -> (r: Replacement)
        requires
            byte_count(num_bits) <= usize::MAX,
        ensures
            r.file is None <==> self.entries@.len() == 0,
            r.file matches Some(file) ==> flushed(
                file,
                self.name@,
                entries_view(self.entries@),
                num_bits,
                num_hash_fns,
            ),
            r.consumed == self.consumed,
            r.entries_written == self.entries@.len(),
    {
        let Merged { entries, consumed, name, renames: _ } = self;
        let entries_written = entries.len();
        let file = if entries_written == 0 {
            None
        } else {
            Some(SSTable::flush(name, &entries, num_bits, num_hash_fns))
        };
        Replacement { file, consumed, entries_written }
    }
}

impl Replacement {
    /// Goes on once the file, if there is one, is on disk. Only a compaction that writes a file is
    /// counted.
    pub fn written(self, metrics: &mut EngineMetrics) -> (r: CompactionResult)
        requires
            self.file is Some ==> old(metrics)@.compaction_count < u64::MAX,
        ensures
            match (self.file, r.new_sst) {
                (Some(file), Some(table)) => table == file.table,
                (None, None) => true,
                _ => false,
            },
            r.consumed_paths == self.consumed,
            r.entries_written == self.entries_written,
            final(metrics)@ == (MetricsView {
                compaction_count: if self.file is Some {
                    (old(metrics)@.compaction_count + 1) as u64
                } else {
                    old(metrics)@.compaction_count
                },
                ..old(metrics)@
            }),
    {
        let Replacement { file, consumed, entries_written } = self;
        let new_sst = match file {
            Some(file) => {
                metrics.record_compaction();
                Some(file.table)
            },
            None => None,
        };
        CompactionResult { new_sst, consumed_paths: consumed, entries_written }
    }
}

} // verus!
