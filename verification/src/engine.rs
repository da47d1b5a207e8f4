//! The engine: writes, reads, flushes and compactions over the layers of the store.
//!
//! The engine itself touches no file. An operation that needs one says what is to be read or written,
//! and goes on once that is done.

use vstd::prelude::*;
use vstd::slice::slice_to_vec;

use crate::bloom::byte_count;
use crate::compaction::{Compaction, CompactionResult, compact, first_merged, young_names};
use crate::error::EngineError;
use crate::format::EntryView;
use crate::memtable::{Memtable, held_size};
use crate::merge::merge_from;
use crate::metrics::{EngineMetrics, MetricsView};
use crate::model::{Disk, entry_size, layer_of, sorted, total_size};
use crate::names::{
    descending, is_table_name, names_view, newest_first, select_tables, table_file, table_file_name,
    table_seq,
};
use crate::recovery::{opened, readable, recovered};
use crate::sorted::{Entry, entries_view};
use crate::sstable::{SSTable, TableFile, TableView, flushed, table_in, tables_view};
use crate::store::{StoreView, max_seq, next_seq, renamed};
use crate::wal::{Wal, WalEntry, replayed, write_record, writes_view};

verus! {

/// A memtable of more bytes than this is flushed.
pub const DEFAULT_FLUSH_THRESHOLD: usize = 4194304;

/// As soon as there are this many tables, they are compacted.
pub const COMPACTION_TRIGGER: usize = 4;

/// A key-value store: the newest writes in memory, backed by a log, above sorted tables on disk.
pub struct Engine {
    pub wal: Wal,
    pub memtable: Memtable,
    /// The tables, newest first.
    pub sstables: Vec<SSTable>,
}

impl View for Engine {
    type V = StoreView;

    open spec fn view(&self) -> StoreView {
        StoreView { memtable: self.memtable@, tables: tables_view(self.sstables@) }
    }
}

/// A write that is to be logged.
pub struct PendingWrite {
    /// The write.
    pub entry: WalEntry,
    /// The record to append to the log, and to force to disk, before the write counts.
    pub record: Vec<u8>,
}

/// A memtable that is to be written to a table.
pub struct Flush {
    /// The name of the file to write.
    pub name: Vec<u8>,
    /// The entries in the order of their keys.
    pub entries: Vec<Entry>,
}

impl Flush {
    /// Makes the table, with a filter of the size asked for.
    pub fn build(self, num_bits: u64, num_hash_fns: u8) -> (r: TableFile)
        requires
            byte_count(num_bits) <= usize::MAX,
        ensures
            flushed(r, self.name@, entries_view(self.entries@), num_bits, num_hash_fns),
    {
        let Flush { name, entries } = self;
        SSTable::flush(name, &entries, num_bits, num_hash_fns)
    }
}

/// `flush` is what emptying the memtable of the store `v` comes to: its entries, in order, and the
/// next name. An empty memtable is not flushed.
pub open spec fn flushes(flush: Option<Flush>, v: StoreView) -> bool {
    match flush {
        Some(f) => {
            &&& v.memtable != Map::<Seq<u8>, Option<Seq<u8>>>::empty()
            &&& f.name@ == table_file(next_seq(v.tables))
            &&& sorted(entries_view(f.entries@))
            &&& layer_of(entries_view(f.entries@)) == v.memtable
        },
        None => v.memtable == Map::<Seq<u8>, Option<Seq<u8>>>::empty(),
    }
}

/// The tables that could be opened.
pub open spec fn usable(attempts: Seq<Result<SSTable, EngineError>>) -> Seq<SSTable>
    decreases attempts.len(),
{
    if attempts.len() == 0 {
        Seq::empty()
    } else {
        match attempts.last() {
            Ok(table) => usable(attempts.drop_last()).push(table),
            Err(_) => usable(attempts.drop_last()),
        }
    }
}

/// Of the files `names`, those in `bad` could not be opened; each other gave the table that it holds.
pub open spec fn all_opened(
    attempts: Seq<Result<SSTable, EngineError>>,
    names: Seq<Seq<u8>>,
    bad: Set<Seq<u8>>,
    disk: Disk,
) -> bool {
    &&& attempts.len() == names.len()
    &&& forall|i: int|
        0 <= i < attempts.len() ==> if bad.contains(names[i]) {
            #[trigger] attempts[i] is Err
        } else {
            attempts[i] matches Ok(table) && table@ == table_in(names[i], disk[names[i]])
        }
}

proof fn lemma_all_usable(
    attempts: Seq<Result<SSTable, EngineError>>,
    names: Seq<Seq<u8>>,
    bad: Set<Seq<u8>>,
    disk: Disk,
)
    requires
        all_opened(attempts, names, bad, disk),
    ensures
        tables_view(usable(attempts)) == opened(readable(names, bad), disk),
    decreases attempts.len(),
{
    reveal(Seq::filter);
    if attempts.len() == 0 {
        assert(tables_view(usable(attempts)) =~= opened(readable(names, bad), disk));
    } else {
        let n = attempts.len() - 1;
        let front = attempts.drop_last();
        let before = names.drop_last();
        assert forall|i: int| 0 <= i < front.len() implies if bad.contains(before[i]) {
            #[trigger] front[i] is Err
        } else {
            front[i] matches Ok(table) && table@ == table_in(before[i], disk[before[i]])
        } by {
            assert(front[i] == attempts[i]);
        }
        lemma_all_usable(front, before, bad, disk);
        if bad.contains(names[n]) {
            assert(attempts[n] is Err);
            assert(readable(names, bad) == readable(before, bad));
        } else {
            assert(attempts[n] is Ok);
            assert(readable(names, bad) == readable(before, bad).push(names[n]));
            assert(tables_view(usable(attempts)) =~= tables_view(usable(front)).push(
                table_in(names[n], disk[names[n]]),
            ));
            assert(opened(readable(names, bad), disk) =~= opened(readable(before, bad), disk).push(
                table_in(names[n], disk[names[n]]),
            ));
        }
    }
}

impl Engine {
    /// The parts of the engine are well formed.
    pub open spec fn wf(&self) -> bool {
        self.memtable.wf()
    }

    /// The size of the memtable after the write `e`.
    pub open spec fn size_with(&self, e: EntryView) -> int {
        self.memtable.size() - held_size(self.memtable@, e.0) + entry_size(e)
    }

    /// Opens the engine over the writes `entries` that the log replayed to and the tables in
    /// `attempts`, newest first. A table that could not be opened is left out.
    pub fn open(
        wal: Wal,
        entries: Vec<WalEntry>,
        attempts: Vec<Result<SSTable, EngineError>>,
        metrics: &mut EngineMetrics,
        now: u128,
    ) -> (r: Self)
        requires
            total_size(writes_view(entries@)) <= usize::MAX,
            old(metrics)@.total_writes + entries@.len() <= u64::MAX,
        ensures
            r.wf(),
            r@.memtable == layer_of(writes_view(entries@)),
            r.sstables@ == usable(attempts@),
            forall|log: Seq<u8>, names: Seq<Seq<u8>>, bad: Set<Seq<u8>>, disk: Disk|
                writes_view(entries@) == replayed(log).0 && all_opened(attempts@, names, bad, disk)
                    ==> r@ == #[trigger] recovered(log, readable(names, bad), disk),
            r.wal == wal,
            r.memtable.size() <= total_size(writes_view(entries@)),
            r.memtable.threshold() == DEFAULT_FLUSH_THRESHOLD,
            r.memtable.threshold() == 4 * 1024 * 1024,
            final(metrics)@ == (MetricsView {
                sstable_count: r.sstables@.len() as u64,
                ..old(metrics)@.wrote_times(now, entries@.len())
            }),
    {
        let memtable = Memtable::restore_from_wal(entries, DEFAULT_FLUSH_THRESHOLD, metrics, now);
        let mut sstables: Vec<SSTable> = Vec::new();
        assert(attempts@.take(0) =~= Seq::empty());
        for attempt in it: attempts
            invariant
                it.seq() == attempts@,
                sstables@ == usable(attempts@.take(it.index())),
        {
            proof {
                let next = attempts@.take(it.index() + 1);
                assert(next.drop_last() =~= attempts@.take(it.index()));
                assert(next.last() == attempt);
            }
            match attempt {
                Ok(table) => sstables.push(table),
                Err(_) => {},
            }
        }
        assert(attempts@.take(attempts@.len() as int) =~= attempts@);
        metrics.set_sstable_count(sstables.len() as u64);
        let r = Engine { wal, memtable, sstables };
        proof {
            assert forall|log: Seq<u8>, names: Seq<Seq<u8>>, bad: Set<Seq<u8>>, disk: Disk|
                writes_view(entries@) == replayed(log).0 && all_opened(
                    attempts@,
                    names,
                    bad,
                    disk,
                ) implies r@ == #[trigger] recovered(log, readable(names, bad), disk) by {
                lemma_all_usable(attempts@, names, bad, disk);
            }
        }
        r
    }

    /// The files among `names` that hold tables, newest first.
    pub fn find_sstable_paths(names: Vec<Vec<u8>>) -> (r: Vec<Vec<u8>>)
        ensures
            descending(names_view(r@)),
            names_view(r@).to_multiset() == names_view(names@).filter(
                |n: Seq<u8>| is_table_name(n),
            ).to_multiset(),
    {
        newest_first(select_tables(names))
    }

    /// Begins to write `value` under `key`.
    pub fn put(&self, key: &[u8], value: &[u8]) -> (r: PendingWrite)
        ensures
            r.entry@ == (key@, Some(value@)),
            r.record@ == write_record(r.entry@),
    {
        PendingWrite {
            entry: WalEntry::Put { key: slice_to_vec(key), value: slice_to_vec(value) },
            record: self.wal.append_put(key, value),
        }
    }

    /// Begins to delete `key`.
    pub fn delete(&self, key: &[u8]) -> (r: PendingWrite)
        ensures
            r.entry@ == (key@, None::<Seq<u8>>),
            r.record@ == write_record(r.entry@),
    {
        PendingWrite {
            entry: WalEntry::Delete { key: slice_to_vec(key) },
            record: self.wal.append_delete(key),
        }
    }

    /// Goes on with a write whose record is on disk; the log is now `wal_size` bytes long. If that
    /// fills the memtable, it is to be flushed.
    pub fn write_synced(
        &mut self,
        write: PendingWrite,
        wal_size: u64,
        metrics: &mut EngineMetrics,
        now: u128,
    ) -> (r: Option<Flush>)
        requires
            old(self).wf(),
            old(self).size_with(write.entry@) <= usize::MAX,
            old(metrics)@.total_writes < u64::MAX,
            old(self).size_with(write.entry@) > old(self).memtable.threshold() ==> next_seq(
                old(self)@.tables,
            ) <= u64::MAX,
        ensures
            final(self).wf(),
            final(self).wal.size() == wal_size,
            final(metrics)@ == (MetricsView { wal_size_bytes: wal_size, ..old(metrics)@ }).wrote(
                now,
            ),
            final(self).sstables == old(self).sstables,
            if old(self).size_with(write.entry@) > old(self).memtable.threshold() {
                &&& r is Some
                &&& flushes(r, old(self)@.wrote(write.entry@))
                &&& final(self)@.memtable == Map::<Seq<u8>, Option<Seq<u8>>>::empty()
                &&& final(self).memtable.size() == 0
                &&& final(self).memtable.threshold() == DEFAULT_FLUSH_THRESHOLD
            } else {
                &&& r is None
                &&& final(self)@ == old(self)@.wrote(write.entry@)
                &&& final(self).memtable.size() == old(self).size_with(write.entry@)
                &&& final(self).memtable.threshold() == old(self).memtable.threshold()
            },
    {
        self.wal.sync_size_to_metrics(wal_size, metrics);
        let full = match write.entry {
            WalEntry::Put { key, value } => self.memtable.put(key, value, metrics, now),
            WalEntry::Delete { key } => self.memtable.delete(key, metrics, now),
        };
        assert(self@ =~= old(self)@.wrote(write.entry@));
        assert(self@.memtable.contains_key(write.entry@.0));
        if full {
            self.flush_memtable()
        } else {
            None
        }
    }

    /// Empties the memtable, if it holds anything. Its entries are to be written to a table; until
    /// then they are still in the log.
    pub fn flush_memtable(&mut self) -> (r: Option<Flush>)
        requires
            old(self).wf(),
            old(self)@.memtable != Map::<Seq<u8>, Option<Seq<u8>>>::empty() ==> next_seq(
                old(self)@.tables,
            ) <= u64::MAX,
        ensures
            final(self).wf(),
            flushes(r, old(self)@),
            final(self).wal == old(self).wal,
            final(self).sstables == old(self).sstables,
            final(self)@.memtable == Map::<Seq<u8>, Option<Seq<u8>>>::empty(),
            r is None ==> *final(self) == *old(self),
            r is Some ==> final(self).memtable.size() == 0 && final(self).memtable.threshold()
                == DEFAULT_FLUSH_THRESHOLD,
    {
        if self.memtable.is_empty() {
            return None;
        }
        let seq = self.next_sstable_seq();
        let mut full = Memtable::new(DEFAULT_FLUSH_THRESHOLD);
        std::mem::swap(&mut full, &mut self.memtable);
        Some(Flush { name: table_file_name(seq), entries: full.drain_sorted() })
    }

    /// Goes on with a flush whose file is on disk: its table is the newest.
    pub fn table_written(&mut self, table: SSTable)
        ensures
            final(self).wal == old(self).wal,
            final(self).memtable == old(self).memtable,
            final(self).sstables@ == seq![table] + old(self).sstables@,
            final(self)@.tables == seq![table@] + old(self)@.tables,
    {
        self.sstables.insert(0, table);
        assert(self.sstables@ =~= seq![table] + old(self).sstables@);
        assert(self@.tables =~= seq![table@] + old(self)@.tables);
    }

    /// Goes on with a flush after which the log was emptied. Enough tables are to be compacted.
    pub fn wal_truncated(&mut self, metrics: &mut EngineMetrics) -> (r: Option<Compaction>)
        requires
            old(self).sstables@.len() >= COMPACTION_TRIGGER ==> numbers_left(old(self)@.tables),
        ensures
            final(self).wal.size() == 0,
            final(self).memtable == old(self).memtable,
            final(self).sstables == old(self).sstables,
            final(metrics)@ == (MetricsView {
                wal_size_bytes: 0,
                sstable_count: old(self).sstables@.len() as u64,
                ..old(metrics)@
            }),
            if old(self).sstables@.len() >= COMPACTION_TRIGGER {
                compacts(r, old(self)@.tables)
            } else {
                r is None
            },
            r is Some <==> old(self).sstables@.len() >= 4,
    {
        self.wal.truncate(metrics);
        metrics.set_sstable_count(self.sstables.len() as u64);
        if self.sstables.len() >= COMPACTION_TRIGGER {
            self.run_compaction()
        } else {
            None
        }
    }

    /// Begins to compact the oldest tables, if there are at least two.
    pub fn run_compaction(&self) -> (r: Option<Compaction>)
        requires
            numbers_left(self@.tables),
        ensures
            compacts(r, self@.tables),
    {
        compact(&self.sstables, self.next_sstable_seq())
    }

    /// Notes that the file of a table was renamed.
    pub fn renamed(&mut self, table: usize, name: Vec<u8>)
        requires
            table < old(self).sstables@.len(),
        ensures
            final(self).wal == old(self).wal,
            final(self).memtable == old(self).memtable,
            final(self).sstables@ == old(self).sstables@.update(
                table as int,
                (SSTable { name, ..old(self).sstables@[table as int] }),
            ),
            final(self)@.tables == renamed(old(self)@.tables, table as int, name@),
    {
        self.sstables[table].name = name;
        assert(self@.tables =~= renamed(old(self)@.tables, table as int, name@));
    }

    /// Goes on with a compaction that is finished: its table takes the place of the merged ones. The
    /// files of these are to be removed in the order in which they are returned, the oldest first: so
    /// a value is never left behind by the tombstone that hides it.
    pub fn compacted(&mut self, result: CompactionResult, metrics: &mut EngineMetrics) -> (r: Vec<
        Vec<u8>,
    >)
        requires
            result.consumed_paths@.len() <= old(self).sstables@.len(),
        ensures
            names_view(r@) == names_view(result.consumed_paths@).reverse(),
            final(self).wal == old(self).wal,
            final(self).memtable == old(self).memtable,
            final(self).sstables@ == old(self).sstables@.take(
                old(self).sstables@.len() - result.consumed_paths@.len(),
            ) + match result.new_sst {
                Some(table) => seq![table],
                None => Seq::empty(),
            },
            final(self)@.tables == old(self)@.tables.take(
                old(self)@.tables.len() - result.consumed_paths@.len(),
            ) + match result.new_sst {
                Some(table) => seq![table@],
                None => Seq::empty(),
            },
            final(metrics)@ == (MetricsView {
                sstable_count: final(self).sstables@.len() as u64,
                ..old(metrics)@
            }),
    {
        let ghost ts = self@.tables;
        let lo = self.sstables.len() - result.consumed_paths.len();
        self.sstables.truncate(lo);
        assert(self@.tables =~= ts.take(lo as int));
        match result.new_sst {
            Some(table) => {
                self.sstables.push(table);
                assert(self@.tables =~= ts.take(lo as int) + seq![table@]);
            },
            None => {},
        }
        metrics.set_sstable_count(self.sstables.len() as u64);
        reversed(&result.consumed_paths)
    }

    /// The number of the next table: one more than the greatest in use.
    pub fn next_sstable_seq(&self) -> (r: u64)
        requires
            next_seq(self@.tables) <= u64::MAX,
        ensures
            r == next_seq(self@.tables),
    {
        let ghost ts = self@.tables;
        let mut max: u64 = 0;
        let mut i: usize = 0;
        assert(ts.take(0) =~= Seq::empty());
        while i < self.sstables.len()
            invariant
                i <= self.sstables@.len(),
                ts == tables_view(self.sstables@),
                max == max_seq(ts.take(i as int)),
            decreases self.sstables@.len() - i,
        {
            proof {
                assert(ts.take(i + 1).drop_last() =~= ts.take(i as int));
                assert(ts.take(i + 1).last() == self.sstables@[i as int]@);
            }
            match table_seq(self.sstables[i].name.as_slice()) {
                Some(n) => {
                    if n > max {
                        max = n;
                    }
                },
                None => {},
            }
            i = i + 1;
        }
        assert(ts.take(i as int) =~= ts);
        max + 1
    }
}

/// The names in reverse order.
fn reversed(names: &Vec<Vec<u8>>) -> (r: Vec<Vec<u8>>)
    ensures
        names_view(r@) == names_view(names@).reverse(),
{
    let mut out: Vec<Vec<u8>> = Vec::new();
    let mut i: usize = names.len();
    while i > 0
        invariant
            i <= names@.len(),
            out@.len() == names@.len() - i,
            forall|j: int|
                0 <= j < out@.len() ==> (#[trigger] out@[j])@ == names@[names@.len() - 1 - j]@,
        decreases i,
    {
        i = i - 1;
        out.push(slice_to_vec(names[i].as_slice()));
    }
    assert(names_view(out@) =~= names_view(names@).reverse());
    out
}

/// There are numbers for the table of a compaction and for the tables that are newer than the merged
/// ones.
pub open spec fn numbers_left(ts: Seq<TableView>) -> bool {
    next_seq(ts) + first_merged(ts.len()) <= u64::MAX
}

/// `r` is the compaction of the oldest of the tables `ts`, if there is one to begin.
pub open spec fn compacts(r: Option<Compaction>, ts: Seq<TableView>) -> bool {
    &&& r is None <==> ts.len() < 2
    &&& r matches Some(c) ==> {
        &&& c.wf()
        &&& c.at() == ts.len() - 1
        &&& c.lo() == first_merged(ts.len())
        &&& c.name() == table_file(next_seq(ts))
        &&& c.renames() == young_names(next_seq(ts), c.lo())
        &&& forall|disk: Disk| #[trigger] c.agrees(ts, disk)
        &&& forall|disk: Disk| #[trigger]
            c.outcome(ts, disk) == merge_from(
                ts,
                disk,
                c.lo() as int,
                ts.len() - 1,
                Seq::empty(),
                None,
                Map::empty(),
            )
    }
}

} // verus!
