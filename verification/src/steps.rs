//! How the steps of the engine are changes of the store, to which the laws of recovery apply.

use vstd::prelude::*;

use crate::compaction::{Compaction, Merged, Replacement, merged_to};
use crate::engine::{Flush, PendingWrite, compacts, flushes, usable};
use crate::error::EngineError;
use crate::format::encodable;
use crate::merge::all_sound;
use crate::model::{Disk, lemma_layer_holds, lemma_layer_key_written, sorted};
use crate::names::{file_name_keeps_the_number, seq_of};
use crate::order::key_lt;
use crate::reader::Reply;
use crate::recovery::{Change, Moment, compacted_store, leads, moved_upto, renamed_upto};
use crate::sorted::{entries_view, entry_view};
use crate::sstable::{SSTable, TableFile, flushed};
use crate::store::{StoreView, compaction_misses_nothing, next_seq};
use crate::wal::write_record;

verus! {

/// A write whose record was appended to the log and that is in the memtable is a write of the store.
pub proof fn a_logged_write_is_a_change(s: Moment, write: PendingWrite, t: Moment)
    requires
        encodable(write.entry@),
        write.record@ == write_record(write.entry@),
        t.view == s.view.wrote(write.entry@),
        t.disk == s.disk,
        t.log == s.log + write.record@,
    ensures
        leads(s, Change::Write { e: write.entry@ }, t),
{
}

/// What is flushed is the whole memtable, tombstones included: its entries in the ascending order of
/// their keys, and no others. The new table has the next number.
pub proof fn a_flush_writes_the_whole_memtable(v: StoreView, flush: Flush)
    requires
        flushes(Some(flush), v),
        next_seq(v.tables) <= u64::MAX,
    ensures
        v.memtable.dom() != Set::<Seq<u8>>::empty(),
        seq_of(flush.name@) == Some(next_seq(v.tables)),
        forall|i: int, j: int|
            0 <= i < j < flush.entries@.len() ==> key_lt(
                (#[trigger] flush.entries@[i]).0@,
                (#[trigger] flush.entries@[j]).0@,
            ),
        forall|n: int|
            0 <= n < flush.entries@.len() ==> v.memtable.contains_pair(
                (#[trigger] flush.entries@[n]).0@,
                flush.entries@[n].1@,
            ),
        forall|k: Seq<u8>| #[trigger]
            v.memtable.contains_key(k) ==> exists|n: int|
                0 <= n < flush.entries@.len() && (#[trigger] flush.entries@[n]).0@ == k,
{
    let es = entries_view(flush.entries@);
    file_name_keeps_the_number(next_seq(v.tables));
    assert(v.memtable.dom() != Set::<Seq<u8>>::empty()) by {
        if v.memtable.dom() == Set::<Seq<u8>>::empty() {
            assert(v.memtable =~= Map::empty());
        }
    }
    assert forall|i: int, j: int| 0 <= i < j < flush.entries@.len() implies key_lt(
        (#[trigger] flush.entries@[i]).0@,
        (#[trigger] flush.entries@[j]).0@,
    ) by {
        assert(es[i] == entry_view(flush.entries@[i]));
        assert(es[j] == entry_view(flush.entries@[j]));
        assert(key_lt(es[i].0, es[j].0));
    }
    assert forall|n: int| 0 <= n < flush.entries@.len() implies v.memtable.contains_pair(
        (#[trigger] flush.entries@[n]).0@,
        flush.entries@[n].1@,
    ) by {
        assert(es[n] == entry_view(flush.entries@[n]));
        lemma_layer_holds(es, n);
    }
    assert forall|k: Seq<u8>| #[trigger] v.memtable.contains_key(k) implies exists|n: int|
        0 <= n < flush.entries@.len() && (#[trigger] flush.entries@[n]).0@ == k by {
        lemma_layer_key_written(es, k);
        let n = choose|n: int| 0 <= n < es.len() && #[trigger] es[n].0 == k;
        assert(es[n] == entry_view(flush.entries@[n]));
        assert(flush.entries@[n].0@ == k);
    }
}

/// A memtable that holds anything, be it a tombstone, is flushed.
pub proof fn only_an_empty_memtable_is_not_flushed(v: StoreView, k: Seq<u8>)
    requires
        flushes(None, v),
    ensures
        !v.memtable.contains_key(k),
{
}

/// A flush whose table was written and after which the log was emptied is a flush of the store.
pub proof fn a_finished_flush_is_a_change(
    s: Moment,
    flush: Flush,
    file: TableFile,
    num_bits: u64,
    num_hash_fns: u8,
    t: Moment,
)
    requires
        flushes(Some(flush), s.view),
        next_seq(s.view.tables) <= u64::MAX,
        flushed(file, flush.name@, entries_view(flush.entries@), num_bits, num_hash_fns),
        t.view.memtable == Map::<Seq<u8>, Option<Seq<u8>>>::empty(),
        t.view.tables == seq![file.table@] + s.view.tables,
        t.disk == s.disk.insert(file.table@.name, file.bytes@),
        t.log == Seq::<u8>::empty(),
    ensures
        leads(
            s,
            Change::Flush { es: entries_view(flush.entries@), file, num_bits, num_hash_fns },
            t,
        ),
{
}

/// A compaction that is begun merges the four oldest tables, or all where there are fewer. Its table
/// gets the next number, and the newer tables get the numbers above it, in their order.
pub proof fn a_compaction_takes_the_oldest_tables(c: Compaction, v: StoreView, disk: Disk, i: int)
    requires
        compacts(Some(c), v.tables),
        all_sound(v.tables, disk),
        next_seq(v.tables) + c.lo() <= u64::MAX,
    ensures
        v.tables.len() >= 2,
        v.tables.len() <= 4 ==> c.lo() == 0,
        v.tables.len() > 4 ==> c.lo() + 4 == v.tables.len(),
        seq_of(c.name()) == Some(next_seq(v.tables)),
        c.renames().len() == c.lo(),
        0 <= i < c.lo() ==> seq_of(c.renames()[i]) == Some(
            (next_seq(v.tables) + c.lo() - i) as nat,
        ),
        c.outcome(v.tables, disk) is Ok,
{
    file_name_keeps_the_number(next_seq(v.tables));
    compaction_misses_nothing(v.tables, disk, c.lo() as int);
    if 0 <= i < c.lo() {
        file_name_keeps_the_number((next_seq(v.tables) + c.lo() - i) as nat);
    }
}

/// Fewer than two tables are not compacted, and more are.
pub proof fn two_tables_are_compacted(c: Option<Compaction>, v: StoreView)
    requires
        compacts(c, v.tables),
    ensures
        c is Some <==> v.tables.len() >= 2,
{
}

/// A compaction that was run to its end is a compaction of the store.
pub proof fn a_finished_compaction_is_a_change(
    s: Moment,
    c: Compaction,
    merged: Merged,
    reply: Reply,
    replacement: Replacement,
    num_bits: u64,
    num_hash_fns: u8,
    t: Moment,
)
    requires
        compacts(Some(c), s.view.tables),
        all_sound(s.view.tables, s.disk),
        next_seq(s.view.tables) + c.lo() <= u64::MAX,
        sorted(entries_view(merged.entries@)),
        merged_to(Ok(merged), c.outcome(s.view.tables, s.disk), c.lo(), reply),
        merged.name@ == c.name(),
        replacement.file is None <==> merged.entries@.len() == 0,
        replacement.file matches Some(file) ==> flushed(
            file,
            merged.name@,
            entries_view(merged.entries@),
            num_bits,
            num_hash_fns,
        ),
        t.view == compacted_store(s.view, c.lo() as int, replacement.file, 0),
        t.log == s.log,
        replacement.file matches Some(file) ==> t.disk.contains_pair(
            file.table@.name,
            file.bytes@,
        ),
        forall|i: int|
            0 <= i < c.lo() ==> t.disk.contains_pair(
                (#[trigger] renamed_upto(s.view.tables, c.lo(), c.lo() as int)[i]).name,
                moved_upto(s.view.tables, c.lo(), c.lo() as int, s.disk)[renamed_upto(
                    s.view.tables,
                    c.lo(),
                    c.lo() as int,
                )[i].name],
            ),
    ensures
        leads(
            s,
            Change::Compaction {
                lo: c.lo() as int,
                es: entries_view(merged.entries@),
                merged: replacement.file,
                num_bits,
                num_hash_fns,
            },
            t,
        ),
{
    compaction_misses_nothing(s.view.tables, s.disk, c.lo() as int);
}

/// The tables that an engine is opened with are those that could be opened, in their order.
pub proof fn every_table_that_opens_is_used(
    a: Seq<Result<SSTable, EngineError>>,
    b: Seq<Result<SSTable, EngineError>>,
    table: SSTable,
    error: EngineError,
)
    ensures
        usable(a + b) == usable(a) + usable(b),
        usable(seq![Ok(table)]) == seq![table],
        usable(seq![Err(error)]) == Seq::<SSTable>::empty(),
    decreases b.len(),
{
    let one = seq![Ok::<SSTable, EngineError>(table)];
    let bad = seq![Err::<SSTable, EngineError>(error)];
    assert(one.drop_last() =~= Seq::empty());
    assert(bad.drop_last() =~= Seq::empty());
    assert(usable(one.drop_last()) =~= Seq::empty());
    assert(usable(one) =~= seq![table]);
    if b.len() == 0 {
        assert(a + b =~= a);
        assert(usable(a) + usable(b) =~= usable(a));
    } else {
        every_table_that_opens_is_used(a, b.drop_last(), table, error);
        assert((a + b).drop_last() =~= a + b.drop_last());
        assert(usable(a + b) =~= usable(a) + usable(b));
    }
}

} // verus!
