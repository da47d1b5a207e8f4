//! What a crash leaves, and what is recovered from it.

use vstd::prelude::*;
use vstd::relations::{
    antisymmetric, reflexive, sorted_by, strongly_connected, total_ordering, transitive,
};
use vstd::seq_lib::lemma_sorted_unique;

use crate::compaction::{table_names, young_names};
use crate::format::{EntryView, encodable, wal_valid};
use crate::merge::table_layers;
use crate::model::{Disk, all_encodable, layer_of, lemma_flatten_one, sorted, within};
use crate::names::{
    descending, file_name_keeps_the_number, file_names_order_as_numbers, lemma_name_lt_excludes,
    lemma_name_lt_total, lemma_name_lt_transitive, name_le, seq_of, table_file,
};
use crate::search::Fault;
use crate::sstable::{
    TableFile, TableView, flushed, lemma_sound_file, opened_table_is_sound, sound, table_in,
};
use crate::store::{
    StoreView, a_rename_keeps_the_store, a_write_is_read_back,
    crash_while_files_are_removed_keeps_the_store, crashed_tables, flush_keeps_the_store,
    get_is_exact, max_seq, moved, next_seq, other_files_do_not_matter, renamed, replaces,
    scan_is_exact, value_of,
};
use crate::wal::{log_grows_by_append, log_of, replay_gives_back_the_writes, replayed, write_record};

verus! {

// ---------------------------------------------------------------------------
// Names of tables
// ---------------------------------------------------------------------------

proof fn lemma_max_seq(ts: Seq<TableView>, i: int)
    requires
        0 <= i < ts.len(),
    ensures
        seq_of(ts[i].name) matches Some(n) ==> n <= max_seq(ts),
    decreases ts.len(),
{
    if i < ts.len() - 1 {
        lemma_max_seq(ts.drop_last(), i);
    }
}

/// The number of a new table is greater than that of every table, so its name is not in use.
pub proof fn a_new_table_has_a_new_name(ts: Seq<TableView>)
    requires
        next_seq(ts) <= u64::MAX,
    ensures
        forall|i: int|
            0 <= i < ts.len() ==> (seq_of((#[trigger] ts[i]).name) matches Some(n) ==> n < next_seq(
                ts,
            )),
        !table_names(ts).contains(table_file(next_seq(ts))),
{
    let n = next_seq(ts);
    file_name_keeps_the_number(n);
    assert forall|i: int| 0 <= i < ts.len() implies (seq_of((#[trigger] ts[i]).name) matches Some(m)
        ==> m < n) by {
        lemma_max_seq(ts, i);
    }
    if table_names(ts).contains(table_file(n)) {
        let i = choose|i: int| 0 <= i < ts.len() && table_names(ts)[i] == table_file(n);
        assert(ts[i].name == table_file(n));
    }
}

/// The number in the name of a table.
pub open spec fn number(t: TableView) -> nat {
    seq_of(t.name)->0
}

/// Each table is named by its number, and the numbers fall from the newest table to the oldest.
pub open spec fn numbered(ts: Seq<TableView>) -> bool {
    &&& forall|i: int|
        0 <= i < ts.len() ==> number(#[trigger] ts[i]) <= u64::MAX && ts[i].name == table_file(
            number(ts[i]),
        )
    &&& forall|i: int, j: int|
        0 <= i < j < ts.len() ==> number(#[trigger] ts[j]) < number(#[trigger] ts[i])
}

/// Where the numbers fall, so do the names, by which the tables are ordered when they are opened.
pub proof fn numbered_names_fall(ts: Seq<TableView>)
    requires
        numbered(ts),
    ensures
        descending(table_names(ts)),
{
    let names = table_names(ts);
    assert forall|i: int, j: int| 0 <= i < j < names.len() implies name_le(
        #[trigger] names[j],
        #[trigger] names[i],
    ) by {
        assert(number(ts[j]) < number(ts[i]));
        file_names_order_as_numbers(number(ts[j]), number(ts[i]));
    }
}

/// A new newest table keeps the numbers falling.
pub proof fn flush_keeps_the_numbering(ts: Seq<TableView>, t: TableView)
    requires
        numbered(ts),
        next_seq(ts) <= u64::MAX,
        t.name == table_file(next_seq(ts)),
    ensures
        numbered(seq![t] + ts),
{
    let all = seq![t] + ts;
    file_name_keeps_the_number(next_seq(ts));
    a_new_table_has_a_new_name(ts);
    assert forall|i: int| 0 <= i < all.len() implies number(#[trigger] all[i]) <= u64::MAX
        && all[i].name == table_file(number(all[i])) by {
        if i > 0 {
            assert(all[i] == ts[i - 1]);
        }
    }
    assert forall|i: int, j: int| 0 <= i < j < all.len() implies number(#[trigger] all[j]) < number(
        #[trigger] all[i],
    ) by {
        assert(all[j] == ts[j - 1]);
        file_name_keeps_the_number(number(ts[j - 1]));
        if i > 0 {
            assert(all[i] == ts[i - 1]);
        }
    }
}

// ---------------------------------------------------------------------------
// Opening again
// ---------------------------------------------------------------------------

/// The tables in the files `names`, in that order.
pub open spec fn opened(names: Seq<Seq<u8>>, disk: Disk) -> Seq<TableView> {
    Seq::new(names.len(), |i: int| table_in(names[i], disk[names[i]]))
}

/// Names in descending order are settled by which names they are.
proof fn lemma_descending_unique(a: Seq<Seq<u8>>, b: Seq<Seq<u8>>)
    requires
        descending(a),
        descending(b),
        a.to_multiset() == b.to_multiset(),
    ensures
        a == b,
{
    let falls = |x: Seq<u8>, y: Seq<u8>| name_le(y, x);
    assert(reflexive(falls));
    assert(antisymmetric(falls)) by {
        assert forall|x: Seq<u8>, y: Seq<u8>| #[trigger] falls(x, y) && #[trigger] falls(
            y,
            x,
        ) implies x == y by {
            if x != y {
                lemma_name_lt_excludes(x, y);
            }
        }
    }
    assert(transitive(falls)) by {
        assert forall|x: Seq<u8>, y: Seq<u8>, z: Seq<u8>| #[trigger] falls(x, y) && #[trigger] falls(
            y,
            z,
        ) implies falls(x, z) by {
            if x != y && y != z {
                lemma_name_lt_transitive(z, y, x);
            }
        }
    }
    assert(strongly_connected(falls)) by {
        assert forall|x: Seq<u8>, y: Seq<u8>| #[trigger] falls(x, y) || #[trigger] falls(y, x) by {
            lemma_name_lt_total(x, y);
        }
    }
    assert(total_ordering(falls));
    assert(sorted_by(a, falls));
    assert(sorted_by(b, falls));
    lemma_sorted_unique(a, b, falls);
}

/// Opening the files of the tables again, in the order of their names, gives the same layers in the
/// same order.
pub proof fn reopened_tables_hold_the_same(v: StoreView, disk: Disk, names: Seq<Seq<u8>>)
    requires
        v.consistent(disk),
        descending(table_names(v.tables)),
        descending(names),
        names.to_multiset() == table_names(v.tables).to_multiset(),
    ensures
        names == table_names(v.tables),
        (StoreView { tables: opened(names, disk), ..v }).consistent(disk),
        (StoreView { tables: opened(names, disk), ..v }).contents(disk) == v.contents(disk),
{
    let ts = v.tables;
    lemma_descending_unique(names, table_names(ts));
    let again = opened(names, disk);
    assert forall|i: int| 0 <= i < again.len() implies disk.contains_key((#[trigger] again[i]).name)
        && sound(again[i], disk[again[i].name]) by {
        assert(names[i] == ts[i].name);
        lemma_sound_file(ts[i], disk[ts[i].name]);
        opened_table_is_sound(names[i], disk[names[i]]);
    }
    assert forall|i: int, j: int| 0 <= i < j < again.len() implies (#[trigger] again[i]).name != (
    #[trigger] again[j]).name by {
        assert(names[i] == ts[i].name && names[j] == ts[j].name);
        assert(ts[i].name != ts[j].name);
    }
    assert(table_layers(again, disk) =~= table_layers(ts, disk));
}

/// The store that a crash leaves: the log replayed, and the tables opened from the files `names`.
pub open spec fn recovered(log: Seq<u8>, names: Seq<Seq<u8>>, disk: Disk) -> StoreView {
    StoreView { memtable: layer_of(replayed(log).0), tables: opened(names, disk) }
}

/// The log holds the writes that made the memtable.
pub open spec fn logged(v: StoreView, log: Seq<u8>, ws: Seq<EntryView>) -> bool {
    &&& all_encodable(ws)
    &&& layer_of(ws) == v.memtable
    &&& log == log_of(ws)
}

/// The store can be recovered from its files and its log.
pub open spec fn recoverable(v: StoreView, disk: Disk, log: Seq<u8>) -> bool {
    &&& v.consistent(disk)
    &&& numbered(v.tables)
    &&& exists|ws: Seq<EntryView>| #[trigger] logged(v, log, ws)
}

/// The names of the files that can be opened: all but those in `bad`.
pub open spec fn readable(names: Seq<Seq<u8>>, bad: Set<Seq<u8>>) -> Seq<Seq<u8>> {
    names.filter(|n: Seq<u8>| !bad.contains(n))
}

/// `names` lists the files that are found, in the order in which they are opened. Those that can be
/// opened are the files of the tables; those in `bad` cannot, as when their writing was cut short.
pub open spec fn listing(names: Seq<Seq<u8>>, bad: Set<Seq<u8>>, ts: Seq<TableView>) -> bool {
    &&& descending(names)
    &&& readable(names, bad).to_multiset() == table_names(ts).to_multiset()
}

/// What is left of names in descending order is in descending order.
proof fn lemma_readable_descends(names: Seq<Seq<u8>>, bad: Set<Seq<u8>>)
    requires
        descending(names),
    ensures
        descending(readable(names, bad)),
        forall|i: int|
            0 <= i < readable(names, bad).len() ==> names.contains(
                #[trigger] readable(names, bad)[i],
            ),
    decreases names.len(),
{
    reveal(Seq::filter);
    if names.len() > 0 {
        let n = names.len() - 1;
        let front = names.drop_last();
        let kept = readable(front, bad);
        let all = readable(names, bad);
        lemma_readable_descends(front, bad);
        assert forall|i: int| 0 <= i < kept.len() implies names.contains(#[trigger] kept[i])
            && name_le(names[n], kept[i]) by {
            let j = choose|j: int| 0 <= j < front.len() && front[j] == kept[i];
            assert(names[j] == kept[i]);
        }
        if bad.contains(names[n]) {
            assert(all == kept);
        } else {
            assert(all == kept.push(names[n]));
            assert forall|i: int| 0 <= i < all.len() implies names.contains(#[trigger] all[i]) by {
                if i < kept.len() {
                    assert(all[i] == kept[i]);
                } else {
                    assert(all[i] == names[n]);
                }
            }
        }
    }
}

/// A crash loses nothing: the store that is recovered holds what it held before, whatever part of a
/// further write had reached the log and whatever files there are that cannot be opened, and can be
/// recovered again.
pub proof fn recovery_restores_the_store(
    v: StoreView,
    disk: Disk,
    log: Seq<u8>,
    tail: Seq<u8>,
    names: Seq<Seq<u8>>,
    bad: Set<Seq<u8>>,
)
    requires
        recoverable(v, disk, log),
        tail.len() == 0 || !wal_valid(tail),
        listing(names, bad, v.tables),
    ensures
        ({
            let again = recovered(log + tail, readable(names, bad), disk);
            &&& again.contents(disk) == v.contents(disk)
            &&& again.memtable == v.memtable
            &&& recoverable(again, disk, log)
        }),
        readable(names, bad) == table_names(v.tables),
        replayed(log + tail).1 == log.len(),
{
    let ws = choose|ws: Seq<EntryView>| #[trigger] logged(v, log, ws);
    replay_gives_back_the_writes(ws, tail);
    numbered_names_fall(v.tables);
    lemma_readable_descends(names, bad);
    reopened_tables_hold_the_same(v, disk, readable(names, bad));
    let again = recovered(log + tail, readable(names, bad), disk);
    assert(logged(again, log, ws));
    assert forall|i: int| 0 <= i < again.tables.len() implies number(#[trigger] again.tables[i])
        == number(v.tables[i]) && again.tables[i].name == v.tables[i].name by {
        assert(table_names(v.tables)[i] == v.tables[i].name);
    }
    assert(numbered(again.tables)) by {
        assert forall|i: int| 0 <= i < again.tables.len() implies number(
            #[trigger] again.tables[i],
        ) <= u64::MAX && again.tables[i].name == table_file(number(again.tables[i])) by {
            assert(number(v.tables[i]) <= u64::MAX);
        }
        assert forall|i: int, j: int| 0 <= i < j < again.tables.len() implies number(
            #[trigger] again.tables[j],
        ) < number(#[trigger] again.tables[i]) by {
            assert(number(v.tables[j]) < number(v.tables[i]));
        }
    }
}

/// A new engine can be recovered.
pub proof fn an_empty_store_is_recoverable(v: StoreView, disk: Disk)
    requires
        v.memtable == Map::<Seq<u8>, Option<Seq<u8>>>::empty(),
        v.tables.len() == 0,
    ensures
        recoverable(v, disk, Seq::empty()),
{
    let none = Seq::<EntryView>::empty();
    assert(layer_of(none) == v.memtable);
    assert(log_of(none) =~= Seq::empty());
    assert(logged(v, Seq::empty(), none));
}

/// A write whose record is in the log is not lost.
pub proof fn a_logged_write_is_recoverable(v: StoreView, disk: Disk, log: Seq<u8>, e: EntryView)
    requires
        recoverable(v, disk, log),
        encodable(e),
    ensures
        recoverable(v.wrote(e), disk, log + write_record(e)),
{
    let ws = choose|ws: Seq<EntryView>| #[trigger] logged(v, log, ws);
    assert(ws.push(e).drop_last() =~= ws);
    log_grows_by_append(ws, e);
    a_write_is_read_back(v, disk, e);
    assert(logged(v.wrote(e), log + write_record(e), ws.push(e)));
}

/// A flush can be recovered once its table is written, both before the log is emptied and after.
pub proof fn a_flush_is_recoverable(
    v: StoreView,
    disk: Disk,
    log: Seq<u8>,
    es: Seq<EntryView>,
    file: TableFile,
    num_bits: u64,
    num_hash_fns: u8,
)
    requires
        recoverable(v, disk, log),
        next_seq(v.tables) <= u64::MAX,
        sorted(es),
        layer_of(es) == v.memtable,
        flushed(file, table_file(next_seq(v.tables)), es, num_bits, num_hash_fns),
    ensures
        ({
            let after = StoreView { memtable: Map::empty(), tables: seq![file.table@] + v.tables };
            let crashed = StoreView { memtable: v.memtable, ..after };
            let now = disk.insert(file.table@.name, file.bytes@);
            &&& recoverable(crashed, now, log)
            &&& crashed.contents(now) == v.contents(disk)
            &&& recoverable(after, now, Seq::empty())
            &&& after.contents(now) == v.contents(disk)
        }),
{
    let name = table_file(next_seq(v.tables));
    a_new_table_has_a_new_name(v.tables);
    flush_keeps_the_store(v, disk, es, file, name, num_bits, num_hash_fns);
    flush_keeps_the_numbering(v.tables, file.table@);
    let after = StoreView { memtable: Map::empty(), tables: seq![file.table@] + v.tables };
    let crashed = StoreView { memtable: v.memtable, ..after };
    let ws = choose|ws: Seq<EntryView>| #[trigger] logged(v, log, ws);
    assert(logged(crashed, log, ws));
    let none = Seq::<EntryView>::empty();
    assert(layer_of(none) == after.memtable);
    assert(log_of(none) =~= Seq::empty());
    assert(logged(after, Seq::empty(), none));
}

// ---------------------------------------------------------------------------
// Compactions
// ---------------------------------------------------------------------------

/// The tables once the newest `n` of the `lo` that are newer than the merged ones are renamed.
pub open spec fn renamed_upto(ts: Seq<TableView>, lo: nat, n: int) -> Seq<TableView>
    decreases n,
{
    if n <= 0 {
        ts
    } else {
        renamed(renamed_upto(ts, lo, n - 1), n - 1, young_names(next_seq(ts), lo)[n - 1])
    }
}

/// The files once those of the newest `n` tables are renamed.
pub open spec fn moved_upto(ts: Seq<TableView>, lo: nat, n: int, disk: Disk) -> Disk
    decreases n,
{
    if n <= 0 {
        disk
    } else {
        moved(
            moved_upto(ts, lo, n - 1, disk),
            ts[n - 1].name,
            young_names(next_seq(ts), lo)[n - 1],
        )
    }
}

proof fn lemma_numbers_below_next(ts: Seq<TableView>)
    requires
        numbered(ts),
        next_seq(ts) <= u64::MAX,
    ensures
        forall|i: int| 0 <= i < ts.len() ==> number(#[trigger] ts[i]) < next_seq(ts),
{
    a_new_table_has_a_new_name(ts);
    assert forall|i: int| 0 <= i < ts.len() implies number(#[trigger] ts[i]) < next_seq(ts) by {
        assert(ts[i].name == table_file(number(ts[i])));
        file_name_keeps_the_number(number(ts[i]));
    }
}

/// The names after some renames: the renamed tables have the numbers above the merged table's, the
/// others are as they were.
proof fn lemma_renamed_upto(ts: Seq<TableView>, lo: nat, n: int)
    requires
        numbered(ts),
        0 <= n <= lo <= ts.len(),
        next_seq(ts) + lo <= u64::MAX,
    ensures
        ({
            let now = renamed_upto(ts, lo, n);
            &&& now.len() == ts.len()
            &&& numbered(now)
            &&& forall|i: int| n <= i < ts.len() ==> #[trigger] now[i] == ts[i]
            &&& forall|i: int| 0 <= i < n ==> number(#[trigger] now[i]) == next_seq(ts) + lo - i
        }),
    decreases n,
{
    lemma_numbers_below_next(ts);
    if n > 0 {
        let before = renamed_upto(ts, lo, n - 1);
        let now = renamed_upto(ts, lo, n);
        let num = (next_seq(ts) + lo - (n - 1)) as nat;
        lemma_renamed_upto(ts, lo, n - 1);
        file_name_keeps_the_number(num);
        assert(young_names(next_seq(ts), lo)[n - 1] == table_file(num));
        assert(number(now[n - 1]) == num);
        assert forall|i: int| 0 <= i < now.len() implies number(#[trigger] now[i]) <= u64::MAX
            && now[i].name == table_file(number(now[i])) by {
            if i != n - 1 {
                assert(now[i] == before[i]);
            }
        }
        assert forall|i: int, j: int| 0 <= i < j < now.len() implies number(#[trigger] now[j])
            < number(#[trigger] now[i]) by {
            if i != n - 1 && j != n - 1 {
                assert(now[i] == before[i] && now[j] == before[j]);
            } else if j != n - 1 {
                assert(now[j] == before[j] && before[j] == ts[j]);
            } else {
                assert(now[i] == before[i]);
            }
        }
        assert forall|i: int| 0 <= i < n implies number(#[trigger] now[i]) == next_seq(ts) + lo
            - i by {
            if i != n - 1 {
                assert(now[i] == before[i]);
            }
        }
    }
}

/// A compaction can be recovered while it renames the newest tables, the newest first.
pub proof fn renames_are_recoverable(v: StoreView, disk: Disk, log: Seq<u8>, lo: nat, n: int)
    requires
        recoverable(v, disk, log),
        0 <= n <= lo <= v.tables.len(),
        next_seq(v.tables) + lo <= u64::MAX,
    ensures
        ({
            let after = StoreView { tables: renamed_upto(v.tables, lo, n), ..v };
            let now = moved_upto(v.tables, lo, n, disk);
            &&& recoverable(after, now, log)
            &&& after.contents(now) == v.contents(disk)
            &&& table_layers(after.tables, now) == table_layers(v.tables, disk)
        }),
    decreases n,
{
    let ts = v.tables;
    let after = StoreView { tables: renamed_upto(ts, lo, n), ..v };
    let ws = choose|ws: Seq<EntryView>| #[trigger] logged(v, log, ws);
    assert(logged(after, log, ws));
    lemma_renamed_upto(ts, lo, n);
    if n > 0 {
        let before = StoreView { tables: renamed_upto(ts, lo, n - 1), ..v };
        let num = (next_seq(ts) + lo - (n - 1)) as nat;
        let name = table_file(num);
        renames_are_recoverable(v, disk, log, lo, n - 1);
        lemma_renamed_upto(ts, lo, n - 1);
        lemma_numbers_below_next(ts);
        file_name_keeps_the_number(num);
        assert(young_names(next_seq(ts), lo)[n - 1] == name);
        assert(before.tables[n - 1] == ts[n - 1]);
        if table_names(before.tables).contains(name) {
            let i = choose|i: int|
                0 <= i < before.tables.len() && table_names(before.tables)[i] == name;
            assert(number(before.tables[i]) == num);
            if i >= n - 1 {
                assert(before.tables[i] == ts[i]);
            }
            assert(false);
        }
        a_rename_keeps_the_store(before, moved_upto(ts, lo, n - 1, disk), n - 1, name);
    }
}

/// The tables of a compaction, before any of them is removed or after some are, are numbered.
proof fn lemma_crashed_tables_numbered(
    ts: Seq<TableView>,
    lo: int,
    file: Option<TableFile>,
    j: int,
)
    requires
        numbered(ts),
        next_seq(ts) + lo <= u64::MAX,
        0 <= lo,
        0 <= j,
        lo + j <= ts.len(),
        file matches Some(f) ==> f.table@.name == table_file(next_seq(ts)),
    ensures
        numbered(crashed_tables(renamed_upto(ts, lo as nat, lo), lo, file, j)),
{
    let young = renamed_upto(ts, lo as nat, lo);
    let all = crashed_tables(young, lo, file, j);
    let base = young.take(lo + j);
    lemma_renamed_upto(ts, lo as nat, lo);
    lemma_numbers_below_next(ts);
    file_name_keeps_the_number(next_seq(ts));
    lemma_numbered_front(young, lo + j);
    match file {
        Some(f) => {
            assert forall|i: int| lo <= i < base.len() implies number(#[trigger] base[i])
                < next_seq(ts) by {
                assert(base[i] == young[i] && young[i] == ts[i]);
            }
            assert forall|i: int| 0 <= i < lo implies next_seq(ts) < number(
                #[trigger] base[i],
            ) by {
                assert(base[i] == young[i]);
            }
            lemma_numbered_between(base, lo, f.table@);
            assert(all =~= base.insert(lo, f.table@));
        },
        None => {
            assert(all =~= base);
        },
    }
}

/// The newest of numbered tables are numbered.
proof fn lemma_numbered_front(ts: Seq<TableView>, n: int)
    requires
        numbered(ts),
        0 <= n <= ts.len(),
    ensures
        numbered(ts.take(n)),
{
    let front = ts.take(n);
    assert forall|i: int| 0 <= i < front.len() implies number(#[trigger] front[i]) <= u64::MAX
        && front[i].name == table_file(number(front[i])) by {
        assert(front[i] == ts[i]);
    }
    assert forall|i: int, j: int| 0 <= i < j < front.len() implies number(#[trigger] front[j])
        < number(#[trigger] front[i]) by {
        assert(front[i] == ts[i] && front[j] == ts[j]);
    }
}

/// A table whose number lies between those of its neighbours.
proof fn lemma_numbered_between(ts: Seq<TableView>, at: int, t: TableView)
    requires
        numbered(ts),
        0 <= at <= ts.len(),
        number(t) <= u64::MAX,
        t.name == table_file(number(t)),
        forall|i: int| 0 <= i < at ==> number(t) < number(#[trigger] ts[i]),
        forall|i: int| at <= i < ts.len() ==> number(#[trigger] ts[i]) < number(t),
    ensures
        numbered(ts.insert(at, t)),
{
    let all = ts.insert(at, t);
    assert forall|i: int| 0 <= i < all.len() implies number(#[trigger] all[i]) <= u64::MAX
        && all[i].name == table_file(number(all[i])) by {
        if i < at {
            assert(all[i] == ts[i]);
        } else if i > at {
            assert(all[i] == ts[i - 1]);
        } else {
            assert(all[i] == t);
        }
    }
    assert forall|i: int, j: int| 0 <= i < j < all.len() implies number(#[trigger] all[j]) < number(
        #[trigger] all[i],
    ) by {
        if j < at {
            assert(all[i] == ts[i] && all[j] == ts[j]);
        } else if j == at {
            assert(all[i] == ts[i] && all[j] == t);
        } else {
            assert(all[j] == ts[j - 1]);
            if i < at {
                assert(all[i] == ts[i]);
            } else if i > at {
                assert(all[i] == ts[i - 1]);
            } else {
                assert(all[i] == t);
            }
        }
    }
}

/// The state of a compaction of the store `v` from position `lo` on, whose files are `now`: the newer
/// tables are renamed, the table of the merge, if there is one, is written, and of the merged files
/// the newest `j` are left.
pub open spec fn compacting(
    v: StoreView,
    disk: Disk,
    lo: int,
    es: Seq<EntryView>,
    file: Option<TableFile>,
    num_bits: u64,
    num_hash_fns: u8,
    j: int,
    now: Disk,
) -> bool {
    let ts = v.tables;
    let young = renamed_upto(ts, lo as nat, lo);
    let before = moved_upto(ts, lo as nat, lo, disk);
    &&& 0 <= lo
    &&& 0 <= j
    &&& lo + j <= ts.len()
    &&& next_seq(ts) + lo <= u64::MAX
    &&& replaces(file, ts, disk, lo, es, table_file(next_seq(ts)), num_bits, num_hash_fns)
    &&& file matches Some(f) ==> now.contains_key(f.table@.name) && now[f.table@.name] == f.bytes@
    &&& forall|i: int|
        0 <= i < lo + j ==> now.contains_key((#[trigger] young[i]).name) && now[young[i].name]
            == before[young[i].name]
}

/// The store that a compaction leaves when it stops there.
pub open spec fn compacted_store(v: StoreView, lo: int, file: Option<TableFile>, j: int) -> StoreView {
    StoreView { tables: crashed_tables(renamed_upto(v.tables, lo as nat, lo), lo, file, j), ..v }
}

/// A compaction, of some tables or of all, can be recovered from the moment when its table is written:
/// before any merged file is removed, after some are, and after all are. It keeps what the store
/// holds.
pub proof fn a_compaction_is_recoverable(
    v: StoreView,
    disk: Disk,
    log: Seq<u8>,
    lo: int,
    es: Seq<EntryView>,
    file: Option<TableFile>,
    num_bits: u64,
    num_hash_fns: u8,
    j: int,
    now: Disk,
)
    requires
        recoverable(v, disk, log),
        compacting(v, disk, lo, es, file, num_bits, num_hash_fns, j, now),
    ensures
        recoverable(compacted_store(v, lo, file, j), now, log),
        compacted_store(v, lo, file, j).contents(now) == v.contents(disk),
{
    let ts = v.tables;
    let next = next_seq(ts);
    let name = table_file(next);
    let mid = StoreView { tables: renamed_upto(ts, lo as nat, lo), ..v };
    let before = moved_upto(ts, lo as nat, lo, disk);
    let ws = choose|ws: Seq<EntryView>| #[trigger] logged(v, log, ws);
    renames_are_recoverable(v, disk, log, lo as nat, lo);
    lemma_renamed_upto(ts, lo as nat, lo);
    lemma_next_name_unused(ts, lo as nat, lo);
    assert(replaces(file, mid.tables, before, lo, es, name, num_bits, num_hash_fns));
    crash_while_files_are_removed_keeps_the_store(
        mid,
        before,
        lo,
        es,
        file,
        name,
        num_bits,
        num_hash_fns,
        j,
        now,
    );
    lemma_crashed_tables_numbered(ts, lo, file, j);
    assert(logged(compacted_store(v, lo, file, j), log, ws));
}

/// When the files are opened again during or after a compaction, the tables come in the order that
/// they had: those that were not merged, newest first, before the table of the compaction. The store
/// holds what it held before.
pub proof fn reopened_compaction_keeps_the_store(
    v: StoreView,
    disk: Disk,
    log: Seq<u8>,
    lo: int,
    es: Seq<EntryView>,
    file: Option<TableFile>,
    num_bits: u64,
    num_hash_fns: u8,
    j: int,
    now: Disk,
    tail: Seq<u8>,
    names: Seq<Seq<u8>>,
    bad: Set<Seq<u8>>,
)
    requires
        recoverable(v, disk, log),
        compacting(v, disk, lo, es, file, num_bits, num_hash_fns, j, now),
        tail.len() == 0 || !wal_valid(tail),
        listing(names, bad, compacted_store(v, lo, file, j).tables),
    ensures
        readable(names, bad) == table_names(compacted_store(v, lo, file, j).tables),
        recovered(log + tail, readable(names, bad), now).contents(now) == v.contents(disk),
{
    let after = compacted_store(v, lo, file, j);
    a_compaction_is_recoverable(v, disk, log, lo, es, file, num_bits, num_hash_fns, j, now);
    recovery_restores_the_store(after, now, log, tail, names, bad);
}

/// While the newer tables are renamed, no table has the name of the table to come.
proof fn lemma_next_name_unused(ts: Seq<TableView>, lo: nat, n: int)
    requires
        numbered(ts),
        0 <= n <= lo <= ts.len(),
        next_seq(ts) + lo <= u64::MAX,
    ensures
        !table_names(renamed_upto(ts, lo, n)).contains(table_file(next_seq(ts))),
{
    let mid = renamed_upto(ts, lo, n);
    let name = table_file(next_seq(ts));
    lemma_renamed_upto(ts, lo, n);
    lemma_numbers_below_next(ts);
    file_name_keeps_the_number(next_seq(ts));
    if table_names(mid).contains(name) {
        let i = choose|i: int| 0 <= i < mid.len() && table_names(mid)[i] == name;
        assert(number(mid[i]) == next_seq(ts));
        if i >= n {
            assert(mid[i] == ts[i]);
        }
        assert(false);
    }
}

/// Bytes in a file of a new name, such as the beginning of a table that is being written, leave what
/// can be recovered as it is.
pub proof fn an_unfinished_file_is_no_loss(
    v: StoreView,
    disk: Disk,
    log: Seq<u8>,
    name: Seq<u8>,
    bytes: Seq<u8>,
)
    requires
        recoverable(v, disk, log),
        !table_names(v.tables).contains(name),
    ensures
        recoverable(v, disk.insert(name, bytes), log),
        v.contents(disk.insert(name, bytes)) == v.contents(disk),
{
    other_files_do_not_matter(v, disk, name, bytes);
}

// ---------------------------------------------------------------------------
// Runs
// ---------------------------------------------------------------------------

/// A store at one moment: what is in memory, the files of its tables, and its log.
pub struct Moment {
    pub view: StoreView,
    pub disk: Disk,
    pub log: Seq<u8>,
}

/// What an engine has done to its store.
pub enum Change {
    /// A write, logged and in the memtable.
    Write { e: EntryView },
    /// A flush, up to the emptied log.
    Flush { es: Seq<EntryView>, file: TableFile, num_bits: u64, num_hash_fns: u8 },
    /// A compaction from position `lo` on, up to the removal of the merged files.
    Compaction {
        lo: int,
        es: Seq<EntryView>,
        merged: Option<TableFile>,
        num_bits: u64,
        num_hash_fns: u8,
    },
    /// A stop at `halt`, when the store was as in `stopped` and `tail` was what had reached the log of
    /// a further record; then the engine was opened again, over the files `names`, of which those in
    /// `bad` could not be opened.
    Restart {
        halt: Halt,
        stopped: Moment,
        tail: Seq<u8>,
        names: Seq<Seq<u8>>,
        bad: Set<Seq<u8>>,
    },
}

/// Where an engine was stopped.
pub enum Halt {
    /// Between two changes, or while the record of a write was appended to the log.
    Between,
    /// In a flush, when `begun` was what had reached the file of its table.
    Flushing { begun: Seq<u8> },
    /// In a flush, after its table was written and before the log was emptied.
    Flush { es: Seq<EntryView>, file: TableFile, num_bits: u64, num_hash_fns: u8 },
    /// In a compaction from position `lo` on, after `n` of the newer tables were renamed.
    Renaming { lo: int, n: int },
    /// In a compaction from position `lo` on, after the newer tables were renamed, when `part` was
    /// what had reached the file of its table.
    Merging { lo: int, part: Seq<u8> },
    /// In a compaction from position `lo` on, after its table was written, when the newest `j` of the
    /// merged files were left.
    Removing {
        lo: int,
        es: Seq<EntryView>,
        merged: Option<TableFile>,
        num_bits: u64,
        num_hash_fns: u8,
        j: int,
    },
}

/// The table of a flush is written; the log still holds its writes.
pub open spec fn table_added(
    s: Moment,
    es: Seq<EntryView>,
    file: TableFile,
    num_bits: u64,
    num_hash_fns: u8,
    t: Moment,
) -> bool {
    &&& next_seq(s.view.tables) <= u64::MAX
    &&& sorted(es)
    &&& layer_of(es) == s.view.memtable
    &&& flushed(file, table_file(next_seq(s.view.tables)), es, num_bits, num_hash_fns)
    &&& t.view.tables == seq![file.table@] + s.view.tables
    &&& t.disk == s.disk.insert(file.table@.name, file.bytes@)
}

/// `change` leads from `s` to `t`.
pub open spec fn leads(s: Moment, change: Change, t: Moment) -> bool {
    match change {
        Change::Write { e } => {
            &&& encodable(e)
            &&& t.view == s.view.wrote(e)
            &&& t.disk == s.disk
            &&& t.log == s.log + write_record(e)
        },
        Change::Flush { es, file, num_bits, num_hash_fns } => {
            &&& table_added(s, es, file, num_bits, num_hash_fns, t)
            &&& t.view.memtable == Map::<Seq<u8>, Option<Seq<u8>>>::empty()
            &&& t.log == Seq::<u8>::empty()
        },
        Change::Compaction { lo, es, merged, num_bits, num_hash_fns } => {
            &&& compacting(s.view, s.disk, lo, es, merged, num_bits, num_hash_fns, 0, t.disk)
            &&& t.view == compacted_store(s.view, lo, merged, 0)
            &&& t.log == s.log
        },
        Change::Restart { halt, stopped, tail, names, bad } => {
            &&& halted(s, halt, stopped)
            &&& tail.len() == 0 || !wal_valid(tail)
            &&& listing(names, bad, stopped.view.tables)
            &&& t.view == recovered(stopped.log + tail, readable(names, bad), stopped.disk)
            &&& t.disk == stopped.disk
            &&& t.log == stopped.log
        },
    }
}

/// A run from a new, empty store: the moments between its changes.
pub open spec fn run(moments: Seq<Moment>, changes: Seq<Change>) -> bool {
    &&& moments.len() == changes.len() + 1
    &&& moments[0].view.memtable == Map::<Seq<u8>, Option<Seq<u8>>>::empty()
    &&& moments[0].view.tables.len() == 0
    &&& moments[0].log == Seq::<u8>::empty()
    &&& forall|i: int|
        0 <= i < changes.len() ==> leads(moments[i], #[trigger] changes[i], moments[i + 1])
}

/// What a store holds after the changes: only writes count.
pub open spec fn held_after(changes: Seq<Change>) -> Map<Seq<u8>, Seq<u8>>
    decreases changes.len(),
{
    if changes.len() == 0 {
        Map::empty()
    } else {
        let before = held_after(changes.drop_last());
        match changes.last() {
            Change::Write { e } => match e.1 {
                Some(value) => before.insert(e.0, value),
                None => before.remove(e.0),
            },
            _ => before,
        }
    }
}

/// Stopped at `halt` after the moment `s`, the store is as in `t`.
pub open spec fn halted(s: Moment, halt: Halt, t: Moment) -> bool {
    match halt {
        Halt::Between => t == s,
        Halt::Flushing { begun } => {
            &&& next_seq(s.view.tables) <= u64::MAX
            &&& t.view == s.view
            &&& t.disk == s.disk.insert(table_file(next_seq(s.view.tables)), begun)
            &&& t.log == s.log
        },
        Halt::Flush { es, file, num_bits, num_hash_fns } => {
            &&& table_added(s, es, file, num_bits, num_hash_fns, t)
            &&& t.view.memtable == s.view.memtable
            &&& t.log == s.log
        },
        Halt::Renaming { lo, n } => {
            &&& 0 <= n <= lo <= s.view.tables.len()
            &&& next_seq(s.view.tables) + lo <= u64::MAX
            &&& t.view == (StoreView {
                tables: renamed_upto(s.view.tables, lo as nat, n),
                ..s.view
            })
            &&& t.disk == moved_upto(s.view.tables, lo as nat, n, s.disk)
            &&& t.log == s.log
        },
        Halt::Merging { lo, part } => {
            &&& 0 <= lo <= s.view.tables.len()
            &&& next_seq(s.view.tables) + lo <= u64::MAX
            &&& t.view == (StoreView {
                tables: renamed_upto(s.view.tables, lo as nat, lo),
                ..s.view
            })
            &&& t.disk == moved_upto(s.view.tables, lo as nat, lo, s.disk).insert(
                table_file(next_seq(s.view.tables)),
                part,
            )
            &&& t.log == s.log
        },
        Halt::Removing { lo, es, merged, num_bits, num_hash_fns, j } => {
            &&& compacting(s.view, s.disk, lo, es, merged, num_bits, num_hash_fns, j, t.disk)
            &&& t.view == compacted_store(s.view, lo, merged, j)
            &&& t.log == s.log
        },
    }
}

/// Wherever a change is stopped, the store can be recovered, and holds what it held before.
pub proof fn a_halt_is_recoverable(s: Moment, halt: Halt, end: Moment)
    requires
        recoverable(s.view, s.disk, s.log),
        halted(s, halt, end),
    ensures
        recoverable(end.view, end.disk, end.log),
        end.view.contents(end.disk) == s.view.contents(s.disk),
{
    match halt {
        Halt::Between => {},
        Halt::Flushing { begun } => {
            let name = table_file(next_seq(s.view.tables));
            a_new_table_has_a_new_name(s.view.tables);
            an_unfinished_file_is_no_loss(s.view, s.disk, s.log, name, begun);
        },
        Halt::Flush { es, file, num_bits, num_hash_fns } => {
            a_flush_is_recoverable(s.view, s.disk, s.log, es, file, num_bits, num_hash_fns);
            assert(end.view =~= StoreView {
                memtable: s.view.memtable,
                tables: seq![file.table@] + s.view.tables,
            });
        },
        Halt::Renaming { lo, n } => {
            renames_are_recoverable(s.view, s.disk, s.log, lo as nat, n);
        },
        Halt::Merging { lo, part } => {
            let name = table_file(next_seq(s.view.tables));
            let moved = moved_upto(s.view.tables, lo as nat, lo, s.disk);
            renames_are_recoverable(s.view, s.disk, s.log, lo as nat, lo);
            lemma_next_name_unused(s.view.tables, lo as nat, lo);
            an_unfinished_file_is_no_loss(end.view, moved, s.log, name, part);
        },
        Halt::Removing { lo, es, merged, num_bits, num_hash_fns, j } => {
            a_compaction_is_recoverable(
                s.view,
                s.disk,
                s.log,
                lo,
                es,
                merged,
                num_bits,
                num_hash_fns,
                j,
                end.disk,
            );
        },
    }
}

/// A change keeps a store recoverable, and only a write changes what it holds.
pub proof fn a_change_is_recoverable(s: Moment, change: Change, t: Moment)
    requires
        recoverable(s.view, s.disk, s.log),
        leads(s, change, t),
    ensures
        recoverable(t.view, t.disk, t.log),
        t.view.contents(t.disk) == match change {
            Change::Write { e } => match e.1 {
                Some(value) => s.view.contents(s.disk).insert(e.0, value),
                None => s.view.contents(s.disk).remove(e.0),
            },
            _ => s.view.contents(s.disk),
        },
{
    match change {
        Change::Write { e } => {
            a_logged_write_is_recoverable(s.view, s.disk, s.log, e);
            a_write_is_read_back(s.view, s.disk, e);
        },
        Change::Flush { es, file, num_bits, num_hash_fns } => {
            a_flush_is_recoverable(s.view, s.disk, s.log, es, file, num_bits, num_hash_fns);
            assert(t.view =~= StoreView {
                memtable: Map::empty(),
                tables: seq![file.table@] + s.view.tables,
            });
        },
        Change::Compaction { lo, es, merged, num_bits, num_hash_fns } => {
            a_compaction_is_recoverable(
                s.view,
                s.disk,
                s.log,
                lo,
                es,
                merged,
                num_bits,
                num_hash_fns,
                0,
                t.disk,
            );
        },
        Change::Restart { halt, stopped, tail, names, bad } => {
            a_halt_is_recoverable(s, halt, stopped);
            recovery_restores_the_store(
                stopped.view,
                stopped.disk,
                stopped.log,
                tail,
                names,
                bad,
            );
        },
    }
}

/// After every run the store can be recovered, and holds just what the writes of the run say.
pub proof fn a_run_is_recoverable(moments: Seq<Moment>, changes: Seq<Change>)
    requires
        run(moments, changes),
    ensures
        recoverable(moments.last().view, moments.last().disk, moments.last().log),
        moments.last().view.contents(moments.last().disk) == held_after(changes),
    decreases changes.len(),
{
    if changes.len() == 0 {
        let m = moments[0];
        an_empty_store_is_recoverable(m.view, m.disk);
        assert(m.view.layers(m.disk) =~= seq![m.view.memtable]);
        lemma_flatten_one(m.view.memtable);
        assert(m.view.contents(m.disk) =~= held_after(changes));
    } else {
        let earlier = moments.drop_last();
        let before = changes.drop_last();
        assert forall|i: int| 0 <= i < before.len() implies leads(
            earlier[i],
            #[trigger] before[i],
            earlier[i + 1],
        ) by {
            assert(before[i] == changes[i]);
        }
        a_run_is_recoverable(earlier, before);
        let n = changes.len() - 1;
        assert(leads(moments[n], changes[n], moments[n + 1]));
        assert(earlier.last() == moments[n]);
        a_change_is_recoverable(moments[n], changes.last(), moments.last());
    }
}

/// Wherever an engine is stopped after a run, between changes or within one, however often it was
/// stopped and opened before, and whatever part of a further record has reached its log: the store
/// that is opened again holds what the writes of the run say, and every lookup and every scan of it
/// gives just that. A table file whose writing was cut short counts as one that cannot be opened.
pub proof fn an_engine_that_is_opened_again_has_lost_nothing(
    moments: Seq<Moment>,
    changes: Seq<Change>,
    halt: Halt,
    end: Moment,
    tail: Seq<u8>,
    names: Seq<Seq<u8>>,
    bad: Set<Seq<u8>>,
    key: Seq<u8>,
    from: Seq<u8>,
    upto: Seq<u8>,
)
    requires
        run(moments, changes),
        halted(moments.last(), halt, end),
        tail.len() == 0 || !wal_valid(tail),
        listing(names, bad, end.view.tables),
    ensures
        ({
            let again = recovered(end.log + tail, readable(names, bad), end.disk);
            &&& again.consistent(end.disk)
            &&& again.memtable == end.view.memtable
            &&& again.contents(end.disk) == held_after(changes)
            &&& again.get(end.disk, key) == Ok::<Option<Seq<u8>>, Fault>(
                value_of(held_after(changes), key),
            )
            &&& again.scan(end.disk, from, upto) == Ok::<Map<Seq<u8>, Seq<u8>>, Fault>(
                within(held_after(changes), from, Some(upto)),
            )
        }),
{
    let s = moments.last();
    a_run_is_recoverable(moments, changes);
    a_halt_is_recoverable(s, halt, end);
    recovery_restores_the_store(end.view, end.disk, end.log, tail, names, bad);
    let again = recovered(end.log + tail, readable(names, bad), end.disk);
    get_is_exact(again, end.disk, key);
    scan_is_exact(again, end.disk, from, upto);
}

} // verus!
