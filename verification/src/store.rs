//! The store as a whole: layers in memory and on disk, what they hold together, and the laws that the
//! engine's operations keep.

use vstd::prelude::*;

use crate::compaction::{Merged, first_merged, kept, merged_to, table_names};
use crate::format::{EntryView, encodable};
use crate::layout::entries_in;
use crate::merge::{all_sound, merge_from, merge_is_exact, table_layers};
use crate::model::{
    Disk, Layer, all_encodable, apply, flatten, layer_of, layers_know_no_other_keys,
    lemma_flatten_concat, lemma_flatten_one, lemma_layer_holds, lemma_layer_key_written,
    lemma_live_restricted, lemma_restrict_overlay, live, only_values_are_alive, overlay, restricted,
    sorted, the_newest_layer_decides, within, without_tombstones,
};
use crate::names::seq_of;
use crate::order::{key_le, parts_below};
use crate::reader::Reply;
use crate::search::{Fault, lemma_reversed_is_empty};
use crate::sorted::{entries_view, entry_view};
use crate::sstable::{
    TableFile, TableView, file_layer, flushed, flushed_table_is_sound, lemma_sound_file, sound,
    table_get, table_lookup_is_exact, table_scan,
};

verus! {

/// What an engine keeps in memory: the entries of its memtable, and its tables, newest first.
#[verifier::ext_equal]
pub struct StoreView {
    pub memtable: Layer,
    pub tables: Seq<TableView>,
}

/// Every entry fits a record's length fields.
pub open spec fn writable(m: Layer) -> bool {
    forall|k: Seq<u8>| #[trigger] m.contains_key(k) ==> encodable((k, m[k]))
}

/// No two tables have one name.
pub open spec fn distinct_names(ts: Seq<TableView>) -> bool {
    forall|i: int, j: int|
        0 <= i < j < ts.len() ==> (#[trigger] ts[i]).name != (#[trigger] ts[j]).name
}

impl StoreView {
    /// The layers of the store, newest first.
    pub open spec fn layers(self, disk: Disk) -> Seq<Layer> {
        seq![self.memtable] + table_layers(self.tables, disk)
    }

    /// What the store holds: the live values of all layers, the newest deciding.
    pub open spec fn contents(self, disk: Disk) -> Map<Seq<u8>, Seq<u8>> {
        live(flatten(self.layers(disk)))
    }

    /// Memory and disk fit together: each table has its file on disk and describes it.
    pub open spec fn consistent(self, disk: Disk) -> bool {
        &&& all_sound(self.tables, disk)
        &&& distinct_names(self.tables)
        &&& writable(self.memtable)
    }

    /// The store after a write to its memtable.
    pub open spec fn wrote(self, e: EntryView) -> StoreView {
        StoreView { memtable: self.memtable.insert(e.0, e.1), ..self }
    }

    /// What looking `key` up comes to: the memtable decides, then the tables from the newest on.
    pub open spec fn get(self, disk: Disk, key: Seq<u8>) -> Result<Option<Seq<u8>>, Fault> {
        if self.memtable.contains_key(key) {
            Ok(self.memtable[key])
        } else {
            get_from(self.tables, disk, 0, key)
        }
    }

    /// What scanning the keys from `start` up to but not including `end` comes to.
    pub open spec fn scan(self, disk: Disk, start: Seq<u8>, end: Seq<u8>) -> Result<
        Map<Seq<u8>, Seq<u8>>,
        Fault,
    > {
        match merge_from(
            self.tables,
            disk,
            0,
            self.tables.len() - 1,
            start,
            Some(end),
            Map::empty(),
        ) {
            Ok(m) => Ok(live(overlay(m, restricted(self.memtable, start, Some(end))))),
            Err(fault) => Err(fault),
        }
    }
}

/// What looking `key` up in the tables from position `i` on comes to: the first that knows the key
/// decides.
pub open spec fn get_from(ts: Seq<TableView>, disk: Disk, i: int, key: Seq<u8>) -> Result<
    Option<Seq<u8>>,
    Fault,
>
    decreases (if i < ts.len() { ts.len() - i } else { 0 }),
{
    if i >= ts.len() {
        Ok(None)
    } else {
        match table_get(ts[i], disk[ts[i].name], key) {
            Ok(Some(value)) => Ok(value),
            Ok(None) => get_from(ts, disk, i + 1, key),
            Err(fault) => Err(fault),
        }
    }
}

/// The value of `key`, if it has one.
pub open spec fn value_of(m: Map<Seq<u8>, Seq<u8>>, key: Seq<u8>) -> Option<Seq<u8>> {
    if m.contains_key(key) {
        Some(m[key])
    } else {
        None
    }
}

/// The greatest number among the names of the tables, or 0.
pub open spec fn max_seq(ts: Seq<TableView>) -> nat
    decreases ts.len(),
{
    if ts.len() == 0 {
        0
    } else {
        let rest = max_seq(ts.drop_last());
        match seq_of(ts.last().name) {
            Some(n) => if n > rest {
                n
            } else {
                rest
            },
            None => rest,
        }
    }
}

/// The number of the next table.
pub open spec fn next_seq(ts: Seq<TableView>) -> nat {
    max_seq(ts) + 1
}

/// The number of the next table is one more than that of a table, or 1: no number is skipped.
pub proof fn the_next_number_follows_the_greatest(ts: Seq<TableView>)
    ensures
        next_seq(ts) == 1 || exists|i: int|
            0 <= i < ts.len() && seq_of((#[trigger] ts[i]).name) == Some((next_seq(ts) - 1) as nat),
    decreases ts.len(),
{
    if ts.len() > 0 {
        let front = ts.drop_last();
        the_next_number_follows_the_greatest(front);
        if next_seq(ts) == next_seq(front) && next_seq(front) != 1 {
            let i = choose|i: int|
                0 <= i < front.len() && seq_of((#[trigger] front[i]).name) == Some(
                    (next_seq(front) - 1) as nat,
                );
            assert(ts[i] == front[i]);
        } else if next_seq(ts) != 1 {
            assert(seq_of(ts[ts.len() - 1].name) == Some((next_seq(ts) - 1) as nat));
        }
    }
}

// ---------------------------------------------------------------------------
// Reading and writing
// ---------------------------------------------------------------------------

/// A write changes what the store holds for its key, and for no other: a value that was put is there,
/// a key that was deleted is not.
pub proof fn a_write_is_read_back(v: StoreView, disk: Disk, e: EntryView)
    requires
        v.consistent(disk),
        encodable(e),
    ensures
        v.wrote(e).consistent(disk),
        v.wrote(e).contents(disk) == match e.1 {
            Some(value) => v.contents(disk).insert(e.0, value),
            None => v.contents(disk).remove(e.0),
        },
{
    let after = v.wrote(e);
    lemma_contents(v, disk);
    lemma_contents(after, disk);
    assert(after.contents(disk) =~= match e.1 {
        Some(value) => v.contents(disk).insert(e.0, value),
        None => v.contents(disk).remove(e.0),
    });
}

proof fn lemma_get_from(ts: Seq<TableView>, disk: Disk, i: int, key: Seq<u8>)
    requires
        all_sound(ts, disk),
        0 <= i <= ts.len(),
    ensures
        get_from(ts, disk, i, key) == Ok::<Option<Seq<u8>>, Fault>(
            value_of(live(flatten(table_layers(ts, disk).skip(i))), key),
        ),
    decreases ts.len() - i,
{
    let ls = table_layers(ts, disk);
    if i < ts.len() {
        assert(sound(ts[i], disk[ts[i].name]));
        table_lookup_is_exact(ts[i], disk[ts[i].name], key);
        lemma_get_from(ts, disk, i + 1, key);
        assert(ls.skip(i).drop_first() =~= ls.skip(i + 1));
        assert(ls.skip(i)[0] == file_layer(disk[ts[i].name]));
    } else {
        assert(ls.skip(i) =~= Seq::empty());
        assert(flatten(ls.skip(i)) =~= Map::empty());
    }
}

/// A lookup gives just what the store holds.
pub proof fn get_is_exact(v: StoreView, disk: Disk, key: Seq<u8>)
    requires
        v.consistent(disk),
    ensures
        v.get(disk, key) == Ok::<Option<Seq<u8>>, Fault>(value_of(v.contents(disk), key)),
{
    let below = table_layers(v.tables, disk);
    lemma_contents(v, disk);
    lemma_get_from(v.tables, disk, 0, key);
    assert(below.skip(0) =~= below);
}

/// A lookup asks the layers from the newest to the oldest, and the first that knows the key decides: its
/// value is the answer, and a tombstone means that there is none.
pub proof fn a_lookup_takes_the_newest_entry(v: StoreView, disk: Disk, key: Seq<u8>, i: int)
    requires
        v.consistent(disk),
        0 <= i < v.tables.len(),
    ensures
        v.memtable.contains_key(key) ==> v.get(disk, key) == Ok::<Option<Seq<u8>>, Fault>(
            v.memtable[key],
        ),
        !v.memtable.contains_key(key) && file_layer(disk[v.tables[i].name]).contains_key(key) && (
        forall|j: int|
            0 <= j < i ==> !file_layer(disk[(#[trigger] v.tables[j]).name]).contains_key(key))
            ==> v.get(disk, key) == Ok::<Option<Seq<u8>>, Fault>(
            file_layer(disk[v.tables[i].name])[key],
        ),
        !v.memtable.contains_key(key) && (forall|j: int|
            0 <= j < v.tables.len() ==> !file_layer(
                disk[(#[trigger] v.tables[j]).name],
            ).contains_key(key)) ==> v.get(disk, key) == Ok::<Option<Seq<u8>>, Fault>(None),
{
    let ls = table_layers(v.tables, disk);
    let all = flatten(ls);
    lemma_contents(v, disk);
    get_is_exact(v, disk, key);
    only_values_are_alive(overlay(all, v.memtable), key);
    if !v.memtable.contains_key(key) {
        if file_layer(disk[v.tables[i].name]).contains_key(key) && forall|j: int|
            0 <= j < i ==> !file_layer(disk[(#[trigger] v.tables[j]).name]).contains_key(key) {
            assert forall|j: int| 0 <= j < i implies !(#[trigger] ls[j]).contains_key(key) by {
                assert(ls[j] == file_layer(disk[v.tables[j].name]));
            }
            the_newest_layer_decides(ls, i, key);
        }
        if forall|j: int|
            0 <= j < v.tables.len() ==> !file_layer(
                disk[(#[trigger] v.tables[j]).name],
            ).contains_key(key) {
            assert forall|j: int| 0 <= j < ls.len() implies !(#[trigger] ls[j]).contains_key(key) by {
                assert(ls[j] == file_layer(disk[v.tables[j].name]));
            }
            layers_know_no_other_keys(ls, key);
        }
    }
}

/// A table that cannot be searched makes the lookup fail, if no newer layer knows the key: no older
/// value is taken instead.
pub proof fn a_damaged_table_makes_a_lookup_fail(
    v: StoreView,
    disk: Disk,
    key: Seq<u8>,
    i: int,
    fault: Fault,
)
    requires
        0 <= i < v.tables.len(),
        !v.memtable.contains_key(key),
        forall|j: int|
            0 <= j < i ==> table_get(
                #[trigger] v.tables[j],
                disk[v.tables[j].name],
                key,
            ) == Ok::<Option<Option<Seq<u8>>>, Fault>(None),
        table_get(v.tables[i], disk[v.tables[i].name], key) == Err::<
            Option<Option<Seq<u8>>>,
            Fault,
        >(fault),
    ensures
        v.get(disk, key) == Err::<Option<Seq<u8>>, Fault>(fault),
{
    lemma_get_skips(v.tables, disk, 0, i, key);
}

/// Tables that do not know a key are passed over.
proof fn lemma_get_skips(ts: Seq<TableView>, disk: Disk, from: int, i: int, key: Seq<u8>)
    requires
        0 <= from <= i < ts.len(),
        forall|j: int|
            from <= j < i ==> table_get(#[trigger] ts[j], disk[ts[j].name], key) == Ok::<
                Option<Option<Seq<u8>>>,
                Fault,
            >(None),
    ensures
        get_from(ts, disk, from, key) == get_from(ts, disk, i, key),
    decreases i - from,
{
    if from < i {
        lemma_get_skips(ts, disk, from + 1, i, key);
    }
}

/// A table that cannot be scanned makes the scan of the store fail, if the older ones can be.
pub proof fn a_damaged_table_makes_a_scan_fail(
    v: StoreView,
    disk: Disk,
    start: Seq<u8>,
    end: Seq<u8>,
    i: int,
    fault: Fault,
)
    requires
        0 <= i < v.tables.len(),
        forall|j: int|
            i < j < v.tables.len() ==> table_scan(
                #[trigger] v.tables[j],
                disk[v.tables[j].name],
                start,
                Some(end),
            ) is Ok,
        table_scan(v.tables[i], disk[v.tables[i].name], start, Some(end)) == Err::<
            Seq<EntryView>,
            Fault,
        >(fault),
    ensures
        v.scan(disk, start, end) == Err::<Map<Seq<u8>, Seq<u8>>, Fault>(fault),
{
    lemma_merge_fails(
        v.tables,
        disk,
        v.tables.len() - 1,
        start,
        Some(end),
        Map::empty(),
        i,
        fault,
    );
}

proof fn lemma_merge_fails(
    ts: Seq<TableView>,
    disk: Disk,
    at: int,
    start: Seq<u8>,
    stop: Option<Seq<u8>>,
    m: Layer,
    i: int,
    fault: Fault,
)
    requires
        0 <= i <= at < ts.len(),
        forall|j: int|
            i < j <= at ==> table_scan(#[trigger] ts[j], disk[ts[j].name], start, stop) is Ok,
        table_scan(ts[i], disk[ts[i].name], start, stop) == Err::<Seq<EntryView>, Fault>(fault),
    ensures
        merge_from(ts, disk, 0, at, start, stop, m) == Err::<Layer, Fault>(fault),
    decreases at - i,
{
    if i < at {
        let es = table_scan(ts[at], disk[ts[at].name], start, stop)->Ok_0;
        lemma_merge_fails(ts, disk, at - 1, start, stop, apply(m, es), i, fault);
    }
}

/// A scan gives just what the store holds in the range. A range that ends where it starts or before
/// gives nothing.
pub proof fn scan_is_exact(v: StoreView, disk: Disk, start: Seq<u8>, end: Seq<u8>)
    requires
        v.consistent(disk),
    ensures
        v.scan(disk, start, end) == Ok::<Map<Seq<u8>, Seq<u8>>, Fault>(
            within(v.contents(disk), start, Some(end)),
        ),
        key_le(end, start) ==> v.scan(disk, start, end) == Ok::<Map<Seq<u8>, Seq<u8>>, Fault>(
            Map::empty(),
        ),
{
    let below = table_layers(v.tables, disk);
    lemma_flatten_concat(seq![v.memtable], below);
    lemma_flatten_one(v.memtable);
    merge_is_exact(v.tables, disk, 0, start, Some(end));
    assert(below.skip(0) =~= below);
    lemma_restrict_overlay(flatten(below), v.memtable, start, Some(end));
    lemma_live_restricted(flatten(v.layers(disk)), start, Some(end));
    if key_le(end, start) {
        lemma_reversed_is_empty(flatten(v.layers(disk)), start, end);
        assert(within(v.contents(disk), start, Some(end)) =~= Map::empty());
    }
}

// ---------------------------------------------------------------------------
// Flushing
// ---------------------------------------------------------------------------

/// The entries of a writable layer fit their records.
proof fn lemma_writable_entries(es: Seq<EntryView>)
    requires
        sorted(es),
        writable(layer_of(es)),
    ensures
        all_encodable(es),
{
    assert forall|i: int| 0 <= i < es.len() implies encodable(#[trigger] es[i]) by {
        lemma_layer_holds(es, i);
    }
}

/// Files of other names do not matter to a table.
proof fn lemma_other_files(ts: Seq<TableView>, disk: Disk, other: Disk)
    requires
        all_sound(ts, disk),
        forall|i: int|
            0 <= i < ts.len() ==> other.contains_key((#[trigger] ts[i]).name) && other[ts[i].name]
                == disk[ts[i].name],
    ensures
        all_sound(ts, other),
        table_layers(ts, other) == table_layers(ts, disk),
{
    assert(table_layers(ts, other) =~= table_layers(ts, disk));
}

/// A file that is not one of the store's tables does not matter to what the store holds.
pub proof fn other_files_do_not_matter(v: StoreView, disk: Disk, name: Seq<u8>, bytes: Seq<u8>)
    requires
        v.consistent(disk),
        !table_names(v.tables).contains(name),
    ensures
        v.consistent(disk.insert(name, bytes)),
        v.contents(disk.insert(name, bytes)) == v.contents(disk),
{
    let ts = v.tables;
    let now = disk.insert(name, bytes);
    assert forall|i: int| 0 <= i < ts.len() implies now.contains_key((#[trigger] ts[i]).name)
        && now[ts[i].name] == disk[ts[i].name] by {
        assert(table_names(ts)[i] == ts[i].name);
    }
    lemma_other_files(ts, disk, now);
}

/// A new newest table leaves the older ones as they are.
proof fn lemma_table_in_front(ts: Seq<TableView>, disk: Disk, t: TableView, file: Seq<u8>)
    requires
        all_sound(ts, disk),
        distinct_names(ts),
        sound(t, file),
        forall|i: int| 0 <= i < ts.len() ==> (#[trigger] ts[i]).name != t.name,
    ensures
        all_sound(seq![t] + ts, disk.insert(t.name, file)),
        distinct_names(seq![t] + ts),
        table_layers(seq![t] + ts, disk.insert(t.name, file)) == seq![file_layer(file)]
            + table_layers(ts, disk),
{
    let all = seq![t] + ts;
    let now = disk.insert(t.name, file);
    lemma_other_files(ts, disk, now);
    assert forall|i: int| 0 <= i < all.len() implies now.contains_key((#[trigger] all[i]).name)
        && sound(all[i], now[all[i].name]) by {
        if i > 0 {
            assert(all[i] == ts[i - 1]);
        }
    }
    assert forall|i: int, j: int| 0 <= i < j < all.len() implies (#[trigger] all[i]).name != (
    #[trigger] all[j]).name by {
        assert(all[j] == ts[j - 1]);
        if i > 0 {
            assert(all[i] == ts[i - 1]);
        }
    }
    assert(table_layers(all, now) =~= seq![file_layer(file)] + table_layers(ts, disk));
}

/// A flush keeps what the store holds: the memtable's entries move to a new newest table. Up to the
/// moment when the log is emptied a crash brings the memtable back beside that table, and the store
/// still holds the same.
pub proof fn flush_keeps_the_store(
    v: StoreView,
    disk: Disk,
    es: Seq<EntryView>,
    file: TableFile,
    name: Seq<u8>,
    num_bits: u64,
    num_hash_fns: u8,
)
    requires
        v.consistent(disk),
        sorted(es),
        layer_of(es) == v.memtable,
        flushed(file, name, es, num_bits, num_hash_fns),
        !table_names(v.tables).contains(name),
    ensures
        ({
            let after = StoreView { memtable: Map::empty(), tables: seq![file.table@] + v.tables };
            let crashed = StoreView { memtable: v.memtable, ..after };
            let now = disk.insert(name, file.bytes@);
            &&& after.consistent(now)
            &&& after.contents(now) == v.contents(disk)
            &&& crashed.consistent(now)
            &&& crashed.contents(now) == v.contents(disk)
        }),
{
    let t = file.table@;
    let now = disk.insert(name, file.bytes@);
    let below = table_layers(v.tables, disk);
    let none = Map::<Seq<u8>, Option<Seq<u8>>>::empty();
    lemma_writable_entries(es);
    flushed_table_is_sound(file, name, es, num_bits, num_hash_fns);
    assert forall|i: int| 0 <= i < v.tables.len() implies (#[trigger] v.tables[i]).name
        != t.name by {
        assert(table_names(v.tables)[i] == v.tables[i].name);
    }
    lemma_table_in_front(v.tables, disk, t, file.bytes@);
    let mid = seq![v.memtable] + below;
    lemma_flatten_concat(seq![none], mid);
    lemma_flatten_one(none);
    lemma_flatten_concat(seq![v.memtable], mid);
    lemma_flatten_concat(seq![v.memtable], below);
    lemma_flatten_one(v.memtable);
    let top = flatten(mid);
    assert(overlay(top, none) =~= top);
    assert(overlay(top, v.memtable) =~= top);
}

// ---------------------------------------------------------------------------
// Compacting
// ---------------------------------------------------------------------------

/// What sound tables hold together fits records.
proof fn lemma_tables_writable(ts: Seq<TableView>, disk: Disk, lo: int)
    requires
        all_sound(ts, disk),
        0 <= lo <= ts.len(),
    ensures
        writable(flatten(table_layers(ts, disk).skip(lo))),
    decreases ts.len() - lo,
{
    let ls = table_layers(ts, disk);
    if lo < ts.len() {
        lemma_tables_writable(ts, disk, lo + 1);
        assert(ls.skip(lo).drop_first() =~= ls.skip(lo + 1));
        let es = entries_in(disk[ts[lo].name]);
        lemma_sound_file(ts[lo], disk[ts[lo].name]);
        assert forall|k: Seq<u8>| #[trigger]
            flatten(ls.skip(lo)).contains_key(k) implies encodable(
            (k, flatten(ls.skip(lo))[k]),
        ) by {
            if layer_of(es).contains_key(k) {
                lemma_layer_key_written(es, k);
                let i = choose|i: int| 0 <= i < es.len() && #[trigger] es[i].0 == k;
                lemma_layer_holds(es, i);
                assert(encodable(es[i]));
            } else {
                assert(flatten(ls.skip(lo + 1)).contains_key(k));
            }
        }
    } else {
        assert(ls.skip(lo) =~= Seq::empty());
        assert(flatten(ls.skip(lo)) =~= Map::empty());
    }
}

/// A compaction of sound tables merges to all that they hold together.
pub proof fn compaction_misses_nothing(ts: Seq<TableView>, disk: Disk, lo: int)
    requires
        all_sound(ts, disk),
        0 <= lo <= ts.len(),
    ensures
        merge_from(ts, disk, lo, ts.len() - 1, Seq::empty(), None, Map::empty()) == Ok::<
            Layer,
            Fault,
        >(flatten(table_layers(ts, disk).skip(lo))),
{
    let all = flatten(table_layers(ts, disk).skip(lo));
    merge_is_exact(ts, disk, lo, Seq::empty(), None);
    assert forall|k: Seq<u8>| key_le(Seq::empty(), k) by {
        if k.len() > 0 {
            assert(parts_below(Seq::empty(), k, 0));
        } else {
            assert(k =~= Seq::empty());
        }
    }
    assert(restricted(all, Seq::empty(), None) =~= all);
}

/// What a compaction keeps of a key is what the newest merged table that knows the key says of it:
/// its value, or, unless all tables are merged, its tombstone.
pub proof fn a_compaction_keeps_the_newest_entries(
    ts: Seq<TableView>,
    disk: Disk,
    lo: int,
    merged: Merged,
    reply: Reply,
    i: int,
    k: Seq<u8>,
)
    requires
        all_sound(ts, disk),
        0 <= lo <= i < ts.len(),
        merged_to(
            Ok(merged),
            merge_from(ts, disk, lo, ts.len() - 1, Seq::empty(), None, Map::empty()),
            lo as nat,
            reply,
        ),
        file_layer(disk[ts[i].name]).contains_key(k),
        forall|j: int| lo <= j < i ==> !file_layer(disk[(#[trigger] ts[j]).name]).contains_key(k),
    ensures
        ({
            let says = file_layer(disk[ts[i].name])[k];
            let es = merged.entries@;
            if says is Some || lo > 0 {
                exists|n: int|
                    0 <= n < es.len() && (#[trigger] es[n]).0@ == k && es[n].1@ == says
            } else {
                forall|n: int| 0 <= n < es.len() ==> (#[trigger] es[n]).0@ != k
            }
        }),
{
    let ls = table_layers(ts, disk).skip(lo);
    let es = entries_view(merged.entries@);
    compaction_misses_nothing(ts, disk, lo);
    assert(ls[i - lo] == file_layer(disk[ts[i].name]));
    assert forall|j: int| 0 <= j < i - lo implies !(#[trigger] ls[j]).contains_key(k) by {
        assert(ls[j] == file_layer(disk[ts[lo + j].name]));
    }
    the_newest_layer_decides(ls, i - lo, k);
    let m = flatten(ls);
    only_values_are_alive(m, k);
    if m[k] is Some || lo > 0 {
        assert(layer_of(es).contains_key(k) && layer_of(es)[k] == m[k]);
        let n = lemma_entry_of_key(es, k);
        assert(es[n] == entry_view(merged.entries@[n]));
    } else {
        assert(!layer_of(es).contains_key(k));
        assert forall|n: int| 0 <= n < merged.entries@.len() implies (
        #[trigger] merged.entries@[n]).0@ != k by {
            assert(es[n] == entry_view(merged.entries@[n]));
            if es[n].0 == k {
                lemma_written_key_is_known(es, n);
            }
        }
    }
}

/// A compaction adds nothing: every entry that it keeps is one of a merged table, and where all tables
/// are merged, it is no tombstone and the store holds its value.
pub proof fn a_compaction_adds_nothing(
    ts: Seq<TableView>,
    disk: Disk,
    lo: int,
    merged: Merged,
    reply: Reply,
    n: int,
)
    requires
        all_sound(ts, disk),
        0 <= lo <= ts.len(),
        sorted(entries_view(merged.entries@)),
        merged_to(
            Ok(merged),
            merge_from(ts, disk, lo, ts.len() - 1, Seq::empty(), None, Map::empty()),
            lo as nat,
            reply,
        ),
        0 <= n < merged.entries@.len(),
    ensures
        exists|i: int|
            lo <= i < ts.len() && file_layer(disk[(#[trigger] ts[i]).name]).contains_key(
                merged.entries@[n].0@,
            ) && file_layer(disk[ts[i].name])[merged.entries@[n].0@] == merged.entries@[n].1@,
        lo == 0 ==> merged.entries@[n].1 is Value,
        lo == 0 ==> (StoreView { memtable: Map::empty(), tables: ts }).contents(disk).contains_pair(
            merged.entries@[n].0@,
            merged.entries@[n].1@->0,
        ),
{
    let ls = table_layers(ts, disk).skip(lo);
    let m = flatten(ls);
    let es = entries_view(merged.entries@);
    let k = merged.entries@[n].0@;
    compaction_misses_nothing(ts, disk, lo);
    assert(es[n] == entry_view(merged.entries@[n]));
    lemma_layer_holds(es, n);
    only_values_are_alive(m, k);
    assert(m.contains_key(k) && m[k] == es[n].1);
    let j = lemma_layer_of_key(ls, k);
    assert(ls[j] == file_layer(disk[ts[lo + j].name]));
    if lo == 0 {
        let v = StoreView { memtable: Map::empty(), tables: ts };
        lemma_contents(v, disk);
        assert(ls =~= table_layers(ts, disk));
        assert(overlay(m, v.memtable) =~= m);
    }
}

/// Where all tables are merged, the kept entries are the live contents of the tables and nothing else.
pub proof fn a_full_compaction_keeps_just_the_live_keys(
    ts: Seq<TableView>,
    disk: Disk,
    merged: Merged,
    reply: Reply,
    k: Seq<u8>,
)
    requires
        all_sound(ts, disk),
        sorted(entries_view(merged.entries@)),
        merged_to(
            Ok(merged),
            merge_from(ts, disk, 0, ts.len() - 1, Seq::empty(), None, Map::empty()),
            0,
            reply,
        ),
    ensures
        forall|n: int|
            0 <= n < merged.entries@.len() ==> (#[trigger] merged.entries@[n]).1 is Value,
        (StoreView { memtable: Map::empty(), tables: ts }).contents(disk).contains_key(k)
            <==> exists|n: int| 0 <= n < merged.entries@.len() && (#[trigger] merged.entries@[n]).0@ == k,
{
    let v = StoreView { memtable: Map::empty(), tables: ts };
    let es = entries_view(merged.entries@);
    assert forall|n: int| 0 <= n < merged.entries@.len() implies (#[trigger] merged.entries@[n]).1
        is Value by {
        a_compaction_adds_nothing(ts, disk, 0, merged, reply, n);
    }
    if v.contents(disk).contains_key(k) {
        let ls = table_layers(ts, disk);
        lemma_contents(v, disk);
        assert(overlay(flatten(ls), v.memtable) =~= flatten(ls));
        compaction_misses_nothing(ts, disk, 0);
        assert(ls.skip(0) =~= ls);
        only_values_are_alive(flatten(ls), k);
        let n = lemma_entry_of_key(es, k);
        assert(es[n] == entry_view(merged.entries@[n]));
        assert(merged.entries@[n].0@ == k);
    }
    if exists|n: int| 0 <= n < merged.entries@.len() && (#[trigger] merged.entries@[n]).0@ == k {
        let n = choose|n: int|
            0 <= n < merged.entries@.len() && (#[trigger] merged.entries@[n]).0@ == k;
        a_compaction_adds_nothing(ts, disk, 0, merged, reply, n);
    }
}

/// The last write of a known key.
proof fn lemma_entry_of_key(es: Seq<EntryView>, k: Seq<u8>) -> (n: int)
    requires
        layer_of(es).contains_key(k),
    ensures
        0 <= n < es.len(),
        es[n].0 == k,
        es[n].1 == layer_of(es)[k],
    decreases es.len(),
{
    if es.len() > 0 && es.last().0 != k {
        lemma_entry_of_key(es.drop_last(), k)
    } else {
        es.len() - 1
    }
}

/// A written key is known.
proof fn lemma_written_key_is_known(es: Seq<EntryView>, n: int)
    requires
        0 <= n < es.len(),
    ensures
        layer_of(es).contains_key(es[n].0),
    decreases es.len(),
{
    if n < es.len() - 1 {
        lemma_written_key_is_known(es.drop_last(), n);
    }
}

/// The newest layer that knows a known key.
proof fn lemma_layer_of_key(ls: Seq<Layer>, k: Seq<u8>) -> (i: int)
    requires
        flatten(ls).contains_key(k),
    ensures
        0 <= i < ls.len(),
        ls[i].contains_key(k),
        ls[i][k] == flatten(ls)[k],
    decreases ls.len(),
{
    if ls.len() > 0 && !ls[0].contains_key(k) {
        let i = lemma_layer_of_key(ls.drop_first(), k);
        i + 1
    } else {
        0
    }
}

/// The tables after a compaction of those from position `lo` on.
pub open spec fn compacted_tables(ts: Seq<TableView>, lo: int, file: Option<TableFile>) -> Seq<
    TableView,
> {
    ts.take(lo) + match file {
        Some(file) => seq![file.table@],
        None => Seq::empty(),
    }
}

/// `file` is the table that the merge of the tables from position `lo` on is written to. There is
/// none if nothing is kept of them.
pub open spec fn replaces(
    file: Option<TableFile>,
    ts: Seq<TableView>,
    disk: Disk,
    lo: int,
    es: Seq<EntryView>,
    name: Seq<u8>,
    num_bits: u64,
    num_hash_fns: u8,
) -> bool {
    &&& sorted(es)
    &&& layer_of(es) == kept(flatten(table_layers(ts, disk).skip(lo)), lo as nat)
    &&& match file {
        Some(file) => flushed(file, name, es, num_bits, num_hash_fns),
        None => es.len() == 0,
    }
}

/// The tables before position `lo` depend on their own files alone.
proof fn lemma_front_tables(ts: Seq<TableView>, disk: Disk, lo: int, now: Disk)
    requires
        all_sound(ts, disk),
        distinct_names(ts),
        0 <= lo <= ts.len(),
        forall|i: int|
            0 <= i < lo ==> now.contains_key((#[trigger] ts[i]).name) && now[ts[i].name]
                == disk[ts[i].name],
    ensures
        all_sound(ts.take(lo), now),
        distinct_names(ts.take(lo)),
        table_layers(ts.take(lo), now) == table_layers(ts, disk).take(lo),
{
    let front = ts.take(lo);
    assert forall|i: int| 0 <= i < front.len() implies now.contains_key((#[trigger] front[i]).name)
        && now[front[i].name] == disk[front[i].name] && disk.contains_key(front[i].name) && sound(
        front[i],
        disk[front[i].name],
    ) by {
        assert(front[i] == ts[i]);
    }
    assert(all_sound(front, disk));
    lemma_other_files(front, disk, now);
    assert(table_layers(front, disk) =~= table_layers(ts, disk).take(lo));
}

/// A new table at position `at`.
proof fn lemma_table_between(ts: Seq<TableView>, disk: Disk, at: int, t: TableView, file: Seq<u8>)
    requires
        all_sound(ts, disk),
        distinct_names(ts),
        0 <= at <= ts.len(),
        sound(t, file),
        disk.contains_key(t.name),
        disk[t.name] == file,
        forall|i: int| 0 <= i < ts.len() ==> (#[trigger] ts[i]).name != t.name,
    ensures
        all_sound(ts.insert(at, t), disk),
        distinct_names(ts.insert(at, t)),
        table_layers(ts.insert(at, t), disk) == table_layers(ts, disk).insert(
            at,
            file_layer(file),
        ),
{
    lemma_sound_between(ts, disk, at, t);
    lemma_distinct_between(ts, at, t);
    let all = ts.insert(at, t);
    assert(table_layers(all, disk) =~= table_layers(ts, disk).insert(at, file_layer(file)));
}

proof fn lemma_sound_between(ts: Seq<TableView>, disk: Disk, at: int, t: TableView)
    requires
        all_sound(ts, disk),
        0 <= at <= ts.len(),
        disk.contains_key(t.name),
        sound(t, disk[t.name]),
    ensures
        all_sound(ts.insert(at, t), disk),
{
    let all = ts.insert(at, t);
    assert forall|i: int| 0 <= i < all.len() implies disk.contains_key((#[trigger] all[i]).name)
        && sound(all[i], disk[all[i].name]) by {
        if i < at {
            assert(all[i] == ts[i]);
        } else if i > at {
            assert(all[i] == ts[i - 1]);
        } else {
            assert(all[i] == t);
        }
    }
}

proof fn lemma_distinct_between(ts: Seq<TableView>, at: int, t: TableView)
    requires
        distinct_names(ts),
        0 <= at <= ts.len(),
        forall|i: int| 0 <= i < ts.len() ==> (#[trigger] ts[i]).name != t.name,
    ensures
        distinct_names(ts.insert(at, t)),
{
    let all = ts.insert(at, t);
    assert forall|i: int, j: int| 0 <= i < j < all.len() implies (#[trigger] all[i]).name != (
    #[trigger] all[j]).name by {
        if j < at {
            assert(all[i] == ts[i] && all[j] == ts[j]);
        } else if j == at {
            assert(all[i] == ts[i] && all[j] == t);
        } else {
            assert(all[j] == ts[j - 1]);
            if i < at {
                assert(all[i] == ts[i]);
            } else if i > at {
                assert(all[i] == ts[i - 1]);
            } else {
                assert(all[i] == t);
            }
        }
    }
}

/// What is kept of the layers from position `lo` on, laid over the newest `j` of them, shows the live
/// values of all of them.
proof fn lemma_kept_over_newest(ls: Seq<Layer>, lo: int, j: int)
    requires
        0 <= lo,
        0 <= j,
        lo + j <= ls.len(),
    ensures
        live(
            overlay(
                flatten(ls.subrange(lo, lo + j)),
                kept(flatten(ls.skip(lo)), lo as nat),
            ),
        ) == live(flatten(ls.skip(lo))),
{
    let merged = flatten(ls.skip(lo));
    let left = flatten(ls.subrange(lo, lo + j));
    assert(ls.skip(lo) =~= ls.subrange(lo, lo + j) + ls.skip(lo + j));
    lemma_flatten_concat(ls.subrange(lo, lo + j), ls.skip(lo + j));
    if lo == 0 {
        assert forall|k: Seq<u8>| #[trigger] live(left).contains_key(k) implies live(
            merged,
        ).contains_key(k) by {
            assert(left.contains_key(k));
        }
        lemma_shadowed(merged, left);
    } else {
        assert(overlay(left, merged) =~= merged);
    }
}

/// The layers of a compaction that has removed all but the newest `j` of the merged files.
proof fn lemma_crashed_layers(ls: Seq<Layer>, lo: int, j: int, rest: Layer)
    requires
        0 <= lo,
        0 <= j,
        lo + j <= ls.len(),
        rest == kept(flatten(ls.skip(lo)), lo as nat),
    ensures
        live(flatten(ls.take(lo + j).insert(lo, rest))) == live(flatten(ls)),
        rest == Map::<Seq<u8>, Option<Seq<u8>>>::empty() ==> live(flatten(ls.take(lo + j))) == live(
            flatten(ls),
        ),
{
    let a = ls.take(lo);
    let left = ls.subrange(lo, lo + j);
    let merged = flatten(ls.skip(lo));
    lemma_kept_over_newest(ls, lo, j);
    lemma_live_below(overlay(flatten(left), rest), merged, flatten(a));

    assert(ls =~= a + ls.skip(lo));
    lemma_flatten_concat(a, ls.skip(lo));

    assert(ls.take(lo + j).insert(lo, rest) =~= a + (seq![rest] + left));
    lemma_flatten_concat(a, seq![rest] + left);
    lemma_flatten_concat(seq![rest], left);
    lemma_flatten_one(rest);

    assert(ls.take(lo + j) =~= a + left);
    lemma_flatten_concat(a, left);
    if rest == Map::<Seq<u8>, Option<Seq<u8>>>::empty() {
        assert(overlay(flatten(left), rest) =~= flatten(left));
    }
}

/// The tables of a compaction that has removed all but the newest `j` of the merged files.
pub open spec fn crashed_tables(
    ts: Seq<TableView>,
    lo: int,
    file: Option<TableFile>,
    j: int,
) -> Seq<TableView> {
    compacted_tables(ts, lo, file) + ts.subrange(lo, lo + j)
}

/// A crash while the merged files are removed, the oldest first, leaves the newest `j` of them behind
/// the table of the compaction. The store holds the same: nothing is lost, and no deleted key comes
/// back.
pub proof fn crash_while_files_are_removed_keeps_the_store(
    v: StoreView,
    disk: Disk,
    lo: int,
    es: Seq<EntryView>,
    file: Option<TableFile>,
    name: Seq<u8>,
    num_bits: u64,
    num_hash_fns: u8,
    j: int,
    now: Disk,
)
    requires
        v.consistent(disk),
        0 <= lo,
        0 <= j,
        lo + j <= v.tables.len(),
        replaces(file, v.tables, disk, lo, es, name, num_bits, num_hash_fns),
        !table_names(v.tables).contains(name),
        file matches Some(f) ==> now.contains_key(name) && now[name] == f.bytes@,
        forall|i: int|
            0 <= i < lo + j ==> now.contains_key((#[trigger] v.tables[i]).name)
                && now[v.tables[i].name] == disk[v.tables[i].name],
    ensures
        ({
            let crashed = StoreView { tables: crashed_tables(v.tables, lo, file, j), ..v };
            &&& crashed.consistent(now)
            &&& crashed.contents(now) == v.contents(disk)
        }),
{
    let ts = v.tables;
    let ls = table_layers(ts, disk);
    let base = ts.take(lo + j);
    let crashed = StoreView { tables: crashed_tables(ts, lo, file, j), ..v };
    lemma_tables_writable(ts, disk, lo);
    lemma_writable_entries(es);
    lemma_front_tables(ts, disk, lo + j, now);
    lemma_crashed_layers(ls, lo, j, layer_of(es));
    lemma_unused_name(ts, lo + j, name);
    match file {
        Some(f) => {
            lemma_flushed_between(base, now, lo, f, name, es, num_bits, num_hash_fns);
            assert(crashed.tables =~= base.insert(lo, f.table@));
        },
        None => {
            assert(crashed.tables =~= base);
            assert(layer_of(es) =~= Map::empty());
        },
    }
    lemma_contents(v, disk);
    lemma_contents(crashed, now);
    lemma_live_below(flatten(table_layers(crashed.tables, now)), flatten(ls), v.memtable);
}

/// A name that no table has, none of the newest has.
proof fn lemma_unused_name(ts: Seq<TableView>, n: int, name: Seq<u8>)
    requires
        0 <= n <= ts.len(),
        !table_names(ts).contains(name),
    ensures
        forall|i: int| 0 <= i < n ==> (#[trigger] ts.take(n)[i]).name != name,
{
    assert forall|i: int| 0 <= i < n implies (#[trigger] ts.take(n)[i]).name != name by {
        assert(table_names(ts)[i] == ts.take(n)[i].name);
    }
}

/// A flushed table at position `at`.
proof fn lemma_flushed_between(
    ts: Seq<TableView>,
    disk: Disk,
    at: int,
    file: TableFile,
    name: Seq<u8>,
    es: Seq<EntryView>,
    num_bits: u64,
    num_hash_fns: u8,
)
    requires
        all_sound(ts, disk),
        distinct_names(ts),
        0 <= at <= ts.len(),
        sorted(es),
        all_encodable(es),
        flushed(file, name, es, num_bits, num_hash_fns),
        disk.contains_key(name),
        disk[name] == file.bytes@,
        forall|i: int| 0 <= i < ts.len() ==> (#[trigger] ts[i]).name != name,
    ensures
        all_sound(ts.insert(at, file.table@), disk),
        distinct_names(ts.insert(at, file.table@)),
        table_layers(ts.insert(at, file.table@), disk) == table_layers(ts, disk).insert(
            at,
            layer_of(es),
        ),
{
    flushed_table_is_sound(file, name, es, num_bits, num_hash_fns);
    lemma_table_between(ts, disk, at, file.table@, file.bytes@);
}

/// A compaction keeps what the store holds, whatever becomes of the files of the merged tables.
pub proof fn compaction_keeps_the_store(
    v: StoreView,
    disk: Disk,
    lo: int,
    es: Seq<EntryView>,
    file: Option<TableFile>,
    name: Seq<u8>,
    num_bits: u64,
    num_hash_fns: u8,
    now: Disk,
)
    requires
        v.consistent(disk),
        0 <= lo <= v.tables.len(),
        replaces(file, v.tables, disk, lo, es, name, num_bits, num_hash_fns),
        !table_names(v.tables).contains(name),
        forall|i: int|
            0 <= i < lo ==> now.contains_key((#[trigger] v.tables[i]).name) && now[v.tables[i].name]
                == disk[v.tables[i].name],
        file matches Some(f) ==> now.contains_key(name) && now[name] == f.bytes@,
    ensures
        ({
            let after = StoreView { tables: compacted_tables(v.tables, lo, file), ..v };
            &&& after.consistent(now)
            &&& after.contents(now) == v.contents(disk)
        }),
{
    crash_while_files_are_removed_keeps_the_store(
        v,
        disk,
        lo,
        es,
        file,
        name,
        num_bits,
        num_hash_fns,
        0,
        now,
    );
    assert(crashed_tables(v.tables, lo, file, 0) =~= compacted_tables(v.tables, lo, file));
}

/// The tables after the one at position `i` was renamed.
pub open spec fn renamed(ts: Seq<TableView>, i: int, name: Seq<u8>) -> Seq<TableView> {
    ts.update(i, (TableView { name, ..ts[i] }))
}

/// The files after `from` was renamed to `to`.
pub open spec fn moved(disk: Disk, from: Seq<u8>, to: Seq<u8>) -> Disk {
    disk.remove(from).insert(to, disk[from])
}

/// A table whose file is renamed to a name that is not in use stays what it is.
pub proof fn a_rename_keeps_the_store(v: StoreView, disk: Disk, i: int, name: Seq<u8>)
    requires
        v.consistent(disk),
        0 <= i < v.tables.len(),
        !table_names(v.tables).contains(name),
    ensures
        ({
            let after = StoreView { tables: renamed(v.tables, i, name), ..v };
            let now = moved(disk, v.tables[i].name, name);
            &&& after.consistent(now)
            &&& after.contents(now) == v.contents(disk)
            &&& table_layers(after.tables, now) == table_layers(v.tables, disk)
        }),
{
    let ts = v.tables;
    let all = renamed(ts, i, name);
    let now = moved(disk, ts[i].name, name);
    assert forall|k: int| 0 <= k < ts.len() implies (#[trigger] ts[k]).name != name by {
        assert(table_names(ts)[k] == ts[k].name);
    }
    assert forall|k: int| 0 <= k < all.len() implies now.contains_key((#[trigger] all[k]).name)
        && sound(all[k], now[all[k].name]) && now[all[k].name] == disk[ts[k].name] by {
        assert(sound(ts[k], disk[ts[k].name]));
        if k != i {
            assert(all[k] == ts[k]);
            assert(ts[k].name != ts[i].name);
        } else {
            lemma_sound_under_any_name(ts[i], disk[ts[i].name], name);
        }
    }
    assert forall|a: int, b: int| 0 <= a < b < all.len() implies (#[trigger] all[a]).name != (
    #[trigger] all[b]).name by {
        assert(ts[a].name != ts[b].name);
    }
    assert(table_layers(all, now) =~= table_layers(ts, disk));
}

proof fn lemma_sound_under_any_name(t: TableView, file: Seq<u8>, name: Seq<u8>)
    requires
        sound(t, file),
    ensures
        sound((TableView { name, ..t }), file),
{
    reveal(sound);
    let es = entries_in(file);
    let other = TableView { name, ..t };
    assert forall|i: int| 0 <= i < es.len() implies other.admits(#[trigger] es[i].0) by {
        assert(t.admits(es[i].0));
    }
}

/// The live values of a layer decide, laid over one that has no others alive.
proof fn lemma_shadowed(merged: Layer, left: Layer)
    requires
        forall|k: Seq<u8>| #[trigger] live(left).contains_key(k) ==> live(merged).contains_key(k),
    ensures
        live(overlay(left, without_tombstones(merged))) == live(merged),
{
    let shown = live(overlay(left, without_tombstones(merged)));
    assert forall|k: Seq<u8>| #[trigger] shown.dom().contains(k) implies live(merged).dom().contains(
        k,
    ) && shown[k] == live(merged)[k] by {
        if !without_tombstones(merged).contains_key(k) {
            assert(live(left).contains_key(k));
            assert(live(merged).contains_key(k));
        }
    }
    assert forall|k: Seq<u8>| #[trigger] live(merged).dom().contains(k) implies shown.dom().contains(
        k,
    ) by {}
    assert(shown =~= live(merged));
}

/// What a layer on top of others shows depends on their live values alone.
proof fn lemma_live_below(a: Layer, b: Layer, top: Layer)
    requires
        live(a) == live(b),
    ensures
        live(overlay(a, top)) == live(overlay(b, top)),
{
    let x = live(overlay(a, top));
    let y = live(overlay(b, top));
    assert forall|k: Seq<u8>| #[trigger] x.dom().contains(k) implies y.dom().contains(k) && x[k]
        == y[k] by {
        if !top.contains_key(k) {
            assert(live(a).dom().contains(k));
            assert(live(b).dom().contains(k));
            assert(live(a)[k] == live(b)[k]);
        }
    }
    assert forall|k: Seq<u8>| #[trigger] y.dom().contains(k) implies x.dom().contains(k) by {
        if !top.contains_key(k) {
            assert(live(b).dom().contains(k));
            assert(live(a).dom().contains(k));
        }
    }
    assert(x =~= y);
}

/// The memtable lies over all tables.
proof fn lemma_contents(v: StoreView, disk: Disk)
    ensures
        v.contents(disk) == live(overlay(flatten(table_layers(v.tables, disk)), v.memtable)),
{
    lemma_flatten_concat(seq![v.memtable], table_layers(v.tables, disk));
    lemma_flatten_one(v.memtable);
}

/// As long as a compaction follows every flush that makes four tables, there are never more than
/// four, and fewer than four are left.
pub proof fn compaction_bounds_the_tables(ts: Seq<TableView>, t: TableView, file: Option<TableFile>)
    requires
        ts.len() < 4,
    ensures
        (seq![t] + ts).len() <= 4,
        (seq![t] + ts).len() == 4 ==> compacted_tables(
            seq![t] + ts,
            first_merged((seq![t] + ts).len()) as int,
            file,
        ).len() <= 1,
{
}

} // verus!
