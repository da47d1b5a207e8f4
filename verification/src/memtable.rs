//! The values of the store and its in-memory, sorted top layer.

use vstd::prelude::*;
use vstd::slice::slice_to_vec;

use crate::format::EntryView;
use crate::metrics::EngineMetrics;
use crate::model::{
    Layer, entry_size, layer_of, lemma_layer_holds, lemma_layer_key_written, lemma_layer_len,
    lemma_total_size_prefix, lemma_total_size_update, restricted, sorted, total_size,
};
use crate::order::{key_le, key_lt, lemma_key_lt_irreflexive};
use crate::sorted::{Entry, SortedEntries, entries_view};
use crate::wal::{WalEntry, writes_view};

verus! {

/// A stored value: live, or a tombstone that marks a deletion.
#[derive(Debug)]
pub enum MemValue {
    Value(Vec<u8>),
    Tombstone,
}

impl View for MemValue {
    type V = Option<Seq<u8>>;

    open spec fn view(&self) -> Option<Seq<u8>> {
        match self {
            MemValue::Value(v) => Some(v@),
            MemValue::Tombstone => None,
        }
    }
}

impl Clone for MemValue {
    fn clone(&self) -> (r: Self)
        ensures
            r@ == self@,
    {
        match self {
            MemValue::Value(v) => MemValue::Value(slice_to_vec(v.as_slice())),
            MemValue::Tombstone => MemValue::Tombstone,
        }
    }
}

/// The top layer of the store: the writes since the last flush, sorted by key.
pub struct Memtable {
    pub data: SortedEntries,
    /// Bytes of keys and values, by which the caller decides when to flush.
    pub size_bytes: usize,
    /// The table is full once it holds more bytes than this.
    pub flush_threshold: usize,
}

impl View for Memtable {
    type V = Layer;

    open spec fn view(&self) -> Layer {
        layer_of(self.items())
    }
}

/// The bytes that `key` takes in the layer `m`.
pub open spec fn held_size(m: Layer, key: Seq<u8>) -> nat {
    if m.contains_key(key) {
        entry_size((key, m[key]))
    } else {
        0
    }
}

/// The size that a memtable tracks is the sum of the bytes of the entries that it holds now: each key
/// has one entry, and what was replaced does not count. What a key takes is its own bytes and those of
/// its value.
pub proof fn the_tracked_size_is_that_of_the_entries(mem: Memtable, key: Seq<u8>, value: Seq<u8>)
    requires
        mem.wf(),
    ensures
        mem.size() == total_size(mem.items()),
        forall|i: int, j: int|
            0 <= i < j < mem.items().len() ==> (#[trigger] mem.items()[i]).0 != (
            #[trigger] mem.items()[j]).0,
        mem@.len() == mem.items().len(),
        mem@.contains_pair(key, Some(value)) ==> held_size(mem@, key) == key.len() + value.len(),
        mem@.contains_pair(key, None) ==> held_size(mem@, key) == key.len(),
        !mem@.contains_key(key) ==> held_size(mem@, key) == 0,
{
    let es = mem.items();
    lemma_layer_len(es);
    assert forall|i: int, j: int| 0 <= i < j < es.len() implies (#[trigger] es[i]).0 != (
    #[trigger] es[j]).0 by {
        assert(key_lt(es[i].0, es[j].0));
        lemma_key_lt_irreflexive(es[i].0);
    }
}

impl Memtable {
    /// The entries in the order of their keys.
    pub open spec fn items(&self) -> Seq<EntryView> {
        self.data.items()
    }

    /// The tracked size.
    pub open spec fn size(&self) -> nat {
        self.size_bytes as nat
    }

    /// The flush threshold.
    pub open spec fn threshold(&self) -> usize {
        self.flush_threshold
    }

    /// Keys strictly increase, and the tracked size is the size of all entries.
    pub open spec fn wf(&self) -> bool {
        &&& sorted(self.items())
        &&& self.size() == total_size(self.items())
        &&& self.size() <= usize::MAX
    }

    /// An empty table.
    pub fn new(flush_threshold: usize) -> (r: Self)
        ensures
            r.wf(),
            r@ == Map::<Seq<u8>, Option<Seq<u8>>>::empty(),
            r.size() == 0,
            r.threshold() == flush_threshold,
    {
        Memtable { data: SortedEntries::new(), size_bytes: 0, flush_threshold }
    }

    /// Writes `value` under `key`. True when the table is full afterwards.
    pub fn put(
        &mut self,
        key: Vec<u8>,
        value: Vec<u8>,
        metrics: &mut EngineMetrics,
        now: u128,
    ) -> (r: bool)
        requires
            old(self).wf(),
            old(self).size() - held_size(old(self)@, key@) + key@.len() + value@.len() <= usize::MAX,
            old(metrics)@.total_writes < u64::MAX,
        ensures
            final(self).wf(),
            final(self)@ == old(self)@.insert(key@, Some(value@)),
            final(self).size() == old(self).size() - held_size(old(self)@, key@) + key@.len()
                + value@.len(),
            final(self).threshold() == old(self).threshold(),
            final(metrics)@ == old(metrics)@.wrote(now),
            r == (final(self).size() > final(self).threshold()),
    {
        proof {
            self.lemma_held(key@);
        }
        let added = key.len() + value.len();
        self.release(key.as_slice());
        self.size_bytes = self.size_bytes + added;
        self.data.insert(key, MemValue::Value(value));
        metrics.record_write(now);
        self.is_full()
    }

    /// Marks `key` as deleted. True when the table is full afterwards.
    pub fn delete(&mut self, key: Vec<u8>, metrics: &mut EngineMetrics, now: u128) -> (r: bool)
        requires
            old(self).wf(),
            old(self).size() - held_size(old(self)@, key@) + key@.len() <= usize::MAX,
            old(metrics)@.total_writes < u64::MAX,
        ensures
            final(self).wf(),
            final(self)@ == old(self)@.insert(key@, None),
            final(self).size() == old(self).size() - held_size(old(self)@, key@) + key@.len(),
            final(self).threshold() == old(self).threshold(),
            final(metrics)@ == old(metrics)@.wrote(now),
            r == (final(self).size() > final(self).threshold()),
    {
        self.release(key.as_slice());
        self.size_bytes = self.size_bytes + key.len();
        self.data.insert(key, MemValue::Tombstone);
        metrics.record_write(now);
        self.is_full()
    }

    /// Takes the size of the entry that `key` has off the tracked size.
    fn release(&mut self, key: &[u8])
        requires
            old(self).wf(),
        ensures
            final(self).data == old(self).data,
            final(self).flush_threshold == old(self).flush_threshold,
            final(self).size_bytes == old(self).size_bytes - held_size(old(self)@, key@),
    {
        proof {
            self.lemma_held(key@);
        }
        let old_size = match self.data.get(key) {
            Some(MemValue::Value(v)) => key.len() + v.len(),
            Some(MemValue::Tombstone) => key.len(),
            None => 0,
        };
        self.size_bytes = self.size_bytes.saturating_sub(old_size);
    }

    /// An entry's size is part of the tracked size.
    proof fn lemma_held(&self, key: Seq<u8>)
        requires
            self.wf(),
        ensures
            held_size(self@, key) <= self.size(),
    {
        let es = self.items();
        if self@.contains_key(key) {
            lemma_layer_key_written(es, key);
            let i = choose|i: int| 0 <= i < es.len() && #[trigger] es[i].0 == key;
            lemma_layer_holds(es, i);
            lemma_total_size_update(es, i, es[i]);
        }
    }

    /// What the table knows of `key`: `None` where it was never written, a tombstone where it was
    /// deleted.
    pub fn get(&self, key: &[u8], metrics: &mut EngineMetrics, now: u128) -> (r: Option<&MemValue>)
        requires
            self.wf(),
            old(metrics)@.total_reads < u64::MAX,
        ensures
            match r {
                Some(v) => self@.contains_key(key@) && v@ == self@[key@],
                None => !self@.contains_key(key@),
            },
            final(metrics)@ == old(metrics)@.read(now),
    {
        metrics.record_read(now);
        self.data.get(key)
    }

    /// The entries from `start` up to but not including `end`, in order, tombstones included. Only of
    /// an empty memtable may the range be reversed.
    pub fn scan(&self, start: &[u8], end: &[u8]) -> (r: &[Entry])
        requires
            self.wf(),
            self@ != Map::<Seq<u8>, Option<Seq<u8>>>::empty() ==> key_le(start@, end@),
        ensures
            sorted(entries_view(r@)),
            layer_of(entries_view(r@)) == restricted(self@, start@, Some(end@)),
    {
        self.data.range(start, end)
    }

    /// True once the table has grown past its flush threshold.
    pub fn is_full(&self) -> (r: bool)
        ensures
            r == (self.size() > self.threshold()),
    {
        self.size_bytes > self.flush_threshold
    }

    pub fn size_bytes(&self) -> (r: usize)
        ensures
            r == self.size(),
    {
        self.size_bytes
    }

    pub fn is_empty(&self) -> (r: bool)
        requires
            self.wf(),
        ensures
            r == (self@ == Map::<Seq<u8>, Option<Seq<u8>>>::empty()),
    {
        proof {
            lemma_layer_len(self.items());
            assert(self@.len() == 0 <==> self@ =~= Map::empty());
        }
        self.data.len() == 0
    }

    /// The number of keys, tombstones included.
    pub fn len(&self) -> (r: usize)
        requires
            self.wf(),
        ensures
            r == self@.len(),
    {
        proof {
            lemma_layer_len(self.items());
        }
        self.data.len()
    }

    /// All entries in order.
    pub fn drain_sorted(self) -> (r: Vec<Entry>)
        requires
            self.wf(),
        ensures
            entries_view(r@) == self.items(),
            sorted(entries_view(r@)),
            layer_of(entries_view(r@)) == self@,
    {
        self.data.into_entries()
    }

    /// The table that the logged writes `entries` build. Each counts as a write at `now`.
    pub fn restore_from_wal(
        entries: Vec<WalEntry>,
        flush_threshold: usize,
        metrics: &mut EngineMetrics,
        now: u128,
    ) -> (r: Self)
        requires
            total_size(writes_view(entries@)) <= usize::MAX,
            old(metrics)@.total_writes + entries@.len() <= u64::MAX,
        ensures
            r.wf(),
            r@ == layer_of(writes_view(entries@)),
            r.size() <= total_size(writes_view(entries@)),
            r.threshold() == flush_threshold,
            final(metrics)@ == old(metrics)@.wrote_times(now, entries@.len()),
    {
        let ghost ws = writes_view(entries@);
        let ghost start = metrics@;
        let mut mem = Memtable::new(flush_threshold);
        assert(ws.take(0) =~= Seq::empty());
        for entry in it: entries
            invariant
                ws == writes_view(it.seq()),
                it.seq() == entries@,
                mem.wf(),
                mem.threshold() == flush_threshold,
                mem@ == layer_of(ws.take(it.index())),
                mem.size() <= total_size(ws.take(it.index())),
                total_size(ws) <= usize::MAX,
                start.total_writes + ws.len() <= u64::MAX,
                metrics@ == start.wrote_times(now, it.index() as nat),
                metrics@.total_writes == start.total_writes + it.index(),
        {
            proof {
                let n = it.index();
                lemma_total_size_prefix(ws, n);
                assert(ws.take(n + 1).drop_last() =~= ws.take(n));
                assert(ws.take(n + 1).last() == entry@);
            }
            match entry {
                WalEntry::Put { key, value } => {
                    let _ = mem.put(key, value, metrics, now);
                },
                WalEntry::Delete { key } => {
                    let _ = mem.delete(key, metrics, now);
                },
            }
        }
        assert(ws.take(ws.len() as int) =~= ws);
        mem
    }
}

} // verus!
