//! Reading from the whole store: lookups and range scans over the memtable and all tables.

use vstd::prelude::*;
use vstd::slice::slice_to_vec;

use crate::compaction::live_entries;
use crate::engine::Engine;
use crate::error::EngineError;
use crate::memtable::MemValue;
use crate::merge::{MergeScan, MergeStep};
use crate::metrics::EngineMetrics;
use crate::model::{
    Disk, Layer, a_range_is_half_open, apply, layer_of, lemma_apply_is_overlay, lemma_layer_holds,
    lemma_layer_key_written, lists, live, overlay, restricted, sorted, within, without_tombstones,
};
use crate::order::{key_le, key_lt};
use crate::reader::{Lookup, LookupStep, Reply, Request, reports};
use crate::search::Fault;
use crate::sorted::{SortedEntries, entries_view, entry_view};
use crate::sstable::{SSTable, TableView, tables_view};
use crate::store::{StoreView, get_from, get_is_exact, scan_is_exact, value_of};

verus! {

// ---------------------------------------------------------------------------
// Lookups
// ---------------------------------------------------------------------------

/// What an optional value says.
pub open spec fn bytes_view(v: Option<Vec<u8>>) -> Option<Seq<u8>> {
    match v {
        Some(x) => Some(x@),
        None => None,
    }
}

/// A lookup that comes to the table at its position next.
pub struct StoreSearch {
    key: Vec<u8>,
    table: usize,
}

/// A lookup that has to read a table.
pub struct StoreGet {
    key: Vec<u8>,
    table: usize,
    lookup: Lookup,
}

/// What a lookup has come to.
pub enum StoreGetStep {
    /// It goes on with the next table.
    Next(StoreSearch),
    /// It needs more bytes.
    More(StoreGet),
    /// It is over.
    Done(Result<Option<Vec<u8>>, EngineError>),
}

/// The result of a lookup is what the files decide.
pub open spec fn got(
    result: Result<Option<Vec<u8>>, EngineError>,
    outcome: Result<Option<Seq<u8>>, Fault>,
    reply: Reply,
) -> bool {
    match (result, outcome) {
        (Ok(v), Ok(o)) => bytes_view(v) == o,
        (Err(error), Err(fault)) => reports(error, fault, reply),
        _ => false,
    }
}

/// The search for `key` goes on with the table at `from`, or is over if there is none.
pub open spec fn goes_on(step: StoreGetStep, key: Seq<u8>, from: nat, count: nat) -> bool {
    if from < count {
        step matches StoreGetStep::Next(next) && next.key() == key && next.at() == from
    } else {
        step == StoreGetStep::Done(Ok::<Option<Vec<u8>>, EngineError>(None))
    }
}

impl StoreSearch {
    /// The key that is sought.
    pub closed spec fn key(self) -> Seq<u8> {
        self.key@
    }

    /// The position of the table that comes next.
    pub closed spec fn at(self) -> nat {
        self.table as nat
    }

    /// What the lookup will come to.
    pub open spec fn outcome(self, ts: Seq<TableView>, disk: Disk) -> Result<
        Option<Seq<u8>>,
        Fault,
    > {
        get_from(ts, disk, self.at() as int, self.key())
    }

    /// Goes on with the table at `table`, if there is one.
    fn from(key: Vec<u8>, table: usize, count: usize) -> (r: StoreGetStep)
        ensures
            goes_on(r, key@, table as nat, count as nat),
    {
        if table < count {
            StoreGetStep::Next(StoreSearch { key, table })
        } else {
            StoreGetStep::Done(Ok(None))
        }
    }

    /// The position of the table that comes next.
    pub fn table(&self) -> (r: usize)
        ensures
            r == self.at(),
    {
        self.table
    }

    /// Asks the filter of the next table for the key. If it rules the key out, the file is not
    /// touched.
    pub fn advance(self, sstables: &Vec<SSTable>) -> (r: StoreGetStep)
        requires
            self.at() < sstables@.len(),
            tables_view(sstables@)[self.at() as int].reaches(self.key()),
        ensures
            if tables_view(sstables@)[self.at() as int].admits(self.key()) {
                &&& r matches StoreGetStep::More(next)
                &&& next.wf()
                &&& next.key() == self.key()
                &&& next.at() == self.at()
                &&& forall|disk: Disk| #[trigger] next.agrees(tables_view(sstables@), disk)
                &&& forall|disk: Disk| #[trigger]
                    next.outcome(tables_view(sstables@), disk) == self.outcome(
                        tables_view(sstables@),
                        disk,
                    )
            } else {
                &&& goes_on(r, self.key(), self.at() + 1, sstables@.len())
                &&& forall|disk: Disk| #[trigger]
                    self.outcome(tables_view(sstables@), disk) == get_from(
                        tables_view(sstables@),
                        disk,
                        (self.at() + 1) as int,
                        self.key(),
                    )
            },
            r matches StoreGetStep::Next(next) ==> next.at() == self.at() + 1 && next.key()
                == self.key() && forall|disk: Disk| #[trigger]
                next.outcome(tables_view(sstables@), disk) == self.outcome(
                    tables_view(sstables@),
                    disk,
                ),
            r matches StoreGetStep::Done(result) ==> result is Ok && forall|disk: Disk| #[trigger]
                self.outcome(tables_view(sstables@), disk) == Ok::<Option<Seq<u8>>, Fault>(
                    bytes_view(result->Ok_0),
                ),
    {
        let StoreSearch { key, table } = self;
        assert(table < sstables.len());
        assert(tables_view(sstables@)[table as int] == sstables@[table as int]@);
        proof {
            reveal_with_fuel(get_from, 2);
        }
        match sstables[table].get(key.as_slice()) {
            LookupStep::More(lookup) => StoreGetStep::More(StoreGet { key, table, lookup }),
            LookupStep::Done(_) => Self::from(key, table + 1, sstables.len()),
        }
    }
}

impl StoreGet {
    pub closed spec fn wf(self) -> bool {
        self.lookup.wf()
    }

    /// The key that is sought.
    pub closed spec fn key(self) -> Seq<u8> {
        self.key@
    }

    /// The position of the table that is being searched.
    pub closed spec fn at(self) -> nat {
        self.table as nat
    }

    /// The bytes that are needed next of that table's file.
    pub closed spec fn wants(self) -> Request {
        self.lookup.wants()
    }

    /// What has been read so far of the current table is what its file says.
    pub closed spec fn agrees(self, ts: Seq<TableView>, disk: Disk) -> bool {
        self.lookup.agrees(disk[ts[self.table as int].name])
    }

    /// What the lookup will come to.
    pub closed spec fn outcome(self, ts: Seq<TableView>, disk: Disk) -> Result<
        Option<Seq<u8>>,
        Fault,
    > {
        match self.lookup.outcome(disk[ts[self.table as int].name]) {
            Ok(Some(value)) => Ok(value),
            Ok(None) => get_from(ts, disk, self.table + 1, self.key@),
            Err(fault) => Err(fault),
        }
    }

    /// How much is left to do in the current table.
    pub closed spec fn rank(self, ts: Seq<TableView>, disk: Disk) -> nat {
        self.lookup.rank(disk[ts[self.table as int].name])
    }

    /// The table that is being searched, and the bytes that are needed next of its file.
    pub fn request(&self) -> (r: (usize, Request))
        requires
            self.wf(),
        ensures
            r.0 == self.at(),
            r.1 == self.wants(),
    {
        (self.table, self.lookup.request())
    }

    /// Goes on with the reply to the last request.
    pub fn resume(self, sstables: &Vec<SSTable>, reply: Reply) -> (r: StoreGetStep)
        requires
            self.wf(),
            self.at() < sstables@.len(),
            self.wants().answered_by(reply),
        ensures
            r matches StoreGetStep::More(next) ==> {
                &&& next.wf()
                &&& next.key() == self.key()
                &&& next.at() == self.at()
            },
            r matches StoreGetStep::Next(next) ==> {
                &&& next.key() == self.key()
                &&& next.at() == self.at() + 1
                &&& next.at() < sstables@.len()
            },
            reply matches Reply::Failed(e) ==> r == StoreGetStep::Done(Err(EngineError::Io(e))),
            forall|disk: Disk| #[trigger]
                self.agrees(tables_view(sstables@), disk) && self.wants().truthful(
                    disk[tables_view(sstables@)[self.at() as int].name],
                    reply,
                ) && !(reply is Failed) ==> match r {
                    StoreGetStep::Next(next) => next.outcome(tables_view(sstables@), disk)
                        == self.outcome(tables_view(sstables@), disk),
                    StoreGetStep::More(next) => {
                        &&& next.agrees(tables_view(sstables@), disk)
                        &&& next.outcome(tables_view(sstables@), disk) == self.outcome(
                            tables_view(sstables@),
                            disk,
                        )
                        &&& next.rank(tables_view(sstables@), disk) < self.rank(
                            tables_view(sstables@),
                            disk,
                        )
                    },
                    StoreGetStep::Done(result) => got(
                        result,
                        self.outcome(tables_view(sstables@), disk),
                        reply,
                    ),
                },
    {
        let StoreGet { key, table, lookup } = self;
        assert(table < sstables.len());
        match lookup.resume(reply) {
            LookupStep::More(lookup) => StoreGetStep::More(StoreGet { key, table, lookup }),
            LookupStep::Done(Err(error)) => StoreGetStep::Done(Err(error)),
            LookupStep::Done(Ok(Some(MemValue::Value(value)))) => StoreGetStep::Done(
                Ok(Some(value)),
            ),
            LookupStep::Done(Ok(Some(MemValue::Tombstone))) => StoreGetStep::Done(Ok(None)),
            LookupStep::Done(Ok(None)) => StoreSearch::from(key, table + 1, sstables.len()),
        }
    }
}

/// A lookup over a consistent store does not fail, and gives the value that the store holds for the
/// key, or that there is none.
pub proof fn a_finished_get_is_exact(
    v: StoreView,
    disk: Disk,
    key: Seq<u8>,
    result: Result<Option<Vec<u8>>, EngineError>,
    reply: Reply,
)
    requires
        v.consistent(disk),
        got(result, v.get(disk, key), reply),
    ensures
        result matches Ok(value) && bytes_view(value) == value_of(v.contents(disk), key),
        match result {
            Ok(Some(value)) => v.contents(disk).contains_pair(key, value@),
            Ok(None) => !v.contents(disk).contains_key(key),
            Err(_) => false,
        },
{
    get_is_exact(v, disk, key);
}

// ---------------------------------------------------------------------------
// Scans
// ---------------------------------------------------------------------------

/// A key with its live value.
pub type Pair = (Vec<u8>, Vec<u8>);

/// What a sequence of pairs says.
pub open spec fn pairs_view(s: Seq<Pair>) -> Seq<(Seq<u8>, Seq<u8>)> {
    Seq::new(s.len(), |i: int| (s[i].0@, s[i].1@))
}

/// A scan that has to read tables.
pub struct StoreScan {
    start: Vec<u8>,
    end: Vec<u8>,
    merge: MergeScan,
}

/// What a scan has come to.
pub enum StoreScanStep {
    /// It needs more bytes.
    More(StoreScan),
    /// It is over.
    Done(Result<Vec<Pair>, EngineError>),
}

/// The result of a scan is what memtable and files decide.
pub open spec fn listed(
    result: Result<Vec<Pair>, EngineError>,
    outcome: Result<Map<Seq<u8>, Seq<u8>>, Fault>,
    reply: Reply,
) -> bool {
    match (result, outcome) {
        (Ok(pairs), Ok(m)) => lists(pairs_view(pairs@), m),
        (Err(error), Err(fault)) => reports(error, fault, reply),
        _ => false,
    }
}

/// A scan of a consistent store does not fail, and lists just what the store holds in the range, in
/// the order of the keys. A range that ends where it starts or before has nothing to list.
pub proof fn a_finished_scan_is_exact(
    v: StoreView,
    disk: Disk,
    start: Seq<u8>,
    end: Seq<u8>,
    result: Result<Vec<Pair>, EngineError>,
    reply: Reply,
)
    requires
        v.consistent(disk),
        listed(result, v.scan(disk, start, end), reply),
    ensures
        result matches Ok(pairs) && lists(
            pairs_view(pairs@),
            within(v.contents(disk), start, Some(end)),
        ) && (key_le(end, start) ==> pairs@.len() == 0),
{
    scan_is_exact(v, disk, start, end);
    let ps = pairs_view(result->Ok_0@);
    if key_le(end, start) && ps.len() > 0 {
        assert(within(v.contents(disk), start, Some(end)).contains_key(ps[0].0));
    }
}

/// The pairs of a finished scan: their keys stand in ascending order, each not before the start and
/// before the end; each comes with the value that the store holds; and no key of the range is missing.
pub proof fn a_finished_scan_is_in_order(
    v: StoreView,
    disk: Disk,
    start: Seq<u8>,
    end: Seq<u8>,
    result: Result<Vec<Pair>, EngineError>,
    reply: Reply,
)
    requires
        v.consistent(disk),
        listed(result, v.scan(disk, start, end), reply),
    ensures
        result matches Ok(pairs) && {
            &&& forall|i: int, j: int|
                0 <= i < j < pairs@.len() ==> key_lt(
                    (#[trigger] pairs@[i]).0@,
                    (#[trigger] pairs@[j]).0@,
                )
            &&& forall|i: int|
                0 <= i < pairs@.len() ==> v.contents(disk).contains_pair(
                    (#[trigger] pairs@[i]).0@,
                    pairs@[i].1@,
                ) && !key_lt(pairs@[i].0@, start) && key_lt(pairs@[i].0@, end)
            &&& forall|k: Seq<u8>| #[trigger]
                v.contents(disk).contains_key(k) && !key_lt(k, start) && key_lt(k, end)
                    ==> exists|i: int| 0 <= i < pairs@.len() && (#[trigger] pairs@[i]).0@ == k
        },
{
    let m = v.contents(disk);
    let part = within(m, start, Some(end));
    let none = Map::<Seq<u8>, Option<Seq<u8>>>::empty();
    scan_is_exact(v, disk, start, end);
    let pairs = result->Ok_0;
    let ps = pairs_view(pairs@);
    assert forall|i: int, j: int| 0 <= i < j < pairs@.len() implies key_lt(
        (#[trigger] pairs@[i]).0@,
        (#[trigger] pairs@[j]).0@,
    ) by {
        assert(key_lt(ps[i].0, ps[j].0));
    }
    assert forall|i: int| 0 <= i < pairs@.len() implies m.contains_pair(
        (#[trigger] pairs@[i]).0@,
        pairs@[i].1@,
    ) && !key_lt(pairs@[i].0@, start) && key_lt(pairs@[i].0@, end) by {
        assert(part.contains_key(ps[i].0));
        a_range_is_half_open(m, none, start, end, ps[i].0);
    }
    assert forall|k: Seq<u8>| #[trigger]
        m.contains_key(k) && !key_lt(k, start) && key_lt(k, end) implies exists|i: int|
        0 <= i < pairs@.len() && (#[trigger] pairs@[i]).0@ == k by {
        a_range_is_half_open(m, none, start, end, k);
        assert(part.contains_key(k));
        let i = choose|i: int| 0 <= i < ps.len() && #[trigger] ps[i].0 == k;
        assert(pairs@[i].0@ == k);
    }
}

impl StoreScan {
    pub closed spec fn wf(self) -> bool {
        self.merge.wf()
    }

    /// Where the range starts.
    pub closed spec fn start(self) -> Seq<u8> {
        self.start@
    }

    /// Where the range ends.
    pub closed spec fn end(self) -> Seq<u8> {
        self.end@
    }

    /// The position of the table that is being scanned.
    pub closed spec fn at(self) -> nat {
        self.merge.at()
    }

    /// The bytes that are needed next of that table's file.
    pub closed spec fn wants(self) -> Request {
        self.merge.wants()
    }

    /// What has been read so far of the current table is what its file says.
    pub closed spec fn agrees(self, ts: Seq<TableView>, disk: Disk) -> bool {
        self.merge.agrees(ts, disk)
    }

    /// What the scan will come to, over the memtable `top`.
    pub closed spec fn outcome(self, top: Layer, ts: Seq<TableView>, disk: Disk) -> Result<
        Map<Seq<u8>, Seq<u8>>,
        Fault,
    > {
        match self.merge.outcome(ts, disk) {
            Ok(m) => Ok(live(overlay(m, restricted(top, self.start@, Some(self.end@))))),
            Err(fault) => Err(fault),
        }
    }

    /// How much is left to do in the current table.
    pub closed spec fn rank(self, ts: Seq<TableView>, disk: Disk) -> nat {
        self.merge.rank(ts, disk)
    }

    /// The table that is being scanned, and the bytes that are needed next of its file.
    pub fn request(&self) -> (r: (usize, Request))
        requires
            self.wf(),
        ensures
            r.0 == self.at(),
            r.1 == self.wants(),
    {
        self.merge.request()
    }

    /// Goes on with the reply to the last request, over the same engine.
    pub fn resume(self, engine: &Engine, reply: Reply) -> (r: StoreScanStep)
        requires
            self.wf(),
            engine.wf(),
            engine@.memtable != Map::<Seq<u8>, Option<Seq<u8>>>::empty() ==> key_le(
                self.start(),
                self.end(),
            ),
            self.at() < engine.sstables@.len(),
            self.wants().answered_by(reply),
        ensures
            r matches StoreScanStep::More(next) ==> {
                &&& next.wf()
                &&& next.start() == self.start()
                &&& next.end() == self.end()
                &&& next.at() <= self.at()
            },
            reply matches Reply::Failed(e) ==> r == StoreScanStep::Done(Err(EngineError::Io(e))),
            forall|disk: Disk| #[trigger]
                self.agrees(engine@.tables, disk) && self.wants().truthful(
                    disk[engine@.tables[self.at() as int].name],
                    reply,
                ) && !(reply is Failed) ==> match r {
                    StoreScanStep::More(next) => {
                        &&& next.agrees(engine@.tables, disk)
                        &&& next.outcome(engine@.memtable, engine@.tables, disk) == self.outcome(
                            engine@.memtable,
                            engine@.tables,
                            disk,
                        )
                        &&& next.at() < self.at() || next.rank(engine@.tables, disk) < self.rank(
                            engine@.tables,
                            disk,
                        )
                    },
                    StoreScanStep::Done(result) => listed(
                        result,
                        self.outcome(engine@.memtable, engine@.tables, disk),
                        reply,
                    ),
                },
    {
        let StoreScan { start, end, merge } = self;
        match merge.resume(&engine.sstables, reply) {
            MergeStep::More(merge) => StoreScanStep::More(StoreScan { start, end, merge }),
            MergeStep::Done(Err(error)) => StoreScanStep::Done(Err(error)),
            MergeStep::Done(Ok(merged)) => StoreScanStep::Done(
                Ok(engine.finish_scan(merged, start.as_slice(), end.as_slice())),
            ),
        }
    }
}

impl Engine {
    /// Begins to look `key` up: in the memtable, then in the tables from the newest on. The first
    /// that knows the key decides; a tombstone means that the key is deleted. It is over at once if
    /// the memtable knows the key or there are no tables.
    pub fn get(&self, key: &[u8], metrics: &mut EngineMetrics, now: u128) -> (r: StoreGetStep)
        requires
            self.wf(),
            old(metrics)@.total_reads < u64::MAX,
        ensures
            final(metrics)@ == old(metrics)@.read(now),
            r is Done <==> self@.memtable.contains_key(key@) || self.sstables@.len() == 0,
            match r {
                StoreGetStep::Next(next) => {
                    &&& next.key() == key@
                    &&& next.at() == 0
                    &&& forall|disk: Disk| #[trigger]
                        next.outcome(self@.tables, disk) == self@.get(disk, key@)
                },
                StoreGetStep::More(_) => false,
                StoreGetStep::Done(result) => {
                    &&& result is Ok
                    &&& forall|disk: Disk| #[trigger]
                        self@.get(disk, key@) == Ok::<Option<Seq<u8>>, Fault>(
                            bytes_view(result->Ok_0),
                        )
                },
            },
    {
        match self.memtable.get(key, metrics, now) {
            Some(MemValue::Value(value)) => StoreGetStep::Done(
                Ok(Some(slice_to_vec(value.as_slice()))),
            ),
            Some(MemValue::Tombstone) => StoreGetStep::Done(Ok(None)),
            None => StoreSearch::from(slice_to_vec(key), 0, self.sstables.len()),
        }
    }

    /// Begins to scan the keys from `start` up to but not including `end`: the tables from the oldest
    /// on, then the memtable, the newer replacing what the older say. It is over at once if there are
    /// no tables. Only over an empty memtable may the range be reversed.
    pub fn scan(&self, start: &[u8], end: &[u8]) -> (r: StoreScanStep)
        requires
            self.wf(),
            self@.memtable != Map::<Seq<u8>, Option<Seq<u8>>>::empty() ==> key_le(start@, end@),
        ensures
            r is Done <==> self.sstables@.len() == 0,
            r matches StoreScanStep::Done(result) ==> {
                &&& result is Ok
                &&& forall|disk: Disk| #[trigger]
                    self@.scan(disk, start@, end@) matches Ok(m) && lists(
                        pairs_view(result->Ok_0@),
                        m,
                    )
            },
            r matches StoreScanStep::More(next) ==> {
                &&& next.wf()
                &&& next.start() == start@
                &&& next.end() == end@
                &&& next.at() < self.sstables@.len()
                &&& forall|disk: Disk| #[trigger] next.agrees(self@.tables, disk)
                &&& forall|disk: Disk| #[trigger]
                    next.outcome(self@.memtable, self@.tables, disk) == self@.scan(
                        disk,
                        start@,
                        end@,
                    )
            },
    {
        if self.sstables.len() == 0 {
            let none = SortedEntries::new();
            return StoreScanStep::Done(Ok(self.finish_scan(none, start, end)));
        }
        StoreScanStep::More(
            StoreScan {
                start: slice_to_vec(start),
                end: slice_to_vec(end),
                merge: MergeScan::start(&self.sstables, 0, start, Some(end)),
            },
        )
    }

    /// Lays the memtable over what the tables say of the range, and lists the live values.
    fn finish_scan(&self, merged: SortedEntries, start: &[u8], end: &[u8]) -> (r: Vec<Pair>)
        requires
            self.wf(),
            merged.wf(),
            self@.memtable != Map::<Seq<u8>, Option<Seq<u8>>>::empty() ==> key_le(start@, end@),
        ensures
            lists(
                pairs_view(r@),
                live(overlay(merged@, restricted(self@.memtable, start@, Some(end@)))),
            ),
    {
        let mut all = merged;
        let top = self.memtable.scan(start, end);
        let ghost es = entries_view(top@);
        let ghost below = merged@;
        let mut i: usize = 0;
        assert(es.take(0) =~= Seq::empty());
        while i < top.len()
            invariant
                i <= top@.len(),
                es == entries_view(top@),
                all.wf(),
                all@ == apply(below, es.take(i as int)),
            decreases top@.len() - i,
        {
            proof {
                assert(es.take(i + 1).drop_last() =~= es.take(i as int));
                assert(es.take(i + 1).last() == entry_view(top@[i as int]));
            }
            let (key, value) = &top[i];
            all.insert(slice_to_vec(key.as_slice()), value.clone());
            i = i + 1;
        }
        proof {
            assert(es.take(i as int) =~= es);
            lemma_apply_is_overlay(below, es);
        }
        live_pairs(all)
    }
}

/// The live values in the order of their keys.
fn live_pairs(all: SortedEntries) -> (r: Vec<Pair>)
    requires
        all.wf(),
    ensures
        lists(pairs_view(r@), live(all@)),
{
    let ghost m = all@;
    let entries = live_entries(all.into_entries());
    let ghost es = entries_view(entries@);
    let mut pairs: Vec<Pair> = Vec::new();
    for entry in it: entries
        invariant
            es == entries_view(it.seq()),
            sorted(es),
            layer_of(es) == without_tombstones(m),
            pairs@.len() == it.index(),
            forall|j: int|
                0 <= j < pairs@.len() ==> es[j] == (
                    (#[trigger] pairs@[j]).0@,
                    Some(pairs@[j].1@),
                ),
    {
        proof {
            lemma_layer_holds(es, it.index());
            assert(es[it.index()] == entry_view(entry));
        }
        match entry {
            (key, MemValue::Value(value)) => pairs.push((key, value)),
            (_, MemValue::Tombstone) => {
                assert(false);
            },
        }
    }
    proof {
        let ps = pairs_view(pairs@);
        let wanted = live(m);
        assert forall|i: int, j: int| 0 <= i < j < ps.len() implies key_lt(
            #[trigger] ps[i].0,
            #[trigger] ps[j].0,
        ) by {
            assert(es[i] == (pairs@[i].0@, Some(pairs@[i].1@)));
            assert(es[j] == (pairs@[j].0@, Some(pairs@[j].1@)));
            assert(key_lt(es[i].0, es[j].0));
        }
        assert forall|i: int| 0 <= i < ps.len() implies wanted.contains_key(#[trigger] ps[i].0)
            && wanted[ps[i].0] == ps[i].1 by {
            assert(es[i] == (pairs@[i].0@, Some(pairs@[i].1@)));
            lemma_layer_holds(es, i);
        }
        assert forall|k: Seq<u8>| #[trigger] wanted.contains_key(k) implies exists|i: int|
            0 <= i < ps.len() && #[trigger] ps[i].0 == k by {
            assert(layer_of(es).contains_key(k));
            lemma_layer_key_written(es, k);
            let i = choose|i: int| 0 <= i < es.len() && #[trigger] es[i].0 == k;
            assert(es[i] == (pairs@[i].0@, Some(pairs@[i].1@)));
            assert(ps[i].0 == k);
        }
    }
    pairs
}

} // verus!
