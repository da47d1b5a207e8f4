//! Merging several tables: their files are scanned from the oldest to the newest, and what a newer
//! table says of a key replaces what older ones say.

use vstd::prelude::*;
use vstd::slice::slice_to_vec;

use crate::error::EngineError;
use crate::model::{
    Disk, Layer, apply, flatten, lemma_apply_is_overlay, lemma_flatten_concat, lemma_flatten_one,
    lemma_restrict_overlay, overlay, restricted,
};
use crate::order::key_le;
use crate::reader::{RangeScan, Reply, Request, ScanStep, bound_view, reports, slice_bound};
use crate::search::{Fault, lemma_reversed_is_empty};
use crate::sorted::{Entry, SortedEntries, entries_view, entry_view};
use crate::sstable::{
    SSTable, TableView, file_layer, sound, table_scan, table_scan_is_exact, tables_view,
};

verus! {

/// The layers of the tables `ts` on `disk`, in their order.
pub open spec fn table_layers(ts: Seq<TableView>, disk: Disk) -> Seq<Layer> {
    Seq::new(ts.len(), |i: int| file_layer(disk[ts[i].name]))
}

/// Each table of `ts` has a file on `disk` and describes it.
pub open spec fn all_sound(ts: Seq<TableView>, disk: Disk) -> bool {
    forall|i: int|
        0 <= i < ts.len() ==> disk.contains_key((#[trigger] ts[i]).name) && sound(
            ts[i],
            disk[ts[i].name],
        )
}

/// What scanning the tables from `i` down to `lo` and laying each over the last comes to, from `m`.
pub open spec fn merge_from(
    ts: Seq<TableView>,
    disk: Disk,
    lo: int,
    i: int,
    start: Seq<u8>,
    stop: Option<Seq<u8>>,
    m: Layer,
) -> Result<Layer, Fault>
    decreases (if lo <= i { i - lo + 1 } else { 0 }),
{
    if i < lo {
        Ok(m)
    } else {
        match table_scan(ts[i], disk[ts[i].name], start, stop) {
            Ok(es) => merge_from(ts, disk, lo, i - 1, start, stop, apply(m, es)),
            Err(fault) => Err(fault),
        }
    }
}

/// The result of a merge is what the files decide.
pub open spec fn merged_as(
    result: Result<SortedEntries, EngineError>,
    outcome: Result<Layer, Fault>,
    reply: Reply,
) -> bool {
    match (result, outcome) {
        (Ok(s), Ok(m)) => s.wf() && s@ == m,
        (Err(error), Err(fault)) => reports(error, fault, reply),
        _ => false,
    }
}

proof fn lemma_merge_from(
    ts: Seq<TableView>,
    disk: Disk,
    lo: int,
    i: int,
    start: Seq<u8>,
    stop: Option<Seq<u8>>,
    m: Layer,
)
    requires
        all_sound(ts, disk),
        0 <= lo,
        lo <= i + 1 <= ts.len(),
    ensures
        merge_from(ts, disk, lo, i, start, stop, m) == Ok::<Layer, Fault>(
            overlay(
                m,
                restricted(flatten(table_layers(ts, disk).subrange(lo, i + 1)), start, stop),
            ),
        ),
    decreases i + 1 - lo,
{
    let ls = table_layers(ts, disk);
    if i < lo {
        assert(ls.subrange(lo, i + 1) =~= Seq::empty());
        assert(overlay(m, restricted(flatten(ls.subrange(lo, i + 1)), start, stop)) =~= m);
    } else {
        assert(sound(ts[i], disk[ts[i].name]));
        table_scan_is_exact(ts[i], disk[ts[i].name], start, stop);
        let es = table_scan(ts[i], disk[ts[i].name], start, stop)->Ok_0;
        lemma_apply_is_overlay(m, es);
        let m1 = apply(m, es);
        lemma_merge_from(ts, disk, lo, i - 1, start, stop, m1);
        let newer = ls.subrange(lo, i);
        assert(ls.subrange(lo, i + 1) =~= newer + seq![ls[i]]);
        lemma_flatten_concat(newer, seq![ls[i]]);
        lemma_flatten_one(ls[i]);
        lemma_restrict_overlay(ls[i], flatten(newer), start, stop);
        assert(overlay(m1, restricted(flatten(newer), start, stop)) =~= overlay(
            m,
            overlay(restricted(ls[i], start, stop), restricted(flatten(newer), start, stop)),
        ));
    }
}

/// Merging sound tables gives, for the keys of the range, what all of them together say, the newest
/// first. A range that ends where it starts or before gives nothing.
pub proof fn merge_is_exact(
    ts: Seq<TableView>,
    disk: Disk,
    lo: int,
    start: Seq<u8>,
    stop: Option<Seq<u8>>,
)
    requires
        all_sound(ts, disk),
        0 <= lo <= ts.len(),
    ensures
        merge_from(ts, disk, lo, ts.len() - 1, start, stop, Map::empty()) == Ok::<Layer, Fault>(
            restricted(flatten(table_layers(ts, disk).skip(lo)), start, stop),
        ),
        stop matches Some(e) && key_le(e, start) ==> merge_from(
            ts,
            disk,
            lo,
            ts.len() - 1,
            start,
            stop,
            Map::empty(),
        ) == Ok::<Layer, Fault>(Map::empty()),
{
    let none = Map::<Seq<u8>, Option<Seq<u8>>>::empty();
    lemma_merge_from(ts, disk, lo, ts.len() - 1, start, stop, none);
    let ls = table_layers(ts, disk);
    assert(ls.subrange(lo, ts.len() as int) =~= ls.skip(lo));
    let m = restricted(flatten(ls.skip(lo)), start, stop);
    assert(overlay(none, m) =~= m);
    if stop is Some && key_le(stop->0, start) {
        lemma_reversed_is_empty(flatten(ls.skip(lo)), start, stop->0);
    }
}

/// A merge of tables under way.
pub struct MergeScan {
    lo: usize,
    table: usize,
    start: Vec<u8>,
    stop: Option<Vec<u8>>,
    merged: SortedEntries,
    scan: RangeScan,
}

/// What a reply brings a merge to.
pub enum MergeStep {
    /// It needs more bytes.
    More(MergeScan),
    /// It is over.
    Done(Result<SortedEntries, EngineError>),
}

impl MergeScan {
    pub closed spec fn wf(self) -> bool {
        &&& self.lo <= self.table
        &&& self.merged.wf()
        &&& self.scan.wf()
    }

    /// The position of the table that is being scanned.
    pub closed spec fn at(self) -> nat {
        self.table as nat
    }

    /// The bytes that are needed next of that table's file.
    pub closed spec fn wants(self) -> Request {
        self.scan.wants()
    }

    /// What has been read so far of the current table is what its file says.
    pub closed spec fn agrees(self, ts: Seq<TableView>, disk: Disk) -> bool {
        self.scan.agrees(disk[ts[self.table as int].name])
    }

    /// What the merge will come to.
    pub closed spec fn outcome(self, ts: Seq<TableView>, disk: Disk) -> Result<Layer, Fault> {
        match self.scan.outcome(disk[ts[self.table as int].name]) {
            Ok(es) => merge_from(
                ts,
                disk,
                self.lo as int,
                self.table - 1,
                self.start@,
                bound_view(self.stop),
                apply(self.merged@, es),
            ),
            Err(fault) => Err(fault),
        }
    }

    /// How much is left to do in the current table.
    pub closed spec fn rank(self, ts: Seq<TableView>, disk: Disk) -> nat {
        self.scan.rank(disk[ts[self.table as int].name])
    }

    /// Begins to merge the tables from position `lo` to the oldest, for the keys from `start` up to
    /// but not including `stop`.
    pub fn start(tables: &Vec<SSTable>, lo: usize, start: &[u8], stop: Option<&[u8]>) -> (r: Self)
        requires
            lo < tables@.len(),
        ensures
            r.wf(),
            r.at() == tables@.len() - 1,
            forall|disk: Disk| #[trigger] r.agrees(tables_view(tables@), disk),
            forall|disk: Disk| #[trigger]
                r.outcome(tables_view(tables@), disk) == merge_from(
                    tables_view(tables@),
                    disk,
                    lo as int,
                    tables@.len() - 1,
                    start@,
                    slice_bound(stop),
                    Map::empty(),
                ),
    {
        let table = tables.len() - 1;
        let scan = tables[table].scan(start, stop);
        let stop_owned: Option<Vec<u8>> = match stop {
            Some(e) => Some(slice_to_vec(e)),
            None => None,
        };
        let ghost ts = tables_view(tables@);
        assert(ts[table as int] == tables@[table as int]@);
        MergeScan {
            lo,
            table,
            start: slice_to_vec(start),
            stop: stop_owned,
            merged: SortedEntries::new(),
            scan,
        }
    }

    /// The table that is being scanned, and the bytes that are needed next of its file.
    pub fn request(&self) -> (r: (usize, Request))
        requires
            self.wf(),
        ensures
            r.0 == self.at(),
            r.1 == self.wants(),
    {
        (self.table, self.scan.request())
    }

    /// Goes on with the reply to the last request.
    pub fn resume(self, tables: &Vec<SSTable>, reply: Reply) -> (r: MergeStep)
        requires
            self.wf(),
            self.at() < tables@.len(),
            self.wants().answered_by(reply),
        ensures
            r matches MergeStep::More(next) ==> next.wf() && next.at() <= self.at(),
            r matches MergeStep::Done(Ok(s)) ==> s.wf(),
            reply matches Reply::Failed(e) ==> r == MergeStep::Done(Err(EngineError::Io(e))),
            forall|disk: Disk| #[trigger]
                self.agrees(tables_view(tables@), disk) && self.wants().truthful(
                    disk[tables_view(tables@)[self.at() as int].name],
                    reply,
                ) && !(reply is Failed) ==> match r {
                    MergeStep::More(next) => {
                        &&& next.agrees(tables_view(tables@), disk)
                        &&& next.outcome(tables_view(tables@), disk) == self.outcome(
                            tables_view(tables@),
                            disk,
                        )
                        &&& next.at() < self.at() || next.rank(tables_view(tables@), disk)
                            < self.rank(tables_view(tables@), disk)
                    },
                    MergeStep::Done(result) => merged_as(
                        result,
                        self.outcome(tables_view(tables@), disk),
                        reply,
                    ),
                },
    {
        let ghost ts = tables_view(tables@);
        let MergeScan { lo, table, start, stop, merged, scan } = self;
        match scan.resume(reply) {
            ScanStep::More(scan) => MergeStep::More(
                MergeScan { lo, table, start, stop, merged, scan },
            ),
            ScanStep::Done(Err(error)) => MergeStep::Done(Err(error)),
            ScanStep::Done(Ok(entries)) => {
                let mut merged = merged;
                insert_all(&mut merged, entries);
                if table == lo {
                    return MergeStep::Done(Ok(merged));
                }
                let table = table - 1;
                let bound: Option<&[u8]> = match &stop {
                    Some(e) => Some(e.as_slice()),
                    None => None,
                };
                let scan = tables[table].scan(start.as_slice(), bound);
                assert(ts[table as int] == tables@[table as int]@);
                MergeStep::More(MergeScan { lo, table, start, stop, merged, scan })
            },
        }
    }
}

/// Inserts `entries` in order.
fn insert_all(merged: &mut SortedEntries, entries: Vec<Entry>)
    requires
        old(merged).wf(),
    ensures
        final(merged).wf(),
        final(merged)@ == apply(old(merged)@, entries_view(entries@)),
{
    let ghost es = entries_view(entries@);
    let ghost m = merged@;
    assert(es.take(0) =~= Seq::empty());
    for entry in it: entries
        invariant
            es == entries_view(it.seq()),
            merged.wf(),
            merged@ == apply(m, es.take(it.index())),
    {
        proof {
            let next = es.take(it.index() + 1);
            assert(next.drop_last() =~= es.take(it.index()));
            assert(next.last() == entry_view(entry));
        }
        let (key, value) = entry;
        merged.insert(key, value);
    }
    assert(es.take(es.len() as int) =~= es);
}

} // verus!
