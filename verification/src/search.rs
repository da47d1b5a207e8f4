//! What a search of a table file finds: the searches as functions of the file's bytes, and what they
//! amount to on a file that stores sorted entries.

use vstd::prelude::*;

use crate::format::{EntryView, body_entry, body_fits, body_len, le_value};
use crate::layout::{
    IndexView, data_end, data_of, file_stores, index_of, lemma_offsets_grow, lemma_record_at,
    record_offset,
};
use crate::model::{
    Layer, layer_of, lemma_layer_holds, lemma_layer_is, lemma_layer_key_written,
    lemma_sorted_subrange, restricted, sorted,
};
use crate::order::{
    key_le, key_lt, lemma_key_lt_excludes, lemma_key_lt_irreflexive, lemma_key_lt_total,
    lemma_key_lt_transitive,
};

verus! {

/// Why a search of a file fails.
pub enum Fault {
    /// The file is shorter than a footer.
    TooSmall,
    /// The file ends inside the key or value of a record.
    CutShort,
}

/// Where `key` belongs among the index entries from `lo` up to `hi`, by bisection: in a sorted index
/// the keys before that place are not greater, and those from there on are.
pub open spec fn bisect(ix: Seq<IndexView>, key: Seq<u8>, lo: int, hi: int) -> int
    decreases (if lo < hi { hi - lo } else { 0 }),
{
    if lo >= hi {
        lo
    } else {
        let mid = lo + (hi - lo) / 2;
        if key_le(ix[mid].0, key) {
            bisect(ix, key, mid + 1, hi)
        } else {
            bisect(ix, key, lo, mid)
        }
    }
}

/// How many index entries a bisection for `key` looks at.
pub open spec fn bisect_steps(ix: Seq<IndexView>, key: Seq<u8>, lo: int, hi: int) -> nat
    decreases (if lo < hi { hi - lo } else { 0 }),
{
    if lo >= hi {
        0
    } else {
        let mid = lo + (hi - lo) / 2;
        if key_le(ix[mid].0, key) {
            1 + bisect_steps(ix, key, mid + 1, hi)
        } else {
            1 + bisect_steps(ix, key, lo, mid)
        }
    }
}

/// How often `n` can be halved before nothing is left.
pub open spec fn halvings(n: nat) -> nat
    decreases n,
{
    if n == 0 {
        0
    } else {
        1 + halvings(n / 2)
    }
}

/// The place of `key` in the index.
pub open spec fn index_rank(ix: Seq<IndexView>, key: Seq<u8>) -> int {
    bisect(ix, key, 0, ix.len() as int)
}

/// The offset at which the search for `key` begins: that of the last entry before the key's place, or
/// the start of the file.
pub open spec fn seek_offset(ix: Seq<IndexView>, key: Seq<u8>) -> nat {
    let rank = index_rank(ix, key);
    if rank == 0 {
        0
    } else {
        ix[rank - 1].1
    }
}

/// The offset at which the search for `key` ends: that of the entry at the key's place, if there is
/// one.
pub open spec fn seek_end(ix: Seq<IndexView>, key: Seq<u8>) -> Option<nat> {
    let rank = index_rank(ix, key);
    if rank < ix.len() {
        Some(ix[rank].1)
    } else {
        None
    }
}

/// Where reading ends: at the end of the data, or at `stop` before it.
pub open spec fn read_end(data_end: nat, stop: Option<nat>) -> nat {
    match stop {
        Some(n) => if n < data_end {
            n
        } else {
            data_end
        },
        None => data_end,
    }
}

/// What reading the records from `pos` on finds of `key`: reading stops at the key, at a greater one,
/// at `end`, or where no record header is left.
pub open spec fn find_from(file: Seq<u8>, pos: int, end: int, key: Seq<u8>) -> Result<
    Option<Option<Seq<u8>>>,
    Fault,
>
    decreases (if pos < end { end - pos } else { 0 }),
{
    if pos >= end || pos + 9 > file.len() {
        Ok(None)
    } else if !body_fits(file, pos) {
        Err(Fault::CutShort)
    } else {
        let e = body_entry(file, pos);
        if e.0 == key {
            Ok(Some(e.1))
        } else if key_lt(key, e.0) {
            Ok(None)
        } else {
            find_from(file, pos + body_len(file, pos), end, key)
        }
    }
}

/// What searching the file for `key` from offset `from` up to `stop` finds.
pub open spec fn find_in(file: Seq<u8>, from: nat, stop: Option<nat>, key: Seq<u8>) -> Result<
    Option<Option<Seq<u8>>>,
    Fault,
> {
    if file.len() < 16 {
        Err(Fault::TooSmall)
    } else {
        find_from(file, from as int, read_end(data_end(file), stop) as int, key)
    }
}

/// How many records `find_from` reads.
pub open spec fn records_from(file: Seq<u8>, pos: int, end: int, key: Seq<u8>) -> nat
    decreases (if pos < end { end - pos } else { 0 }),
{
    if pos >= end || pos + 9 > file.len() {
        0
    } else if !body_fits(file, pos) {
        1
    } else {
        let e = body_entry(file, pos);
        if e.0 == key || key_lt(key, e.0) {
            1
        } else {
            1 + records_from(file, pos + body_len(file, pos), end, key)
        }
    }
}

/// How many records `find_in` reads.
pub open spec fn records_in(file: Seq<u8>, from: nat, stop: Option<nat>, key: Seq<u8>) -> nat {
    if file.len() < 16 {
        0
    } else {
        records_from(file, from as int, read_end(data_end(file), stop) as int, key)
    }
}

/// The entries of the range that reading the records from `pos` on gives: reading stops at the first
/// key beyond the range, at `end`, or where no record header is left.
pub open spec fn scan_from(
    file: Seq<u8>,
    pos: int,
    end: int,
    start: Seq<u8>,
    stop: Option<Seq<u8>>,
) -> Result<Seq<EntryView>, Fault>
    decreases (if pos < end { end - pos } else { 0 }),
{
    if pos >= end || pos + 9 > file.len() {
        Ok(Seq::empty())
    } else if !body_fits(file, pos) {
        Err(Fault::CutShort)
    } else {
        let e = body_entry(file, pos);
        if beyond(e.0, stop) {
            Ok(Seq::empty())
        } else {
            match scan_from(file, pos + body_len(file, pos), end, start, stop) {
                Ok(rest) => if key_le(start, e.0) {
                    Ok(seq![e] + rest)
                } else {
                    Ok(rest)
                },
                Err(fault) => Err(fault),
            }
        }
    }
}

/// `key` is not before `stop`.
pub open spec fn beyond(key: Seq<u8>, stop: Option<Seq<u8>>) -> bool {
    stop matches Some(e) && !key_lt(key, e)
}

/// The entries of the range that scanning the file from offset `from` gives.
pub open spec fn scan_in(file: Seq<u8>, from: nat, start: Seq<u8>, stop: Option<Seq<u8>>) -> Result<
    Seq<EntryView>,
    Fault,
> {
    if file.len() < 16 {
        Err(Fault::TooSmall)
    } else {
        scan_from(file, from as int, data_end(file) as int, start, stop)
    }
}

/// A file that is shorter than a footer can be neither searched nor scanned.
pub proof fn a_shrunken_file_is_a_fault(
    file: Seq<u8>,
    from: nat,
    end: Option<nat>,
    key: Seq<u8>,
    stop: Option<Seq<u8>>,
)
    requires
        file.len() < 16,
    ensures
        find_in(file, from, end, key) == Err::<Option<Option<Seq<u8>>>, Fault>(Fault::TooSmall),
        scan_in(file, from, key, stop) == Err::<Seq<EntryView>, Fault>(Fault::TooSmall),
{
}

/// A record that reaches past the end of the file is a fault, however far it reaches; where not even
/// the nine bytes before its key are there, the data is over.
pub proof fn a_cut_record_is_a_fault(
    file: Seq<u8>,
    pos: int,
    end: int,
    key: Seq<u8>,
    stop: Option<Seq<u8>>,
)
    requires
        0 <= pos < end,
    ensures
        pos + 9 <= file.len() < pos + 9 + le_value(file.subrange(pos, pos + 4)) + le_value(
            file.subrange(pos + 4, pos + 8),
        ) ==> {
            &&& find_from(file, pos, end, key) == Err::<Option<Option<Seq<u8>>>, Fault>(
                Fault::CutShort,
            )
            &&& scan_from(file, pos, end, key, stop) == Err::<Seq<EntryView>, Fault>(
                Fault::CutShort,
            )
        },
        file.len() < pos + 9 ==> {
            &&& find_from(file, pos, end, key) == Ok::<Option<Option<Seq<u8>>>, Fault>(None)
            &&& scan_from(file, pos, end, key, stop) == Ok::<Seq<EntryView>, Fault>(Seq::empty())
        },
{
}

/// Searches and scans read up to the offset that the last eight bytes of the file tell, and no further;
/// a search may end earlier, at `until`. At or behind the end there is nothing; before it a record that
/// reaches past the end of the file is a fault.
pub proof fn reading_ends_where_the_footer_says(
    file: Seq<u8>,
    from: nat,
    until: Option<nat>,
    key: Seq<u8>,
    stop: Option<Seq<u8>>,
)
    requires
        file.len() >= 16,
    ensures
        ({
            let end = le_value(file.skip(file.len() - 8));
            let pos = from as int;
            &&& from >= end ==> scan_in(file, from, key, stop) == Ok::<Seq<EntryView>, Fault>(
                Seq::empty(),
            )
            &&& from >= end || (until matches Some(n) && from >= n) ==> find_in(
                file,
                from,
                until,
                key,
            ) == Ok::<Option<Option<Seq<u8>>>, Fault>(None)
            &&& from < end && pos + 9 <= file.len() < pos + 9 + le_value(
                file.subrange(pos, pos + 4),
            ) + le_value(file.subrange(pos + 4, pos + 8)) ==> {
                &&& (until matches Some(n) ==> from < n) ==> find_in(file, from, until, key) == Err::<
                    Option<Option<Seq<u8>>>,
                    Fault,
                >(Fault::CutShort)
                &&& scan_in(file, from, key, stop) == Err::<Seq<EntryView>, Fault>(Fault::CutShort)
            }
        }),
{
    let end = data_end(file) as int;
    assert(file.skip(file.len() - 8) =~= file.subrange(file.len() - 8, file.len() as int));
    let last = read_end(data_end(file), until) as int;
    if from < end {
        a_cut_record_is_a_fault(file, from as int, end, key, stop);
    }
    if from < last {
        a_cut_record_is_a_fault(file, from as int, last, key, stop);
    }
}

// ---------------------------------------------------------------------------
// On a file that stores sorted entries
// ---------------------------------------------------------------------------

/// The entry of `key` in a layer.
pub open spec fn lookup(m: Layer, key: Seq<u8>) -> Option<Option<Seq<u8>>> {
    if m.contains_key(key) {
        Some(m[key])
    } else {
        None
    }
}

/// A bisection of a sorted index finds the place that parts the keys up to `key` from the greater
/// ones.
proof fn lemma_bisect(ix: Seq<IndexView>, key: Seq<u8>, lo: int, hi: int)
    requires
        0 <= lo <= hi <= ix.len(),
        forall|i: int, j: int|
            0 <= i < j < ix.len() ==> key_lt(#[trigger] ix[i].0, #[trigger] ix[j].0),
        forall|i: int| 0 <= i < lo ==> key_le(#[trigger] ix[i].0, key),
        forall|i: int| hi <= i < ix.len() ==> key_lt(key, #[trigger] ix[i].0),
    ensures
        lo <= bisect(ix, key, lo, hi) <= hi,
        forall|i: int| 0 <= i < bisect(ix, key, lo, hi) ==> key_le(#[trigger] ix[i].0, key),
        forall|i: int|
            bisect(ix, key, lo, hi) <= i < ix.len() ==> key_lt(key, #[trigger] ix[i].0),
    decreases hi - lo,
{
    if lo < hi {
        let mid = lo + (hi - lo) / 2;
        if key_le(ix[mid].0, key) {
            assert forall|i: int| 0 <= i < mid + 1 implies key_le(#[trigger] ix[i].0, key) by {
                if i < mid {
                    assert(key_lt(ix[i].0, ix[mid].0));
                    if ix[mid].0 != key {
                        lemma_key_lt_transitive(ix[i].0, ix[mid].0, key);
                    }
                }
            }
            lemma_bisect(ix, key, mid + 1, hi);
        } else {
            lemma_key_lt_total(ix[mid].0, key);
            assert forall|i: int| mid <= i < ix.len() implies key_lt(key, #[trigger] ix[i].0) by {
                if mid < i {
                    assert(key_lt(ix[mid].0, ix[i].0));
                    lemma_key_lt_transitive(key, ix[mid].0, ix[i].0);
                }
            }
            lemma_bisect(ix, key, lo, mid);
        }
    }
}

proof fn lemma_halvings_grow(a: nat, b: nat)
    requires
        a <= b,
    ensures
        halvings(a) <= halvings(b),
    decreases b,
{
    if a > 0 {
        lemma_halvings_grow(a / 2, b / 2);
    }
}

proof fn lemma_bisect_steps(ix: Seq<IndexView>, key: Seq<u8>, lo: int, hi: int)
    requires
        lo <= hi,
    ensures
        bisect_steps(ix, key, lo, hi) <= halvings((hi - lo) as nat),
    decreases hi - lo,
{
    if lo < hi {
        let mid = lo + (hi - lo) / 2;
        let half = ((hi - lo) / 2) as nat;
        lemma_bisect_steps(ix, key, mid + 1, hi);
        lemma_bisect_steps(ix, key, lo, mid);
        lemma_halvings_grow((hi - mid - 1) as nat, half);
    }
}

/// A seek looks at no more entries of the index than its length can be halved.
pub proof fn a_seek_halves_the_index(ix: Seq<IndexView>, key: Seq<u8>)
    ensures
        bisect_steps(ix, key, 0, ix.len() as int) <= halvings(ix.len()),
{
    lemma_bisect_steps(ix, key, 0, ix.len() as int);
}

/// The position of the first entry of the block that precedes place `rank` of the index.
pub open spec fn block_start(rank: int) -> int {
    if rank == 0 {
        0
    } else {
        16 * (rank - 1)
    }
}

/// The index leads to a block: a search begins at its first record, and every key before it is
/// smaller than the one sought; it ends at the first record of the next block, whose key is greater.
pub proof fn lemma_seek_block(es: Seq<EntryView>, key: Seq<u8>)
    requires
        sorted(es),
    ensures
        ({
            let rank = index_rank(index_of(es), key);
            &&& 0 <= rank <= index_of(es).len()
            &&& 0 <= block_start(rank) <= es.len()
            &&& seek_offset(index_of(es), key) == record_offset(es, block_start(rank))
            &&& forall|i: int| 0 <= i < block_start(rank) ==> key_lt(#[trigger] es[i].0, key)
            &&& if 16 * rank < es.len() {
                &&& seek_end(index_of(es), key) == Some(record_offset(es, 16 * rank))
                &&& key_lt(key, es[16 * rank].0)
            } else {
                seek_end(index_of(es), key) is None
            }
        }),
{
    let ix = index_of(es);
    assert forall|i: int, j: int| 0 <= i < j < ix.len() implies key_lt(
        #[trigger] ix[i].0,
        #[trigger] ix[j].0,
    ) by {
        assert(key_lt(es[16 * i].0, es[16 * j].0));
    }
    lemma_bisect(ix, key, 0, ix.len() as int);
    let rank = index_rank(ix, key);
    assert(es.take(0) =~= Seq::empty());
    if rank > 0 {
        let b = 16 * (rank - 1);
        assert(key_le(ix[rank - 1].0, key));
        assert(ix[rank - 1] == (es[b].0, record_offset(es, b)));
        assert forall|i: int| 0 <= i < b implies key_lt(#[trigger] es[i].0, key) by {
            assert(key_lt(es[i].0, es[b].0));
            if es[b].0 != key {
                lemma_key_lt_transitive(es[i].0, es[b].0, key);
            }
        }
    }
    if 16 * rank < es.len() {
        assert(ix[rank] == (es[16 * rank].0, record_offset(es, 16 * rank)));
        assert(key_lt(key, ix[rank].0));
    }
}

/// A key's record stands among the sixteen from the offset at which its search begins.
pub proof fn seek_reaches_within_a_block(es: Seq<EntryView>, i: int)
    requires
        sorted(es),
        0 <= i < es.len(),
    ensures
        seek_offset(index_of(es), es[i].0) == record_offset(es, i - i % 16),
{
    let key = es[i].0;
    lemma_seek_block(es, key);
    let rank = index_rank(index_of(es), key);
    lemma_position_in_block(es, i, block_start(rank), 16 * rank);
    lemma_block_of(i, rank);
}

/// The block of a position begins at the last multiple of sixteen.
proof fn lemma_block_of(i: int, rank: int)
    requires
        0 <= rank,
        block_start(rank) <= i < 16 * rank,
    ensures
        block_start(rank) == i - i % 16,
{
}

/// A key lies in the block whose bounds lie round it.
proof fn lemma_position_in_block(es: Seq<EntryView>, i: int, lo: int, hi: int)
    requires
        sorted(es),
        0 <= i < es.len(),
        0 <= lo,
        0 <= hi,
        forall|k: int| 0 <= k < lo ==> key_lt(#[trigger] es[k].0, es[i].0),
        hi < es.len() ==> key_lt(es[i].0, es[hi].0),
    ensures
        lo <= i < hi,
{
    lemma_key_lt_irreflexive(es[i].0);
    if i < lo {
        assert(key_lt(es[i].0, es[i].0));
    }
    if hi <= i {
        assert(key_lt(es[i].0, es[hi].0));
        if hi < i {
            assert(key_lt(es[hi].0, es[i].0));
            lemma_key_lt_excludes(es[i].0, es[hi].0);
        }
        assert(false);
    }
}

/// Reading on from the record of `es[i]` to that of `es[hi]` finds a key that no earlier entry has and
/// that is smaller than that of `es[hi]`. It reads no other records.
proof fn lemma_find_from(file: Seq<u8>, es: Seq<EntryView>, i: int, hi: int, key: Seq<u8>)
    requires
        file_stores(file, es),
        0 <= i <= hi <= es.len(),
        forall|k: int| 0 <= k < i ==> key_lt(#[trigger] es[k].0, key),
        hi < es.len() ==> key_lt(key, es[hi].0),
    ensures
        find_from(file, record_offset(es, i) as int, record_offset(es, hi) as int, key) == Ok::<
            Option<Option<Seq<u8>>>,
            Fault,
        >(lookup(layer_of(es), key)),
        records_from(file, record_offset(es, i) as int, record_offset(es, hi) as int, key) <= hi
            - i,
    decreases hi - i,
{
    if i == hi {
        if layer_of(es).contains_key(key) {
            lemma_layer_key_written(es, key);
            let k = choose|k: int| 0 <= k < es.len() && #[trigger] es[k].0 == key;
            lemma_key_lt_irreflexive(key);
            if hi < k {
                assert(key_lt(es[hi].0, es[k].0));
                lemma_key_lt_excludes(key, es[hi].0);
            }
            assert(false);
        }
    } else {
        lemma_record_at(file, es, i);
        lemma_offset_before(es, i, hi);
        let e = es[i];
        if e.0 == key {
            lemma_layer_holds(es, i);
        } else if key_lt(key, e.0) {
            if layer_of(es).contains_key(key) {
                lemma_layer_key_written(es, key);
                let k = choose|k: int| 0 <= k < es.len() && #[trigger] es[k].0 == key;
                lemma_key_lt_irreflexive(key);
                if i < k {
                    assert(key_lt(es[i].0, es[k].0));
                    lemma_key_lt_excludes(key, e.0);
                }
                assert(false);
            }
        } else {
            lemma_key_lt_total(e.0, key);
            lemma_find_from(file, es, i + 1, hi, key);
        }
    }
}

/// Offsets grow with the position.
proof fn lemma_offset_before(es: Seq<EntryView>, i: int, j: int)
    requires
        0 <= i < j <= es.len(),
    ensures
        record_offset(es, i) < record_offset(es, j) <= data_of(es).len(),
    decreases j - i,
{
    lemma_offsets_grow(es, i);
    if i + 1 < j {
        lemma_offset_before(es, i + 1, j);
    }
}

/// Searching a file for a key, from where its index leads to the next entry of the index, finds just
/// what the file stores, and reads at most sixteen records.
pub proof fn search_finds_what_is_stored(file: Seq<u8>, es: Seq<EntryView>, key: Seq<u8>)
    requires
        file_stores(file, es),
    ensures
        find_in(file, seek_offset(index_of(es), key), seek_end(index_of(es), key), key) == Ok::<
            Option<Option<Seq<u8>>>,
            Fault,
        >(lookup(layer_of(es), key)),
        records_in(file, seek_offset(index_of(es), key), seek_end(index_of(es), key), key) <= 16,
{
    lemma_seek_block(es, key);
    let rank = index_rank(index_of(es), key);
    let hi = if 16 * rank < es.len() {
        16 * rank
    } else {
        es.len() as int
    };
    assert(es.take(es.len() as int) =~= es);
    if hi < es.len() {
        lemma_offset_before(es, hi, es.len() as int);
    }
    lemma_find_from(file, es, block_start(rank), hi, key);
}

/// Reading on from the record of `es[i]` gives the entries of the range from there.
proof fn lemma_scan_from(
    file: Seq<u8>,
    es: Seq<EntryView>,
    i: int,
    start: Seq<u8>,
    stop: Option<Seq<u8>>,
) -> (hi: int)
    requires
        file_stores(file, es),
        0 <= i <= es.len(),
        i < es.len() ==> key_le(start, es[i].0),
    ensures
        i <= hi <= es.len(),
        scan_from(file, record_offset(es, i) as int, data_of(es).len() as int, start, stop) == Ok::<
            Seq<EntryView>,
            Fault,
        >(es.subrange(i, hi)),
        forall|k: int| i <= k < hi ==> !beyond(#[trigger] es[k].0, stop),
        hi < es.len() ==> beyond(es[hi].0, stop),
    decreases es.len() - i,
{
    let pos = record_offset(es, i) as int;
    if i == es.len() {
        assert(es.take(i) =~= es);
        assert(es.subrange(i, i) =~= Seq::empty());
        i
    } else {
        lemma_record_at(file, es, i);
        lemma_offsets_grow(es, i);
        if beyond(es[i].0, stop) {
            assert(es.subrange(i, i) =~= Seq::empty());
            i
        } else {
            if i + 1 < es.len() {
                assert(key_lt(es[i].0, es[i + 1].0));
                if start != es[i].0 {
                    lemma_key_lt_transitive(start, es[i].0, es[i + 1].0);
                }
            }
            let hi = lemma_scan_from(file, es, i + 1, start, stop);
            assert(seq![es[i]] + es.subrange(i + 1, hi) =~= es.subrange(i, hi));
            hi
        }
    }
}

/// Reading passes over the records before the range.
proof fn lemma_scan_skip(
    file: Seq<u8>,
    es: Seq<EntryView>,
    i: int,
    start: Seq<u8>,
    stop: Option<Seq<u8>>,
) -> (r: (int, int))
    requires
        file_stores(file, es),
        0 <= i <= es.len(),
        stop matches Some(e) ==> key_lt(start, e),
        forall|k: int| 0 <= k < i ==> key_lt(#[trigger] es[k].0, start),
    ensures
        i <= r.0 <= r.1 <= es.len(),
        scan_from(file, record_offset(es, i) as int, data_of(es).len() as int, start, stop) == Ok::<
            Seq<EntryView>,
            Fault,
        >(es.subrange(r.0, r.1)),
        forall|k: int| 0 <= k < r.0 ==> key_lt(#[trigger] es[k].0, start),
        forall|k: int|
            r.0 <= k < r.1 ==> key_le(start, #[trigger] es[k].0) && !beyond(es[k].0, stop),
        r.1 < es.len() ==> beyond(es[r.1].0, stop),
    decreases es.len() - i,
{
    if i == es.len() || key_le(start, es[i].0) {
        let hi = lemma_scan_from(file, es, i, start, stop);
        assert forall|k: int| i <= k < hi implies key_le(start, #[trigger] es[k].0) by {
            if i < k {
                assert(key_lt(es[i].0, es[k].0));
                if start != es[i].0 {
                    lemma_key_lt_transitive(start, es[i].0, es[k].0);
                }
            }
        }
        (i, hi)
    } else {
        lemma_record_at(file, es, i);
        lemma_offsets_grow(es, i);
        lemma_key_lt_total(es[i].0, start);
        if stop is Some {
            lemma_key_lt_transitive(es[i].0, start, stop->0);
        }
        lemma_scan_skip(file, es, i + 1, start, stop)
    }
}

/// A range that ends where it starts or before has no keys.
proof fn lemma_reversed(key: Seq<u8>, start: Seq<u8>, end: Seq<u8>)
    requires
        key_le(end, start),
    ensures
        !(key_le(start, key) && key_lt(key, end)),
{
    if key_le(start, key) && key_lt(key, end) {
        lemma_key_lt_excludes(key, end);
        if end != start && start != key {
            lemma_key_lt_transitive(end, start, key);
        }
    }
}

/// Reading on for a range that has no keys gives nothing.
proof fn lemma_scan_reversed(
    file: Seq<u8>,
    es: Seq<EntryView>,
    i: int,
    start: Seq<u8>,
    end: Seq<u8>,
)
    requires
        file_stores(file, es),
        0 <= i <= es.len(),
        key_le(end, start),
    ensures
        scan_from(
            file,
            record_offset(es, i) as int,
            data_of(es).len() as int,
            start,
            Some(end),
        ) == Ok::<Seq<EntryView>, Fault>(Seq::empty()),
    decreases es.len() - i,
{
    if i == es.len() {
        assert(es.take(i) =~= es);
    } else {
        lemma_record_at(file, es, i);
        lemma_offsets_grow(es, i);
        if key_lt(es[i].0, end) {
            lemma_reversed(es[i].0, start, end);
            lemma_scan_reversed(file, es, i + 1, start, end);
        }
    }
}

/// Scanning a file for a range, from where its index leads, gives just the stored entries of the
/// range, in order. A range that ends where it starts or before gives none.
pub proof fn scan_gives_the_stored_range(
    file: Seq<u8>,
    es: Seq<EntryView>,
    start: Seq<u8>,
    stop: Option<Seq<u8>>,
)
    requires
        file_stores(file, es),
    ensures
        scan_in(file, seek_offset(index_of(es), start), start, stop) matches Ok(found) && sorted(
            found,
        ) && layer_of(found) == restricted(layer_of(es), start, stop) && (stop matches Some(e)
            && key_le(e, start) ==> found.len() == 0),
{
    lemma_seek_block(es, start);
    let from = block_start(index_rank(index_of(es), start));
    match stop {
        Some(end) => {
            if key_le(end, start) {
                lemma_scan_reversed(file, es, from, start, end);
                lemma_reversed_is_empty(layer_of(es), start, end);
            } else {
                lemma_key_lt_total(start, end);
                lemma_scan_range(file, es, from, start, stop);
            }
        },
        None => {
            lemma_scan_range(file, es, from, start, stop);
        },
    }
}

/// Of a layer, a range that ends where it starts or before holds nothing.
pub proof fn lemma_reversed_is_empty(m: Layer, start: Seq<u8>, end: Seq<u8>)
    requires
        key_le(end, start),
    ensures
        restricted(m, start, Some(end)) == Map::<Seq<u8>, Option<Seq<u8>>>::empty(),
{
    assert forall|k: Seq<u8>| !(#[trigger] restricted(m, start, Some(end)).contains_key(k)) by {
        lemma_reversed(k, start, end);
    }
    assert(restricted(m, start, Some(end)) =~= Map::empty());
}

/// Reading from `es[from]` on gives the entries of the range, if no earlier entry lies in it.
proof fn lemma_scan_range(
    file: Seq<u8>,
    es: Seq<EntryView>,
    from: int,
    start: Seq<u8>,
    stop: Option<Seq<u8>>,
)
    requires
        file_stores(file, es),
        0 <= from <= es.len(),
        stop matches Some(e) ==> key_lt(start, e),
        forall|k: int| 0 <= k < from ==> key_lt(#[trigger] es[k].0, start),
    ensures
        scan_from(file, record_offset(es, from) as int, data_of(es).len() as int, start, stop)
            matches Ok(found) && sorted(found) && layer_of(found) == restricted(
            layer_of(es),
            start,
            stop,
        ),
{
    let (lo, hi) = lemma_scan_skip(file, es, from, start, stop);
    let found = es.subrange(lo, hi);
    lemma_sorted_subrange(es, lo, hi);
    let m = restricted(layer_of(es), start, stop);
    assert forall|i: int| 0 <= i < found.len() implies m.contains_key(#[trigger] found[i].0)
        && m[found[i].0] == found[i].1 by {
        lemma_layer_holds(es, lo + i);
        assert(found[i] == es[lo + i]);
    }
    assert forall|k: Seq<u8>| #[trigger] m.contains_key(k) implies exists|i: int|
        0 <= i < found.len() && #[trigger] found[i].0 == k by {
        lemma_layer_key_written(es, k);
        let i = choose|i: int| 0 <= i < es.len() && #[trigger] es[i].0 == k;
        if i < lo {
            lemma_key_lt_excludes(k, start);
        }
        if hi <= i {
            let end = stop->0;
            if hi < i {
                assert(key_lt(es[hi].0, es[i].0));
                lemma_key_lt_transitive(es[hi].0, k, end);
            }
            assert(false);
        }
        assert(found[i - lo].0 == k);
    }
    lemma_layer_is(found, m);
}

} // verus!
