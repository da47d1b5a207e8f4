//! The layout of a table file:
//!
//! data records, Bloom filter, sparse index, footer: index offset (8 bytes), filter offset (8 bytes).

use vstd::prelude::*;

use crate::bloom::{BloomView, decoded_filter, filter_roundtrip};
use crate::format::{
    EntryView, body_entry, body_fits, body_len, encodable, index_entry_bytes, le_bytes,
    lemma_body_roundtrip, lemma_le_bytes_len, lemma_le_roundtrip_u32, lemma_le_roundtrip_u64,
    len_field, op_of, record_body, u32_at, u64_at, value_bytes,
};
use crate::model::{all_encodable, sorted};

verus! {

/// One entry of the index stands for this many records.
pub const INDEX_STRIDE: usize = 16;

// ---------------------------------------------------------------------------
// What a table is written as
// ---------------------------------------------------------------------------

/// The data record of an entry.
pub open spec fn entry_record(e: EntryView) -> Seq<u8> {
    record_body(e.0, value_bytes(e.1), op_of(e.1))
}

/// The data records of `es`, one after the other.
pub open spec fn data_of(es: Seq<EntryView>) -> Seq<u8>
    decreases es.len(),
{
    if es.len() == 0 {
        Seq::empty()
    } else {
        data_of(es.drop_last()) + entry_record(es.last())
    }
}

/// The file offset of the record of `es[i]`; for `i == es.len()`, the end of the data.
pub open spec fn record_offset(es: Seq<EntryView>, i: int) -> nat {
    data_of(es.take(i)).len()
}

/// Key and offset, as an index entry holds them.
pub type IndexView = (Seq<u8>, nat);

/// The sparse index of `es`: every sixteenth key, with the offset of its record.
pub open spec fn index_of(es: Seq<EntryView>) -> Seq<IndexView> {
    Seq::new((es.len() + 15) / 16, |j: int| (es[16 * j].0, record_offset(es, 16 * j)))
}

/// The encoded index.
pub open spec fn index_bytes(ix: Seq<IndexView>) -> Seq<u8>
    decreases ix.len(),
{
    if ix.len() == 0 {
        Seq::empty()
    } else {
        index_entry_bytes(ix[0].0, ix[0].1) + index_bytes(ix.drop_first())
    }
}

/// The table file of `es` with the filter `f`.
pub open spec fn table_image(es: Seq<EntryView>, f: BloomView) -> Seq<u8> {
    let data = data_of(es);
    let filter = f.encoded();
    data + filter + index_bytes(index_of(es)) + le_bytes(data.len() + filter.len(), 8) + le_bytes(
        data.len(),
        8,
    )
}

// ---------------------------------------------------------------------------
// What a table file is read as
// ---------------------------------------------------------------------------

/// Where the footer says the index begins.
pub open spec fn index_start(file: Seq<u8>) -> nat {
    u64_at(file, file.len() - 16)
}

/// Where the footer says the filter begins. There the data ends.
pub open spec fn data_end(file: Seq<u8>) -> nat {
    u64_at(file, file.len() - 8)
}

/// The entries of the records from `pos` up to `end`.
pub open spec fn entries_from(file: Seq<u8>, pos: int, end: int) -> Seq<EntryView>
    decreases (if pos < end { end - pos } else { 0 }),
{
    if pos >= end || !body_fits(file, pos) {
        Seq::empty()
    } else {
        seq![body_entry(file, pos)] + entries_from(file, pos + body_len(file, pos), end)
    }
}

/// The entries of a table file.
pub open spec fn entries_in(file: Seq<u8>) -> Seq<EntryView> {
    entries_from(file, 0, data_end(file) as int)
}

/// The index entries in `buf`, up to the first that is cut short.
pub open spec fn parsed_index(buf: Seq<u8>) -> Seq<IndexView>
    decreases buf.len(),
{
    if buf.len() < 4 || 12 + u32_at(buf, 0) > buf.len() {
        Seq::empty()
    } else {
        let n = u32_at(buf, 0) as int;
        seq![(buf.subrange(4, 4 + n), u64_at(buf, 4 + n))] + parsed_index(buf.skip(12 + n))
    }
}

/// The index region of a table file.
pub open spec fn index_region(file: Seq<u8>) -> Seq<u8> {
    file.subrange(index_start(file) as int, file.len() - 16)
}

/// The footer places a filter between the data and the index.
pub open spec fn filter_placed(index_offset: nat, filter_offset: nat) -> bool {
    0 < filter_offset < index_offset
}

/// The filter region of a table file.
pub open spec fn filter_region(file: Seq<u8>) -> Seq<u8> {
    file.subrange(data_end(file) as int, index_start(file) as int)
}

/// The index that a table file holds.
pub open spec fn file_index(file: Seq<u8>) -> Seq<IndexView> {
    parsed_index(index_region(file))
}

/// The filter that a table file holds.
pub open spec fn file_filter(file: Seq<u8>) -> Option<BloomView> {
    if filter_placed(index_start(file), data_end(file)) {
        decoded_filter(filter_region(file))
    } else {
        None
    }
}

/// The file begins with the records of `es`, sorted and intact, and its footer says where they end.
pub open spec fn file_stores(file: Seq<u8>, es: Seq<EntryView>) -> bool {
    &&& 16 <= file.len() <= u64::MAX
    &&& data_end(file) == data_of(es).len()
    &&& data_of(es).is_prefix_of(file)
    &&& sorted(es)
    &&& all_encodable(es)
}

// ---------------------------------------------------------------------------
// Records
// ---------------------------------------------------------------------------

/// Records one after the other.
pub proof fn lemma_data_concat(a: Seq<EntryView>, b: Seq<EntryView>)
    ensures
        data_of(a + b) == data_of(a) + data_of(b),
    decreases b.len(),
{
    if b.len() == 0 {
        assert(a + b =~= a);
        assert(data_of(a) + data_of(b) =~= data_of(a));
    } else {
        lemma_data_concat(a, b.drop_last());
        assert((a + b).drop_last() =~= a + b.drop_last());
        assert(data_of(a + b) =~= data_of(a) + data_of(b));
    }
}

/// The record of `es[i]` stands at its offset and ends where the next begins.
pub proof fn lemma_record_at(file: Seq<u8>, es: Seq<EntryView>, i: int)
    requires
        data_of(es).is_prefix_of(file),
        0 <= i < es.len(),
        encodable(es[i]),
    ensures
        body_fits(file, record_offset(es, i) as int),
        body_entry(file, record_offset(es, i) as int) == es[i],
        record_offset(es, i) + body_len(file, record_offset(es, i) as int) == record_offset(
            es,
            i + 1,
        ),
        record_offset(es, i + 1) <= data_of(es).len(),
{
    let before = data_of(es.take(i));
    let e = es[i];
    let rest = es.skip(i + 1);
    assert(es =~= es.take(i + 1) + rest);
    lemma_data_concat(es.take(i + 1), rest);
    assert(es.take(i + 1).drop_last() =~= es.take(i));
    assert(es.take(i + 1).last() == e);
    let after = data_of(rest) + file.skip(data_of(es).len() as int);
    assert(file =~= data_of(es) + file.skip(data_of(es).len() as int));
    assert(file =~= before + entry_record(e) + after);
    lemma_body_roundtrip(before, e.0, value_bytes(e.1), op_of(e.1), after);
}

/// Offsets grow with the position.
pub proof fn lemma_offsets_grow(es: Seq<EntryView>, i: int)
    requires
        0 <= i < es.len(),
    ensures
        record_offset(es, i) < record_offset(es, i + 1) <= data_of(es).len(),
{
    let e = es[i];
    assert(es.take(i + 1).drop_last() =~= es.take(i));
    assert(es.take(i + 1).last() == e);
    assert(es =~= es.take(i + 1) + es.skip(i + 1));
    lemma_data_concat(es.take(i + 1), es.skip(i + 1));
    assert(entry_record(e).len() > 0);
}

/// A file that stores `es` reads as `es`.
pub proof fn lemma_entries_read_back(file: Seq<u8>, es: Seq<EntryView>, i: int)
    requires
        file_stores(file, es),
        0 <= i <= es.len(),
    ensures
        entries_from(file, record_offset(es, i) as int, data_of(es).len() as int) == es.skip(i),
    decreases es.len() - i,
{
    let pos = record_offset(es, i) as int;
    if i == es.len() {
        assert(es.take(i) =~= es);
        assert(es.skip(i) =~= Seq::empty());
    } else {
        lemma_record_at(file, es, i);
        lemma_offsets_grow(es, i);
        lemma_entries_read_back(file, es, i + 1);
        assert(es.skip(i) =~= seq![es[i]] + es.skip(i + 1));
    }
}

/// The entries of a file are the ones it stores.
pub proof fn stored_entries_are_the_entries(file: Seq<u8>, es: Seq<EntryView>)
    requires
        file_stores(file, es),
    ensures
        entries_in(file) == es,
{
    lemma_entries_read_back(file, es, 0);
    assert(es.take(0) =~= Seq::empty());
    assert(es.skip(0) =~= es);
}

/// Where the records of a table stand: the first at the start of the file, each of them just behind
/// the one before, with nine bytes for its lengths and operation, its key, and the value of a put.
pub proof fn records_stand_one_after_the_other(
    es: Seq<EntryView>,
    i: int,
    key: Seq<u8>,
    value: Seq<u8>,
)
    requires
        0 <= i < es.len(),
    ensures
        record_offset(es, 0) == 0,
        es[i] == (key, Some(value)) ==> record_offset(es, i + 1) == record_offset(es, i) + 9
            + key.len() + value.len(),
        es[i] == (key, None::<Seq<u8>>) ==> record_offset(es, i + 1) == record_offset(es, i) + 9
            + key.len(),
        data_of(es).subrange(record_offset(es, i) as int, record_offset(es, i + 1) as int)
            == record_body(
            es[i].0,
            value_bytes(es[i].1),
            if es[i].1 is Some {
                0
            } else {
                1
            },
        ),
        data_of(es).len() == record_offset(es, es.len() as int),
{
    let e = es[i];
    let body = entry_record(e);
    lemma_le_bytes_len(e.0.len() % 0x1_0000_0000, 4);
    lemma_le_bytes_len(value_bytes(e.1).len() % 0x1_0000_0000, 4);
    assert(body.len() == 9 + e.0.len() + value_bytes(e.1).len());
    assert(es.take(0) =~= Seq::empty());
    assert(es.take(es.len() as int) =~= es);
    assert(es.take(i + 1).drop_last() =~= es.take(i));
    assert(es.take(i + 1).last() == e);
    assert(es =~= es.take(i + 1) + es.skip(i + 1));
    lemma_data_concat(es.take(i + 1), es.skip(i + 1));
    assert(data_of(es).subrange(record_offset(es, i) as int, record_offset(es, i + 1) as int)
        =~= body);
}

/// The index of a table: one entry for every sixteen records, begun ones included, with the key and the
/// offset of the first of them.
pub proof fn every_sixteenth_key_is_indexed(es: Seq<EntryView>, j: int)
    ensures
        es.len() <= 16 * index_of(es).len() < es.len() + 16,
        0 <= j < index_of(es).len() ==> 16 * j < es.len() && index_of(es)[j] == (
            es[16 * j].0,
            record_offset(es, 16 * j),
        ),
{
}

/// The sections of a table file: the records, the filter, the entries of the index, and in the last
/// sixteen bytes where the index and where the filter begin.
pub proof fn sections_of_a_table_file(es: Seq<EntryView>, f: BloomView)
    requires
        table_image(es, f).len() <= u64::MAX,
    ensures
        ({
            let file = table_image(es, f);
            let n = file.len() as int;
            let data = data_of(es).len() as int;
            let at = data + f.encoded().len();
            &&& 0 <= data <= at <= n - 16
            &&& file.take(data) == data_of(es)
            &&& file.subrange(data, at) == f.encoded()
            &&& file.subrange(at, n - 16) == index_bytes(index_of(es))
            &&& file.subrange(n - 16, n - 8) == le_bytes(at as nat, 8)
            &&& file.skip(n - 8) == le_bytes(data as nat, 8)
            &&& index_start(file) == at
            &&& data_end(file) == data
        }),
{
    let data = data_of(es);
    let filter = f.encoded();
    let at = data.len() + filter.len();
    let file = table_image(es, f);
    let n = file.len() as int;
    lemma_le_bytes_len(at, 8);
    lemma_le_bytes_len(data.len(), 8);
    lemma_sections(
        data,
        filter,
        index_bytes(index_of(es)),
        le_bytes(at, 8),
        le_bytes(data.len(), 8),
    );
    lemma_le_roundtrip_u64(at);
    lemma_le_roundtrip_u64(data.len());
    assert(file.take(data.len() as int) =~= data);
    assert(file.skip(n - 8) =~= le_bytes(data.len(), 8));
}

/// The encoded index: for each entry the length of its key in four bytes, the key, and the offset in
/// eight bytes.
pub proof fn index_entries_stand_one_after_the_other(ix: Seq<IndexView>, key: Seq<u8>, offset: nat)
    requires
        key.len() <= u32::MAX,
    ensures
        index_bytes(Seq::empty()) == Seq::<u8>::empty(),
        index_bytes(seq![(key, offset)] + ix) == le_bytes(key.len(), 4) + key + le_bytes(offset, 8)
            + index_bytes(ix),
{
    let all = seq![(key, offset)] + ix;
    assert(all.drop_first() =~= ix);
    assert(index_bytes(all) =~= le_bytes(key.len(), 4) + key + le_bytes(offset, 8) + index_bytes(
        ix,
    ));
}

// ---------------------------------------------------------------------------
// Index and footer
// ---------------------------------------------------------------------------

/// An encoded entry at the head of an index is parsed first.
proof fn lemma_index_step(key: Seq<u8>, offset: nat, tail: Seq<u8>)
    requires
        key.len() <= u32::MAX,
        offset <= u64::MAX,
    ensures
        parsed_index(index_entry_bytes(key, offset) + tail) == seq![(key, offset)] + parsed_index(
            tail,
        ),
{
    let buf = index_entry_bytes(key, offset) + tail;
    let n = key.len() as int;
    lemma_le_roundtrip_u32(key.len());
    lemma_le_roundtrip_u64(offset);
    lemma_index_head(len_field(key.len()), key, le_bytes(offset, 8), tail);
    assert(u32_at(buf, 0) == n);
    assert(u64_at(buf, 4 + n) == offset);
}

/// An encoded index parses to what was encoded.
pub proof fn lemma_index_roundtrip(ix: Seq<IndexView>)
    requires
        forall|j: int| 0 <= j < ix.len() ==> (#[trigger] ix[j]).0.len() <= u32::MAX && ix[j].1
            <= u64::MAX,
    ensures
        parsed_index(index_bytes(ix)) == ix,
    decreases ix.len(),
{
    if ix.len() == 0 {
        assert(index_bytes(ix).len() == 0);
        assert(parsed_index(index_bytes(ix)) =~= ix);
    } else {
        let rest = ix.drop_first();
        assert forall|j: int| 0 <= j < rest.len() implies (#[trigger] rest[j]).0.len() <= u32::MAX
            && rest[j].1 <= u64::MAX by {
            assert(rest[j] == ix[j + 1]);
        }
        lemma_index_roundtrip(rest);
        lemma_index_step(ix[0].0, ix[0].1, index_bytes(rest));
        assert(seq![ix[0]] + rest =~= ix);
    }
}

/// Where the parts of the first index entry stand.
proof fn lemma_index_head(len: Seq<u8>, key: Seq<u8>, offset: Seq<u8>, rest: Seq<u8>)
    requires
        len.len() == 4,
        offset.len() == 8,
    ensures
        ({
            let buf = len + key + offset + rest;
            let n = key.len() as int;
            &&& buf.len() == 12 + n + rest.len()
            &&& buf.subrange(0, 4) == len
            &&& buf.subrange(4, 4 + n) == key
            &&& buf.subrange(4 + n, 4 + n + 8) == offset
            &&& buf.skip(12 + n) == rest
        }),
{
    let buf = len + key + offset + rest;
    let n = key.len() as int;
    assert(buf.subrange(0, 4) =~= len);
    assert(buf.subrange(4, 4 + n) =~= key);
    assert(buf.subrange(4 + n, 4 + n + 8) =~= offset);
    assert(buf.skip(12 + n) =~= rest);
}

/// A table file that was written for sorted, encodable entries reads back as those entries, with
/// their index and the filter.
pub proof fn table_file_roundtrip(es: Seq<EntryView>, f: BloomView)
    requires
        sorted(es),
        all_encodable(es),
        f.exact(),
        table_image(es, f).len() <= u64::MAX,
    ensures
        file_stores(table_image(es, f), es),
        entries_in(table_image(es, f)) == es,
        index_start(table_image(es, f)) <= table_image(es, f).len() - 16,
        file_index(table_image(es, f)) == index_of(es),
        es.len() > 0 ==> file_filter(table_image(es, f)) == Some(f),
{
    let file = table_image(es, f);
    let data = data_of(es);
    let filter = f.encoded();
    let ix = index_of(es);
    let at = data.len() + filter.len();
    lemma_le_roundtrip_u64(at);
    lemma_le_roundtrip_u64(data.len());
    lemma_sections(data, filter, index_bytes(ix), le_bytes(at, 8), le_bytes(data.len(), 8));
    stored_entries_are_the_entries(file, es);
    assert forall|j: int| 0 <= j < ix.len() implies (#[trigger] ix[j]).0.len() <= u32::MAX && ix[j].1
        <= u64::MAX by {
        assert(encodable(es[16 * j]));
        lemma_offsets_grow(es, 16 * j);
    }
    lemma_index_roundtrip(ix);
    if es.len() > 0 {
        lemma_offsets_grow(es, 0);
        lemma_le_roundtrip_u64(f.num_bits as nat);
        assert(filter + Seq::empty() =~= filter);
        filter_roundtrip(f, Seq::empty());
    }
}

/// Where the sections of a file stand.
proof fn lemma_sections(a: Seq<u8>, b: Seq<u8>, c: Seq<u8>, d: Seq<u8>, e: Seq<u8>)
    requires
        d.len() == 8,
        e.len() == 8,
    ensures
        ({
            let f = a + b + c + d + e;
            let n = f.len() as int;
            &&& n == a.len() + b.len() + c.len() + 16
            &&& a.is_prefix_of(f)
            &&& f.subrange(a.len() as int, (a.len() + b.len()) as int) == b
            &&& f.subrange((a.len() + b.len()) as int, n - 16) == c
            &&& f.subrange(n - 16, n - 8) == d
            &&& f.subrange(n - 8, n) == e
        }),
{
    let f = a + b + c + d + e;
    let n = f.len() as int;
    assert(f.take(a.len() as int) =~= a);
    assert(f.subrange(a.len() as int, (a.len() + b.len()) as int) =~= b);
    assert(f.subrange((a.len() + b.len()) as int, n - 16) =~= c);
    assert(f.subrange(n - 16, n - 8) =~= d);
    assert(f.subrange(n - 8, n) =~= e);
}

} // verus!
