//! Tables: immutable sorted files. A table keeps its sparse index and Bloom filter in memory; its
//! records stay in the file.

use vstd::prelude::*;
use vstd::slice::slice_to_vec;
use vstd::string::StringExecFns;

use crate::bloom::{
    BloomFilter, BloomView, a_key_is_ruled_out_by_an_unset_position, bit_set, byte_count,
    decoded_filter, hash1, hash2, lemma_no_bit_set, lemma_wf_reaches,
    positions_come_from_both_hashes,
};
use crate::decimal::{append_decimal, ascii_text, decimal};
use crate::error::EngineError;
use crate::format::{
    OP_DELETE, OP_PUT, EntryView, append_bytes, decode_u32, decode_u64, encode_index_entry,
    encode_sstable_record, encode_u64, index_entry_bytes, le_value, u64_at, value_bytes,
};
use crate::json::{is_numeral, lemma_text_value};
use crate::layout::{
    INDEX_STRIDE, IndexView, data_end, data_of, entries_in, entry_record, file_filter, file_index,
    file_stores, filter_placed, filter_region, index_bytes, index_of, index_region, index_start,
    parsed_index, record_offset, table_file_roundtrip, table_image,
};
use crate::memtable::MemValue;
use crate::model::{Layer, all_encodable, layer_of, lemma_layer_key_written, restricted, sorted};
use crate::order::{KeyOrder, key_le, lemma_key_lt_excludes, lemma_key_lt_total, order_keys};
use crate::search::{
    Fault, a_shrunken_file_is_a_fault, bisect, find_in, index_rank, lookup,
    reading_ends_where_the_footer_says, records_in, scan_gives_the_stored_range, scan_in,
    search_finds_what_is_stored, seek_end, seek_offset,
};
use crate::sorted::{Entry, entries_view, entry_view};

verus! {

/// An entry of a sparse index: a key and the file offset of its record.
#[derive(Debug)]
pub struct IndexEntry {
    pub key: Vec<u8>,
    pub offset: u64,
}

impl View for IndexEntry {
    type V = IndexView;

    open spec fn view(&self) -> IndexView {
        (self.key@, self.offset as nat)
    }
}

impl Clone for IndexEntry {
    fn clone(&self) -> (r: Self)
        ensures
            r@ == self@,
    {
        IndexEntry { key: slice_to_vec(self.key.as_slice()), offset: self.offset }
    }
}

/// What a sequence of index entries says.
pub open spec fn index_view(s: Seq<IndexEntry>) -> Seq<IndexView> {
    Seq::new(s.len(), |i: int| s[i]@)
}

/// A table: its file's name, and what is kept in memory of it.
pub struct SSTable {
    pub name: Vec<u8>,
    pub index: Vec<IndexEntry>,
    pub bloom: Option<BloomFilter>,
    /// The number of keys, where the table was made by this process; otherwise 0.
    pub key_count: usize,
}

/// What is kept in memory of a table.
#[verifier::ext_equal]
pub struct TableView {
    pub name: Seq<u8>,
    pub index: Seq<IndexView>,
    pub bloom: Option<BloomView>,
}

impl TableView {
    /// The filter, if there is one, can be asked.
    pub open spec fn wf(self) -> bool {
        self.bloom matches Some(f) ==> f.wf()
    }

    /// The filter, if there is one, can be asked for `key`.
    pub open spec fn reaches(self, key: Seq<u8>) -> bool {
        self.bloom matches Some(f) ==> f.reaches(key)
    }

    /// The filter does not rule `key` out.
    pub open spec fn admits(self, key: Seq<u8>) -> bool {
        self.bloom matches Some(f) ==> f.covers(key)
    }
}

/// What is kept in memory of a sequence of tables.
pub open spec fn tables_view(s: Seq<SSTable>) -> Seq<TableView> {
    Seq::new(s.len(), |i: int| s[i]@)
}

impl View for SSTable {
    type V = TableView;

    open spec fn view(&self) -> TableView {
        TableView {
            name: self.name@,
            index: index_view(self.index@),
            bloom: match self.bloom {
                Some(f) => Some(f@),
                None => None,
            },
        }
    }
}

/// A new table and the bytes of its file.
pub struct TableFile {
    pub table: SSTable,
    pub bytes: Vec<u8>,
}

/// `f` is the filter of the size asked for that holds just the keys of `es`.
pub open spec fn filled(f: BloomView, es: Seq<EntryView>, num_bits: u64, num_hash_fns: u8) -> bool {
    &&& f.num_bits == (if num_bits < 64 { 64 } else { num_bits })
    &&& f.num_hash_fns == (if num_hash_fns < 1 { 1 } else if num_hash_fns > 20 { 20 } else {
        num_hash_fns
    })
    &&& f.exact()
    &&& f.wf()
    &&& forall|pos: nat|
        pos < 8 * f.bits.len() ==> (#[trigger] bit_set(f.bits, pos) <==> exists|i: int|
            0 <= i < es.len() && #[trigger] f.marks(es[i].0, pos))
}

/// `r` is the table of the entries `es` under `name`, with a filter of the size asked for, and the
/// bytes of its file.
pub open spec fn flushed(
    r: TableFile,
    name: Seq<u8>,
    es: Seq<EntryView>,
    num_bits: u64,
    num_hash_fns: u8,
) -> bool {
    &&& r.table@.name == name
    &&& r.table@.index == index_of(es)
    &&& r.table@.bloom matches Some(f) && filled(f, es, num_bits, num_hash_fns) && r.bytes@
        == table_image(es, f)
    &&& r.table.key_count == es.len()
}

/// A filled filter rules out none of its keys.
pub proof fn filled_filter_admits_its_keys(
    f: BloomView,
    es: Seq<EntryView>,
    num_bits: u64,
    num_hash_fns: u8,
    i: int,
)
    requires
        filled(f, es, num_bits, num_hash_fns),
        0 <= i < es.len(),
    ensures
        f.covers(es[i].0),
{
    let key = es[i].0;
    assert forall|n: u64| n < f.num_hash_fns implies bit_set(
        f.bits,
        #[trigger] f.position_of(key, n) as nat,
    ) by {
        let pos = f.position_of(key, n) as nat;
        assert(f.marks(es[i].0, pos));
    }
}

/// An encoded index grows by an entry at its end.
proof fn lemma_index_bytes_push(ix: Seq<IndexView>, e: IndexView)
    ensures
        index_bytes(ix.push(e)) == index_bytes(ix) + index_entry_bytes(e.0, e.1),
    decreases ix.len(),
{
    let all = ix.push(e);
    if ix.len() == 0 {
        assert(all.drop_first() =~= Seq::empty());
        assert(index_bytes(all.drop_first()) =~= Seq::empty());
        assert(index_bytes(all) =~= index_bytes(ix) + index_entry_bytes(e.0, e.1));
    } else {
        assert(all.drop_first() =~= ix.drop_first().push(e));
        lemma_index_bytes_push(ix.drop_first(), e);
        assert(index_bytes(all) =~= index_bytes(ix) + index_entry_bytes(e.0, e.1));
    }
}

/// The index of the first `n` entries.
spec fn index_upto(es: Seq<EntryView>, n: int) -> Seq<IndexView> {
    Seq::new(((n + 15) / 16) as nat, |j: int| (es[16 * j].0, record_offset(es, 16 * j)))
}

impl SSTable {
    /// Makes the table of the sorted `entries`, with a filter of the size asked for.
    ///
    /// File layout: data records, Bloom filter, sparse index, footer.
    pub fn flush(
        name: Vec<u8>,
        entries: &Vec<Entry>,
        num_bits: u64,
        num_hash_fns: u8,
    ) -> (r: TableFile)
        requires
            byte_count(num_bits) <= usize::MAX,
        ensures
            flushed(r, name@, entries_view(entries@), num_bits, num_hash_fns),
    {
        let ghost es = entries_view(entries@);
        let bloom = Self::build_filter(entries, num_bits, num_hash_fns);
        let (index, mut bytes) = Self::write_records(entries);

        let bloom_offset = bytes.len() as u64;
        append_bytes(&mut bytes, bloom.encode().as_slice());
        let index_offset = bytes.len() as u64;
        let ghost front = bytes@;

        let ghost ix = index_view(index@);
        let mut j: usize = 0;
        assert(ix.take(0) =~= Seq::empty());
        assert(bytes@ =~= front + index_bytes(ix.take(0)));
        while j < index.len()
            invariant
                j <= index@.len(),
                ix == index_view(index@),
                bytes@ == front + index_bytes(ix.take(j as int)),
            decreases index@.len() - j,
        {
            let encoded = encode_index_entry(index[j].key.as_slice(), index[j].offset);
            append_bytes(&mut bytes, encoded.as_slice());
            proof {
                assert(ix.take(j + 1) =~= ix.take(j as int).push(ix[j as int]));
                lemma_index_bytes_push(ix.take(j as int), ix[j as int]);
                assert(bytes@ =~= front + index_bytes(ix.take(j + 1)));
            }
            j = j + 1;
        }
        assert(ix.take(j as int) =~= ix);

        append_bytes(&mut bytes, &encode_u64(index_offset));
        append_bytes(&mut bytes, &encode_u64(bloom_offset));
        assert(bytes@ =~= table_image(es, bloom@));
        TableFile {
            table: SSTable { name, index, bloom: Some(bloom), key_count: entries.len() },
            bytes,
        }
    }

    /// The filter of the keys of `entries`.
    fn build_filter(entries: &Vec<Entry>, num_bits: u64, num_hash_fns: u8) -> (f: BloomFilter)
        requires
            byte_count(num_bits) <= usize::MAX,
        ensures
            filled(f@, entries_view(entries@), num_bits, num_hash_fns),
    {
        let ghost es = entries_view(entries@);
        let mut bloom = BloomFilter::new(num_bits, num_hash_fns);
        let ghost size = bloom@;
        proof {
            assert forall|pos: nat| pos < 8 * bloom@.bits.len() implies !#[trigger] bit_set(
                bloom@.bits,
                pos,
            ) by {
                lemma_no_bit_set(bloom@.bits, pos);
            }
        }
        let mut i: usize = 0;
        while i < entries.len()
            invariant
                i <= entries@.len(),
                es == entries_view(entries@),
                size.exact(),
                size.num_bits == (if num_bits < 64 { 64 } else { num_bits }),
                size.num_hash_fns == (if num_hash_fns < 1 { 1 } else if num_hash_fns > 20 { 20 } else {
                    num_hash_fns
                }),
                bloom@.num_bits == size.num_bits,
                bloom@.num_hash_fns == size.num_hash_fns,
                bloom@.bits.len() == size.bits.len(),
                bloom@.wf(),
                forall|pos: nat|
                    pos < 8 * bloom@.bits.len() ==> (#[trigger] bit_set(bloom@.bits, pos)
                        <==> exists|k: int|
                        0 <= k < i && #[trigger] bloom@.marks(es[k].0, pos)),
            decreases entries@.len() - i,
        {
            let ghost before = bloom@;
            proof {
                lemma_wf_reaches(before, entries@[i as int].0@);
            }
            bloom.insert(entries[i].0.as_slice());
            proof {
                let key = es[i as int].0;
                assert(key == entries@[i as int].0@);
                assert forall|pos: nat| pos < 8 * bloom@.bits.len() implies (#[trigger] bit_set(
                    bloom@.bits,
                    pos,
                ) <==> exists|k: int| 0 <= k < i + 1 && #[trigger] bloom@.marks(es[k].0, pos)) by {
                    assert(bit_set(bloom@.bits, pos) <==> bit_set(before.bits, pos)
                        || before.marks(key, pos));
                    assert(bit_set(before.bits, pos) <==> exists|k: int|
                        0 <= k < i && #[trigger] before.marks(es[k].0, pos));
                    assert forall|k: int| 0 <= k < es.len() implies #[trigger] bloom@.marks(
                        es[k].0,
                        pos,
                    ) == before.marks(es[k].0, pos) by {
                        lemma_same_marks(before, bloom@, es[k].0, pos);
                    }
                    if bit_set(before.bits, pos) {
                        let k = choose|k: int| 0 <= k < i && #[trigger] before.marks(es[k].0, pos);
                        assert(bloom@.marks(es[k].0, pos));
                    }
                    if before.marks(key, pos) {
                        assert(bloom@.marks(es[i as int].0, pos));
                    }
                }
            }
            i = i + 1;
        }
        bloom
    }

    /// The data records of `entries`, and their sparse index.
    fn write_records(entries: &Vec<Entry>) -> (r: (Vec<IndexEntry>, Vec<u8>))
        ensures
            index_view(r.0@) == index_of(entries_view(entries@)),
            r.1@ == data_of(entries_view(entries@)),
    {
        let ghost es = entries_view(entries@);
        let mut index: Vec<IndexEntry> = Vec::new();
        let mut bytes: Vec<u8> = Vec::new();
        let mut i: usize = 0;
        assert(es.take(0) =~= Seq::empty());
        assert(index_view(index@) =~= index_upto(es, 0));
        while i < entries.len()
            invariant
                i <= entries@.len(),
                es == entries_view(entries@),
                bytes@ == data_of(es.take(i as int)),
                index_view(index@) == index_upto(es, i as int),
            decreases entries@.len() - i,
        {
            let (key, value) = &entries[i];
            let ghost e = es[i as int];
            assert(e == entry_view(entries@[i as int]));
            let ghost before = index_view(index@);
            if i % INDEX_STRIDE == 0 {
                index.push(
                    IndexEntry { key: slice_to_vec(key.as_slice()), offset: bytes.len() as u64 },
                );
                proof {
                    assert(index_view(index@) =~= before.push((e.0, record_offset(es, i as int))));
                    assert(index_view(index@) =~= index_upto(es, i + 1));
                }
            } else {
                assert((i + 15) / 16 == (i + 1 + 15) / 16);
                assert(index_view(index@) =~= index_upto(es, i + 1));
            }
            let record = match value {
                MemValue::Value(v) => encode_sstable_record(key.as_slice(), v.as_slice(), OP_PUT),
                MemValue::Tombstone => {
                    let nothing: Vec<u8> = Vec::new();
                    assert(nothing@ =~= value_bytes(None));
                    encode_sstable_record(key.as_slice(), nothing.as_slice(), OP_DELETE)
                },
            };
            assert(record@ == entry_record(e));
            append_bytes(&mut bytes, record.as_slice());
            proof {
                assert(es.take(i + 1).drop_last() =~= es.take(i as int));
                assert(es.take(i + 1).last() == e);
            }
            i = i + 1;
        }
        assert(es.take(i as int) =~= es);
        assert(index_view(index@) =~= index_of(es));
        (index, bytes)
    }
}

/// The footer of a table file, with the length of the file. A filter that it places ends where the
/// index begins, so it lies inside the file if the index does.
pub struct Footer {
    pub file_len: u64,
    pub index_offset: u64,
    pub bloom_offset: u64,
}

/// The message for a file that is too short to hold a footer.
pub open spec fn too_small_message(file_len: u64) -> Seq<char> {
    "SSTable too small: "@ + ascii_text(decimal(file_len as nat)) + " bytes"@
}

/// The message for a footer that places the index or the filter outside the file.
pub open spec fn misplaced_message(index_offset: u64, file_len: u64) -> Seq<char> {
    "SSTable index offset "@ + ascii_text(decimal(index_offset as nat)) + " out of range: "@
        + ascii_text(decimal(file_len as nat)) + " bytes"@
}

/// The messages for damaged files tell the length of the file, and the offset that does not fit.
pub proof fn messages_tell_the_numbers(file_len: u64, index_offset: u64)
    ensures
        exists|digits: Seq<char>| #[trigger]
            is_numeral(digits, file_len as nat) && too_small_message(file_len)
                == "SSTable too small: "@ + digits + " bytes"@,
        exists|digits: Seq<char>, other: Seq<char>| #[trigger]
            is_numeral(digits, file_len as nat) && #[trigger] is_numeral(other, index_offset as nat)
                && misplaced_message(index_offset, file_len) == "SSTable index offset "@ + other
                + " out of range: "@ + digits + " bytes"@,
{
    lemma_text_value(file_len as nat);
    lemma_text_value(index_offset as nat);
    let digits = ascii_text(decimal(file_len as nat));
    let other = ascii_text(decimal(index_offset as nat));
    assert(is_numeral(digits, file_len as nat));
    assert(is_numeral(other, index_offset as nat));
}

impl Footer {
    /// This is the footer of `file`.
    pub open spec fn describes(self, file: Seq<u8>) -> bool {
        &&& file.len() == self.file_len
        &&& file.len() >= 16
        &&& self.index_offset == index_start(file)
        &&& self.bloom_offset == data_end(file)
    }

    /// Reads the footer of a file of `file_len` bytes from its last sixteen bytes. A shorter file has
    /// none, and one that ends otherwise, such as a table that was not written to its end, need not
    /// have a footer that fits it: index and filter have to lie before the footer.
    pub fn read(file_len: u64, tail: &[u8]) -> (r: Result<Footer, EngineError>)
        requires
            file_len >= 16 ==> tail@.len() == 16,
        ensures
            file_len < 16 ==> (r matches Err(EngineError::Corruption(msg)) && msg@
                == too_small_message(file_len)),
            file_len >= 16 && u64_at(tail@, 0) > file_len - 16 ==> (r matches Err(
                EngineError::Corruption(msg),
            ) && msg@ == misplaced_message(u64_at(tail@, 0) as u64, file_len)),
            file_len >= 16 && u64_at(tail@, 0) <= file_len - 16 ==> (r matches Ok(f) && f.file_len
                == file_len && f.index_offset == u64_at(tail@, 0) && f.bloom_offset == u64_at(
                tail@,
                8,
            )),
    {
        if file_len < 16 {
            let mut msg = String::from_str("SSTable too small: ");
            append_decimal(&mut msg, file_len);
            msg.append(" bytes");
            return Err(EngineError::Corruption(msg));
        }
        let index_offset = decode_u64(&tail[0..8]);
        let bloom_offset = decode_u64(&tail[8..16]);
        proof {
            assert(tail@.subrange(0, 8).subrange(0, 8) =~= tail@.subrange(0, 8));
            assert(tail@.subrange(8, 16).subrange(0, 8) =~= tail@.subrange(8, 16));
        }
        if index_offset > file_len - 16 {
            let mut msg = String::from_str("SSTable index offset ");
            append_decimal(&mut msg, index_offset);
            msg.append(" out of range: ");
            append_decimal(&mut msg, file_len);
            msg.append(" bytes");
            return Err(EngineError::Corruption(msg));
        }
        Ok(Footer { file_len, index_offset, bloom_offset })
    }

    /// Offset and length of the filter, if the footer places one.
    pub fn bloom_section(&self) -> (r: Option<(u64, u64)>)
        ensures
            r is Some <==> filter_placed(self.index_offset as nat, self.bloom_offset as nat),
            r matches Some((at, len)) ==> at == self.bloom_offset && at + len == self.index_offset,
    {
        if self.bloom_offset > 0 && self.bloom_offset < self.index_offset {
            Some((self.bloom_offset, self.index_offset - self.bloom_offset))
        } else {
            None
        }
    }

    /// Offset and length of the index.
    pub fn index_section(&self) -> (r: (u64, u64))
        requires
            self.index_offset + 16 <= self.file_len,
        ensures
            r.0 == self.index_offset,
            r.0 + r.1 == self.file_len - 16,
    {
        (self.index_offset, self.file_len - 16 - self.index_offset)
    }
}

/// The last sixteen bytes of a file give its footer.
pub proof fn footer_describes_its_file(file: Seq<u8>, footer: Footer)
    requires
        16 <= file.len() <= u64::MAX,
        footer.file_len == file.len(),
        footer.index_offset == u64_at(file.skip(file.len() - 16), 0),
        footer.bloom_offset == u64_at(file.skip(file.len() - 16), 8),
    ensures
        footer.describes(file),
{
    let tail = file.skip(file.len() - 16);
    assert(tail.subrange(0, 8) =~= file.subrange(file.len() - 16, file.len() - 8));
    assert(tail.subrange(8, 16) =~= file.subrange(file.len() - 8, file.len() as int));
}

/// The index entries in `buf`, up to the first that is cut short.
fn read_index(buf: &[u8]) -> (r: Vec<IndexEntry>)
    ensures
        index_view(r@) == parsed_index(buf@),
{
    let mut index: Vec<IndexEntry> = Vec::new();
    let mut cursor: usize = 0;
    assert(buf@.skip(0) =~= buf@);
    assert(index_view(index@) + parsed_index(buf@) =~= parsed_index(buf@));
    while buf.len() - cursor >= 4
        invariant_except_break
            cursor <= buf@.len(),
            parsed_index(buf@) == index_view(index@) + parsed_index(buf@.skip(cursor as int)),
        ensures
            parsed_index(buf@) == index_view(index@),
        decreases buf@.len() - cursor,
    {
        let ghost rest = buf@.skip(cursor as int);
        let key_len = decode_u32(&buf[cursor..cursor + 4]);
        assert(buf@.subrange(cursor as int, cursor + 4).subrange(0, 4) =~= rest.subrange(0, 4));
        if ((buf.len() - cursor) as u64) < 12 + key_len as u64 {
            assert(index_view(index@) + parsed_index(rest) =~= index_view(index@));
            break;
        }
        let key_at = cursor + 4;
        let key_end = key_at + key_len as usize;
        let key = slice_to_vec(&buf[key_at..key_end]);
        let offset = decode_u64(&buf[key_end..key_end + 8]);
        proof {
            let n = key_len as int;
            assert(key@ =~= rest.subrange(4, 4 + n));
            assert(buf@.subrange(key_end as int, key_end + 8).subrange(0, 8) =~= rest.subrange(
                4 + n,
                12 + n,
            ));
        }
        let ghost before = index_view(index@);
        index.push(IndexEntry { key, offset });
        cursor = key_end + 8;
        proof {
            let n = key_len as int;
            assert(rest.skip(12 + n) =~= buf@.skip(cursor as int));
            assert(index_view(index@) =~= before.push((key@, offset as nat)));
            assert(index_view(index@) + parsed_index(rest.skip(12 + n)) =~= before + parsed_index(
                rest,
            ));
        }
    }
    index
}

impl SSTable {
    /// Opens the table in the file `name`, given the file's footer and the bytes of the sections that
    /// the footer points to. Where the footer places no filter, `bloom_bytes` is not looked at.
    pub fn open(
        name: Vec<u8>,
        footer: &Footer,
        bloom_bytes: &[u8],
        index_bytes: &[u8],
    ) -> (r: Self)
        ensures
            r@.name == name@,
            r@.index == parsed_index(index_bytes@),
            r@.bloom == (if filter_placed(footer.index_offset as nat, footer.bloom_offset as nat) {
                decoded_filter(bloom_bytes@)
            } else {
                None
            }),
            forall|file: Seq<u8>| #[trigger]
                footer.describes(file) && index_bytes@ == index_region(file) && (filter_placed(
                    index_start(file),
                    data_end(file),
                ) ==> bloom_bytes@ == filter_region(file)) ==> r@ == table_in(name@, file),
            r.key_count == 0,
    {
        let bloom = match footer.bloom_section() {
            Some(_) => BloomFilter::decode(bloom_bytes),
            None => None,
        };
        let index = read_index(index_bytes);
        SSTable { name, index, bloom, key_count: 0 }
    }

    /// Whether the filter, if there is one, can be asked. A filter read from a damaged file may claim
    /// to have no bits.
    pub fn is_usable(&self) -> (r: bool)
        requires
            self.bloom matches Some(f) ==> f@.exact(),
        ensures
            r == self@.wf(),
            forall|key: Seq<u8>| #[trigger] self@.reaches(key) == r,
    {
        proof {
            if self@.wf() {
                assert forall|key: Seq<u8>| #[trigger] self@.reaches(key) by {
                    if self@.bloom is Some {
                        lemma_wf_reaches(self@.bloom->0, key);
                    }
                }
            }
        }
        match &self.bloom {
            Some(f) => f.num_hash_fns() == 0 || f.num_bits() > 0,
            None => true,
        }
    }

    /// Size and number of hash functions of the filter.
    pub fn bloom_info(&self) -> (r: Option<(u64, u8)>)
        ensures
            match r {
                Some((num_bits, num_hash_fns)) => self@.bloom matches Some(f) && f.num_bits
                    == num_bits && f.num_hash_fns == num_hash_fns,
                None => self@.bloom is None,
            },
    {
        match &self.bloom {
            Some(f) => Some((f.num_bits(), f.num_hash_fns())),
            None => None,
        }
    }

    /// Whether the filter rules `key` out. Then the table does not have it.
    pub fn rules_out(&self, key: &[u8]) -> (r: bool)
        requires
            self@.reaches(key@),
        ensures
            r == !self@.admits(key@),
    {
        match &self.bloom {
            Some(f) => !f.might_contain(key),
            None => false,
        }
    }

    /// The place of `key` in the index, found by bisection.
    fn index_place(&self, key: &[u8]) -> (r: usize)
        ensures
            r == index_rank(self@.index, key@),
            r <= self@.index.len(),
    {
        let ghost ix = self@.index;
        let mut lo: usize = 0;
        let mut hi: usize = self.index.len();
        while lo < hi
            invariant
                lo <= hi <= self.index@.len(),
                ix == self@.index,
                index_rank(ix, key@) == bisect(ix, key@, lo as int, hi as int),
            decreases hi - lo,
        {
            let mid = lo + (hi - lo) / 2;
            assert(ix[mid as int] == self.index@[mid as int]@);
            match order_keys(self.index[mid].key.as_slice(), key) {
                KeyOrder::After => {
                    proof {
                        lemma_key_lt_excludes(key@, ix[mid as int].0);
                    }
                    hi = mid;
                },
                _ => {
                    proof {
                        lemma_key_lt_total(ix[mid as int].0, key@);
                    }
                    lo = mid + 1;
                },
            }
        }
        lo
    }

    /// The offset at which a search for `key` begins.
    pub fn index_seek(&self, key: &[u8]) -> (r: u64)
        ensures
            r == seek_offset(self@.index, key@),
    {
        let place = self.index_place(key);
        if place == 0 {
            0
        } else {
            self.index[place - 1].offset
        }
    }

    /// The offsets at which a search for `key` begins and ends.
    pub(crate) fn index_block(&self, key: &[u8]) -> (r: (u64, Option<u64>))
        ensures
            r.0 == seek_offset(self@.index, key@),
            stop_view(r.1) == seek_end(self@.index, key@),
    {
        let place = self.index_place(key);
        let from = if place == 0 {
            0
        } else {
            self.index[place - 1].offset
        };
        let stop = if place < self.index.len() {
            Some(self.index[place].offset)
        } else {
            None
        };
        (from, stop)
    }
}

/// What an optional offset says.
pub open spec fn stop_view(stop: Option<u64>) -> Option<nat> {
    match stop {
        Some(n) => Some(n as nat),
        None => None,
    }
}

/// The table that a file holds.
pub open spec fn table_in(name: Seq<u8>, file: Seq<u8>) -> TableView {
    TableView { name, index: file_index(file), bloom: file_filter(file) }
}

/// The file is a whole table file, as a flush writes it: of sorted entries that fit their records,
/// with a filter that rules none of them out.
pub open spec fn intact(file: Seq<u8>) -> bool {
    exists|f: BloomView| #[trigger] intact_with(file, f)
}

/// The file is a whole table file with the filter `f`.
pub open spec fn intact_with(file: Seq<u8>, f: BloomView) -> bool {
    let es = entries_in(file);
    &&& sorted(es)
    &&& all_encodable(es)
    &&& f.exact()
    &&& f.wf()
    &&& forall|i: int| 0 <= i < es.len() ==> f.covers(#[trigger] es[i].0)
    &&& file == table_image(es, f)
    &&& file.len() <= u64::MAX
}

/// The table describes its file: its index is that of the file's entries, and its filter rules none
/// of them out.
#[verifier::opaque]
pub open spec fn sound(t: TableView, file: Seq<u8>) -> bool {
    let es = entries_in(file);
    &&& intact(file)
    &&& t.wf()
    &&& t.index == index_of(es)
    &&& forall|i: int| 0 <= i < es.len() ==> t.admits(#[trigger] es[i].0)
}

/// What a table's file holds.
pub open spec fn file_layer(file: Seq<u8>) -> Layer {
    layer_of(entries_in(file))
}

/// What looking `key` up in the table comes to.
pub open spec fn table_get(t: TableView, file: Seq<u8>, key: Seq<u8>) -> Result<
    Option<Option<Seq<u8>>>,
    Fault,
> {
    if t.admits(key) {
        find_in(file, seek_offset(t.index, key), seek_end(t.index, key), key)
    } else {
        Ok(None)
    }
}

/// How many records looking `key` up in the table reads.
pub open spec fn table_records(t: TableView, file: Seq<u8>, key: Seq<u8>) -> nat {
    if t.admits(key) {
        records_in(file, seek_offset(t.index, key), seek_end(t.index, key), key)
    } else {
        0
    }
}

/// What scanning the table comes to.
pub open spec fn table_scan(
    t: TableView,
    file: Seq<u8>,
    start: Seq<u8>,
    stop: Option<Seq<u8>>,
) -> Result<Seq<EntryView>, Fault> {
    scan_in(file, seek_offset(t.index, start), start, stop)
}

/// A whole table file stores its entries.
pub proof fn lemma_intact_stores(file: Seq<u8>)
    requires
        intact(file),
    ensures
        file_stores(file, entries_in(file)),
{
    let f = choose|f: BloomView| #[trigger] intact_with(file, f);
    table_file_roundtrip(entries_in(file), f);
}

/// A table that describes a file has a whole table file, of sorted entries that fit their records.
pub proof fn lemma_sound_file(t: TableView, file: Seq<u8>)
    requires
        sound(t, file),
    ensures
        intact(file),
        sorted(entries_in(file)),
        all_encodable(entries_in(file)),
{
    reveal(sound);
}

/// A flushed table describes its file, and the file holds the entries that were flushed.
pub proof fn flushed_table_is_sound(
    r: TableFile,
    name: Seq<u8>,
    es: Seq<EntryView>,
    num_bits: u64,
    num_hash_fns: u8,
)
    requires
        sorted(es),
        all_encodable(es),
        flushed(r, name, es, num_bits, num_hash_fns),
    ensures
        sound(r.table@, r.bytes@),
        entries_in(r.bytes@) == es,
{
    reveal(sound);
    let f = r.table@.bloom->0;
    assert(r.bytes@.len() == r.bytes.len());
    table_file_roundtrip(es, f);
    assert forall|i: int| 0 <= i < es.len() implies f.covers(#[trigger] es[i].0) by {
        filled_filter_admits_its_keys(f, es, num_bits, num_hash_fns, i);
    }
    assert(intact_with(table_image(es, f), f));
}

/// A table that is opened from a whole table file describes it.
pub proof fn opened_table_is_sound(name: Seq<u8>, file: Seq<u8>)
    requires
        intact(file),
    ensures
        index_start(file) <= file.len() - 16,
        sound(table_in(name, file), file),
{
    reveal(sound);
    let f = choose|f: BloomView| #[trigger] intact_with(file, f);
    table_file_roundtrip(entries_in(file), f);
    if entries_in(file).len() == 0 {
        lemma_empty_file_has_no_filter(file);
    }
}

/// The footer of a whole table file is never taken for a damaged one.
pub proof fn a_whole_file_keeps_its_footer(file: Seq<u8>)
    requires
        intact(file),
    ensures
        file.len() >= 16,
        u64_at(file.skip(file.len() - 16), 0) <= file.len() - 16,
{
    opened_table_is_sound(Seq::empty(), file);
    lemma_intact_stores(file);
    let tail = file.skip(file.len() - 16);
    assert(tail.subrange(0, 8) =~= file.subrange(file.len() - 16, file.len() - 8));
}

proof fn lemma_empty_file_has_no_filter(file: Seq<u8>)
    requires
        intact(file),
        entries_in(file).len() == 0,
    ensures
        file_filter(file) is None,
{
    let f = choose|f: BloomView| #[trigger] intact_with(file, f);
    table_file_roundtrip(entries_in(file), f);
    assert(data_of(entries_in(file)).len() == 0);
}

/// A table that is flushed and opened again is the same table.
pub proof fn reopened_table_is_the_same(
    r: TableFile,
    name: Seq<u8>,
    es: Seq<EntryView>,
    num_bits: u64,
    num_hash_fns: u8,
)
    requires
        es.len() > 0,
        sorted(es),
        all_encodable(es),
        flushed(r, name, es, num_bits, num_hash_fns),
    ensures
        table_in(name, r.bytes@) == r.table@,
{
    assert(r.bytes@.len() == r.bytes.len());
    table_file_roundtrip(es, r.table@.bloom->0);
}

/// A lookup in a sound table finds just what its file holds: no key is missed, whatever the filter
/// and the index skip.
pub proof fn table_lookup_is_exact(t: TableView, file: Seq<u8>, key: Seq<u8>)
    requires
        sound(t, file),
    ensures
        table_get(t, file, key) == Ok::<Option<Option<Seq<u8>>>, Fault>(
            lookup(file_layer(file), key),
        ),
{
    reveal(sound);
    let es = entries_in(file);
    lemma_intact_stores(file);
    search_finds_what_is_stored(file, es, key);
    if !t.admits(key) && layer_of(es).contains_key(key) {
        lemma_layer_key_written(es, key);
        let i = choose|i: int| 0 <= i < es.len() && #[trigger] es[i].0 == key;
        assert(t.admits(es[i].0));
    }
}

/// A lookup in a sound table reads at most sixteen records, however many the table has.
pub proof fn a_lookup_reads_at_most_sixteen_records(t: TableView, file: Seq<u8>, key: Seq<u8>)
    requires
        sound(t, file),
    ensures
        table_records(t, file, key) <= 16,
{
    reveal(sound);
    lemma_intact_stores(file);
    search_finds_what_is_stored(file, entries_in(file), key);
}

/// A scan of a sound table gives just the entries of the range that its file holds, in order. A range
/// that ends where it starts or before gives none.
pub proof fn table_scan_is_exact(t: TableView, file: Seq<u8>, start: Seq<u8>, stop: Option<Seq<u8>>)
    requires
        sound(t, file),
    ensures
        table_scan(t, file, start, stop) matches Ok(found) && sorted(found) && layer_of(found)
            == restricted(file_layer(file), start, stop) && (stop matches Some(e) && key_le(e, start)
            ==> found.len() == 0),
{
    reveal(sound);
    lemma_intact_stores(file);
    scan_gives_the_stored_range(file, entries_in(file), start, stop);
}

/// A key of which one position is not set in a table's filter is not there, and no record is read to
/// find that out. A key whose positions are all set, and every key where there is no filter, is looked
/// for in the file.
pub proof fn a_filter_saves_reads(t: TableView, file: Seq<u8>, key: Seq<u8>)
    requires
        t.bloom matches Some(f) ==> f.num_bits > 0,
    ensures
        t.admits(key) <==> (t.bloom matches Some(f) ==> forall|i: int|
            0 <= i < f.num_hash_fns ==> bit_set(
                f.bits,
                (((hash1(key) + #[trigger] (i * hash2(key))) % 0x1_0000_0000_0000_0000)
                    % f.num_bits as int) as nat,
            )),
        !t.admits(key) ==> table_records(t, file, key) == 0 && table_get(t, file, key) == Ok::<
            Option<Option<Seq<u8>>>,
            Fault,
        >(None),
{
    if t.bloom is Some {
        a_key_is_ruled_out_by_an_unset_position(t.bloom->0, key);
    }
}

/// Damage is not overlooked: a lookup of a key that the filter does not rule out, and every scan, fails
/// on a file that is shorter than a footer, and fails where the record at which reading begins reaches
/// past the end of the file.
pub proof fn damage_is_not_overlooked(
    t: TableView,
    file: Seq<u8>,
    key: Seq<u8>,
    stop: Option<Seq<u8>>,
)
    ensures
        file.len() < 16 ==> {
            &&& t.admits(key) ==> table_get(t, file, key) == Err::<
                Option<Option<Seq<u8>>>,
                Fault,
            >(Fault::TooSmall)
            &&& table_scan(t, file, key, stop) == Err::<Seq<EntryView>, Fault>(Fault::TooSmall)
        },
        ({
            let pos = seek_offset(t.index, key) as int;
            file.len() >= 16 && pos < le_value(file.skip(file.len() - 8)) && pos + 9 <= file.len()
                < pos + 9 + le_value(file.subrange(pos, pos + 4)) + le_value(
                file.subrange(pos + 4, pos + 8),
            ) ==> {
                &&& t.admits(key) && (seek_end(t.index, key) matches Some(n) ==> pos < n)
                    ==> table_get(t, file, key) == Err::<Option<Option<Seq<u8>>>, Fault>(
                    Fault::CutShort,
                )
                &&& table_scan(t, file, key, stop) == Err::<Seq<EntryView>, Fault>(Fault::CutShort)
            }
        }),
{
    let from = seek_offset(t.index, key);
    if file.len() < 16 {
        a_shrunken_file_is_a_fault(file, from, seek_end(t.index, key), key, stop);
    } else {
        reading_ends_where_the_footer_says(file, from, seek_end(t.index, key), key, stop);
    }
}

/// A flushed table has a filter of the size asked for, within its limits, in which just the positions
/// of the table's keys are set.
pub proof fn a_flushed_filter_holds_just_its_keys(
    r: TableFile,
    name: Seq<u8>,
    es: Seq<EntryView>,
    num_bits: u64,
    num_hash_fns: u8,
    pos: nat,
)
    requires
        flushed(r, name, es, num_bits, num_hash_fns),
    ensures
        r.table@.bloom matches Some(f) && {
            &&& num_bits >= 64 ==> f.num_bits == num_bits
            &&& num_bits < 64 ==> f.num_bits == 64
            &&& 1 <= num_hash_fns <= 20 ==> f.num_hash_fns == num_hash_fns
            &&& num_hash_fns == 0 ==> f.num_hash_fns == 1
            &&& num_hash_fns > 20 ==> f.num_hash_fns == 20
            &&& 8 * f.bits.len() < f.num_bits + 8
            &&& f.num_bits <= 8 * f.bits.len()
            &&& pos < 8 * f.bits.len() ==> (bit_set(f.bits, pos) <==> exists|i: int, n: int|
                0 <= i < es.len() && 0 <= n < f.num_hash_fns && pos == ((hash1(es[i].0)
                    + #[trigger] (n * hash2(es[i].0))) % 0x1_0000_0000_0000_0000)
                    % f.num_bits as int)
        },
{
    let f = r.table@.bloom->0;
    if pos < 8 * f.bits.len() {
        if bit_set(f.bits, pos) {
            let i = choose|i: int| 0 <= i < es.len() && #[trigger] f.marks(es[i].0, pos);
            let n = choose|n: u64| n < f.num_hash_fns && #[trigger] f.position_of(es[i].0, n) == pos;
            positions_come_from_both_hashes(f, es[i].0, n);
            assert(pos == ((hash1(es[i].0) + (n as int) * hash2(es[i].0))
                % 0x1_0000_0000_0000_0000) % f.num_bits as int);
        }
        if exists|i: int, n: int|
            0 <= i < es.len() && 0 <= n < f.num_hash_fns && pos == ((hash1(es[i].0) + #[trigger] (n
                * hash2(es[i].0))) % 0x1_0000_0000_0000_0000) % f.num_bits as int {
            let (i, n) = choose|i: int, n: int|
                0 <= i < es.len() && 0 <= n < f.num_hash_fns && pos == ((hash1(es[i].0)
                    + #[trigger] (n * hash2(es[i].0))) % 0x1_0000_0000_0000_0000)
                    % f.num_bits as int;
            positions_come_from_both_hashes(f, es[i].0, n as u64);
            assert(f.position_of(es[i].0, n as u64) == pos);
            assert(f.marks(es[i].0, pos));
        }
    }
}

/// Filters of one size mark the same positions for a key.
proof fn lemma_same_marks(a: BloomView, b: BloomView, key: Seq<u8>, pos: nat)
    requires
        a.num_bits == b.num_bits,
        a.num_hash_fns == b.num_hash_fns,
    ensures
        a.marks(key, pos) == b.marks(key, pos),
{
    if a.marks(key, pos) {
        let i = choose|i: u64| i < a.num_hash_fns && #[trigger] a.position_of(key, i) == pos;
        assert(b.position_of(key, i) == pos);
    }
    if b.marks(key, pos) {
        let i = choose|i: u64| i < b.num_hash_fns && #[trigger] b.position_of(key, i) == pos;
        assert(a.position_of(key, i) == pos);
    }
}

} // verus!
