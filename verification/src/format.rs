//! The binary formats: little-endian integers, record bodies, log records and index entries.

use vstd::prelude::*;
use vstd::slice::slice_to_vec;

verus! {

/// Bytes before the key of a log record: checksum, key length, value length, operation.
pub const WAL_HEADER_SIZE: usize = 13;

/// Operation byte of a record that writes a value.
pub const OP_PUT: u8 = 0;

/// Operation byte of a record that deletes a key.
pub const OP_DELETE: u8 = 1;

// ---------------------------------------------------------------------------
// Little-endian integers
// ---------------------------------------------------------------------------

/// The `n` lowest base-256 digits of `v`, least significant first.
pub open spec fn le_bytes(v: nat, n: nat) -> Seq<u8>
    decreases n,
{
    if n == 0 {
        Seq::empty()
    } else {
        seq![(v % 256) as u8] + le_bytes(v / 256, (n - 1) as nat)
    }
}

/// The number whose base-256 digits are `s`, least significant first.
pub open spec fn le_value(s: Seq<u8>) -> nat
    decreases s.len(),
{
    if s.len() == 0 {
        0
    } else {
        s[0] as nat + 256 * le_value(s.drop_first())
    }
}

pub proof fn lemma_le_bytes_len(v: nat, n: nat)
    ensures
        le_bytes(v, n).len() == n,
    decreases n,
{
    if n > 0 {
        lemma_le_bytes_len(v / 256, (n - 1) as nat);
    }
}

proof fn lemma_le_step(v: nat, n: nat)
    requires
        n > 0,
    ensures
        le_value(le_bytes(v, n)) == v % 256 + 256 * le_value(le_bytes(v / 256, (n - 1) as nat)),
{
    assert(le_bytes(v, n).drop_first() =~= le_bytes(v / 256, (n - 1) as nat));
}

/// Decoding the four bytes of a 32-bit number gives the number back.
pub proof fn lemma_le_roundtrip_u32(v: nat)
    requires
        v <= u32::MAX,
    ensures
        le_bytes(v, 4).len() == 4,
        le_value(le_bytes(v, 4)) == v,
{
    lemma_le_bytes_len(v, 4);
    lemma_le_step(v, 4);
    lemma_le_step(v / 256, 3);
    lemma_le_step(v / 256 / 256, 2);
    lemma_le_step(v / 256 / 256 / 256, 1);
    assert(le_value(le_bytes(v / 256 / 256 / 256 / 256, 0)) == 0);
}

/// Decoding the eight bytes of a 64-bit number gives the number back.
pub proof fn lemma_le_roundtrip_u64(v: nat)
    requires
        v <= u64::MAX,
    ensures
        le_bytes(v, 8).len() == 8,
        le_value(le_bytes(v, 8)) == v,
{
    lemma_le_bytes_len(v, 8);
    let w = v / 256 / 256 / 256 / 256;
    lemma_le_step(v, 8);
    lemma_le_step(v / 256, 7);
    lemma_le_step(v / 256 / 256, 6);
    lemma_le_step(v / 256 / 256 / 256, 5);
    lemma_le_step(w, 4);
    lemma_le_step(w / 256, 3);
    lemma_le_step(w / 256 / 256, 2);
    lemma_le_step(w / 256 / 256 / 256, 1);
    assert(le_value(le_bytes(w / 256 / 256 / 256 / 256, 0)) == 0);
}

/// The bytes of a 32-bit number stand from the least significant to the most.
pub proof fn four_bytes_are_little_endian(v: nat)
    requires
        v <= u32::MAX,
    ensures
        le_bytes(v, 4) == seq![
            (v % 256) as u8,
            (v / 0x100 % 256) as u8,
            (v / 0x1_0000 % 256) as u8,
            (v / 0x100_0000 % 256) as u8,
        ],
{
    reveal_with_fuel(le_bytes, 5);
    assert(v / 256 / 256 == v / 0x1_0000);
    assert(v / 0x1_0000 / 256 == v / 0x100_0000);
    assert(le_bytes(v, 4) =~= seq![
        (v % 256) as u8,
        (v / 0x100 % 256) as u8,
        (v / 0x1_0000 % 256) as u8,
        (v / 0x100_0000 % 256) as u8,
    ]);
}

/// The bytes of a 64-bit number are those of its lower half, then those of its upper half.
pub proof fn eight_bytes_are_little_endian(v: nat)
    requires
        v <= u64::MAX,
    ensures
        le_bytes(v, 8) == le_bytes(v % 0x1_0000_0000, 4) + le_bytes(v / 0x1_0000_0000, 4),
{
    let low = v % 0x1_0000_0000;
    let high = v / 0x1_0000_0000;
    reveal_with_fuel(le_bytes, 9);
    let v1 = v / 256;
    let v2 = v1 / 256;
    let v3 = v2 / 256;
    let v4 = v3 / 256;
    assert(v4 == high);
    assert(low % 256 == v % 256);
    assert(low / 256 % 256 == v1 % 256);
    assert(low / 256 / 256 % 256 == v2 % 256);
    assert(low / 256 / 256 / 256 % 256 == v3 % 256);
    assert(le_bytes(v, 8) =~= le_bytes(low, 4) + le_bytes(high, 4));
}

/// What four bytes say: the first counts units, each further one 256 times as much.
pub proof fn four_bytes_as_a_number(b0: u8, b1: u8, b2: u8, b3: u8)
    ensures
        le_value(seq![b0, b1, b2, b3]) == b0 + 0x100 * b1 + 0x1_0000 * b2 + 0x100_0000 * b3,
{
    reveal_with_fuel(le_value, 5);
    let s = seq![b0, b1, b2, b3];
    assert(s.drop_first() =~= seq![b1, b2, b3]);
    assert(s.drop_first().drop_first() =~= seq![b2, b3]);
    assert(s.drop_first().drop_first().drop_first() =~= seq![b3]);
}

/// What eight bytes say: the lower four, and 2^32 times the upper four.
pub proof fn eight_bytes_as_a_number(low: Seq<u8>, high: Seq<u8>)
    requires
        low.len() == 4,
        high.len() == 4,
    ensures
        le_value(low + high) == le_value(low) + 0x1_0000_0000 * le_value(high),
{
    let s = low + high;
    let t1 = s.drop_first();
    let t2 = t1.drop_first();
    let t3 = t2.drop_first();
    let l1 = low.drop_first();
    let l2 = l1.drop_first();
    let l3 = l2.drop_first();
    assert(t3.drop_first() =~= high);
    assert(l3.drop_first() =~= Seq::<u8>::empty());
    assert(le_value(l3.drop_first()) == 0);
    assert(le_value(s) == low[0] + 256 * le_value(t1));
    assert(le_value(t1) == low[1] + 256 * le_value(t2));
    assert(le_value(t2) == low[2] + 256 * le_value(t3));
    assert(le_value(t3) == low[3] + 256 * le_value(high));
    assert(le_value(low) == low[0] + 256 * le_value(l1));
    assert(le_value(l1) == low[1] + 256 * le_value(l2));
    assert(le_value(l2) == low[2] + 256 * le_value(l3));
    assert(le_value(l3) == low[3] + 256 * le_value(l3.drop_first()));
}

/// The four little-endian bytes of `val`.
pub fn encode_u32(val: u32) -> (r: [u8; 4])
    ensures
        r@ == le_bytes(val as nat, 4),
{
    let b0 = (val % 256) as u8;
    let b1 = (val / 256 % 256) as u8;
    let b2 = (val / 256 / 256 % 256) as u8;
    let b3 = (val / 256 / 256 / 256 % 256) as u8;
    let r = [b0, b1, b2, b3];
    proof {
        reveal_with_fuel(le_bytes, 5);
        assert(r@ =~= le_bytes(val as nat, 4));
    }
    r
}

/// The number in the first four bytes of `bytes`.
pub fn decode_u32(bytes: &[u8]) -> (r: u32)
    requires
        bytes@.len() >= 4,
    ensures
        r == le_value(bytes@.subrange(0, 4)),
{
    proof {
        reveal_with_fuel(le_value, 5);
    }
    bytes[0] as u32 + 256 * (bytes[1] as u32 + 256 * (bytes[2] as u32 + 256 * (bytes[3] as u32)))
}

/// The eight little-endian bytes of `val`.
pub fn encode_u64(val: u64) -> (r: [u8; 8])
    ensures
        r@ == le_bytes(val as nat, 8),
{
    let v1 = val / 256;
    let v2 = v1 / 256;
    let v3 = v2 / 256;
    let v4 = v3 / 256;
    let v5 = v4 / 256;
    let v6 = v5 / 256;
    let v7 = v6 / 256;
    let r = [
        (val % 256) as u8,
        (v1 % 256) as u8,
        (v2 % 256) as u8,
        (v3 % 256) as u8,
        (v4 % 256) as u8,
        (v5 % 256) as u8,
        (v6 % 256) as u8,
        (v7 % 256) as u8,
    ];
    proof {
        reveal_with_fuel(le_bytes, 9);
        assert(r@ =~= le_bytes(val as nat, 8));
    }
    r
}

/// The number in the first eight bytes of `bytes`.
pub fn decode_u64(bytes: &[u8]) -> (r: u64)
    requires
        bytes@.len() >= 8,
    ensures
        r == le_value(bytes@.subrange(0, 8)),
{
    proof {
        reveal_with_fuel(le_value, 9);
    }
    bytes[0] as u64 + 256 * (bytes[1] as u64 + 256 * (bytes[2] as u64 + 256 * (bytes[3] as u64 + 256
        * (bytes[4] as u64 + 256 * (bytes[5] as u64 + 256 * (bytes[6] as u64 + 256 * (
    bytes[7] as u64)))))))
}

// ---------------------------------------------------------------------------
// Record bodies
// ---------------------------------------------------------------------------

/// One write: a key with its new value, or with `None` where the key is deleted.
pub type EntryView = (Seq<u8>, Option<Seq<u8>>);

/// The operation byte of a write.
pub open spec fn op_of(value: Option<Seq<u8>>) -> u8 {
    if value is Some {
        OP_PUT
    } else {
        OP_DELETE
    }
}

/// The value bytes that a record carries: a deletion carries none.
pub open spec fn value_bytes(value: Option<Seq<u8>>) -> Seq<u8> {
    match value {
        Some(v) => v,
        None => Seq::empty(),
    }
}

/// What a record with operation byte `op` says of its key.
pub open spec fn entry_value(op: u8, value: Seq<u8>) -> Option<Seq<u8>> {
    if op == OP_PUT {
        Some(value)
    } else {
        None
    }
}

/// A key and a value whose lengths a record's 32-bit length fields can hold.
pub open spec fn encodable(e: EntryView) -> bool {
    e.0.len() <= u32::MAX && value_bytes(e.1).len() <= u32::MAX
}

/// The 32-bit length field written for `n` bytes. Longer inputs wrap.
pub open spec fn len_field(n: nat) -> Seq<u8> {
    le_bytes(n % 0x1_0000_0000, 4)
}

/// A record body: key length, value length, operation, key, value.
pub open spec fn record_body(key: Seq<u8>, value: Seq<u8>, op: u8) -> Seq<u8> {
    len_field(key.len()) + len_field(value.len()) + seq![op] + key + value
}

/// The 32-bit number at `pos`.
pub open spec fn u32_at(data: Seq<u8>, pos: int) -> nat {
    le_value(data.subrange(pos, pos + 4))
}

/// The 64-bit number at `pos`.
pub open spec fn u64_at(data: Seq<u8>, pos: int) -> nat {
    le_value(data.subrange(pos, pos + 8))
}

/// The length of the record body whose header stands at `pos`, by its length fields.
pub open spec fn body_len(data: Seq<u8>, pos: int) -> nat {
    9 + u32_at(data, pos) + u32_at(data, pos + 4)
}

/// A whole record body stands at `pos`.
pub open spec fn body_fits(data: Seq<u8>, pos: int) -> bool {
    &&& 0 <= pos
    &&& pos + 9 <= data.len()
    &&& pos + body_len(data, pos) <= data.len()
}

/// The operation byte of the record body at `pos`.
pub open spec fn body_op(data: Seq<u8>, pos: int) -> u8 {
    data[pos + 8]
}

/// The key of the record body at `pos`.
pub open spec fn body_key(data: Seq<u8>, pos: int) -> Seq<u8> {
    data.subrange(pos + 9, pos + 9 + u32_at(data, pos))
}

/// The value of the record body at `pos`.
pub open spec fn body_value(data: Seq<u8>, pos: int) -> Seq<u8> {
    data.subrange(pos + 9 + u32_at(data, pos), pos + body_len(data, pos))
}

/// The write that the record body at `pos` describes.
pub open spec fn body_entry(data: Seq<u8>, pos: int) -> EntryView {
    (body_key(data, pos), entry_value(body_op(data, pos), body_value(data, pos)))
}

/// A record body of a key and value that its length fields can hold reads back as it was written,
/// whatever stands before and after it.
pub proof fn lemma_body_roundtrip(
    before: Seq<u8>,
    key: Seq<u8>,
    value: Seq<u8>,
    op: u8,
    after: Seq<u8>,
)
    requires
        key.len() <= u32::MAX,
        value.len() <= u32::MAX,
    ensures
        ({
            let data = before + record_body(key, value, op) + after;
            let pos = before.len() as int;
            &&& record_body(key, value, op).len() == 9 + key.len() + value.len()
            &&& body_fits(data, pos)
            &&& u32_at(data, pos) == key.len()
            &&& u32_at(data, pos + 4) == value.len()
            &&& body_len(data, pos) == record_body(key, value, op).len()
            &&& body_op(data, pos) == op
            &&& body_key(data, pos) == key
            &&& body_value(data, pos) == value
        }),
{
    let data = before + record_body(key, value, op) + after;
    let pos = before.len() as int;
    lemma_le_roundtrip_u32(key.len());
    lemma_le_roundtrip_u32(value.len());
    assert(data.subrange(pos, pos + 4) =~= len_field(key.len()));
    assert(data.subrange(pos + 4, pos + 8) =~= len_field(value.len()));
    assert(body_key(data, pos) =~= key);
    assert(body_value(data, pos) =~= value);
}

/// Where the parts of a record body stand: the lengths of key and value in four bytes each, the
/// operation in the ninth byte, then the key and the value, and nothing else.
pub proof fn record_body_layout(key: Seq<u8>, value: Seq<u8>, op: u8)
    requires
        key.len() <= u32::MAX,
        value.len() <= u32::MAX,
    ensures
        ({
            let body = record_body(key, value, op);
            let n = key.len() as int;
            &&& body.len() == 9 + key.len() + value.len()
            &&& body.subrange(0, 4) == le_bytes(key.len(), 4)
            &&& body.subrange(4, 8) == le_bytes(value.len(), 4)
            &&& body[8] == op
            &&& body.subrange(9, 9 + n) == key
            &&& body.skip(9 + n) == value
        }),
{
    let body = record_body(key, value, op);
    let n = key.len() as int;
    lemma_le_bytes_len(key.len(), 4);
    lemma_le_bytes_len(value.len(), 4);
    assert(body.subrange(0, 4) =~= le_bytes(key.len(), 4));
    assert(body.subrange(4, 8) =~= le_bytes(value.len(), 4));
    assert(body.subrange(9, 9 + n) =~= key);
    assert(body.skip(9 + n) =~= value);
}

/// A put is written with its value and the operation 0, a deletion without a value and with the
/// operation 1. What is read with the operation 0 is a put of the value, with any other a deletion.
pub proof fn operations_tell_puts_from_deletions(value: Seq<u8>, op: u8)
    ensures
        op_of(Some(value)) == 0,
        op_of(None) == 1,
        value_bytes(Some(value)) == value,
        value_bytes(None) == Seq::<u8>::empty(),
        entry_value(0, value) == Some(value),
        op != 0 ==> entry_value(op, value) is None,
{
}

/// Every write whose key and value are shorter than 2^32 bytes can be recorded.
pub proof fn every_shorter_write_is_encodable(key: Seq<u8>, value: Seq<u8>)
    requires
        key.len() < 0x1_0000_0000,
        value.len() < 0x1_0000_0000,
    ensures
        encodable((key, Some(value))),
        encodable((key, None)),
{
}

/// Appends `bytes` to `buf`.
pub fn append_bytes(buf: &mut Vec<u8>, bytes: &[u8])
    ensures
        final(buf)@ == old(buf)@ + bytes@,
{
    buf.extend_from_slice(bytes);
    assert(buf@ =~= old(buf)@ + bytes@);
}

/// The 32-bit length field for `n` bytes.
pub fn encode_len(n: usize) -> (r: [u8; 4])
    ensures
        r@ == len_field(n as nat),
{
    encode_u32((n as u64 % 0x1_0000_0000) as u32)
}

/// Encodes a record body: the payload of a log record and the whole of a table record.
fn encode_body(key: &[u8], value: &[u8], op: u8) -> (r: Vec<u8>)
    ensures
        r@ == record_body(key@, value@, op),
{
    let mut body: Vec<u8> = Vec::new();
    append_bytes(&mut body, &encode_len(key.len()));
    append_bytes(&mut body, &encode_len(value.len()));
    body.push(op);
    append_bytes(&mut body, key);
    append_bytes(&mut body, value);
    assert(body@ =~= record_body(key@, value@, op));
    body
}

/// Encodes a table record.
pub fn encode_sstable_record(key: &[u8], value: &[u8], op: u8) -> (r: Vec<u8>)
    ensures
        r@ == record_body(key@, value@, op),
{
    encode_body(key, value, op)
}

/// An index entry: key length, key, file offset.
pub open spec fn index_entry_bytes(key: Seq<u8>, offset: nat) -> Seq<u8> {
    len_field(key.len()) + key + le_bytes(offset, 8)
}

/// Encodes an entry of a table's sparse index.
pub fn encode_index_entry(key: &[u8], offset: u64) -> (r: Vec<u8>)
    ensures
        r@ == index_entry_bytes(key@, offset as nat),
{
    let mut out: Vec<u8> = Vec::new();
    append_bytes(&mut out, &encode_len(key.len()));
    append_bytes(&mut out, key);
    append_bytes(&mut out, &encode_u64(offset));
    assert(out@ =~= index_entry_bytes(key@, offset as nat));
    out
}

// ---------------------------------------------------------------------------
// Log records
// ---------------------------------------------------------------------------

/// One step of the CRC-32 register: it is shifted by a bit, and where that bit was set the polynomial
/// is added.
pub open spec fn crc_shift(register: u32) -> u32 {
    if register & 1 == 1 {
        (register >> 1) ^ 0xEDB8_8320u32
    } else {
        register >> 1
    }
}

/// `n` steps of the register.
pub open spec fn crc_shifts(register: u32, n: nat) -> u32
    decreases n,
{
    if n == 0 {
        register
    } else {
        crc_shift(crc_shifts(register, (n - 1) as nat))
    }
}

/// The register after `data`: each byte is added and shifted through.
pub open spec fn crc_register(data: Seq<u8>) -> u32
    decreases data.len(),
{
    if data.len() == 0 {
        0xFFFF_FFFFu32
    } else {
        crc_shifts(crc_register(data.drop_last()) ^ data.last() as u32, 8)
    }
}

/// The CRC-32 (IEEE) checksum of `data`.
#[verifier::opaque]
pub open spec fn crc32(data: Seq<u8>) -> u32 {
    crc_register(data) ^ 0xFFFF_FFFFu32
}

/// Calls `crc32fast::hash`. Trusted: it returns the CRC-32 (IEEE) checksum of `data`.
#[verifier::external_body]
fn checksum(data: &[u8]) -> (r: u32)
    ensures
        r == crc32(data@),
{
    crc32fast::hash(data)
}

/// A log record whose payload has the checksum `crc`: the checksum, then the payload.
pub open spec fn framed(crc: u32, payload: Seq<u8>) -> Seq<u8> {
    le_bytes(crc as nat, 4) + payload
}

/// The log record of a write.
pub open spec fn wal_record(key: Seq<u8>, value: Seq<u8>, op: u8) -> Seq<u8> {
    framed(crc32(record_body(key, value, op)), record_body(key, value, op))
}

/// A log record as it is read: key, value, operation, and the bytes it took.
pub type DecodedRecord = (Vec<u8>, Vec<u8>, u8, usize);

/// How far the log record at the start of `data` reaches by its length fields, where all of it is
/// there.
pub open spec fn wal_span(data: Seq<u8>) -> Option<nat> {
    if data.len() >= 13 && body_fits(data, 4) {
        Some(4 + body_len(data, 4))
    } else {
        None
    }
}

/// The stored checksum of the log record at the start of `data` is `crc`.
pub open spec fn stored_crc_is(data: Seq<u8>, crc: u32) -> bool {
    u32_at(data, 0) == crc
}

/// The log record at the start of `data` is whole and its checksum holds.
pub open spec fn wal_valid(data: Seq<u8>) -> bool {
    wal_span(data) matches Some(total) && stored_crc_is(
        data,
        crc32(data.subrange(4, total as int)),
    )
}

/// The parts of the log record at the start of `data`.
pub open spec fn wal_parts(data: Seq<u8>, r: DecodedRecord) -> bool {
    &&& r.0@ == body_key(data, 4)
    &&& r.1@ == body_value(data, 4)
    &&& r.2 == body_op(data, 4)
    &&& wal_span(data) == Some(r.3 as nat)
}

/// Puts the checksum `crc` before `payload`.
pub fn frame_wal_record(crc: u32, payload: &[u8]) -> (r: Vec<u8>)
    ensures
        r@ == framed(crc, payload@),
{
    let mut record: Vec<u8> = Vec::new();
    append_bytes(&mut record, &encode_u32(crc));
    append_bytes(&mut record, payload);
    assert(record@ =~= framed(crc, payload@));
    record
}

/// Encodes a log record: checksum, key length, value length, operation, key, value. The checksum
/// covers everything after it.
pub fn encode_wal_record(key: &[u8], value: &[u8], op: u8) -> (r: Vec<u8>)
    ensures
        r@ == wal_record(key@, value@, op),
{
    let payload = encode_body(key, value, op);
    let crc = checksum(payload.as_slice());
    frame_wal_record(crc, payload.as_slice())
}

/// How many bytes the log record at the start of `data` takes, or `None` where `data` ends before
/// it does.
pub fn wal_record_span(data: &[u8]) -> (r: Option<usize>)
    ensures
        r is Some <==> wal_span(data@) is Some,
        r matches Some(n) ==> wal_span(data@) == Some(n as nat),
{
    if data.len() < WAL_HEADER_SIZE {
        return None;
    }
    let key_len = decode_u32(&data[4..8]);
    let value_len = decode_u32(&data[8..12]);
    assert(data@.subrange(4, 8).subrange(0, 4) =~= data@.subrange(4, 8));
    assert(data@.subrange(8, 12).subrange(0, 4) =~= data@.subrange(8, 12));
    let total = WAL_HEADER_SIZE as u64 + key_len as u64 + value_len as u64;
    if (data.len() as u64) < total {
        return None;
    }
    Some(total as usize)
}

/// Takes apart the log record at the start of `data`, given the checksum `computed` of its payload.
/// `None` where the record is cut short or where `computed` is not the checksum it carries.
pub fn accept_wal_record(data: &[u8], computed: u32) -> (r: Option<DecodedRecord>)
    ensures
        r is Some <==> wal_span(data@) is Some && stored_crc_is(data@, computed),
        r matches Some(parts) ==> wal_parts(data@, parts),
{
    match wal_record_span(data) {
        None => None,
        Some(total) => {
            let stored = decode_u32(&data[0..4]);
            assert(data@.subrange(0, 4).subrange(0, 4) =~= data@.subrange(0, 4));
            if stored != computed {
                return None;
            }
            let key_len = decode_u32(&data[4..8]) as usize;
            assert(data@.subrange(4, 8).subrange(0, 4) =~= data@.subrange(4, 8));
            let key_end = WAL_HEADER_SIZE + key_len;
            let key = slice_to_vec(&data[WAL_HEADER_SIZE..key_end]);
            let value = slice_to_vec(&data[key_end..total]);
            Some((key, value, data[12], total))
        },
    }
}

/// Decodes the log record at the start of `data`. `None` where the record is cut short or its
/// checksum does not hold.
pub fn decode_wal_record(data: &[u8]) -> (r: Option<DecodedRecord>)
    ensures
        r is Some <==> wal_valid(data@),
        r matches Some(parts) ==> wal_parts(data@, parts),
{
    match wal_record_span(data) {
        None => None,
        Some(total) => {
            let computed = checksum(&data[4..total]);
            accept_wal_record(data, computed)
        },
    }
}

/// A log record of a key and value that its length fields can hold decodes to what was encoded,
/// whatever follows it in the log.
pub proof fn wal_record_roundtrip(key: Seq<u8>, value: Seq<u8>, op: u8, rest: Seq<u8>)
    requires
        key.len() <= u32::MAX,
        value.len() <= u32::MAX,
    ensures
        ({
            let data = wal_record(key, value, op) + rest;
            &&& wal_record(key, value, op).len() == 13 + key.len() + value.len()
            &&& wal_valid(data)
            &&& wal_span(data) == Some(wal_record(key, value, op).len())
            &&& body_key(data, 4) == key
            &&& body_value(data, 4) == value
            &&& body_op(data, 4) == op
        }),
{
    let body = record_body(key, value, op);
    let crc = crc32(body);
    let data = wal_record(key, value, op) + rest;
    lemma_le_roundtrip_u32(crc as nat);
    lemma_body_roundtrip(le_bytes(crc as nat, 4), key, value, op, rest);
    assert(data =~= le_bytes(crc as nat, 4) + body + rest);
    assert(data.subrange(0, 4) =~= le_bytes(crc as nat, 4));
    assert(data.subrange(4, 4 + body.len() as int) =~= body);
}

/// A whole record does not decode if the four bytes before its payload are not the checksum of that
/// payload, however long it is and whatever follows.
pub proof fn wrong_checksum_is_rejected(
    stored: Seq<u8>,
    key: Seq<u8>,
    value: Seq<u8>,
    op: u8,
    rest: Seq<u8>,
)
    requires
        key.len() <= u32::MAX,
        value.len() <= u32::MAX,
        stored.len() == 4,
        le_value(stored) != crc32(record_body(key, value, op)),
    ensures
        !wal_valid(stored + record_body(key, value, op) + rest),
{
    let body = record_body(key, value, op);
    let data = stored + body + rest;
    lemma_body_roundtrip(stored, key, value, op, rest);
    assert(data.subrange(0, 4) =~= stored);
    assert(data.subrange(4, 4 + body.len() as int) =~= body);
}

/// A record framed with any other number than the checksum of its payload does not decode.
pub proof fn only_the_checksum_frames_a_record(
    crc: u32,
    key: Seq<u8>,
    value: Seq<u8>,
    op: u8,
    rest: Seq<u8>,
)
    requires
        key.len() <= u32::MAX,
        value.len() <= u32::MAX,
    ensures
        wal_valid(framed(crc, record_body(key, value, op)) + rest) <==> crc == crc32(
            record_body(key, value, op),
        ),
{
    let body = record_body(key, value, op);
    lemma_le_roundtrip_u32(crc as nat);
    assert(framed(crc, body) + rest =~= le_bytes(crc as nat, 4) + body + rest);
    if crc != crc32(body) {
        wrong_checksum_is_rejected(le_bytes(crc as nat, 4), key, value, op, rest);
    } else {
        wal_record_roundtrip(key, value, op, rest);
    }
}

/// Nothing but a record decodes: what is accepted at the start of `data` is, byte for byte, the record
/// of the parts that are read from it.
pub proof fn accepted_record_is_a_record(data: Seq<u8>)
    requires
        wal_valid(data),
    ensures
        ({
            let body = record_body(body_key(data, 4), body_value(data, 4), body_op(data, 4));
            let n = 4 + body.len() as int;
            &&& wal_span(data) == Some(n as nat)
            &&& n <= data.len()
            &&& data == le_bytes(crc32(body) as nat, 4) + body + data.skip(n)
        }),
{
    let key = body_key(data, 4);
    let value = body_value(data, 4);
    let op = body_op(data, 4);
    let body = record_body(key, value, op);
    let n = wal_span(data)->0 as int;
    lemma_le_unique_u32(data.subrange(4, 8));
    lemma_le_unique_u32(data.subrange(8, 12));
    lemma_le_unique_u32(data.subrange(0, 4));
    assert(data.subrange(4, n) =~= body);
    assert(data =~= data.subrange(0, 4) + body + data.skip(n));
}

/// Four bytes are the only ones that say their number.
proof fn lemma_le_unique_u32(s: Seq<u8>)
    requires
        s.len() == 4,
    ensures
        le_value(s) <= u32::MAX,
        le_bytes(le_value(s), 4) == s,
{
    let v = le_value(s);
    let b0 = s[0] as nat;
    let b1 = s[1] as nat;
    let b2 = s[2] as nat;
    let b3 = s[3] as nat;
    assert(v == b0 + 0x100 * b1 + 0x1_0000 * b2 + 0x100_0000 * b3) by {
        four_bytes_as_a_number(s[0], s[1], s[2], s[3]);
        assert(s =~= seq![s[0], s[1], s[2], s[3]]);
    }
    assert(v % 256 == b0);
    assert(v / 0x100 == b1 + 0x100 * b2 + 0x1_0000 * b3);
    assert(v / 0x1_0000 == b2 + 0x100 * b3);
    assert(v / 0x100_0000 == b3);
    assert(le_bytes(v, 4) == seq![b0 as u8, b1 as u8, b2 as u8, b3 as u8]) by {
        four_bytes_are_little_endian(v);
    }
    assert(le_bytes(v, 4) =~= s);
}

/// A step of the checksum register loses nothing.
proof fn lemma_crc_shift_injective(a: u32, b: u32)
    requires
        crc_shift(a) == crc_shift(b),
    ensures
        a == b,
{
    assert(a == b) by (bit_vector)
        requires
            (if a & 1 == 1 {
                (a >> 1) ^ 0xEDB8_8320u32
            } else {
                a >> 1
            }) == (if b & 1 == 1 {
                (b >> 1) ^ 0xEDB8_8320u32
            } else {
                b >> 1
            }),
    ;
}

proof fn lemma_crc_shifts_injective(a: u32, b: u32, n: nat)
    requires
        crc_shifts(a, n) == crc_shifts(b, n),
    ensures
        a == b,
    decreases n,
{
    if n > 0 {
        lemma_crc_shift_injective(crc_shifts(a, (n - 1) as nat), crc_shifts(b, (n - 1) as nat));
        lemma_crc_shifts_injective(a, b, (n - 1) as nat);
    }
}

proof fn lemma_crc_register_differs(a: Seq<u8>, b: Seq<u8>, i: int)
    requires
        a.len() == b.len(),
        0 <= i < a.len(),
        a[i] != b[i],
        forall|j: int| 0 <= j < a.len() && j != i ==> a[j] == b[j],
    ensures
        crc_register(a) != crc_register(b),
    decreases a.len(),
{
    let x = crc_register(a.drop_last());
    let y = crc_register(b.drop_last());
    let p = a.last() as u32;
    let q = b.last() as u32;
    if i < a.len() - 1 {
        lemma_crc_register_differs(a.drop_last(), b.drop_last(), i);
        assert(p == q);
        assert(x ^ p != y ^ q) by (bit_vector)
            requires
                x != y,
                p == q,
        ;
    } else {
        assert(a.drop_last() =~= b.drop_last());
        assert(x ^ p != y ^ q) by (bit_vector)
            requires
                x == y,
                p != q,
        ;
    }
    if crc_register(a) == crc_register(b) {
        lemma_crc_shifts_injective(x ^ p, y ^ q, 8);
    }
}

/// Bytes of one length that differ in a single place have different checksums.
pub proof fn a_changed_byte_changes_the_checksum(a: Seq<u8>, b: Seq<u8>, i: int)
    requires
        a.len() == b.len(),
        0 <= i < a.len(),
        a[i] != b[i],
        forall|j: int| 0 <= j < a.len() && j != i ==> a[j] == b[j],
    ensures
        crc32(a) != crc32(b),
{
    reveal(crc32);
    lemma_crc_register_differs(a, b, i);
    let x = crc_register(a);
    let y = crc_register(b);
    assert(x ^ 0xFFFF_FFFFu32 != y ^ 0xFFFF_FFFFu32) by (bit_vector)
        requires
            x != y,
    ;
}

/// A record in which a byte of the checksum, the operation, the key or the value has changed does not
/// decode, whatever follows it.
pub proof fn a_changed_byte_is_detected(
    key: Seq<u8>,
    value: Seq<u8>,
    op: u8,
    i: int,
    byte: u8,
    rest: Seq<u8>,
)
    requires
        key.len() <= u32::MAX,
        value.len() <= u32::MAX,
        0 <= i < 4 || 12 <= i < 13 + key.len() + value.len(),
        byte != wal_record(key, value, op)[i],
    ensures
        !wal_valid(wal_record(key, value, op).update(i, byte) + rest),
{
    let body = record_body(key, value, op);
    let whole = wal_record(key, value, op);
    let data = whole.update(i, byte) + rest;
    wal_record_roundtrip(key, value, op, Seq::empty());
    lemma_body_roundtrip(le_bytes(crc32(body) as nat, 4), key, value, op, rest);
    let clean = le_bytes(crc32(body) as nat, 4) + body + rest;
    let n = 13 + key.len() + value.len();
    lemma_le_roundtrip_u32(crc32(body) as nat);
    assert(data.subrange(4, 8) =~= clean.subrange(4, 8));
    assert(data.subrange(8, 12) =~= clean.subrange(8, 12));
    let seen = data.subrange(4, n as int);
    if i < 4 {
        assert(seen =~= body);
        let head = data.subrange(0, 4);
        lemma_le_unique_u32(head);
        assert(head[i] == byte);
        assert(le_bytes(crc32(body) as nat, 4)[i] == whole[i]);
    } else {
        assert(data.subrange(0, 4) =~= le_bytes(crc32(body) as nat, 4));
        assert(seen[i - 4] == byte && body[i - 4] == whole[i]);
        a_changed_byte_changes_the_checksum(seen, body, i - 4);
    }
}

/// What is taken from a record that was encoded is what was put into it, and the record is all that is
/// used up.
pub proof fn a_record_gives_its_parts(
    key: Seq<u8>,
    value: Seq<u8>,
    op: u8,
    rest: Seq<u8>,
    r: DecodedRecord,
)
    requires
        key.len() <= u32::MAX,
        value.len() <= u32::MAX,
        wal_parts(wal_record(key, value, op) + rest, r),
    ensures
        r.0@ == key,
        r.1@ == value,
        r.2 == op,
        r.3 == 13 + key.len() + value.len(),
{
    wal_record_roundtrip(key, value, op, rest);
}

/// The length field of `n` bytes holds the lowest 32 bits of `n`.
pub proof fn length_fields_wrap(n: nat)
    ensures
        n < 0x1_0000_0000 ==> le_value(len_field(n)) == n,
        len_field(n + 0x1_0000_0000) == len_field(n),
{
    lemma_le_roundtrip_u32(n % 0x1_0000_0000);
    assert((n + 0x1_0000_0000) % 0x1_0000_0000 == n % 0x1_0000_0000);
}

/// A log record that is cut anywhere does not decode: a torn write is always detected.
pub proof fn torn_wal_record_is_rejected(key: Seq<u8>, value: Seq<u8>, op: u8, cut: int)
    requires
        key.len() <= u32::MAX,
        value.len() <= u32::MAX,
        0 <= cut < wal_record(key, value, op).len(),
    ensures
        !wal_valid(wal_record(key, value, op).take(cut)),
{
    let whole = wal_record(key, value, op);
    let torn = whole.take(cut);
    wal_record_roundtrip(key, value, op, Seq::empty());
    assert(whole + Seq::empty() =~= whole);
    if torn.len() >= 13 {
        assert(torn.subrange(4, 8) =~= whole.subrange(4, 8));
        assert(torn.subrange(8, 12) =~= whole.subrange(8, 12));
    }
}

} // verus!
