//! A Bloom filter: a set of keys that answers "definitely not here" or "maybe here".
//!
//! The positions of a key come from double hashing: the `i`-th is
//! `(h1(key) + i * h2(key)) % num_bits`.
//!
//! Encoded form: number of bits (8 bytes), number of hash functions (1 byte), bit array.

use vstd::prelude::*;
use vstd::slice::slice_to_vec;

use crate::format::{
    append_bytes, decode_u64, encode_u64, le_bytes, le_value, lemma_le_roundtrip_u64,
};

verus! {

/// What a filter holds.
#[verifier::ext_equal]
pub struct BloomView {
    pub bits: Seq<u8>,
    pub num_bits: u64,
    pub num_hash_fns: u8,
}

/// One step of an FNV-1a hash.
pub open spec fn fnv_step(h: u64, b: u8, prime: u64) -> u64 {
    (h ^ b as u64).wrapping_mul(prime)
}

/// The FNV-1a hash of `key` from `seed` with `prime`.
pub open spec fn fnv(key: Seq<u8>, seed: u64, prime: u64) -> u64
    decreases key.len(),
{
    if key.len() == 0 {
        seed
    } else {
        fnv_step(fnv(key.drop_last(), seed, prime), key.last(), prime)
    }
}

/// The first hash of a key: FNV-1a with its standard parameters.
pub open spec fn hash1(key: Seq<u8>) -> u64 {
    fnv(key, 0xcbf29ce484222325, 0x100000001b3)
}

/// The second hash of a key: FNV-1a with other parameters.
pub open spec fn hash2(key: Seq<u8>) -> u64 {
    fnv(key, 0x9e3779b97f4a7c15, 0x517cc1b727220a95)
}

/// The `i`-th position for the hashes `h1` and `h2` among `num_bits`.
pub open spec fn position(h1: u64, h2: u64, i: u64, num_bits: u64) -> u64 {
    h1.wrapping_add(i.wrapping_mul(h2)) % num_bits
}

/// The bit at `pos` is set.
pub open spec fn bit_set(bits: Seq<u8>, pos: nat) -> bool {
    (bits[(pos / 8) as int] >> (pos % 8) as u8) & 1 == 1
}

/// The bytes that hold `num_bits` bits.
pub open spec fn byte_count(num_bits: u64) -> nat {
    (num_bits as nat + 7) / 8
}

impl BloomView {
    /// Every position lies in the bit array.
    pub open spec fn wf(self) -> bool {
        self.num_hash_fns > 0 ==> 0 < self.num_bits <= 8 * self.bits.len()
    }

    /// Every position of `key` lies in the bit array.
    pub open spec fn reaches(self, key: Seq<u8>) -> bool {
        &&& self.num_hash_fns > 0 ==> self.num_bits > 0
        &&& forall|i: u64|
            i < self.num_hash_fns ==> (#[trigger] self.position_of(key, i)) < 8 * self.bits.len()
    }

    /// The bit array has just the bytes that the bits need.
    pub open spec fn exact(self) -> bool {
        self.bits.len() == byte_count(self.num_bits)
    }

    /// The `i`-th position of `key`.
    pub open spec fn position_of(self, key: Seq<u8>, i: u64) -> u64 {
        position(hash1(key), hash2(key), i, self.num_bits)
    }

    /// `pos` is a position of `key`.
    pub open spec fn marks(self, key: Seq<u8>, pos: nat) -> bool {
        exists|i: u64| i < self.num_hash_fns && #[trigger] self.position_of(key, i) == pos
    }

    /// Every position of `key` is set.
    pub open spec fn covers(self, key: Seq<u8>) -> bool {
        forall|i: u64|
            i < self.num_hash_fns ==> bit_set(self.bits, #[trigger] self.position_of(key, i) as nat)
    }

    /// `next` is the filter after inserting `key`: the positions of the key are set, and no other bit
    /// has changed.
    pub open spec fn inserted(self, key: Seq<u8>, next: BloomView) -> bool {
        &&& next.num_bits == self.num_bits
        &&& next.num_hash_fns == self.num_hash_fns
        &&& next.bits.len() == self.bits.len()
        &&& forall|pos: nat|
            pos < 8 * self.bits.len() ==> (#[trigger] bit_set(next.bits, pos) <==> bit_set(
                self.bits,
                pos,
            ) || self.marks(key, pos))
    }

    /// The encoded filter.
    pub open spec fn encoded(self) -> Seq<u8> {
        le_bytes(self.num_bits as nat, 8) + seq![self.num_hash_fns] + self.bits
    }
}

/// The filter that `data` starts with, if it is all there.
pub open spec fn decoded_filter(data: Seq<u8>) -> Option<BloomView> {
    if data.len() < 9 {
        None
    } else {
        let num_bits = le_value(data.subrange(0, 8)) as u64;
        if data.len() < 9 + byte_count(num_bits) {
            None
        } else {
            Some(
                BloomView {
                    bits: data.subrange(9, 9 + byte_count(num_bits) as int),
                    num_bits,
                    num_hash_fns: data[8],
                },
            )
        }
    }
}

/// A well-formed filter has room for every key.
pub proof fn lemma_wf_reaches(f: BloomView, key: Seq<u8>)
    requires
        f.wf(),
    ensures
        f.reaches(key),
{
    assert forall|i: u64| i < f.num_hash_fns implies (#[trigger] f.position_of(key, i)) < 8
        * f.bits.len() by {
        let h = hash1(key).wrapping_add(i.wrapping_mul(hash2(key)));
        assert(h % f.num_bits < f.num_bits) by (nonlinear_arith)
            requires
                f.num_bits > 0,
        ;
    }
}

/// A key that was inserted is covered.
pub proof fn inserted_key_is_covered(before: BloomView, key: Seq<u8>, after: BloomView)
    requires
        before.reaches(key),
        before.inserted(key, after),
    ensures
        after.covers(key),
{
    assert forall|i: u64| i < after.num_hash_fns implies bit_set(
        after.bits,
        #[trigger] after.position_of(key, i) as nat,
    ) by {
        let pos = before.position_of(key, i) as nat;
        assert(before.marks(key, pos));
    }
}

/// A covered key stays covered when another is inserted: there are no false negatives.
pub proof fn covered_key_stays_covered(
    before: BloomView,
    key: Seq<u8>,
    after: BloomView,
    other: Seq<u8>,
)
    requires
        before.reaches(other),
        before.inserted(key, after),
        before.covers(other),
    ensures
        after.covers(other),
{
    assert forall|i: u64| i < after.num_hash_fns implies bit_set(
        after.bits,
        #[trigger] after.position_of(other, i) as nat,
    ) by {
        let pos = before.position_of(other, i) as nat;
        assert(bit_set(before.bits, pos));
    }
}

/// Multiplying by a number that has an inverse modulo 2^64 loses nothing.
proof fn lemma_product_injective(x: int, y: int, prime: int, inverse: int, k: int)
    requires
        0 <= x < 0x1_0000_0000_0000_0000,
        0 <= y < 0x1_0000_0000_0000_0000,
        prime * inverse == 1 + 0x1_0000_0000_0000_0000 * k,
        (x * prime) % 0x1_0000_0000_0000_0000 == (y * prime) % 0x1_0000_0000_0000_0000,
    ensures
        x == y,
{
    let m: int = 0x1_0000_0000_0000_0000;
    let u = (x * prime) / m;
    let w = (y * prime) / m;
    let d = x - y;
    assert(x * prime - y * prime == m * (u - w)) by (nonlinear_arith)
        requires
            u == (x * prime) / m,
            w == (y * prime) / m,
            (x * prime) % m == (y * prime) % m,
            m > 0,
    ;
    assert(d * prime == m * (u - w)) by (nonlinear_arith)
        requires
            d == x - y,
            x * prime - y * prime == m * (u - w),
    ;
    assert(d * (prime * inverse) == (m * (u - w)) * inverse) by (nonlinear_arith)
        requires
            d * prime == m * (u - w),
    ;
    assert(d * (1 + m * k) == d + m * (d * k)) by (nonlinear_arith);
    assert((m * (u - w)) * inverse == m * ((u - w) * inverse)) by (nonlinear_arith);
    let q = (u - w) * inverse - d * k;
    assert(m * q == m * ((u - w) * inverse) - m * (d * k)) by (nonlinear_arith)
        requires
            q == (u - w) * inverse - d * k,
    ;
    assert(d == m * q);
    assert(q == 0) by (nonlinear_arith)
        requires
            d == m * q,
            -m < d < m,
            m > 0,
    ;
}

/// Hashes that differ, or bytes that differ, give different steps.
proof fn lemma_fnv_step_differs(g: u64, b: u8, h: u64, c: u8, prime: u64, inverse: int, k: int)
    requires
        g == h <==> b != c,
        prime * inverse == 1 + 0x1_0000_0000_0000_0000 * k,
    ensures
        fnv_step(g, b, prime) != fnv_step(h, c, prime),
{
    let p = b as u64;
    let q = c as u64;
    let x = g ^ p;
    let y = h ^ q;
    assert(g == h <==> p != q);
    assert(x != y) by (bit_vector)
        requires
            x == g ^ p,
            y == h ^ q,
            g == h <==> p != q,
    ;
    if fnv_step(g, b, prime) == fnv_step(h, c, prime) {
        lemma_product_injective(x as int, y as int, prime as int, inverse, k);
    }
}

/// The first hash of a key: it starts from a fixed number, and each byte is added bit by bit and the
/// sum multiplied by a fixed prime, modulo 2^64.
pub proof fn first_hash_takes_every_byte(key: Seq<u8>, b: u8)
    ensures
        hash1(Seq::empty()) == 0xcbf29ce484222325,
        hash1(key.push(b)) == ((hash1(key) ^ b as u64) as int * 0x100000001b3)
            % 0x1_0000_0000_0000_0000,
{
    assert(key.push(b).drop_last() =~= key);
}

/// The second hash of a key, from another number and with another prime.
pub proof fn second_hash_takes_every_byte(key: Seq<u8>, b: u8)
    ensures
        hash2(Seq::empty()) == 0x9e3779b97f4a7c15,
        hash2(key.push(b)) == ((hash2(key) ^ b as u64) as int * 0x517cc1b727220a95)
            % 0x1_0000_0000_0000_0000,
{
    assert(key.push(b).drop_last() =~= key);
}

/// Every byte of a key counts, wherever it stands and however long the key is: keys of one length that
/// differ in a single byte differ in both hashes.
pub proof fn a_changed_byte_changes_both_hashes(p: Seq<u8>, b: u8, c: u8, t: Seq<u8>)
    requires
        b != c,
    ensures
        hash1(p + seq![b] + t) != hash1(p + seq![c] + t),
        hash2(p + seq![b] + t) != hash2(p + seq![c] + t),
    decreases t.len(),
{
    let x = p + seq![b] + t;
    let y = p + seq![c] + t;
    if t.len() == 0 {
        assert(x.drop_last() =~= p);
        assert(y.drop_last() =~= p);
        lemma_fnv_step_differs(hash1(p), b, hash1(p), c, 0x100000001b3, 0xce965057aff6957b, 0xce9650590f);
        lemma_fnv_step_differs(hash2(p), b, hash2(p), c, 0x517cc1b727220a95, 0x2040003d780970bd, 0xa43f77ae39dae8d);
    } else {
        let front = t.drop_last();
        let last = t.last();
        a_changed_byte_changes_both_hashes(p, b, c, front);
        let g = p + seq![b] + front;
        let h = p + seq![c] + front;
        assert(x.drop_last() =~= g);
        assert(y.drop_last() =~= h);
        lemma_fnv_step_differs(hash1(g), last, hash1(h), last, 0x100000001b3, 0xce965057aff6957b, 0xce9650590f);
        lemma_fnv_step_differs(hash2(g), last, hash2(h), last, 0x517cc1b727220a95, 0x2040003d780970bd, 0xa43f77ae39dae8d);
    }
}

/// The positions of a key: the `i`-th is the first hash and `i` times the second, modulo 2^64, and that
/// modulo the number of bits.
pub proof fn positions_come_from_both_hashes(f: BloomView, key: Seq<u8>, i: u64)
    requires
        i < f.num_hash_fns,
        f.num_bits > 0,
    ensures
        f.position_of(key, i) == ((hash1(key) + i * hash2(key)) % 0x1_0000_0000_0000_0000)
            % f.num_bits as int,
{
    let m: int = 0x1_0000_0000_0000_0000;
    let p = i as int * hash2(key) as int;
    let h = hash1(key) as int;
    assert(i.wrapping_mul(hash2(key)) == p % m);
    assert((h + p % m) % m == (h + p) % m) by {
        vstd::arithmetic::div_mod::lemma_add_mod_noop_right(h, p, m);
    }
    let s = h + p % m;
    assert(s % m == (if s >= m { s - m } else { s }));
}

/// Bit `j` of byte `i` has the position `8 * i + j`.
pub proof fn bits_are_counted_from_the_lowest(bits: Seq<u8>, i: int, j: u8)
    requires
        0 <= i < bits.len(),
        j < 8,
    ensures
        bit_set(bits, (8 * i + j) as nat) <==> bits[i] & (1u8 << j) != 0,
{
    let b = bits[i];
    assert((8 * i + j) / 8 == i);
    assert((8 * i + j) % 8 == j);
    assert((b >> j) & 1 == 1 <==> b & (1u8 << j) != 0) by (bit_vector)
        requires
            j < 8,
    ;
}

/// A key is ruled out just where one of its positions is not set.
pub proof fn a_key_is_ruled_out_by_an_unset_position(f: BloomView, key: Seq<u8>)
    requires
        f.num_bits > 0,
    ensures
        f.covers(key) <==> forall|i: int|
            0 <= i < f.num_hash_fns ==> bit_set(
                f.bits,
                (((hash1(key) + #[trigger] (i * hash2(key))) % 0x1_0000_0000_0000_0000)
                    % f.num_bits as int) as nat,
            ),
{
    assert forall|i: int| 0 <= i < f.num_hash_fns implies f.position_of(key, i as u64) == ((hash1(
        key,
    ) + #[trigger] (i * hash2(key))) % 0x1_0000_0000_0000_0000) % f.num_bits as int by {
        positions_come_from_both_hashes(f, key, i as u64);
    }
    if f.covers(key) {
        assert forall|i: int| 0 <= i < f.num_hash_fns implies bit_set(
            f.bits,
            (((hash1(key) + #[trigger] (i * hash2(key))) % 0x1_0000_0000_0000_0000)
                % f.num_bits as int) as nat,
        ) by {
            assert(bit_set(f.bits, f.position_of(key, i as u64) as nat));
        }
    } else {
        let n = choose|n: u64|
            n < f.num_hash_fns && !bit_set(f.bits, #[trigger] f.position_of(key, n) as nat);
        let i = n as int;
        assert(i * hash2(key) == n * hash2(key));
        assert(f.position_of(key, i as u64) == ((hash1(key) + i * hash2(key))
            % 0x1_0000_0000_0000_0000) % f.num_bits as int);
    }
}

/// What is set in a filter after keys were inserted one after the other: just the positions of those
/// keys. `fs[i]` is the filter before `keys[i]` was inserted.
pub proof fn a_filter_sets_just_the_positions_of_its_keys(
    fs: Seq<BloomView>,
    keys: Seq<Seq<u8>>,
    pos: nat,
)
    requires
        fs.len() == keys.len() + 1,
        forall|i: int| 0 <= i < fs[0].bits.len() ==> fs[0].bits[i] == 0,
        fs[0].num_bits > 0,
        forall|i: int| 0 <= i < keys.len() ==> fs[i].inserted(#[trigger] keys[i], fs[i + 1]),
        pos < 8 * fs[0].bits.len(),
    ensures
        fs.last().bits.len() == fs[0].bits.len(),
        fs.last().num_bits == fs[0].num_bits,
        fs.last().num_hash_fns == fs[0].num_hash_fns,
        bit_set(fs.last().bits, pos) <==> exists|i: int, n: int|
            0 <= i < keys.len() && 0 <= n < fs[0].num_hash_fns && pos == ((hash1(keys[i])
                + #[trigger] (n * hash2(keys[i]))) % 0x1_0000_0000_0000_0000)
                % fs[0].num_bits as int,
    decreases keys.len(),
{
    let f0 = fs[0];
    if keys.len() == 0 {
        lemma_no_bit_set(f0.bits, pos);
    } else {
        let m = keys.len() - 1;
        let front = keys.drop_last();
        let before = fs.drop_last();
        assert forall|i: int| 0 <= i < front.len() implies before[i].inserted(
            #[trigger] front[i],
            before[i + 1],
        ) by {
            assert(front[i] == keys[i]);
        }
        a_filter_sets_just_the_positions_of_its_keys(before, front, pos);
        let f = before.last();
        assert(f == fs[m]);
        assert(fs[m].inserted(keys[m], fs[m + 1]));
        if bit_set(f.bits, pos) {
            let (i, n) = choose|i: int, n: int|
                0 <= i < front.len() && 0 <= n < f0.num_hash_fns && pos == ((hash1(front[i])
                    + #[trigger] (n * hash2(front[i]))) % 0x1_0000_0000_0000_0000)
                    % f0.num_bits as int;
            assert(n * hash2(keys[i]) == n * hash2(front[i]));
        }
        if f.marks(keys[m], pos) {
            let n = choose|n: u64| n < f.num_hash_fns && #[trigger] f.position_of(keys[m], n) == pos;
            positions_come_from_both_hashes(f, keys[m], n);
            assert(pos == ((hash1(keys[m]) + (n as int) * hash2(keys[m]))
                % 0x1_0000_0000_0000_0000) % f0.num_bits as int);
        }
        if exists|i: int, n: int|
            0 <= i < keys.len() && 0 <= n < f0.num_hash_fns && pos == ((hash1(keys[i])
                + #[trigger] (n * hash2(keys[i]))) % 0x1_0000_0000_0000_0000)
                % f0.num_bits as int {
            let (i, n) = choose|i: int, n: int|
                0 <= i < keys.len() && 0 <= n < f0.num_hash_fns && pos == ((hash1(keys[i])
                    + #[trigger] (n * hash2(keys[i]))) % 0x1_0000_0000_0000_0000)
                    % f0.num_bits as int;
            if i < m {
                assert(front[i] == keys[i]);
                assert(n * hash2(front[i]) == n * hash2(keys[i]));
            } else {
                positions_come_from_both_hashes(f, keys[m], n as u64);
                assert(f.position_of(keys[m], n as u64) == pos);
            }
        }
    }
}

/// An encoded filter: the number of bits in eight bytes, the number of hash functions in one, and the
/// bits.
pub proof fn encoded_filter_layout(f: BloomView)
    ensures
        f.encoded().len() == 9 + f.bits.len(),
        f.encoded().subrange(0, 8) == le_bytes(f.num_bits as nat, 8),
        f.encoded()[8] == f.num_hash_fns,
        f.encoded().skip(9) == f.bits,
{
    lemma_le_roundtrip_u64(f.num_bits as nat);
    assert(f.encoded().subrange(0, 8) =~= le_bytes(f.num_bits as nat, 8));
    assert(f.encoded().skip(9) =~= f.bits);
}

/// A filter that is encoded and decoded is the same filter, whatever follows it.
pub proof fn filter_roundtrip(f: BloomView, rest: Seq<u8>)
    requires
        f.exact(),
    ensures
        decoded_filter(f.encoded() + rest) == Some(f),
{
    let data = f.encoded() + rest;
    lemma_le_roundtrip_u64(f.num_bits as nat);
    assert(data.subrange(0, 8) =~= le_bytes(f.num_bits as nat, 8));
    assert(data.subrange(9, 9 + byte_count(f.num_bits) as int) =~= f.bits);
}

/// Setting bit `i` of a byte sets it and keeps the others.
proof fn lemma_set_bit(b: u8, i: u8, j: u8)
    by (bit_vector)
    requires
        i < 8,
        j < 8,
    ensures
        (((b | (1u8 << i)) >> j) & 1 == 1) <==> (j == i || (b >> j) & 1 == 1),
{
}

/// In a zeroed bit array no bit is set.
pub proof fn lemma_no_bit_set(bits: Seq<u8>, pos: nat)
    requires
        forall|i: int| 0 <= i < bits.len() ==> bits[i] == 0,
        pos < 8 * bits.len(),
    ensures
        !bit_set(bits, pos),
{
    let b = bits[(pos / 8) as int];
    let s = (pos % 8) as u8;
    assert(b == 0u8);
    assert((b >> s) & 1 != 1) by (bit_vector)
        requires
            b == 0u8,
    ;
}

/// How many bytes hold `num_bits` bits.
fn bytes_for(num_bits: u64) -> (r: u64)
    ensures
        r == byte_count(num_bits),
{
    if num_bits % 8 == 0 {
        num_bits / 8
    } else {
        num_bits / 8 + 1
    }
}

/// A Bloom filter.
pub struct BloomFilter {
    bits: Vec<u8>,
    num_bits: u64,
    num_hash_fns: u8,
}

impl View for BloomFilter {
    type V = BloomView;

    closed spec fn view(&self) -> BloomView {
        BloomView { bits: self.bits@, num_bits: self.num_bits, num_hash_fns: self.num_hash_fns }
    }
}

impl BloomFilter {
    /// The number of keys that a filter for `expected_keys` keys is sized for: at least one, so a
    /// filter for no key is sized as one for a single key.
    pub fn sized_for(expected_keys: usize) -> (r: usize)
        ensures
            r == (if expected_keys == 0 { 1 } else { expected_keys }),
    {
        if expected_keys == 0 {
            1
        } else {
            expected_keys
        }
    }

    /// An empty filter of the size asked for, with at least 64 bits and from 1 to 20 hash functions.
    pub fn new(num_bits: u64, num_hash_fns: u8) -> (r: Self)
        requires
            byte_count(num_bits) <= usize::MAX,
        ensures
            r@.num_bits == (if num_bits < 64 { 64 } else { num_bits }),
            r@.num_hash_fns == (if num_hash_fns < 1 { 1 } else if num_hash_fns > 20 { 20 } else {
                num_hash_fns
            }),
            r@.exact(),
            r@.wf(),
            forall|i: int| 0 <= i < r@.bits.len() ==> r@.bits[i] == 0,
            forall|key: Seq<u8>| !(#[trigger] r@.covers(key)),
    {
        let num_bits: u64 = if num_bits < 64 { 64 } else { num_bits };
        let num_hash_fns: u8 = if num_hash_fns < 1 {
            1
        } else if num_hash_fns > 20 {
            20
        } else {
            num_hash_fns
        };
        let byte_count = bytes_for(num_bits) as usize;
        let r = BloomFilter { bits: vec![0u8; byte_count], num_bits, num_hash_fns };
        proof {
            assert forall|key: Seq<u8>| !(#[trigger] r@.covers(key)) by {
                lemma_wf_reaches(r@, key);
                lemma_no_bit_set(r@.bits, r@.position_of(key, 0) as nat);
            }
        }
        r
    }

    /// The filter with the given parts.
    pub fn from_parts(num_bits: u64, num_hash_fns: u8, bits: Vec<u8>) -> (r: Self)
        ensures
            r@ == (BloomView { bits: bits@, num_bits, num_hash_fns }),
    {
        BloomFilter { bits, num_bits, num_hash_fns }
    }

    /// Inserts a key.
    pub fn insert(&mut self, key: &[u8])
        requires
            old(self)@.reaches(key@),
        ensures
            old(self)@.inserted(key@, final(self)@),
            old(self)@.wf() ==> final(self)@.wf(),
    {
        let (h1, h2) = self.hash_pair(key);
        let k = self.num_hash_fns as u64;
        let ghost before = self@;
        let mut i: u64 = 0;
        while i < k
            invariant
                i <= k,
                k == before.num_hash_fns,
                before.reaches(key@),
                h1 == hash1(key@),
                h2 == hash2(key@),
                self@.num_bits == before.num_bits,
                self@.num_hash_fns == before.num_hash_fns,
                self@.bits.len() == before.bits.len(),
                forall|pos: nat|
                    pos < 8 * before.bits.len() ==> (#[trigger] bit_set(self@.bits, pos) <==> (
                    bit_set(before.bits, pos) || exists|j: u64|
                        j < i && #[trigger] before.position_of(key@, j) == pos)),
            decreases k - i,
        {
            let ghost mid = self@.bits;
            let bit = self.probe(h1, h2, i);
            assert(before.position_of(key@, i) == bit);
            self.set_bit(bit);
            proof {
                assert forall|pos: nat| pos < 8 * before.bits.len() implies (#[trigger] bit_set(
                    self@.bits,
                    pos,
                ) <==> (bit_set(before.bits, pos) || exists|j: u64|
                    j < i + 1 && #[trigger] before.position_of(key@, j) == pos)) by {
                    assert(bit_set(mid, pos) <==> (bit_set(before.bits, pos) || exists|j: u64|
                        j < i && #[trigger] before.position_of(key@, j) == pos));
                    assert(before.position_of(key@, i) == bit);
                    if exists|j: u64| j < i + 1 && #[trigger] before.position_of(key@, j) == pos {
                        let j = choose|j: u64|
                            j < i + 1 && #[trigger] before.position_of(key@, j) == pos;
                        if j == i {
                            assert(pos == bit);
                        }
                    }
                }
            }
            i = i + 1;
        }
    }

    /// Whether `key` may have been inserted. False means that it was not.
    pub fn might_contain(&self, key: &[u8]) -> (r: bool)
        requires
            self@.reaches(key@),
        ensures
            r == self@.covers(key@),
    {
        let (h1, h2) = self.hash_pair(key);
        let k = self.num_hash_fns as u64;
        let mut i: u64 = 0;
        while i < k
            invariant
                i <= k,
                k == self@.num_hash_fns,
                self@.reaches(key@),
                h1 == hash1(key@),
                h2 == hash2(key@),
                forall|j: u64|
                    j < i ==> bit_set(self@.bits, #[trigger] self@.position_of(key@, j) as nat),
            decreases k - i,
        {
            let bit = self.probe(h1, h2, i);
            assert(self@.position_of(key@, i) == bit);
            if !self.get_bit(bit) {
                return false;
            }
            i = i + 1;
        }
        true
    }

    /// Encodes the filter.
    pub fn encode(&self) -> (r: Vec<u8>)
        ensures
            r@ == self@.encoded(),
    {
        let mut buf: Vec<u8> = Vec::new();
        append_bytes(&mut buf, &encode_u64(self.num_bits));
        buf.push(self.num_hash_fns);
        append_bytes(&mut buf, self.bits.as_slice());
        assert(buf@ =~= self@.encoded());
        buf
    }

    /// The length of the encoded filter.
    pub fn encoded_size(&self) -> (r: usize)
        requires
            self@.bits.len() + 9 <= usize::MAX,
        ensures
            r == self@.encoded().len(),
    {
        proof {
            lemma_le_roundtrip_u64(self.num_bits as nat);
        }
        8 + 1 + self.bits.len()
    }

    /// Decodes the filter that `data` starts with. `None` where `data` ends before it does.
    pub fn decode(data: &[u8]) -> (r: Option<Self>)
        ensures
            match r {
                Some(f) => decoded_filter(data@) == Some(f@) && f@.exact(),
                None => decoded_filter(data@) is None,
            },
    {
        if data.len() < 9 {
            return None;
        }
        let num_bits = decode_u64(&data[0..8]);
        assert(data@.subrange(0, 8).subrange(0, 8) =~= data@.subrange(0, 8));
        let num_hash_fns = data[8];
        let byte_count = bytes_for(num_bits);
        if (data.len() as u64) < 9 + byte_count {
            return None;
        }
        let bits = slice_to_vec(&data[9..9 + byte_count as usize]);
        Some(BloomFilter { bits, num_bits, num_hash_fns })
    }

    pub fn num_bits(&self) -> (r: u64)
        ensures
            r == self@.num_bits,
    {
        self.num_bits
    }

    pub fn num_hash_fns(&self) -> (r: u8)
        ensures
            r == self@.num_hash_fns,
    {
        self.num_hash_fns
    }

    /// Two hashes of `key`.
    fn hash_pair(&self, key: &[u8]) -> (r: (u64, u64))
        ensures
            r.0 == hash1(key@),
            r.1 == hash2(key@),
    {
        let mut h1: u64 = 0xcbf29ce484222325;
        let mut h2: u64 = 0x9e3779b97f4a7c15;
        let mut i: usize = 0;
        assert(key@.take(0) =~= Seq::empty());
        while i < key.len()
            invariant
                i <= key@.len(),
                h1 == hash1(key@.take(i as int)),
                h2 == hash2(key@.take(i as int)),
            decreases key@.len() - i,
        {
            let b = key[i];
            assert(key@.take(i + 1).drop_last() =~= key@.take(i as int));
            assert(key@.take(i + 1).last() == b);
            h1 = (h1 ^ b as u64).wrapping_mul(0x100000001b3);
            h2 = (h2 ^ b as u64).wrapping_mul(0x517cc1b727220a95);
            i = i + 1;
        }
        assert(key@.take(i as int) =~= key@);
        (h1, h2)
    }

    /// The `i`-th position.
    fn probe(&self, h1: u64, h2: u64, i: u64) -> (r: u64)
        requires
            self@.num_bits > 0,
        ensures
            r == position(h1, h2, i, self@.num_bits),
            r < self@.num_bits,
    {
        h1.wrapping_add(i.wrapping_mul(h2)) % self.num_bits
    }

    fn set_bit(&mut self, pos: u64)
        requires
            pos < 8 * old(self)@.bits.len(),
        ensures
            final(self)@.num_bits == old(self)@.num_bits,
            final(self)@.num_hash_fns == old(self)@.num_hash_fns,
            final(self)@.bits.len() == old(self)@.bits.len(),
            forall|p: nat|
                p < 8 * old(self)@.bits.len() ==> (#[trigger] bit_set(final(self)@.bits, p) <==> (p
                    == pos || bit_set(old(self)@.bits, p))),
    {
        assert(pos / 8 < self.bits.len());
        let byte = (pos / 8) as usize;
        let bit = (pos % 8) as u8;
        let ghost before = self.bits@;
        let b = self.bits[byte];
        self.bits[byte] = b | (1u8 << bit);
        proof {
            assert forall|p: nat| p < 8 * before.len() implies (#[trigger] bit_set(self.bits@, p)
                <==> (p == pos || bit_set(before, p))) by {
                if p / 8 == byte {
                    lemma_set_bit(b, bit, (p % 8) as u8);
                    assert(p == pos <==> p % 8 == bit);
                }
            }
        }
    }

    fn get_bit(&self, pos: u64) -> (r: bool)
        requires
            pos < 8 * self@.bits.len(),
        ensures
            r == bit_set(self@.bits, pos as nat),
    {
        assert(pos / 8 < self.bits.len());
        let byte = (pos / 8) as usize;
        let bit = (pos % 8) as u8;
        (self.bits[byte] >> bit) & 1 == 1
    }
}

} // verus!
