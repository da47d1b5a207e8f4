//! The order of keys: bytewise lexicographic, as `[u8]` compares.

use vstd::prelude::*;

verus! {

/// `a` and `b` agree on their first `n` bytes.
pub open spec fn agree_upto(a: Seq<u8>, b: Seq<u8>, n: int) -> bool {
    forall|j: int| 0 <= j < n ==> a[j] == b[j]
}

/// `a` and `b` part at position `i`, and `a` is the lesser there: either `a` ends, or its byte is
/// smaller.
pub open spec fn parts_below(a: Seq<u8>, b: Seq<u8>, i: int) -> bool {
    &&& 0 <= i <= a.len()
    &&& i < b.len()
    &&& agree_upto(a, b, i)
    &&& (i == a.len() || a[i] < b[i])
}

/// `a` stands strictly before `b`.
pub open spec fn key_lt(a: Seq<u8>, b: Seq<u8>) -> bool {
    exists|i: int| parts_below(a, b, i)
}

/// `a` stands before `b` or equals it.
pub open spec fn key_le(a: Seq<u8>, b: Seq<u8>) -> bool {
    a == b || key_lt(a, b)
}

/// How two keys stand to each other.
#[derive(Debug, Clone, Copy, PartialEq, Eq, Structural)]
pub enum KeyOrder {
    Before,
    Same,
    After,
}

/// Compares two keys.
pub fn order_keys(a: &[u8], b: &[u8]) -> (r: KeyOrder)
    ensures
        r == KeyOrder::Before <==> key_lt(a@, b@),
        r == KeyOrder::Same <==> a@ == b@,
        r == KeyOrder::After <==> key_lt(b@, a@),
{
    let mut i: usize = 0;
    while i < a.len() && i < b.len()
        invariant
            i <= a@.len(),
            i <= b@.len(),
            agree_upto(a@, b@, i as int),
        decreases a@.len() - i,
    {
        if a[i] < b[i] {
            proof {
                assert(parts_below(a@, b@, i as int));
                lemma_key_lt_excludes(a@, b@);
            }
            return KeyOrder::Before;
        }
        if b[i] < a[i] {
            proof {
                assert(parts_below(b@, a@, i as int));
                lemma_key_lt_excludes(b@, a@);
            }
            return KeyOrder::After;
        }
        i = i + 1;
    }
    if i < b.len() {
        proof {
            assert(parts_below(a@, b@, i as int));
            lemma_key_lt_excludes(a@, b@);
        }
        KeyOrder::Before
    } else if i < a.len() {
        proof {
            assert(parts_below(b@, a@, i as int));
            lemma_key_lt_excludes(b@, a@);
        }
        KeyOrder::After
    } else {
        proof {
            assert(a@ =~= b@);
            lemma_key_lt_irreflexive(a@);
        }
        KeyOrder::Same
    }
}

/// No key stands before itself.
pub proof fn lemma_key_lt_irreflexive(a: Seq<u8>)
    ensures
        !key_lt(a, a),
{
}

/// A key that stands before another differs from it and does not stand after it.
pub proof fn lemma_key_lt_excludes(a: Seq<u8>, b: Seq<u8>)
    requires
        key_lt(a, b),
    ensures
        a != b,
        !key_lt(b, a),
{
    let i = choose|i: int| parts_below(a, b, i);
    if key_lt(b, a) {
        let j = choose|j: int| parts_below(b, a, j);
        assert(false);
    }
}

/// The order is transitive.
pub proof fn lemma_key_lt_transitive(a: Seq<u8>, b: Seq<u8>, c: Seq<u8>)
    requires
        key_lt(a, b),
        key_lt(b, c),
    ensures
        key_lt(a, c),
{
    let i = choose|i: int| parts_below(a, b, i);
    let j = choose|j: int| parts_below(b, c, j);
    let k = if i <= j { i } else { j };
    assert(parts_below(a, c, k));
}

/// The order is total.
pub proof fn lemma_key_lt_total(a: Seq<u8>, b: Seq<u8>)
    ensures
        key_lt(a, b) || a == b || key_lt(b, a),
{
    lemma_first_difference(a, b, 0);
}

/// Bytes are compared as numbers: where two keys first differ, the one with the smaller byte stands
/// before the other, whatever follows.
pub proof fn the_smaller_byte_decides(p: Seq<u8>, x: u8, y: u8, s: Seq<u8>, t: Seq<u8>)
    requires
        x < y,
    ensures
        key_lt(p + seq![x] + s, p + seq![y] + t),
        !key_lt(p + seq![y] + t, p + seq![x] + s),
{
    let a = p + seq![x] + s;
    let b = p + seq![y] + t;
    assert(parts_below(a, b, p.len() as int));
    lemma_key_lt_excludes(a, b);
}

/// A key stands before every longer key that begins with it.
pub proof fn a_prefix_stands_first(p: Seq<u8>, t: Seq<u8>)
    requires
        t.len() > 0,
    ensures
        key_lt(p, p + t),
        !key_lt(p + t, p),
{
    assert(parts_below(p, p + t, p.len() as int));
    lemma_key_lt_excludes(p, p + t);
}

/// A key stands before another or equals it just where the other does not stand before it.
pub proof fn before_or_equal_is_not_after(a: Seq<u8>, b: Seq<u8>)
    ensures
        key_le(a, b) <==> !key_lt(b, a),
        key_le(a, a),
{
    lemma_key_lt_total(a, b);
    lemma_key_lt_irreflexive(a);
    if key_lt(a, b) {
        lemma_key_lt_excludes(a, b);
    }
}

proof fn lemma_first_difference(a: Seq<u8>, b: Seq<u8>, i: int)
    requires
        0 <= i <= a.len(),
        i <= b.len(),
        agree_upto(a, b, i),
    ensures
        key_lt(a, b) || a == b || key_lt(b, a),
    decreases a.len() - i,
{
    if i == a.len() && i == b.len() {
        assert(a =~= b);
    } else if i == a.len() || (i < b.len() && a[i] < b[i]) {
        assert(parts_below(a, b, i));
    } else if i == b.len() || b[i] < a[i] {
        assert(parts_below(b, a, i));
    } else {
        lemma_first_difference(a, b, i + 1);
    }
}

} // verus!
