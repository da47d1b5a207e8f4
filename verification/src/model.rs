//! The mathematical model of stored data: sequences of writes, and the maps they build.

use vstd::prelude::*;

use crate::format::{EntryView, encodable, value_bytes};
use crate::order::{
    before_or_equal_is_not_after, key_le, key_lt, lemma_key_lt_excludes, lemma_key_lt_irreflexive,
};

verus! {

/// A layer of the store: each key it knows, with its value, or with `None` for a tombstone.
pub type Layer = Map<Seq<u8>, Option<Seq<u8>>>;

/// The layer `m` after the writes `es`, in order. A later write of a key replaces an earlier one.
pub open spec fn apply(m: Layer, es: Seq<EntryView>) -> Layer
    decreases es.len(),
{
    if es.len() == 0 {
        m
    } else {
        apply(m, es.drop_last()).insert(es.last().0, es.last().1)
    }
}

/// The layer that the writes `es` build.
pub open spec fn layer_of(es: Seq<EntryView>) -> Layer {
    apply(Map::empty(), es)
}

/// The keys of `es` strictly increase.
pub open spec fn sorted(es: Seq<EntryView>) -> bool {
    forall|i: int, j: int| 0 <= i < j < es.len() ==> key_lt(#[trigger] es[i].0, #[trigger] es[j].0)
}

/// Every write of `es` fits a record's length fields.
pub open spec fn all_encodable(es: Seq<EntryView>) -> bool {
    forall|i: int| 0 <= i < es.len() ==> encodable(#[trigger] es[i])
}

/// The bytes that a write of `key` costs.
pub open spec fn entry_size(e: EntryView) -> nat {
    e.0.len() + value_bytes(e.1).len()
}

/// The bytes of all keys and values in `es`.
pub open spec fn total_size(es: Seq<EntryView>) -> nat
    decreases es.len(),
{
    if es.len() == 0 {
        0
    } else {
        total_size(es.drop_last()) + entry_size(es.last())
    }
}

/// `key` lies from `start` up to but not including `end`. Without an `end` there is no upper bound.
pub open spec fn in_range(key: Seq<u8>, start: Seq<u8>, end: Option<Seq<u8>>) -> bool {
    &&& key_le(start, key)
    &&& end matches Some(e) ==> key_lt(key, e)
}

/// The part of `m` whose keys lie in the range.
pub open spec fn restricted(m: Layer, start: Seq<u8>, end: Option<Seq<u8>>) -> Layer {
    Map::new(|k: Seq<u8>| m.contains_key(k) && in_range(k, start, end), |k: Seq<u8>| m[k])
}

/// The files of the store, by name.
pub type Disk = Map<Seq<u8>, Seq<u8>>;

/// One layer laid over another: where both know a key, the newer decides.
pub open spec fn overlay(older: Layer, newer: Layer) -> Layer {
    older.union_prefer_right(newer)
}

/// All layers as one. The newest comes first.
pub open spec fn flatten(layers: Seq<Layer>) -> Layer
    decreases layers.len(),
{
    if layers.len() == 0 {
        Map::empty()
    } else {
        overlay(flatten(layers.drop_first()), layers[0])
    }
}

/// The live values of a layer.
pub open spec fn live(m: Layer) -> Map<Seq<u8>, Seq<u8>> {
    Map::new(|k: Seq<u8>| m.contains_key(k) && m[k] is Some, |k: Seq<u8>| m[k]->0)
}

/// A layer without its tombstones.
pub open spec fn without_tombstones(m: Layer) -> Layer {
    Map::new(|k: Seq<u8>| m.contains_key(k) && m[k] is Some, |k: Seq<u8>| m[k])
}

/// `pairs` lists the map `m` in the order of its keys.
pub open spec fn lists(pairs: Seq<(Seq<u8>, Seq<u8>)>, m: Map<Seq<u8>, Seq<u8>>) -> bool {
    &&& forall|i: int, j: int|
        0 <= i < j < pairs.len() ==> key_lt(#[trigger] pairs[i].0, #[trigger] pairs[j].0)
    &&& forall|i: int|
        0 <= i < pairs.len() ==> m.contains_key(#[trigger] pairs[i].0) && m[pairs[i].0]
            == pairs[i].1
    &&& forall|k: Seq<u8>| #[trigger]
        m.contains_key(k) ==> exists|i: int| 0 <= i < pairs.len() && #[trigger] pairs[i].0 == k
}

/// The part of a map whose keys lie in the range.
pub open spec fn within(
    m: Map<Seq<u8>, Seq<u8>>,
    start: Seq<u8>,
    end: Option<Seq<u8>>,
) -> Map<Seq<u8>, Seq<u8>> {
    Map::new(|k: Seq<u8>| m.contains_key(k) && in_range(k, start, end), |k: Seq<u8>| m[k])
}

// ---------------------------------------------------------------------------
// Laws of layers and ranges
// ---------------------------------------------------------------------------

/// Of all layers together, the newest that knows a key decides what is said of it.
pub proof fn the_newest_layer_decides(ls: Seq<Layer>, i: int, k: Seq<u8>)
    requires
        0 <= i < ls.len(),
        ls[i].contains_key(k),
        forall|j: int| 0 <= j < i ==> !(#[trigger] ls[j]).contains_key(k),
    ensures
        flatten(ls).contains_key(k),
        flatten(ls)[k] == ls[i][k],
    decreases ls.len(),
{
    if i > 0 {
        let rest = ls.drop_first();
        assert forall|j: int| 0 <= j < i - 1 implies !(#[trigger] rest[j]).contains_key(k) by {
            assert(rest[j] == ls[j + 1]);
        }
        the_newest_layer_decides(rest, i - 1, k);
        assert(!ls[0].contains_key(k));
    }
}

/// All layers together know no key that none of them knows.
pub proof fn layers_know_no_other_keys(ls: Seq<Layer>, k: Seq<u8>)
    requires
        forall|j: int| 0 <= j < ls.len() ==> !(#[trigger] ls[j]).contains_key(k),
    ensures
        !flatten(ls).contains_key(k),
    decreases ls.len(),
{
    if ls.len() > 0 {
        let rest = ls.drop_first();
        assert forall|j: int| 0 <= j < rest.len() implies !(#[trigger] rest[j]).contains_key(k) by {
            assert(rest[j] == ls[j + 1]);
        }
        layers_know_no_other_keys(rest, k);
        assert(!ls[0].contains_key(k));
    }
}

/// Of several writes of a key, the last decides.
pub proof fn the_last_write_decides(es: Seq<EntryView>, i: int)
    requires
        0 <= i < es.len(),
        forall|j: int| i < j < es.len() ==> (#[trigger] es[j]).0 != es[i].0,
    ensures
        layer_of(es).contains_key(es[i].0),
        layer_of(es)[es[i].0] == es[i].1,
    decreases es.len(),
{
    if i < es.len() - 1 {
        let front = es.drop_last();
        assert forall|j: int| i < j < front.len() implies (#[trigger] front[j]).0 != front[i].0 by {
            assert(front[j] == es[j]);
        }
        the_last_write_decides(front, i);
        assert(es.last().0 != es[i].0);
    }
}

/// A key that was not written is not known.
pub proof fn an_unwritten_key_is_unknown(es: Seq<EntryView>, k: Seq<u8>)
    requires
        forall|j: int| 0 <= j < es.len() ==> (#[trigger] es[j]).0 != k,
    ensures
        !layer_of(es).contains_key(k),
{
    if layer_of(es).contains_key(k) {
        lemma_layer_key_written(es, k);
    }
}

/// What is alive in a layer: the keys that have a value, each with that value, and no tombstone.
pub proof fn only_values_are_alive(m: Layer, k: Seq<u8>)
    ensures
        live(m).contains_key(k) <==> m.contains_key(k) && m[k] != None::<Seq<u8>>,
        live(m).contains_key(k) ==> m[k] == Some(live(m)[k]),
        without_tombstones(m).contains_key(k) <==> live(m).contains_key(k),
        live(m).contains_key(k) ==> without_tombstones(m)[k] == Some(live(m)[k]),
{
}

/// A range holds the keys that do not stand before its start and do stand before its end, with their
/// values: its start is in it, its end is not.
pub proof fn a_range_is_half_open(
    m: Map<Seq<u8>, Seq<u8>>,
    layer: Layer,
    start: Seq<u8>,
    end: Seq<u8>,
    k: Seq<u8>,
)
    ensures
        within(m, start, Some(end)).contains_key(k) <==> m.contains_key(k) && !key_lt(k, start)
            && key_lt(k, end),
        within(m, start, Some(end)).contains_key(k) ==> within(m, start, Some(end))[k] == m[k],
        restricted(layer, start, Some(end)).contains_key(k) <==> layer.contains_key(k) && !key_lt(
            k,
            start,
        ) && key_lt(k, end),
        restricted(layer, start, Some(end)).contains_key(k) ==> restricted(
            layer,
            start,
            Some(end),
        )[k] == layer[k],
        restricted(layer, start, None).contains_key(k) <==> layer.contains_key(k) && !key_lt(
            k,
            start,
        ),
        restricted(layer, start, None).contains_key(k) ==> restricted(layer, start, None)[k]
            == layer[k],
{
    before_or_equal_is_not_after(start, k);
}

/// The size of writes counts every byte of their keys and values.
pub proof fn sizes_count_every_byte(es: Seq<EntryView>, key: Seq<u8>, value: Seq<u8>)
    ensures
        total_size(Seq::empty()) == 0,
        total_size(es.push((key, Some(value)))) == total_size(es) + key.len() + value.len(),
        total_size(es.push((key, None))) == total_size(es) + key.len(),
{
    assert(es.push((key, Some(value))).drop_last() =~= es);
    assert(es.push((key, None)).drop_last() =~= es);
}

// ---------------------------------------------------------------------------
// Facts about layers
// ---------------------------------------------------------------------------

/// Layers can be flattened in parts.
pub proof fn lemma_flatten_concat(a: Seq<Layer>, b: Seq<Layer>)
    ensures
        flatten(a + b) == overlay(flatten(b), flatten(a)),
    decreases a.len(),
{
    if a.len() == 0 {
        assert(a + b =~= b);
        assert(overlay(flatten(b), flatten(a)) =~= flatten(b));
    } else {
        lemma_flatten_concat(a.drop_first(), b);
        assert((a + b).drop_first() =~= a.drop_first() + b);
        assert(flatten(a + b) =~= overlay(flatten(b), flatten(a)));
    }
}

/// A single layer flattens to itself.
pub proof fn lemma_flatten_one(m: Layer)
    ensures
        flatten(seq![m]) == m,
{
    assert(seq![m].drop_first() =~= Seq::empty());
    assert(flatten(Seq::<Layer>::empty()) =~= Map::empty());
    assert(flatten(seq![m]) =~= m);
}

/// The layers `b` can be replaced by the one that they flatten to.
pub proof fn merging_layers_keeps_all_entries(a: Seq<Layer>, b: Seq<Layer>)
    ensures
        flatten(a + seq![flatten(b)]) == flatten(a + b),
{
    lemma_flatten_concat(a, b);
    lemma_flatten_concat(a, seq![flatten(b)]);
    lemma_flatten_one(flatten(b));
}

/// In the oldest layer, tombstones can be dropped: every key reads as before.
pub proof fn dropping_oldest_tombstones_keeps_live_values(a: Seq<Layer>, m: Layer)
    ensures
        live(flatten(a + seq![without_tombstones(m)])) == live(flatten(a + seq![m])),
{
    lemma_flatten_concat(a, seq![m]);
    lemma_flatten_concat(a, seq![without_tombstones(m)]);
    lemma_flatten_one(m);
    lemma_flatten_one(without_tombstones(m));
    assert(live(flatten(a + seq![without_tombstones(m)])) =~= live(flatten(a + seq![m])));
}

/// Restricting to a range and overlaying can be exchanged.
pub proof fn lemma_restrict_overlay(older: Layer, newer: Layer, start: Seq<u8>, end: Option<Seq<u8>>)
    ensures
        restricted(overlay(older, newer), start, end) == overlay(
            restricted(older, start, end),
            restricted(newer, start, end),
        ),
{
    assert(restricted(overlay(older, newer), start, end) =~= overlay(
        restricted(older, start, end),
        restricted(newer, start, end),
    ));
}

/// The live values of a range.
pub proof fn lemma_live_restricted(m: Layer, start: Seq<u8>, end: Option<Seq<u8>>)
    ensures
        live(restricted(m, start, end)) == within(live(m), start, end),
{
    assert(live(restricted(m, start, end)) =~= within(live(m), start, end));
}

// ---------------------------------------------------------------------------
// Facts about writes
// ---------------------------------------------------------------------------

/// Applying writes to a layer overlays the layer that they build.
pub proof fn lemma_apply_is_overlay(m: Layer, es: Seq<EntryView>)
    ensures
        apply(m, es) == m.union_prefer_right(layer_of(es)),
    decreases es.len(),
{
    if es.len() == 0 {
        assert(apply(m, es) =~= m.union_prefer_right(layer_of(es)));
    } else {
        lemma_apply_is_overlay(m, es.drop_last());
        assert(apply(m, es) =~= m.union_prefer_right(layer_of(es)));
    }
}

/// A key of the layer was written.
pub proof fn lemma_layer_key_written(es: Seq<EntryView>, k: Seq<u8>)
    requires
        layer_of(es).contains_key(k),
    ensures
        exists|i: int| 0 <= i < es.len() && #[trigger] es[i].0 == k,
    decreases es.len(),
{
    if es.len() > 0 {
        if es.last().0 == k {
            assert(es[es.len() - 1].0 == k);
        } else {
            lemma_layer_key_written(es.drop_last(), k);
            let i = choose|i: int|
                0 <= i < es.drop_last().len() && #[trigger] es.drop_last()[i].0 == k;
            assert(es[i].0 == k);
        }
    }
}

/// Each entry of a sorted sequence stands in the layer that it builds.
pub proof fn lemma_layer_holds(es: Seq<EntryView>, i: int)
    requires
        sorted(es),
        0 <= i < es.len(),
    ensures
        layer_of(es).contains_key(es[i].0),
        layer_of(es)[es[i].0] == es[i].1,
    decreases es.len(),
{
    if i < es.len() - 1 {
        lemma_layer_holds(es.drop_last(), i);
        assert(es.drop_last()[i] == es[i]);
        assert(key_lt(es[i].0, es[es.len() - 1].0));
        lemma_key_lt_excludes(es[i].0, es.last().0);
    }
}

/// Keys are the positions of a sorted sequence.
pub proof fn lemma_sorted_index(es: Seq<EntryView>, i: int, j: int)
    requires
        sorted(es),
        0 <= i < es.len(),
        0 <= j < es.len(),
        es[i].0 == es[j].0,
    ensures
        i == j,
{
    lemma_key_lt_irreflexive(es[i].0);
}

/// A layer that holds exactly the entries of a sorted sequence is the one it builds.
pub proof fn lemma_layer_is(es: Seq<EntryView>, m: Layer)
    requires
        sorted(es),
        forall|i: int|
            0 <= i < es.len() ==> m.contains_key(#[trigger] es[i].0) && m[es[i].0] == es[i].1,
        forall|k: Seq<u8>| #[trigger]
            m.contains_key(k) ==> exists|i: int| 0 <= i < es.len() && #[trigger] es[i].0 == k,
    ensures
        layer_of(es) == m,
{
    assert forall|k: Seq<u8>| #[trigger] layer_of(es).dom().contains(k) implies m.dom().contains(k)
        && layer_of(es)[k] == m[k] by {
        lemma_layer_key_written(es, k);
        let i = choose|i: int| 0 <= i < es.len() && #[trigger] es[i].0 == k;
        lemma_layer_holds(es, i);
    }
    assert forall|k: Seq<u8>| #[trigger] m.dom().contains(k) implies layer_of(es).dom().contains(
        k,
    ) by {
        assert(m.contains_key(k));
        let i = choose|i: int| 0 <= i < es.len() && #[trigger] es[i].0 == k;
        lemma_layer_holds(es, i);
    }
    assert(layer_of(es) =~= m);
}

/// Two sorted sequences that build the same layer are the same sequence.
pub proof fn sorted_entries_are_unique(a: Seq<EntryView>, b: Seq<EntryView>)
    requires
        sorted(a),
        sorted(b),
        layer_of(a) == layer_of(b),
    ensures
        a == b,
    decreases a.len(),
{
    if a.len() == 0 {
        if b.len() > 0 {
            lemma_layer_holds(b, 0);
            lemma_layer_key_written(a, b[0].0);
        }
        assert(a =~= b);
    } else {
        lemma_layer_holds(a, a.len() - 1);
        lemma_layer_key_written(b, a.last().0);
        let i = choose|i: int| 0 <= i < b.len() && #[trigger] b[i].0 == a.last().0;
        lemma_layer_holds(b, b.len() - 1);
        lemma_layer_key_written(a, b.last().0);
        let j = choose|j: int| 0 <= j < a.len() && #[trigger] a[j].0 == b.last().0;
        if i < b.len() - 1 {
            assert(key_lt(b[i].0, b[b.len() - 1].0));
            lemma_key_lt_excludes(a.last().0, b.last().0);
            if j < a.len() - 1 {
                assert(key_lt(a[j].0, a[a.len() - 1].0));
            }
            assert(false);
        }
        lemma_layer_holds(b, i);
        assert(a.last() == b.last());
        let a1 = a.drop_last();
        let b1 = b.drop_last();
        lemma_layer_without_last(a);
        lemma_layer_without_last(b);
        sorted_entries_are_unique(a1, b1);
        assert(a =~= a1.push(a.last()));
        assert(b =~= b1.push(b.last()));
    }
}

proof fn lemma_layer_without_last(es: Seq<EntryView>)
    requires
        sorted(es),
        es.len() > 0,
    ensures
        sorted(es.drop_last()),
        layer_of(es.drop_last()) == layer_of(es).remove(es.last().0),
{
    let front = es.drop_last();
    assert forall|i: int, j: int| 0 <= i < j < front.len() implies key_lt(
        #[trigger] front[i].0,
        #[trigger] front[j].0,
    ) by {
        assert(key_lt(es[i].0, es[j].0));
    }
    if layer_of(front).contains_key(es.last().0) {
        lemma_layer_key_written(front, es.last().0);
        let i = choose|i: int| 0 <= i < front.len() && #[trigger] front[i].0 == es.last().0;
        assert(es[i].0 == es[es.len() - 1].0);
        lemma_sorted_index(es, i, es.len() - 1);
    }
    assert(layer_of(front) =~= layer_of(es).remove(es.last().0));
}

/// A sorted sequence has as many entries as its layer has keys.
pub proof fn lemma_layer_len(es: Seq<EntryView>)
    requires
        sorted(es),
    ensures
        layer_of(es).dom().finite(),
        layer_of(es).len() == es.len(),
    decreases es.len(),
{
    if es.len() > 0 {
        lemma_layer_without_last(es);
        lemma_layer_len(es.drop_last());
        lemma_layer_holds(es, es.len() - 1);
    } else {
        assert(layer_of(es) =~= Map::empty());
    }
}

/// The sizes of a prefix of writes grow by one write at a time up to the whole.
pub proof fn lemma_total_size_prefix(es: Seq<EntryView>, n: int)
    requires
        0 <= n < es.len(),
    ensures
        total_size(es.take(n + 1)) == total_size(es.take(n)) + entry_size(es[n]),
        total_size(es.take(n + 1)) <= total_size(es),
{
    assert(es.take(n + 1).drop_last() =~= es.take(n));
    assert(es =~= es.take(n + 1) + es.skip(n + 1));
    lemma_total_size_concat(es.take(n + 1), es.skip(n + 1));
}

/// Part of a sorted sequence is sorted.
pub proof fn lemma_sorted_subrange(es: Seq<EntryView>, lo: int, hi: int)
    requires
        sorted(es),
        0 <= lo <= hi <= es.len(),
    ensures
        sorted(es.subrange(lo, hi)),
{
    let part = es.subrange(lo, hi);
    assert forall|i: int, j: int| 0 <= i < j < part.len() implies key_lt(
        #[trigger] part[i].0,
        #[trigger] part[j].0,
    ) by {
        assert(key_lt(es[lo + i].0, es[lo + j].0));
    }
}

/// The size of two sequences together is the sum of their sizes.
pub proof fn lemma_total_size_concat(a: Seq<EntryView>, b: Seq<EntryView>)
    ensures
        total_size(a + b) == total_size(a) + total_size(b),
    decreases b.len(),
{
    if b.len() == 0 {
        assert(a + b =~= a);
    } else {
        lemma_total_size_concat(a, b.drop_last());
        assert((a + b).drop_last() =~= a + b.drop_last());
    }
}

/// The size of one entry.
pub proof fn lemma_total_size_one(e: EntryView)
    ensures
        total_size(seq![e]) == entry_size(e),
{
    assert(seq![e].drop_last() =~= Seq::empty());
    assert(total_size(Seq::<EntryView>::empty()) == 0);
}

/// Replacing an entry changes the size by the difference.
pub proof fn lemma_total_size_update(es: Seq<EntryView>, i: int, e: EntryView)
    requires
        0 <= i < es.len(),
    ensures
        total_size(es.update(i, e)) == total_size(es) - entry_size(es[i]) + entry_size(e),
        entry_size(es[i]) <= total_size(es),
{
    let a = es.take(i);
    let c = es.skip(i + 1);
    assert(es =~= a + seq![es[i]] + c);
    assert(es.update(i, e) =~= a + seq![e] + c);
    lemma_total_size_concat(a, seq![es[i]]);
    lemma_total_size_concat(a + seq![es[i]], c);
    lemma_total_size_concat(a, seq![e]);
    lemma_total_size_concat(a + seq![e], c);
    lemma_total_size_one(es[i]);
    lemma_total_size_one(e);
}

/// Inserting an entry adds its size.
pub proof fn lemma_total_size_insert(es: Seq<EntryView>, i: int, e: EntryView)
    requires
        0 <= i <= es.len(),
    ensures
        total_size(es.insert(i, e)) == total_size(es) + entry_size(e),
{
    let a = es.take(i);
    let c = es.skip(i);
    assert(es =~= a + c);
    assert(es.insert(i, e) =~= a + seq![e] + c);
    lemma_total_size_concat(a, c);
    lemma_total_size_concat(a, seq![e]);
    lemma_total_size_concat(a + seq![e], c);
    lemma_total_size_one(e);
}

} // verus!
