//! A map from keys to values, kept as a sorted sequence.

use vstd::prelude::*;

use crate::format::{EntryView, value_bytes};
use crate::memtable::MemValue;
use crate::model::{
    Layer, layer_of, lemma_layer_holds, lemma_layer_is, lemma_layer_key_written, lemma_sorted_index,
    lemma_sorted_subrange, lemma_total_size_insert, lemma_total_size_update, restricted, sorted,
    total_size,
};
use crate::order::{
    KeyOrder, key_le, key_lt, lemma_key_lt_excludes, lemma_key_lt_irreflexive,
    lemma_key_lt_transitive, order_keys,
};

verus! {

/// A key with its value.
pub type Entry = (Vec<u8>, MemValue);

/// What an entry says.
pub open spec fn entry_view(e: Entry) -> EntryView {
    (e.0@, e.1@)
}

/// What a sequence of entries says.
pub open spec fn entries_view(s: Seq<Entry>) -> Seq<EntryView> {
    Seq::new(s.len(), |i: int| entry_view(s[i]))
}

/// A map from keys to values, in the order of the keys.
pub struct SortedEntries {
    entries: Vec<Entry>,
}

impl View for SortedEntries {
    type V = Layer;

    open spec fn view(&self) -> Layer {
        layer_of(self.items())
    }
}

impl SortedEntries {
    /// The entries in order.
    pub closed spec fn items(&self) -> Seq<EntryView> {
        entries_view(self.entries@)
    }

    /// Keys strictly increase.
    pub open spec fn wf(&self) -> bool {
        sorted(self.items())
    }

    pub fn new() -> (r: Self)
        ensures
            r.wf(),
            r.items() == Seq::<EntryView>::empty(),
            r@ == Map::<Seq<u8>, Option<Seq<u8>>>::empty(),
    {
        let r = SortedEntries { entries: Vec::new() };
        assert(r.items() =~= Seq::<EntryView>::empty());
        r
    }

    pub fn len(&self) -> (r: usize)
        ensures
            r == self.items().len(),
    {
        self.entries.len()
    }

    /// Where `key` stands, or where it would: every key before that place is smaller, and every key
    /// from there on is greater or the key itself.
    fn search(&self, key: &[u8]) -> (r: (bool, usize))
        requires
            self.wf(),
        ensures
            r.1 <= self.items().len(),
            forall|i: int| 0 <= i < r.1 ==> key_lt(#[trigger] self.items()[i].0, key@),
            r.0 ==> r.1 < self.items().len() && self.items()[r.1 as int].0 == key@,
            !r.0 ==> forall|i: int|
                r.1 <= i < self.items().len() ==> key_lt(key@, #[trigger] self.items()[i].0),
    {
        let ghost es = self.items();
        let mut lo: usize = 0;
        let mut hi: usize = self.entries.len();
        while lo < hi
            invariant
                es == self.items(),
                sorted(es),
                lo <= hi <= es.len(),
                forall|i: int| 0 <= i < lo ==> key_lt(#[trigger] es[i].0, key@),
                forall|i: int| hi <= i < es.len() ==> key_lt(key@, #[trigger] es[i].0),
            decreases hi - lo,
        {
            let mid = lo + (hi - lo) / 2;
            match order_keys(self.entries[mid].0.as_slice(), key) {
                KeyOrder::Same => {
                    proof {
                        assert(es[mid as int].0 == key@);
                        assert forall|i: int| 0 <= i < mid implies key_lt(
                            #[trigger] es[i].0,
                            key@,
                        ) by {
                            assert(key_lt(es[i].0, es[mid as int].0));
                        }
                    }
                    return (true, mid);
                },
                KeyOrder::Before => {
                    proof {
                        assert forall|i: int| 0 <= i < mid + 1 implies key_lt(
                            #[trigger] es[i].0,
                            key@,
                        ) by {
                            assert(key_lt(es[mid as int].0, key@));
                            if i < mid {
                                assert(key_lt(es[i].0, es[mid as int].0));
                                lemma_key_lt_transitive(es[i].0, es[mid as int].0, key@);
                            }
                        }
                    }
                    lo = mid + 1;
                },
                KeyOrder::After => {
                    proof {
                        assert forall|i: int| mid <= i < es.len() implies key_lt(
                            key@,
                            #[trigger] es[i].0,
                        ) by {
                            assert(key_lt(key@, es[mid as int].0));
                            if mid < i {
                                assert(key_lt(es[mid as int].0, es[i].0));
                                lemma_key_lt_transitive(key@, es[mid as int].0, es[i].0);
                            }
                        }
                    }
                    hi = mid;
                },
            }
        }
        (false, lo)
    }

    /// The value of `key`, if it has one.
    pub fn get(&self, key: &[u8]) -> (r: Option<&MemValue>)
        requires
            self.wf(),
        ensures
            match r {
                Some(v) => self@.contains_key(key@) && v@ == self@[key@],
                None => !self@.contains_key(key@),
            },
    {
        let (found, i) = self.search(key);
        let ghost es = self.items();
        if found {
            proof {
                lemma_layer_holds(es, i as int);
            }
            Some(&self.entries[i].1)
        } else {
            proof {
                if self@.contains_key(key@) {
                    lemma_layer_key_written(es, key@);
                    let j = choose|j: int| 0 <= j < es.len() && #[trigger] es[j].0 == key@;
                    lemma_key_lt_irreflexive(key@);
                    assert(false);
                }
            }
            None
        }
    }

    /// Sets the value of `key`, replacing the one it had.
    pub fn insert(&mut self, key: Vec<u8>, value: MemValue)
        requires
            old(self).wf(),
        ensures
            final(self).wf(),
            final(self)@ == old(self)@.insert(key@, value@),
            !old(self)@.contains_key(key@) ==> total_size(final(self).items()) == total_size(
                old(self).items(),
            ) + key@.len() + value_bytes(value@).len(),
            old(self)@.contains_key(key@) ==> total_size(final(self).items()) == total_size(
                old(self).items(),
            ) - value_bytes(old(self)@[key@]).len() + value_bytes(
                value@,
            ).len(),
            old(self)@.contains_key(key@) ==> total_size(old(self).items()) >= key@.len()
                + value_bytes(old(self)@[key@]).len(),
    {
        let ghost es = self.items();
        let ghost e = (key@, value@);
        let (found, i) = self.search(key.as_slice());
        if found {
            self.entries[i] = (key, value);
            proof {
                let now = es.update(i as int, e);
                assert(self.items() =~= now);
                assert forall|a: int, b: int| 0 <= a < b < now.len() implies key_lt(
                    #[trigger] now[a].0,
                    #[trigger] now[b].0,
                ) by {
                    assert(key_lt(es[a].0, es[b].0));
                }
                lemma_layer_holds(es, i as int);
                lemma_total_size_update(es, i as int, e);
                lemma_put(es, now, i as int, e);
            }
        } else {
            self.entries.insert(i, (key, value));
            proof {
                let now = es.insert(i as int, e);
                assert(self.items() =~= now);
                assert forall|a: int, b: int| 0 <= a < b < now.len() implies key_lt(
                    #[trigger] now[a].0,
                    #[trigger] now[b].0,
                ) by {
                    let x = if a < i { a } else { a - 1 };
                    let y = if b < i { b } else { b - 1 };
                    if a != i && b != i {
                        assert(key_lt(es[x].0, es[y].0));
                    } else if a == i {
                        assert(key_lt(key@, es[y].0));
                    } else {
                        assert(key_lt(es[x].0, key@));
                    }
                }
                lemma_total_size_insert(es, i as int, e);
                assert(!old(self)@.contains_key(key@)) by {
                    if old(self)@.contains_key(key@) {
                        lemma_layer_key_written(es, key@);
                        let j = choose|j: int| 0 <= j < es.len() && #[trigger] es[j].0 == key@;
                        lemma_key_lt_irreflexive(key@);
                    }
                }
                lemma_put(es, now, i as int, e);
            }
        }
    }

    /// The entries whose keys lie from `start` up to but not including `end`, in order. Only where
    /// there is nothing may the range be reversed.
    pub fn range(&self, start: &[u8], end: &[u8]) -> (r: &[Entry])
        requires
            self.wf(),
            self@ != Map::<Seq<u8>, Option<Seq<u8>>>::empty() ==> key_le(start@, end@),
        ensures
            sorted(entries_view(r@)),
            layer_of(entries_view(r@)) == restricted(self@, start@, Some(end@)),
    {
        let ghost es = self.items();
        let (_, lo) = self.search(start);
        let (_, hi) = self.search(end);
        proof {
            if hi < lo {
                // The key at `hi` lies before `start`, so before `end`; yet it does not.
                assert(key_lt(es[hi as int].0, start@));
                lemma_layer_holds(es, hi as int);
                if start@ != end@ {
                    lemma_key_lt_transitive(es[hi as int].0, start@, end@);
                }
                assert(key_le(end@, es[hi as int].0));
                lemma_key_lt_excludes(es[hi as int].0, end@);
                assert(false);
            }
        }
        let r = &self.entries.as_slice()[lo..hi];
        proof {
            let part = es.subrange(lo as int, hi as int);
            assert(entries_view(r@) =~= part);
            lemma_sorted_subrange(es, lo as int, hi as int);
            let m = restricted(self@, start@, Some(end@));
            assert forall|i: int| 0 <= i < part.len() implies m.contains_key(#[trigger] part[i].0)
                && m[part[i].0] == part[i].1 by {
                let j = lo + i;
                lemma_layer_holds(es, j);
                assert(part[i] == es[j]);
                assert(key_lt(es[j].0, end@));
                assert(key_le(start@, es[j].0)) by {
                    if es[lo as int].0 == start@ && lo < j {
                        assert(key_lt(es[lo as int].0, es[j].0));
                    }
                }
            }
            assert forall|k: Seq<u8>| #[trigger] m.contains_key(k) implies exists|i: int|
                0 <= i < part.len() && #[trigger] part[i].0 == k by {
                lemma_layer_key_written(es, k);
                let j = choose|j: int| 0 <= j < es.len() && #[trigger] es[j].0 == k;
                if j < lo {
                    assert(key_lt(es[j].0, start@));
                    lemma_key_lt_excludes(k, start@);
                }
                if hi <= j {
                    lemma_key_lt_excludes(k, end@);
                    if es[hi as int].0 == end@ && hi < j {
                        assert(key_lt(es[hi as int].0, es[j].0));
                    }
                    assert(false);
                }
                assert(part[j - lo].0 == k);
            }
            lemma_layer_is(part, m);
        }
        r
    }

    /// All entries in order.
    pub fn into_entries(self) -> (r: Vec<Entry>)
        ensures
            entries_view(r@) == self.items(),
    {
        self.entries
    }
}

/// Setting the entry of `e`'s key sets its value in the layer.
proof fn lemma_put(es: Seq<EntryView>, now: Seq<EntryView>, i: int, e: EntryView)
    requires
        sorted(es),
        sorted(now),
        0 <= i < now.len(),
        (now == es.insert(i, e) && i <= es.len()) || (now == es.update(i, e) && i < es.len() && es[i].0
            == e.0),
    ensures
        layer_of(now) == layer_of(es).insert(e.0, e.1),
{
    let m = layer_of(es).insert(e.0, e.1);
    assert(now[i] == e);
    assert forall|a: int| 0 <= a < now.len() implies m.contains_key(#[trigger] now[a].0) && m[now[a].0]
        == now[a].1 by {
        if a != i {
            let x = if now == es.update(i, e) && i < es.len() && now.len() == es.len() {
                a
            } else if a < i {
                a
            } else {
                a - 1
            };
            assert(now[a] == es[x]);
            lemma_layer_holds(es, x);
            if now[a].0 == e.0 {
                lemma_sorted_index(now, a, i);
            }
        }
    }
    assert forall|k: Seq<u8>| #[trigger] m.contains_key(k) implies exists|a: int|
        0 <= a < now.len() && #[trigger] now[a].0 == k by {
        if k == e.0 {
            assert(now[i].0 == k);
        } else {
            assert(layer_of(es).contains_key(k));
            lemma_layer_key_written(es, k);
            let x = choose|x: int| 0 <= x < es.len() && #[trigger] es[x].0 == k;
            let a = if now.len() == es.len() {
                x
            } else if x < i {
                x
            } else {
                x + 1
            };
            assert(now[a].0 == k);
        }
    }
    lemma_layer_is(now, m);
}

} // verus!
