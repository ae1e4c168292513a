//! A map from a stream (sender and spatial layer) to a temporal layer.
use crate::ids::SessionId;

use vstd::prelude::*;

verus! {

/// A stream: the sender and its spatial layer.
pub type StreamKey = (SessionId, u32);

/// Streams are ordered by sender, then by spatial layer.
pub open spec fn key_less(a: StreamKey, b: StreamKey) -> bool {
    a.0 < b.0 || (a.0 == b.0 && a.1 < b.1)
}

/// The map that a list of entries stands for.
pub open spec fn map_of(entries: Seq<(StreamKey, u32)>) -> Map<StreamKey, u32>
    decreases entries.len(),
{
    if entries.len() == 0 {
        Map::empty()
    } else {
        map_of(entries.drop_last()).insert(entries.last().0, entries.last().1)
    }
}

/// The keys of `entries` ascend strictly.
pub open spec fn keys_ascend(entries: Seq<(StreamKey, u32)>) -> bool {
    forall|i: int, j: int|
        0 <= i < j < entries.len() ==> key_less(#[trigger] entries[i].0, #[trigger] entries[j].0)
}

/// A map from streams to temporal layers, kept as a list with ascending keys.
/// Equal maps are equal lists.
#[derive(Debug, PartialEq, Eq)]
pub struct LayerMap {
    entries: Vec<(StreamKey, u32)>,
}

impl View for LayerMap {
    type V = Map<StreamKey, u32>;

    closed spec fn view(&self) -> Map<StreamKey, u32> {
        map_of(self.entries@)
    }
}

/// An entry is in the map exactly if it is in the list.
pub proof fn lemma_map_of(entries: Seq<(StreamKey, u32)>)
    requires
        keys_ascend(entries),
    ensures
        forall|k: StreamKey| #[trigger]
            map_of(entries).contains_key(k) <==> exists|i: int|
                0 <= i < entries.len() && (#[trigger] entries[i]).0 == k,
        forall|i: int|
            0 <= i < entries.len() ==> map_of(entries)[(#[trigger] entries[i]).0] == entries[i].1,
        map_of(entries).dom().finite(),
        map_of(entries).dom().len() == entries.len(),
    decreases entries.len(),
{
    if entries.len() > 0 {
        let front = entries.drop_last();
        let last = entries.last();
        lemma_map_of(front);
        let m = map_of(entries);
        assert forall|k: StreamKey| #[trigger] m.contains_key(k) <==> exists|i: int|
            0 <= i < entries.len() && (#[trigger] entries[i]).0 == k by {
            if m.contains_key(k) {
                if k == last.0 {
                    assert(entries[entries.len() - 1].0 == k);
                } else {
                    assert(map_of(front).contains_key(k));
                    let i = choose|i: int| 0 <= i < front.len() && (#[trigger] front[i]).0 == k;
                    assert(entries[i].0 == k);
                }
            }
            if exists|i: int| 0 <= i < entries.len() && (#[trigger] entries[i]).0 == k {
                let i = choose|i: int| 0 <= i < entries.len() && (#[trigger] entries[i]).0 == k;
                if i < front.len() {
                    assert(front[i].0 == k);
                    assert(map_of(front).contains_key(k));
                }
            }
        }
        assert(!map_of(front).contains_key(last.0)) by {
            if map_of(front).contains_key(last.0) {
                let i = choose|i: int|
                    0 <= i < front.len() && (#[trigger] front[i]).0 == last.0;
                assert(key_less(entries[i].0, entries[entries.len() - 1].0));
            }
        }
        assert forall|i: int| 0 <= i < entries.len() implies m[(#[trigger] entries[i]).0]
            == entries[i].1 by {
            if i < front.len() {
                assert(front[i] == entries[i]);
                assert(map_of(front).contains_key(front[i].0));
            }
        }
        assert(m.dom() =~= map_of(front).dom().insert(last.0));
    } else {
        assert(map_of(entries).dom() =~= Set::empty());
    }
}

impl LayerMap {
    /// The entries in ascending order of their keys.
    pub closed spec fn listing(&self) -> Seq<(StreamKey, u32)> {
        self.entries@
    }

    /// The list is in order.
    pub closed spec fn wf(&self) -> bool {
        keys_ascend(self.entries@)
    }

    /// What the listing is to the map.
    pub proof fn lemma_listing(&self)
        requires
            self.wf(),
        ensures
            keys_ascend(self.listing()),
            self@ == map_of(self.listing()),
            forall|k: StreamKey| #[trigger]
                self@.contains_key(k) <==> exists|i: int|
                    0 <= i < self.listing().len() && (#[trigger] self.listing()[i]).0 == k,
            forall|i: int|
                0 <= i < self.listing().len() ==> self@[(#[trigger] self.listing()[i]).0]
                    == self.listing()[i].1,
            self@.dom().finite(),
            self@.dom().len() == self.listing().len(),
    {
        lemma_map_of(self.listing());
    }

    /// The empty map.
    pub fn new() -> (r: Self)
        ensures
            r.wf(),
            r@ == Map::<StreamKey, u32>::empty(),
    {
        LayerMap { entries: Vec::new() }
    }

    /// Number of streams in the map.
    pub fn len(&self) -> (n: usize)
        requires
            self.wf(),
        ensures
            n == self@.dom().len(),
            n == self.listing().len(),
    {
        proof {
            self.lemma_listing();
        }
        self.entries.len()
    }

    /// Whether the map holds no stream.
    pub fn is_empty(&self) -> (r: bool)
        requires
            self.wf(),
        ensures
            r == (self@ == Map::<StreamKey, u32>::empty()),
    {
        proof {
            self.lemma_listing();
            if self.entries@.len() == 0 {
                assert(self@ =~= Map::<StreamKey, u32>::empty());
            } else {
                assert(self@.contains_key(self.entries@[0].0));
            }
        }
        self.entries.len() == 0
    }

    /// The `i`th entry by ascending key.
    pub fn entry_at(&self, i: usize) -> (r: (StreamKey, u32))
        requires
            i < self.listing().len(),
        ensures
            r == self.listing()[i as int],
    {
        self.entries[i]
    }

    /// The first position whose key is not below `key`.
    fn position(&self, key: StreamKey) -> (i: usize)
        requires
            self.wf(),
        ensures
            i <= self.entries@.len(),
            forall|k: int| 0 <= k < i ==> key_less((#[trigger] self.entries@[k]).0, key),
            forall|k: int|
                i <= k < self.entries@.len() ==> (#[trigger] self.entries@[k]).0 == key || key_less(
                    key,
                    self.entries@[k].0,
                ),
    {
        let mut i: usize = 0;
        while i < self.entries.len()
            invariant
                i <= self.entries@.len(),
                keys_ascend(self.entries@),
                forall|k: int| 0 <= k < i ==> key_less((#[trigger] self.entries@[k]).0, key),
            decreases self.entries@.len() - i,
        {
            let k: StreamKey = self.entries[i].0;
            if k.0 < key.0 || (k.0 == key.0 && k.1 < key.1) {
                i = i + 1;
            } else {
                proof {
                    assert forall|k: int| i <= k < self.entries@.len() implies (
                    #[trigger] self.entries@[k]).0 == key || key_less(key, self.entries@[k].0) by {
                        if k > i {
                            assert(key_less(self.entries@[i as int].0, self.entries@[k].0));
                        }
                    }
                }
                return i;
            }
        }
        i
    }

    /// The temporal layer of a stream, if the map holds it.
    pub fn get(&self, key: &StreamKey) -> (r: Option<u32>)
        requires
            self.wf(),
        ensures
            r == if self@.contains_key(*key) {
                Some(self@[*key])
            } else {
                None
            },
    {
        let i: usize = self.position(*key);
        proof {
            self.lemma_listing();
            if self@.contains_key(*key) {
                let k = choose|k: int|
                    0 <= k < self.entries@.len() && (#[trigger] self.entries@[k]).0 == *key;
                if k > i {
                    assert(key_less(self.entries@[i as int].0, self.entries@[k].0));
                }
                assert(k == i);
            }
        }
        if i < self.entries.len() && self.entries[i].0.0 == key.0 && self.entries[i].0.1 == key.1 {
            proof {
                assert(self.entries@[i as int].0 == *key);
            }
            Some(self.entries[i].1)
        } else {
            None
        }
    }

    /// Whether the map holds a stream.
    pub fn contains_key(&self, key: &StreamKey) -> (r: bool)
        requires
            self.wf(),
        ensures
            r == self@.contains_key(*key),
    {
        self.get(key).is_some()
    }

    /// Maps a stream to a temporal layer.
    pub fn insert(&mut self, key: StreamKey, temporal: u32)
        requires
            old(self).wf(),
        ensures
            final(self).wf(),
            final(self)@ == old(self)@.insert(key, temporal),
    {
        let i: usize = self.position(key);
        let ghost before = self.entries@;
        proof {
            lemma_map_of(before);
        }
        if i < self.entries.len() && self.entries[i].0.0 == key.0 && self.entries[i].0.1 == key.1 {
            self.entries.set(i, (key, temporal));
            proof {
                let after = self.entries@;
                assert(before[i as int].0 == key);
                assert forall|a: int, b: int| 0 <= a < b < after.len() implies key_less(
                    #[trigger] after[a].0,
                    #[trigger] after[b].0,
                ) by {
                    assert(key_less(before[a].0, before[b].0));
                }
                lemma_map_of(after);
                let m = map_of(before).insert(key, temporal);
                assert forall|k: StreamKey| map_of(after).contains_key(k) <==> m.contains_key(
                    k,
                ) by {
                    if map_of(after).contains_key(k) {
                        let a = choose|a: int|
                            0 <= a < after.len() && (#[trigger] after[a]).0 == k;
                        assert(before[a].0 == k);
                    }
                    if map_of(before).contains_key(k) {
                        let a = choose|a: int|
                            0 <= a < before.len() && (#[trigger] before[a]).0 == k;
                        assert(after[a].0 == k);
                    }
                    if k == key {
                        assert(after[i as int].0 == k);
                    }
                }
                assert forall|k: StreamKey| map_of(after).contains_key(k) implies map_of(after)[k]
                    == m[k] by {
                    let a = choose|a: int| 0 <= a < after.len() && (#[trigger] after[a]).0 == k;
                    if a == i {
                        assert(map_of(after)[after[a].0] == temporal);
                    } else {
                        assert(before[a] == after[a]);
                        assert(map_of(before)[before[a].0] == before[a].1);
                        assert(k != key) by {
                            if a < i {
                                assert(key_less(before[a].0, before[i as int].0));
                            } else {
                                assert(key_less(before[i as int].0, before[a].0));
                            }
                        }
                    }
                }
                assert(map_of(after) =~= m);
            }
        } else {
            self.entries.insert(i, (key, temporal));
            proof {
                let after = self.entries@;
                assert(after == before.insert(i as int, (key, temporal)));
                assert forall|k: int| i <= k < before.len() implies key_less(
                    key,
                    (#[trigger] before[k]).0,
                ) by {
                    if before[k].0 == key {
                        if k > i {
                            assert(key_less(before[i as int].0, before[k].0));
                            assert(before[i as int].0 == key || key_less(
                                key,
                                before[i as int].0,
                            ));
                        }
                    }
                }
                assert forall|a: int, b: int| 0 <= a < b < after.len() implies key_less(
                    #[trigger] after[a].0,
                    #[trigger] after[b].0,
                ) by {
                    let x = if a < i {
                        a
                    } else {
                        a - 1
                    };
                    let y = if b < i {
                        b
                    } else {
                        b - 1
                    };
                    if a == i {
                        assert(after[b] == before[y]);
                    } else if b == i {
                        assert(after[a] == before[x]);
                    } else {
                        assert(after[a] == before[x]);
                        assert(after[b] == before[y]);
                        assert(key_less(before[x].0, before[y].0));
                    }
                }
                lemma_map_of(after);
                let m = map_of(before).insert(key, temporal);
                assert forall|k: StreamKey| map_of(after).contains_key(k) <==> m.contains_key(
                    k,
                ) by {
                    if map_of(after).contains_key(k) && k != key {
                        let a = choose|a: int|
                            0 <= a < after.len() && (#[trigger] after[a]).0 == k;
                        assert(before[if a < i {
                            a
                        } else {
                            a - 1
                        }].0 == k);
                    }
                    if map_of(before).contains_key(k) {
                        let a = choose|a: int|
                            0 <= a < before.len() && (#[trigger] before[a]).0 == k;
                        assert(after[if a < i {
                            a
                        } else {
                            a + 1
                        }].0 == k);
                    }
                    if k == key {
                        assert(after[i as int].0 == k);
                    }
                }
                assert forall|k: StreamKey| map_of(after).contains_key(k) implies map_of(after)[k]
                    == m[k] by {
                    let a = choose|a: int| 0 <= a < after.len() && (#[trigger] after[a]).0 == k;
                    assert(map_of(after)[after[a].0] == after[a].1);
                    if a != i {
                        let b = if a < i {
                            a
                        } else {
                            a - 1
                        };
                        assert(before[b] == after[a]);
                        assert(map_of(before)[before[b].0] == before[b].1);
                        assert(k != key);
                    }
                }
                assert(map_of(after) =~= m);
            }
        }
    }
}

impl Clone for LayerMap {
    fn clone(&self) -> (r: Self)
        ensures
            r@ == self@,
            r.wf() == self.wf(),
            r.listing() == self.listing(),
    {
        let mut entries: Vec<(StreamKey, u32)> = Vec::new();
        let mut i: usize = 0;
        while i < self.entries.len()
            invariant
                i <= self.entries@.len(),
                entries@ == self.entries@.take(i as int),
            decreases self.entries@.len() - i,
        {
            entries.push(self.entries[i]);
            proof {
                assert(entries@ =~= self.entries@.take(i + 1));
            }
            i = i + 1;
        }
        proof {
            assert(entries@ =~= self.entries@);
        }
        LayerMap { entries }
    }
}

} // verus!
