//! A small map from peers to values.

use vstd::prelude::*;

use crate::identity::PeerId;

verus! {

/// A map from peers to values.
pub struct PeerTable<V> {
    entries: Vec<(PeerId, V)>,
}

/// Whether no key occurs twice.
spec fn keys_distinct<V>(entries: Seq<(PeerId, V)>) -> bool {
    forall|i: int, j: int|
        0 <= i < j < entries.len() ==> (#[trigger] entries[i]).0 != (#[trigger] entries[j]).0
}

spec fn map_of<V>(entries: Seq<(PeerId, V)>) -> Map<PeerId, V>
    decreases entries.len(),
{
    if entries.len() == 0 {
        Map::empty()
    } else {
        map_of(entries.drop_last()).insert(entries.last().0, entries.last().1)
    }
}

proof fn lemma_map<V>(entries: Seq<(PeerId, V)>)
    requires
        keys_distinct(entries),
    ensures
        map_of(entries).dom().finite(),
        map_of(entries).dom().len() == entries.len(),
        forall|k: PeerId| #[trigger]
            map_of(entries).contains_key(k) ==> exists|i: int|
                0 <= i < entries.len() && (#[trigger] entries[i]).0 == k,
        forall|i: int|
            0 <= i < entries.len() ==> map_of(entries).contains_key((#[trigger] entries[i]).0)
                && map_of(entries)[entries[i].0] == entries[i].1,
    decreases entries.len(),
{
    if entries.len() > 0 {
        let front = entries.drop_last();
        lemma_map(front);
        assert forall|i: int| 0 <= i < entries.len() implies map_of(entries).contains_key(
            (#[trigger] entries[i]).0,
        ) && map_of(entries)[entries[i].0] == entries[i].1 by {
            if i < entries.len() - 1 {
                assert(front[i] == entries[i]);
            }
        }
        assert(!map_of(front).contains_key(entries.last().0)) by {
            if map_of(front).contains_key(entries.last().0) {
                let i = choose|i: int|
                    0 <= i < front.len() && (#[trigger] front[i]).0 == entries.last().0;
                assert(entries[i].0 == entries[entries.len() - 1].0);
            }
        }
        assert forall|k: PeerId| #[trigger] map_of(entries).contains_key(k) implies exists|i: int|
            0 <= i < entries.len() && (#[trigger] entries[i]).0 == k by {
            if k == entries.last().0 {
                assert(entries[entries.len() - 1].0 == k);
            } else {
                assert(map_of(front).contains_key(k));
                let i = choose|i: int| 0 <= i < front.len() && (#[trigger] front[i]).0 == k;
                assert(entries[i].0 == k);
            }
        }
    }
}

impl<V> View for PeerTable<V> {
    type V = Map<PeerId, V>;

    closed spec fn view(&self) -> Map<PeerId, V> {
        map_of(self.entries@)
    }
}

impl<V: Copy> PeerTable<V> {
    /// Whether no key occurs twice.
    pub closed spec fn wf(&self) -> bool {
        keys_distinct(self.entries@)
    }

    /// An empty map.
    pub fn new() -> (r: PeerTable<V>)
        ensures
            r.wf(),
            r@ == Map::<PeerId, V>::empty(),
    {
        PeerTable { entries: Vec::new() }
    }

    /// How many peers have a value.
    pub fn len(&self) -> (r: usize)
        requires
            self.wf(),
        ensures
            self@.dom().finite(),
            r == self@.dom().len(),
    {
        proof {
            lemma_map(self.entries@);
        }
        self.entries.len()
    }

    fn find(&self, peer: &PeerId) -> (r: Option<usize>)
        requires
            self.wf(),
        ensures
            r is Some <==> self@.contains_key(*peer),
            r matches Some(i) ==> i < self.entries@.len() && self.entries@[i as int].0 == *peer
                && self.entries@[i as int].1 == self@[*peer],
    {
        proof {
            lemma_map(self.entries@);
        }
        let mut i: usize = 0;
        while i < self.entries.len()
            invariant
                self.wf(),
                i <= self.entries@.len(),
                forall|j: int| 0 <= j < i ==> (#[trigger] self.entries@[j]).0 != *peer,
            decreases self.entries@.len() - i,
        {
            if self.entries[i].0.same(peer) {
                proof {
                    lemma_map(self.entries@);
                    assert(self.entries@[i as int].0 == *peer);
                }
                return Some(i);
            }
            i = i + 1;
        }
        None
    }

    /// The value of a peer.
    pub fn get(&self, peer: &PeerId) -> (r: Option<V>)
        requires
            self.wf(),
        ensures
            r is Some <==> self@.contains_key(*peer),
            r matches Some(v) ==> v == self@[*peer],
    {
        match self.find(peer) {
            Some(i) => Some(self.entries[i].1),
            None => None,
        }
    }

    /// Gives a peer a value.
    pub fn insert(&mut self, peer: PeerId, value: V)
        requires
            old(self).wf(),
        ensures
            final(self).wf(),
            final(self)@ == old(self)@.insert(peer, value),
    {
        let ghost before = self.entries@;
        match self.find(&peer) {
            Some(i) => {
                self.entries.set(i, (peer, value));
                proof {
                    let after = self.entries@;
                    assert(forall|j: int| 0 <= j < after.len() ==> (#[trigger] after[j]).0 == before[j].0);
                    lemma_map(before);
                    lemma_map(after);
                    assert forall|k: PeerId| #[trigger] map_of(after).contains_key(k) <==> map_of(
                        before,
                    ).insert(peer, value).contains_key(k) by {
                        if map_of(after).contains_key(k) {
                            let j = choose|j: int|
                                0 <= j < after.len() && (#[trigger] after[j]).0 == k;
                            assert(before[j].0 == k);
                        }
                        if map_of(before).contains_key(k) {
                            let j = choose|j: int|
                                0 <= j < before.len() && (#[trigger] before[j]).0 == k;
                            assert(after[j].0 == k);
                        }
                    }
                    assert forall|k: PeerId| map_of(after).contains_key(k) implies #[trigger] map_of(
                        after,
                    )[k] == map_of(before).insert(peer, value)[k] by {
                        let j = choose|j: int| 0 <= j < after.len() && (#[trigger] after[j]).0 == k;
                        assert(before[j].0 == k);
                        if j != i {
                            assert(after[j] == before[j]);
                            assert(k != peer);
                        }
                    }
                    assert(map_of(after) =~= map_of(before).insert(peer, value));
                }
            },
            None => {
                self.entries.push((peer, value));
                proof {
                    lemma_map(before);
                    assert(self.entries@.drop_last() =~= before);
                    assert forall|j: int, k: int|
                        0 <= j < k < self.entries@.len() implies (#[trigger] self.entries@[j]).0 != (
                    #[trigger] self.entries@[k]).0 by {
                        assert(self.entries@[j] == before[j]);
                        if k < before.len() {
                            assert(self.entries@[k] == before[k]);
                        } else {
                            assert(map_of(before).contains_key(before[j].0));
                        }
                    }
                }
            },
        }
    }

    /// Takes a peer's value away.
    pub fn remove(&mut self, peer: &PeerId) -> (r: Option<V>)
        requires
            old(self).wf(),
        ensures
            final(self).wf(),
            final(self)@ == old(self)@.remove(*peer),
            r is Some <==> old(self)@.contains_key(*peer),
            r matches Some(v) ==> v == old(self)@[*peer],
    {
        let ghost before = self.entries@;
        match self.find(peer) {
            Some(i) => {
                let (_, value) = self.entries.remove(i);
                proof {
                    let after = self.entries@;
                    assert forall|j: int| 0 <= j < after.len() implies #[trigger] after[j]
                        == before[if j < i {
                        j
                    } else {
                        j + 1
                    }] by {}
                    lemma_map(before);
                    lemma_map(after);
                    assert forall|k: PeerId| #[trigger] map_of(after).contains_key(k) <==> map_of(
                        before,
                    ).remove(*peer).contains_key(k) by {
                        if map_of(after).contains_key(k) {
                            let j = choose|j: int|
                                0 <= j < after.len() && (#[trigger] after[j]).0 == k;
                            assert(before[if j < i {
                                j
                            } else {
                                j + 1
                            }].0 == k);
                        }
                        if map_of(before).contains_key(k) && k != *peer {
                            let j = choose|j: int|
                                0 <= j < before.len() && (#[trigger] before[j]).0 == k;
                            assert(after[if j < i {
                                j
                            } else {
                                j - 1
                            }].0 == k);
                        }
                    }
                    assert forall|k: PeerId| map_of(after).contains_key(k) implies #[trigger] map_of(
                        after,
                    )[k] == map_of(before).remove(*peer)[k] by {
                        let j = choose|j: int| 0 <= j < after.len() && (#[trigger] after[j]).0 == k;
                        assert(before[if j < i {
                            j
                        } else {
                            j + 1
                        }] == after[j]);
                    }
                    assert(map_of(after) =~= map_of(before).remove(*peer));
                }
                Some(value)
            },
            None => {
                assert(self@ =~= old(self)@.remove(*peer));
                None
            },
        }
    }
}

} // verus!
