//! The store of fragments that were sent and are not acknowledged yet.
//!
//! Each entry is kept under its session and fragment index together with the
//! number of times it was asked for again.

use vstd::prelude::*;
use crate::assoc::{as_map, has_key, keys_unique, lemma_absent_from_map, lemma_empty, lemma_lookup, lemma_push, lemma_remove, lemma_update, position_of};
use crate::packet::{Packet, PacketType, PacketTypeView, PacketView};

verus! {

/// (`session_id`, `fragment_index`)
pub type Key = (u64, u64);

/// (`packet`, `number_of_requests`)
pub type Value = (Packet, u64);

/// A counter one step further; it stays at its largest value.
pub open spec fn bumped(count: u64) -> u64 {
    if count < u64::MAX {
        (count + 1) as u64
    } else {
        count
    }
}

/// The packet carries a fragment of the session and with the index of `key`.
pub open spec fn is_fragment_of(packet: PacketView, key: Key) -> bool {
    packet.session_id == key.0 && match packet.pack_type {
        PacketTypeView::MsgFragment(f) => f.fragment_index == key.1,
        _ => false,
    }
}

struct Entry {
    session_id: u64,
    fragment_index: u64,
    packet: Packet,
    requests: u64,
}

pub struct PacketCache {
    entries: Vec<Entry>,
}

impl PacketCache {
    closed spec fn pairs(&self) -> Seq<(Key, (PacketView, u64))> {
        Seq::new(
            self.entries@.len(),
            |i: int|
                (
                    (self.entries@[i].session_id, self.entries@[i].fragment_index),
                    (self.entries@[i].packet@, self.entries@[i].requests),
                ),
        )
    }

    /// No key is stored twice, and each entry is a fragment under its own
    /// session and index.
    pub closed spec fn wf(&self) -> bool {
        &&& keys_unique(self.pairs())
        &&& forall|i: int|
            0 <= i < self.entries@.len() ==> is_fragment_of(
                (#[trigger] self.pairs()[i]).1.0,
                self.pairs()[i].0,
            )
    }

    /// Whatever is in the cache is a fragment, stored under its own session
    /// and index.
    pub proof fn lemma_entries_are_fragments(&self, key: Key)
        requires
            self.wf(),
            self@.dom().contains(key),
        ensures
            is_fragment_of(self@[key].0, key),
    {
        let i = position_of(self.pairs(), key);
        lemma_lookup(self.pairs(), i);
    }

    /// The map from key to packet and request count.
    pub closed spec fn view(&self) -> Map<Key, (PacketView, u64)> {
        as_map(self.pairs())
    }

    pub fn new() -> (res: Self)
        ensures
            res.wf(),
            res@ == Map::<Key, (PacketView, u64)>::empty(),
    {
        let res = PacketCache { entries: Vec::new() };
        proof {
            lemma_empty::<Key, (PacketView, u64)>();
            assert(res.pairs() =~= Seq::empty());
        }
        res
    }

    /// The number of stored fragments.
    pub fn len(&self) -> (res: usize)
        requires
            self.wf(),
        ensures
            res == self@.dom().len(),
            self@.dom().finite(),
    {
        proof {
            self.lemma_len(self.entries@.len() as int);
            assert(self.pairs().take(self.entries@.len() as int) =~= self.pairs());
        }
        self.entries.len()
    }

    proof fn lemma_len(&self, n: int)
        requires
            self.wf(),
            0 <= n <= self.entries@.len(),
        ensures
            as_map(self.pairs().take(n)).dom().finite(),
            as_map(self.pairs().take(n)).dom().len() == n,
        decreases n,
    {
        let s = self.pairs().take(n);
        if n == 0 {
            assert(as_map(s).dom() =~= Set::<Key>::empty());
        } else {
            self.lemma_len(n - 1);
            let t = self.pairs().take(n - 1);
            let e = self.pairs()[n - 1];
            assert(s =~= t.push(e));
            assert(keys_unique(t)) by {
                assert forall|i: int, j: int|
                    0 <= i < t.len() && 0 <= j < t.len() && i != j implies t[i].0 != t[j].0 by {
                    assert(t[i] == self.pairs()[i]);
                    assert(t[j] == self.pairs()[j]);
                }
            }
            assert(!has_key(t, e.0)) by {
                if has_key(t, e.0) {
                    let i = position_of(t, e.0);
                    assert(t[i] == self.pairs()[i]);
                }
            }
            lemma_push(t, e.0, e.1);
            assert(as_map(s).dom() =~= as_map(t).dom().insert(e.0));
            lemma_absent_from_map(t, e.0);
        }
    }

    fn find(&self, session_id: u64, fragment_index: u64) -> (res: Option<usize>)
        requires
            self.wf(),
        ensures
            match res {
                Some(i) => i < self.entries@.len() && self.pairs()[i as int].0 == (
                    session_id,
                    fragment_index,
                ) && self@.dom().contains((session_id, fragment_index)) && self@[(
                    session_id,
                    fragment_index,
                )] == self.pairs()[i as int].1,
                None => !has_key(self.pairs(), (session_id, fragment_index))
                    && !self@.dom().contains((session_id, fragment_index)),
            },
    {
        let mut i: usize = 0;
        while i < self.entries.len()
            invariant
                self.wf(),
                i <= self.entries@.len(),
                forall|j: int| 0 <= j < i ==> (#[trigger] self.pairs()[j]).0 != (
                    session_id,
                    fragment_index,
                ),
            decreases self.entries@.len() - i,
        {
            if self.entries[i].session_id == session_id && self.entries[i].fragment_index
                == fragment_index {
                proof {
                    lemma_lookup(self.pairs(), i as int);
                }
                return Some(i);
            }
            i = i + 1;
        }
        None
    }

    /// Whether a fragment is stored under `key`. No request is counted.
    pub fn contains_key(&self, key: Key) -> (res: bool)
        requires
            self.wf(),
        ensures
            res == self@.dom().contains(key),
    {
        self.find(key.0, key.1).is_some()
    }

    fn store(&mut self, session_id: u64, fragment_index: u64, packet: Packet, requests: u64)
        requires
            old(self).wf(),
            is_fragment_of(packet@, (session_id, fragment_index)),
        ensures
            final(self).wf(),
            final(self)@ == old(self)@.insert((session_id, fragment_index), (packet@, requests)),
    {
        let found = self.find(session_id, fragment_index);
        let ghost before = self.pairs();
        let ghost value = (packet@, requests);
        match found {
            Some(i) => {
                self.entries[i] = Entry { session_id, fragment_index, packet, requests };
                proof {
                    lemma_update(before, i as int, value);
                    assert(self.pairs() =~= before.update(i as int, (before[i as int].0, value)));
                    assert forall|j: int| 0 <= j < self.entries@.len() implies is_fragment_of(
                        (#[trigger] self.pairs()[j]).1.0,
                        self.pairs()[j].0,
                    ) by {
                        if j != i {
                            assert(self.pairs()[j] == before[j]);
                        }
                    }
                }
            },
            None => {
                self.entries.push(Entry { session_id, fragment_index, packet, requests });
                proof {
                    lemma_push(before, (session_id, fragment_index), value);
                    assert(self.pairs() =~= before.push(((session_id, fragment_index), value)));
                    assert forall|j: int| 0 <= j < self.entries@.len() implies is_fragment_of(
                        (#[trigger] self.pairs()[j]).1.0,
                        self.pairs()[j].0,
                    ) by {
                        if j < before.len() {
                            assert(self.pairs()[j] == before[j]);
                        }
                    }
                }
            },
        }
    }

    /// Stores a packet that carries a fragment, with no request counted yet;
    /// any other packet is ignored.
    pub fn insert_packet(&mut self, packet: &Packet)
        requires
            old(self).wf(),
        ensures
            final(self).wf(),
            final(self)@ == match packet@.pack_type {
                PacketTypeView::MsgFragment(f) => old(self)@.insert(
                    (packet.session_id, f.fragment_index),
                    (packet@, 0u64),
                ),
                _ => old(self)@,
            },
    {
        if let PacketType::MsgFragment(frg) = &packet.pack_type {
            self.store(packet.session_id, frg.fragment_index, packet.clone(), 0);
        }
    }

    /// Stores a packet that carries a fragment together with the given request
    /// count; any other packet is ignored.
    pub fn insert_value(&mut self, value: &Value)
        requires
            old(self).wf(),
        ensures
            final(self).wf(),
            final(self)@ == match value.0@.pack_type {
                PacketTypeView::MsgFragment(f) => old(self)@.insert(
                    (value.0.session_id, f.fragment_index),
                    (value.0@, value.1),
                ),
                _ => old(self)@,
            },
    {
        if let PacketType::MsgFragment(frg) = &value.0.pack_type {
            self.store(value.0.session_id, frg.fragment_index, value.0.clone(), value.1);
        }
    }

    /// As [`PacketCache::insert_packet`].
    pub fn insert(&mut self, packet: &Packet)
        requires
            old(self).wf(),
        ensures
            final(self).wf(),
            final(self)@ == match packet@.pack_type {
                PacketTypeView::MsgFragment(f) => old(self)@.insert(
                    (packet.session_id, f.fragment_index),
                    (packet@, 0u64),
                ),
                _ => old(self)@,
            },
    {
        self.insert_packet(packet)
    }

    /// Counts one more request for the entry under `key` and returns the entry
    /// as it then stands.
    pub fn get_value(&mut self, key: Key) -> (res: Option<Value>)
        requires
            old(self).wf(),
        ensures
            final(self).wf(),
            match res {
                Some(v) => old(self)@.dom().contains(key) && v.0@ == old(self)@[key].0 && v.1
                    == bumped(old(self)@[key].1) && final(self)@ == old(self)@.insert(
                    key,
                    (v.0@, v.1),
                ),
                None => !old(self)@.dom().contains(key) && final(self)@ == old(self)@,
            },
    {
        let found = self.find(key.0, key.1);
        let ghost before = self.pairs();
        match found {
            Some(i) => {
                let count = self.entries[i].requests;
                let next = if count < u64::MAX {
                    count + 1
                } else {
                    count
                };
                let packet = self.entries[i].packet.clone();
                let copy = packet.clone();
                self.entries[i] = Entry {
                    session_id: key.0,
                    fragment_index: key.1,
                    packet,
                    requests: next,
                };
                proof {
                    lemma_update(before, i as int, (copy@, next));
                    assert(self.pairs() =~= before.update(
                        i as int,
                        (before[i as int].0, (copy@, next)),
                    ));
                    assert forall|j: int| 0 <= j < self.entries@.len() implies is_fragment_of(
                        (#[trigger] self.pairs()[j]).1.0,
                        self.pairs()[j].0,
                    ) by {
                        assert(is_fragment_of(before[j].1.0, before[j].0));
                    }
                }
                Some((copy, next))
            },
            None => None,
        }
    }

    /// Counts one more request for the entry under `key` and returns its packet.
    pub fn get_packet(&mut self, key: Key) -> (res: Option<Packet>)
        requires
            old(self).wf(),
        ensures
            final(self).wf(),
            match res {
                Some(p) => old(self)@.dom().contains(key) && p@ == old(self)@[key].0 && final(self)@ == old(self)@.insert(key, (p@, bumped(old(self)@[key].1))),
                None => !old(self)@.dom().contains(key) && final(self)@ == old(self)@,
            },
    {
        match self.get_value(key) {
            Some(v) => Some(v.0),
            None => None,
        }
    }

    /// As [`PacketCache::get_packet`], with the two parts of the key apart.
    pub fn get(&mut self, session_id: u64, fragment_index: u64) -> (res: Option<Packet>)
        requires
            old(self).wf(),
        ensures
            final(self).wf(),
            match res {
                Some(p) => old(self)@.dom().contains((session_id, fragment_index)) && p@ == old(self)@[(session_id, fragment_index)].0 && final(self)@ == old(self)@.insert(
                    (session_id, fragment_index),
                    (p@, bumped(old(self)@[(session_id, fragment_index)].1)),
                ),
                None => !old(self)@.dom().contains((session_id, fragment_index)) && final(self)@
                    == old(self)@,
            },
    {
        self.get_packet((session_id, fragment_index))
    }

    /// Removes the entry under `key` and returns its packet.
    pub fn take_packet(&mut self, key: Key) -> (res: Option<Packet>)
        requires
            old(self).wf(),
        ensures
            final(self).wf(),
            final(self)@ == old(self)@.remove(key),
            match res {
                Some(p) => old(self)@.dom().contains(key) && p@ == old(self)@[key].0,
                None => !old(self)@.dom().contains(key),
            },
    {
        let found = self.find(key.0, key.1);
        let ghost before = self.pairs();
        match found {
            Some(i) => {
                let entry = self.entries.remove(i);
                proof {
                    lemma_remove(before, i as int);
                    assert(self.pairs() =~= before.remove(i as int));
                    assert forall|j: int| 0 <= j < self.entries@.len() implies is_fragment_of(
                        (#[trigger] self.pairs()[j]).1.0,
                        self.pairs()[j].0,
                    ) by {
                        let j2 = if j < i { j } else { j + 1 };
                        assert(self.pairs()[j] == before[j2]);
                    }
                }
                Some(entry.packet)
            },
            None => {
                assert(old(self)@.remove(key) =~= old(self)@);
                None
            },
        }
    }

    /// As [`PacketCache::take_packet`], with the two parts of the key apart.
    pub fn take(&mut self, session_id: u64, fragment_index: u64) -> (res: Option<Packet>)
        requires
            old(self).wf(),
        ensures
            final(self).wf(),
            final(self)@ == old(self)@.remove((session_id, fragment_index)),
            match res {
                Some(p) => old(self)@.dom().contains((session_id, fragment_index)) && p@ == old(self)@[(session_id, fragment_index)].0,
                None => !old(self)@.dom().contains((session_id, fragment_index)),
            },
    {
        self.take_packet((session_id, fragment_index))
    }

    /// Removes the entry under the key and tells whether there was one.
    pub fn remove(&mut self, session_id: u64, fragment_index: u64) -> (res: bool)
        requires
            old(self).wf(),
        ensures
            final(self).wf(),
            final(self)@ == old(self)@.remove((session_id, fragment_index)),
            res == old(self)@.dom().contains((session_id, fragment_index)),
    {
        self.take_packet((session_id, fragment_index)).is_some()
    }
}

/// The request counter of an entry never goes down.
pub proof fn lemma_counter_monotone(count: u64)
    ensures
        bumped(count) >= count,
        count < u64::MAX ==> bumped(count) == count + 1,
{
}

} // verus!
