//! The table: an array of slots searched by linear probing, which grows
//! before its load passes nine tenths.

use crate::contents::{
    is_power_of_two, lemma_double_power_of_two, overloaded, Contents, INITIAL_BUCKET_COUNT,
    MAX_LOAD_TENTHS,
};
use crate::key::Key;
use crate::slots::{
    consistent, dead, dist, fresh, holds, home, is_vacancy, key_of, lemma_absent,
    lemma_counts_bound, lemma_counts_fresh, lemma_counts_update, lemma_fill, lemma_overwrite,
    lemma_place_of, lemma_probe_absent, lemma_vacancy, lemma_vacate, live, moved, step, stored,
    vacated, Slot,
};
use vstd::arithmetic::power2::lemma2_to64;
use vstd::prelude::*;

verus! {

/// A map from keys to values, kept in one array of slots.
///
/// A key's hash picks the slot where the search for it starts; the search
/// then goes from slot to slot, round the array, until it meets the key or an
/// empty slot. A removal leaves a mark in the slot, so that the keys stored
/// beyond it are still found.
pub struct HashMap<K: Key, V> {
    slots: Vec<Slot<K, V>>,
    slot_count: usize,
    item_count: usize,
    tombstone_count: usize,
    entries: Ghost<Map<K::V, V>>,
}

impl<K: Key, V> View for HashMap<K, V> {
    type V = Contents<K::V, V>;

    closed spec fn view(&self) -> Contents<K::V, V> {
        Contents { entries: self.entries@, capacity: self.slot_count as nat }
    }
}

/// How the search for a key ended.
enum Probe {
    /// The key sits in the slot with this index.
    Found(usize),
    /// The key is absent; the slot with this index is the first on its probe
    /// sequence that holds no entry.
    Vacant(usize),
}

/// Whether `used` slots out of `slot_count` are more than the largest load
/// factor allows.
fn exceeds_load(used: usize, slot_count: usize) -> (over: bool)
    ensures
        over == overloaded(used as nat, slot_count as nat),
{
    (used as u128) * 10 > (slot_count as u128) * (MAX_LOAD_TENTHS as u128)
}

impl<K: Key, V> HashMap<K, V> {
    /// The backing array.
    pub closed spec fn slots(&self) -> Seq<Slot<K, V>> {
        self.slots@
    }

    /// Whether the counters of the table count what its slots hold.
    pub closed spec fn counted(&self) -> bool {
        &&& self.slot_count == self.slots@.len()
        &&& self.item_count == live(self.slots@)
        &&& self.tombstone_count == dead(self.slots@)
    }

    /// Whether the table is well formed.
    ///
    /// The slots stand for the entries: each entry sits in one occupied slot,
    /// which the probe sequence of its key reaches without passing an empty
    /// slot. Entries and marks of removed entries together fill at most nine
    /// tenths of the slots, so that every probe sequence meets an empty slot.
    pub open spec fn wf(&self) -> bool {
        &&& self.counted()
        &&& self.slots().len() == self@.capacity
        &&& live(self.slots()) == self@.len()
        &&& consistent(self.slots(), self@.entries)
        &&& !overloaded(live(self.slots()) + dead(self.slots()), self@.capacity)
        &&& self@.inv()
    }

    /// Whether entries and marks of removed entries leave no room for one
    /// more entry, so that the next insertion builds the array anew.
    pub open spec fn crowded(&self) -> bool {
        overloaded(live(self.slots()) + dead(self.slots()) + 1, self@.capacity)
    }

    /// The backing array as an insertion finds it once it has made room:
    /// built anew with twice the slots where one more entry would load the
    /// table beyond nine tenths, built anew with as many slots where only the
    /// marks of removed entries leave no room, and as it is otherwise.
    pub open spec fn roomy(&self) -> Seq<Slot<K, V>> {
        if self@.must_grow() {
            moved(self.slots(), fresh(2 * self@.capacity))
        } else if self.crowded() {
            moved(self.slots(), fresh(self@.capacity))
        } else {
            self.slots()
        }
    }

    /// Makes an empty table of the initial capacity.
    pub fn new() -> (table: HashMap<K, V>)
        ensures
            table.wf(),
            table@ == Contents::<K::V, V>::empty(),
            table.slots() == fresh::<K, V>(INITIAL_BUCKET_COUNT as nat),
    {
        proof {
            lemma2_to64();
        }
        Self::with_slot_count(INITIAL_BUCKET_COUNT)
    }

    /// The number of entries.
    pub fn len(&self) -> (n: usize)
        requires
            self.wf(),
        ensures
            n == self@.len(),
    {
        self.item_count
    }

    /// The number of slots.
    pub fn capacity(&self) -> (n: usize)
        ensures
            n == self@.capacity,
    {
        self.slot_count
    }

    /// Looks `key` up.
    pub fn get(&self, key: &K) -> (value: Option<&V>)
        requires
            self.wf(),
        ensures
            match value {
                Some(v) => self@.get(key@) == Some(*v),
                None => self@.get(key@) is None,
            },
    {
        let slot_index: usize = self.slot_index(key);
        match self.slot(slot_index, key) {
            Probe::Found(i) => match &self.slots[i] {
                Slot::Occupied(_, v) => Some(v),
                _ => None,
            },
            Probe::Vacant(_) => None,
        }
    }

    /// Stores `value` under `key` and hands back the value that `key` had.
    ///
    /// Where one more entry would load the table beyond nine tenths, the
    /// capacity is doubled first. Where only the marks of removed entries
    /// leave no room, the array is built anew at the same capacity. Either
    /// way the marks are gone afterwards.
    pub fn insert(&mut self, key: K, value: V) -> (previous: Option<V>)
        requires
            old(self).wf(),
            old(self)@.must_grow() ==> 2 * old(self)@.capacity <= usize::MAX,
        ensures
            final(self).wf(),
            final(self)@ == old(self)@.insert(key@, value),
            previous == old(self)@.get(key@),
            final(self).slots() == stored(old(self).roomy(), key, value),
            old(self).crowded() ==> dead(final(self).slots()) == 0,
    {
        if exceeds_load(self.item_count + 1, self.slot_count) {
            self.resize(2 * self.slot_count);
        } else if exceeds_load(self.item_count + self.tombstone_count + 1, self.slot_count) {
            self.resize(self.slot_count);
        }
        self.store(key, value)
    }

    /// Takes `key` out and hands back the value that it had. The slot of the
    /// key gets the mark of a removed entry.
    pub fn remove(&mut self, key: &K) -> (value: Option<V>)
        requires
            old(self).wf(),
        ensures
            final(self).wf(),
            final(self)@ == old(self)@.remove(key@),
            value == old(self)@.get(key@),
            final(self).slots() == vacated(old(self).slots(), key@),
    {
        let slot_index: usize = self.slot_index(key);
        match self.slot(slot_index, key) {
            Probe::Found(i) => {
                proof {
                    lemma_place_of(self.slots@, key@, i as int);
                    lemma_vacate(self.slots@, self.entries@, i as int);
                    lemma_counts_update(self.slots@, i as int, Slot::Removed);
                    lemma_counts_bound(self.slots@.update(i as int, Slot::Removed));
                }
                let mut taken = Slot::Removed;
                std::mem::swap(&mut self.slots[i], &mut taken);
                self.item_count = self.item_count - 1;
                self.tombstone_count = self.tombstone_count + 1;
                self.entries = Ghost(self.entries@.remove(key@));
                match taken {
                    Slot::Occupied(_, v) => Some(v),
                    _ => None,
                }
            },
            Probe::Vacant(_) => {
                proof {
                    lemma_absent(self.slots@, self.entries@, key@);
                    assert(self.entries@.remove(key@) =~= self.entries@);
                }
                None
            },
        }
    }

    /// Follows the probe sequence of `key` from `slot_index`, slot by slot
    /// and round the end of the array, until it meets the key or an empty
    /// slot.
    fn slot(&self, slot_index: usize, key: &K) -> (probe: Probe)
        requires
            self.wf(),
            slot_index == home::<K>(key@, self.slot_count as int),
        ensures
            match probe {
                Probe::Found(i) => i < self.slot_count && holds(self.slots@[i as int], key@),
                Probe::Vacant(i) => !self.entries@.contains_key(key@) && is_vacancy(
                    self.slots@,
                    key@,
                    i as int,
                ),
            },
    {
        let count: usize = self.slot_count;
        let mut index: usize = slot_index;
        let mut probes: usize = 0;
        let mut vacant: Option<usize> = None;
        loop
            invariant
                self.wf(),
                count == self.slot_count,
                slot_index == home::<K>(key@, count as int),
                probes < count,
                index == step(slot_index as int, probes as int, count as int),
                forall|j: int|
                    0 <= j < count && dist(slot_index as int, j, count as int) < probes ==> !(
                    #[trigger] self.slots@[j] is Empty) && !holds(self.slots@[j], key@),
                vacant is None ==> forall|j: int|
                    0 <= j < count && dist(slot_index as int, j, count as int) < probes
                        ==> #[trigger] self.slots@[j] is Occupied,
                vacant matches Some(t) ==> is_vacancy(self.slots@, key@, t as int),
            decreases count - probes,
        {
            match &self.slots[index] {
                Slot::Empty => {
                    proof {
                        lemma_probe_absent(self.slots@, self.entries@, key@, index as int);
                    }
                    return Probe::Vacant(
                        match vacant {
                            Some(t) => t,
                            None => index,
                        },
                    );
                },
                Slot::Occupied(k, _) => {
                    if k.same(key) {
                        return Probe::Found(index);
                    }
                },
                Slot::Removed => {
                    if vacant.is_none() {
                        vacant = Some(index);
                    }
                },
            }
            proof {
                if probes + 1 == count {
                    // Every slot was met and none was empty: the table would
                    // be full.
                    assert forall|j: int| 0 <= j < count implies !(
                    #[trigger] self.slots@[j] is Empty) by {
                        if dist(slot_index as int, j, count as int) == probes {
                            assert(j == index);
                        }
                    }
                    lemma_counts_bound(self.slots@);
                }
            }
            probes = probes + 1;
            index = if index + 1 < count {
                index + 1
            } else {
                0
            };
        }
    }

    /// The slot where the probe sequence of `key` starts.
    fn slot_index(&self, key: &K) -> (index: usize)
        requires
            self.slot_count > 0,
        ensures
            index == home::<K>(key@, self.slot_count as int),
            index < self.slot_count,
    {
        let hash: u64 = key.digest();
        (hash % self.slot_count as u64) as usize
    }

    /// Makes `slot_count` empty slots.
    fn create_slots(slot_count: usize) -> (slots: Vec<Slot<K, V>>)
        ensures
            slots@.len() == slot_count,
            forall|i: int| 0 <= i < slot_count ==> #[trigger] slots@[i] is Empty,
    {
        let mut new_slots: Vec<Slot<K, V>> = Vec::with_capacity(slot_count);
        let mut made: usize = 0;
        while made < slot_count
            invariant
                made <= slot_count,
                new_slots@.len() == made,
                forall|i: int| 0 <= i < made ==> #[trigger] new_slots@[i] is Empty,
            decreases slot_count - made,
        {
            new_slots.push(Slot::Empty);
            made = made + 1;
        }
        new_slots
    }

    /// Makes an empty table of `slot_count` slots.
    fn with_slot_count(slot_count: usize) -> (table: HashMap<K, V>)
        requires
            slot_count >= INITIAL_BUCKET_COUNT,
            is_power_of_two(slot_count as nat),
        ensures
            table.wf(),
            table@ == (Contents::<K::V, V> { entries: Map::empty(), capacity: slot_count as nat }),
            table.slots@ == fresh::<K, V>(slot_count as nat),
            dead(table.slots@) == 0,
    {
        let slots = Self::create_slots(slot_count);
        proof {
            lemma_counts_fresh(slots@);
        }
        HashMap { slots, slot_count, item_count: 0, tombstone_count: 0, entries: Ghost(Map::empty()) }
    }

    /// Stores `value` under `key` in a table that has room for one more
    /// entry.
    fn store(&mut self, key: K, value: V) -> (previous: Option<V>)
        requires
            old(self).wf(),
            !old(self).crowded(),
        ensures
            final(self).wf(),
            final(self).entries@ == old(self).entries@.insert(key@, value),
            final(self).slot_count == old(self).slot_count,
            final(self).slots@ == stored(old(self).slots@, key, value),
            dead(final(self).slots@) <= dead(old(self).slots@),
            previous == old(self)@.get(key@),
    {
        let slot_index: usize = self.slot_index(&key);
        match self.slot(slot_index, &key) {
            Probe::Found(i) => {
                let mut value = value;
                proof {
                    let slot = Slot::Occupied(self.slots@[i as int]->Occupied_0, value);
                    lemma_place_of(self.slots@, key@, i as int);
                    lemma_overwrite(self.slots@, self.entries@, i as int, slot);
                    lemma_counts_update(self.slots@, i as int, slot);
                }
                self.entries = Ghost(self.entries@.insert(key@, value));
                match &mut self.slots[i] {
                    Slot::Occupied(_, held) => {
                        std::mem::swap(held, &mut value);
                        Some(value)
                    },
                    _ => None,
                }
            },
            Probe::Vacant(i) => {
                let reused: bool = match &self.slots[i] {
                    Slot::Removed => true,
                    _ => false,
                };
                proof {
                    let slot = Slot::Occupied(key, value);
                    lemma_absent(self.slots@, self.entries@, key@);
                    lemma_vacancy(self.slots@, key@, i as int);
                    lemma_fill(self.slots@, self.entries@, i as int, slot);
                    lemma_counts_update(self.slots@, i as int, slot);
                }
                self.entries = Ghost(self.entries@.insert(key@, value));
                self.slots[i] = Slot::Occupied(key, value);
                self.item_count = self.item_count + 1;
                if reused {
                    self.tombstone_count = self.tombstone_count - 1;
                }
                None
            },
        }
    }

    /// Moves every entry to a new array of `slot_count` slots, by the same
    /// steps as an insertion. The marks of removed entries stay behind.
    fn resize(&mut self, slot_count: usize)
        requires
            old(self).wf(),
            slot_count == old(self).slot_count || slot_count == 2 * old(self).slot_count,
        ensures
            final(self).wf(),
            final(self).entries@ == old(self).entries@,
            final(self).slot_count == slot_count,
            final(self).slots@ == moved(old(self).slots@, fresh(slot_count as nat)),
            dead(final(self).slots@) == 0,
    {
        proof {
            lemma_double_power_of_two(self.slot_count as nat);
        }
        let mut previous = Self::with_slot_count(slot_count);
        std::mem::swap(self, &mut previous);
        let ghost before = previous;
        let mut rest = previous.slots;
        while rest.len() > 0
            invariant
                before.wf(),
                self.wf(),
                self.slot_count == slot_count,
                dead(self.slots@) == 0,
                slot_count >= before.slot_count,
                rest@.len() <= before.slots@.len(),
                forall|j: int| 0 <= j < rest@.len() ==> rest@[j] == before.slots@[j],
                live(self.slots@) + live(rest@) == live(before.slots@),
                moved(rest@, self.slots@) == moved(before.slots@, fresh(slot_count as nat)),
                forall|key: K::V| #[trigger]
                    self.entries@.contains_key(key) ==> before.entries@.contains_key(key)
                        && self.entries@[key] == before.entries@[key],
                forall|key: K::V| #[trigger]
                    self.entries@.contains_key(key) ==> exists|j: int|
                        rest@.len() <= j < before.slots@.len() && #[trigger] holds(
                            before.slots@[j],
                            key,
                        ),
                forall|j: int|
                    rest@.len() <= j < before.slots@.len() && #[trigger] before.slots@[j]
                        is Occupied ==> self.entries@.contains_key(key_of(before.slots@[j])),
            decreases rest@.len(),
        {
            let ghost last: int = rest@.len() - 1;
            let ghost moved = self.entries@;
            match rest.pop() {
                Some(Slot::Occupied(key, value)) => {
                    proof {
                        // No key sits in two slots, so this one was not moved
                        // yet.
                        assert(holds(before.slots@[last], key@));
                        assert(!moved.contains_key(key@));
                    }
                    self.store(key, value);
                    proof {
                        assert forall|other: K::V| #[trigger]
                            self.entries@.contains_key(other) implies exists|j: int|
                            last <= j < before.slots@.len() && #[trigger] holds(
                                before.slots@[j],
                                other,
                            ) by {
                            if other != key@ {
                                let j = choose|j: int|
                                    last < j < before.slots@.len() && #[trigger] holds(
                                        before.slots@[j],
                                        other,
                                    );
                                assert(holds(before.slots@[j], other));
                            }
                        }
                    }
                },
                _ => {},
            }
        }
        proof {
            // Every entry sat in a slot, and every slot was moved.
            assert forall|key: K::V| #[trigger]
                before.entries@.contains_key(key) implies self.entries@.contains_key(key) by {
                let j = choose|j: int|
                    0 <= j < before.slots@.len() && #[trigger] holds(before.slots@[j], key);
                assert(before.slots@[j] is Occupied);
            }
            assert(self.entries@ =~= before.entries@);
        }
    }
}

} // verus!
