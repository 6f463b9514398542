//! The backing array of a table: its slots, the probe sequence that runs
//! through them, and what makes an array of slots stand for a map.

use crate::key::Key;
use vstd::prelude::*;

verus! {

/// One cell of the backing array.
pub enum Slot<K, V> {
    /// Never held an entry since the array was built.
    Empty,
    /// Holds a live entry.
    Occupied(K, V),
    /// A tombstone: held an entry that was removed. A probe sequence runs on
    /// through it, and a new entry may take it.
    Removed,
}

/// The index that is `steps` steps after `start`, going round an array of `n`
/// slots.
pub open spec fn step(start: int, steps: int, n: int) -> int {
    if start + steps < n {
        start + steps
    } else {
        start + steps - n
    }
}

/// The number of steps that lead from `start` to `index`, going round an
/// array of `n` slots.
pub open spec fn dist(start: int, index: int, n: int) -> int {
    if index >= start {
        index - start
    } else {
        index - start + n
    }
}

/// The index at which the probe sequence of `key` starts in an array of `n`
/// slots.
pub open spec fn home<K: Key>(key: K::V, n: int) -> int {
    (K::spec_digest(key) as int) % n
}

/// Whether `slot` holds an entry under `key`.
pub open spec fn holds<K: Key, V>(slot: Slot<K, V>, key: K::V) -> bool {
    slot matches Slot::Occupied(k, _) && k@ == key
}

/// The key of an occupied slot.
pub open spec fn key_of<K: Key, V>(slot: Slot<K, V>) -> K::V {
    slot->Occupied_0@
}

/// Whether some slot holds an entry under `key`.
pub open spec fn stores<K: Key, V>(slots: Seq<Slot<K, V>>, key: K::V) -> bool {
    exists|i: int| 0 <= i < slots.len() && #[trigger] holds(slots[i], key)
}

/// The index of the slot that holds `key`.
pub open spec fn place_of<K: Key, V>(slots: Seq<Slot<K, V>>, key: K::V) -> int {
    choose|i: int| 0 <= i < slots.len() && #[trigger] holds(slots[i], key)
}

/// Whether the slot with index `index` is the first on the probe sequence of
/// `key` that holds no entry.
pub open spec fn is_vacancy<K: Key, V>(slots: Seq<Slot<K, V>>, key: K::V, index: int) -> bool {
    &&& 0 <= index < slots.len()
    &&& !(slots[index] is Occupied)
    &&& forall|j: int|
        0 <= j < slots.len() && dist(home::<K>(key, slots.len() as int), j, slots.len() as int)
            < dist(home::<K>(key, slots.len() as int), index, slots.len() as int)
            ==> #[trigger] slots[j] is Occupied
}

/// The index of the first slot on the probe sequence of `key` that holds no
/// entry.
pub open spec fn vacancy<K: Key, V>(slots: Seq<Slot<K, V>>, key: K::V) -> int {
    choose|i: int| is_vacancy(slots, key, i)
}

/// The slots after `value` was stored under `key`: where the key has a slot,
/// that slot keeps its key and gets the value; where it has none, the key and
/// the value go to the first slot on the key's probe sequence that holds no
/// entry.
pub open spec fn stored<K: Key, V>(slots: Seq<Slot<K, V>>, key: K, value: V) -> Seq<Slot<K, V>> {
    if stores(slots, key@) {
        let i = place_of(slots, key@);
        slots.update(i, Slot::Occupied(slots[i]->Occupied_0, value))
    } else {
        slots.update(vacancy(slots, key@), Slot::Occupied(key, value))
    }
}

/// An array of `n` empty slots.
pub open spec fn fresh<K, V>(n: nat) -> Seq<Slot<K, V>> {
    Seq::new(n, |i: int| Slot::Empty)
}

/// The slots `onto` after every entry of `slots` was stored in them, the
/// entry of the last slot first.
pub open spec fn moved<K: Key, V>(slots: Seq<Slot<K, V>>, onto: Seq<Slot<K, V>>) -> Seq<Slot<K, V>>
    decreases slots.len(),
{
    if slots.len() == 0 {
        onto
    } else {
        moved(
            slots.drop_last(),
            match slots.last() {
                Slot::Occupied(key, value) => stored(onto, key, value),
                _ => onto,
            },
        )
    }
}

/// The slots after `key` was removed: where the key has a slot, that slot
/// gets the mark of a removed entry.
pub open spec fn vacated<K: Key, V>(slots: Seq<Slot<K, V>>, key: K::V) -> Seq<Slot<K, V>> {
    if stores(slots, key) {
        slots.update(place_of(slots, key), Slot::Removed)
    } else {
        slots
    }
}

/// Whether a slot that was `before` may be `after` once a key was stored or
/// removed: an entry may come to a slot that holds none, an entry may get
/// another value or leave its mark, and nothing else changes. A slot that
/// was used is never empty again.
pub open spec fn may_become<K, V>(before: Slot<K, V>, after: Slot<K, V>) -> bool {
    match (before, after) {
        (Slot::Empty, Slot::Empty) => true,
        (Slot::Removed, Slot::Removed) => true,
        (Slot::Empty, Slot::Occupied(_, _)) => true,
        (Slot::Removed, Slot::Occupied(_, _)) => true,
        (Slot::Occupied(k, _), Slot::Occupied(l, _)) => k == l,
        (Slot::Occupied(_, _), Slot::Removed) => true,
        _ => false,
    }
}

/// The number of occupied slots.
pub open spec fn live<K, V>(slots: Seq<Slot<K, V>>) -> nat
    decreases slots.len(),
{
    if slots.len() == 0 {
        0
    } else {
        live(slots.drop_last()) + if slots.last() is Occupied {
            1nat
        } else {
            0nat
        }
    }
}

/// The number of slots that hold the mark of a removed entry.
pub open spec fn dead<K, V>(slots: Seq<Slot<K, V>>) -> nat
    decreases slots.len(),
{
    if slots.len() == 0 {
        0
    } else {
        dead(slots.drop_last()) + if slots.last() is Removed {
            1nat
        } else {
            0nat
        }
    }
}

/// The occupied slots hold exactly the entries of the map.
pub open spec fn mirrors<K: Key, V>(slots: Seq<Slot<K, V>>, entries: Map<K::V, V>) -> bool {
    &&& forall|i: int|
        0 <= i < slots.len() ==> (#[trigger] slots[i] matches Slot::Occupied(k, v)
            ==> entries.contains_key(k@) && entries[k@] == v)
    &&& forall|key: K::V| #[trigger]
        entries.contains_key(key) ==> exists|i: int|
            0 <= i < slots.len() && #[trigger] holds(slots[i], key)
}

/// No key sits in two slots.
pub open spec fn distinct<K: Key, V>(slots: Seq<Slot<K, V>>) -> bool {
    forall|i: int, j: int, key: K::V|
        0 <= i < slots.len() && 0 <= j < slots.len() && #[trigger] holds(slots[i], key)
            && #[trigger] holds(slots[j], key) ==> i == j
}

/// Whether no slot is empty on the way from `start` to the slot with index
/// `index`, that slot left out.
pub open spec fn clear_before<K, V>(slots: Seq<Slot<K, V>>, start: int, index: int) -> bool {
    forall|j: int|
        0 <= j < slots.len() && dist(start, j, slots.len() as int) < dist(
            start,
            index,
            slots.len() as int,
        ) ==> !(#[trigger] slots[j] is Empty)
}

/// The probe sequence of every stored key reaches the slot of that key
/// without passing an empty slot.
pub open spec fn reachable<K: Key, V>(slots: Seq<Slot<K, V>>) -> bool {
    forall|i: int|
        0 <= i < slots.len() && #[trigger] slots[i] is Occupied ==> clear_before(
            slots,
            home::<K>(key_of(slots[i]), slots.len() as int),
            i,
        )
}

/// The slots stand for the map `entries`.
pub open spec fn consistent<K: Key, V>(slots: Seq<Slot<K, V>>, entries: Map<K::V, V>) -> bool {
    &&& mirrors(slots, entries)
    &&& distinct(slots)
    &&& reachable(slots)
}

/// Where no key sits in two slots, the slot that holds a key is the place of
/// that key.
pub proof fn lemma_place_of<K: Key, V>(slots: Seq<Slot<K, V>>, key: K::V, i: int)
    requires
        distinct(slots),
        0 <= i < slots.len(),
        holds(slots[i], key),
    ensures
        stores(slots, key),
        place_of(slots, key) == i,
{
}

/// A probe sequence has one first slot that holds no entry.
pub proof fn lemma_vacancy<K: Key, V>(slots: Seq<Slot<K, V>>, key: K::V, i: int)
    requires
        is_vacancy(slots, key, i),
    ensures
        vacancy(slots, key) == i,
{
    let other = vacancy(slots, key);
    let n = slots.len() as int;
    let start = home::<K>(key, n);
    assert(is_vacancy(slots, key, other));
    if dist(start, other, n) < dist(start, i, n) {
        assert(slots[other] is Occupied);
    }
    if dist(start, i, n) < dist(start, other, n) {
        assert(slots[i] is Occupied);
    }
}

/// Where not every slot is occupied, every probe sequence has a first slot
/// that holds no entry.
pub proof fn lemma_vacancy_exists<K: Key, V>(slots: Seq<Slot<K, V>>, key: K::V)
    requires
        live(slots) < slots.len(),
    ensures
        is_vacancy(slots, key, vacancy(slots, key)),
{
    lemma_first_vacancy(slots, key, 0);
}

/// Where the first `steps` slots of a probe sequence are occupied, but not
/// every slot of the array, the sequence has a first slot that holds no
/// entry.
proof fn lemma_first_vacancy<K: Key, V>(slots: Seq<Slot<K, V>>, key: K::V, steps: int)
    requires
        live(slots) < slots.len(),
        0 <= steps <= slots.len(),
        forall|j: int|
            0 <= j < slots.len() && dist(home::<K>(key, slots.len() as int), j, slots.len() as int)
                < steps ==> #[trigger] slots[j] is Occupied,
    ensures
        exists|i: int| is_vacancy(slots, key, i),
    decreases slots.len() - steps,
{
    let n = slots.len() as int;
    let start = home::<K>(key, n);
    if steps == n {
        assert forall|j: int| 0 <= j < n implies #[trigger] slots[j] is Occupied by {
            assert(dist(start, j, n) < steps);
        }
        lemma_all_live(slots);
    } else {
        let index = step(start, steps, n);
        assert(dist(start, index, n) == steps);
        if slots[index] is Occupied {
            assert forall|j: int| 0 <= j < n && dist(start, j, n) < steps + 1 implies #[trigger] slots[j]
                is Occupied by {
                if dist(start, j, n) == steps {
                    assert(j == index);
                }
            }
            lemma_first_vacancy(slots, key, steps + 1);
        } else {
            assert(is_vacancy(slots, key, index));
        }
    }
}

/// An array whose slots are all occupied counts as many entries as slots.
proof fn lemma_all_live<K, V>(slots: Seq<Slot<K, V>>)
    requires
        forall|j: int| 0 <= j < slots.len() ==> #[trigger] slots[j] is Occupied,
    ensures
        live(slots) == slots.len(),
    decreases slots.len(),
{
    if slots.len() > 0 {
        let front = slots.drop_last();
        assert forall|j: int| 0 <= j < front.len() implies #[trigger] front[j] is Occupied by {
            assert(front[j] == slots[j]);
        }
        lemma_all_live(front);
    }
}

/// Storing a key changes no slot but in the ways that `may_become` allows,
/// and at most one slot.
pub proof fn lemma_stored_steps<K: Key, V>(slots: Seq<Slot<K, V>>, key: K, value: V)
    requires
        live(slots) < slots.len(),
    ensures
        stored(slots, key, value).len() == slots.len(),
        forall|i: int|
            0 <= i < slots.len() ==> may_become(slots[i], #[trigger] stored(slots, key, value)[i]),
        forall|i: int, j: int|
            0 <= i < slots.len() && 0 <= j < slots.len() && stored(slots, key, value)[i]
                != slots[i] && stored(slots, key, value)[j] != slots[j] ==> i == j,
{
    lemma_vacancy_exists(slots, key@);
}

/// Removing a key changes no slot but in the ways that `may_become` allows,
/// and at most one slot.
pub proof fn lemma_vacated_steps<K: Key, V>(slots: Seq<Slot<K, V>>, key: K::V)
    ensures
        vacated(slots, key).len() == slots.len(),
        forall|i: int|
            0 <= i < slots.len() ==> may_become(slots[i], #[trigger] vacated(slots, key)[i]),
        forall|i: int, j: int|
            0 <= i < slots.len() && 0 <= j < slots.len() && vacated(slots, key)[i] != slots[i]
                && vacated(slots, key)[j] != slots[j] ==> i == j,
{
}

/// A key that the map lacks sits in no slot.
pub proof fn lemma_absent<K: Key, V>(slots: Seq<Slot<K, V>>, entries: Map<K::V, V>, key: K::V)
    requires
        mirrors(slots, entries),
        !entries.contains_key(key),
    ensures
        !stores(slots, key),
{
    if stores(slots, key) {
        let i = place_of(slots, key);
        assert(slots[i] is Occupied);
    }
}

/// Writing one slot changes the two counts by what left and what came.
pub proof fn lemma_counts_update<K, V>(slots: Seq<Slot<K, V>>, i: int, slot: Slot<K, V>)
    requires
        0 <= i < slots.len(),
    ensures
        live(slots.update(i, slot)) + (if slots[i] is Occupied {
            1nat
        } else {
            0nat
        }) == live(slots) + (if slot is Occupied {
            1nat
        } else {
            0nat
        }),
        dead(slots.update(i, slot)) + (if slots[i] is Removed {
            1nat
        } else {
            0nat
        }) == dead(slots) + (if slot is Removed {
            1nat
        } else {
            0nat
        }),
    decreases slots.len(),
{
    let after = slots.update(i, slot);
    if i == slots.len() - 1 {
        assert(after.drop_last() =~= slots.drop_last());
    } else {
        assert(after.drop_last() =~= slots.drop_last().update(i, slot));
        lemma_counts_update(slots.drop_last(), i, slot);
    }
}

/// The two counts never exceed the number of slots, and together they reach
/// it only where no slot is empty.
pub proof fn lemma_counts_bound<K, V>(slots: Seq<Slot<K, V>>)
    ensures
        live(slots) + dead(slots) <= slots.len(),
        live(slots) + dead(slots) == slots.len() <==> forall|i: int|
            0 <= i < slots.len() ==> !(#[trigger] slots[i] is Empty),
    decreases slots.len(),
{
    if slots.len() > 0 {
        let front = slots.drop_last();
        lemma_counts_bound(front);
        if live(slots) + dead(slots) == slots.len() {
            assert forall|i: int| 0 <= i < slots.len() implies !(#[trigger] slots[i] is Empty) by {
                if i < front.len() {
                    assert(front[i] == slots[i]);
                }
            }
        }
        if forall|i: int| 0 <= i < slots.len() ==> !(#[trigger] slots[i] is Empty) {
            assert forall|i: int| 0 <= i < front.len() implies !(#[trigger] front[i] is Empty) by {
                assert(front[i] == slots[i]);
            }
        }
    }
}

/// An array of empty slots counts no entry and no mark.
pub proof fn lemma_counts_fresh<K, V>(slots: Seq<Slot<K, V>>)
    requires
        forall|i: int| 0 <= i < slots.len() ==> #[trigger] slots[i] is Empty,
    ensures
        live(slots) == 0,
        dead(slots) == 0,
    decreases slots.len(),
{
    if slots.len() > 0 {
        let front = slots.drop_last();
        assert forall|i: int| 0 <= i < front.len() implies #[trigger] front[i] is Empty by {
            assert(front[i] == slots[i]);
        }
        lemma_counts_fresh(front);
    }
}

/// A probe sequence that met neither the key nor, before its last slot, an
/// empty slot, and whose last slot is empty, shows that the key is absent.
pub proof fn lemma_probe_absent<K: Key, V>(
    slots: Seq<Slot<K, V>>,
    entries: Map<K::V, V>,
    key: K::V,
    end: int,
)
    requires
        consistent(slots, entries),
        0 <= end < slots.len(),
        slots[end] is Empty,
        forall|j: int|
            0 <= j < slots.len() && dist(home::<K>(key, slots.len() as int), j, slots.len() as int)
                < dist(home::<K>(key, slots.len() as int), end, slots.len() as int) ==> !holds(
                #[trigger] slots[j],
                key,
            ),
    ensures
        !entries.contains_key(key),
{
    if entries.contains_key(key) {
        let n = slots.len() as int;
        let start = home::<K>(key, n);
        let i = choose|i: int| 0 <= i < slots.len() && #[trigger] holds(slots[i], key);
        assert(slots[i] is Occupied);
        assert(clear_before(slots, start, i));
        if dist(start, i, n) > dist(start, end, n) {
            assert(!(slots[end] is Empty));
        }
    }
}

/// Putting a value in place of the one that a key had keeps the slots
/// consistent, with the map updated alike.
pub proof fn lemma_overwrite<K: Key, V>(
    slots: Seq<Slot<K, V>>,
    entries: Map<K::V, V>,
    i: int,
    slot: Slot<K, V>,
)
    requires
        consistent(slots, entries),
        0 <= i < slots.len(),
        slots[i] is Occupied,
        slot matches Slot::Occupied(k, _) && k@ == key_of(slots[i]),
    ensures
        consistent(slots.update(i, slot), entries.insert(key_of(slot), slot->Occupied_1)),
{
    let after = slots.update(i, slot);
    let key = key_of(slot);
    let map = entries.insert(key, slot->Occupied_1);
    assert(holds(slots[i], key));
    assert forall|j: int| 0 <= j < after.len() implies (#[trigger] after[j] matches Slot::Occupied(
        k,
        v,
    ) ==> map.contains_key(k@) && map[k@] == v) by {
        if j != i && after[j] is Occupied {
            assert(holds(slots[j], key_of(slots[j])));
        }
    }
    assert forall|other: K::V| #[trigger] map.contains_key(other) implies exists|j: int|
        0 <= j < after.len() && #[trigger] holds(after[j], other) by {
        if other == key {
            assert(holds(after[i], other));
        } else {
            let j = choose|j: int| 0 <= j < slots.len() && #[trigger] holds(slots[j], other);
            assert(holds(after[j], other));
        }
    }
    assert forall|a: int, b: int, other: K::V|
        0 <= a < after.len() && 0 <= b < after.len() && #[trigger] holds(after[a], other)
            && #[trigger] holds(after[b], other) implies a == b by {
        assert(holds(slots[a], other));
        assert(holds(slots[b], other));
    }
    assert forall|a: int| 0 <= a < after.len() && #[trigger] after[a] is Occupied implies clear_before(
        after,
        home::<K>(key_of(after[a]), after.len() as int),
        a,
    ) by {
        assert(slots[a] is Occupied);
        let start = home::<K>(key_of(slots[a]), slots.len() as int);
        assert(clear_before(slots, start, a));
        assert forall|j: int|
            0 <= j < after.len() && dist(start, j, after.len() as int) < dist(
                start,
                a,
                after.len() as int,
            ) implies !(#[trigger] after[j] is Empty) by {
            assert(!(slots[j] is Empty));
        }
    }
}

/// Putting a new key in the first slot on its probe sequence that holds no
/// entry keeps the slots consistent, with the key added to the map.
pub proof fn lemma_fill<K: Key, V>(
    slots: Seq<Slot<K, V>>,
    entries: Map<K::V, V>,
    i: int,
    slot: Slot<K, V>,
)
    requires
        consistent(slots, entries),
        slot is Occupied,
        !entries.contains_key(key_of(slot)),
        is_vacancy(slots, key_of(slot), i),
    ensures
        consistent(slots.update(i, slot), entries.insert(key_of(slot), slot->Occupied_1)),
{
    let after = slots.update(i, slot);
    assert(clear_before(slots, home::<K>(key_of(slot), slots.len() as int), i));
    let key = key_of(slot);
    let map = entries.insert(key, slot->Occupied_1);
    assert forall|j: int| 0 <= j < after.len() implies (#[trigger] after[j] matches Slot::Occupied(
        k,
        v,
    ) ==> map.contains_key(k@) && map[k@] == v) by {
        if j != i {
            assert(after[j] == slots[j]);
        }
    }
    assert forall|other: K::V| #[trigger] map.contains_key(other) implies exists|j: int|
        0 <= j < after.len() && #[trigger] holds(after[j], other) by {
        if other == key {
            assert(holds(after[i], other));
        } else {
            let j = choose|j: int| 0 <= j < slots.len() && #[trigger] holds(slots[j], other);
            assert(holds(after[j], other));
        }
    }
    assert forall|a: int, b: int, other: K::V|
        0 <= a < after.len() && 0 <= b < after.len() && #[trigger] holds(after[a], other)
            && #[trigger] holds(after[b], other) implies a == b by {
        if a != i {
            assert(holds(slots[a], other));
        }
        if b != i {
            assert(holds(slots[b], other));
        }
    }
    assert forall|a: int| 0 <= a < after.len() && #[trigger] after[a] is Occupied implies clear_before(
        after,
        home::<K>(key_of(after[a]), after.len() as int),
        a,
    ) by {
        let start = home::<K>(key_of(after[a]), after.len() as int);
        if a != i {
            assert(slots[a] is Occupied);
            assert(clear_before(slots, start, a));
        }
        assert forall|j: int|
            0 <= j < after.len() && dist(start, j, after.len() as int) < dist(
                start,
                a,
                after.len() as int,
            ) implies !(#[trigger] after[j] is Empty) by {
            if j != i {
                assert(!(slots[j] is Empty));
            }
        }
    }
}

/// Marking the slot of a key as removed keeps the slots consistent, with the
/// key taken out of the map.
pub proof fn lemma_vacate<K: Key, V>(slots: Seq<Slot<K, V>>, entries: Map<K::V, V>, i: int)
    requires
        consistent(slots, entries),
        0 <= i < slots.len(),
        slots[i] is Occupied,
    ensures
        consistent(slots.update(i, Slot::Removed), entries.remove(key_of(slots[i]))),
{
    let after = slots.update(i, Slot::<K, V>::Removed);
    let key = key_of(slots[i]);
    let map = entries.remove(key);
    assert(holds(slots[i], key));
    assert forall|j: int| 0 <= j < after.len() implies (#[trigger] after[j] matches Slot::Occupied(
        k,
        v,
    ) ==> map.contains_key(k@) && map[k@] == v) by {
        if j != i && after[j] is Occupied {
            assert(holds(slots[j], key_of(slots[j])));
        }
    }
    assert forall|other: K::V| #[trigger] map.contains_key(other) implies exists|j: int|
        0 <= j < after.len() && #[trigger] holds(after[j], other) by {
        let j = choose|j: int| 0 <= j < slots.len() && #[trigger] holds(slots[j], other);
        assert(holds(after[j], other));
    }
    assert forall|a: int, b: int, other: K::V|
        0 <= a < after.len() && 0 <= b < after.len() && #[trigger] holds(after[a], other)
            && #[trigger] holds(after[b], other) implies a == b by {
        assert(holds(slots[a], other));
        assert(holds(slots[b], other));
    }
    assert forall|a: int| 0 <= a < after.len() && #[trigger] after[a] is Occupied implies clear_before(
        after,
        home::<K>(key_of(after[a]), after.len() as int),
        a,
    ) by {
        assert(slots[a] is Occupied);
        let start = home::<K>(key_of(slots[a]), slots.len() as int);
        assert(clear_before(slots, start, a));
        assert forall|j: int|
            0 <= j < after.len() && dist(start, j, after.len() as int) < dist(
                start,
                a,
                after.len() as int,
            ) implies !(#[trigger] after[j] is Empty) by {
            if j != i {
                assert(!(slots[j] is Empty));
            }
        }
    }
}

/// After a key was stored, it sits in one slot, with the value that was
/// stored, and the slots stand for the map with that entry.
pub proof fn lemma_stored_finds<K: Key, V>(
    slots: Seq<Slot<K, V>>,
    entries: Map<K::V, V>,
    key: K,
    value: V,
)
    requires
        consistent(slots, entries),
        live(slots) < slots.len(),
    ensures
        consistent(stored(slots, key, value), entries.insert(key@, value)),
        stores(stored(slots, key, value), key@),
        stored(slots, key, value)[place_of(stored(slots, key, value), key@)] matches Slot::Occupied(
            _,
            v,
        ) && v == value,
{
    if stores(slots, key@) {
        let i = place_of(slots, key@);
        lemma_overwrite(slots, entries, i, Slot::Occupied(slots[i]->Occupied_0, value));
        assert(holds(stored(slots, key, value)[i], key@));
    } else {
        lemma_vacancy_exists(slots, key@);
        let i = vacancy(slots, key@);
        lemma_fill(slots, entries, i, Slot::Occupied(key, value));
        assert(holds(stored(slots, key, value)[i], key@));
    }
}

/// After a key was removed, every other key still sits in the slot that it
/// had, with its value, and its probe sequence still reaches that slot
/// without passing an empty one: the slot of the removed key is not empty
/// but marked.
pub proof fn lemma_vacated_keeps_others<K: Key, V>(
    slots: Seq<Slot<K, V>>,
    entries: Map<K::V, V>,
    removed: K::V,
    other: K::V,
)
    requires
        consistent(slots, entries),
        stores(slots, other),
        removed != other,
    ensures
        consistent(vacated(slots, removed), entries.remove(removed)),
        stores(vacated(slots, removed), other),
        place_of(vacated(slots, removed), other) == place_of(slots, other),
        vacated(slots, removed)[place_of(slots, other)] == slots[place_of(slots, other)],
        clear_before(
            vacated(slots, removed),
            home::<K>(other, slots.len() as int),
            place_of(slots, other),
        ),
{
    let after = vacated(slots, removed);
    let i = place_of(slots, other);
    if stores(slots, removed) {
        lemma_vacate(slots, entries, place_of(slots, removed));
    } else {
        assert(entries.remove(removed) =~= entries);
    }
    assert(holds(after[i], other));
    lemma_place_of(after, other, i);
}

} // verus!
