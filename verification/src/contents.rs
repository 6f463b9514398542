//! The mathematical model of a table, and the laws that hold of it.
//!
//! A table is seen from outside as a finite map from keys to values together
//! with the number of slots of its backing array. Every operation of the
//! executable table is stated as a function on this model.

use vstd::arithmetic::power2::{lemma2_to64, lemma_pow2_unfold, pow2};
use vstd::prelude::*;

verus! {

/// The number of slots of a new table.
pub const INITIAL_BUCKET_COUNT: usize = 16;

/// The largest load factor a table is allowed, in tenths.
pub const MAX_LOAD_TENTHS: usize = 9;

/// Whether `used` slots out of `capacity` are more than the largest load
/// factor allows.
pub open spec fn overloaded(used: nat, capacity: nat) -> bool {
    used * 10 > capacity * MAX_LOAD_TENTHS
}

/// Whether `n` is a power of two.
pub open spec fn is_power_of_two(n: nat) -> bool {
    exists|e: nat| n == pow2(e)
}

/// Twice a power of two is a power of two.
pub proof fn lemma_double_power_of_two(n: nat)
    requires
        is_power_of_two(n),
    ensures
        is_power_of_two(2 * n),
{
    let e = choose|e: nat| n == pow2(e);
    lemma_pow2_unfold(e + 1);
    assert(2 * n == pow2(e + 1));
}

/// What a table holds: its entries, and the number of slots they live in.
#[verifier::reject_recursive_types(K)]
pub struct Contents<K, V> {
    pub entries: Map<K, V>,
    pub capacity: nat,
}

/// One change made to a table.
pub enum Op<K, V> {
    /// An insertion of a value under a key.
    Insert(K, V),
    /// A removal of a key.
    Remove(K),
}

impl<K, V> Op<K, V> {
    /// Whether this change is an insertion under `key`.
    pub open spec fn inserts(self, key: K) -> bool {
        self matches Op::Insert(k, _) && k == key
    }
}

impl<K, V> Contents<K, V> {
    /// The contents of a new table.
    pub open spec fn empty() -> Self {
        Contents { entries: Map::empty(), capacity: INITIAL_BUCKET_COUNT as nat }
    }

    /// The number of entries.
    pub open spec fn len(self) -> nat {
        self.entries.dom().len()
    }

    /// The value stored under `key`, if there is one.
    pub open spec fn get(self, key: K) -> Option<V> {
        if self.entries.contains_key(key) {
            Some(self.entries[key])
        } else {
            None
        }
    }

    /// Whether one more entry would load the table beyond the limit, so that
    /// the next insertion doubles the capacity first.
    pub open spec fn must_grow(self) -> bool {
        overloaded(self.len() + 1, self.capacity)
    }

    /// The contents after `key` was inserted with `value`.
    pub open spec fn insert(self, key: K, value: V) -> Self {
        Contents {
            entries: self.entries.insert(key, value),
            capacity: if self.must_grow() {
                2 * self.capacity
            } else {
                self.capacity
            },
        }
    }

    /// The contents after `key` was removed.
    pub open spec fn remove(self, key: K) -> Self {
        Contents { entries: self.entries.remove(key), capacity: self.capacity }
    }

    /// The contents after one change.
    pub open spec fn apply(self, op: Op<K, V>) -> Self {
        match op {
            Op::Insert(key, value) => self.insert(key, value),
            Op::Remove(key) => self.remove(key),
        }
    }

    /// The contents of a table that started empty and went through `ops`, in
    /// order.
    pub open spec fn replay(ops: Seq<Op<K, V>>) -> Self
        decreases ops.len(),
    {
        if ops.len() == 0 {
            Self::empty()
        } else {
            Self::replay(ops.drop_last()).apply(ops.last())
        }
    }

    /// What holds of the contents of every table: the entries are finitely
    /// many and load the slots to at most nine tenths, and the capacity is a
    /// power of two, no less than the initial one.
    pub open spec fn inv(self) -> bool {
        &&& self.entries.dom().finite()
        &&& !overloaded(self.len(), self.capacity)
        &&& self.capacity >= INITIAL_BUCKET_COUNT
        &&& is_power_of_two(self.capacity)
    }

    /// The entries never fill every slot: at least one slot holds no entry.
    pub proof fn lemma_room(self)
        requires
            self.inv(),
        ensures
            self.len() < self.capacity,
    {
    }

    /// A new table has the initial capacity, holds nothing, and meets the
    /// invariant.
    pub proof fn lemma_empty_inv()
        ensures
            Self::empty().inv(),
            Self::empty().len() == 0,
            Self::empty().capacity == 16,
    {
        lemma2_to64();
    }

    /// An insertion keeps the invariant. The capacity stays or doubles, and
    /// never shrinks.
    pub proof fn lemma_insert_inv(self, key: K, value: V)
        requires
            self.inv(),
        ensures
            self.insert(key, value).inv(),
            self.insert(key, value).capacity == self.capacity || self.insert(key, value).capacity
                == 2 * self.capacity,
    {
        lemma_double_power_of_two(self.capacity);
    }

    /// A removal keeps the invariant and the capacity.
    pub proof fn lemma_remove_inv(self, key: K)
        requires
            self.inv(),
        ensures
            self.remove(key).inv(),
            self.remove(key).capacity == self.capacity,
    {
    }

    /// Whatever changes a table went through, its contents meet the
    /// invariant.
    pub proof fn lemma_replay_inv(ops: Seq<Op<K, V>>)
        ensures
            Self::replay(ops).inv(),
        decreases ops.len(),
    {
        if ops.len() == 0 {
            Self::lemma_empty_inv();
        } else {
            Self::lemma_replay_inv(ops.drop_last());
            let before = Self::replay(ops.drop_last());
            match ops.last() {
                Op::Insert(key, value) => before.lemma_insert_inv(key, value),
                Op::Remove(key) => before.lemma_remove_inv(key),
            }
        }
    }

    /// A lookup right after an insertion finds the value that was inserted.
    pub proof fn lemma_insert_then_get(self, key: K, value: V)
        ensures
            self.insert(key, value).get(key) == Some(value),
    {
    }

    /// A second insertion under the same key hands back the first value, a
    /// lookup then finds the second, and the number of entries is the same as
    /// after the first insertion.
    pub proof fn lemma_overwrite(self, key: K, first: V, second: V)
        requires
            self.entries.dom().finite(),
        ensures
            self.insert(key, first).get(key) == Some(first),
            self.insert(key, first).insert(key, second).get(key) == Some(second),
            self.insert(key, first).insert(key, second).len() == self.insert(key, first).len(),
    {
    }

    /// An insertion under a key that is present keeps the number of entries;
    /// under a key that is absent it adds one.
    pub proof fn lemma_insert_len(self, key: K, value: V)
        requires
            self.entries.dom().finite(),
        ensures
            self.insert(key, value).len() == if self.entries.contains_key(key) {
                self.len()
            } else {
                self.len() + 1
            },
    {
    }

    /// A key that was never inserted is not found, whatever else was inserted
    /// and removed.
    pub proof fn lemma_never_inserted(ops: Seq<Op<K, V>>, key: K)
        requires
            forall|i: int| 0 <= i < ops.len() ==> !(#[trigger] ops[i]).inserts(key),
        ensures
            Self::replay(ops).get(key) is None,
        decreases ops.len(),
    {
        if ops.len() > 0 {
            let earlier = ops.drop_last();
            assert forall|i: int| 0 <= i < earlier.len() implies !(#[trigger] earlier[i]).inserts(
                key,
            ) by {
                assert(earlier[i] == ops[i]);
            }
            Self::lemma_never_inserted(earlier, key);
            assert(!ops[ops.len() - 1].inserts(key));
        }
    }

    /// A removal right after an insertion hands back the value that was
    /// inserted, and a lookup then finds nothing.
    pub proof fn lemma_insert_remove_get(self, key: K, value: V)
        ensures
            self.insert(key, value).get(key) == Some(value),
            self.insert(key, value).remove(key).get(key) is None,
    {
    }

    /// A removal leaves every other key as it was: what a lookup of another
    /// key finds is the same before and after.
    pub proof fn lemma_remove_keeps_others(self, removed: K, other: K)
        requires
            removed != other,
        ensures
            self.remove(removed).get(other) == self.get(other),
    {
    }

    /// An insertion leaves every other key as it was, whether or not the
    /// table grows on the way.
    pub proof fn lemma_insert_keeps_others(self, key: K, value: V, other: K)
        requires
            key != other,
        ensures
            self.insert(key, value).get(other) == self.get(other),
    {
    }

    /// An insertion that would load the table beyond nine tenths doubles the
    /// capacity, any other insertion keeps it, and in both cases every key
    /// that was present still is, with its value.
    pub proof fn lemma_growth(self, key: K, value: V)
        ensures
            self.must_grow() ==> self.insert(key, value).capacity == 2 * self.capacity,
            !self.must_grow() ==> self.insert(key, value).capacity == self.capacity,
            forall|k: K| #[trigger]
                self.entries.contains_key(k) && k != key ==> self.insert(key, value).get(k)
                    == self.get(k),
            self.insert(key, value).get(key) == Some(value),
    {
    }

    /// After a key was removed, removing it again finds nothing and changes
    /// nothing.
    pub proof fn lemma_remove_twice(self, key: K)
        ensures
            self.remove(key).get(key) is None,
            self.remove(key).remove(key) == self.remove(key),
    {
        assert(self.remove(key).entries.remove(key) =~= self.remove(key).entries);
    }
}

} // verus!
