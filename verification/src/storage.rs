//! Storage for task-local and thread-local values: a map from slot keys to values that remembers
//! the order in which slots were initialized, so that values are destroyed in a deterministic
//! order. A destroyed slot stays in the map, empty, because a destructor may initialize new slots.
use vstd::prelude::*;

verus! {

/// A unique identifier for a storage slot: an identifier and a type.
#[derive(Clone, Copy, Debug, PartialEq, Eq, Hash, Structural)]
pub struct StorageKey(pub usize, pub usize);

/// The value of a slot was already destroyed.
#[derive(Clone, Copy, Debug, PartialEq, Eq, Structural)]
pub struct AlreadyDestructedError;

/// The index of the first slot from `from` on with key `key`.
pub open spec fn slot_index(keys: Seq<StorageKey>, key: StorageKey, from: int) -> Option<int>
    decreases keys.len() - from,
{
    if from < 0 || from >= keys.len() {
        None
    } else if keys[from] == key {
        Some(from)
    } else {
        slot_index(keys, key, from + 1)
    }
}

pub proof fn lemma_slot_index(keys: Seq<StorageKey>, key: StorageKey, from: int)
    requires
        0 <= from,
    ensures
        slot_index(keys, key, from) matches Some(i) ==> from <= i < keys.len() && keys[i] == key,
        slot_index(keys, key, from) is None ==> forall|k: int| from <= k < keys.len() ==> keys[k] != key,
    decreases keys.len() - from,
{
    if from < keys.len() && keys[from] != key {
        lemma_slot_index(keys, key, from + 1);
    }
}

pub proof fn lemma_slot_index_push(keys: Seq<StorageKey>, x: StorageKey, key: StorageKey, from: int)
    requires
        0 <= from <= keys.len(),
    ensures
        slot_index(keys.push(x), key, from) == (match slot_index(keys, key, from) {
            Some(i) => Some(i),
            None => if key == x { Some(keys.len() as int) } else { None },
        }),
    decreases keys.len() - from,
{
    if from < keys.len() {
        assert(keys.push(x)[from] == keys[from]);
        if keys[from] != key {
            lemma_slot_index_push(keys, x, key, from + 1);
        }
    } else {
        assert(keys.push(x)[from] == x);
        if x != key {
            assert(slot_index(keys.push(x), key, from + 1) is None);
        }
    }
}

/// Whether the slot with key `key` exists and holds a value.
pub open spec fn holds_value<V>(keys: Seq<StorageKey>, values: Seq<Option<V>>, key: StorageKey) -> bool {
    slot_index(keys, key, 0) matches Some(i) && values[i] is Some
}

/// A map of storage values, with the order in which the live ones were initialized.
pub struct StorageMap<V> {
    keys: Vec<StorageKey>,
    values: Vec<Option<V>>,
    order: Vec<StorageKey>,
}

impl<V> StorageMap<V> {
    /// The keys of the slots, in the order they were initialized.
    pub closed spec fn keys(&self) -> Seq<StorageKey> {
        self.keys@
    }

    /// The value of each slot, `None` once destroyed.
    pub closed spec fn values(&self) -> Seq<Option<V>> {
        self.values@
    }

    /// The keys of the slots still to be destroyed, first the earliest initialized.
    pub closed spec fn order(&self) -> Seq<StorageKey> {
        self.order@
    }

    /// Keys are unique, and the slots still to be destroyed hold values and appear once.
    pub closed spec fn wf(&self) -> bool {
        &&& self.keys@.len() == self.values@.len()
        &&& forall|i: int, j: int| 0 <= i < j < self.keys@.len() ==> self.keys@[i] != self.keys@[j]
        &&& forall|i: int, j: int| 0 <= i < j < self.order@.len() ==> self.order@[i] != self.order@[j]
        &&& forall|j: int| 0 <= j < self.order@.len() ==> #[trigger] holds_value(self.keys@, self.values@, self.order@[j])
    }

    /// Every slot has a value or was destroyed.
    pub proof fn lemma_lengths(&self)
        requires
            self.wf(),
        ensures
            self.keys().len() == self.values().len(),
    {
    }

    /// An empty map.
    pub fn new() -> (r: StorageMap<V>)
        ensures
            r.wf(),
            r.keys().len() == 0,
            r.values().len() == 0,
            r.order().len() == 0,
    {
        StorageMap { keys: Vec::new(), values: Vec::new(), order: Vec::new() }
    }

    fn find(&self, key: StorageKey) -> (r: Option<usize>)
        ensures
            r is None <==> slot_index(self.keys(), key, 0) is None,
            r matches Some(i) ==> slot_index(self.keys(), key, 0) == Some(i as int),
    {
        let mut i: usize = 0;
        while i < self.keys.len()
            invariant
                i <= self.keys@.len(),
                slot_index(self.keys@, key, 0) == slot_index(self.keys@, key, i as int),
            decreases self.keys@.len() - i,
        {
            if self.keys[i] == key {
                return Some(i);
            }
            i = i + 1;
        }
        None
    }

    /// The value of the slot with key `key`: `None` if the slot was never initialized, an error
    /// if its value was already destroyed.
    pub fn get(&self, key: StorageKey) -> (r: Option<Result<&V, AlreadyDestructedError>>)
        requires
            self.wf(),
        ensures
            match slot_index(self.keys(), key, 0) {
                None => r is None,
                Some(i) => match self.values()[i] {
                    Some(v) => r matches Some(Ok(rv)) && *rv == v,
                    None => r matches Some(Err(_)),
                },
            },
    {
        proof {
            lemma_slot_index(self.keys@, key, 0);
        }
        match self.find(key) {
            None => None,
            Some(i) => match &self.values[i] {
                Some(v) => Some(Ok(v)),
                None => Some(Err(AlreadyDestructedError)),
            },
        }
    }

    /// Initializes the slot with key `key`, which must not have been initialized before.
    pub fn init(&mut self, key: StorageKey, value: V)
        requires
            old(self).wf(),
            slot_index(old(self).keys(), key, 0) is None,
        ensures
            final(self).wf(),
            final(self).keys() == old(self).keys().push(key),
            final(self).values() == old(self).values().push(Some(value)),
            final(self).order() == old(self).order().push(key),
    {
        let ghost k0 = self.keys@;
        let ghost v0 = self.values@;
        let ghost o0 = self.order@;
        self.keys.push(key);
        self.values.push(Some(value));
        self.order.push(key);
        proof {
            lemma_slot_index(k0, key, 0);
            assert forall|j: int| 0 <= j < self.order@.len() implies #[trigger] holds_value(self.keys@, self.values@, self.order@[j]) by {
                let kj = self.order@[j];
                lemma_slot_index_push(k0, key, kj, 0);
                if j < o0.len() {
                    assert(holds_value(k0, v0, o0[j]));
                    lemma_slot_index(k0, kj, 0);
                } else {
                    assert(kj == key);
                }
            }
            assert forall|a: int, b: int| 0 <= a < b < self.order@.len() implies self.order@[a] != self.order@[b] by {
                if b == o0.len() {
                    assert(holds_value(k0, v0, o0[a]));
                    lemma_slot_index(k0, o0[a], 0);
                }
            }
            assert forall|a: int, b: int| 0 <= a < b < self.keys@.len() implies self.keys@[a] != self.keys@[b] by {
                if b == k0.len() {
                    assert(self.keys@[a] == k0[a]);
                }
            }
        }
    }

    /// Takes the value of the earliest initialized slot not yet destroyed, leaving the slot empty.
    pub fn pop(&mut self) -> (r: Option<V>)
        requires
            old(self).wf(),
        ensures
            final(self).wf(),
            final(self).keys() == old(self).keys(),
            old(self).order().len() == 0 ==> r is None && final(self).values() == old(self).values()
                && final(self).order() == old(self).order(),
            old(self).order().len() > 0 ==> ({
                let i = slot_index(old(self).keys(), old(self).order()[0], 0)->0;
                &&& r == old(self).values()[i]
                &&& r is Some
                &&& final(self).values() == old(self).values().update(i, None)
                &&& final(self).order() == old(self).order().drop_first()
            }),
    {
        if self.order.len() == 0 {
            return None;
        }
        let ghost o0 = self.order@;
        let ghost v0 = self.values@;
        let key = self.order.remove(0);
        proof {
            assert(holds_value(self.keys@, v0, o0[0]));
            lemma_slot_index(self.keys@, o0[0], 0);
        }
        let i = match self.find(key) {
            Some(i) => i,
            None => {
                proof {
                    assert(false);
                }
                return None;
            },
        };
        let value = self.values[i].take();
        proof {
            assert(self.order@ =~= o0.drop_first());
            assert(self.values@ =~= v0.update(i as int, None));
            assert forall|j: int| 0 <= j < self.order@.len() implies #[trigger] holds_value(self.keys@, self.values@, self.order@[j]) by {
                assert(self.order@[j] == o0[j + 1]);
                assert(holds_value(self.keys@, v0, o0[j + 1]));
                assert(o0[0] != o0[j + 1]);
                lemma_slot_index(self.keys@, o0[j + 1], 0);
                let x = slot_index(self.keys@, o0[j + 1], 0)->0;
                assert(self.keys@[x] == o0[j + 1]);
                assert(self.keys@[i as int] == o0[0]);
                assert(x != i);
            }
        }
        value
    }
}

/// A call on a storage map: initializing a slot, or destroying the earliest live value.
pub enum StorageCall {
    Init(StorageKey),
    Pop,
}

/// The keys still to be destroyed, and the keys whose values were destroyed in turn, after the
/// calls, from a map whose keys to destroy are `order`: `init` appends its key to `order()`, and
/// `pop` takes the value of the first key of `order()`, if there is one.
pub open spec fn after_calls(order: Seq<StorageKey>, calls: Seq<StorageCall>) -> (Seq<StorageKey>, Seq<StorageKey>)
    decreases calls.len(),
{
    if calls.len() == 0 {
        (order, Seq::empty())
    } else {
        let (live, destroyed) = after_calls(order, calls.drop_last());
        match calls.last() {
            StorageCall::Init(key) => (live.push(key), destroyed),
            StorageCall::Pop => if live.len() == 0 {
                (live, destroyed)
            } else {
                (live.drop_first(), destroyed.push(live[0]))
            },
        }
    }
}

/// The keys the calls initialize, in turn.
pub open spec fn initialized(calls: Seq<StorageCall>) -> Seq<StorageKey>
    decreases calls.len(),
{
    if calls.len() == 0 {
        Seq::empty()
    } else {
        let rest = initialized(calls.drop_last());
        match calls.last() {
            StorageCall::Init(key) => rest.push(key),
            StorageCall::Pop => rest,
        }
    }
}

/// Values are destroyed first in, first out: over any calls of `init` and `pop`, the keys
/// destroyed, followed by the keys still to destroy, are the keys there were to destroy followed
/// by the keys initialized, in the order of initialization.
pub proof fn lemma_storage_first_in_first_out(order: Seq<StorageKey>, calls: Seq<StorageCall>)
    ensures
        after_calls(order, calls).1 + after_calls(order, calls).0 == order + initialized(calls),
    decreases calls.len(),
{
    if calls.len() > 0 {
        let init = calls.drop_last();
        lemma_storage_first_in_first_out(order, init);
        let (live, destroyed) = after_calls(order, init);
        match calls.last() {
            StorageCall::Init(key) => {
                assert(destroyed + live.push(key) =~= (destroyed + live).push(key));
                assert((order + initialized(init)).push(key) =~= order + initialized(init).push(key));
            },
            StorageCall::Pop => {
                if live.len() > 0 {
                    assert(destroyed.push(live[0]) + live.drop_first() =~= destroyed + live);
                }
            },
        }
    }
}

} // verus!
