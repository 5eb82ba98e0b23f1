//! Keys into task-local storage. Each task sees its own value for a key, created by the key's
//! initializer the first time the task reaches for it; once the task's storage is being torn
//! down, a destroyed value can no longer be reached.
use vstd::prelude::*;
use crate::storage::{StorageMap, StorageKey, slot_index};
use crate::errors::AccessError;

verus! {

/// A key into task-local storage for values of type `T`.
#[derive(Debug)]
pub struct LocalKey<T> {
    key: StorageKey,
    _p: core::marker::PhantomData<T>,
}

impl<T> LocalKey<T> {
    /// The storage slot of the key.
    pub closed spec fn slot(&self) -> StorageKey {
        self.key
    }

    /// The key for storage slot `key`.
    pub fn new(key: StorageKey) -> (r: LocalKey<T>)
        ensures
            r.slot() == key,
    {
        LocalKey { key, _p: core::marker::PhantomData }
    }

    /// Calls `f` with the task's value for this key, first creating it with `init` if the task
    /// never reached for it; fails if the value was already destroyed.
    pub fn try_with<R, I: FnOnce() -> T, F: FnOnce(&T) -> R>(&self, storage: &mut StorageMap<T>, init: I, f: F) -> (r: Result<R, AccessError>)
        requires
            old(storage).wf(),
            init.requires(()),
            forall|v: &T| f.requires((v,)),
        ensures
            final(storage).wf(),
            match slot_index(old(storage).keys(), self.slot(), 0) {
                Some(i) => final(storage).keys() == old(storage).keys() && final(storage).values() == old(storage).values()
                    && match old(storage).values()[i] {
                        Some(v) => r matches Ok(x) && f.ensures((&v,), x),
                        None => r is Err,
                    },
                None => exists|v: T| {
                    &&& init.ensures((), v)
                    &&& final(storage).keys() == old(storage).keys().push(self.slot())
                    &&& final(storage).values() == old(storage).values().push(Some(v))
                    &&& r matches Ok(x) && f.ensures((&v,), x)
                },
            },
    {
        match storage.get(self.key) {
            Some(Ok(value)) => Ok(f(value)),
            Some(Err(_)) => Err(AccessError),
            None => {
                let value = init();
                let ghost v = value;
                let ghost k0 = storage.keys();
                let ghost v0 = storage.values();
                proof {
                    crate::storage::lemma_slot_index_push(k0, self.key, self.key, 0);
                    storage.lemma_lengths();
                }
                storage.init(self.key, value);
                proof {
                    assert(slot_index(storage.keys(), self.key, 0) == Some(k0.len() as int));
                    assert(storage.values()[k0.len() as int] == Some(v));
                }
                match storage.get(self.key) {
                    Some(Ok(value)) => {
                        let x = f(value);
                        proof {
                            assert(*value == v);
                        }
                        Ok(x)
                    },
                    _ => {
                        proof {
                            assert(false);
                        }
                        Err(AccessError)
                    },
                }
            },
        }
    }

    /// Calls `f` with the task's value for this key, first creating it with `init` if the task
    /// never reached for it. The value must not have been destroyed.
    pub fn with<R, I: FnOnce() -> T, F: FnOnce(&T) -> R>(&self, storage: &mut StorageMap<T>, init: I, f: F) -> (r: R)
        requires
            old(storage).wf(),
            init.requires(()),
            forall|v: &T| f.requires((v,)),
            slot_index(old(storage).keys(), self.slot(), 0) matches Some(i) ==> old(storage).values()[i] is Some,
        ensures
            final(storage).wf(),
            match slot_index(old(storage).keys(), self.slot(), 0) {
                Some(i) => final(storage).keys() == old(storage).keys() && final(storage).values() == old(storage).values()
                    && f.ensures((&old(storage).values()[i]->0,), r),
                None => exists|v: T| {
                    &&& init.ensures((), v)
                    &&& final(storage).keys() == old(storage).keys().push(self.slot())
                    &&& final(storage).values() == old(storage).values().push(Some(v))
                    &&& f.ensures((&v,), r)
                },
            },
    {
        self.try_with(storage, init, f).unwrap()
    }
}

} // verus!
