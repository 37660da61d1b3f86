//! A typed single-value storage slot: a key and the value stored under it,
//! if any. Queries follow the optional kind: reading an empty slot gives
//! `None`, and storing `None` removes the value.

use vstd::prelude::*;

verus! {

/// One value of type `V` stored under a fixed 32-byte key.
#[derive(Debug)]
pub struct StorageValue<V> {
    key: [u8; 32],
    value: Option<V>,
}

impl<V> StorageValue<V> {
    /// The key under which the value is stored.
    pub closed spec fn spec_key(&self) -> [u8; 32] {
        self.key
    }

    /// The stored value, `None` when nothing is stored.
    pub closed spec fn spec_value(&self) -> Option<V> {
        self.value
    }

    /// An empty slot under `key`.
    pub fn new(key: [u8; 32]) -> (r: Self)
        ensures
            r.spec_key() == key,
            r.spec_value() is None,
    {
        StorageValue { key, value: None }
    }

    /// Get the storage key.
    pub fn hashed_key(&self) -> (r: [u8; 32])
        ensures
            r == self.spec_key(),
    {
        self.key
    }

    /// Does the value (explicitly) exist in storage?
    pub fn value_exists(&self) -> (r: bool)
        ensures
            r == self.spec_value() is Some,
    {
        self.value.is_some()
    }

    /// Store `val`, or remove the value when `val` is `None`.
    pub fn set(&mut self, val: Option<V>)
        ensures
            final(self).spec_value() == val,
            final(self).spec_key() == old(self).spec_key(),
    {
        self.value = val;
    }

    /// Store `val`.
    pub fn put(&mut self, val: V)
        ensures
            final(self).spec_value() == Some(val),
            final(self).spec_key() == old(self).spec_key(),
    {
        self.value = Some(val);
    }

    /// Clear the storage value.
    pub fn kill(&mut self)
        ensures
            final(self).spec_value() is None,
            final(self).spec_key() == old(self).spec_key(),
    {
        self.value = None;
    }

    /// Take the value from storage, removing it afterwards.
    pub fn take(&mut self) -> (r: Option<V>)
        ensures
            r == old(self).spec_value(),
            final(self).spec_value() is None,
            final(self).spec_key() == old(self).spec_key(),
    {
        self.value.take()
    }

    /// Apply `f` to the value if there is one, and return its result;
    /// without a value, do nothing and return `None`.
    pub fn mutate_extant<R, F: FnOnce(V) -> (V, R)>(&mut self, f: F) -> (r: Option<R>)
        requires
            old(self).spec_value() matches Some(v) ==> f.requires((v,)),
        ensures
            final(self).spec_key() == old(self).spec_key(),
            match old(self).spec_value() {
                None => r is None && final(self).spec_value() is None,
                Some(v) => exists|out: (V, R)|
                    f.ensures((v,), out) && r == Some(out.1) && final(self).spec_value() == Some(out.0),
            },
    {
        match self.value.take() {
            None => None,
            Some(v) => {
                let (nv, res) = f(v);
                self.value = Some(nv);
                Some(res)
            },
        }
    }
}

impl<V> StorageValue<V> {
    /// Replace the value by what `f` makes of it, and return `f`'s result.
    /// `f` sees `None` when nothing is stored; storing `None` removes the
    /// value.
    pub fn mutate<R, F: FnOnce(Option<V>) -> (Option<V>, R)>(&mut self, f: F) -> (r: R)
        requires
            f.requires((old(self).spec_value(),)),
        ensures
            final(self).spec_key() == old(self).spec_key(),
            exists|out: (Option<V>, R)|
                f.ensures((old(self).spec_value(),), out) && r == out.1 && final(self).spec_value()
                    == out.0,
    {
        let (nv, res) = f(self.value.take());
        self.value = nv;
        res
    }

    /// Mutate the value; the item is deleted when `f` leaves `None`.
    pub fn mutate_exists<R, F: FnOnce(Option<V>) -> (Option<V>, R)>(&mut self, f: F) -> (r: R)
        requires
            f.requires((old(self).spec_value(),)),
        ensures
            final(self).spec_key() == old(self).spec_key(),
            exists|out: (Option<V>, R)|
                f.ensures((old(self).spec_value(),), out) && r == out.1 && final(self).spec_value()
                    == out.0,
    {
        self.mutate(f)
    }
}

impl<V: Copy> StorageValue<V> {
    /// Replace the value by what `f` makes of it when `f` returns `Ok`;
    /// on `Err` the stored value stays as it was.
    pub fn try_mutate<R, E, F: FnOnce(Option<V>) -> Result<(Option<V>, R), E>>(&mut self, f: F) -> (r:
        Result<R, E>)
        requires
            f.requires((old(self).spec_value(),)),
        ensures
            final(self).spec_key() == old(self).spec_key(),
            exists|out: Result<(Option<V>, R), E>|
                f.ensures((old(self).spec_value(),), out) && match out {
                    Ok((nv, res)) => r == Ok::<R, E>(res) && final(self).spec_value() == nv,
                    Err(e) => r == Err::<R, E>(e) && final(self).spec_value() == old(self).spec_value(),
                },
    {
        match f(self.value) {
            Ok((nv, res)) => {
                self.value = nv;
                Ok(res)
            },
            Err(e) => Err(e),
        }
    }

    /// As `try_mutate`; the item is deleted when `f` leaves `None`.
    pub fn try_mutate_exists<R, E, F: FnOnce(Option<V>) -> Result<(Option<V>, R), E>>(&mut self, f: F) -> (r:
        Result<R, E>)
        requires
            f.requires((old(self).spec_value(),)),
        ensures
            final(self).spec_key() == old(self).spec_key(),
            exists|out: Result<(Option<V>, R), E>|
                f.ensures((old(self).spec_value(),), out) && match out {
                    Ok((nv, res)) => r == Ok::<R, E>(res) && final(self).spec_value() == nv,
                    Err(e) => r == Err::<R, E>(e) && final(self).spec_value() == old(self).spec_value(),
                },
    {
        self.try_mutate(f)
    }

    /// Load the value, `None` when nothing is stored.
    pub fn get(&self) -> (r: Option<V>)
        ensures
            r == self.spec_value(),
    {
        self.value
    }

    /// The value if it exists, `Err` if not.
    pub fn try_get(&self) -> (r: Result<V, ()>)
        ensures
            match self.spec_value() {
                Some(v) => r == Ok::<V, ()>(v),
                None => r == Err::<V, ()>(()),
            },
    {
        match self.value {
            Some(v) => Ok(v),
            None => Err(()),
        }
    }
}

} // verus!
