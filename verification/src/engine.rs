//! The storage-engine contract: the capability every backend offers the
//! server, so the server is written once and stays oblivious to which
//! concrete engine is wired in.

use vstd::prelude::*;
use crate::error::KvsError;
use crate::store::{KvStore, spec_lookup};

verus! {

/// The `set`/`get`/`remove` contract over an abstract key-value map. The
/// log-structured [`KvStore`] implements it in this crate; an alternative
/// backend at the unverified edge may implement it too, which is why every
/// operation is allowed to fail with an engine error.
pub trait KvsEngine: Sized {
    /// The key-value map the engine holds. An engine implemented at the
    /// unverified edge leaves the default, about which nothing is known.
    open spec fn kv(&self) -> Map<Seq<char>, Seq<char>> {
        Map::empty()
    }

    /// The engine's own well-formedness.
    open spec fn inv(&self) -> bool {
        true
    }

    /// Set the key to the value, overwriting any prior value. A failed
    /// operation leaves the map as it was.
    fn set(&mut self, key: String, value: String) -> (r: Result<(), KvsError>)
        requires
            old(self).inv(),
        ensures
            final(self).inv(),
            r is Ok ==> final(self).kv() == old(self).kv().insert(key@, value@),
            r is Err ==> final(self).kv() == old(self).kv(),
    ;

    /// Get the key's current value, or `None` for a key never set or since
    /// removed. The map is unchanged.
    fn get(&mut self, key: String) -> (r: Result<Option<String>, KvsError>)
        requires
            old(self).inv(),
        ensures
            final(self).inv(),
            final(self).kv() == old(self).kv(),
            r is Ok ==> match spec_lookup(old(self).kv(), key@) {
                Some(v) => r matches Ok(Some(s)) && s@ == v,
                None => r matches Ok(o) && o is None,
            },
    ;

    /// Remove the key. A key with no entry fails with `KeyNotFoundError`,
    /// and with that error exactly; a failed operation leaves the map as it
    /// was.
    fn remove(&mut self, key: String) -> (r: Result<(), KvsError>)
        requires
            old(self).inv(),
        ensures
            final(self).inv(),
            r == Err::<(), KvsError>(KvsError::KeyNotFoundError) <==> !old(
                self,
            ).kv().dom().contains(key@),
            r is Ok ==> final(self).kv() == old(self).kv().remove(key@),
            r is Err ==> final(self).kv() == old(self).kv(),
    ;
}

impl KvsEngine for KvStore {
    open spec fn kv(&self) -> Map<Seq<char>, Seq<char>> {
        self@
    }

    open spec fn inv(&self) -> bool {
        self.wf()
    }

    fn set(&mut self, key: String, value: String) -> (r: Result<(), KvsError>) {
        KvStore::set(self, key, value)
    }

    fn get(&mut self, key: String) -> (r: Result<Option<String>, KvsError>) {
        KvStore::get(self, key)
    }

    fn remove(&mut self, key: String) -> (r: Result<(), KvsError>) {
        KvStore::remove(self, key)
    }
}

} // verus!
