//! The engine facade: the capability every storage backend offers.
//!
//! An engine is a mutable mapping from string keys to string values with
//! three operations. The contracts are stated over the engine's abstract
//! `state` — the map its `get` answers describe — so a server or client
//! written against the facade is verified against every backend alike.

use vstd::prelude::*;
use crate::codec::{encodable, EntryView, Tag};
use crate::error::KvError;

verus! {

/// The capability `{set, get, remove}` over string keys and values.
pub trait KvsEngine: Sized {
    /// The mapping the engine currently represents.
    spec fn state(&self) -> Map<Seq<char>, Seq<char>>;

    /// The engine's internal well-formedness; established by its
    /// constructor and preserved by every operation.
    spec fn inv(&self) -> bool;

    /// Maps `key` to `val`, durably. Fails only on a pair too large for
    /// the record format, leaving the state unchanged.
    fn set(&mut self, key: String, val: String) -> (r: Result<(), KvError>)
        requires
            old(self).inv(),
        ensures
            final(self).inv(),
            r is Ok <==> encodable((EntryView { key: key@, value: val@, tag: Tag::Normal })),
            r matches Ok(()) ==> final(self).state() == old(self).state().insert(key@, val@),
            r is Err ==> final(self).state() == old(self).state() && r == Err::<(), KvError>(
                KvError::CodecError,
            ),
    ;

    /// Looks `key` up: its current value, or `None` when it is not mapped.
    fn get(&mut self, key: String) -> (r: Result<Option<String>, KvError>)
        requires
            old(self).inv(),
        ensures
            final(self).inv(),
            final(self).state() == old(self).state(),
            match r {
                Ok(Some(v)) => old(self).state().contains_key(key@) && v@ == old(self).state()[
                    key@
                ],
                Ok(None) => !old(self).state().contains_key(key@),
                Err(_) => false,
            },
    ;

    /// Unmaps `key`. Removing a key that is not mapped fails with
    /// `KeyNotExit` and changes nothing.
    fn remove(&mut self, key: String) -> (r: Result<(), KvError>)
        requires
            old(self).inv(),
        ensures
            final(self).inv(),
            r is Ok <==> old(self).state().contains_key(key@),
            r matches Ok(()) ==> final(self).state() == old(self).state().remove(key@),
            r is Err ==> final(self).state() == old(self).state() && r == Err::<(), KvError>(
                KvError::KeyNotExit,
            ),
    ;
}

} // verus!
