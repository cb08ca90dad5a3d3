//! Content-addressed storage of binary objects.

use crate::object_id::{digest, ObjectId};
use vstd::prelude::*;

/// A persistent store in a directory.
pub mod directory;
/// An ephemeral store held in memory.
pub mod in_memory;

verus! {

/// What a store holds after `object` was inserted into one that held `m`: the object under
/// its identifier, unless that identifier was there already.
pub open spec fn stored(m: Map<Seq<u8>, Seq<u8>>, object: Seq<u8>) -> Map<Seq<u8>, Seq<u8>> {
    if m.contains_key(digest(object)) {
        m
    } else {
        m.insert(digest(object), object)
    }
}

/// Everything that `before` holds, `after` holds unchanged.
pub open spec fn extends(before: Map<Seq<u8>, Seq<u8>>, after: Map<Seq<u8>, Seq<u8>>) -> bool {
    forall|k: Seq<u8>| #[trigger]
        before.contains_key(k) ==> after.contains_key(k) && after[k] == before[k]
}

/// Every object is held under its own identifier.
pub open spec fn consistent(m: Map<Seq<u8>, Seq<u8>>) -> bool {
    forall|k: Seq<u8>| m.contains_key(k) ==> digest(#[trigger] m[k]) == k
}

/// A store of binary objects, each held under its [`ObjectId`].
pub trait ObjectStore {
    type Error;

    /// The store is in a state in which it can be used.
    spec fn wf(&self) -> bool;

    /// The objects held, each under the bytes of its identifier.
    spec fn contents(&self) -> Map<Seq<u8>, Seq<u8>>;

    /// Whether the medium can fail. A store for which this is false answers every call
    /// with `Ok`.
    spec fn fallible(&self) -> bool;

    /// Checks whether an object is held under the identifier.
    fn has(&self, id: ObjectId) -> (r: Result<bool, Self::Error>)
        requires
            self.wf(),
        ensures
            r matches Ok(b) ==> b == self.contents().contains_key(id@),
            r is Err ==> self.fallible(),
    ;

    /// Reads the object held under the identifier, if there is one.
    fn read(&self, id: ObjectId) -> (r: Result<Option<Vec<u8>>, Self::Error>)
        requires
            self.wf(),
        ensures
            r matches Ok(found) ==> match found {
                Some(object) => self.contents().contains_key(id@) && object@
                    == self.contents()[id@],
                None => !self.contents().contains_key(id@),
            },
            r is Err ==> self.fallible(),
    ;

    /// Inserts an object, unless its identifier is held already, and returns the identifier.
    /// Whether it succeeds or fails, what was held stays held, unchanged.
    fn insert(&mut self, object: &[u8]) -> (r: Result<ObjectId, Self::Error>)
        requires
            old(self).wf(),
        ensures
            final(self).wf(),
            final(self).fallible() == old(self).fallible(),
            extends(old(self).contents(), final(self).contents()),
            r matches Ok(id) ==> id@ == digest(object@) && final(self).contents() == stored(
                old(self).contents(),
                object@,
            ),
            r is Err ==> old(self).fallible(),
    ;
}

/// Inserting takes nothing out of a store and changes nothing that it held.
pub proof fn lemma_stored_extends(m: Map<Seq<u8>, Seq<u8>>, object: Seq<u8>)
    ensures
        extends(m, stored(m, object)),
{
}

/// What holds all of one store, which holds all of another, holds all of that other.
pub proof fn lemma_extends_transitive(
    a: Map<Seq<u8>, Seq<u8>>,
    b: Map<Seq<u8>, Seq<u8>>,
    c: Map<Seq<u8>, Seq<u8>>,
)
    requires
        extends(a, b),
        extends(b, c),
    ensures
        extends(a, c),
{
}

/// Inserting keeps every object under its own identifier.
pub proof fn lemma_stored_consistent(m: Map<Seq<u8>, Seq<u8>>, object: Seq<u8>)
    requires
        consistent(m),
    ensures
        consistent(stored(m, object)),
{
}

/// What was inserted is held under its identifier and read back as it was, and
/// no other identifier is touched. Left out is a store that already holds other bytes under
/// the identifier of `object`.
pub proof fn lemma_insert_then_read(m: Map<Seq<u8>, Seq<u8>>, object: Seq<u8>)
    requires
        m.contains_key(digest(object)) ==> m[digest(object)] == object,
    ensures
        stored(m, object).contains_key(digest(object)),
        stored(m, object)[digest(object)] == object,
        forall|k: Seq<u8>|
            k != digest(object) ==> (stored(m, object).contains_key(k) <==> m.contains_key(k)),
        forall|k: Seq<u8>| m.contains_key(k) ==> stored(m, object)[k] == m[k],
{
}

/// Inserting the same bytes a second time changes nothing.
pub proof fn lemma_insert_idempotent(m: Map<Seq<u8>, Seq<u8>>, object: Seq<u8>)
    ensures
        stored(stored(m, object), object) == stored(m, object),
{
}

} // verus!
