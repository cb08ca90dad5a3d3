//! An object store that lives in memory.

use crate::object_id::ObjectId;
use crate::object_store::{consistent, ObjectStore};
use crate::order::{
    index_of, lemma_index_of_unique, lemma_placed_index_of, lemma_placed_sorted, placed, search,
    sorted, Key, Keyed,
};
use std::convert::Infallible;
use vstd::prelude::*;
use vstd::slice::slice_to_vec;

verus! {

/// An object together with its identifier.
pub struct StoredObject {
    id: ObjectId,
    bytes: Vec<u8>,
}

impl Key for StoredObject {
    closed spec fn key(&self) -> Seq<u8> {
        self.id@
    }
}

impl Keyed for StoredObject {
    fn key_bytes(&self) -> (k: &[u8]) {
        self.id.key_bytes()
    }
}

/// An ephemeral [`ObjectStore`]: the objects in a vector, in the order of their identifiers.
pub struct InMemoryObjectStore {
    objects: Vec<StoredObject>,
}

/// The map that a sorted sequence of objects stands for.
pub closed spec fn held(s: Seq<StoredObject>) -> Map<Seq<u8>, Seq<u8>> {
    Map::new(|k: Seq<u8>| index_of(s, k) is Some, |k: Seq<u8>| s[index_of(s, k)->0].bytes@)
}

impl InMemoryObjectStore {
    /// Creates a new, empty store.
    pub fn new() -> (store: Self)
        ensures
            store.wf(),
            store.contents() == Map::<Seq<u8>, Seq<u8>>::empty(),
    {
        let store = InMemoryObjectStore { objects: Vec::new() };
        proof {
            assert(store.contents() =~= Map::<Seq<u8>, Seq<u8>>::empty());
        }
        store
    }

    /// The number of objects held.
    pub fn len(&self) -> (n: usize)
        requires
            self.wf(),
        ensures
            n == self.contents().len(),
            n == self.listing().len(),
            self.contents().dom().finite(),
    {
        proof {
            lemma_held_len(self.objects@);
        }
        self.objects.len()
    }

    /// The objects with their identifiers, in the order of the identifiers.
    pub closed spec fn listing(&self) -> Seq<(Seq<u8>, Seq<u8>)> {
        self.objects@.map_values(|o: StoredObject| (o.id@, o.bytes@))
    }

    /// The listing holds what the store holds: each object once, under its identifier.
    pub proof fn lemma_listing(&self)
        requires
            self.wf(),
        ensures
            forall|i: int|
                0 <= i < self.listing().len() ==> self.contents().contains_key(
                    (#[trigger] self.listing()[i]).0,
                ) && self.contents()[self.listing()[i].0] == self.listing()[i].1,
            forall|k: Seq<u8>|
                self.contents().contains_key(k) ==> exists|i: int|
                    0 <= i < self.listing().len() && (#[trigger] self.listing()[i]).0 == k,
            forall|i: int, j: int|
                0 <= i < j < self.listing().len() ==> crate::order::precedes(
                    (#[trigger] self.listing()[i]).0,
                    (#[trigger] self.listing()[j]).0,
                ),
    {
        let s = self.objects@;
        let l = self.listing();
        assert forall|i: int| 0 <= i < l.len() implies self.contents().contains_key(
            (#[trigger] l[i]).0,
        ) && self.contents()[l[i].0] == l[i].1 by {
            lemma_index_of_unique(s, i);
        }
        assert forall|k: Seq<u8>| self.contents().contains_key(k) implies exists|i: int|
            0 <= i < l.len() && (#[trigger] l[i]).0 == k by {
            let i = index_of(s, k)->0;
            assert(l[i].0 == k);
        }
        assert forall|i: int, j: int| 0 <= i < j < l.len() implies crate::order::precedes(
            (#[trigger] l[i]).0,
            (#[trigger] l[j]).0,
        ) by {
            assert(crate::order::precedes(s[i].key(), s[j].key()));
        }
    }

    /// Every object of the store is held under its own identifier.
    pub proof fn lemma_consistent(&self)
        requires
            self.wf(),
        ensures
            consistent(self.contents()),
    {
    }

    /// The identifier of the object at a position of the listing.
    pub fn id_at(&self, i: usize) -> (id: ObjectId)
        requires
            i < self.listing().len(),
        ensures
            id@ == self.listing()[i as int].0,
    {
        self.objects[i].id
    }

    /// The bytes of the object at a position of the listing.
    pub fn bytes_at(&self, i: usize) -> (bytes: &Vec<u8>)
        requires
            i < self.listing().len(),
        ensures
            bytes@ == self.listing()[i as int].1,
    {
        &self.objects[i].bytes
    }
}

/// A sorted sequence of objects stands for a finite map with one entry per object.
proof fn lemma_held_len(s: Seq<StoredObject>)
    requires
        sorted(s),
    ensures
        held(s).dom().finite(),
        held(s).len() == s.len(),
    decreases s.len(),
{
    if s.len() == 0 {
        assert(held(s) =~= Map::<Seq<u8>, Seq<u8>>::empty());
    } else {
        let t = s.drop_last();
        let e = s.last();
        assert(sorted(t)) by {
            assert forall|i: int, j: int| 0 <= i < j < t.len() implies crate::order::precedes(
                #[trigger] t[i].key(),
                #[trigger] t[j].key(),
            ) by {
                assert(t[i] == s[i] && t[j] == s[j]);
            }
        }
        lemma_held_len(t);
        assert(held(s) =~= held(t).insert(e.key(), e.bytes@)) by {
            assert forall|k: Seq<u8>| held(s).contains_key(k) <==> held(t).insert(
                e.key(),
                e.bytes@,
            ).contains_key(k) by {
                if index_of(s, k) is Some {
                    let i = index_of(s, k)->0;
                    if i < t.len() {
                        assert(t[i] == s[i]);
                        lemma_index_of_unique(t, i);
                    }
                }
                if index_of(t, k) is Some {
                    let i = index_of(t, k)->0;
                    assert(t[i] == s[i]);
                    lemma_index_of_unique(s, i);
                }
                if k == e.key() {
                    lemma_index_of_unique(s, s.len() - 1);
                }
            }
            assert forall|k: Seq<u8>| held(s).contains_key(k) implies held(s)[k] == held(
                t,
            ).insert(e.key(), e.bytes@)[k] by {
                let i = index_of(s, k)->0;
                if i < t.len() {
                    assert(t[i] == s[i]);
                    lemma_index_of_unique(t, i);
                    lemma_index_of_unique(s, i);
                    lemma_index_of_unique(s, s.len() - 1);
                }
            }
        }
        assert(!held(t).contains_key(e.key())) by {
            if index_of(t, e.key()) is Some {
                let i = index_of(t, e.key())->0;
                assert(t[i] == s[i]);
                lemma_index_of_unique(s, s.len() - 1);
            }
        }
    }
}

impl ObjectStore for InMemoryObjectStore {
    type Error = Infallible;

    closed spec fn wf(&self) -> bool {
        sorted(self.objects@) && consistent(held(self.objects@))
    }

    closed spec fn contents(&self) -> Map<Seq<u8>, Seq<u8>> {
        held(self.objects@)
    }

    open spec fn fallible(&self) -> bool {
        false
    }

    fn has(&self, id: ObjectId) -> (r: Result<bool, Self::Error>) {
        match search(&self.objects, id.key_bytes()) {
            Ok(_) => Ok(true),
            Err(_) => Ok(false),
        }
    }

    fn read(&self, id: ObjectId) -> (r: Result<Option<Vec<u8>>, Self::Error>) {
        match search(&self.objects, id.key_bytes()) {
            Ok(i) => Ok(Some(self.objects[i].bytes.clone())),
            Err(_) => Ok(None),
        }
    }

    fn insert(&mut self, object: &[u8]) -> (r: Result<ObjectId, Self::Error>) {
        let id = ObjectId::of(object);
        match search(&self.objects, id.key_bytes()) {
            Ok(_) => {},
            Err(i) => {
                let e = StoredObject { id, bytes: slice_to_vec(object) };
                proof {
                    let s = self.objects@;
                    let t = placed(s, e);
                    lemma_placed_sorted(s, e);
                    assert(t == s.insert(i as int, e));
                    assert(held(t) =~= held(s).insert(id@, object@)) by {
                        assert forall|k: Seq<u8>| held(t).contains_key(k) <==> held(s).insert(
                            id@,
                            object@,
                        ).contains_key(k) by {
                            lemma_placed_index_of(s, e, k);
                        }
                        assert forall|k: Seq<u8>| held(t).contains_key(k) implies held(t)[k]
                            == held(s).insert(id@, object@)[k] by {
                            lemma_placed_index_of(s, e, k);
                        }
                    }
                }
                self.objects.insert(i, e);
            },
        }
        Ok(id)
    }
}

} // verus!
