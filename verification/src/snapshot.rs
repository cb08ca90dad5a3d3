//! Snapshots: the nodes of the history graph.

use crate::object_id::{digest, IdSet, ObjectId};
use crate::object_store::{extends, stored, ObjectStore};
use vstd::prelude::*;
use vstd::string::StringExecFns;

verus! {

/// A snapshot, as a model: its message, the identifier of its tree, and the identifiers of
/// the snapshots before it, in their order.
pub struct Record {
    pub message: Seq<char>,
    pub directory: Seq<u8>,
    pub previous: Seq<Seq<u8>>,
}

/// A particular snapshot of a version.
#[derive(Debug)]
pub struct SnapShot {
    /// The message added with the commit.
    pub message: String,
    /// The [`ObjectId`] of the directory structure.
    pub directory: ObjectId,
    /// The previous [`SnapShot`]s' [`ObjectId`]s, if there were some.
    pub previous: IdSet,
}

impl View for SnapShot {
    type V = Record;

    open spec fn view(&self) -> Record {
        Record { message: self.message@, directory: self.directory@, previous: self.previous@ }
    }
}

impl SnapShot {
    /// The set of previous snapshots is in order.
    pub open spec fn wf(&self) -> bool {
        self.previous.wf()
    }

    /// The first snapshot of a history: the message `init`, and no snapshot before it.
    pub fn initial(directory: ObjectId) -> (r: SnapShot)
        ensures
            r.wf(),
            r@ == (Record {
                message: "init"@,
                directory: directory@,
                previous: Seq::empty(),
            }),
    {
        SnapShot { message: String::from_str("init"), directory, previous: IdSet::new() }
    }

    /// The snapshot that follows the one at `tip`, which is the only one before it.
    pub fn after(tip: ObjectId, directory: ObjectId, message: String) -> (r: SnapShot)
        ensures
            r.wf(),
            r@ == (Record { message: message@, directory: directory@, previous: seq![tip@] }),
    {
        let mut previous = IdSet::new();
        previous.insert(tip);
        proof {
            crate::order::lemma_rank_bounds(Seq::<Seq<u8>>::empty(), tip@);
            assert(previous@ =~= seq![tip@]);
        }
        SnapShot { message, directory, previous }
    }

    /// Whether no snapshot stands before this one.
    pub fn is_root(&self) -> (r: bool)
        ensures
            r == (self@.previous.len() == 0),
    {
        self.previous.len() == 0
    }

    /// Whether two snapshots are the same.
    pub fn same(&self, other: &SnapShot) -> (r: bool)
        ensures
            r == (self@ == other@),
    {
        proof {
            self.directory.lemma_view_injective(other.directory);
        }
        self.message == other.message && self.directory == other.directory && self.previous.same(
            &other.previous,
        )
    }
}

/// Inserts the bytes of a tree into the store and makes the snapshot of that tree, with the
/// given message and the given snapshots before it. The snapshot depends on the bytes, the
/// message and the set alone. Whether the store succeeds or fails, what it held stays held,
/// unchanged.
pub fn create_snapshot<Store: ObjectStore>(
    store: &mut Store,
    tree: &[u8],
    message: String,
    parents: IdSet,
) -> (r: Result<SnapShot, Store::Error>)
    requires
        old(store).wf(),
        parents.wf(),
    ensures
        final(store).wf(),
        final(store).fallible() == old(store).fallible(),
        extends(old(store).contents(), final(store).contents()),
        match r {
            Ok(snapshot) => snapshot.wf() && snapshot@ == (Record {
                message: message@,
                directory: digest(tree@),
                previous: parents@,
            }) && final(store).contents() == stored(old(store).contents(), tree@),
            Err(_) => old(store).fallible(),
        },
{
    match store.insert(tree) {
        Ok(directory) => Ok(SnapShot { message, directory, previous: parents }),
        Err(e) => Err(e),
    }
}

impl Clone for SnapShot {
    fn clone(&self) -> (r: Self)
        ensures
            r@ == self@,
    {
        SnapShot {
            message: self.message.clone(),
            directory: self.directory,
            previous: self.previous.clone(),
        }
    }
}

impl PartialEq for SnapShot {
    fn eq(&self, other: &Self) -> (r: bool) {
        self.same(other)
    }
}

impl vstd::std_specs::cmp::PartialEqSpecImpl for SnapShot {
    open spec fn obeys_eq_spec() -> bool {
        true
    }

    open spec fn eq_spec(&self, other: &Self) -> bool {
        self@ == other@
    }
}

impl Eq for SnapShot {

}

} // verus!
