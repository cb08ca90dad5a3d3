//! Building a directory tree from what was found in a working directory.

use crate::directory::restore::{
    file_ids, first_missing, lemma_file_ids_members, lemma_none_missing, node_holds,
};
use crate::directory::{Directory, DirectoryEntry, Error, Ignores};
use crate::object_id::digest;
use crate::object_store::{extends, lemma_extends_transitive, stored, ObjectStore};
use crate::order::{index_of, lemma_placed_sorted, lemma_rank_bounds, placed, rank, Key};
use crate::tree::{node_wf, tree_wf, Node, Tree};
use vstd::prelude::*;

verus! {

/// What stands under a name in a working directory.
pub enum FoundKind {
    /// A directory, with what was found in it.
    Directory(Vec<Found>),
    /// A regular file, with its bytes.
    File(Vec<u8>),
    /// Anything else: a link, a device, a socket.
    Other,
}

/// A name in a working directory, and what stands under it.
pub struct Found {
    pub name: String,
    pub kind: FoundKind,
}

/// The tree of the first `n` things found: a file by the identifier of its bytes, a
/// directory by the tree of what was found in it. A name that is ignored is left out with
/// all that stands below it, and so is what is neither a file nor a directory. Of two things
/// of one name the later one stays.
pub open spec fn built(found: Seq<Found>, ignores: Seq<Seq<char>>, n: nat) -> Tree
    decreases found, n,
{
    if n == 0 || n > found.len() {
        Seq::empty()
    } else {
        let rest = built(found, ignores, (n - 1) as nat);
        let f = found[n - 1];
        if ignores.contains(f.name@) {
            rest
        } else {
            match f.kind {
                FoundKind::Directory(sub) => placed(
                    rest,
                    (f.name@, Node::Directory(built(sub@, ignores, sub@.len()))),
                ),
                FoundKind::File(bytes) => placed(rest, (f.name@, Node::File(digest(bytes@)))),
                FoundKind::Other => rest,
            }
        }
    }
}

/// What a store holds after the files among the first `n` things found were inserted into
/// one that held `m`, in the order in which they were found, each directory in full before
/// what follows it.
pub open spec fn kept(
    m: Map<Seq<u8>, Seq<u8>>,
    found: Seq<Found>,
    ignores: Seq<Seq<char>>,
    n: nat,
) -> Map<Seq<u8>, Seq<u8>>
    decreases found, n,
{
    if n == 0 || n > found.len() {
        m
    } else {
        let before = kept(m, found, ignores, (n - 1) as nat);
        let f = found[n - 1];
        if ignores.contains(f.name@) {
            before
        } else {
            match f.kind {
                FoundKind::Directory(sub) => kept(before, sub@, ignores, sub@.len()),
                FoundKind::File(bytes) => stored(before, bytes@),
                FoundKind::Other => before,
            }
        }
    }
}

/// The byte strings that are handed to the store for the first `n` things found: the bytes
/// of each file that is not ignored, in the order in which the files are met.
pub open spec fn offered(found: Seq<Found>, ignores: Seq<Seq<char>>, n: nat) -> Seq<Seq<u8>>
    decreases found, n,
{
    if n == 0 || n > found.len() {
        Seq::empty()
    } else {
        let before = offered(found, ignores, (n - 1) as nat);
        let f = found[n - 1];
        if ignores.contains(f.name@) {
            before
        } else {
            match f.kind {
                FoundKind::Directory(sub) => before + offered(sub@, ignores, sub@.len()),
                FoundKind::File(bytes) => before.push(bytes@),
                FoundKind::Other => before,
            }
        }
    }
}

/// What a store holds after each of the objects was inserted in turn.
pub open spec fn stored_all(m: Map<Seq<u8>, Seq<u8>>, objects: Seq<Seq<u8>>) -> Map<
    Seq<u8>,
    Seq<u8>,
>
    decreases objects.len(),
{
    if objects.len() == 0 {
        m
    } else {
        stored(stored_all(m, objects.drop_last()), objects.last())
    }
}

/// Inserting two runs of objects one after the other is inserting them all.
pub proof fn lemma_stored_all_add(m: Map<Seq<u8>, Seq<u8>>, a: Seq<Seq<u8>>, b: Seq<Seq<u8>>)
    ensures
        stored_all(m, a + b) == stored_all(stored_all(m, a), b),
    decreases b.len(),
{
    if b.len() == 0 {
        assert(a + b =~= a);
    } else {
        lemma_stored_all_add(m, a, b.drop_last());
        assert((a + b).drop_last() =~= a + b.drop_last());
        assert((a + b).last() == b.last());
    }
}

/// What the store holds after the walk is what it held, with every object that was handed
/// to it inserted in turn.
pub proof fn lemma_kept_is_stored_all(
    m: Map<Seq<u8>, Seq<u8>>,
    found: Seq<Found>,
    ignores: Seq<Seq<char>>,
    n: nat,
)
    ensures
        kept(m, found, ignores, n) == stored_all(m, offered(found, ignores, n)),
    decreases found, n,
{
    if n == 0 || n > found.len() {
    } else {
        lemma_kept_is_stored_all(m, found, ignores, (n - 1) as nat);
        let before = offered(found, ignores, (n - 1) as nat);
        let f = found[n - 1];
        if !ignores.contains(f.name@) {
            match f.kind {
                FoundKind::Directory(sub) => {
                    lemma_kept_is_stored_all(
                        kept(m, found, ignores, (n - 1) as nat),
                        sub@,
                        ignores,
                        sub@.len(),
                    );
                    lemma_stored_all_add(m, before, offered(sub@, ignores, sub@.len()));
                },
                FoundKind::File(bytes) => {
                    assert(before.push(bytes@).drop_last() =~= before);
                },
                FoundKind::Other => {},
            }
        }
    }
}

/// What is handed to the store for more of the things found is no less.
pub proof fn lemma_offered_grows(found: Seq<Found>, ignores: Seq<Seq<char>>, i: nat, n: nat)
    requires
        i <= n <= found.len(),
    ensures
        offered(found, ignores, i).len() <= offered(found, ignores, n).len(),
    decreases n - i,
{
    if i < n {
        lemma_offered_grows(found, ignores, i, (n - 1) as nat);
    }
}

/// Inserting the files of a walk takes nothing out of the store.
pub proof fn lemma_kept_grows(
    m: Map<Seq<u8>, Seq<u8>>,
    found: Seq<Found>,
    ignores: Seq<Seq<char>>,
    n: nat,
    k: Seq<u8>,
)
    requires
        m.contains_key(k),
    ensures
        kept(m, found, ignores, n).contains_key(k),
    decreases found, n,
{
    if n == 0 || n > found.len() {
    } else {
        lemma_kept_grows(m, found, ignores, (n - 1) as nat, k);
        let before = kept(m, found, ignores, (n - 1) as nat);
        let f = found[n - 1];
        if !ignores.contains(f.name@) {
            match f.kind {
                FoundKind::Directory(sub) => {
                    lemma_kept_grows(before, sub@, ignores, sub@.len(), k);
                },
                _ => {},
            }
        }
    }
}

/// After a walk the store holds the object of every file of the tree that was built, so the
/// tree can be written out from it.
pub proof fn lemma_built_is_held(
    m: Map<Seq<u8>, Seq<u8>>,
    found: Seq<Found>,
    ignores: Seq<Seq<char>>,
    n: nat,
)
    ensures
        forall|id: Seq<u8>|
            file_ids(
                built(found, ignores, n),
                built(found, ignores, n).len(),
            ).contains(id) ==> #[trigger] kept(m, found, ignores, n).contains_key(id),
        first_missing(
            built(found, ignores, n),
            kept(m, found, ignores, n),
            built(found, ignores, n).len(),
        ) is None,
    decreases found, n,
{
    let t = built(found, ignores, n);
    let after = kept(m, found, ignores, n);
    if n == 0 || n > found.len() {
    } else {
        let rest = built(found, ignores, (n - 1) as nat);
        let before = kept(m, found, ignores, (n - 1) as nat);
        lemma_built_is_held(m, found, ignores, (n - 1) as nat);
        lemma_built_wf(found, ignores, (n - 1) as nat);
        let f = found[n - 1];
        if !ignores.contains(f.name@) && !(f.kind is Other) {
            let node: Node = match f.kind {
                FoundKind::Directory(sub) => Node::Directory(built(sub@, ignores, sub@.len())),
                FoundKind::File(bytes) => Node::File(digest(bytes@)),
                FoundKind::Other => arbitrary(),
            };
            let e = (f.name@, node);
            assert(t == placed(rest, e));
            lemma_rank_bounds(rest, e.key());
            let p = rank(rest, e.key());
            match f.kind {
                FoundKind::Directory(sub) => {
                    lemma_built_is_held(before, sub@, ignores, sub@.len());
                },
                _ => {},
            }
            assert forall|id: Seq<u8>|
                file_ids(t, t.len()).contains(id) implies #[trigger] after.contains_key(id) by {
                lemma_file_ids_members(t, t.len(), id);
                let j = choose|j: int| 0 <= j < t.len() && node_holds(#[trigger] t[j].1, id);
                if t[j] == e {
                } else {
                    let j0 = if index_of(rest, e.key()) is Some || j < p {
                        j
                    } else {
                        j - 1
                    };
                    assert(rest[j0] == t[j]);
                    assert(node_holds(rest[j0].1, id));
                    lemma_file_ids_members(rest, rest.len(), id);
                    assert(before.contains_key(id));
                    match f.kind {
                        FoundKind::Directory(sub) => {
                            lemma_kept_grows(before, sub@, ignores, sub@.len(), id);
                        },
                        _ => {},
                    }
                }
            }
        }
    }
    lemma_none_missing(t, after, t.len());
    assert forall|i: int| 0 <= i < file_ids(t, t.len()).len() implies after.contains_key(
        #[trigger] file_ids(t, t.len())[i],
    ) by {
        assert(file_ids(t, t.len()).contains(file_ids(t, t.len())[i]));
    }
}

/// The tree that is built is well formed.
pub proof fn lemma_built_wf(found: Seq<Found>, ignores: Seq<Seq<char>>, n: nat)
    ensures
        tree_wf(built(found, ignores, n)),
    decreases found, n,
{
    if n == 0 || n > found.len() {
    } else {
        let rest = built(found, ignores, (n - 1) as nat);
        lemma_built_wf(found, ignores, (n - 1) as nat);
        let f = found[n - 1];
        if !ignores.contains(f.name@) {
            match f.kind {
                FoundKind::Directory(sub) => {
                    lemma_built_wf(sub@, ignores, sub@.len());
                    lemma_placed_wf(
                        rest,
                        (f.name@, Node::Directory(built(sub@, ignores, sub@.len()))),
                    );
                },
                FoundKind::File(bytes) => {
                    lemma_placed_wf(rest, (f.name@, Node::File(digest(bytes@))));
                },
                FoundKind::Other => {},
            }
        }
    }
}

/// Putting a well-formed node into a well-formed tree leaves the tree well formed.
pub proof fn lemma_placed_wf(t: Tree, e: (Seq<char>, Node))
    requires
        tree_wf(t),
        node_wf(e.1),
    ensures
        tree_wf(placed(t, e)),
{
    let u = placed(t, e);
    lemma_placed_sorted(t, e);
    lemma_rank_bounds(t, e.0.key());
    let p = rank(t, e.0.key());
    assert forall|i: int| 0 <= i < u.len() implies node_wf(#[trigger] u[i].1) by {
        if index_of(t, e.0.key()) is Some {
            if i != p {
                assert(u[i] == t[i]);
            }
        } else if i < p {
            assert(u[i] == t[i]);
        } else if i > p {
            assert(u[i] == t[i - 1]);
        }
    }
}

impl Directory {
    /// Builds the tree of what was found in a working directory, and inserts the bytes of
    /// every file of the tree into the store. Names that are ignored are skipped on every
    /// level. Fails only where the store does, and so not where no file is met. Whether it
    /// succeeds or fails, what the store held stays held, unchanged.
    pub fn new<Store: ObjectStore>(found: &Vec<Found>, ignores: &Ignores, store: &mut Store) -> (r:
        Result<Directory, Error<Store>>)
        requires
            ignores.wf(),
            old(store).wf(),
        ensures
            final(store).wf(),
            final(store).fallible() == old(store).fallible(),
            extends(old(store).contents(), final(store).contents()),
            match r {
                Ok(d) => d.wf() && d@ == built(found@, ignores.set@, found@.len())
                    && final(store).contents() == kept(
                    old(store).contents(),
                    found@,
                    ignores.set@,
                    found@.len(),
                ),
                Err(e) => e is Store && old(store).fallible() && offered(
                    found@,
                    ignores.set@,
                    found@.len(),
                ).len() > 0,
            },
        decreases found,
    {
        let mut root = Directory::empty();
        let n = found.len();
        let mut i: usize = 0;
        while i < n
            invariant
                n == found@.len(),
                i <= n,
                ignores.wf(),
                store.wf(),
                store.fallible() == old(store).fallible(),
                extends(old(store).contents(), store.contents()),
                root.wf(),
                root@ == built(found@, ignores.set@, i as nat),
                store.contents() == kept(old(store).contents(), found@, ignores.set@, i as nat),
            decreases n - i,
        {
            let f = &found[i];
            let ghost held = store.contents();
            if !ignores.contains(f.name.as_str()) {
                match &f.kind {
                    FoundKind::Directory(sub) => {
                        let made = Directory::new(sub, ignores, store);
                        proof {
                            lemma_extends_transitive(
                                old(store).contents(),
                                held,
                                store.contents(),
                            );
                        }
                        match made {
                            Ok(directory) => {
                                root.insert(
                                    f.name.clone(),
                                    DirectoryEntry::Directory(Box::new(directory)),
                                );
                            },
                            Err(e) => {
                                proof {
                                    lemma_offered_grows(
                                        found@,
                                        ignores.set@,
                                        (i + 1) as nat,
                                        n as nat,
                                    );
                                }
                                return Err(e);
                            },
                        }
                    },
                    FoundKind::File(bytes) => {
                        let inserted = store.insert(bytes.as_slice());
                        proof {
                            lemma_extends_transitive(
                                old(store).contents(),
                                held,
                                store.contents(),
                            );
                        }
                        match inserted {
                            Ok(id) => {
                                root.insert(f.name.clone(), DirectoryEntry::File(id));
                            },
                            Err(e) => {
                                proof {
                                    lemma_offered_grows(
                                        found@,
                                        ignores.set@,
                                        (i + 1) as nat,
                                        n as nat,
                                    );
                                }
                                return Err(Error::Store(e));
                            },
                        }
                    },
                    FoundKind::Other => {},
                }
            }
            i += 1;
        }
        Ok(root)
    }
}

} // verus!
