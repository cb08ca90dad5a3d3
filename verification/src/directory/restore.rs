//! Writing a directory tree back out: the steps to take, in their order.

use crate::directory::{Directory, DirectoryEntry, Error};
use crate::object_id::ObjectId;
use crate::object_store::ObjectStore;
use crate::step::{acts_of, Act, Step};
use crate::tree::{Node, Tree};
use vstd::prelude::*;
use vstd::string::StringExecFns;

verus! {

/// The path of a name below a directory.
pub open spec fn below(path: Seq<char>, name: Seq<char>) -> Seq<char> {
    path + seq!['/'] + name
}

/// The first file among the first `n` entries of a tree, nested directories gone through
/// in full, whose object the store does not hold.
pub open spec fn first_missing(t: Tree, m: Map<Seq<u8>, Seq<u8>>, n: nat) -> Option<Seq<u8>>
    decreases t, n,
{
    if n == 0 || n > t.len() {
        None
    } else {
        match first_missing(t, m, (n - 1) as nat) {
            Some(id) => Some(id),
            None => match t[n - 1].1 {
                Node::File(id) => if m.contains_key(id) {
                    None
                } else {
                    Some(id)
                },
                Node::Directory(sub) => first_missing(sub, m, sub.len()),
            },
        }
    }
}

/// The steps that write out the first `n` entries of a tree below `path`: for a file, its
/// bytes from the store; for a directory, its creation and then the steps for its entries.
pub open spec fn restore_acts(path: Seq<char>, t: Tree, m: Map<Seq<u8>, Seq<u8>>, n: nat) -> Seq<
    Act,
>
    decreases t, n,
{
    if n == 0 || n > t.len() {
        Seq::empty()
    } else {
        let before = restore_acts(path, t, m, (n - 1) as nat);
        let p = below(path, t[n - 1].0);
        match t[n - 1].1 {
            Node::File(id) => before.push(Act::File(p, m[id])),
            Node::Directory(sub) => before.push(Act::Directory(p)) + restore_acts(
                p,
                sub,
                m,
                sub.len(),
            ),
        }
    }
}

/// The identifiers of the files among the first `n` entries of a tree, nested directories
/// gone through in full, in the order in which they are met.
pub open spec fn file_ids(t: Tree, n: nat) -> Seq<Seq<u8>>
    decreases t, n,
{
    if n == 0 || n > t.len() {
        Seq::empty()
    } else {
        let before = file_ids(t, (n - 1) as nat);
        match t[n - 1].1 {
            Node::File(id) => before.push(id),
            Node::Directory(sub) => before + file_ids(sub, sub.len()),
        }
    }
}

/// Whether a node is the file with the identifier, or a directory with that file in it.
pub open spec fn node_holds(node: Node, id: Seq<u8>) -> bool {
    match node {
        Node::File(x) => x == id,
        Node::Directory(sub) => file_ids(sub, sub.len()).contains(id),
    }
}

/// No object is missing exactly when the store holds the object of every file of the tree.
pub proof fn lemma_none_missing(t: Tree, m: Map<Seq<u8>, Seq<u8>>, n: nat)
    requires
        n <= t.len(),
    ensures
        first_missing(t, m, n) is None <==> forall|i: int|
            0 <= i < file_ids(t, n).len() ==> m.contains_key(#[trigger] file_ids(t, n)[i]),
        first_missing(t, m, n) matches Some(id) ==> file_ids(t, n).contains(id)
            && !m.contains_key(id),
    decreases t, n,
{
    if n > 0 {
        let before = file_ids(t, (n - 1) as nat);
        let all = file_ids(t, n);
        lemma_none_missing(t, m, (n - 1) as nat);
        match t[n - 1].1 {
            Node::File(id) => {
                assert(all[before.len() as int] == id);
                assert forall|i: int| 0 <= i < before.len() implies all[i] == before[i] by {}
                if first_missing(t, m, (n - 1) as nat) is Some {
                    let x = first_missing(t, m, (n - 1) as nat)->0;
                    let j = choose|j: int| 0 <= j < before.len() && before[j] == x;
                    assert(all[j] == x);
                }
            },
            Node::Directory(sub) => {
                let inner = file_ids(sub, sub.len());
                lemma_none_missing(sub, m, sub.len());
                assert forall|i: int| 0 <= i < before.len() implies all[i] == before[i] by {}
                assert forall|i: int| 0 <= i < inner.len() implies all[before.len() + i]
                    == inner[i] by {}
                if first_missing(t, m, (n - 1) as nat) is Some {
                    let x = first_missing(t, m, (n - 1) as nat)->0;
                    let j = choose|j: int| 0 <= j < before.len() && before[j] == x;
                    assert(all[j] == x);
                } else if first_missing(sub, m, sub.len()) is Some {
                    let x = first_missing(sub, m, sub.len())->0;
                    let j = choose|j: int| 0 <= j < inner.len() && inner[j] == x;
                    assert(all[before.len() + j] == x);
                } else {
                    assert forall|i: int| 0 <= i < all.len() implies m.contains_key(
                        #[trigger] all[i],
                    ) by {
                        if i < before.len() {
                            assert(all[i] == before[i]);
                        } else {
                            assert(all[i] == inner[i - before.len()]);
                        }
                    }
                }
            },
        }
    }
}

/// An identifier is among the files of the first `n` entries exactly when one of these
/// entries is that file, or a directory with that file in it.
pub proof fn lemma_file_ids_members(t: Tree, n: nat, id: Seq<u8>)
    requires
        n <= t.len(),
    ensures
        file_ids(t, n).contains(id) <==> exists|j: int|
            0 <= j < n && node_holds(#[trigger] t[j].1, id),
    decreases n,
{
    if n > 0 {
        let before = file_ids(t, (n - 1) as nat);
        let all = file_ids(t, n);
        lemma_file_ids_members(t, (n - 1) as nat, id);
        let last = t[n - 1].1;
        let tail: Seq<Seq<u8>> = match last {
            Node::File(x) => seq![x],
            Node::Directory(sub) => file_ids(sub, sub.len()),
        };
        assert(all =~= before + tail);
        assert(node_holds(last, id) <==> tail.contains(id)) by {
            match last {
                Node::File(x) => {
                    if x == id {
                        assert(tail[0] == id);
                    }
                },
                Node::Directory(sub) => {},
            }
        }
        if all.contains(id) {
            let i = choose|i: int| 0 <= i < all.len() && all[i] == id;
            if i < before.len() {
                assert(before[i] == id);
                let j = choose|j: int| 0 <= j < n - 1 && node_holds(#[trigger] t[j].1, id);
                assert(node_holds(t[j].1, id));
            } else {
                assert(tail[i - before.len()] == id);
                assert(node_holds(t[n - 1].1, id));
            }
        }
        if exists|j: int| 0 <= j < n && node_holds(#[trigger] t[j].1, id) {
            let j = choose|j: int| 0 <= j < n && node_holds(#[trigger] t[j].1, id);
            if j < n - 1 {
                assert(before.contains(id));
                let i = choose|i: int| 0 <= i < before.len() && before[i] == id;
                assert(all[i] == id);
            } else {
                let i = choose|i: int| 0 <= i < tail.len() && tail[i] == id;
                assert(all[before.len() + i] == id);
            }
        }
    }
}

/// The files among more of the entries are no fewer.
pub proof fn lemma_file_ids_grow(t: Tree, i: nat, n: nat)
    requires
        i <= n <= t.len(),
    ensures
        file_ids(t, i).len() <= file_ids(t, n).len(),
    decreases n - i,
{
    if i < n {
        lemma_file_ids_grow(t, i, (n - 1) as nat);
    }
}

/// A missing object that was met among the first entries is the first one of the whole tree.
pub proof fn lemma_first_missing_stays(t: Tree, m: Map<Seq<u8>, Seq<u8>>, i: nat, n: nat)
    requires
        i <= n <= t.len(),
        first_missing(t, m, i) is Some,
    ensures
        first_missing(t, m, n) == first_missing(t, m, i),
    decreases n - i,
{
    if i < n {
        lemma_first_missing_stays(t, m, i, (n - 1) as nat);
    }
}

/// What reading an object for a tree comes to: the bytes, or the fault that the object is
/// missing, or the store's own failure.
pub fn object_or_missing<Store: ObjectStore>(
    id: ObjectId,
    read: Result<Option<Vec<u8>>, Store::Error>,
) -> (r: Result<Vec<u8>, Error<Store>>)
    ensures
        match read {
            Ok(Some(bytes)) => r == Ok::<Vec<u8>, Error<Store>>(bytes),
            Ok(None) => r == Err::<Vec<u8>, Error<Store>>(Error::ObjectMissing(id)),
            Err(e) => r == Err::<Vec<u8>, Error<Store>>(Error::Store(e)),
        },
{
    match read {
        Ok(Some(bytes)) => Ok(bytes),
        Ok(None) => Err(Error::ObjectMissing(id)),
        Err(e) => Err(Error::Store(e)),
    }
}

/// The path of a name below a directory.
fn path_below(path: &str, name: &str) -> (r: String)
    ensures
        r@ == below(path@, name@),
{
    proof {
        reveal_strlit("/");
        assert("/"@ =~= seq!['/']);
    }
    let mut r = String::from_str(path);
    r.append("/");
    r.append(name);
    r
}

/// The identifiers as their bytes.
pub open spec fn ids_of(ids: Seq<ObjectId>) -> Seq<Seq<u8>> {
    ids.map_values(|id: ObjectId| id@)
}

impl Directory {
    /// Appends the identifiers of the files of the tree.
    fn collect(&self, ids: &mut Vec<ObjectId>)
        ensures
            ids_of(final(ids)@) == ids_of(old(ids)@) + file_ids(self@, self@.len()),
        decreases self,
    {
        let ghost before = ids_of(ids@);
        let n = self.len();
        let mut i: usize = 0;
        proof {
            assert(ids_of(ids@) =~= before + file_ids(self@, 0));
        }
        while i < n
            invariant
                n == self@.len(),
                i <= n,
                ids_of(ids@) == before + file_ids(self@, i as nat),
            decreases n - i,
        {
            let ghost so_far = ids_of(ids@);
            match self.entry_at(i) {
                DirectoryEntry::File(id) => {
                    ids.push(*id);
                    proof {
                        assert(ids_of(ids@) =~= so_far.push(id@));
                    }
                },
                DirectoryEntry::Directory(d) => {
                    (**d).collect(ids);
                    proof {
                        assert(ids_of(ids@) =~= before + file_ids(self@, (i + 1) as nat));
                    }
                },
            }
            i += 1;
        }
    }

    /// The identifiers of the files of the tree, nested directories gone through in full,
    /// in the order in which they are met: the objects that writing the tree out reads.
    pub fn objects(&self) -> (ids: Vec<ObjectId>)
        ensures
            ids_of(ids@) == file_ids(self@, self@.len()),
    {
        let mut ids: Vec<ObjectId> = Vec::new();
        proof {
            assert(ids_of(ids@) =~= Seq::<Seq<u8>>::empty());
        }
        self.collect(&mut ids);
        proof {
            assert(ids_of(ids@) =~= file_ids(self@, self@.len()));
        }
        ids
    }

    /// Appends the steps that write the tree out below `path`.
    fn plan<Store: ObjectStore>(&self, store: &Store, path: &str, steps: &mut Vec<Step>) -> (r:
        Result<(), Error<Store>>)
        requires
            store.wf(),
        ensures
            match r {
                Ok(()) => first_missing(self@, store.contents(), self@.len()) is None && acts_of(
                    final(steps)@,
                ) == acts_of(old(steps)@) + restore_acts(
                    path@,
                    self@,
                    store.contents(),
                    self@.len(),
                ),
                Err(Error::ObjectMissing(id)) => first_missing(
                    self@,
                    store.contents(),
                    self@.len(),
                ) == Some(id@),
                Err(Error::Store(_)) => store.fallible() && file_ids(self@, self@.len()).len() > 0,
            },
        decreases self,
    {
        let ghost m = store.contents();
        let ghost before = acts_of(steps@);
        let n = self.len();
        let mut i: usize = 0;
        proof {
            assert(acts_of(steps@) =~= before + restore_acts(path@, self@, m, 0));
        }
        while i < n
            invariant
                n == self@.len(),
                i <= n,
                store.wf(),
                m == store.contents(),
                first_missing(self@, m, i as nat) is None,
                acts_of(steps@) == before + restore_acts(path@, self@, m, i as nat),
            decreases n - i,
        {
            let p = path_below(path, self.name_at(i).as_str());
            let ghost so_far = acts_of(steps@);
            match self.entry_at(i) {
                DirectoryEntry::File(id) => {
                    match object_or_missing::<Store>(*id, store.read(*id)) {
                        Ok(bytes) => {
                            steps.push(Step::WriteFile(p, bytes));
                            proof {
                                assert(acts_of(steps@) =~= so_far.push(Act::File(p@, m[id@])));
                            }
                        },
                        Err(e) => {
                            proof {
                                lemma_file_ids_grow(self@, (i + 1) as nat, n as nat);
                                if e is ObjectMissing {
                                    assert(first_missing(self@, m, (i + 1) as nat) == Some(id@));
                                    lemma_first_missing_stays(self@, m, (i + 1) as nat, n as nat);
                                }
                            }
                            return Err(e);
                        },
                    }
                },
                DirectoryEntry::Directory(d) => {
                    steps.push(Step::CreateDirectory(p.clone()));
                    proof {
                        assert(acts_of(steps@) =~= so_far.push(Act::Directory(p@)));
                    }
                    match (**d).plan(store, p.as_str(), steps) {
                        Ok(()) => {
                            proof {
                                assert(acts_of(steps@) =~= before + restore_acts(
                                    path@,
                                    self@,
                                    m,
                                    (i + 1) as nat,
                                ));
                            }
                        },
                        Err(e) => {
                            proof {
                                lemma_file_ids_grow(self@, (i + 1) as nat, n as nat);
                                if e is ObjectMissing {
                                    assert(first_missing(self@, m, (i + 1) as nat) is Some);
                                    lemma_first_missing_stays(self@, m, (i + 1) as nat, n as nat);
                                }
                            }
                            return Err(e);
                        },
                    }
                },
            }
            i += 1;
        }
        Ok(())
    }

    /// The steps that write the tree out at `path`, which is taken to be a directory that
    /// exists: every file with its bytes from the store, every directory created before its
    /// entries. Nothing that stands at `path` already is removed. Fails when the store does
    /// not hold the object of a file, or fails itself; no step is handed out then. A tree
    /// without a file reads nothing and does not fail.
    pub fn write<Store: ObjectStore>(&self, store: &Store, path: &str) -> (r: Result<
        Vec<Step>,
        Error<Store>,
    >)
        requires
            store.wf(),
        ensures
            match r {
                Ok(steps) => first_missing(self@, store.contents(), self@.len()) is None
                    && acts_of(steps@) == restore_acts(
                    path@,
                    self@,
                    store.contents(),
                    self@.len(),
                ),
                Err(Error::ObjectMissing(id)) => first_missing(
                    self@,
                    store.contents(),
                    self@.len(),
                ) == Some(id@),
                Err(Error::Store(_)) => store.fallible() && file_ids(self@, self@.len()).len() > 0,
            },
    {
        let mut steps: Vec<Step> = Vec::new();
        proof {
            assert(acts_of(steps@) =~= Seq::<Act>::empty());
        }
        match self.plan(store, path, &mut steps) {
            Ok(()) => {
                proof {
                    assert(acts_of(steps@) =~= restore_acts(
                        path@,
                        self@,
                        store.contents(),
                        self@.len(),
                    ));
                }
                Ok(steps)
            },
            Err(e) => Err(e),
        }
    }
}

} // verus!
