//! The control directory of a repository, as a value: which branch is current, where each
//! branch points, and which names are ignored.

use crate::branches::Branches;
use crate::directory::Ignores;
use crate::names::{lemma_lookup_placed, lookup};
use crate::object_id::ObjectId;
use crate::object_store::directory::DirectoryObjectStore;
use crate::order::{placed, sorted};
use vstd::prelude::*;
use vstd::string::StringExecFns;

verus! {

/// The state of a control directory, as a model.
pub struct Control {
    /// The path of the control directory.
    pub root: Seq<char>,
    /// The name of the current branch.
    pub branch: Seq<char>,
    /// The branches with their tips, in the order of their names.
    pub branches: Seq<(Seq<char>, Seq<u8>)>,
    /// The names that are ignored.
    pub ignores: Seq<Seq<char>>,
}

/// What can go wrong in a control directory.
#[derive(Debug)]
pub enum Error {
    /// The store does not hold an object that a branch or a snapshot names.
    MissingObject(ObjectId),
    /// A branch was named that does not exist.
    UnknownBranch(String),
}

impl Error {
    /// The error says that the branch `name` does not exist.
    pub open spec fn unknown_branch(self, name: Seq<char>) -> bool {
        self matches Error::UnknownBranch(n) && n@ == name
    }

    /// The error says that the object `id` is missing.
    pub open spec fn missing_object(self, id: ObjectId) -> bool {
        self matches Error::MissingObject(m) && m == id
    }
}

/// The control directory of a repository.
#[derive(Debug)]
pub struct DotRev {
    root: String,
    branch: String,
    branches: Branches,
    ignores: Ignores,
}

/// The state after the tip of a branch was set; the branch is made if it did not exist.
pub open spec fn moved(c: Control, name: Seq<char>, id: Seq<u8>) -> Control {
    Control { branches: placed(c.branches, (name, id)), ..c }
}

/// The state after a branch was asked for: a branch that exists is left as it is; a new one
/// starts at the tip of the current branch, if that has one.
pub open spec fn forked(c: Control, name: Seq<char>) -> Control {
    if lookup(c.branches, name) is Some {
        c
    } else {
        match lookup(c.branches, c.branch) {
            Some(tip) => moved(c, name, tip),
            None => c,
        }
    }
}

/// The path of the object store below a control directory.
pub open spec fn store_root(root: Seq<char>) -> Seq<char> {
    root + seq!['/', 's', 't', 'o', 'r', 'e']
}

/// A branch forked from the current one keeps the tip it started with
/// when the tip of any other branch, the current one too, is moved.
pub proof fn lemma_branch_isolation(
    c: Control,
    new_branch: Seq<char>,
    other: Seq<char>,
    id: Seq<u8>,
)
    requires
        sorted(c.branches),
        lookup(c.branches, new_branch) is None,
        lookup(c.branches, c.branch) is Some,
        other != new_branch,
    ensures
        lookup(forked(c, new_branch).branches, new_branch) == lookup(c.branches, c.branch),
        lookup(moved(forked(c, new_branch), other, id).branches, new_branch) == lookup(
            c.branches,
            c.branch,
        ),
        lookup(moved(forked(c, new_branch), other, id).branches, other) == Some(id),
{
    let tip = lookup(c.branches, c.branch)->0;
    let f = forked(c, new_branch);
    lemma_lookup_placed(c.branches, (new_branch, tip), new_branch);
    lemma_lookup_placed(f.branches, (other, id), new_branch);
    lemma_lookup_placed(f.branches, (other, id), other);
}

/// Asking twice for a branch is the same as asking once: an existing branch is never
/// pointed elsewhere.
pub proof fn lemma_forked_twice(c: Control, name: Seq<char>)
    requires
        sorted(c.branches),
    ensures
        forked(forked(c, name), name) == forked(c, name),
{
    if lookup(c.branches, name) is None {
        match lookup(c.branches, c.branch) {
            Some(tip) => {
                lemma_lookup_placed(c.branches, (name, tip), name);
            },
            None => {},
        }
    }
}

/// The bytes that were read for an identifier, or the fault that the object is missing.
pub fn found_or_missing(id: ObjectId, found: Option<Vec<u8>>) -> (r: Result<Vec<u8>, Error>)
    ensures
        match found {
            Some(bytes) => r == Ok::<Vec<u8>, Error>(bytes),
            None => r matches Err(e) && e.missing_object(id),
        },
{
    match found {
        Some(bytes) => Ok(bytes),
        None => Err(Error::MissingObject(id)),
    }
}

impl View for DotRev {
    type V = Control;

    closed spec fn view(&self) -> Control {
        Control {
            root: self.root@,
            branch: self.branch@,
            branches: self.branches@,
            ignores: self.ignores.set@,
        }
    }
}

impl DotRev {
    /// The branches and the ignored names stand in order.
    pub open spec fn wf(&self) -> bool {
        sorted(self@.branches) && sorted(self@.ignores)
    }

    /// The control directory of a new repository: the one branch `dev`, which is current
    /// and points at the first snapshot, and `.rev` as the one ignored name.
    pub fn init(root: String, first: ObjectId) -> (r: Self)
        ensures
            r.wf(),
            r@ == (Control {
                root: root@,
                branch: "dev"@,
                branches: seq![("dev"@, first@)],
                ignores: seq![".rev"@],
            }),
    {
        let mut branches = Branches::new();
        branches.set_tip(String::from_str("dev"), first);
        proof {
            crate::order::lemma_rank_bounds(
                Seq::<(Seq<char>, Seq<u8>)>::empty(),
                vstd::utf8::encode_utf8("dev"@),
            );
            assert(branches@ =~= seq![("dev"@, first@)]);
        }
        DotRev { root, branch: String::from_str("dev"), branches, ignores: Ignores::default() }
    }

    /// The control directory with the state that was read from it.
    pub fn existing(root: String, branch: String, branches: Branches, ignores: Ignores) -> (r:
        Self)
        requires
            branches.wf(),
            ignores.wf(),
        ensures
            r.wf(),
            r@ == (Control {
                root: root@,
                branch: branch@,
                branches: branches@,
                ignores: ignores.set@,
            }),
    {
        DotRev { root, branch, branches, ignores }
    }

    /// The path of the control directory.
    pub fn root(&self) -> (r: &String)
        ensures
            r@ == self@.root,
    {
        &self.root
    }

    /// The name of the current branch.
    pub fn branch(&self) -> (r: &String)
        ensures
            r@ == self@.branch,
    {
        &self.branch
    }

    /// Makes a branch the current one. Whether it exists is not looked at.
    pub fn set_branch(&mut self, new_branch: &str)
        requires
            old(self).wf(),
        ensures
            final(self).wf(),
            final(self)@ == (Control { branch: new_branch@, ..old(self)@ }),
    {
        self.branch = String::from_str(new_branch);
    }

    /// Whether the branch exists.
    pub fn branch_exists(&self, branch: &str) -> (r: bool)
        requires
            self.wf(),
        ensures
            r == lookup(self@.branches, branch@) is Some,
    {
        self.branches.contains(branch)
    }

    /// The snapshot at the tip of a branch.
    pub fn branch_snapshot_id(&self, branch: &str) -> (r: Result<ObjectId, Error>)
        requires
            self.wf(),
        ensures
            match r {
                Ok(id) => lookup(self@.branches, branch@) == Some(id@),
                Err(e) => lookup(self@.branches, branch@) is None && e.unknown_branch(branch@),
            },
    {
        match self.branches.tip(branch) {
            Some(id) => Ok(id),
            None => Err(Error::UnknownBranch(String::from_str(branch))),
        }
    }

    /// Points a branch at a snapshot, whatever it pointed at. The branch is made if it
    /// does not exist.
    pub fn set_branch_snapshot_id(&mut self, branch: &str, object_id: ObjectId)
        requires
            old(self).wf(),
        ensures
            final(self).wf(),
            final(self)@ == moved(old(self)@, branch@, object_id@),
    {
        proof {
            crate::order::lemma_placed_sorted(self@.branches, (branch@, object_id@));
        }
        self.branches.set_tip(String::from_str(branch), object_id);
    }

    /// The snapshot at the tip of the current branch.
    pub fn current_snapshot_id(&self) -> (r: Result<ObjectId, Error>)
        requires
            self.wf(),
        ensures
            match r {
                Ok(id) => lookup(self@.branches, self@.branch) == Some(id@),
                Err(e) => lookup(self@.branches, self@.branch) is None && e.unknown_branch(
                    self@.branch,
                ),
            },
    {
        self.branch_snapshot_id(self.branch.as_str())
    }

    /// Makes a branch at the tip of the current one. A branch that exists is left as it is.
    /// Fails, and changes nothing, when the branch is new and the current branch has no tip.
    pub fn create_branch(&mut self, new_branch: &str) -> (r: Result<(), Error>)
        requires
            old(self).wf(),
        ensures
            final(self).wf(),
            final(self)@ == forked(old(self)@, new_branch@),
            r is Err <==> lookup(old(self)@.branches, new_branch@) is None && lookup(
                old(self)@.branches,
                old(self)@.branch,
            ) is None,
            r matches Err(e) ==> e.unknown_branch(old(self)@.branch),
    {
        if !self.branch_exists(new_branch) {
            match self.current_snapshot_id() {
                Ok(snapshot_id) => {
                    self.set_branch_snapshot_id(new_branch, snapshot_id);
                },
                Err(e) => {
                    return Err(e);
                },
            }
        }
        Ok(())
    }

    /// Switches to a branch, which is made first if it does not exist. Fails, and changes
    /// nothing, when the branch is new and the current branch has no tip.
    pub fn checkout(&mut self, branch: &str) -> (r: Result<(), Error>)
        requires
            old(self).wf(),
        ensures
            final(self).wf(),
            r is Err <==> lookup(old(self)@.branches, branch@) is None && lookup(
                old(self)@.branches,
                old(self)@.branch,
            ) is None,
            match r {
                Ok(()) => final(self)@ == (Control {
                    branch: branch@,
                    ..forked(old(self)@, branch@)
                }),
                Err(e) => final(self)@ == old(self)@ && e.unknown_branch(old(self)@.branch),
            },
    {
        match self.create_branch(branch) {
            Ok(()) => {
                self.set_branch(branch);
                Ok(())
            },
            Err(e) => Err(e),
        }
    }

    /// The branches with their tips.
    pub fn branches(&self) -> (r: &Branches)
        ensures
            r@ == self@.branches,
            self.wf() ==> r.wf(),
    {
        &self.branches
    }

    /// The object store of the repository whose control directory is `root`: it lies in
    /// the directory `store` below it.
    pub fn store_in(root: &str) -> (r: DirectoryObjectStore)
        ensures
            r.root_path() == store_root(root@),
    {
        proof {
            reveal_strlit("/store");
            assert("/store"@ =~= seq!['/', 's', 't', 'o', 'r', 'e']);
        }
        let mut path = String::from_str(root);
        path.append("/store");
        DirectoryObjectStore::new(path)
    }

    /// The object store of the repository, in the directory `store` below the control
    /// directory.
    pub fn store(&self) -> (r: DirectoryObjectStore)
        ensures
            r.root_path() == store_root(self@.root),
    {
        DotRev::store_in(self.root.as_str())
    }

    /// The names that are ignored.
    pub fn ignores(&self) -> (r: &Ignores)
        ensures
            r.set@ == self@.ignores,
            self.wf() ==> r.wf(),
    {
        &self.ignores
    }
}

} // verus!
