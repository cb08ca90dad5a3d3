//! Directory trees with object identifiers at the leaves, and the differences between them.

use crate::names::{lookup, NameSet};
use crate::object_id::ObjectId;
use crate::object_store::ObjectStore;
use crate::order::{
    index_of, lemma_placed_last, lemma_placed_sorted, lemma_rank_bounds, lemma_same_keys_rank,
    lemma_same_keys_sorted, lemma_sorted_take, placed, put, rank, search, sorted, Key,
};
use crate::tree::{
    absent_from, change_wf, changed, delta_wf, lemma_absent_from, lemma_tree_diff_wf, no_delta,
    node_diff, node_wf, tree_diff, tree_wf, Change, Delta, Node, Tree,
};
use vstd::prelude::*;
use vstd::string::StringExecFns;
use vstd::utf8::encode_utf8;

/// Building a tree from what stands in a working directory.
pub mod builder;
/// The text of a difference.
pub mod render;
/// Writing a tree back out.
pub mod restore;

verus! {

/// What a name in a directory stands for.
#[derive(Debug)]
pub enum DirectoryEntry {
    Directory(Box<Directory>),
    File(ObjectId),
}

/// A directory tree, with [`ObjectId`]s at the leaves. The entries stand in the order of
/// their names, and no name occurs twice.
#[derive(Debug)]
pub struct Directory {
    entries: Vec<(String, DirectoryEntry)>,
}

/// What can go wrong where a tree meets an object store.
pub enum Error<Store: ObjectStore> {
    /// The tree names an object that the store does not hold.
    ObjectMissing(ObjectId),
    /// The store failed.
    Store(Store::Error),
}

/// The set of file names which are ignored on every level.
#[derive(Debug)]
pub struct Ignores {
    pub set: NameSet,
}

impl Ignores {
    /// The names stand in order.
    pub open spec fn wf(&self) -> bool {
        self.set.wf()
    }

    /// Whether a name is ignored.
    pub fn contains(&self, name: &str) -> (r: bool)
        requires
            self.wf(),
        ensures
            r == self.set@.contains(name@),
    {
        self.set.contains(name)
    }
}

impl Default for Ignores {
    /// Only the control directory, `.rev`, is ignored.
    fn default() -> (r: Self)
        ensures
            r.wf(),
            r.set@ == seq![".rev"@],
    {
        let mut set = NameSet::new();
        set.insert(String::from_str(".rev"));
        proof {
            lemma_rank_bounds(Seq::<Seq<char>>::empty(), encode_utf8(".rev"@));
            assert(set@ =~= seq![".rev"@]);
        }
        Ignores { set }
    }
}

impl Clone for Ignores {
    fn clone(&self) -> (r: Self)
        ensures
            r.set@ == self.set@,
    {
        Ignores { set: self.set.clone() }
    }
}

impl PartialEq for Ignores {
    fn eq(&self, other: &Self) -> (r: bool) {
        self.set.same(&other.set)
    }
}

impl vstd::std_specs::cmp::PartialEqSpecImpl for Ignores {
    open spec fn obeys_eq_spec() -> bool {
        true
    }

    open spec fn eq_spec(&self, other: &Self) -> bool {
        self.set@ == other.set@
    }
}

impl Eq for Ignores {

}

/// How an entry that both sides hold has changed.
#[derive(Debug)]
pub enum DiffEntry {
    File(ObjectId),
    Directory(Box<Diff>),
}

/// The difference between two directory trees. Each part stands in the order of its names.
#[derive(Debug)]
pub struct Diff {
    deleted: NameSet,
    added: Directory,
    modified: Vec<(String, DiffEntry)>,
}

impl DiffEntry {
    /// The change that the entry stands for.
    pub open spec fn model(self) -> Change
        decreases self,
    {
        match self {
            DiffEntry::File(id) => Change::File(id@),
            DiffEntry::Directory(d) => Change::Directory(d.model()),
        }
    }

    /// The nested differences are well formed on every level.
    pub open spec fn wf(&self) -> bool {
        change_wf(self@)
    }
}

/// The changes that a vector of named entries stands for.
pub closed spec fn changes_of(m: Seq<(String, DiffEntry)>) -> Seq<(Seq<char>, Change)>
    decreases m,
{
    Seq::new(
        m.len(),
        |i: int|
            if 0 <= i < m.len() {
                (m[i].0@, m[i].1.model())
            } else {
                arbitrary()
            },
    )
}

impl Diff {
    /// The difference that the value stands for.
    pub closed spec fn model(self) -> Delta
        decreases self,
    {
        Delta {
            deleted: self.deleted@,
            added: self.added.model(),
            modified: changes_of(self.modified@),
        }
    }

    /// The names rise strictly in each part, on every level.
    pub open spec fn wf(&self) -> bool {
        delta_wf(self@)
    }
}

impl View for DiffEntry {
    type V = Change;

    open spec fn view(&self) -> Change {
        self.model()
    }
}

impl View for Diff {
    type V = Delta;

    open spec fn view(&self) -> Delta {
        self.model()
    }
}

impl DirectoryEntry {
    /// The node that the entry stands for.
    pub open spec fn model(self) -> Node
        decreases self,
    {
        match self {
            DirectoryEntry::File(id) => Node::File(id@),
            DirectoryEntry::Directory(d) => Node::Directory(d.model()),
        }
    }

    /// The nested trees are well formed on every level.
    pub open spec fn wf(&self) -> bool {
        node_wf(self@)
    }
}

impl Directory {
    /// The tree that the directory stands for.
    pub closed spec fn model(self) -> Tree
        decreases self,
    {
        Seq::new(
            self.entries@.len(),
            |i: int|
                if 0 <= i < self.entries@.len() {
                    (self.entries@[i].0@, self.entries@[i].1.model())
                } else {
                    arbitrary()
                },
        )
    }

    /// The names rise strictly, on every level.
    pub open spec fn wf(&self) -> bool {
        tree_wf(self@)
    }
}

impl View for DirectoryEntry {
    type V = Node;

    open spec fn view(&self) -> Node {
        self.model()
    }
}

impl View for Directory {
    type V = Tree;

    open spec fn view(&self) -> Tree {
        self.model()
    }
}

impl Directory {
    /// The model holds, entry by entry, the names and nodes of the vector.
    proof fn lemma_entries(&self)
        ensures
            self@.len() == self.entries@.len(),
            forall|i: int|
                0 <= i < self.entries@.len() ==> #[trigger] self@[i] == (
                    self.entries@[i].0@,
                    self.entries@[i].1@,
                ),
            forall|i: int|
                0 <= i < self.entries@.len() ==> #[trigger] self@[i].key()
                    == self.entries@[i].key(),
    {
    }

    /// The vector is sorted where the model is, and gives every key the same place.
    proof fn lemma_keys(&self, k: Seq<u8>)
        ensures
            sorted(self@) <==> sorted(self.entries@),
            rank(self@, k) == rank(self.entries@, k),
            index_of(self@, k) == index_of(self.entries@, k),
    {
        self.lemma_entries();
        if sorted(self@) {
            lemma_same_keys_sorted(self@, self.entries@);
        }
        if sorted(self.entries@) {
            assert forall|i: int|
                0 <= i < self.entries@.len() implies #[trigger] self.entries@[i].key()
                == self@[i].key() by {
                assert(self@[i].key() == self.entries@[i].key());
            }
            lemma_same_keys_sorted(self.entries@, self@);
        }
        lemma_same_keys_rank(self@, self.entries@, k);
    }

    /// The empty directory.
    pub fn empty() -> (r: Self)
        ensures
            r.wf(),
            r@ == Seq::<(Seq<char>, Node)>::empty(),
    {
        let r = Directory { entries: Vec::new() };
        proof {
            assert(r@ =~= Seq::<(Seq<char>, Node)>::empty());
        }
        r
    }

    /// The number of entries on the top level.
    pub fn len(&self) -> (n: usize)
        ensures
            n == self@.len(),
    {
        self.entries.len()
    }

    /// Whether the directory has no entry.
    pub fn is_empty(&self) -> (r: bool)
        ensures
            r == (self@.len() == 0),
    {
        self.entries.len() == 0
    }

    /// The name of the entry at a position.
    pub fn name_at(&self, i: usize) -> (name: &String)
        requires
            i < self@.len(),
        ensures
            name@ == self@[i as int].0,
    {
        &self.entries[i].0
    }

    /// The entry at a position.
    pub fn entry_at(&self, i: usize) -> (entry: &DirectoryEntry)
        requires
            i < self@.len(),
        ensures
            entry@ == self@[i as int].1,
            self.wf() ==> entry.wf(),
            decreases_to!(self => entry),
    {
        proof {
            if self.wf() {
                assert(node_wf(self@[i as int].1));
            }
        }
        &self.entries[i].1
    }

    /// The entry under a name, if there is one.
    pub fn get(&self, name: &str) -> (r: Option<&DirectoryEntry>)
        requires
            self.wf(),
        ensures
            match r {
                Some(entry) => lookup(self@, name@) == Some(entry@) && entry.wf(),
                None => lookup(self@, name@) is None,
            },
    {
        proof {
            self.lemma_keys(encode_utf8(name@));
        }
        match search(&self.entries, name.as_bytes()) {
            Ok(i) => Some(&self.entries[i].1),
            Err(_) => None,
        }
    }

    /// Whether there is an entry under the name.
    pub fn contains_key(&self, name: &str) -> (r: bool)
        requires
            self.wf(),
        ensures
            r == lookup(self@, name@) is Some,
    {
        self.get(name).is_some()
    }

    /// Puts an entry under a name, in place of the entry that was there, if any.
    pub fn insert(&mut self, name: String, entry: DirectoryEntry)
        requires
            old(self).wf(),
            entry.wf(),
        ensures
            final(self).wf(),
            final(self)@ == placed(old(self)@, (name@, entry@)),
    {
        let ghost before = self@;
        let ghost e = (name@, entry@);
        proof {
            self.lemma_keys(encode_utf8(name@));
            lemma_placed_sorted(before, e);
            lemma_rank_bounds(before, encode_utf8(name@));
        }
        put(&mut self.entries, (name, entry));
        proof {
            self.lemma_entries();
            assert(self@ =~= placed(before, e));
            assert forall|i: int| 0 <= i < self@.len() implies node_wf(#[trigger] self@[i].1) by {
                let p = rank(before, encode_utf8(name@));
                if index_of(before, encode_utf8(name@)) is Some {
                    if i != p {
                        assert(self@[i] == before[i]);
                    }
                } else if i < p {
                    assert(self@[i] == before[i]);
                } else if i > p {
                    assert(self@[i] == before[i - 1]);
                }
            }
        }
    }

    /// Whether two directories hold the same tree.
    pub fn same(&self, other: &Directory) -> (r: bool)
        ensures
            r == (self@ == other@),
        decreases self,
    {
        proof {
            self.lemma_entries();
            other.lemma_entries();
        }
        if self.entries.len() != other.entries.len() {
            return false;
        }
        let n = self.entries.len();
        let mut i: usize = 0;
        while i < n
            invariant
                n == self.entries@.len(),
                n == other.entries@.len(),
                i <= n,
                forall|j: int| 0 <= j < i ==> #[trigger] self@[j] == other@[j],
            decreases n - i,
        {
            proof {
                self.lemma_entries();
                other.lemma_entries();
            }
            if self.entries[i].0 != other.entries[i].0 {
                proof {
                    assert(self@[i as int] != other@[i as int]);
                }
                return false;
            }
            if !self.entries[i].1.same(&other.entries[i].1) {
                proof {
                    assert(self@[i as int] != other@[i as int]);
                }
                return false;
            }
            i += 1;
        }
        proof {
            assert(self@ =~= other@);
        }
        true
    }
}

impl DirectoryEntry {
    /// Whether two entries stand for the same node.
    pub fn same(&self, other: &DirectoryEntry) -> (r: bool)
        ensures
            r == (self@ == other@),
        decreases self,
    {
        match (self, other) {
            (DirectoryEntry::File(a), DirectoryEntry::File(b)) => {
                proof {
                    a.lemma_view_injective(*b);
                }
                *a == *b
            },
            (DirectoryEntry::Directory(a), DirectoryEntry::Directory(b)) => (**a).same(&**b),
            _ => false,
        }
    }
}

impl DirectoryEntry {
    /// How `other` differs from this entry, if it does.
    pub fn diff(&self, other: &DirectoryEntry) -> (r: Option<DiffEntry>)
        requires
            self.wf(),
            other.wf(),
        ensures
            match r {
                Some(d) => node_diff(self@, other@) == Some(d@) && d.wf(),
                None => node_diff(self@, other@) is None,
            },
        decreases self,
    {
        proof {
            crate::tree::lemma_node_diff_wf(self@, other@);
        }
        match (self, other) {
            (DirectoryEntry::File(id), DirectoryEntry::File(id_)) => {
                proof {
                    id.lemma_view_injective(*id_);
                }
                if *id != *id_ {
                    Some(DiffEntry::File(*id_))
                } else {
                    None
                }
            },
            (DirectoryEntry::Directory(_), DirectoryEntry::File(id)) => Some(DiffEntry::File(*id)),
            (DirectoryEntry::File(_), DirectoryEntry::Directory(d)) => {
                let whole = Diff {
                    deleted: NameSet::new(),
                    added: (**d).clone(),
                    modified: Vec::new(),
                };
                proof {
                    assert(whole@.modified =~= Seq::<(Seq<char>, Change)>::empty());
                }
                Some(DiffEntry::Directory(Box::new(whole)))
            },
            (DirectoryEntry::Directory(d), DirectoryEntry::Directory(d_)) => {
                if (**d).same(&**d_) {
                    None
                } else {
                    Some(DiffEntry::Directory(Box::new((**d).diff(&**d_))))
                }
            },
        }
    }
}

impl Directory {
    /// The entries of `self` whose names `other` does not hold.
    fn absent_from(&self, other: &Directory) -> (r: Directory)
        requires
            self.wf(),
            other.wf(),
        ensures
            r@ == absent_from(self@, other@),
            r.wf(),
    {
        let mut r = Directory::empty();
        let n = self.entries.len();
        let mut i: usize = 0;
        proof {
            self.lemma_entries();
            reveal(Seq::filter);
            assert(self@.take(0) =~= Seq::<(Seq<char>, Node)>::empty());
        }
        while i < n
            invariant
                self.wf(),
                other.wf(),
                n == self.entries@.len(),
                n == self@.len(),
                i <= n,
                r@ == absent_from(self@.take(i as int), other@),
                r.wf(),
            decreases n - i,
        {
            proof {
                self.lemma_entries();
                reveal(Seq::filter);
                let s = self@.take(i + 1);
                assert(s.drop_last() =~= self@.take(i as int));
                assert(s.last() == self@[i as int]);
                lemma_sorted_take(self@, i + 1);
                lemma_absent_from(s, other@);
                assert(node_wf(self@[i as int].1));
            }
            if !other.contains_key(self.entries[i].0.as_str()) {
                let name = self.entries[i].0.clone();
                let entry = self.entries[i].1.clone();
                proof {
                    lemma_placed_last(r@, (name@, entry@));
                }
                r.insert(name, entry);
            }
            i += 1;
        }
        proof {
            assert(self@.take(n as int) =~= self@);
        }
        r
    }

    /// The difference between this directory and `other`: what `other` has added, what it
    /// has deleted, and what it has modified, level by level.
    pub fn diff(&self, other: &Directory) -> (r: Diff)
        requires
            self.wf(),
            other.wf(),
        ensures
            r@ == tree_diff(self@, other@),
            r.wf(),
        decreases self,
    {
        let added = other.absent_from(self);
        let gone = self.absent_from(other);
        let mut deleted = NameSet::new();
        let mut k: usize = 0;
        proof {
            assert(gone@.take(0) =~= Seq::<(Seq<char>, Node)>::empty());
            assert(crate::names::names_of(gone@.take(0)) =~= Seq::<Seq<char>>::empty());
        }
        while k < gone.len()
            invariant
                gone.wf(),
                k <= gone@.len(),
                deleted.wf(),
                deleted@ == crate::names::names_of(gone@.take(k as int)),
            decreases gone@.len() - k,
        {
            let name = gone.name_at(k).clone();
            proof {
                let s = gone@.take(k + 1);
                lemma_sorted_take(gone@, k + 1);
                assert forall|j: int| 0 <= j < s.len() implies #[trigger] s[j].key()
                    == crate::names::names_of(s)[j].key() by {}
                lemma_same_keys_sorted(s, crate::names::names_of(s));
                assert(crate::names::names_of(s) =~= deleted@.push(name@));
                lemma_placed_last(deleted@, name@);
            }
            deleted.insert(name);
            k += 1;
        }
        proof {
            assert(gone@.take(gone@.len() as int) =~= gone@);
        }
        let n = self.entries.len();
        let mut modified: Vec<(String, DiffEntry)> = Vec::new();
        let mut i: usize = 0;
        proof {
            self.lemma_entries();
            assert(changes_of(modified@) =~= changed(self@, other@, 0));
        }
        while i < n
            invariant
                self.wf(),
                other.wf(),
                n == self.entries@.len(),
                n == self@.len(),
                i <= n,
                changes_of(modified@) == changed(self@, other@, i as nat),
            decreases n - i,
        {
            proof {
                self.lemma_entries();
                assert(node_wf(self@[i as int].1));
            }
            let ghost before = changes_of(modified@);
            match other.get(self.entries[i].0.as_str()) {
                Some(theirs) => {
                    match self.entries[i].1.diff(theirs) {
                        Some(d) => {
                            let name = self.entries[i].0.clone();
                            modified.push((name, d));
                            proof {
                                assert(changes_of(modified@) =~= before.push(
                                    (self@[i as int].0, d@),
                                ));
                            }
                        },
                        None => {},
                    }
                },
                None => {},
            }
            i += 1;
        }
        let r = Diff { deleted, added, modified };
        proof {
            lemma_tree_diff_wf(self@, other@);
        }
        r
    }
}

impl Diff {
    /// The model holds the three parts as they stand.
    proof fn lemma_parts(&self)
        ensures
            self@.deleted == self.deleted@,
            self@.added == self.added@,
            self@.modified.len() == self.modified@.len(),
            forall|i: int|
                0 <= i < self.modified@.len() ==> #[trigger] self@.modified[i] == (
                    self.modified@[i].0@,
                    self.modified@[i].1@,
                ),
            forall|i: int|
                0 <= i < self.modified@.len() ==> #[trigger] self@.modified[i].key()
                    == self.modified@[i].key(),
    {
    }

    /// The difference that has no part.
    pub fn new() -> (r: Self)
        ensures
            r.wf(),
            r@ == no_delta(),
    {
        let r = Diff { deleted: NameSet::new(), added: Directory::empty(), modified: Vec::new() };
        proof {
            assert(r@.modified =~= Seq::<(Seq<char>, Change)>::empty());
        }
        r
    }

    /// Whether the difference has no part.
    pub fn is_empty(&self) -> (r: bool)
        ensures
            r == (self@ == no_delta()),
    {
        proof {
            self.lemma_parts();
            if self@.deleted.len() == 0 && self@.added.len() == 0 && self@.modified.len() == 0 {
                assert(self@.deleted =~= no_delta().deleted);
                assert(self@.added =~= no_delta().added);
                assert(self@.modified =~= no_delta().modified);
            }
        }
        self.deleted.len() == 0 && self.added.len() == 0 && self.modified.len() == 0
    }

    /// The names that only the left side holds.
    pub fn deleted(&self) -> (r: &NameSet)
        ensures
            r@ == self@.deleted,
            self.wf() ==> r.wf(),
    {
        &self.deleted
    }

    /// What only the right side holds.
    pub fn added(&self) -> (r: &Directory)
        ensures
            r@ == self@.added,
            self.wf() ==> r.wf(),
    {
        &self.added
    }

    /// The number of modified names.
    pub fn modified_len(&self) -> (n: usize)
        ensures
            n == self@.modified.len(),
    {
        self.modified.len()
    }

    /// The modified name at a position.
    pub fn modified_name_at(&self, i: usize) -> (name: &String)
        requires
            i < self@.modified.len(),
        ensures
            name@ == self@.modified[i as int].0,
    {
        &self.modified[i].0
    }

    /// The change at a position.
    pub fn modified_entry_at(&self, i: usize) -> (entry: &DiffEntry)
        requires
            i < self@.modified.len(),
        ensures
            entry@ == self@.modified[i as int].1,
            self.wf() ==> entry.wf(),
            decreases_to!(self => entry),
    {
        proof {
            if self.wf() {
                assert(change_wf(self@.modified[i as int].1));
            }
        }
        &self.modified[i].1
    }

    /// The change under a name, if there is one.
    pub fn modified(&self, name: &str) -> (r: Option<&DiffEntry>)
        requires
            self.wf(),
        ensures
            match r {
                Some(entry) => lookup(self@.modified, name@) == Some(entry@),
                None => lookup(self@.modified, name@) is None,
            },
    {
        proof {
            self.lemma_parts();
            lemma_same_keys_sorted(self@.modified, self.modified@);
            lemma_same_keys_rank(self@.modified, self.modified@, encode_utf8(name@));
        }
        match search(&self.modified, name.as_bytes()) {
            Ok(i) => Some(&self.modified[i].1),
            Err(_) => None,
        }
    }

    /// Records a name as deleted.
    pub fn delete(&mut self, name: String)
        requires
            old(self).wf(),
        ensures
            final(self).wf(),
            final(self)@ == (Delta { deleted: placed(old(self)@.deleted, name@), ..old(self)@ }),
    {
        proof {
            lemma_placed_sorted(self@.deleted, name@);
        }
        self.deleted.insert(name);
    }

    /// Records an entry as added under a name.
    pub fn add(&mut self, name: String, entry: DirectoryEntry)
        requires
            old(self).wf(),
            entry.wf(),
        ensures
            final(self).wf(),
            final(self)@ == (Delta {
                added: placed(old(self)@.added, (name@, entry@)),
                ..old(self)@
            }),
    {
        self.added.insert(name, entry);
    }

    /// Records a change under a name.
    pub fn modify(&mut self, name: String, change: DiffEntry)
        requires
            old(self).wf(),
            change.wf(),
        ensures
            final(self).wf(),
            final(self)@ == (Delta {
                modified: placed(old(self)@.modified, (name@, change@)),
                ..old(self)@
            }),
    {
        let ghost before = self@.modified;
        let ghost e = (name@, change@);
        let ghost k = encode_utf8(name@);
        proof {
            self.lemma_parts();
            lemma_same_keys_sorted(before, self.modified@);
            lemma_same_keys_rank(before, self.modified@, k);
            lemma_placed_sorted(before, e);
            lemma_rank_bounds(before, k);
        }
        put(&mut self.modified, (name, change));
        proof {
            self.lemma_parts();
            assert(self@.modified =~= placed(before, e));
            assert forall|i: int| 0 <= i < self@.modified.len() implies change_wf(
                #[trigger] self@.modified[i].1,
            ) by {
                let p = rank(before, k);
                if index_of(before, k) is Some {
                    if i != p {
                        assert(self@.modified[i] == before[i]);
                    }
                } else if i < p {
                    assert(self@.modified[i] == before[i]);
                } else if i > p {
                    assert(self@.modified[i] == before[i - 1]);
                }
            }
        }
    }

    /// Whether two differences are the same.
    pub fn same(&self, other: &Diff) -> (r: bool)
        ensures
            r == (self@ == other@),
        decreases self,
    {
        proof {
            self.lemma_parts();
            other.lemma_parts();
        }
        if !self.deleted.same(&other.deleted) {
            return false;
        }
        if !self.added.same(&other.added) {
            return false;
        }
        let n = self.modified.len();
        if n != other.modified.len() {
            return false;
        }
        let mut i: usize = 0;
        while i < n
            invariant
                n == self.modified@.len(),
                n == other.modified@.len(),
                i <= n,
                forall|j: int| 0 <= j < i ==> #[trigger] self@.modified[j] == other@.modified[j],
            decreases n - i,
        {
            proof {
                self.lemma_parts();
                other.lemma_parts();
            }
            if self.modified[i].0 != other.modified[i].0 {
                proof {
                    assert(self@.modified[i as int] != other@.modified[i as int]);
                }
                return false;
            }
            if !self.modified[i].1.same(&other.modified[i].1) {
                proof {
                    assert(self@.modified[i as int] != other@.modified[i as int]);
                }
                return false;
            }
            i += 1;
        }
        proof {
            assert(self@.modified =~= other@.modified);
        }
        true
    }
}

impl DiffEntry {
    /// Whether two changes are the same.
    pub fn same(&self, other: &DiffEntry) -> (r: bool)
        ensures
            r == (self@ == other@),
        decreases self,
    {
        match (self, other) {
            (DiffEntry::File(a), DiffEntry::File(b)) => {
                proof {
                    a.lemma_view_injective(*b);
                }
                *a == *b
            },
            (DiffEntry::Directory(a), DiffEntry::Directory(b)) => (**a).same(&**b),
            _ => false,
        }
    }
}

impl Clone for DiffEntry {
    fn clone(&self) -> (r: Self)
        ensures
            r@ == self@,
        decreases self,
    {
        match self {
            DiffEntry::File(id) => DiffEntry::File(*id),
            DiffEntry::Directory(d) => DiffEntry::Directory(Box::new((**d).clone())),
        }
    }
}

impl Clone for Diff {
    fn clone(&self) -> (r: Self)
        ensures
            r@ == self@,
        decreases self,
    {
        let n = self.modified.len();
        let mut modified: Vec<(String, DiffEntry)> = Vec::new();
        let mut i: usize = 0;
        while i < n
            invariant
                n == self.modified@.len(),
                i <= n,
                modified@.len() == i,
                forall|j: int|
                    0 <= j < i ==> (#[trigger] modified@[j]).0@ == self.modified@[j].0@
                        && modified@[j].1@ == self.modified@[j].1@,
            decreases n - i,
        {
            let name = self.modified[i].0.clone();
            let change = self.modified[i].1.clone();
            modified.push((name, change));
            i += 1;
        }
        let r = Diff { deleted: self.deleted.clone(), added: self.added.clone(), modified };
        proof {
            assert(r@.modified =~= self@.modified);
        }
        r
    }
}

impl PartialEq for DiffEntry {
    fn eq(&self, other: &Self) -> (r: bool) {
        self.same(other)
    }
}

impl vstd::std_specs::cmp::PartialEqSpecImpl for DiffEntry {
    open spec fn obeys_eq_spec() -> bool {
        true
    }

    open spec fn eq_spec(&self, other: &Self) -> bool {
        self@ == other@
    }
}

impl Eq for DiffEntry {

}

impl PartialEq for Diff {
    fn eq(&self, other: &Self) -> (r: bool) {
        self.same(other)
    }
}

impl vstd::std_specs::cmp::PartialEqSpecImpl for Diff {
    open spec fn obeys_eq_spec() -> bool {
        true
    }

    open spec fn eq_spec(&self, other: &Self) -> bool {
        self@ == other@
    }
}

impl Eq for Diff {

}

impl Clone for DirectoryEntry {
    fn clone(&self) -> (r: Self)
        ensures
            r@ == self@,
        decreases self,
    {
        match self {
            DirectoryEntry::File(id) => DirectoryEntry::File(*id),
            DirectoryEntry::Directory(d) => DirectoryEntry::Directory(Box::new((**d).clone())),
        }
    }
}

impl Clone for Directory {
    fn clone(&self) -> (r: Self)
        ensures
            r@ == self@,
        decreases self,
    {
        let n = self.entries.len();
        let mut entries: Vec<(String, DirectoryEntry)> = Vec::new();
        let mut i: usize = 0;
        while i < n
            invariant
                n == self.entries@.len(),
                i <= n,
                entries@.len() == i,
                forall|j: int|
                    0 <= j < i ==> (#[trigger] entries@[j]).0@ == self.entries@[j].0@
                        && entries@[j].1@ == self.entries@[j].1@,
            decreases n - i,
        {
            let name = self.entries[i].0.clone();
            let entry = self.entries[i].1.clone();
            entries.push((name, entry));
            i += 1;
        }
        let r = Directory { entries };
        proof {
            assert(r@ =~= self@);
        }
        r
    }
}

impl PartialEq for DirectoryEntry {
    fn eq(&self, other: &Self) -> (r: bool) {
        self.same(other)
    }
}

impl vstd::std_specs::cmp::PartialEqSpecImpl for DirectoryEntry {
    open spec fn obeys_eq_spec() -> bool {
        true
    }

    open spec fn eq_spec(&self, other: &Self) -> bool {
        self@ == other@
    }
}

impl Eq for DirectoryEntry {

}

impl PartialEq for Directory {
    fn eq(&self, other: &Self) -> (r: bool) {
        self.same(other)
    }
}

impl vstd::std_specs::cmp::PartialEqSpecImpl for Directory {
    open spec fn obeys_eq_spec() -> bool {
        true
    }

    open spec fn eq_spec(&self, other: &Self) -> bool {
        self@ == other@
    }
}

impl Eq for Directory {

}

impl Default for Directory {
    /// The empty directory.
    fn default() -> (r: Self)
        ensures
            r.wf(),
            r@ == Seq::<(Seq<char>, Node)>::empty(),
    {
        Directory::empty()
    }
}

} // verus!
