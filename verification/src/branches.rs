//! The branches of a repository: names that point at snapshots.

use crate::names::lookup;
use crate::object_id::ObjectId;
use crate::order::{
    index_of, lemma_placed_sorted, lemma_rank_bounds, lemma_same_keys_rank, lemma_same_keys_sorted,
    placed, put, rank, search, sorted, Key,
};
use vstd::prelude::*;
use vstd::utf8::encode_utf8;

verus! {

/// The branches, each with the identifier of the snapshot at its tip, in the order of their
/// names. No name occurs twice.
#[derive(Debug)]
pub struct Branches {
    branches: Vec<(String, ObjectId)>,
}

impl View for Branches {
    type V = Seq<(Seq<char>, Seq<u8>)>;

    closed spec fn view(&self) -> Seq<(Seq<char>, Seq<u8>)> {
        self.branches@.map_values(|b: (String, ObjectId)| (b.0@, b.1@))
    }
}

impl Branches {
    /// The names rise strictly.
    pub open spec fn wf(&self) -> bool {
        sorted(self@)
    }

    proof fn lemma_keys(&self, k: Seq<u8>)
        ensures
            self@.len() == self.branches@.len(),
            forall|i: int|
                0 <= i < self.branches@.len() ==> #[trigger] self@[i] == (
                    self.branches@[i].0@,
                    self.branches@[i].1@,
                ),
            sorted(self@) ==> sorted(self.branches@),
            rank(self@, k) == rank(self.branches@, k),
            index_of(self@, k) == index_of(self.branches@, k),
    {
        assert forall|i: int| 0 <= i < self@.len() implies #[trigger] self@[i].key()
            == self.branches@[i].key() by {}
        if sorted(self@) {
            lemma_same_keys_sorted(self@, self.branches@);
        }
        lemma_same_keys_rank(self@, self.branches@, k);
    }

    /// No branch.
    pub fn new() -> (r: Self)
        ensures
            r.wf(),
            r@ == Seq::<(Seq<char>, Seq<u8>)>::empty(),
    {
        let r = Branches { branches: Vec::new() };
        proof {
            assert(r@ =~= Seq::<(Seq<char>, Seq<u8>)>::empty());
        }
        r
    }

    /// The number of branches.
    pub fn len(&self) -> (n: usize)
        ensures
            n == self@.len(),
    {
        self.branches.len()
    }

    /// The name of the branch at a position.
    pub fn name_at(&self, i: usize) -> (name: &String)
        requires
            i < self@.len(),
        ensures
            name@ == self@[i as int].0,
    {
        &self.branches[i].0
    }

    /// The tip of the branch at a position.
    pub fn tip_at(&self, i: usize) -> (id: ObjectId)
        requires
            i < self@.len(),
        ensures
            id@ == self@[i as int].1,
    {
        self.branches[i].1
    }

    /// The tip of a branch, if the branch exists.
    pub fn tip(&self, name: &str) -> (r: Option<ObjectId>)
        requires
            self.wf(),
        ensures
            match r {
                Some(id) => lookup(self@, name@) == Some(id@),
                None => lookup(self@, name@) is None,
            },
    {
        proof {
            self.lemma_keys(encode_utf8(name@));
        }
        match search(&self.branches, name.as_bytes()) {
            Ok(i) => Some(self.branches[i].1),
            Err(_) => None,
        }
    }

    /// Whether the branch exists.
    pub fn contains(&self, name: &str) -> (r: bool)
        requires
            self.wf(),
        ensures
            r == lookup(self@, name@) is Some,
    {
        self.tip(name).is_some()
    }

    /// Points a branch at a snapshot. The branch is made if it does not exist.
    pub fn set_tip(&mut self, name: String, id: ObjectId)
        requires
            old(self).wf(),
        ensures
            final(self).wf(),
            final(self)@ == placed(old(self)@, (name@, id@)),
    {
        let ghost before = self@;
        let ghost e = (name@, id@);
        proof {
            self.lemma_keys(encode_utf8(name@));
            lemma_placed_sorted(before, e);
            lemma_rank_bounds(before, encode_utf8(name@));
        }
        put(&mut self.branches, (name, id));
        proof {
            assert(self@ =~= placed(before, e));
        }
    }
}

impl Clone for Branches {
    fn clone(&self) -> (r: Self)
        ensures
            r@ == self@,
    {
        let n = self.branches.len();
        let mut branches: Vec<(String, ObjectId)> = Vec::new();
        let mut i: usize = 0;
        while i < n
            invariant
                n == self.branches@.len(),
                i <= n,
                branches@.len() == i,
                forall|j: int|
                    0 <= j < i ==> (#[trigger] branches@[j]).0@ == self.branches@[j].0@
                        && branches@[j].1 == self.branches@[j].1,
            decreases n - i,
        {
            branches.push((self.branches[i].0.clone(), self.branches[i].1));
            i += 1;
        }
        let r = Branches { branches };
        proof {
            assert(r@ =~= self@);
        }
        r
    }
}

} // verus!
