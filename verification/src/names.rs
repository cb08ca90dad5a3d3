//! Names of files and branches, ordered as Rust orders strings: by the bytes of their UTF-8
//! encoding.

use crate::order::{
    index_of, item_at, lemma_sorted_ext, lemma_index_of_none, lemma_index_of_unique,
    lemma_placed_index_of, lemma_placed_sorted, lemma_rank_bounds, lemma_same_keys_rank,
    lemma_same_keys_sorted, placed, put, search, sorted, Key, Keyed,
};
use vstd::prelude::*;
use vstd::utf8::{encode_utf8, encode_utf8_decode_utf8};

verus! {

impl Key for Seq<char> {
    open spec fn key(&self) -> Seq<u8> {
        encode_utf8(*self)
    }
}

impl Key for String {
    open spec fn key(&self) -> Seq<u8> {
        encode_utf8(self@)
    }
}

impl Keyed for String {
    fn key_bytes(&self) -> (k: &[u8]) {
        self.as_str().as_bytes()
    }
}

impl<T> Key for (Seq<char>, T) {
    open spec fn key(&self) -> Seq<u8> {
        encode_utf8(self.0)
    }
}

impl<V> Key for (String, V) {
    open spec fn key(&self) -> Seq<u8> {
        encode_utf8(self.0@)
    }
}

impl<V> Keyed for (String, V) {
    fn key_bytes(&self) -> (k: &[u8]) {
        self.0.as_str().as_bytes()
    }
}

/// Different names have different keys.
pub proof fn lemma_name_key_injective(a: Seq<char>, b: Seq<char>)
    ensures
        encode_utf8(a) == encode_utf8(b) <==> a == b,
{
    encode_utf8_decode_utf8(a);
    encode_utf8_decode_utf8(b);
}

/// What is held under a name in a sequence of named items.
pub open spec fn lookup<T>(s: Seq<(Seq<char>, T)>, name: Seq<char>) -> Option<T> {
    match index_of(s, encode_utf8(name)) {
        Some(i) => Some(s[i].1),
        None => None,
    }
}

/// The names of a sequence of named items, in their order.
pub open spec fn names_of<T>(s: Seq<(Seq<char>, T)>) -> Seq<Seq<char>> {
    s.map_values(|e: (Seq<char>, T)| e.0)
}

/// In a sorted sequence every item is found under its own name, and under no other.
pub proof fn lemma_lookup_at<T>(s: Seq<(Seq<char>, T)>, i: int)
    requires
        sorted(s),
        0 <= i < s.len(),
    ensures
        lookup(s, s[i].0) == Some(s[i].1),
        index_of(s, encode_utf8(s[i].0)) == Some(i),
{
    lemma_index_of_unique(s, i);
}

/// What `lookup` finds stands in the sequence under that name; where it finds nothing, no
/// item has that name.
pub proof fn lemma_lookup<T>(s: Seq<(Seq<char>, T)>, name: Seq<char>)
    requires
        sorted(s),
    ensures
        match index_of(s, encode_utf8(name)) {
            Some(i) => 0 <= i < s.len() && s[i].0 == name,
            None => forall|j: int| 0 <= j < s.len() ==> (#[trigger] s[j]).0 != name,
        },
{
    match index_of(s, encode_utf8(name)) {
        Some(i) => {
            lemma_name_key_injective(s[i].0, name);
        },
        None => {
            lemma_index_of_none(s, encode_utf8(name));
            assert forall|j: int| 0 <= j < s.len() implies (#[trigger] s[j]).0 != name by {
                assert(s[j].key() != encode_utf8(name));
            }
        },
    }
}

/// Two sorted sequences of named items that hold the same under every name are equal.
pub proof fn lemma_lookup_ext<T>(s: Seq<(Seq<char>, T)>, t: Seq<(Seq<char>, T)>)
    requires
        sorted(s),
        sorted(t),
        forall|name: Seq<char>| lookup(s, name) == lookup(t, name),
    ensures
        s == t,
{
    assert forall|k: Seq<u8>| item_at(s, k) == item_at(t, k) by {
        if item_at(s, k) is Some {
            let e = item_at(s, k)->0;
            assert(lookup(s, e.0) == Some(e.1));
            assert(lookup(t, e.0) == Some(e.1));
            lemma_lookup(t, e.0);
        }
        if item_at(t, k) is Some {
            let e = item_at(t, k)->0;
            assert(lookup(t, e.0) == Some(e.1));
            assert(lookup(s, e.0) == Some(e.1));
            lemma_lookup(s, e.0);
        }
    }
    lemma_sorted_ext(s, t);
}

/// A sorted sequence of named items that holds nothing under any name is empty.
pub proof fn lemma_lookup_none<T>(s: Seq<(Seq<char>, T)>)
    requires
        sorted(s),
        forall|name: Seq<char>| lookup(s, name) is None,
    ensures
        s == Seq::<(Seq<char>, T)>::empty(),
{
    if s.len() > 0 {
        lemma_lookup_at(s, 0);
    }
    assert(s =~= Seq::<(Seq<char>, T)>::empty());
}

/// After an item was put in its place it is found under its name, and every other name
/// holds what it held before.
pub proof fn lemma_lookup_placed<T>(s: Seq<(Seq<char>, T)>, e: (Seq<char>, T), name: Seq<char>)
    requires
        sorted(s),
    ensures
        sorted(placed(s, e)),
        lookup(placed(s, e), name) == if name == e.0 {
            Some(e.1)
        } else {
            lookup(s, name)
        },
{
    lemma_placed_sorted(s, e);
    lemma_placed_index_of(s, e, encode_utf8(name));
    lemma_name_key_injective(name, e.0);
}

/// A set of names, held in their order.
#[derive(Debug)]
pub struct NameSet {
    names: Vec<String>,
}

impl View for NameSet {
    type V = Seq<Seq<char>>;

    closed spec fn view(&self) -> Seq<Seq<char>> {
        self.names@.map_values(|n: String| n@)
    }
}

impl NameSet {
    /// The names stand in strictly rising order.
    pub open spec fn wf(&self) -> bool {
        sorted(self@)
    }

    proof fn lemma_keys(&self)
        ensures
            self@.len() == self.names@.len(),
            forall|i: int|
                0 <= i < self.names@.len() ==> #[trigger] self.names@[i].key()
                    == self@[i].key(),
            forall|i: int| 0 <= i < self.names@.len() ==> #[trigger] self@[i] == self.names@[i]@,
    {
    }

    /// The empty set.
    pub fn new() -> (r: Self)
        ensures
            r.wf(),
            r@ == Seq::<Seq<char>>::empty(),
    {
        let r = NameSet { names: Vec::new() };
        proof {
            assert(r@ =~= Seq::<Seq<char>>::empty());
        }
        r
    }

    /// The number of names.
    pub fn len(&self) -> (n: usize)
        ensures
            n == self@.len(),
    {
        self.names.len()
    }

    /// The name at a position.
    pub fn get(&self, i: usize) -> (name: &String)
        requires
            i < self@.len(),
        ensures
            name@ == self@[i as int],
    {
        &self.names[i]
    }

    /// Whether the name is in the set.
    pub fn contains(&self, name: &str) -> (r: bool)
        requires
            self.wf(),
        ensures
            r == self@.contains(name@),
    {
        proof {
            self.lemma_keys();
            lemma_same_keys_sorted(self@, self.names@);
            lemma_same_keys_rank(self@, self.names@, encode_utf8(name@));
        }
        match search(&self.names, name.as_bytes()) {
            Ok(i) => {
                proof {
                    lemma_name_key_injective(self@[i as int], name@);
                }
                true
            },
            Err(_) => {
                proof {
                    lemma_index_of_none(self@, encode_utf8(name@));
                    if self@.contains(name@) {
                        let j = choose|j: int| 0 <= j < self@.len() && self@[j] == name@;
                        assert(self@[j].key() == encode_utf8(name@));
                    }
                }
                false
            },
        }
    }

    /// Adds a name, unless it is there already.
    pub fn insert(&mut self, name: String)
        requires
            old(self).wf(),
        ensures
            final(self).wf(),
            final(self)@ == placed(old(self)@, name@),
    {
        proof {
            self.lemma_keys();
            lemma_same_keys_sorted(self@, self.names@);
            lemma_same_keys_rank(self@, self.names@, encode_utf8(name@));
            lemma_placed_sorted(self@, name@);
            lemma_rank_bounds(self@, encode_utf8(name@));
        }
        let ghost before = self@;
        put(&mut self.names, name);
        proof {
            assert(self@ =~= placed(before, name@));
        }
    }
}

impl NameSet {
    /// Whether two sets hold the same names.
    pub fn same(&self, other: &NameSet) -> (r: bool)
        ensures
            r == (self@ == other@),
    {
        let n = self.names.len();
        if n != other.names.len() {
            proof {
                assert(self@.len() != other@.len());
            }
            return false;
        }
        let mut i: usize = 0;
        while i < n
            invariant
                n == self.names@.len(),
                n == other.names@.len(),
                i <= n,
                forall|j: int| 0 <= j < i ==> #[trigger] self@[j] == other@[j],
            decreases n - i,
        {
            if self.names[i] != other.names[i] {
                proof {
                    assert(self@[i as int] != other@[i as int]);
                }
                return false;
            }
            i += 1;
        }
        proof {
            assert(self@ =~= other@);
        }
        true
    }
}

impl Clone for NameSet {
    fn clone(&self) -> (r: Self)
        ensures
            r@ == self@,
    {
        let n = self.names.len();
        let mut names: Vec<String> = Vec::new();
        let mut i: usize = 0;
        while i < n
            invariant
                n == self.names@.len(),
                i <= n,
                names@.len() == i,
                forall|j: int| 0 <= j < i ==> (#[trigger] names@[j])@ == self.names@[j]@,
            decreases n - i,
        {
            names.push(self.names[i].clone());
            i += 1;
        }
        let r = NameSet { names };
        proof {
            assert(r@ =~= self@);
        }
        r
    }
}

impl PartialEq for NameSet {
    fn eq(&self, other: &Self) -> (r: bool) {
        self.same(other)
    }
}

impl vstd::std_specs::cmp::PartialEqSpecImpl for NameSet {
    open spec fn obeys_eq_spec() -> bool {
        true
    }

    open spec fn eq_spec(&self, other: &Self) -> bool {
        self@ == other@
    }
}

impl Eq for NameSet {

}

} // verus!
