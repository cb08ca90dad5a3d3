//! Identifiers of binary content: the BLAKE3 digest of the bytes.

use crate::hex;
use crate::hex::Hex;
use crate::order::{compare, Key, Keyed, Place};
use std::cmp::Ordering;
use vstd::prelude::*;
use vstd::slice::slice_to_vec;

verus! {

/// The BLAKE3 digest of a byte string: what `blake3::hash` returns for it, as 32 bytes.
pub uninterp spec fn digest(data: Seq<u8>) -> Seq<u8>;

/// Calls `blake3::hash` and copies the 32 bytes of the `Hash` it returns. The function is
/// total and depends on its input alone, so the result is the digest of the input.
#[verifier::external_body]
fn blake3_hash(data: &[u8]) -> (r: [u8; 32])
    ensures
        r@ == digest(data@),
{
    *blake3::hash(data).as_bytes()
}

/// Text that does not stand for an identifier.
#[derive(Clone, Copy, Debug, PartialEq, Eq, Structural)]
pub struct MalformedIdentifier;

/// An identifier for a particular piece of binary content: its 256-bit digest.
#[derive(Clone, Copy, Debug, Hash, Ord)]
pub struct ObjectId {
    bytes: [u8; 32],
}

impl View for ObjectId {
    type V = Seq<u8>;

    closed spec fn view(&self) -> Seq<u8> {
        self.bytes@
    }
}

impl ObjectId {
    /// Every identifier has 32 bytes.
    pub proof fn lemma_len(self)
        ensures
            self@.len() == 32,
    {
    }

    /// Two identifiers with the same bytes are the same identifier.
    pub proof fn lemma_view_injective(self, other: ObjectId)
        ensures
            self@ == other@ <==> self == other,
    {
        if self@ == other@ {
            assert(self.bytes =~= other.bytes);
        }
    }

    /// The identifier of a byte string.
    pub fn of(data: &[u8]) -> (id: ObjectId)
        ensures
            id@ == digest(data@),
    {
        ObjectId { bytes: blake3_hash(data) }
    }

    /// The identifier with the given digest.
    pub fn from_bytes(bytes: [u8; 32]) -> (id: ObjectId)
        ensures
            id@ == bytes@,
    {
        ObjectId { bytes }
    }

    /// The digest.
    pub fn as_bytes(&self) -> (r: &[u8; 32])
        ensures
            r@ == self@,
    {
        &self.bytes
    }

    /// Where this identifier stands relative to another, by the bytes of the digest.
    pub fn compare(&self, other: &ObjectId) -> (r: Place)
        ensures
            r is Before <==> crate::order::precedes(self@, other@),
            r is Same <==> self@ == other@,
            r is After <==> crate::order::precedes(other@, self@),
    {
        compare(self.bytes.as_slice(), other.bytes.as_slice())
    }

    /// The identifier in lowercase hexadecimal.
    pub fn to_hex(&self) -> (h: Hex)
        ensures
            h@ == hex::encode(self@),
    {
        Hex::from(self.bytes.as_slice())
    }

    /// The identifier in lowercase hexadecimal, 64 characters.
    pub fn to_string(&self) -> (s: String)
        ensures
            s@ == hex::as_chars(hex::encode(self@)),
            s@.len() == 64,
    {
        self.to_hex().to_string()
    }

    /// The hexadecimal text of an identifier is well formed, has 64 digits, and reads back
    /// as the identifier; and text that reads as an identifier is the text of that
    /// identifier. So every identifier has one text, and that text one identifier.
    pub proof fn lemma_hex_round_trip(self, text: Seq<u8>)
        ensures
            hex::well_formed(hex::encode(self@)),
            hex::encode(self@).len() == 64,
            hex::decode(hex::encode(self@)) == self@,
            hex::well_formed(text) && text.len() == 64 && hex::decode(text) == self@
                ==> text == hex::encode(self@),
    {
        hex::lemma_decode_encode(self@);
        if hex::well_formed(text) {
            hex::lemma_encode_decode(text);
        }
    }

    /// Reads an identifier from its hexadecimal text: 64 lowercase hexadecimal digits,
    /// no more and no fewer. Any other text is malformed.
    pub fn from_hex(text: &[u8]) -> (r: Result<ObjectId, MalformedIdentifier>)
        ensures
            r is Ok <==> hex::well_formed(text@) && text@.len() == 64,
            r matches Ok(id) ==> id@ == hex::decode(text@),
    {
        let copy = slice_to_vec(text);
        match Hex::from_text(copy) {
            None => Err(MalformedIdentifier),
            Some(h) => {
                let v = h.to_bytes();
                if v.len() != 32 {
                    return Err(MalformedIdentifier);
                }
                let mut bytes: [u8; 32] = [0u8; 32];
                let mut i: usize = 0;
                while i < 32
                    invariant
                        i <= 32,
                        v.len() == 32,
                        bytes@.len() == 32,
                        forall|j: int| 0 <= j < i ==> bytes@[j] == v@[j],
                    decreases 32 - i,
                {
                    bytes[i] = v[i];
                    i += 1;
                }
                proof {
                    assert(bytes@ =~= v@);
                }
                Ok(ObjectId { bytes })
            },
        }
    }
}

impl PartialEq for ObjectId {
    fn eq(&self, other: &Self) -> (r: bool) {
        proof {
            self.lemma_view_injective(*other);
        }
        match self.compare(other) {
            Place::Same => true,
            _ => false,
        }
    }
}

impl vstd::std_specs::cmp::PartialEqSpecImpl for ObjectId {
    open spec fn obeys_eq_spec() -> bool {
        true
    }

    open spec fn eq_spec(&self, other: &Self) -> bool {
        *self == *other
    }
}

impl Eq for ObjectId {

}

impl PartialOrd for ObjectId {
    fn partial_cmp(&self, other: &Self) -> (r: Option<Ordering>) {
        match self.compare(other) {
            Place::Before => Some(Ordering::Less),
            Place::Same => Some(Ordering::Equal),
            Place::After => Some(Ordering::Greater),
        }
    }
}

impl vstd::std_specs::cmp::PartialOrdSpecImpl for ObjectId {
    open spec fn obeys_partial_cmp_spec() -> bool {
        true
    }

    /// Identifiers are ordered by the bytes of their digests.
    open spec fn partial_cmp_spec(&self, other: &Self) -> Option<Ordering> {
        if crate::order::precedes(self@, other@) {
            Some(Ordering::Less)
        } else if self@ == other@ {
            Some(Ordering::Equal)
        } else {
            Some(Ordering::Greater)
        }
    }
}

impl Key for ObjectId {
    open spec fn key(&self) -> Seq<u8> {
        self@
    }
}

impl Keyed for ObjectId {
    fn key_bytes(&self) -> (k: &[u8]) {
        let k = self.bytes.as_slice();
        assert(k@ == self@);
        k
    }
}

impl vstd::std_specs::convert::FromSpecImpl<&[u8]> for ObjectId {
    open spec fn obeys_from_spec() -> bool {
        false
    }

    open spec fn from_spec(data: &[u8]) -> Self {
        arbitrary()
    }
}

impl From<&[u8]> for ObjectId {
    /// The identifier of a byte string.
    fn from(data: &[u8]) -> (id: ObjectId)
        ensures
            id@ == digest(data@),
    {
        ObjectId::of(data)
    }
}

impl vstd::std_specs::convert::FromSpecImpl<&Vec<u8>> for ObjectId {
    open spec fn obeys_from_spec() -> bool {
        false
    }

    open spec fn from_spec(data: &Vec<u8>) -> Self {
        arbitrary()
    }
}

impl From<&Vec<u8>> for ObjectId {
    /// The identifier of a byte string.
    fn from(data: &Vec<u8>) -> (id: ObjectId)
        ensures
            id@ == digest(data@),
    {
        ObjectId::of(data.as_slice())
    }
}

} // verus!

verus! {

impl Key for Seq<u8> {
    open spec fn key(&self) -> Seq<u8> {
        *self
    }
}

/// A set of identifiers, held in the order of their bytes.
#[derive(Debug)]
pub struct IdSet {
    ids: Vec<ObjectId>,
}

impl View for IdSet {
    type V = Seq<Seq<u8>>;

    closed spec fn view(&self) -> Seq<Seq<u8>> {
        self.ids@.map_values(|id: ObjectId| id@)
    }
}

impl IdSet {
    /// The identifiers stand in strictly rising order.
    pub open spec fn wf(&self) -> bool {
        crate::order::sorted(self@)
    }

    proof fn lemma_keys(&self, k: Seq<u8>)
        ensures
            self@.len() == self.ids@.len(),
            forall|i: int| 0 <= i < self.ids@.len() ==> #[trigger] self@[i] == self.ids@[i]@,
            crate::order::sorted(self@) ==> crate::order::sorted(self.ids@),
            crate::order::rank(self@, k) == crate::order::rank(self.ids@, k),
            crate::order::index_of(self@, k) == crate::order::index_of(self.ids@, k),
    {
        assert forall|i: int| 0 <= i < self@.len() implies #[trigger] self@[i].key()
            == self.ids@[i].key() by {}
        if crate::order::sorted(self@) {
            crate::order::lemma_same_keys_sorted(self@, self.ids@);
        }
        crate::order::lemma_same_keys_rank(self@, self.ids@, k);
    }

    /// The empty set.
    pub fn new() -> (r: Self)
        ensures
            r.wf(),
            r@ == Seq::<Seq<u8>>::empty(),
    {
        let r = IdSet { ids: Vec::new() };
        proof {
            assert(r@ =~= Seq::<Seq<u8>>::empty());
        }
        r
    }

    /// The number of identifiers.
    pub fn len(&self) -> (n: usize)
        ensures
            n == self@.len(),
    {
        self.ids.len()
    }

    /// The identifier at a position.
    pub fn get(&self, i: usize) -> (id: ObjectId)
        requires
            i < self@.len(),
        ensures
            id@ == self@[i as int],
    {
        self.ids[i]
    }

    /// Whether the identifier is in the set.
    pub fn contains(&self, id: ObjectId) -> (r: bool)
        requires
            self.wf(),
        ensures
            r == self@.contains(id@),
    {
        proof {
            self.lemma_keys(id@);
        }
        match crate::order::search(&self.ids, id.key_bytes()) {
            Ok(i) => {
                proof {
                    assert(self@[i as int] == id@);
                }
                true
            },
            Err(_) => {
                proof {
                    crate::order::lemma_index_of_none(self@, id@);
                    if self@.contains(id@) {
                        let j = choose|j: int| 0 <= j < self@.len() && self@[j] == id@;
                        assert(self@[j].key() == id@);
                    }
                }
                false
            },
        }
    }

    /// Adds an identifier, unless it is there already.
    pub fn insert(&mut self, id: ObjectId)
        requires
            old(self).wf(),
        ensures
            final(self).wf(),
            final(self)@ == crate::order::placed(old(self)@, id@),
    {
        proof {
            self.lemma_keys(id@);
            crate::order::lemma_placed_sorted(self@, id@);
            crate::order::lemma_rank_bounds(self@, id@);
        }
        let ghost before = self@;
        crate::order::put(&mut self.ids, id);
        proof {
            assert(self@ =~= crate::order::placed(before, id@));
        }
    }

    /// Whether two sets hold the same identifiers.
    pub fn same(&self, other: &IdSet) -> (r: bool)
        ensures
            r == (self@ == other@),
    {
        let n = self.ids.len();
        if n != other.ids.len() {
            proof {
                assert(self@.len() != other@.len());
            }
            return false;
        }
        let mut i: usize = 0;
        while i < n
            invariant
                n == self.ids@.len(),
                n == other.ids@.len(),
                i <= n,
                forall|j: int| 0 <= j < i ==> #[trigger] self@[j] == other@[j],
            decreases n - i,
        {
            proof {
                self.ids@[i as int].lemma_view_injective(other.ids@[i as int]);
            }
            if self.ids[i] != other.ids[i] {
                proof {
                    assert(self@[i as int] != other@[i as int]);
                }
                return false;
            }
            i += 1;
        }
        proof {
            assert(self@ =~= other@);
        }
        true
    }
}

impl Clone for IdSet {
    fn clone(&self) -> (r: Self)
        ensures
            r@ == self@,
    {
        let n = self.ids.len();
        let mut ids: Vec<ObjectId> = Vec::new();
        let mut i: usize = 0;
        while i < n
            invariant
                n == self.ids@.len(),
                i <= n,
                ids@.len() == i,
                forall|j: int| 0 <= j < i ==> #[trigger] ids@[j] == self.ids@[j],
            decreases n - i,
        {
            ids.push(self.ids[i]);
            i += 1;
        }
        let r = IdSet { ids };
        proof {
            assert(r@ =~= self@);
        }
        r
    }
}

impl PartialEq for IdSet {
    fn eq(&self, other: &Self) -> (r: bool) {
        self.same(other)
    }
}

impl vstd::std_specs::cmp::PartialEqSpecImpl for IdSet {
    open spec fn obeys_eq_spec() -> bool {
        true
    }

    open spec fn eq_spec(&self, other: &Self) -> bool {
        self@ == other@
    }
}

impl Eq for IdSet {

}

} // verus!
