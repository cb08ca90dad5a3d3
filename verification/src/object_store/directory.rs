//! A persistent object store in a directory: where each object lies, and the steps that
//! insert one.

use crate::hex;
use crate::object_id::{digest, ObjectId};
use crate::step::{acts_of, Act, Step};
use vstd::prelude::*;
use vstd::slice::slice_to_vec;
use vstd::string::{StrSliceExecFns, StringExecFns};

verus! {

/// A persistent object store in a directory. The first two hexadecimal characters of an
/// [`ObjectId`] name the directory that the object is placed in, and the rest of the
/// characters are the name of its file.
#[derive(Debug)]
pub struct DirectoryObjectStore {
    root: String,
}

/// The 64 hexadecimal characters of an identifier.
pub open spec fn hex_chars(id: Seq<u8>) -> Seq<char> {
    hex::as_chars(hex::encode(id))
}

/// The name of the directory that holds the objects whose identifiers begin as `id` does.
pub open spec fn shard_name(id: Seq<u8>) -> Seq<char> {
    hex_chars(id).subrange(0, 2)
}

/// The name of the file of an object within its directory.
pub open spec fn file_name(id: Seq<u8>) -> Seq<char> {
    hex_chars(id).subrange(2, 64)
}

/// The path of the directory that holds an object.
pub open spec fn shard_path(root: Seq<char>, id: Seq<u8>) -> Seq<char> {
    root + seq!['/'] + shard_name(id)
}

/// The path of the file of an object.
pub open spec fn object_path(root: Seq<char>, id: Seq<u8>) -> Seq<char> {
    shard_path(root, id) + seq!['/'] + file_name(id)
}

/// The steps that insert an object: none if its file exists; else the creation of its
/// directory, unless that exists, and the writing of its file.
pub open spec fn insert_acts(
    root: Seq<char>,
    object: Seq<u8>,
    object_exists: bool,
    shard_exists: bool,
) -> Seq<Act> {
    let id = digest(object);
    if object_exists {
        Seq::empty()
    } else if shard_exists {
        seq![Act::File(object_path(root, id), object)]
    } else {
        seq![Act::Directory(shard_path(root, id)), Act::File(object_path(root, id), object)]
    }
}

impl DirectoryObjectStore {
    /// The directory that the store lies in.
    pub closed spec fn root_path(&self) -> Seq<char> {
        self.root@
    }

    /// The store in the directory `root`.
    pub fn new(root: String) -> (r: Self)
        ensures
            r.root_path() == root@,
    {
        DirectoryObjectStore { root }
    }

    /// The directory that the store lies in.
    pub fn root(&self) -> (r: &String)
        ensures
            r@ == self.root_path(),
    {
        &self.root
    }

    /// The path of the directory that holds an object.
    pub fn shard_path(&self, id: ObjectId) -> (r: String)
        ensures
            r@ == shard_path(self.root_path(), id@),
    {
        proof {
            reveal_strlit("/");
            assert("/"@ =~= seq!['/']);
            id.lemma_len();
        }
        let text = id.to_string();
        let mut r = self.root.clone();
        r.append("/");
        r.append(text.as_str().substring_char(0, 2));
        r
    }

    /// The path of the file of an object.
    pub fn object_path(&self, id: ObjectId) -> (r: String)
        ensures
            r@ == object_path(self.root_path(), id@),
    {
        proof {
            reveal_strlit("/");
            assert("/"@ =~= seq!['/']);
            id.lemma_len();
        }
        let text = id.to_string();
        let mut r = self.shard_path(id);
        r.append("/");
        r.append(text.as_str().substring_char(2, 64));
        r
    }

    /// The identifier of an object and the steps that insert it, given whether its file and
    /// its directory exist.
    pub fn insert_steps(&self, object: &[u8], object_exists: bool, shard_exists: bool) -> (r: (
        ObjectId,
        Vec<Step>,
    ))
        ensures
            r.0@ == digest(object@),
            acts_of(r.1@) == insert_acts(
                self.root_path(),
                object@,
                object_exists,
                shard_exists,
            ),
    {
        let id = ObjectId::of(object);
        let mut steps: Vec<Step> = Vec::new();
        if !object_exists {
            if !shard_exists {
                steps.push(Step::CreateDirectory(self.shard_path(id)));
            }
            steps.push(Step::WriteFile(self.object_path(id), slice_to_vec(object)));
        }
        proof {
            assert(acts_of(steps@) =~= insert_acts(
                self.root_path(),
                object@,
                object_exists,
                shard_exists,
            ));
        }
        (id, steps)
    }
}

impl Clone for DirectoryObjectStore {
    fn clone(&self) -> (r: Self)
        ensures
            r.root_path() == self.root_path(),
    {
        DirectoryObjectStore { root: self.root.clone() }
    }
}

} // verus!
