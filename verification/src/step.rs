//! Steps on the file system that the library hands out for its caller to take.

use vstd::prelude::*;

verus! {

/// One step, as a model.
pub enum Act {
    /// Create the directory at the path, unless it exists.
    Directory(Seq<char>),
    /// Write the bytes to the file at the path, in place of what it held.
    File(Seq<char>, Seq<u8>),
}

/// One step for the caller to take.
#[derive(Debug)]
pub enum Step {
    /// Create the directory at the path, unless it exists.
    CreateDirectory(String),
    /// Write the bytes to the file at the path, in place of what it held.
    WriteFile(String, Vec<u8>),
}

impl View for Step {
    type V = Act;

    open spec fn view(&self) -> Act {
        match self {
            Step::CreateDirectory(path) => Act::Directory(path@),
            Step::WriteFile(path, bytes) => Act::File(path@, bytes@),
        }
    }
}

/// The steps as models.
pub open spec fn acts_of(steps: Seq<Step>) -> Seq<Act> {
    steps.map_values(|s: Step| s@)
}

} // verus!
