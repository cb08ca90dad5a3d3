//! A small revision-control storage engine: content-addressed objects,
//! directory trees and their differences, snapshots and branches.

pub mod branches;
pub mod directory;
pub mod dot_rev;
pub mod hex;
pub mod names;
pub mod object_id;
pub mod object_store;
pub mod order;
pub mod snapshot;
pub mod step;
pub mod tree;
