//! Path resolution, directory listings and archive planning for a file
//! server that exposes a fixed list of shared roots.

use vstd::prelude::*;

pub mod archive;
pub mod download;
pub mod listing;
pub mod members;
pub mod network;
pub mod order;
pub mod path;
pub mod resolver;
pub mod state;
pub mod text;

verus! {

/// Capacity, in bytes, of the in-memory pipe between an archive producer and
/// the response that drains it.
pub const PIPE_CAPACITY: usize = 65536;

} // verus!
