//! Hands live listening sockets from a proxy process to the process that
//! replaces it. The registry maps bind identifiers to socket descriptors; a
//! handoff message carries its names as space-separated text and its
//! descriptors, in the same order, as ancillary data; the retry rules decide
//! how long the two sides wait for each other.
use vstd::prelude::*;

pub mod codec;
pub mod forward;
pub mod registry;
pub mod retry;

pub use codec::{deserialize_vec_string, serialize_vec_string};
pub use registry::{FileDescriptorsMap, WireError, MAX_FDS, NAME_CAPACITY};
pub use retry::{AcceptRetry, OsErrorKind, SendRetry, Step};

verus! {

/// A raw OS file-descriptor number.
pub type RawFd = i32;

} // verus!
