//! The thread-based pool: the controller and worker decisions live in
//! [`crate::protocol`]; OS threads outside the library move the messages.

use vstd::prelude::*;

pub use crate::protocol::ChannelEvent;
pub use crate::protocol::HashFinderError;

verus! {

/// The thread-based finder: `threads_count` workers, run length `n`,
/// target `f`.
pub struct HashFinder {
    pub threads_count: u8,
    pub n: u8,
    pub f: u32,
}

impl HashFinder {
    pub fn new(threads_count: u8, n: u8, f: u32) -> (r: HashFinder)
        ensures
            r.threads_count == threads_count,
            r.n == n,
            r.f == f,
    {
        HashFinder {
            threads_count,
            n,
            f,
        }
    }
}

} // verus!
