//! The task-based pool: the controller and worker decisions live in
//! [`crate::protocol`]; a cooperative runtime outside the library moves the
//! messages.

use vstd::prelude::*;

pub use crate::protocol::ChannelError;
pub use crate::protocol::ChannelEvent;

verus! {

/// The task-based finder: `tasks_count` workers, run length `n`, target `f`.
pub struct HashFinder {
    pub tasks_count: u8,
    pub n: u8,
    pub f: u32,
}

impl HashFinder {
    pub fn new(tasks_count: u8, n: u8, f: u32) -> (r: HashFinder)
        ensures
            r.tasks_count == tasks_count,
            r.n == n,
            r.f == f,
    {
        HashFinder { tasks_count, n, f }
    }
}

} // verus!
