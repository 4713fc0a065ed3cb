//! A search over the non-negative integers for values whose digest ends in a
//! run of identical marker characters, collecting a fixed number of matches.
//!
//! The heart of the crate is the work-distribution and termination protocol in
//! [`protocol`]: a controller hands out candidate integers to a fixed set of
//! workers over per-worker duplex channels, counts confirmed matches, and
//! orchestrates a clean shutdown once the target count is reached. The
//! channel plumbing itself (threads or tasks) lives outside the library; the
//! decisions the controller and the workers make are verified here.

use vstd::prelude::*;

pub mod digest;
pub mod protocol;
pub mod sync_impl;
pub mod async_impl;
pub mod multithread_impl;

verus! {

/// A confirmed match: a candidate number together with its digest.
#[derive(Clone, Debug)]
pub struct EventData {
    pub hash: String,
    pub number: u32,
}

/// The candidate numbers of a result sequence, in arrival order.
pub open spec fn numbers_of(s: Seq<EventData>) -> Seq<u32> {
    s.map_values(|e: EventData| e.number)
}

} // verus!
