//! The sequential baseline: scan candidates in increasing order until the
//! target number of matches has been collected.

use vstd::prelude::*;

use crate::EventData;
use crate::digest::digest_of_number;
use crate::digest::digest_of_u32;
use crate::digest::ends_with_zeros_exec;
use crate::digest::lemma_match_seq_zero_run;
use crate::digest::match_seq;
use crate::numbers_of;

verus! {

/// The sequential finder: run length `n`, target match count `f`.
pub struct HashFinder {
    pub n: u8,
    pub f: u32,
}

impl HashFinder {
    pub fn new(n: u8, f: u32) -> (r: HashFinder)
        ensures
            r.n == n,
            r.f == f,
    {
        HashFinder { n, f }
    }

    /// Scans candidates `0, 1, 2, ...` in increasing order and collects the
    /// first `f` matches, each with its digest. For some scanned bound `k`,
    /// the result holds exactly the matching candidates below `k`, in
    /// increasing order; it is shorter than `f` only when the whole candidate
    /// space was exhausted first.
    pub fn run(&self) -> (r: Vec<EventData>)
        ensures
            r@.len() <= self.f,
            forall|i: int|
                0 <= i < r@.len() ==> (#[trigger] r@[i]).hash@ == digest_of_number(
                    r@[i].number as int,
                ),
            exists|k: nat|
                #![trigger match_seq(self.n as nat, k)]
                k <= u32::MAX + 1 && numbers_of(r@) == match_seq(self.n as nat, k) && (r@.len()
                    == self.f || k == u32::MAX + 1),
    {
        let mut results: Vec<EventData> = Vec::new();
        if self.f == 0 {
            proof {
                assert(numbers_of(results@) =~= match_seq(self.n as nat, 0));
            }
            return results;
        }
        let mut counter: u32 = 0;
        loop
            invariant
                self.f > 0,
                results@.len() < self.f,
                numbers_of(results@) =~= match_seq(self.n as nat, counter as nat),
                forall|i: int|
                    0 <= i < results@.len() ==> (#[trigger] results@[i]).hash@ == digest_of_number(
                        results@[i].number as int,
                    ),
            decreases u32::MAX - counter,
        {
            let hash = digest_of_u32(counter);
            if ends_with_zeros_exec(hash.as_str(), self.n as usize) {
                results.push(EventData { hash, number: counter });
                proof {
                    assert(numbers_of(results@) =~= match_seq(self.n as nat, counter as nat + 1));
                }
                if results.len() == self.f as usize {
                    proof {
                        assert(numbers_of(results@) == match_seq(self.n as nat, counter as nat + 1));
                    }
                    return results;
                }
            } else {
                proof {
                    assert(numbers_of(results@) =~= match_seq(self.n as nat, counter as nat + 1));
                }
            }
            if counter == u32::MAX {
                proof {
                    assert(numbers_of(results@) == match_seq(self.n as nat, (u32::MAX + 1) as nat));
                }
                return results;
            }
            counter = counter + 1;
        }
    }
}

/// With run length zero every candidate matches, so a result that meets
/// `run`'s contract is exactly the candidates `0 .. f-1`, every one of them
/// found.
pub proof fn lemma_zero_run_first_candidates(r: Seq<EventData>, f: nat, k: nat)
    requires
        k <= u32::MAX + 1,
        f <= u32::MAX,
        r.len() <= f,
        numbers_of(r) == match_seq(0, k),
        r.len() == f || k == u32::MAX + 1,
    ensures
        r.len() == f,
        forall|i: int| 0 <= i < r.len() ==> r[i].number == i as u32,
{
    lemma_match_seq_zero_run(k);
    assert(numbers_of(r).len() == r.len());
    assert(r.len() == k);
    assert forall|i: int| 0 <= i < r.len() implies r[i].number == i as u32 by {
        assert(numbers_of(r)[i] == r[i].number);
        assert(match_seq(0, k)[i] == i as u32);
    }
}

} // verus!
