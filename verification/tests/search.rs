use hash_finder::digest::ends_with_zeros_exec;
use hash_finder::multithread_impl::HashFinderError;
use hash_finder::protocol::run_synchronous;
use hash_finder::protocol::run_with_schedule;
use hash_finder::sync_impl::HashFinder;

/// The first `f` candidates whose sha256 digest (of their decimal form) ends
/// in `n` marker characters, computed directly with the outside crate.
fn baseline(n: usize, f: usize) -> Vec<(u32, String)> {
    let mut out = Vec::new();
    let mut i: u32 = 0;
    while out.len() < f {
        let hash = sha256::digest(i.to_string());
        if hash.ends_with(&"0".repeat(n)) {
            out.push((i, hash));
        }
        i += 1;
    }
    out
}

#[test]
fn sequential_run_finds_first_matches() {
    let expected = baseline(1, 3);
    let results = HashFinder::new(1, 3).run();
    assert_eq!(results.len(), 3);
    for (r, (num, hash)) in results.iter().zip(expected.iter()) {
        assert_eq!(r.number, *num);
        assert_eq!(r.hash, *hash);
        assert!(r.hash.ends_with('0'));
    }
}

#[test]
fn sequential_run_zero_target_is_empty() {
    let results = HashFinder::new(1, 0).run();
    assert!(results.is_empty());
}

#[test]
fn zero_run_length_reports_first_candidates() {
    let results = HashFinder::new(0, 5).run();
    let numbers: Vec<u32> = results.iter().map(|e| e.number).collect();
    assert_eq!(numbers, vec![0, 1, 2, 3, 4]);
    for r in &results {
        assert_eq!(r.hash, sha256::digest(r.number.to_string()));
    }
    let pool = run_synchronous(3, 0, 5);
    let pool_numbers: Vec<u32> = pool.iter().map(|e| e.number).collect();
    assert_eq!(pool_numbers, vec![0, 1, 2, 3, 4]);
}

#[test]
fn single_worker_pool_matches_sequential_baseline() {
    let sequential = HashFinder::new(1, 4).run();
    let pool = run_synchronous(1, 1, 4);
    assert_eq!(sequential.len(), 4);
    assert_eq!(pool.len(), 4);
    for (a, b) in pool.iter().zip(sequential.iter()) {
        assert_eq!(a.number, b.number);
        assert_eq!(a.hash, b.hash);
    }
}

#[test]
fn pool_results_independent_of_worker_count() {
    let expected = baseline(1, 3);
    for workers in [1u8, 2, 5, 10] {
        let pool = run_synchronous(workers, 1, 3);
        assert_eq!(pool.len(), 3);
        for (r, (num, hash)) in pool.iter().zip(expected.iter()) {
            assert_eq!(r.number, *num);
            assert_eq!(r.hash, *hash);
        }
    }
}

#[test]
fn pool_terminates_with_exact_target() {
    let pool = run_synchronous(4, 2, 2);
    assert_eq!(pool.len(), 2);
    for r in &pool {
        assert!(r.hash.ends_with("00"));
        assert_eq!(r.hash, sha256::digest(r.number.to_string()));
    }
}

#[test]
fn scheduled_pool_with_empty_schedule_matches_synchronous() {
    let (results, assigned) = run_with_schedule(3, 0, 4, &Vec::new());
    let numbers: Vec<u32> = results.iter().map(|e| e.number).collect();
    assert_eq!(numbers, vec![0, 1, 2, 3]);
    assert_eq!(assigned, 6);
}

#[test]
fn scheduled_pool_with_skewed_schedule_still_collects_target() {
    // Always test the youngest in-flight candidate first: one worker races
    // ahead while the others' candidates stay in flight. With run length 0
    // every candidate matches, so the racing worker supplies all four.
    let sched = vec![2usize; 16];
    let (results, assigned) = run_with_schedule(3, 0, 4, &sched);
    let numbers: Vec<u32> = results.iter().map(|e| e.number).collect();
    assert_eq!(numbers, vec![2, 3, 4, 5]);
    assert_eq!(assigned, 6);
}

#[test]
fn scheduled_pool_results_are_distinct_matches() {
    let sched: Vec<usize> = (0..64).map(|i| i % 2).collect();
    let (results, _) = run_with_schedule(2, 1, 3, &sched);
    assert_eq!(results.len(), 3);
    for r in &results {
        assert!(r.hash.ends_with('0'));
        assert_eq!(r.hash, sha256::digest(r.number.to_string()));
    }
    for i in 0..results.len() {
        for j in i + 1..results.len() {
            assert_ne!(results[i].number, results[j].number);
        }
    }
}

#[test]
fn suffix_test_on_edge_cases() {
    assert!(ends_with_zeros_exec("", 0));
    assert!(ends_with_zeros_exec("abc", 0));
    assert!(ends_with_zeros_exec("a00", 2));
    assert!(!ends_with_zeros_exec("a00", 3));
    assert!(!ends_with_zeros_exec("00", 3));
    assert!(!ends_with_zeros_exec("0a", 1));
    assert!(ends_with_zeros_exec("000", 3));
}

#[test]
fn finder_constructors_keep_their_parameters() {
    let sequential = HashFinder::new(3, 7);
    assert_eq!(sequential.n, 3);
    assert_eq!(sequential.f, 7);
    let tasks = hash_finder::async_impl::HashFinder::new(10, 3, 7);
    assert_eq!(tasks.tasks_count, 10);
    assert_eq!(tasks.n, 3);
    assert_eq!(tasks.f, 7);
    let threads = hash_finder::multithread_impl::HashFinder::new(10, 3, 7);
    assert_eq!(threads.threads_count, 10);
    assert_eq!(threads.n, 3);
    assert_eq!(threads.f, 7);
}

#[test]
fn error_kinds_are_distinct() {
    let kinds = [
        HashFinderError::IncorrectChannelEventVariant,
        HashFinderError::SendError,
        HashFinderError::JoinError,
    ];
    assert!(matches!(kinds[0], HashFinderError::IncorrectChannelEventVariant));
    assert!(matches!(kinds[1], HashFinderError::SendError));
    assert!(matches!(kinds[2], HashFinderError::JoinError));
}
