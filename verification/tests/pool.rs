use hash_finder::protocol::ChannelError;
use hash_finder::protocol::ChannelEvent;
use hash_finder::protocol::Controller;
use hash_finder::protocol::UnitOutcome;
use hash_finder::protocol::aggregate_outcomes;
use hash_finder::protocol::classify_report;
use hash_finder::protocol::worker_handle_command;
use hash_finder::protocol::worker_handle_disconnect;
use hash_finder::protocol::worker_process;
use hash_finder::multithread_impl::HashFinderError;

/// Drives a full pool run with a mock digest: the digest of a candidate is
/// the decimal form of `candidate % m`, so with run length 1 exactly the
/// multiples of `m` match. Returns the reported candidates in arrival order,
/// every assigned candidate in send order, and the per-worker command log
/// (`Some(x)` for an assignment, `None` for the stop command).
fn drive_mock_pool(workers: u8, f: u32, m: u32) -> (Vec<u32>, Vec<u32>, Vec<Vec<Option<u32>>>) {
    let mut c = Controller::new(workers, f);
    let mut logs: Vec<Vec<Option<u32>>> = vec![Vec::new(); workers as usize];
    let mut assigned: Vec<u32> = Vec::new();
    let mut pending: Vec<(u8, u32)> = Vec::new();
    while c.distributing() {
        let (w, cmd) = c.distribute_next();
        match cmd {
            ChannelEvent::FromControlTask(Some(x)) => {
                logs[w as usize].push(Some(x));
                assigned.push(x);
                pending.push((w, x));
            }
            _ => panic!("initial distribution must assign a candidate"),
        }
    }
    let mut reported: Vec<u32> = Vec::new();
    while !c.finished() {
        let (w, cand) = pending.remove(0);
        let hash = format!("{}", cand % m);
        let report = classify_report(w, cand, hash, 1);
        if let ChannelEvent::FromChildTask { data: Some(d), .. } = &report {
            reported.push(d.number);
        }
        match c.handle_report(report) {
            Ok(Some((wid, cmd))) => match cmd {
                ChannelEvent::FromControlTask(Some(x)) => {
                    logs[wid as usize].push(Some(x));
                    assigned.push(x);
                    pending.push((wid, x));
                }
                _ => panic!("a reassignment must assign a candidate"),
            },
            Ok(None) => break,
            Err(_) => panic!("a well-formed report must not be a violation"),
        }
    }
    c.begin_stop();
    while !c.terminated() {
        let (w, cmd) = c.next_stop();
        match cmd {
            ChannelEvent::FromControlTask(None) => logs[w as usize].push(None),
            _ => panic!("the stop command carries no candidate"),
        }
    }
    (reported, assigned, logs)
}

#[test]
fn mock_pool_reports_multiples() {
    for workers in [1u8, 2, 4, 7] {
        let (reported, _, _) = drive_mock_pool(workers, 3, 10);
        assert_eq!(reported, vec![0, 10, 20]);
    }
}

#[test]
fn mock_pool_every_candidate_matches() {
    let (reported, _, _) = drive_mock_pool(2, 4, 1);
    assert_eq!(reported, vec![0, 1, 2, 3]);
}

#[test]
fn assignments_are_contiguous_from_zero() {
    let (_, assigned, _) = drive_mock_pool(3, 2, 10);
    let expected: Vec<u32> = (0..assigned.len() as u32).collect();
    assert_eq!(assigned, expected);
}

#[test]
fn result_count_equals_target() {
    for (workers, f) in [(1u8, 0u32), (2, 0), (1, 5), (4, 5), (3, 1)] {
        let (reported, _, _) = drive_mock_pool(workers, f, 10);
        assert_eq!(reported.len(), f as usize);
    }
}

#[test]
fn every_worker_gets_exactly_one_stop_and_it_is_last() {
    let (_, _, logs) = drive_mock_pool(4, 3, 10);
    assert_eq!(logs.len(), 4);
    for log in logs {
        assert!(!log.is_empty());
        assert_eq!(*log.last().unwrap(), None);
        let stops = log.iter().filter(|cmd| cmd.is_none()).count();
        assert_eq!(stops, 1);
    }
}

#[test]
fn target_zero_stops_after_distribution() {
    let (reported, assigned, logs) = drive_mock_pool(2, 0, 10);
    assert!(reported.is_empty());
    assert_eq!(assigned, vec![0, 1]);
    assert_eq!(logs[0], vec![Some(0), None]);
    assert_eq!(logs[1], vec![Some(1), None]);
}

#[test]
fn send_failure_fatal_before_stop_benign_after() {
    let mut c = Controller::new(2, 0);
    while c.distributing() {
        let _ = c.distribute_next();
    }
    assert!(c.finished());
    c.begin_stop();
    assert!(c.send_failure_is_fatal(0));
    assert!(c.send_failure_is_fatal(1));
    let (w, _) = c.next_stop();
    assert_eq!(w, 0);
    assert!(!c.send_failure_is_fatal(0));
    assert!(c.send_failure_is_fatal(1));
    let (w, _) = c.next_stop();
    assert_eq!(w, 1);
    assert!(c.terminated());
    assert!(!c.send_failure_is_fatal(0));
    assert!(!c.send_failure_is_fatal(1));
}

#[test]
fn send_failure_fatal_while_distributing_and_draining() {
    let mut c = Controller::new(2, 1);
    assert!(c.send_failure_is_fatal(0));
    assert!(c.send_failure_is_fatal(1));
    while c.distributing() {
        let _ = c.distribute_next();
    }
    assert!(c.send_failure_is_fatal(0));
    assert!(c.send_failure_is_fatal(1));
}

#[test]
fn violation_always_surfaces_in_the_aggregated_result() {
    let outcomes = vec![
        UnitOutcome::Completed,
        UnitOutcome::Failed(HashFinderError::IncorrectChannelEventVariant),
    ];
    assert!(matches!(
        aggregate_outcomes(UnitOutcome::Completed, &outcomes),
        Err(HashFinderError::IncorrectChannelEventVariant)
    ));
    assert!(matches!(
        aggregate_outcomes(UnitOutcome::Crashed, &outcomes),
        Err(HashFinderError::IncorrectChannelEventVariant)
    ));
}

#[test]
fn controller_error_wins_aggregation() {
    let outcomes = vec![UnitOutcome::Failed(HashFinderError::IncorrectChannelEventVariant)];
    assert!(matches!(
        aggregate_outcomes(UnitOutcome::Failed(HashFinderError::SendError), &outcomes),
        Err(HashFinderError::SendError)
    ));
}

#[test]
fn worker_send_failure_benign_once_controller_completed() {
    let outcomes = vec![
        UnitOutcome::Completed,
        UnitOutcome::Failed(HashFinderError::SendError),
        UnitOutcome::Completed,
    ];
    assert!(aggregate_outcomes(UnitOutcome::Completed, &outcomes).is_ok());
}

#[test]
fn worker_send_failure_fatal_without_controller_completion() {
    let outcomes = vec![
        UnitOutcome::Completed,
        UnitOutcome::Failed(HashFinderError::SendError),
    ];
    assert!(matches!(
        aggregate_outcomes(UnitOutcome::Crashed, &outcomes),
        Err(HashFinderError::SendError)
    ));
}

#[test]
fn first_fatal_worker_error_wins() {
    let outcomes = vec![
        UnitOutcome::Completed,
        UnitOutcome::Failed(HashFinderError::SendError),
        UnitOutcome::Failed(HashFinderError::IncorrectChannelEventVariant),
    ];
    assert!(matches!(
        aggregate_outcomes(UnitOutcome::Crashed, &outcomes),
        Err(HashFinderError::SendError)
    ));
}

#[test]
fn crashes_are_logged_not_errors() {
    let outcomes = vec![UnitOutcome::Crashed, UnitOutcome::Completed, UnitOutcome::Crashed];
    assert!(aggregate_outcomes(UnitOutcome::Completed, &outcomes).is_ok());
    assert!(aggregate_outcomes(UnitOutcome::Crashed, &outcomes).is_ok());
}

#[test]
fn worker_stops_polling_a_dead_channel() {
    assert!(matches!(worker_handle_disconnect(), ChannelError::SendError));
}

#[test]
fn worker_rejects_report_shaped_command() {
    let bad = ChannelEvent::FromChildTask { thread_id: 0, data: None };
    assert!(matches!(
        worker_handle_command(bad),
        Err(ChannelError::IncorrectChannelEventVariant)
    ));
}

#[test]
fn worker_obeys_assign_and_stop() {
    assert!(matches!(
        worker_handle_command(ChannelEvent::FromControlTask(Some(7))),
        Ok(Some(7))
    ));
    assert!(matches!(
        worker_handle_command(ChannelEvent::FromControlTask(None)),
        Ok(None)
    ));
}

#[test]
fn controller_rejects_command_shaped_report() {
    let mut c = Controller::new(1, 1);
    while c.distributing() {
        let _ = c.distribute_next();
    }
    let bad = ChannelEvent::FromControlTask(Some(9));
    assert!(matches!(
        c.handle_report(bad),
        Err(ChannelError::IncorrectChannelEventVariant)
    ));
}

#[test]
fn classify_report_keeps_match_data() {
    let ev = classify_report(5, 40, String::from("abc0"), 1);
    match ev {
        ChannelEvent::FromChildTask { thread_id, data } => {
            assert_eq!(thread_id, 5);
            let d = data.expect("a digest ending in the marker is a match");
            assert_eq!(d.number, 40);
            assert_eq!(d.hash, "abc0");
        }
        _ => panic!("a report must come from the worker side"),
    }
}

#[test]
fn classify_report_rejects_short_or_wrong_suffix() {
    let ev = classify_report(1, 2, String::from("abc0"), 2);
    match ev {
        ChannelEvent::FromChildTask { thread_id, data } => {
            assert_eq!(thread_id, 1);
            assert!(data.is_none());
        }
        _ => panic!("a report must come from the worker side"),
    }
    let ev = classify_report(1, 2, String::from("00"), 3);
    match ev {
        ChannelEvent::FromChildTask { data, .. } => assert!(data.is_none()),
        _ => panic!("a report must come from the worker side"),
    }
}

#[test]
fn worker_process_uses_the_real_digest() {
    // sha256 of "0" does not end in the marker, so with run length 1 the
    // report carries no data.
    let ev = worker_process(2, 1, 0);
    match ev {
        ChannelEvent::FromChildTask { thread_id, data } => {
            assert_eq!(thread_id, 2);
            assert!(data.is_none());
        }
        _ => panic!("a report must come from the worker side"),
    }
    // With run length 0 every candidate matches, and the digest must agree
    // with the outside crate's, not echo the candidate's text.
    let ev = worker_process(3, 0, 0);
    match ev {
        ChannelEvent::FromChildTask { thread_id, data } => {
            assert_eq!(thread_id, 3);
            let d = data.expect("run length zero always matches");
            assert_eq!(d.number, 0);
            assert_eq!(d.hash, sha256::digest(0u32.to_string()));
            assert_ne!(d.hash, "0");
            assert_eq!(d.hash.len(), 64);
        }
        _ => panic!("a report must come from the worker side"),
    }
}
