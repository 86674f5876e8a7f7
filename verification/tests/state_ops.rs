use scheduler::state::{RegisterError, RegisterOutcome, SchedulerState, UnregisterError};

fn strings(v: &[&str]) -> Vec<String> {
    v.iter().map(|s| s.to_string()).collect()
}

fn register_urls(
    state: &mut SchedulerState,
    batch_id: &str,
    now: u64,
    urls: &[&str],
    ok: &[bool],
    sessions: &[u64],
) -> Result<RegisterOutcome, RegisterError> {
    let urls = strings(urls);
    let ok: Vec<bool> = ok.to_vec();
    let sessions: Vec<u64> = sessions.to_vec();
    state.register(&batch_id.to_string(), now, &urls, &ok, &sessions)
}

#[test]
fn empty_register_is_rejected() {
    let mut state = SchedulerState::new();
    let r = register_urls(&mut state, "b0", 0, &[], &[], &[]);
    assert!(matches!(r, Err(RegisterError::EmptyInput)));
    assert_eq!(state.servers.len(), 0);
    assert_eq!(state.batches.len(), 0);
}

#[test]
fn single_url_lifecycle() {
    let mut state = SchedulerState::new();
    let r = register_urls(&mut state, "B", 0, &["http://a"], &[true], &[7]);
    match r {
        Ok(RegisterOutcome::Created { batch_id, accepted }) => {
            assert_eq!(batch_id, "B");
            assert_eq!(accepted, strings(&["http://a"]));
        },
        _ => panic!("expected a created batch"),
    }
    // monitored with an empty latency history
    let totals = state.latency_totals(&"http://a".to_string());
    assert_eq!(totals, Some((0, 0)));
    // the reported average of an empty history is zero
    let (sum, count) = totals.unwrap();
    let avg = if count == 0 { 0.0 } else { sum as f64 / count as f64 };
    assert_eq!(avg, 0.0);

    let s = state.unregister(&"B".to_string()).unwrap();
    assert_eq!(s.urls_affected, 1);
    assert_eq!(s.stopped, 1);
    assert_eq!(state.latency_totals(&"http://a".to_string()), None);
}

#[test]
fn shared_url_reference_counting() {
    let mut state = SchedulerState::new();
    register_urls(&mut state, "B1", 0, &["http://a"], &[true], &[1]).unwrap();
    // the URL is already monitored: no handshake is needed, the batch joins
    register_urls(&mut state, "B2", 1, &["http://a"], &[false], &[2]).unwrap();
    assert_eq!(state.servers.len(), 1);
    // the session opened for B1 is kept
    assert_eq!(state.servers[0].1.session_id, 1);

    let s1 = state.unregister(&"B1".to_string()).unwrap();
    assert_eq!(s1.urls_affected, 1);
    assert_eq!(s1.stopped, 0);
    assert!(state.latency_totals(&"http://a".to_string()).is_some());

    let s2 = state.unregister(&"B2".to_string()).unwrap();
    assert_eq!(s2.stopped, 1);
    assert!(state.latency_totals(&"http://a".to_string()).is_none());
}

#[test]
fn failed_handshakes_are_skipped() {
    let mut state = SchedulerState::new();
    let r = register_urls(
        &mut state,
        "B",
        0,
        &["http://a", "http://b"],
        &[false, true],
        &[1, 2],
    );
    match r {
        Ok(RegisterOutcome::Created { accepted, .. }) => {
            assert_eq!(accepted, strings(&["http://b"]));
        },
        _ => panic!("expected a created batch"),
    }
    assert!(state.latency_totals(&"http://a".to_string()).is_none());
    assert!(state.latency_totals(&"http://b".to_string()).is_some());
}

#[test]
fn all_handshakes_failing_registers_nothing() {
    let mut state = SchedulerState::new();
    let r = register_urls(&mut state, "B", 0, &["http://a"], &[false], &[1]);
    assert!(matches!(r, Ok(RegisterOutcome::NoUrlAccepted)));
    assert_eq!(state.batches.len(), 0);
    assert_eq!(state.servers.len(), 0);
}

#[test]
fn unregister_unknown_batch_is_not_found() {
    let mut state = SchedulerState::new();
    let r = state.unregister(&"missing".to_string());
    assert!(matches!(r, Err(UnregisterError::NotFound)));
}

#[test]
fn duplicate_urls_in_one_batch_collapse() {
    let mut state = SchedulerState::new();
    let r = register_urls(
        &mut state,
        "B",
        0,
        &["http://a", "http://a"],
        &[true, true],
        &[1, 2],
    );
    match r {
        Ok(RegisterOutcome::Created { accepted, .. }) => {
            assert_eq!(accepted, strings(&["http://a"]));
        },
        _ => panic!("expected a created batch"),
    }
    assert_eq!(state.servers.len(), 1);
    // only the first occurrence opened a session
    assert_eq!(state.servers[0].1.session_id, 1);
}

#[test]
fn latency_history_is_bounded_fifo() {
    let mut state = SchedulerState::new();
    register_urls(&mut state, "B", 0, &["http://a"], &[true], &[1]).unwrap();
    let url = "http://a".to_string();
    for i in 0..105u64 {
        state.record_ping(&url, i);
    }
    let (sum, count) = state.latency_totals(&url).unwrap();
    assert_eq!(count, 100);
    // samples 0..=4 were evicted first-in-first-out; 5 + 6 + ... + 104 remain
    let expected: u128 = (5..105u128).sum();
    assert_eq!(sum, expected);
    // the history is in insertion order, oldest first
    assert_eq!(state.servers[0].1.latency_history.first(), Some(&5));
    assert_eq!(state.servers[0].1.latency_history.last(), Some(&104));
}

#[test]
fn ping_for_unmonitored_url_is_dropped() {
    let mut state = SchedulerState::new();
    register_urls(&mut state, "B", 0, &["http://a"], &[true], &[1]).unwrap();
    state.record_ping(&"http://b".to_string(), 42);
    assert!(state.latency_totals(&"http://b".to_string()).is_none());
    assert_eq!(state.latency_totals(&"http://a".to_string()), Some((0, 0)));
}

#[test]
fn sweep_evicts_timed_out_batches() {
    let mut state = SchedulerState::new();
    register_urls(&mut state, "B", 0, &["http://a"], &[true], &[1]).unwrap();
    // not yet expired at exactly the timeout bound
    let to_ping = state.sweep(600);
    assert_eq!(to_ping, strings(&["http://a"]));
    assert!(state.latency_totals(&"http://a".to_string()).is_some());
    // one second later the batch reference has timed out
    let to_ping = state.sweep(601);
    assert!(to_ping.is_empty());
    assert!(state.latency_totals(&"http://a".to_string()).is_none());
    // the batch record itself stays until it is unregistered
    assert_eq!(state.batches.len(), 1);
}

#[test]
fn sweep_keeps_renewed_batches() {
    let mut state = SchedulerState::new();
    register_urls(&mut state, "B1", 0, &["http://a"], &[true], &[1]).unwrap();
    register_urls(&mut state, "B2", 500, &["http://a"], &[false], &[0]).unwrap();
    let to_ping = state.sweep(700);
    // B1's reference expired, B2's keeps the URL monitored
    assert_eq!(to_ping, strings(&["http://a"]));
    assert_eq!(state.servers[0].1.active_batches.len(), 1);
    assert_eq!(state.servers[0].1.active_batches[0].0, "B2");
    // the session is untouched by the sweep
    assert_eq!(state.servers[0].1.session_id, 1);
}

#[test]
fn fresh_batch_id_is_unrecorded() {
    let mut state = SchedulerState::new();
    register_urls(&mut state, "B", 0, &["http://a"], &[true], &[1]).unwrap();
    let id = state.fresh_batch_id().expect("a random id should not collide");
    assert_eq!(id.len(), 36);
    assert_ne!(id, "B");
}

#[test]
fn batch_urls_answers_iff_recorded() {
    let mut state = SchedulerState::new();
    register_urls(&mut state, "B", 0, &["http://a", "http://b"], &[true, true], &[1, 2]).unwrap();
    let urls = state.batch_urls(&"B".to_string()).unwrap();
    assert_eq!(urls, strings(&["http://a", "http://b"]));
    assert!(state.batch_urls(&"missing".to_string()).is_none());
}
