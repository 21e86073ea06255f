use fastbogo::kernel::{run_range, KernelTuning, INITIAL_ARR};
use fastbogo::session::{
    check_version_value, handle_server_event, trim_recent_counts, validate_auth, AuthError, Mode,
    ServerEvent, SessionAction, SessionError, SharedState, EXPECTED_VERSION,
};
use fastbogo::worker::{merge_best, BestCandidate, WorkerAssignment, WorkerProgress, WorkerState, WorkerTask, WORK_CHUNK};

fn candidate(score: u8, index: u64) -> BestCandidate {
    BestCandidate { score, arr: INITIAL_ARR, index }
}

#[test]
fn welcome_and_credits_update_counters() {
    let mut state = SharedState::new(4, Mode::Online);
    let r = handle_server_event(&mut state, ServerEvent::Welcome { lifetime_shuffles: 100, all_time_best: Some(7) });
    assert_eq!(r.unwrap(), SessionAction::Nothing);
    assert!(state.received_welcome);
    assert_eq!(state.lifetime_shuffles, 100);
    assert_eq!(state.all_time_best, 7);
    let r = handle_server_event(
        &mut state,
        ServerEvent::Credited {
            credit: Some(5),
            lifetime_shuffles: Some(50),
            all_time_best: Some(6),
            my_session_best: Some(9),
            batch_best: None,
        },
    );
    assert_eq!(r.unwrap(), SessionAction::Nothing);
    assert_eq!(state.session_credited, 5);
    assert_eq!(state.lifetime_shuffles, 100);
    assert_eq!(state.all_time_best, 9);
    state.session_credited = u64::MAX - 1;
    let _ = handle_server_event(
        &mut state,
        ServerEvent::Credited { credit: Some(5), lifetime_shuffles: None, all_time_best: None, my_session_best: None, batch_best: None },
    );
    assert_eq!(state.session_credited, u64::MAX);
}

#[test]
fn jobs_and_closing_messages() {
    let mut state = SharedState::new(1, Mode::Online);
    let r = handle_server_event(&mut state, ServerEvent::Job { seed: "18446744073709551615".to_string(), count: 9 });
    assert_eq!(r.unwrap(), SessionAction::AssignLease { seed: u64::MAX, count: 9 });
    match handle_server_event(&mut state, ServerEvent::Job { seed: "12a".to_string(), count: 9 }) {
        Err(SessionError::InvalidJobSeed(s)) => assert_eq!(s, "12a"),
        other => panic!("unexpected {other:?}"),
    }
    match handle_server_event(&mut state, ServerEvent::Job { seed: " 12".to_string(), count: 9 }) {
        Err(SessionError::InvalidJobSeed(_)) => {}
        other => panic!("unexpected {other:?}"),
    }
    assert_eq!(handle_server_event(&mut state, ServerEvent::Rejected).unwrap(), SessionAction::ReportRejected);
    assert_eq!(handle_server_event(&mut state, ServerEvent::Unknown).unwrap(), SessionAction::Nothing);
    match handle_server_event(&mut state, ServerEvent::Banned { reason: Some("spam".to_string()) }) {
        Err(SessionError::Banned(Some(r))) => assert_eq!(r, "spam"),
        other => panic!("unexpected {other:?}"),
    }
    match handle_server_event(&mut state, ServerEvent::ClientOutdated { message: None }) {
        Err(SessionError::ClientOutdated(None)) => {}
        other => panic!("unexpected {other:?}"),
    }
    assert!(matches!(handle_server_event(&mut state, ServerEvent::ContributionsClosed), Err(SessionError::ContributionsClosed)));
}

#[test]
fn progress_feeds_the_current_lease_only() {
    let mut state = SharedState::new(2, Mode::Offline);
    state.assign_lease(7, 1, 100, 1_000);
    state.apply_progress(WorkerProgress { lease_id: 7, done: 40, best: Some(candidate(3, 5)) }, 2_000);
    state.apply_progress(WorkerProgress { lease_id: 8, done: 10, best: Some(candidate(9, 6)) }, 3_000);
    state.apply_progress(WorkerProgress { lease_id: 7, done: 60, best: Some(candidate(3, 9)) }, 4_000);
    let lease = state.current_lease.unwrap();
    assert_eq!(lease.machine_total_done, 100);
    assert_eq!(lease.lease_best.unwrap().index, 5);
    assert_eq!(state.local_done_total, 110);
    assert_eq!(state.all_time_best, 3);
    assert_eq!(state.recent_counts.len(), 3);
    assert!(state.is_offline_complete());
}

#[test]
fn result_frames_wait_for_the_delay_and_new_work() {
    let mut state = SharedState::new(1, Mode::Online);
    assert!(state.take_result_message(0).is_none());
    state.assign_lease(1, 42, 1_000, 0);
    state.apply_progress(WorkerProgress { lease_id: 1, done: 10, best: Some(candidate(4, 3)) }, 100);
    assert!(state.take_result_message(899_999_999).is_none());
    let m = state.take_result_message(900_000_000).unwrap();
    assert_eq!(m.seed, 42);
    assert_eq!(m.total_done, 10);
    assert_eq!(m.best_correct, 4);
    assert_eq!(m.best_index, 3);
    assert!(state.take_result_message(2_000_000_000).is_none());
    state.apply_progress(WorkerProgress { lease_id: 1, done: 5, best: None }, 2_100_000_000);
    assert!(state.take_result_message(2_200_000_000).is_none());
}

#[test]
fn recent_counts_drop_entries_older_than_ten_seconds() {
    let mut recent = vec![(0u64, 1u64), (5_000_000_000, 2), (12_000_000_000, 3)];
    trim_recent_counts(&mut recent, 15_000_000_000);
    assert_eq!(recent, vec![(5_000_000_000, 2), (12_000_000_000, 3)]);
    trim_recent_counts(&mut recent, 15_000_000_001);
    assert_eq!(recent, vec![(12_000_000_000, 3)]);
    trim_recent_counts(&mut recent, 100_000_000_000);
    assert!(recent.is_empty());
}

#[test]
fn credentials_and_versions() {
    assert_eq!(validate_auth(" ".into(), "n".into(), "".into()).unwrap_err(), AuthError::UuidEmpty);
    assert_eq!(validate_auth("u".into(), "\t".into(), "".into()).unwrap_err(), AuthError::NicknameEmpty);
    let a = validate_auth("u".into(), "n".into(), "c".into()).unwrap();
    assert_eq!((a.uuid.as_str(), a.nickname.as_str(), a.code.as_str()), ("u", "n", "c"));
    assert!(check_version_value(EXPECTED_VERSION).is_ok());
    let m = check_version_value(3).unwrap_err();
    assert_eq!((m.expected, m.got), (EXPECTED_VERSION, 3));
}

#[test]
fn worker_state_generations() {
    let mut w = WorkerState::new();
    assert!(w.keeps_waiting(0));
    let a = WorkerAssignment { lease_id: 1, seed: 2, lo: 0, hi: 10, tuning: KernelTuning { prune_check_start: 0 } };
    w.assign(a);
    assert!(!w.keeps_waiting(0));
    let (g, got) = w.wakeup().unwrap();
    assert_eq!((g, got.lease_id), (1, 1));
    assert!(!w.should_abort(1));
    w.assign(a);
    assert!(w.should_abort(1));
    w.shutdown();
    assert!(w.wakeup().is_none());
    w.generation = u64::MAX;
    w.assign(a);
    assert_eq!(w.generation, 0);
}

#[test]
fn worker_task_walks_its_share_in_chunks() {
    let seed = 1_234_567_890_123_456_789u64;
    let a = WorkerAssignment { lease_id: 3, seed, lo: 100, hi: 1_100, tuning: KernelTuning { prune_check_start: 0 } };
    let mut task = WorkerTask::new(a, KernelTuning { prune_check_start: 13 });
    assert_eq!(task.tuning.prune_check_start, 13);
    assert!(!task.is_done());
    task.run_chunk();
    assert!(task.is_done());
    assert_eq!(task.cur, 1_100);
    let p = task.take_progress();
    assert_eq!(p.done, 1_000);
    let whole = run_range(seed, 100, 1_100);
    let best = p.best.unwrap();
    assert_eq!((best.score, best.index, best.arr), (whole.best_score, whole.best_index, whole.best_arr));
    assert_eq!(task.pending_done, 0);
    assert!(task.pending_best.is_none());
    assert_eq!(WORK_CHUNK, 8_000_000);
}

#[test]
fn merge_best_keeps_earlier_on_ties() {
    let mut slot = None;
    merge_best(&mut slot, candidate(2, 1));
    merge_best(&mut slot, candidate(2, 2));
    assert_eq!(slot.unwrap().index, 1);
    merge_best(&mut slot, candidate(3, 3));
    assert_eq!(slot.unwrap().index, 3);
}
