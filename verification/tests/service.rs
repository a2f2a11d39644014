use multi_server::service::{
    reap_interval, CheckStep, Phase, PrepareStep, ReapStep, RunStep, ServiceState, Upstream, SECOND,
};

fn upstream() -> Upstream {
    Upstream { host: "127.0.0.1".to_string(), port: 4000 }
}

fn running(now: u128) -> ServiceState {
    let mut state = ServiceState::new(now);
    assert!(matches!(state.ensure_running(now), RunStep::Launch { prepare: true }));
    let place = state.launch_succeeded(upstream(), Some("ms1".to_string()), now);
    assert_eq!((place.host.as_str(), place.port), ("127.0.0.1", 4000));
    state
}

#[test]
fn a_new_service_is_stopped() {
    let state = ServiceState::new(7);
    assert!(matches!(state.phase, Phase::Stopped));
    assert_eq!((state.last_activity, state.active_requests), (7, 0));
    assert!(!state.prepared && !state.dirty);
}

#[test]
fn the_first_request_launches_and_the_others_wait() {
    let mut state = ServiceState::new(0);
    assert!(matches!(state.ensure_running(1), RunStep::Launch { prepare: true }));
    assert!(matches!(state.phase, Phase::Starting));
    assert!(matches!(state.ensure_running(2), RunStep::Wait));
    assert_eq!(state.last_activity, 1);
    state.launch_succeeded(upstream(), None, 3);
    assert!(state.prepared);
    assert_eq!(state.last_activity, 3);
    assert!(matches!(state.ensure_running(4), RunStep::Check));
    match state.child_checked(false) {
        Some(CheckStep::Use(place)) => assert_eq!(place.port, 4000),
        other => panic!("unexpected {other:?}"),
    }
}

#[test]
fn a_request_outside_the_activity_paths_leaves_the_state_as_it_was() {
    let mut state = running(3);
    for renew in [false, true] {
        assert!(matches!(state.ensure_running(10), RunStep::Check));
        assert!(matches!(state.child_checked(false), Some(CheckStep::Use(_))));
        assert!(state.begin_request(5, renew, 11));
        state.end_request(renew, 12);
        assert_eq!(state.active_requests, 0);
        assert_eq!(state.last_activity, if renew { 12 } else { 3 });
    }
    state.mark_dirty();
    assert!(matches!(state.ensure_running(20), RunStep::Stop { .. }));
    assert_eq!(state.last_activity, 12);
}

#[test]
fn a_change_during_a_start_reloads_afterwards() {
    let mut state = ServiceState::new(0);
    state.mark_dirty();
    assert!(matches!(state.ensure_running(1), RunStep::Launch { prepare: true }));
    assert!(!state.dirty);
    state.mark_dirty();
    state.launch_succeeded(upstream(), None, 2);
    assert!(matches!(state.ensure_running(3), RunStep::Stop { .. }));
    assert!(matches!(state.ensure_running(4), RunStep::Launch { prepare: true }));
    state.launch_succeeded(upstream(), None, 5);
    assert!(matches!(state.ensure_running(6), RunStep::Check));

    let mut state = ServiceState::new(0);
    assert!(matches!(state.ensure_prepared(), PrepareStep::Prepare));
    state.mark_dirty();
    state.finish_prepare(true);
    assert!(matches!(state.ensure_prepared(), PrepareStep::Prepare));
    state.finish_prepare(false);
    assert!(matches!(state.ensure_prepared(), PrepareStep::Prepare));
    state.finish_prepare(true);
    assert!(matches!(state.ensure_prepared(), PrepareStep::Ready));
}

#[test]
fn a_changed_site_whose_start_failed_is_prepared_again() {
    let mut state = running(0);
    assert!(matches!(state.reap(1, 5 * SECOND), ReapStep::Stop { .. }));
    state.mark_dirty();
    assert!(matches!(state.ensure_running(1), RunStep::Launch { prepare: true }));
    state.launch_refused();
    assert!(matches!(state.ensure_running(2), RunStep::Launch { prepare: true }));
}

#[test]
fn a_process_that_exited_is_launched_again_without_preparation() {
    let mut state = running(0);
    assert!(matches!(state.ensure_running(1), RunStep::Check));
    match state.child_checked(true) {
        Some(CheckStep::Restart { namespace }) => assert_eq!(namespace.unwrap(), "ms1"),
        other => panic!("unexpected {other:?}"),
    }
    assert!(matches!(state.phase, Phase::Stopped));
    assert!(matches!(state.ensure_running(2), RunStep::Launch { prepare: false }));
    assert!(state.child_checked(true).is_none());
}

#[test]
fn a_failed_launch_leaves_the_service_stopped() {
    let mut state = ServiceState::new(0);
    state.ensure_running(1);
    state.launch_refused();
    assert!(matches!(state.phase, Phase::Stopped));
    assert!(!state.prepared);
    assert!(matches!(state.ensure_running(2), RunStep::Launch { prepare: true }));
}

#[test]
fn requests_are_counted_up_to_the_limit() {
    let mut state = running(0);
    assert!(state.begin_request(2, false, 5));
    assert!(state.begin_request(2, true, 6));
    assert_eq!((state.active_requests, state.last_activity), (2, 6));
    assert!(!state.begin_request(2, true, 7));
    assert_eq!((state.active_requests, state.last_activity), (2, 6));
    state.end_request(false, 8);
    assert_eq!((state.active_requests, state.last_activity), (1, 6));
    state.end_request(true, 9);
    assert_eq!((state.active_requests, state.last_activity), (0, 9));
    state.end_request(false, 10);
    assert_eq!(state.active_requests, 0);
    assert!(!state.begin_request(0, false, 11));
}

#[test]
fn a_changed_manifest_waits_for_requests_and_then_reloads() {
    let mut state = running(0);
    state.begin_request(1, false, 1);
    state.mark_dirty();
    assert!(matches!(state.phase, Phase::Running { .. }));
    assert!(matches!(state.ensure_running(2), RunStep::Wait));
    state.end_request(false, 3);
    match state.ensure_running(4) {
        RunStep::Stop { namespace } => assert_eq!(namespace.unwrap(), "ms1"),
        other => panic!("unexpected {other:?}"),
    }
    assert!(matches!(state.phase, Phase::Stopped));
    assert!(matches!(state.ensure_running(5), RunStep::Launch { prepare: true }));
    state.launch_succeeded(upstream(), None, 6);
    assert!(!state.dirty);
    assert!(matches!(state.ensure_running(7), RunStep::Check));
}

#[test]
fn a_manifest_that_changed_while_stopped_is_prepared_again() {
    let mut state = running(0);
    assert!(matches!(state.reap(1, 5 * SECOND), ReapStep::Stop { .. }));
    state.mark_dirty();
    assert!(matches!(state.ensure_running(6 * SECOND), RunStep::Launch { prepare: true }));
}

#[test]
fn an_idle_process_is_stopped_in_time() {
    let mut state = running(10 * SECOND);
    assert!(matches!(state.reap(60, 70 * SECOND - 1), ReapStep::Continue));
    assert!(state.begin_request(1, false, 11 * SECOND));
    assert!(matches!(state.reap(60, 500 * SECOND), ReapStep::Continue));
    state.end_request(false, 12 * SECOND);
    match state.reap(60, 70 * SECOND) {
        ReapStep::Stop { namespace } => assert_eq!(namespace.unwrap(), "ms1"),
        other => panic!("unexpected {other:?}"),
    }
    assert!(matches!(state.phase, Phase::Stopped));
    assert!(state.prepared);
    assert!(matches!(state.reap(60, 71 * SECOND), ReapStep::Finish));
}

#[test]
fn a_clock_that_lags_counts_as_no_time() {
    let mut state = running(10);
    assert!(matches!(state.reap(1, 5), ReapStep::Continue));
    assert!(matches!(state.reap(0, 5), ReapStep::Stop { .. }));
    assert_eq!(reap_interval(0), 1);
    assert_eq!(reap_interval(1), 1);
    assert_eq!(reap_interval(60), 60);
}

#[test]
fn a_site_without_a_process_is_prepared_once() {
    let mut state = ServiceState::new(0);
    assert!(matches!(state.ensure_prepared(), PrepareStep::Prepare));
    assert!(matches!(state.ensure_prepared(), PrepareStep::Wait));
    state.finish_prepare(false);
    assert!(matches!(state.phase, Phase::Stopped));
    assert!(matches!(state.ensure_prepared(), PrepareStep::Prepare));
    state.finish_prepare(true);
    assert!(matches!(state.ensure_prepared(), PrepareStep::Ready));
    state.mark_dirty();
    state.begin_request(1, false, 0);
    assert!(matches!(state.ensure_prepared(), PrepareStep::Wait));
    state.end_request(false, 0);
    assert!(matches!(state.ensure_prepared(), PrepareStep::Prepare));
    state.finish_prepare(true);
    assert!(matches!(state.ensure_prepared(), PrepareStep::Ready));
}

#[test]
fn a_running_process_is_no_state_for_preparation_alone() {
    let mut state = running(0);
    state.mark_dirty();
    assert!(matches!(state.ensure_prepared(), PrepareStep::Invalid));
    assert!(!state.prepared);
}
