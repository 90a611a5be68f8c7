use quack_nav::cliff::{stream_state, StreamState};
use quack_nav::config::{map_socket, turns_left, MaplocConfig, MaplocMode};
use quack_nav::explore::{State, TrustedFloor};

#[test]
fn the_mode_is_spelled_as_robotd_did() {
    assert_eq!(MaplocMode::StopAndScan.as_str(), "stop_and_scan");
    assert_eq!(MaplocMode::Continuous.as_str(), "continuous");
    assert_eq!(MaplocMode::Localize.as_str(), "localize");
}

#[test]
fn the_hosted_mapper_is_off_by_default() {
    let c = MaplocConfig::default();
    assert!(!c.enabled);
    assert_eq!(c.mode, MaplocMode::StopAndScan);
    assert_eq!(c.map_path, "/var/lib/quack-nav/maploc.session");
    assert!(!c.wipe_on_boot);
    assert!(c.search_sweep);
    assert_eq!(c.record_dir, None);
    assert_eq!(c.socket, "/run/quack-nav/map.sock");
}

#[test]
fn the_map_answers_where_the_mapper_runs() {
    let mut c = MaplocConfig::default();
    assert_eq!(map_socket(&c, "/run/robotd.sock"), "/run/robotd.sock");
    c.enabled = true;
    assert_eq!(map_socket(&c, "/run/robotd.sock"), "/run/quack-nav/map.sock");
}

#[test]
fn the_explorer_turns_left_only_when_told() {
    assert!(turns_left("left"));
    assert!(turns_left("LEFT"));
    assert!(turns_left("Left"));
    assert!(!turns_left("right"));
    assert!(!turns_left("lefty"));
    assert!(!turns_left(""));
    assert!(!turns_left("léft"));
}

#[test]
fn a_job_state_is_spelled_for_the_status() {
    assert_eq!(State::Idle.as_str(), "idle");
    assert_eq!(State::Running.as_str(), "running");
    assert_eq!(State::Done.as_str(), "done");
    assert_eq!(State::Stopped.as_str(), "stopped");
    assert_eq!(State::Failed.as_str(), "failed");
}

#[test]
fn tofd_without_a_sensor_says_why() {
    assert_eq!(stream_state(None), StreamState::Serving);
    assert_eq!(stream_state(Some("no sensor".into())), StreamState::Unavailable("no sensor".into()));
    assert_eq!(StreamState::default(), StreamState::Unknown);
}

#[test]
fn walked_floor_is_trusted_and_seen_floor_is_not_walked() {
    let mut f = TrustedFloor::new();
    assert_eq!(f.len(), 0);
    f.mark(3, -4);
    f.mark(3, -4);
    assert_eq!(f.len(), 1);
    assert!(f.has(3, -4));
    assert!(!f.walked_at(3, -4));
    f.mark_walked(-7, 2);
    assert!(f.has(-7, 2) && f.walked_at(-7, 2));
    assert_eq!(f.len(), 2);
    // Seeing a walked cell again leaves it walked.
    f.mark(-7, 2);
    assert!(f.walked_at(-7, 2));
    assert!(!f.has(-4, 3), "the two indices are not interchangeable");
    f.mark(i32::MIN, i32::MAX);
    assert!(f.has(i32::MIN, i32::MAX) && !f.has(i32::MAX, i32::MIN));
    assert_eq!(f.len(), 3);
}
