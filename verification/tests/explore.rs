use quack_nav::explore::{mode_now, switch_setting, switches_for, Knobs, Mode};

const UNSET: Knobs = Knobs {
    hug: None,
    align_kick: None,
    held_leg: None,
    seal: None,
    trusted_floor: None,
    mouth_aim: None,
    trusted_kick: None,
    wall_fit: None,
};

#[test]
fn the_mode_follows_the_goal_and_the_guards() {
    assert_eq!(mode_now(false, true), Mode::Mapping);
    assert_eq!(mode_now(false, false), Mode::Mapping);
    assert_eq!(mode_now(true, true), Mode::JourneyBlind);
    assert_eq!(mode_now(true, false), Mode::JourneyGuarded);
}

#[test]
fn the_passage_law_belongs_to_the_guarded_journey() {
    let guarded = switches_for(Mode::JourneyGuarded, UNSET);
    assert!(guarded.hug && guarded.align_kick && guarded.held_leg && guarded.seal && guarded.wall_fit);
    assert!(guarded.trusted_floor && !guarded.mouth_aim && !guarded.trusted_kick);
    let blind = switches_for(Mode::JourneyBlind, UNSET);
    assert!(!blind.hug && !blind.align_kick && !blind.held_leg && !blind.seal && !blind.wall_fit);
    assert!(!blind.trusted_floor, "a blind journey has no guard to lift");
    let mapping = switches_for(Mode::Mapping, UNSET);
    assert!(!mapping.hug && mapping.trusted_floor);
    assert_eq!(mapping.mode, Mode::Mapping);
}

#[test]
fn a_knob_that_is_set_overrides_the_mode() {
    let knobs = Knobs { hug: Some(true), trusted_floor: Some(true), wall_fit: Some(false), ..UNSET };
    let blind = switches_for(Mode::JourneyBlind, knobs);
    assert!(blind.hug && blind.trusted_floor);
    let guarded = switches_for(Mode::JourneyGuarded, knobs);
    assert!(!guarded.wall_fit);
}

#[test]
fn a_switch_is_one_or_zero() {
    assert_eq!(switch_setting(Some("1")), Some(true));
    assert_eq!(switch_setting(Some("0")), Some(false));
    assert_eq!(switch_setting(Some("yes")), None);
    assert_eq!(switch_setting(Some("")), None);
    assert_eq!(switch_setting(Some("10")), None);
    assert_eq!(switch_setting(None), None);
}

use quack_nav::explore::{sliver_round, SliverWatch};

#[test]
fn only_slivers_and_no_growth_end_the_job() {
    let mut w = SliverWatch::fresh();
    let mut rounds = 0;
    loop {
        let (next, done) = sliver_round(w, 10, 500);
        rounds += 1;
        w = next;
        if done {
            break;
        }
        assert!(rounds < 100);
    }
    assert_eq!(rounds, 13, "more than twelve rounds without growth");
}

#[test]
fn growth_or_a_big_frontier_starts_the_count_again() {
    let (w, done) = sliver_round(SliverWatch::fresh(), 10, 500);
    assert!(!done);
    assert_eq!(w, SliverWatch { base: Some(500), served: 1 });
    let (w, _) = sliver_round(w, 10, 529);
    assert_eq!(w, SliverWatch { base: Some(500), served: 2 }, "29 more cells is not growth");
    let (w, _) = sliver_round(w, 10, 530);
    assert_eq!(w, SliverWatch { base: Some(530), served: 0 });
    let (w, done) = sliver_round(SliverWatch { base: Some(530), served: 12 }, 20, 0);
    assert_eq!((w, done), (SliverWatch::fresh(), false), "a big frontier clears the books");
    let (_, done) = sliver_round(SliverWatch { base: Some(530), served: 12 }, 19, 531);
    assert!(done);
    let (_, done) = sliver_round(SliverWatch { base: Some(530), served: 11 }, 19, 531);
    assert!(!done);
}

use quack_nav::explore::{count_refusal, refusal_kind, RefusalCall, RefusalKind, RefusalTally};

#[test]
fn a_refusal_is_read_by_its_reason() {
    assert_eq!(refusal_kind("robot lost: no pose"), RefusalKind::Lost);
    assert_eq!(refusal_kind("the goal is unreachable"), RefusalKind::Lost);
    assert_eq!(refusal_kind("the leg does not fit: turn in place left 12°"), RefusalKind::TurnInPlace { left: true });
    assert_eq!(refusal_kind("turn in place right first"), RefusalKind::TurnInPlace { left: false });
    assert_eq!(refusal_kind("a passage 0.10 m wide"), RefusalKind::Passage);
    assert_eq!(refusal_kind("a drop on the books at 0.31 m"), RefusalKind::BookedDrop);
    assert_eq!(refusal_kind("a drop 0.40 m ahead"), RefusalKind::Drop);
    assert_eq!(refusal_kind("the sensor sees something 0.2 m ahead"), RefusalKind::Obstacle);
    assert_eq!(refusal_kind("a wall 0.1 m ahead"), RefusalKind::Obstacle);
    assert_eq!(refusal_kind("the leg did not move the body"), RefusalKind::DidNotMove);
    assert_eq!(refusal_kind("the guard has not looked there"), RefusalKind::Unlooked);
    assert_eq!(refusal_kind("into unmapped space"), RefusalKind::Unlooked);
    assert_eq!(refusal_kind("the robot is seated"), RefusalKind::Unsure);
    assert_eq!(refusal_kind("not sure where we are"), RefusalKind::Unsure);
    assert_eq!(refusal_kind("something else"), RefusalKind::Other);
    assert_eq!(refusal_kind(""), RefusalKind::Other);
    assert_eq!(refusal_kind("not a drop"), RefusalKind::Other, "a drop must open the reason");
}

#[test]
fn a_frontier_refused_four_times_is_left_and_six_in_a_row_back_out() {
    let mut t = RefusalTally { on_target: Some(0), since_leg: 0 };
    let mut calls = Vec::new();
    for _ in 0..4 {
        let (next, call) = count_refusal(t);
        t = next;
        calls.push(call);
    }
    assert_eq!(calls[3], RefusalCall { leave_target: true, unseal: false });
    assert!(calls[..3].iter().all(|c| !c.leave_target && !c.unseal));
    assert_eq!(t, RefusalTally { on_target: None, since_leg: 4 });
    let (t, call) = count_refusal(t);
    assert_eq!(call, RefusalCall { leave_target: false, unseal: false });
    let (t, call) = count_refusal(t);
    assert_eq!(call, RefusalCall { leave_target: false, unseal: true });
    assert_eq!(t, RefusalTally { on_target: None, since_leg: 0 });
    // Backing out leaves the frontier aimed at, too.
    let (_, call) = count_refusal(RefusalTally { on_target: Some(1), since_leg: 5 });
    assert_eq!(call, RefusalCall { leave_target: true, unseal: true });
}

use quack_nav::explore::vote_drops;

/// Which proposals lie near which, row-major: within the books' dedup
/// distance (0.10 m) of each other.
fn near_points(ps: &[(f64, f64)]) -> Vec<bool> {
    let mut near = Vec::new();
    for a in ps {
        for b in ps {
            near.push((a.0 - b.0).hypot(a.1 - b.1) < 0.10);
        }
    }
    near
}

/// The proposals a vote keeps, as the books would take them.
fn voted(proposals: &[(usize, (f64, f64), bool)]) -> usize {
    let frames: Vec<usize> = proposals.iter().map(|p| p.0).collect();
    let holes: Vec<bool> = proposals.iter().map(|p| p.2).collect();
    let points: Vec<(f64, f64)> = proposals.iter().map(|p| p.1).collect();
    vote_drops(&frames, &holes, &near_points(&points)).into_iter().filter(|k| *k).count()
}

#[test]
fn a_hole_needs_two_frames_to_be_believed() {
    let once = [(0usize, (1.0, 1.0), true), (0, (1.1, 1.0), true)];
    assert_eq!(voted(&once), 0, "a single frame's hole stays off the books");
    let twice = [(0usize, (1.0, 1.0), true), (1, (1.03, 1.02), true)];
    assert_eq!(voted(&twice), 2);
    let edge = [(0usize, (2.0, 2.0), false)];
    assert_eq!(voted(&edge), 1, "an obstacle edge is cheap to keep");
}

#[test]
fn an_obstacle_is_no_second_look_at_a_hole() {
    let kept = vote_drops(&vec![0, 1], &vec![false, true], &near_points(&[(2.0, 2.0), (2.0, 2.0)]));
    assert_eq!(kept, vec![true, false]);
    let apart = vote_drops(&vec![0, 1], &vec![true, true], &near_points(&[(1.0, 1.0), (2.0, 1.0)]));
    assert_eq!(apart, vec![false, false], "two frames, two places");
}
