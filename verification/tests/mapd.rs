use quack_nav::config::MaplocMode;
use quack_nav::mapd::{moving, pair_at, render_cells, sitting, sweeps, valid_zones, waits, Pending};

#[test]
fn the_head_sweeps_at_stops_only_unless_continuous() {
    assert!(sweeps("stand", false, false, false, false));
    assert!(!sweeps("walk", true, false, false, false), "not while walking");
    assert!(sweeps("walk", true, false, false, true), "continuous sweeps on the move");
    assert!(!sweeps("sit", false, true, false, false));
    assert!(!sweeps("held", false, false, false, false));
    assert!(!sweeps("stand", false, false, true, false));
}

fn twist(applied: [f64; 3]) -> bool {
    applied.iter().map(|v| v * v).sum::<f64>().sqrt() > 0.0
}

#[test]
fn moving_is_robotds_verdict_rebuilt() {
    assert!(!moving("stand", twist([0.0; 3])));
    assert!(!moving("walk", twist([0.0; 3])));
    assert!(!moving("sit", twist([0.0; 3])));
    assert!(!moving("held", twist([0.0; 3])));
    // The smoothed twist's tail still counts, as `> 0.0` does in robotd.
    assert!(moving("stand", twist([2.8e-16, 0.0, 0.0])));
    assert!(moving("walk", twist([0.1, 0.0, 0.3])));
    for busy in ["rise", "ground_pick", "homing", "limp_fall", "limp_pose", "kick_left", "roulade"] {
        assert!(moving(busy, twist([0.0; 3])), "{busy}");
    }
}

#[test]
fn only_sit_is_sitting() {
    assert!(sitting("sit"));
    assert!(!sitting("Sit"));
    assert!(!sitting("sits"));
    assert!(!sitting(""));
}

#[test]
fn a_frame_gets_the_head_of_its_own_instant() {
    let ring = [(1_000_000u64, 0.0f64), (21_000_000, 0.2), (41_000_000, 0.4)];
    let times: Vec<u64> = ring.iter().map(|s| s.0).collect();
    let head_at = |t: u64| {
        pair_at(&times, t).map(|(after, lag_us)| {
            let (a, b) = (ring[after - 1], ring[after]);
            let f = (t - a.0) as f64 / (b.0 - a.0) as f64;
            (a.1 + (b.1 - a.1) * f, lag_us)
        })
    };
    let (yaw, lag_us) = head_at(11_000_000).expect("bracketed");
    assert!((yaw - 0.1).abs() < 1e-9, "{yaw}");
    assert_eq!(lag_us, 30_000);
    let (yaw, _) = head_at(21_000_000).unwrap();
    assert!((yaw - 0.2).abs() < 1e-9);
    assert!(head_at(0).is_none());
    assert!(head_at(50_000_000).is_none());
    assert!(head_at(500_000).is_none());
}

#[test]
fn a_frame_pairs_with_the_first_sample_at_or_after_it() {
    let times = vec![10u64, 20, 30, 40];
    assert_eq!(pair_at(&times, 25), Some((2, 0)));
    assert_eq!(pair_at(&times, 20), Some((1, 0)));
    assert_eq!(pair_at(&times, 40), Some((3, 0)));
    assert_eq!(pair_at(&times, 10), None, "nothing before it");
    assert_eq!(pair_at(&[5_000u64, 2_000_000].to_vec(), 1_000), None);
    assert_eq!(pair_at(&[5_000u64].to_vec(), 6_000), None, "one sample brackets nothing");
    assert_eq!(pair_at(&[0u64, 2_000_000].to_vec(), 1_000), Some((1, 1_999)));
}

#[test]
fn log_odds_become_wall_free_or_unknown() {
    let cells = render_cells(&vec![151, 150, -50, -51, 0, i32::MAX, i32::MIN]);
    assert_eq!(cells, vec![2, 0, 0, 1, 0, 2, 1]);
    assert!(render_cells(&Vec::new()).is_empty());
}

#[test]
fn only_trusted_zones_with_a_distance_count() {
    let zones = valid_zones(&vec![100, 200, 0, 300, -5], &vec![5, 9, 5, 4, 9], 5).unwrap();
    assert_eq!(zones, vec![Some(100), Some(200), None, None, None]);
    assert!(valid_zones(&vec![100], &vec![5, 5], 2).is_none(), "a frame of the wrong shape");
    assert!(valid_zones(&vec![100, 100], &vec![5], 2).is_none());
}

#[test]
fn a_frame_ahead_of_the_samples_waits() {
    assert!(waits(100, Some(50), 5));
    assert!(!waits(100, Some(105), 5));
    assert!(waits(100, Some(104), 5));
    assert!(!waits(0, Some(0), 5), "an unstamped frame is used at once");
    assert!(!waits(100, None, 5));
    assert!(waits(u64::MAX - 1, Some(u64::MAX - 1), 5), "the lead saturates");
}

#[test]
fn waiting_frames_leave_in_order_when_bracketed_or_stale() {
    let mut p = Pending::new();
    p.hold(100, "a");
    p.hold(200, "b");
    p.hold(300, "c");
    assert_eq!(p.len(), 3);
    // At 205 with a 5 ns lead: a and b are bracketed, c waits.
    assert_eq!(p.release(205, 5), vec!["a", "b"]);
    assert_eq!(p.len(), 1);
    assert!(p.release(250, 5).is_empty());
    // Far later, c is stale.
    assert_eq!(p.release(300 + 200_000_001, 1_000_000_000), vec!["c"]);
    assert_eq!(p.len(), 0);
}

#[test]
fn no_more_than_eight_frames_wait() {
    let mut p = Pending::new();
    for k in 1..=10u64 {
        p.hold(k * 1_000, k);
    }
    assert_eq!(p.len(), 8);
    assert_eq!(p.release(u64::MAX, 0), (3..=10).collect::<Vec<u64>>());
}

#[test]
fn the_mode_decides_what_the_mapper_inks() {
    assert!(MaplocMode::Continuous.continuous());
    assert!(!MaplocMode::StopAndScan.continuous());
    assert!(MaplocMode::Localize.frozen());
    assert!(!MaplocMode::Continuous.frozen());
}
