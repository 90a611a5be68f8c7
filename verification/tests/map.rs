use quack_nav::map::{
    decode_grid, Blocked, Cell, FrameMark, GridError, MapEvent, MapStatus, MapStreamResult, MapSupport,
};
use quack_nav::wire::b64_encode;

fn frame(seq: u64, n_submaps: u32, windows: u32) -> FrameMark {
    FrameMark { seq, n_submaps, windows, tracking: true, seated: false }
}

#[test]
fn a_short_grid_is_an_error_not_a_panic() {
    let g = decode_grid(&b64_encode(&[0, 1]), 2, 3);
    assert!(g.is_err());
    assert_eq!(g.unwrap_err(), GridError::WrongSize { got: 2, expected: 6 });
}

#[test]
fn cells_that_are_not_base64_are_refused() {
    assert_eq!(decode_grid("Zm9v!", 1, 3).unwrap_err(), GridError::NotBase64);
}

#[test]
fn grid_decodes_cells_row_major() {
    // 2 rows × 3 cols: unknown free wall / wall wall free
    let g = decode_grid(&b64_encode(&[0, 1, 2, 2, 2, 1]), 2, 3).unwrap();
    assert_eq!(g.counts(), (1, 2, 3));
    assert_eq!(g.cell(0, 0), Some(Cell::Unknown));
    assert_eq!(g.cell(0, 2), Some(Cell::Wall));
    assert_eq!(g.cell(1, 2), Some(Cell::Free));
    assert_eq!(g.cell(2, 0), None);
    assert_eq!(g.cell(0, 3), None);
    // A byte that is neither free nor wall is unknown.
    let odd = decode_grid(&b64_encode(&[7]), 1, 1).unwrap();
    assert_eq!(odd.counts(), (1, 0, 0));
}

#[test]
fn status_tracks_epoch_and_trust() {
    let mut s = MapStatus::new();
    assert!(!s.absorb(frame(1, 1, 2)), "the first frame is never a reset");
    assert!(!s.absorb(frame(2, 3, 9)));
    assert_eq!(s.epoch, 0);
    assert!(s.trusted());

    // A wipe: a new mapper (windows back to zero; seq goes on) with the
    // map shrunk to its bootstrap submap.
    assert!(s.absorb(frame(3, 1, 0)));
    assert_eq!(s.epoch, 1);

    assert!(!s.absorb(frame(4, 5, 4)));
    // A restart that restored its session: new mapper, same submaps.
    assert!(!s.absorb(frame(1, 5, 0)));
    assert_eq!(s.epoch, 1);
    assert!(!s.absorb(frame(2, 5, 3)));
    // A restart on a fresh map: seq and windows both start over.
    assert!(s.absorb(frame(1, 1, 0)));
    assert_eq!(s.epoch, 2);
    assert_eq!(s.frames, 7);

    let mut seated = frame(2, 1, 0);
    seated.seated = true;
    s.absorb(seated);
    assert!(!s.trusted());
    let mut lost = frame(3, 1, 0);
    lost.tracking = false;
    s.absorb(lost);
    assert!(!s.trusted());
}

#[test]
fn an_ack_sets_support_and_a_frame_is_counted() {
    let mut s = MapStatus::new();
    assert_eq!(s.support, MapSupport::Unknown);
    assert!(!s.trusted(), "no frame, no pose");
    let ack = MapStreamResult { accepted: true, enabled: true, mode: Some("stop_and_scan".into()) };
    assert!(!s.apply(MapEvent::Subscribed(ack)));
    assert_eq!(s.support, MapSupport::Supported { enabled: true, mode: Some("stop_and_scan".into()) });
    assert_eq!(s.frames, 0);
    assert!(!s.apply(MapEvent::Frame(frame(1, 2, 3))));
    assert!(!s.apply(MapEvent::Frame(frame(2, 2, 4))));
    assert_eq!(s.frames, 2);
    assert_eq!(s.latest, Some(frame(2, 2, 4)));
    assert!(s.apply(MapEvent::Frame(frame(3, 1, 0))));
    assert_eq!(s.epoch, 1);
}

#[test]
fn blocked_spells_its_reason() {
    assert_eq!(Blocked::Wall.as_str(), "wall");
    assert_eq!(Blocked::Unknown.as_str(), "unknown");
    assert_eq!(Blocked::Edge.as_str(), "edge");
    assert_eq!(Blocked::Open.as_str(), "open");
}
