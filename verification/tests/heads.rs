use std::cmp::Ordering;

use wltile::events::{on_done, HeadEvent, ModeEvent, Rounds};
use wltile::heads::{sort_modes_desc, Mode};
use wltile::layout::Node;
use wltile::point::Point;
use wltile::snapshot::{find_mode, heads_from, OutputInfo};
use wltile::transform::Transform;

#[test]
fn mode_accessors() {
    let m = Mode::new(3, Point(1920, 1080), 60000, true);
    assert_eq!(m.id(), 3);
    assert_eq!(m.size(), Point(1920, 1080));
    assert_eq!(m.refresh(), 60000);
    assert!(m.prefered());
}

#[test]
fn modes_compare_by_size_then_refresh() {
    let big = Mode::new(0, Point(1920, 1080), 30000, false);
    let fast = Mode::new(1, Point(1920, 1080), 60000, false);
    let small = Mode::new(2, Point(1280, 720), 144000, false);
    assert_eq!(big.compare(&fast), Ordering::Less);
    assert_eq!(fast.compare(&big), Ordering::Greater);
    assert_eq!(small.compare(&big), Ordering::Less);
    assert_eq!(big.compare(&big), Ordering::Equal);
    // A tall mode and a wide one of the same area of squares compare equal.
    let wide = Mode::new(3, Point(3, 4), 60000, false);
    let tall = Mode::new(4, Point(4, 3), 60000, false);
    assert_eq!(wide.compare(&tall), Ordering::Equal);
}

#[test]
fn sorting_is_stable_and_descending() {
    let modes = vec![
        Mode::new(0, Point(3, 4), 60000, false),
        Mode::new(1, Point(1920, 1080), 60000, false),
        Mode::new(2, Point(4, 3), 60000, false),
        Mode::new(3, Point(1920, 1080), 75000, false),
    ];
    let sorted: Vec<u32> = sort_modes_desc(&modes).iter().map(|m| m.id).collect();
    assert_eq!(sorted, vec![3, 1, 0, 2]);
    let again: Vec<u32> = sort_modes_desc(&sort_modes_desc(&modes)).iter().map(|m| m.id).collect();
    assert_eq!(again, sorted);
}

#[test]
fn head_accessors() {
    let outputs = vec![OutputInfo {
        id: 9,
        name: String::from("DP-1"),
        description: String::from("a screen"),
        physical_size: Point(600, 340),
        current_mode: Some(1),
        mode_ids: vec![1],
        enabled: true,
        position: Point(10, 20),
        make: String::from("Dell Inc."),
        model: String::from("U2720Q"),
        serial_number: String::from("ABC"),
        scale: 384,
        transform: Transform::_180,
    }];
    let heads = heads_from(&outputs, &vec![Mode::new(1, Point(3840, 2160), 60000, true)]);
    let head = heads.get(0);
    assert_eq!(head.id(), 9);
    assert_eq!(head.name(), "DP-1");
    assert_eq!(head.serial_number(), "ABC");
    assert_eq!(head.make(), "Dell Inc.");
    assert_eq!(head.model(), "U2720Q");
    assert!(head.enabled());
    assert_eq!(head.position(), Point(10, 20));
    assert_eq!(head.physical_size(), Point(600, 340));
    assert_eq!(head.scale(), 384);
    assert_eq!(head.transform(), Transform::_180);
    assert_eq!(head.modes().len(), 1);
    assert_eq!(head.mode().unwrap().id, 1);
    assert_eq!(head.scaled_corrected_size().unwrap(), Point(2560, 1440));
}

#[test]
fn events_update_outputs_and_modes() {
    let mut info = OutputInfo::announced(4);
    assert!(!info.apply_event(HeadEvent::Name(String::from("HDMI-A-1"))));
    assert!(!info.apply_event(HeadEvent::Mode(7)));
    assert!(!info.apply_event(HeadEvent::Mode(8)));
    assert!(!info.apply_event(HeadEvent::CurrentMode(8)));
    assert!(!info.apply_event(HeadEvent::Enabled(1)));
    assert!(!info.apply_event(HeadEvent::Scale(512)));
    assert!(!info.apply_event(HeadEvent::Transform(Transform::_90)));
    assert!(!info.apply_event(HeadEvent::Position(Point(5, 6))));
    assert_eq!(info.name, "HDMI-A-1");
    assert_eq!(info.mode_ids, vec![7, 8]);
    assert_eq!(info.current_mode, Some(8));
    assert!(info.enabled);
    assert_eq!(info.scale, 512);
    assert_eq!(info.position, Point(5, 6));
    // Turning the output off keeps its current mode.
    assert!(!info.apply_event(HeadEvent::Enabled(0)));
    assert!(!info.enabled);
    assert_eq!(info.current_mode, Some(8));
    assert!(info.apply_event(HeadEvent::Finished));

    let mut mode = Mode::announced(7);
    assert!(!mode.apply_event(ModeEvent::Size(Point(800, 600))));
    assert!(!mode.apply_event(ModeEvent::Refresh(59940)));
    assert!(!mode.apply_event(ModeEvent::Preferred));
    assert_eq!(mode, Mode::new(7, Point(800, 600), 59940, true));
    assert!(mode.apply_event(ModeEvent::Finished));
    assert_eq!(find_mode(&vec![mode], 7), Some(mode));
    assert_eq!(find_mode(&vec![mode], 8), None);
}

#[test]
fn rounds_notify_once() {
    let rounds = Rounds { serial: 1, dirty: true };
    let failed = on_done(rounds, 2, false);
    assert_eq!(failed, Rounds { serial: 2, dirty: true });
    let done = on_done(failed, 3, true);
    assert_eq!(done, Rounds { serial: 3, dirty: false });
}

#[test]
fn nodes_can_be_copied() {
    let node = Node { name: String::from("a"), position: Point(1, 2), width: 3, height: 4 };
    let copy = node.clone_node();
    assert_eq!(copy.name, "a");
    assert_eq!(copy.position, Point(1, 2));
    assert_eq!((copy.width, copy.height), (3, 4));
}

#[test]
fn points_compare_by_distance_from_the_origin() {
    assert_eq!(Point(3, 4).squared_norm(), 25);
    assert_eq!(Point(3, 4).compare(&Point(0, 5)), Ordering::Equal);
    assert_eq!(Point(1, 1).compare(&Point(0, 2)), Ordering::Less);
    assert_eq!(Point::default(), Point(0, 0));
}
