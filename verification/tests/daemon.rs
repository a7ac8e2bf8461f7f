use wltile::config::{Config, TargetEntry};
use wltile::daemon::{connected_config, signal_action, SignalAction};
use wltile::heads::Mode;
use wltile::point::Point;
use wltile::position::plan_position_checked;
use wltile::request::UpdateRequest;
use wltile::set_property::plan_set_property_checked;
use wltile::snapshot::{heads_from, OutputInfo};
use wltile::transform::Transform;

fn output(id: u32, name: &str, position: Point) -> OutputInfo {
    OutputInfo {
        id,
        name: String::from(name),
        description: String::new(),
        physical_size: Point(0, 0),
        current_mode: Some(10),
        mode_ids: vec![10],
        enabled: true,
        position,
        make: String::from("headless"),
        model: String::from("headless"),
        serial_number: String::from("Unknown"),
        scale: 256,
        transform: Transform::Normal,
    }
}

fn modes() -> Vec<Mode> {
    vec![Mode::new(10, Point(1280, 720), 60000, true)]
}

fn entry(name: &str, scale: Option<i32>, position: Option<&str>) -> TargetEntry {
    TargetEntry { name: String::from(name), scale, mode: None, rotation: None, position: position.map(String::from) }
}

/// What one reload asks: the property changes, then the positions.
fn reload(entries: Vec<TargetEntry>, outputs: &Vec<OutputInfo>) -> (UpdateRequest, UpdateRequest) {
    let heads = heads_from(outputs, &modes());
    let config = Config::from_entries(&entries).unwrap();
    let config = connected_config(&config, &heads);
    let properties = plan_set_property_checked(&config, &heads, 1).unwrap().unwrap();
    let positions = plan_position_checked(&config, &heads, 2).unwrap().unwrap();
    (properties, positions)
}

fn requested(req: &UpdateRequest, head_id: u32) -> Point {
    req.head_requests.iter().find(|r| r.head_id == head_id).unwrap().position.unwrap()
}

#[test]
fn daemon_applies_config_on_sighup() {
    let outputs = vec![output(0, "HEADLESS-1", Point(0, 0))];
    let (properties, _) = reload(vec![entry("HEADLESS-1", Some(768), None)], &outputs);
    assert_eq!(properties.head_requests.len(), 1);
    assert_eq!(properties.head_requests[0].scale, Some(768));
    assert_eq!(signal_action(1, 1, &vec![15, 3, 2]), SignalAction::Reload);
    let (properties, _) = reload(vec![entry("HEADLESS-1", Some(512), None)], &outputs);
    assert_eq!(properties.head_requests[0].scale, Some(512));
}

#[test]
fn daemon_applies_config_on_output_hotplug() {
    let config = || vec![entry("HEADLESS-2", None, Some("right-of HEADLESS-1 align-bottom"))];
    let one = vec![output(0, "HEADLESS-1", Point(0, 0))];
    let (properties, positions) = reload(config(), &one);
    assert!(properties.head_requests.is_empty());
    assert_eq!(requested(&positions, 0), Point(0, 0));
    let two = vec![output(0, "HEADLESS-1", Point(0, 0)), output(1, "HEADLESS-2", Point(0, 720))];
    let (_, positions) = reload(config(), &two);
    let h1 = requested(&positions, 0);
    let h2 = requested(&positions, 1);
    assert_eq!(h2.0, h1.0 + 1280);
    assert_eq!(h2.1 + 720, h1.1 + 720);
}

#[test]
fn daemon_relayouts_when_second_output_appears() {
    let config = || {
        vec![
            entry("HEADLESS-2", None, Some("right-of HEADLESS-1 align-bottom")),
            entry("HEADLESS-3", None, Some("right-of HEADLESS-2 align-bottom")),
        ]
    };
    let two = vec![output(0, "HEADLESS-1", Point(0, 0)), output(1, "HEADLESS-2", Point(0, 720))];
    let (_, positions) = reload(config(), &two);
    assert_eq!(requested(&positions, 1).0, requested(&positions, 0).0 + 1280);
    let three = vec![
        output(0, "HEADLESS-1", Point(0, 0)),
        output(1, "HEADLESS-2", Point(1280, 0)),
        output(2, "HEADLESS-3", Point(0, 720)),
    ];
    let (_, positions) = reload(config(), &three);
    let (h1, h2, h3) = (requested(&positions, 0), requested(&positions, 1), requested(&positions, 2));
    assert_eq!(h2.0, h1.0 + 1280);
    assert_eq!(h3.0, h2.0 + 1280);
}

#[test]
fn daemon_skips_unconnected_targets() {
    let outputs = vec![output(0, "HEADLESS-1", Point(0, 0))];
    let (properties, _) = reload(vec![entry("HEADLESS-1", Some(512), None), entry("DP-99", Some(768), None)], &outputs);
    assert_eq!(properties.head_requests.len(), 1);
    assert_eq!(properties.head_requests[0].head_id, 0);
    assert_eq!(properties.head_requests[0].scale, Some(512));
}

#[test]
fn daemon_skips_position_with_missing_reference() {
    let outputs = vec![output(0, "HEADLESS-1", Point(0, 0)), output(1, "HEADLESS-2", Point(1280, 0))];
    let (properties, positions) = reload(
        vec![entry("HEADLESS-1", Some(512), None), entry("HEADLESS-2", None, Some("right-of DP-99 align-bottom"))],
        &outputs,
    );
    assert_eq!(properties.head_requests.len(), 1);
    assert_eq!(properties.head_requests[0].head_id, 0);
    // HEADLESS-2 keeps its place: nothing positions it.
    assert_eq!(requested(&positions, 1), Point(1280, 0));
    assert_eq!(requested(&positions, 0), Point(0, 0));
}

#[test]
fn signals_are_sorted_out() {
    let terminate = vec![15, 3, 2];
    assert_eq!(signal_action(1, 1, &terminate), SignalAction::Reload);
    assert_eq!(signal_action(15, 1, &terminate), SignalAction::Stop);
    assert_eq!(signal_action(2, 1, &terminate), SignalAction::Stop);
    assert_eq!(signal_action(10, 1, &terminate), SignalAction::Ignore);
}
