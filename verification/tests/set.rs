use wltile::config::{Config, Target};
use wltile::heads::Mode;
use wltile::point::Point;
use wltile::request::UpdateRequest;
use wltile::set_property::plan_set_property_checked;
use wltile::snapshot::{heads_from, OutputInfo};
use wltile::transform::Transform;
use wltile::writer::{plan_write, write_outcome, HeadAction, WriteStatus};

fn output(id: u32, name: &str, current: Option<u32>, mode_ids: Vec<u32>) -> OutputInfo {
    OutputInfo {
        id,
        name: String::from(name),
        description: String::new(),
        physical_size: Point(0, 0),
        current_mode: current,
        mode_ids,
        enabled: current.is_some(),
        position: Point(0, 0),
        make: String::from("headless"),
        model: String::from("headless"),
        serial_number: String::from("Unknown"),
        scale: 256,
        transform: Transform::Normal,
    }
}

fn modes() -> Vec<Mode> {
    vec![
        Mode::new(10, Point(1280, 720), 60000, false),
        Mode::new(11, Point(1920, 1080), 60000, true),
        Mode::new(12, Point(1920, 1080), 30000, false),
        Mode::new(13, Point(800, 600), 75000, false),
    ]
}

fn single(target: Target) -> Config {
    let mut config = Config::default();
    config.add_target(target);
    config
}

fn plan(config: &Config, outputs: &Vec<OutputInfo>) -> UpdateRequest {
    let heads = heads_from(outputs, &modes());
    plan_set_property_checked(config, &heads, 4).unwrap().unwrap()
}

#[test]
fn set_scale_is_reflected_in_compositor() {
    let outputs = vec![output(0, "HEADLESS-1", Some(11), vec![10, 11, 12, 13])];
    let mut target = Target::new(String::from("HEADLESS-1"));
    target.scale = Some(512);
    let req = plan(&single(target), &outputs);
    assert_eq!(req.serial, 4);
    assert_eq!(req.head_requests.len(), 1);
    assert_eq!(req.head_requests[0].scale, Some(512));
    let write = plan_write(&req, &outputs, &modes()).unwrap();
    assert!(write.apply);
    assert_eq!(
        write.actions,
        vec![HeadAction::Enable { head_id: 0, position: None, mode_id: None, scale: Some(512), transform: None }]
    );
}

#[test]
fn set_active_false_disables_output_in_compositor() {
    let outputs = vec![output(0, "HEADLESS-1", Some(11), vec![10, 11])];
    let mut target = Target::new(String::from("HEADLESS-1"));
    target.active = Some(false);
    let req = plan(&single(target), &outputs);
    assert_eq!(req.head_requests[0].enabled, Some(false));
    let write = plan_write(&req, &outputs, &modes()).unwrap();
    assert!(write.apply);
    assert_eq!(write.actions, vec![HeadAction::Disable { head_id: 0 }]);
}

#[test]
fn set_active_true_reenables_disabled_output_in_compositor() {
    let outputs = vec![output(0, "HEADLESS-1", None, vec![10, 11])];
    let mut target = Target::new(String::from("HEADLESS-1"));
    target.active = Some(true);
    let req = plan(&single(target), &outputs);
    assert_eq!(req.head_requests[0].enabled, Some(true));
    let write = plan_write(&req, &outputs, &modes()).unwrap();
    assert!(write.apply, "turning an output on is a change");
    assert_eq!(
        write.actions,
        vec![HeadAction::Enable { head_id: 0, position: None, mode_id: None, scale: None, transform: None }]
    );
}

#[test]
fn modes_are_numbered_from_the_highest() {
    let outputs = vec![output(0, "HEADLESS-1", Some(10), vec![10, 11, 12, 13])];
    let mut target = Target::new(String::from("HEADLESS-1"));
    for (index, id) in [(0usize, 11u32), (1, 12), (2, 10), (3, 13)] {
        target.mode = Some(index);
        let req = plan(&single(target.clone_target()), &outputs);
        assert_eq!(req.head_requests[0].mode_id, Some(id), "mode {index}");
    }
    target.mode = Some(4);
    let heads = heads_from(&outputs, &modes());
    let err = plan_set_property_checked(&single(target), &heads, 0).unwrap().unwrap_err();
    assert_eq!(err.message(), "Invalid mode identifier");
}

#[test]
fn rotation_becomes_a_transform() {
    let outputs = vec![output(0, "HEADLESS-1", Some(10), vec![10])];
    let mut target = Target::new(String::from("HEADLESS-1"));
    target.rotation = Some(90);
    let req = plan(&single(target.clone_target()), &outputs);
    assert_eq!(req.head_requests[0].rotation, Some(Transform::_270));
    target.rotation = Some(45);
    let heads = heads_from(&outputs, &modes());
    let err = plan_set_property_checked(&single(target), &heads, 0).unwrap().unwrap_err();
    assert_eq!(err.message(), "Invalid angle");
}

#[test]
fn setting_an_unknown_output_fails() {
    let outputs = vec![output(0, "HEADLESS-1", Some(10), vec![10])];
    let heads = heads_from(&outputs, &modes());
    let mut target = Target::new(String::from("DP-9"));
    target.scale = Some(256);
    let err = plan_set_property_checked(&single(target), &heads, 0).unwrap().unwrap_err();
    assert_eq!(err.message(), "target output does not exist");
}

#[test]
fn unchanged_properties_are_not_applied() {
    let outputs = vec![output(0, "HEADLESS-1", Some(11), vec![10, 11])];
    let mut target = Target::new(String::from("HEADLESS-1"));
    target.scale = Some(256);
    target.mode = Some(0);
    target.rotation = Some(0);
    target.active = Some(true);
    let req = plan(&single(target), &outputs);
    let write = plan_write(&req, &outputs, &modes()).unwrap();
    assert!(!write.apply);
}

#[test]
fn writing_to_an_unknown_output_fails() {
    let outputs = vec![output(0, "HEADLESS-1", Some(11), vec![10, 11])];
    let mut target = Target::new(String::from("HEADLESS-1"));
    target.scale = Some(512);
    let req = plan(&single(target), &outputs);
    let err = plan_write(&req, &vec![], &modes()).unwrap_err();
    assert_eq!(err.message(), "could not find head");
}

#[test]
fn write_outcome_follows_the_compositor() {
    assert!(write_outcome(Some(WriteStatus::Succeeded)).is_ok());
    for status in [Some(WriteStatus::Failed), Some(WriteStatus::Cancelled), None] {
        assert_eq!(write_outcome(status).unwrap_err().message(), "failed to update configurations");
    }
}

#[test]
fn modes_too_large_to_compare_are_refused() {
    let huge = vec![Mode::new(20, Point(50000, 10), 60000, false), Mode::new(21, Point(10, 10), 60000, false)];
    let outputs = vec![output(0, "HEADLESS-1", Some(20), vec![20, 21])];
    let heads = heads_from(&outputs, &huge);
    let mut target = Target::new(String::from("HEADLESS-1"));
    target.mode = Some(0);
    assert!(plan_set_property_checked(&single(target), &heads, 0).is_none());
}
