use wltile::heads::{Heads, Mode};
use wltile::point::Point;
use wltile::report::show_lines;
use wltile::snapshot::{heads_from, OutputInfo};
use wltile::transform::Transform;

fn output(id: u32, name: &str, current: Option<u32>, position: Point, scale: i32) -> OutputInfo {
    OutputInfo {
        id,
        name: String::from(name),
        description: String::new(),
        physical_size: Point(600, 340),
        current_mode: current,
        mode_ids: vec![11, 10],
        enabled: current.is_some(),
        position,
        make: String::from("headless"),
        model: String::from("model-x"),
        serial_number: String::from("SN-1"),
        scale,
        transform: Transform::Normal,
    }
}

fn modes() -> Vec<Mode> {
    vec![Mode::new(10, Point(1920, 1080), 60000, true), Mode::new(11, Point(1280, 720), 60000, false)]
}

fn show(heads: &Heads, expr: &str) -> Option<String> {
    heads.find(expr).map(|head| show_lines(head).join("\n"))
}

#[test]
fn show_output_prints_details() {
    let heads = heads_from(&vec![output(0, "HEADLESS-1", Some(10), Point(0, 0), 256)], &modes());
    let stdout = show(&heads, "HEADLESS-1").unwrap();
    for expected in [
        "Name:",
        "Serial Number:",
        "Make:",
        "Model:",
        "Size:",
        "Scale:",
        "Rotation:",
        "Physical Size:",
        "Refresh Rate:",
        "Position:",
        "Modes:",
    ] {
        assert!(stdout.contains(expected), "expected {expected:?}, got:\n{stdout}");
    }
    assert!(stdout.contains("> 0."), "got:\n{stdout}");
    assert_eq!(
        stdout,
        "Name: HEADLESS-1\nSerial Number: SN-1\nMake: headless\nModel: model-x\nSize: 1920 x 1080\nScale: 1\n\
         Rotation: normal\nPhysical Size: 600 x 340 mm\nRefresh Rate: 60 kHz\nPosition: (0, 0)\nModes:\n\
         \t> 0. 1920 x 1080 @ 60 kHz (*)\n\t  1. 1280 x 720 @ 60 kHz "
    );
}

#[test]
fn show_output_targets_correct_output_among_multiple() {
    let heads = heads_from(
        &vec![output(0, "HEADLESS-1", Some(10), Point(0, 0), 256), output(1, "HEADLESS-2", Some(10), Point(1920, 0), 256)],
        &modes(),
    );
    let stdout = show(&heads, "HEADLESS-2").unwrap();
    assert!(stdout.contains("Name: HEADLESS-2"), "got:\n{stdout}");
    assert!(!stdout.contains("Name: HEADLESS-1"), "got:\n{stdout}");
}

#[test]
fn show_output_reflects_scale_set_via_set_command() {
    let heads = heads_from(&vec![output(0, "HEADLESS-1", Some(10), Point(0, 0), 512)], &modes());
    let stdout = show(&heads, "HEADLESS-1").unwrap();
    assert!(stdout.contains("Scale: 2"), "got:\n{stdout}");
}

#[test]
fn show_output_reflects_position_after_positioning() {
    let heads = heads_from(
        &vec![output(0, "HEADLESS-1", Some(10), Point(0, 0), 256), output(1, "HEADLESS-2", Some(10), Point(1920, 360), 256)],
        &modes(),
    );
    let stdout = show(&heads, "HEADLESS-2").unwrap();
    assert!(stdout.contains("Position: (1920, 360)"), "got:\n{stdout}");
}

#[test]
fn show_output_prints_disabled_head_correctly() {
    let heads = heads_from(&vec![output(0, "HEADLESS-1", None, Point(0, 0), 256)], &modes());
    let stdout = show(&heads, "HEADLESS-1").unwrap();
    assert!(stdout.contains("Name: HEADLESS-1 (disabled)"), "got:\n{stdout}");
    assert!(stdout.contains("Size: N/A"), "got:\n{stdout}");
    assert!(stdout.contains("Refresh Rate: N/A"), "got:\n{stdout}");
    assert!(stdout.contains("Modes:"), "got:\n{stdout}");
    assert!(!stdout.contains(">"), "no mode is current, got:\n{stdout}");
}

#[test]
fn show_unknown_output_fails() {
    let heads = heads_from(&vec![output(0, "HEADLESS-1", Some(10), Point(0, 0), 256)], &modes());
    assert!(show(&heads, "nonexistent").is_none());
}

#[test]
fn outputs_are_found_by_serial_name_or_make() {
    let mut outputs = vec![output(0, "HEADLESS-1", Some(10), Point(0, 0), 256), output(1, "DP-3", Some(10), Point(0, 0), 256)];
    outputs[1].make = String::from("Dell Inc.");
    outputs[1].serial_number = String::from("ABC123");
    let heads = heads_from(&outputs, &modes());
    assert_eq!(heads.find("ABC123").unwrap().id, 1);
    assert_eq!(heads.find("DP-3").unwrap().id, 1);
    assert_eq!(heads.find("DELL").unwrap().id, 1);
    assert_eq!(heads.find("ell in").unwrap().id, 1);
    assert_eq!(heads.find("HEADLESS-1").unwrap().id, 0);
    // Both makes contain "e": the first output wins.
    assert_eq!(heads.find("E").unwrap().id, 0);
    assert!(heads.find("dp-3").is_none());
    assert_eq!(heads.find_index("DP-3"), Some(1));
}

#[test]
fn heads_of_the_same_name_replace_each_other() {
    let heads = heads_from(
        &vec![output(0, "HEADLESS-1", Some(10), Point(0, 0), 256), output(7, "HEADLESS-1", Some(10), Point(5, 5), 256)],
        &modes(),
    );
    assert_eq!(heads.len(), 1);
    assert_eq!(heads.get(0).id, 7);
    assert_eq!(heads.heads().len(), 1);
}

#[test]
fn scaled_corrected_size_divides_and_turns() {
    let mut o = output(0, "HEADLESS-1", Some(10), Point(0, 0), 512);
    o.transform = Transform::_90;
    let heads = heads_from(&vec![o], &modes());
    let head = heads.get(0);
    assert_eq!(head.scaled_corrected_size().unwrap(), Point(540, 960));
    let off = heads_from(&vec![output(0, "HEADLESS-1", None, Point(0, 0), 256)], &modes());
    assert_eq!(off.get(0).scaled_corrected_size().unwrap_err().message(), "output has no current mode");
    // 1920 / 1.5 = 1280 exactly; 1080 / 1.75 = 617.14 rounds to 617.
    assert_eq!(wltile::heads::scale_length(1920, 384), 1280);
    assert_eq!(wltile::heads::scale_length(1080, 448), 617);
    assert_eq!(wltile::heads::scale_length(5, 512), 3);
    assert_eq!(wltile::heads::scale_length(100, 0), i32::MAX);
}
