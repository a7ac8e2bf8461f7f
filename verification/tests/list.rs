use wltile::decimal::{fixed_to_text, int_to_text, refresh_to_text};
use wltile::heads::{Heads, Mode};
use wltile::point::Point;
use wltile::report::{list_lines, plain_text, Style};
use wltile::snapshot::{heads_from, OutputInfo};
use wltile::transform::Transform;

fn output(id: u32, name: &str, current: Option<u32>, position: Point, scale: i32) -> OutputInfo {
    OutputInfo {
        id,
        name: String::from(name),
        description: String::new(),
        physical_size: Point(600, 340),
        current_mode: current,
        mode_ids: vec![10, 11],
        enabled: current.is_some(),
        position,
        make: String::from("headless"),
        model: String::from("model-x"),
        serial_number: String::from("SN-1"),
        scale,
        transform: Transform::Normal,
    }
}

fn modes() -> Vec<Mode> {
    vec![Mode::new(10, Point(1920, 1080), 59951, true), Mode::new(11, Point(1280, 720), 60000, false)]
}

fn listing(heads: &Heads) -> String {
    plain_text(&list_lines(heads))
}

#[test]
fn list_shows_all_connected_outputs() {
    let heads = heads_from(
        &vec![output(0, "HEADLESS-1", Some(10), Point(0, 0), 256), output(1, "HEADLESS-2", Some(10), Point(1920, 0), 256)],
        &modes(),
    );
    let stdout = listing(&heads);
    assert!(stdout.contains("HEADLESS-1"), "got:\n{stdout}");
    assert!(stdout.contains("HEADLESS-2"), "got:\n{stdout}");
}

#[test]
fn list_reports_all_expected_fields() {
    let heads = heads_from(&vec![output(0, "HEADLESS-1", Some(10), Point(0, 0), 256)], &modes());
    let stdout = listing(&heads);
    for expected in [
        "HEADLESS-1",
        "Serial Number:",
        "Make:",
        "Size:",
        "scale:",
        "Physical Size:",
        "Refresh Rate:",
        "Position:",
    ] {
        assert!(stdout.contains(expected), "expected `list` output to contain {expected:?}, got:\n{stdout}");
    }
    assert_eq!(
        stdout,
        "HEADLESS-1:\n\tSerial Number: SN-1\n\tMake: headless model-x\n\tSize: 1920 x 1080 scale: 1\n\
         \tPhysical Size: 600 x 340 mm\n\tRefresh Rate: 60 kHz\n\tPosition: (0, 0)\n"
    );
}

#[test]
fn list_reflects_scale_set_via_set_command() {
    let heads = heads_from(&vec![output(0, "HEADLESS-1", Some(10), Point(0, 0), 512)], &modes());
    let stdout = listing(&heads);
    assert!(stdout.contains("scale: 2"), "got:\n{stdout}");
}

#[test]
fn list_reflects_position_after_positioning() {
    let heads = heads_from(
        &vec![output(0, "HEADLESS-1", Some(10), Point(0, 0), 256), output(1, "HEADLESS-2", Some(10), Point(1920, -40), 256)],
        &modes(),
    );
    let stdout = listing(&heads);
    assert!(stdout.contains("Position: (0, 0)"), "got:\n{stdout}");
    assert!(stdout.contains("Position: (1920, -40)"), "got:\n{stdout}");
}

#[test]
fn list_shows_disabled_output() {
    let heads = heads_from(
        &vec![output(0, "HEADLESS-1", Some(10), Point(0, 0), 256), output(1, "HEADLESS-2", None, Point(0, 0), 256)],
        &modes(),
    );
    let stdout = listing(&heads);
    assert!(stdout.contains("HEADLESS-1"), "got:\n{stdout}");
    assert!(stdout.contains("HEADLESS-2 (disabled)"), "got:\n{stdout}");
    assert!(stdout.contains("Size: N/A"), "got:\n{stdout}");
    assert!(stdout.contains("Refresh Rate: N/A"), "got:\n{stdout}");
}

#[test]
fn list_styles_the_name_model_and_scale() {
    let heads = heads_from(&vec![output(0, "HEADLESS-1", Some(10), Point(0, 0), 384)], &modes());
    let lines = list_lines(&heads);
    assert_eq!(lines.len(), 7);
    assert_eq!(lines[0][0].text, "HEADLESS-1");
    assert_eq!(lines[0][0].style, Style::Bold);
    assert_eq!(lines[2][1].text, "model-x");
    assert_eq!(lines[2][1].style, Style::Gray);
    assert_eq!(lines[3][1].text, "scale: 1.5");
    assert_eq!(lines[3][1].style, Style::LightGray);
}

#[test]
fn numbers_are_written_like_floats() {
    assert_eq!(fixed_to_text(256), "1");
    assert_eq!(fixed_to_text(320), "1.25");
    assert_eq!(fixed_to_text(1), "0.00390625");
    assert_eq!(fixed_to_text(-128), "-0.5");
    assert_eq!(fixed_to_text(0), "0");
    assert_eq!(fixed_to_text(i32::MIN), "-8388608");
    assert_eq!(refresh_to_text(59951), "60");
    assert_eq!(refresh_to_text(59499), "59");
    assert_eq!(refresh_to_text(59500), "60");
    assert_eq!(refresh_to_text(-400), "-0");
    assert_eq!(refresh_to_text(-500), "-1");
    assert_eq!(refresh_to_text(0), "0");
    assert_eq!(int_to_text(i64::MIN), "-9223372036854775808");
    for k in [1, 7, 255, 256, 300, 1000, -77, 123456] {
        assert_eq!(fixed_to_text(k), format!("{}", f64::from(k) / 256.0), "k = {k}");
    }
    for r in [59951, 60000, 74997, 143999, 500, 1499, 1500, -2500, -1501] {
        assert_eq!(refresh_to_text(r), format!("{}", (f64::from(r) / 1000.0).round()), "r = {r}");
    }
}
