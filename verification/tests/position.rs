use wltile::config::{Alignment, Config, Position, Relation, Target};
use wltile::error::ClientError;
use wltile::heads::{Heads, Mode};
use wltile::point::Point;
use wltile::position::{build_layout, plan_position, plan_position_checked};
use wltile::request::UpdateRequest;
use wltile::snapshot::{heads_from, OutputInfo};
use wltile::transform::Transform;

fn output(id: u32, name: &str, current: Option<u32>, mode_ids: Vec<u32>, position: Point) -> OutputInfo {
    OutputInfo {
        id,
        name: String::from(name),
        description: String::from("Headless output"),
        physical_size: Point(0, 0),
        current_mode: current,
        mode_ids,
        enabled: current.is_some(),
        position,
        make: String::from("headless"),
        model: String::from("headless"),
        serial_number: String::from("Unknown"),
        scale: 256,
        transform: Transform::Normal,
    }
}

fn modes() -> Vec<Mode> {
    vec![
        Mode::new(10, Point(1920, 1080), 60000, true),
        Mode::new(11, Point(1280, 720), 60000, false),
    ]
}

/// Two outputs: HEADLESS-1 (1920x1080 at (100, 50)) and HEADLESS-2 (1280x720 at (1920, 0)).
fn two_heads() -> Heads {
    heads_from(
        &vec![
            output(0, "HEADLESS-1", Some(10), vec![10, 11], Point(100, 50)),
            output(1, "HEADLESS-2", Some(11), vec![10, 11], Point(1920, 0)),
        ],
        &modes(),
    )
}

fn position_config(target: &str, relation: Relation, reference: &str, alignment: Alignment) -> Config {
    let mut config = Config::default();
    let mut t = Target::new(String::from(target));
    t.position = Some(Position { relation, reference: String::from(reference), alignment });
    config.add_target(t);
    config
}

fn plan(config: &Config, heads: &Heads) -> Result<UpdateRequest, ClientError> {
    plan_position_checked(config, heads, 7).expect("a single root")
}

fn requested(req: &UpdateRequest, head_id: u32) -> Point {
    req.head_requests.iter().find(|r| r.head_id == head_id).unwrap().position.unwrap()
}

/// (x, y, width, height) of the two outputs after the request.
fn rects(req: &UpdateRequest) -> ((i32, i32, i32, i32), (i32, i32, i32, i32)) {
    let h1 = requested(req, 0);
    let h2 = requested(req, 1);
    ((h1.0, h1.1, 1920, 1080), (h2.0, h2.1, 1280, 720))
}

#[test]
fn position_right_of_align_bottom() {
    let heads = two_heads();
    let req = plan(&position_config("HEADLESS-2", Relation::RightOf, "HEADLESS-1", Alignment::AlignBottom), &heads)
        .unwrap();
    assert_eq!(req.serial, 7);
    let (h1, h2) = rects(&req);
    assert_eq!(h2.0, h1.0 + h1.2, "h2 should start where h1 ends");
    assert_eq!(h2.1 + h2.3, h1.1 + h1.3, "align-bottom: bottom edges line up");
    // The layout is moved so that its top left corner is the origin.
    assert_eq!(Point(0, 0), requested(&req, 0));
    assert_eq!(Point(1920, 360), requested(&req, 1));
}

#[test]
fn position_right_of_align_top() {
    let heads = two_heads();
    let req = plan(&position_config("HEADLESS-2", Relation::RightOf, "HEADLESS-1", Alignment::AlignTop), &heads)
        .unwrap();
    let (h1, h2) = rects(&req);
    assert_eq!(h2.0, h1.0 + h1.2);
    assert_eq!(h2.1, h1.1, "align-top: top edges line up");
}

#[test]
fn position_left_of_align_bottom() {
    let heads = two_heads();
    let req = plan(&position_config("HEADLESS-2", Relation::LeftOf, "HEADLESS-1", Alignment::AlignBottom), &heads)
        .unwrap();
    let (h1, h2) = rects(&req);
    assert_eq!(h2.0 + h2.2, h1.0, "h2's right edge touches h1's left edge");
    assert_eq!(h2.1 + h2.3, h1.1 + h1.3, "align-bottom: bottom edges line up");
}

#[test]
fn position_top_of_align_left() {
    let heads = two_heads();
    let req = plan(&position_config("HEADLESS-2", Relation::TopOf, "HEADLESS-1", Alignment::AlignLeft), &heads)
        .unwrap();
    let (h1, h2) = rects(&req);
    assert_eq!(h2.1 + h2.3, h1.1, "h2's bottom edge touches h1's top edge");
    assert_eq!(h2.0, h1.0, "align-left: left edges line up");
}

#[test]
fn position_bottom_of_align_left() {
    let heads = two_heads();
    let req = plan(&position_config("HEADLESS-2", Relation::BottomOf, "HEADLESS-1", Alignment::AlignLeft), &heads)
        .unwrap();
    let (h1, h2) = rects(&req);
    assert_eq!(h2.1, h1.1 + h1.3, "h2's top edge touches h1's bottom edge");
    assert_eq!(h2.0, h1.0, "align-left: left edges line up");
}

#[test]
fn position_unknown_target_fails() {
    let heads = two_heads();
    let err = plan(&position_config("nonexistent", Relation::RightOf, "HEADLESS-1", Alignment::AlignBottom), &heads)
        .unwrap_err();
    assert_eq!(err.message(), "target output does not exist");
}

#[test]
fn position_unknown_reference_fails() {
    let heads = two_heads();
    let err = plan(&position_config("HEADLESS-1", Relation::RightOf, "nonexistent", Alignment::AlignBottom), &heads)
        .unwrap_err();
    assert_eq!(err.message(), "reference output does not exist");
}

#[test]
fn position_of_an_output_against_itself_is_a_cycle() {
    let heads = two_heads();
    let err = plan(&position_config("HEADLESS-1", Relation::RightOf, "HEADLESS-1", Alignment::AlignBottom), &heads)
        .unwrap_err();
    assert_eq!(err.message(), "cyclic dependency detected");
}

#[test]
fn position_of_a_disabled_output_fails() {
    let heads = heads_from(
        &vec![
            output(0, "HEADLESS-1", Some(10), vec![10], Point(0, 0)),
            output(1, "HEADLESS-2", None, vec![10], Point(0, 0)),
        ],
        &modes(),
    );
    let err = plan(&position_config("HEADLESS-2", Relation::RightOf, "HEADLESS-1", Alignment::AlignTop), &heads)
        .unwrap_err();
    assert_eq!(err.message(), "output has no current mode");
}

#[test]
fn other_outputs_move_with_the_layout() {
    let heads = heads_from(
        &vec![
            output(0, "HEADLESS-1", Some(10), vec![10], Point(0, 0)),
            output(1, "HEADLESS-2", Some(11), vec![11], Point(5000, 0)),
            output(2, "HEADLESS-3", Some(11), vec![11], Point(-100, 900)),
        ],
        &modes(),
    );
    // HEADLESS-2 goes to the left of HEADLESS-1, at x = -1280.
    let req = plan(&position_config("HEADLESS-2", Relation::LeftOf, "HEADLESS-1", Alignment::AlignTop), &heads)
        .unwrap();
    assert_eq!(req.head_requests.len(), 3);
    assert_eq!(Point(1280, 0), requested(&req, 0));
    assert_eq!(Point(0, 0), requested(&req, 1));
    assert_eq!(Point(1180, 900), requested(&req, 2));
}

#[test]
fn a_make_picks_the_output_and_scale_shrinks_it() {
    let mut outputs = vec![
        output(0, "HEADLESS-1", Some(10), vec![10], Point(0, 0)),
        output(1, "DP-1", Some(10), vec![10], Point(0, 0)),
    ];
    outputs[1].make = String::from("Dell Inc.");
    outputs[0].scale = 512;
    let heads = heads_from(&outputs, &modes());
    let req = plan(&position_config("dell", Relation::RightOf, "HEADLESS-1", Alignment::AlignTop), &heads).unwrap();
    // HEADLESS-1 is 1920 pixels wide at scale 2: 960 in the layout.
    assert_eq!(Point(960, 0), requested(&req, 1));
}

#[test]
fn a_reference_given_by_make_adds_an_edge_from_its_output() {
    let mut outputs = vec![
        output(0, "HEADLESS-1", Some(10), vec![10], Point(0, 0)),
        output(1, "DP-1", Some(10), vec![10], Point(0, 0)),
    ];
    outputs[0].make = String::from("Dell Inc.");
    let heads = heads_from(&outputs, &modes());
    let config = position_config("DP-1", Relation::RightOf, "dell", Alignment::AlignTop);
    let graph = build_layout(&config, &heads).unwrap();
    assert_eq!(graph.len(), 2);
    let edges = graph.get_edges_for_node("HEADLESS-1").unwrap();
    assert_eq!(edges.len(), 1);
    assert_eq!(edges[0].target, "DP-1");
    let req = plan(&config, &heads).unwrap();
    assert_eq!(Point(0, 0), requested(&req, 0));
    assert_eq!(Point(1920, 0), requested(&req, 1));
}

#[test]
fn positioning_without_targets_keeps_every_output() {
    let heads = two_heads();
    let req = plan_position(&Config::default(), &heads, 3).unwrap();
    assert_eq!(Point(100, 50), requested(&req, 0));
    assert_eq!(Point(1920, 0), requested(&req, 1));
}

/// HEADLESS-1 with its own serial number and make, HEADLESS-2 as in `two_heads`.
fn heads_with_identity() -> Heads {
    let mut first = output(0, "HEADLESS-1", Some(10), vec![10, 11], Point(100, 50));
    first.serial_number = String::from("SN-1234");
    first.make = String::from("Lenovo Group Limited");
    heads_from(&vec![first, output(1, "HEADLESS-2", Some(11), vec![10, 11], Point(1920, 0))], &modes())
}

#[test]
fn position_reference_by_serial_number() {
    let heads = heads_with_identity();
    let req = plan(&position_config("HEADLESS-2", Relation::RightOf, "SN-1234", Alignment::AlignBottom), &heads)
        .unwrap();
    assert_eq!(req.head_requests.len(), 2);
    assert_eq!(Point(0, 0), requested(&req, 0));
    assert_eq!(Point(1920, 360), requested(&req, 1));
}

#[test]
fn position_reference_by_part_of_make() {
    let heads = heads_with_identity();
    let req = plan(&position_config("HEADLESS-2", Relation::BottomOf, "lenovo", Alignment::AlignRight), &heads)
        .unwrap();
    let (h1, h2) = rects(&req);
    assert_eq!(h2.1, h1.1 + h1.3, "h2's top edge touches h1's bottom edge");
    assert_eq!(h2.0 + h2.2, h1.0 + h1.2, "align-right: right edges line up");
}

#[test]
fn several_targets_each_sit_against_their_reference() {
    let heads = heads_from(
        &vec![
            output(0, "HEADLESS-1", Some(10), vec![10, 11], Point(0, 0)),
            output(1, "HEADLESS-2", Some(11), vec![10, 11], Point(0, 0)),
            output(2, "HEADLESS-3", Some(11), vec![10, 11], Point(0, 0)),
        ],
        &modes(),
    );
    let mut config = Config::default();
    let mut second = Target::new(String::from("HEADLESS-2"));
    second.position = Some(Position {
        relation: Relation::RightOf,
        reference: String::from("HEADLESS-1"),
        alignment: Alignment::AlignBottom,
    });
    let mut third = Target::new(String::from("HEADLESS-3"));
    third.position = Some(Position {
        relation: Relation::TopOf,
        reference: String::from("HEADLESS-2"),
        alignment: Alignment::AlignRight,
    });
    config.add_target(second);
    config.add_target(third);
    let req = plan(&config, &heads).unwrap();
    let (p1, p2, p3) = (requested(&req, 0), requested(&req, 1), requested(&req, 2));
    // HEADLESS-2 (1280x720) right of HEADLESS-1 (1920x1080), bottoms lined up.
    assert_eq!(p2.0, p1.0 + 1920);
    assert_eq!(p2.1 + 720, p1.1 + 1080);
    // HEADLESS-3 (1280x720) on top of HEADLESS-2, right edges lined up.
    assert_eq!(p3.1 + 720, p2.1);
    assert_eq!(p3.0 + 1280, p2.0 + 1280);
    assert_eq!((p1, p2, p3), (Point(0, 360), Point(1920, 720), Point(1920, 0)));
}
