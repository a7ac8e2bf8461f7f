use wltile::config::{Alignment, Config, Position, Relation, Target, TargetEntry};
use wltile::text::split_words;

/// Reads a configuration text into entries the way the command line does.
fn entries(text: &str) -> Vec<TargetEntry> {
    let table = text.parse::<toml::Table>().unwrap();
    let mut out = Vec::new();
    for (name, value) in table {
        let scale = value
            .get("scale")
            .and_then(|v| v.as_float().or_else(|| v.as_integer().map(|i| i as f64)))
            .map(|f| (f * 256.0) as i32);
        let mode = value.get("mode").and_then(|v| v.as_integer()).map(|i| i as usize);
        let rotation = value.get("rotation").and_then(|v| v.as_integer()).map(|i| i as i32);
        let position = value.get("position").and_then(|v| v.as_str()).map(String::from);
        out.push(TargetEntry { name, scale, mode, rotation, position });
    }
    out
}

#[test]
fn test_parsing() {
    let text = "[DP-2]\nscale = 1\nposition = \"left-of eDP-1 align-bottom\"\n";
    let config = Config::from_entries(&entries(text)).unwrap();
    assert_eq!(1, config.targets().len());
    let t = config.targets().first().unwrap();
    assert_eq!("DP-2", t.name);
    assert!((f64::from(t.scale.unwrap()) / 256.0).eq(&1f64));
    assert_eq!(Relation::LeftOf, t.position.as_ref().unwrap().relation);
    assert_eq!("eDP-1", t.position.as_ref().unwrap().reference);
    assert_eq!(Alignment::AlignBottom, t.position.as_ref().unwrap().alignment);
}

#[test]
fn parsing_reports_a_bad_position() {
    let text = "[DP-2]\nposition = \"beside eDP-1 align-bottom\"\n";
    let err = Config::from_entries(&entries(text)).unwrap_err();
    assert_eq!(err, "Unknown relation 'beside'");
}

#[test]
fn parsing_keeps_every_field() {
    let text = "[A]\nmode = 2\nrotation = 90\nscale = 1.5\n\n[B]\nposition = \"top-of A align-left\"\n";
    let config = Config::from_entries(&entries(text)).unwrap();
    assert_eq!(2, config.targets().len());
    let a = &config.targets()[0];
    assert_eq!(a.name, "A");
    assert_eq!(a.mode, Some(2));
    assert_eq!(a.rotation, Some(90));
    assert_eq!(a.scale, Some(384));
    assert!(a.position.is_none());
    assert!(a.active.is_none());
    let b = &config.targets()[1];
    assert_eq!(b.position.as_ref().unwrap().relation, Relation::TopOf);
    assert_eq!(b.position.as_ref().unwrap().reference, "A");
    assert_eq!(b.position.as_ref().unwrap().alignment, Alignment::AlignLeft);
}

#[test]
fn position_needs_three_words() {
    assert_eq!(Position::try_from(String::new()).unwrap_err(), "Missing relation");
    assert_eq!(Position::try_from(String::from("  \t ")).unwrap_err(), "Missing relation");
    assert_eq!(Position::try_from(String::from("left-of")).unwrap_err(), "Missing reference");
    assert_eq!(Position::try_from(String::from("left-of HDMI-1")).unwrap_err(), "Missing alignment");
    assert_eq!(
        Position::try_from(String::from("left-of HDMI-1 sideways")).unwrap_err(),
        "Unknown alignment 'sideways'"
    );
    assert_eq!(Position::try_from(String::from("over")).unwrap_err(), "Unknown relation 'over'");
}

#[test]
fn position_reads_words_separated_by_any_white_space() {
    let p = Position::try_from(String::from("\u{3000}bottom-of\t\tDP-1\n align-right extra")).unwrap();
    assert_eq!(p.relation, Relation::BottomOf);
    assert_eq!(p.reference, "DP-1");
    assert_eq!(p.alignment, Alignment::AlignRight);
    assert_eq!(p.to_string(), "bottom-of DP-1 align-right");
}

#[test]
fn relation_and_alignment_names_round_trip() {
    for r in [Relation::LeftOf, Relation::RightOf, Relation::TopOf, Relation::BottomOf] {
        assert_eq!(Relation::from_name(r.to_string().as_str()), Ok(r));
    }
    for a in [Alignment::AlignBottom, Alignment::AlignTop, Alignment::AlignRight, Alignment::AlignLeft] {
        assert_eq!(Alignment::from_name(a.to_string().as_str()), Ok(a));
    }
    assert_eq!(Relation::from_name("Left-Of"), Err(String::from("Unknown relation 'Left-Of'")));
}

#[test]
fn config_keeps_targets_in_order() {
    let mut config = Config::default();
    config.add_target(Target::new(String::from("first")));
    let mut second = Target::new(String::from("second"));
    second.active = Some(false);
    config.add_target(second);
    assert_eq!(config.targets().len(), 2);
    assert_eq!(config.targets()[0].name, "first");
    assert_eq!(config.targets()[1].active, Some(false));
    let copy = config.targets()[1].clone_target();
    assert_eq!(copy.name, "second");
    assert_eq!(copy.active, Some(false));
}

#[test]
fn split_words_follows_unicode_white_space() {
    assert_eq!(split_words("  a  bc\u{85}d "), vec!["a", "bc", "d"]);
    assert!(split_words("").is_empty());
    assert_eq!(split_words("x\u{200B}y"), vec!["x\u{200B}y"]);
}
