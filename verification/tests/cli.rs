use wltile::cli::{validate, Alignment, Cli, Commands, Relation};

fn position(relation: Relation, alignment: Alignment) -> Cli {
    Cli {
        verbose: 0,
        command: Commands::Position {
            target: String::from("A"),
            relation,
            reference: String::from("B"),
            alignment,
        },
    }
}

#[test]
fn validate_rejects_horizontal_relation_with_horizontal_alignment() {
    for relation in [Relation::LeftOf, Relation::RightOf] {
        for alignment in [Alignment::AlignLeft, Alignment::AlignRight] {
            let cli = position(relation, alignment);
            assert!(
                validate(&cli).is_err(),
                "{} + {} should be rejected",
                relation.to_string(),
                alignment.to_string()
            );
        }
    }
}

#[test]
fn validate_rejects_vertical_relation_with_vertical_alignment() {
    for relation in [Relation::TopOf, Relation::BottomOf] {
        for alignment in [Alignment::AlignTop, Alignment::AlignBottom] {
            let cli = position(relation, alignment);
            assert!(
                validate(&cli).is_err(),
                "{} + {} should be rejected",
                relation.to_string(),
                alignment.to_string()
            );
        }
    }
}

#[test]
fn validate_accepts_horizontal_relation_with_vertical_alignment() {
    for relation in [Relation::LeftOf, Relation::RightOf] {
        for alignment in [Alignment::AlignTop, Alignment::AlignBottom] {
            let cli = position(relation, alignment);
            assert!(
                validate(&cli).is_ok(),
                "{} + {} should be accepted",
                relation.to_string(),
                alignment.to_string()
            );
        }
    }
}

#[test]
fn validate_accepts_vertical_relation_with_horizontal_alignment() {
    for relation in [Relation::TopOf, Relation::BottomOf] {
        for alignment in [Alignment::AlignLeft, Alignment::AlignRight] {
            let cli = position(relation, alignment);
            assert!(
                validate(&cli).is_ok(),
                "{} + {} should be accepted",
                relation.to_string(),
                alignment.to_string()
            );
        }
    }
}

#[test]
fn validate_ignores_non_position_commands() {
    assert!(validate(&Cli { verbose: 0, command: Commands::List }).is_ok());
    assert!(validate(&Cli { verbose: 0, command: Commands::Show { output: None } }).is_ok());
}

#[test]
fn validate_reports_the_reason() {
    let err = validate(&position(Relation::LeftOf, Alignment::AlignRight)).unwrap_err();
    assert_eq!(err, "Impossible to align right on a horizontal setup");
    let err = validate(&position(Relation::RightOf, Alignment::AlignLeft)).unwrap_err();
    assert_eq!(err, "Impossible to align left on a horizontal setup");
    let err = validate(&position(Relation::TopOf, Alignment::AlignBottom)).unwrap_err();
    assert_eq!(err, "Impossible to align bottom on a vertical setup");
    let err = validate(&position(Relation::BottomOf, Alignment::AlignTop)).unwrap_err();
    assert_eq!(err, "Impossible to align top on a vertical setup");
}

#[test]
fn relation_display_renders_kebab_case() {
    assert_eq!(Relation::LeftOf.to_string(), "left-of");
    assert_eq!(Relation::RightOf.to_string(), "right-of");
    assert_eq!(Relation::TopOf.to_string(), "top-of");
    assert_eq!(Relation::BottomOf.to_string(), "bottom-of");
}

#[test]
fn alignment_display_renders_kebab_case() {
    assert_eq!(Alignment::AlignBottom.to_string(), "align-bottom");
    assert_eq!(Alignment::AlignTop.to_string(), "align-top");
    assert_eq!(Alignment::AlignRight.to_string(), "align-right");
    assert_eq!(Alignment::AlignLeft.to_string(), "align-left");
}

#[test]
fn cli_relation_converts_to_config_relation() {
    let r: wltile::config::Relation = Relation::TopOf.into();
    assert_eq!(r, wltile::config::Relation::TopOf);
    let a: wltile::config::Alignment = Alignment::AlignLeft.into();
    assert_eq!(a, wltile::config::Alignment::AlignLeft);
}
