use vstd::prelude::*;
use vstd::string::*;

verus! {

/// The command line: how verbose to be, and what to do.
pub struct Cli {
    /// Number of `-v` flags.
    pub verbose: u8,
    pub command: Commands,
}

/// What the tool is asked to do.
pub enum Commands {
    /// Lists all connected outputs.
    List,
    /// Shows the current layout, or the details of one output.
    Show { output: Option<String> },
    /// Positions `target` relative to `reference`.
    Position { target: String, relation: Relation, reference: String, alignment: Alignment },
    /// Sets a property of an output.
    SetProperty { target: String, property: Property, value: String },
    /// Watches the outputs and applies a configuration file.
    Daemon { config: Option<String>, log: Option<String>, err_log: Option<String>, systemd: bool },
}

/// A property of an output that `set` changes.
#[derive(Debug, Clone, Copy, PartialEq, Eq, Structural)]
pub enum Property {
    Mode,
    Scale,
    Rotation,
    Active,
}

/// How an output is placed relative to its reference, as given on the command line.
#[derive(Debug, Clone, Copy, PartialEq, Eq, Structural)]
pub enum Relation {
    LeftOf,
    RightOf,
    TopOf,
    BottomOf,
}

/// Which edges are lined up, as given on the command line.
#[derive(Debug, Clone, Copy, PartialEq, Eq, Structural)]
pub enum Alignment {
    AlignBottom,
    AlignTop,
    AlignRight,
    AlignLeft,
}

/// The command-line spelling of a relation.
pub open spec fn relation_text(r: Relation) -> Seq<char> {
    match r {
        Relation::LeftOf => "left-of"@,
        Relation::RightOf => "right-of"@,
        Relation::TopOf => "top-of"@,
        Relation::BottomOf => "bottom-of"@,
    }
}

/// The command-line spelling of an alignment.
pub open spec fn alignment_text(a: Alignment) -> Seq<char> {
    match a {
        Alignment::AlignBottom => "align-bottom"@,
        Alignment::AlignTop => "align-top"@,
        Alignment::AlignRight => "align-right"@,
        Alignment::AlignLeft => "align-left"@,
    }
}

impl Relation {
    /// The command-line spelling of the relation.
    pub fn to_string(&self) -> (r: String)
        ensures
            r@ == relation_text(*self),
    {
        match self {
            Relation::LeftOf => String::from_str("left-of"),
            Relation::RightOf => String::from_str("right-of"),
            Relation::TopOf => String::from_str("top-of"),
            Relation::BottomOf => String::from_str("bottom-of"),
        }
    }
}

impl Alignment {
    /// The command-line spelling of the alignment.
    pub fn to_string(&self) -> (r: String)
        ensures
            r@ == alignment_text(*self),
    {
        match self {
            Alignment::AlignBottom => String::from_str("align-bottom"),
            Alignment::AlignTop => String::from_str("align-top"),
            Alignment::AlignRight => String::from_str("align-right"),
            Alignment::AlignLeft => String::from_str("align-left"),
        }
    }
}

/// Why a placement cannot be honoured: a side-by-side placement cannot line up
/// left or right edges, and a stacked one cannot line up top or bottom edges.
pub open spec fn placement_error(relation: Relation, alignment: Alignment) -> Option<Seq<char>> {
    let horizontal = relation == Relation::LeftOf || relation == Relation::RightOf;
    if horizontal && alignment == Alignment::AlignRight {
        Some("Impossible to align right on a horizontal setup"@)
    } else if horizontal && alignment == Alignment::AlignLeft {
        Some("Impossible to align left on a horizontal setup"@)
    } else if !horizontal && alignment == Alignment::AlignBottom {
        Some("Impossible to align bottom on a vertical setup"@)
    } else if !horizontal && alignment == Alignment::AlignTop {
        Some("Impossible to align top on a vertical setup"@)
    } else {
        None
    }
}

/// Why a command line cannot be honoured, if it cannot.
pub open spec fn validation_error(command: Commands) -> Option<Seq<char>> {
    match command {
        Commands::Position { relation, alignment, .. } => placement_error(relation, alignment),
        _ => None,
    }
}

/// Rejects a `position` whose alignment does not fit its relation.
pub fn validate(args: &Cli) -> (r: Result<(), String>)
    ensures
        match r {
            Ok(()) => validation_error(args.command) is None,
            Err(e) => validation_error(args.command) == Some(e@),
        },
{
    match &args.command {
        Commands::Position { relation, alignment, .. } => {
            let horizontal = match relation {
                Relation::LeftOf | Relation::RightOf => true,
                _ => false,
            };
            match alignment {
                Alignment::AlignRight => {
                    if horizontal {
                        return Err(String::from_str("Impossible to align right on a horizontal setup"));
                    }
                },
                Alignment::AlignLeft => {
                    if horizontal {
                        return Err(String::from_str("Impossible to align left on a horizontal setup"));
                    }
                },
                Alignment::AlignBottom => {
                    if !horizontal {
                        return Err(String::from_str("Impossible to align bottom on a vertical setup"));
                    }
                },
                Alignment::AlignTop => {
                    if !horizontal {
                        return Err(String::from_str("Impossible to align top on a vertical setup"));
                    }
                },
            }
            Ok(())
        },
        _ => Ok(()),
    }
}

} // verus!
