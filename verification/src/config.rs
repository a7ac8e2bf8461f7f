use vstd::prelude::*;
use vstd::string::*;

use crate::cli;
use crate::text::{split_words, str_eq, words};

verus! {

/// How an output is placed relative to its reference output.
#[derive(Debug, Clone, Copy, PartialEq, Eq, Structural, Hash)]
pub enum Relation {
    LeftOf,
    RightOf,
    TopOf,
    BottomOf,
}

/// Which edges of an output and its reference are lined up.
#[derive(Debug, Clone, Copy, PartialEq, Eq, Structural, Hash)]
pub enum Alignment {
    AlignBottom,
    AlignTop,
    AlignRight,
    AlignLeft,
}

/// The spelling of a relation in configuration files.
pub open spec fn relation_name(r: Relation) -> Seq<char> {
    match r {
        Relation::LeftOf => "left-of"@,
        Relation::RightOf => "right-of"@,
        Relation::TopOf => "top-of"@,
        Relation::BottomOf => "bottom-of"@,
    }
}

/// The spelling of an alignment in configuration files.
pub open spec fn alignment_name(a: Alignment) -> Seq<char> {
    match a {
        Alignment::AlignBottom => "align-bottom"@,
        Alignment::AlignTop => "align-top"@,
        Alignment::AlignRight => "align-right"@,
        Alignment::AlignLeft => "align-left"@,
    }
}

/// The relation spelled `s`, if any.
pub open spec fn relation_of(s: Seq<char>) -> Option<Relation> {
    if s == "left-of"@ {
        Some(Relation::LeftOf)
    } else if s == "right-of"@ {
        Some(Relation::RightOf)
    } else if s == "top-of"@ {
        Some(Relation::TopOf)
    } else if s == "bottom-of"@ {
        Some(Relation::BottomOf)
    } else {
        None
    }
}

/// The alignment spelled `s`, if any.
pub open spec fn alignment_of(s: Seq<char>) -> Option<Alignment> {
    if s == "align-bottom"@ {
        Some(Alignment::AlignBottom)
    } else if s == "align-top"@ {
        Some(Alignment::AlignTop)
    } else if s == "align-right"@ {
        Some(Alignment::AlignRight)
    } else if s == "align-left"@ {
        Some(Alignment::AlignLeft)
    } else {
        None
    }
}

/// The message for an unknown relation `s`.
pub open spec fn unknown_relation(s: Seq<char>) -> Seq<char> {
    "Unknown relation '"@ + s + "'"@
}

/// The message for an unknown alignment `s`.
pub open spec fn unknown_alignment(s: Seq<char>) -> Seq<char> {
    "Unknown alignment '"@ + s + "'"@
}

impl Relation {
    /// The relation spelled `value` ("left-of", "right-of", "top-of" or "bottom-of").
    pub fn from_name(value: &str) -> (r: Result<Relation, String>)
        ensures
            match r {
                Ok(rel) => relation_of(value@) == Some(rel),
                Err(e) => relation_of(value@) is None && e@ == unknown_relation(value@),
            },
    {
        if str_eq(value, "left-of") {
            Ok(Relation::LeftOf)
        } else if str_eq(value, "right-of") {
            Ok(Relation::RightOf)
        } else if str_eq(value, "top-of") {
            Ok(Relation::TopOf)
        } else if str_eq(value, "bottom-of") {
            Ok(Relation::BottomOf)
        } else {
            Err(String::from_str("Unknown relation '").concat(value).concat("'"))
        }
    }

    /// The spelling of the relation.
    pub fn to_string(&self) -> (r: String)
        ensures
            r@ == relation_name(*self),
    {
        match self {
            Relation::LeftOf => String::from_str("left-of"),
            Relation::RightOf => String::from_str("right-of"),
            Relation::TopOf => String::from_str("top-of"),
            Relation::BottomOf => String::from_str("bottom-of"),
        }
    }
}

impl Alignment {
    /// The alignment spelled `value` ("align-bottom", "align-top", "align-right"
    /// or "align-left").
    pub fn from_name(value: &str) -> (r: Result<Alignment, String>)
        ensures
            match r {
                Ok(a) => alignment_of(value@) == Some(a),
                Err(e) => alignment_of(value@) is None && e@ == unknown_alignment(value@),
            },
    {
        if str_eq(value, "align-bottom") {
            Ok(Alignment::AlignBottom)
        } else if str_eq(value, "align-top") {
            Ok(Alignment::AlignTop)
        } else if str_eq(value, "align-right") {
            Ok(Alignment::AlignRight)
        } else if str_eq(value, "align-left") {
            Ok(Alignment::AlignLeft)
        } else {
            Err(String::from_str("Unknown alignment '").concat(value).concat("'"))
        }
    }

    /// The spelling of the alignment.
    pub fn to_string(&self) -> (r: String)
        ensures
            r@ == alignment_name(*self),
    {
        match self {
            Alignment::AlignBottom => String::from_str("align-bottom"),
            Alignment::AlignTop => String::from_str("align-top"),
            Alignment::AlignRight => String::from_str("align-right"),
            Alignment::AlignLeft => String::from_str("align-left"),
        }
    }
}

impl From<cli::Relation> for Relation {
    fn from(value: cli::Relation) -> (r: Relation) {
        match value {
            cli::Relation::LeftOf => Relation::LeftOf,
            cli::Relation::RightOf => Relation::RightOf,
            cli::Relation::TopOf => Relation::TopOf,
            cli::Relation::BottomOf => Relation::BottomOf,
        }
    }
}

impl vstd::std_specs::convert::FromSpecImpl<cli::Relation> for Relation {
    open spec fn obeys_from_spec() -> bool {
        true
    }

    open spec fn from_spec(v: cli::Relation) -> Relation {
        match v {
            cli::Relation::LeftOf => Relation::LeftOf,
            cli::Relation::RightOf => Relation::RightOf,
            cli::Relation::TopOf => Relation::TopOf,
            cli::Relation::BottomOf => Relation::BottomOf,
        }
    }
}

impl From<cli::Alignment> for Alignment {
    fn from(value: cli::Alignment) -> (r: Alignment) {
        match value {
            cli::Alignment::AlignBottom => Alignment::AlignBottom,
            cli::Alignment::AlignTop => Alignment::AlignTop,
            cli::Alignment::AlignRight => Alignment::AlignRight,
            cli::Alignment::AlignLeft => Alignment::AlignLeft,
        }
    }
}

impl vstd::std_specs::convert::FromSpecImpl<cli::Alignment> for Alignment {
    open spec fn obeys_from_spec() -> bool {
        true
    }

    open spec fn from_spec(v: cli::Alignment) -> Alignment {
        match v {
            cli::Alignment::AlignBottom => Alignment::AlignBottom,
            cli::Alignment::AlignTop => Alignment::AlignTop,
            cli::Alignment::AlignRight => Alignment::AlignRight,
            cli::Alignment::AlignLeft => Alignment::AlignLeft,
        }
    }
}

/// Where an output goes: `relation` to the output picked by `reference`, lined
/// up by `alignment`.
#[derive(Debug)]
pub struct Position {
    pub relation: Relation,
    pub reference: String,
    pub alignment: Alignment,
}

/// A [`Position`] with its reference as characters.
pub struct PositionView {
    pub relation: Relation,
    pub reference: Seq<char>,
    pub alignment: Alignment,
}

impl View for Position {
    type V = PositionView;

    open spec fn view(&self) -> PositionView {
        PositionView { relation: self.relation, reference: self.reference@, alignment: self.alignment }
    }
}

/// What `"<relation> <reference> <alignment>"` describes: its first three words
/// (further words are ignored), or the first thing that is missing or unknown.
pub open spec fn position_of(s: Seq<char>) -> Result<PositionView, Seq<char>> {
    let w = words(s);
    if w.len() < 1 {
        Err("Missing relation"@)
    } else if relation_of(w[0]) is None {
        Err(unknown_relation(w[0]))
    } else if w.len() < 2 {
        Err("Missing reference"@)
    } else if w.len() < 3 {
        Err("Missing alignment"@)
    } else if alignment_of(w[2]) is None {
        Err(unknown_alignment(w[2]))
    } else {
        Ok(
            PositionView {
                relation: relation_of(w[0])->0,
                reference: w[1],
                alignment: alignment_of(w[2])->0,
            },
        )
    }
}

/// The textual form `"<relation> <reference> <alignment>"` of a position.
pub open spec fn position_text(p: PositionView) -> Seq<char> {
    relation_name(p.relation) + " "@ + p.reference + " "@ + alignment_name(p.alignment)
}

impl Position {
    /// Reads `"<relation> <reference> <alignment>"`, the words separated by
    /// white space.
    pub fn try_from(value: String) -> (r: Result<Position, String>)
        ensures
            match r {
                Ok(p) => position_of(value@) == Ok::<PositionView, Seq<char>>(p@),
                Err(e) => position_of(value@) == Err::<PositionView, Seq<char>>(e@),
            },
    {
        let w = split_words(value.as_str());
        proof {
            assert(w@.len() == words(value@).len());
            assert(forall|i: int| 0 <= i < w@.len() ==> #[trigger] w@[i]@ == words(value@)[i]) by {
                assert forall|i: int| 0 <= i < w@.len() implies #[trigger] w@[i]@ == words(value@)[i] by {
                    assert(w@.map_values(|x: String| x@)[i] == w@[i]@);
                }
            }
        }
        if w.len() < 1 {
            return Err(String::from_str("Missing relation"));
        }
        let relation = match Relation::from_name(w[0].as_str()) {
            Ok(rel) => rel,
            Err(e) => {
                return Err(e);
            },
        };
        if w.len() < 2 {
            return Err(String::from_str("Missing reference"));
        }
        let reference = w[1].clone();
        if w.len() < 3 {
            return Err(String::from_str("Missing alignment"));
        }
        let alignment = match Alignment::from_name(w[2].as_str()) {
            Ok(a) => a,
            Err(e) => {
                return Err(e);
            },
        };
        Ok(Position { relation, reference, alignment })
    }

    /// `"<relation> <reference> <alignment>"`.
    pub fn to_string(&self) -> (r: String)
        ensures
            r@ == position_text(self@),
    {
        let rel = self.relation.to_string();
        let align = self.alignment.to_string();
        rel.concat(" ").concat(self.reference.as_str()).concat(" ").concat(align.as_str())
    }

    /// A copy of the position.
    pub fn clone_position(&self) -> (r: Position)
        ensures
            r@ == self@,
    {
        Position { relation: self.relation, reference: self.reference.clone(), alignment: self.alignment }
    }
}

/// What the configuration asks of one output.
#[derive(Debug)]
pub struct Target {
    /// Picks the output: a serial number, a name, or part of the make.
    pub name: String,
    pub position: Option<Position>,
    /// Scale factor in 1/256 units (the protocol's fixed-point numbers).
    pub scale: Option<i32>,
    /// Index of a mode among the output's modes, highest first.
    pub mode: Option<usize>,
    /// Image rotation in degrees.
    pub rotation: Option<i32>,
    /// Whether the output should be on.
    pub active: Option<bool>,
}

/// A [`Target`] with its texts as characters.
pub struct TargetView {
    pub name: Seq<char>,
    pub position: Option<PositionView>,
    pub scale: Option<i32>,
    pub mode: Option<usize>,
    pub rotation: Option<i32>,
    pub active: Option<bool>,
}

impl View for Target {
    type V = TargetView;

    open spec fn view(&self) -> TargetView {
        TargetView {
            name: self.name@,
            position: match self.position {
                Some(p) => Some(p@),
                None => None,
            },
            scale: self.scale,
            mode: self.mode,
            rotation: self.rotation,
            active: self.active,
        }
    }
}

impl Target {
    /// A target that asks nothing of the output picked by `name`.
    pub fn new(name: String) -> (r: Target)
        ensures
            r@ == (TargetView {
                name: name@,
                position: None,
                scale: None,
                mode: None,
                rotation: None,
                active: None,
            }),
    {
        Target { name, position: None, scale: None, mode: None, rotation: None, active: None }
    }

    /// A copy of the target.
    pub fn clone_target(&self) -> (r: Target)
        ensures
            r@ == self@,
    {
        let position = match &self.position {
            Some(p) => Some(p.clone_position()),
            None => None,
        };
        Target {
            name: self.name.clone(),
            position,
            scale: self.scale,
            mode: self.mode,
            rotation: self.rotation,
            active: self.active,
        }
    }
}

/// What is asked of each output, in the order it was given.
#[derive(Debug)]
pub struct Config {
    targets: Vec<Target>,
}

impl View for Config {
    type V = Seq<TargetView>;

    closed spec fn view(&self) -> Seq<TargetView> {
        self.targets@.map_values(|t: Target| t@)
    }
}

impl Default for Config {
    fn default() -> (r: Config)
        ensures
            r@ == Seq::<TargetView>::empty(),
    {
        let r = Config { targets: Vec::new() };
        assert(r@ =~= Seq::<TargetView>::empty());
        r
    }
}

impl Config {
    /// Adds a target after the others.
    pub fn add_target(&mut self, target: Target)
        ensures
            final(self)@ == old(self)@.push(target@),
    {
        let ghost t = target@;
        self.targets.push(target);
        assert(self@ =~= old(self)@.push(t));
    }

    /// The targets, in order.
    pub fn targets(&self) -> (r: &Vec<Target>)
        ensures
            r@.map_values(|t: Target| t@) == self@,
    {
        &self.targets
    }
}

/// One table of a configuration file, as read: the output it names and the
/// values it gives.
pub struct TargetEntry {
    pub name: String,
    /// Scale factor in 1/256 units.
    pub scale: Option<i32>,
    pub mode: Option<usize>,
    pub rotation: Option<i32>,
    /// `"<relation> <reference> <alignment>"`.
    pub position: Option<String>,
}

/// A [`TargetEntry`] with its texts as characters.
pub struct TargetEntryView {
    pub name: Seq<char>,
    pub scale: Option<i32>,
    pub mode: Option<usize>,
    pub rotation: Option<i32>,
    pub position: Option<Seq<char>>,
}

impl View for TargetEntry {
    type V = TargetEntryView;

    open spec fn view(&self) -> TargetEntryView {
        TargetEntryView {
            name: self.name@,
            scale: self.scale,
            mode: self.mode,
            rotation: self.rotation,
            position: match self.position {
                Some(p) => Some(p@),
                None => None,
            },
        }
    }
}

/// The target an entry describes, or why its position cannot be read.
pub open spec fn target_of_entry(e: TargetEntryView) -> Result<TargetView, Seq<char>> {
    let t = TargetView {
        name: e.name,
        position: None,
        scale: e.scale,
        mode: e.mode,
        rotation: e.rotation,
        active: None,
    };
    match e.position {
        Some(p) => match position_of(p) {
            Ok(pv) => Ok(TargetView { position: Some(pv), ..t }),
            Err(m) => Err(m),
        },
        None => Ok(t),
    }
}

/// Reading a configuration keeps every entry, in order: each target has its
/// entry's name, scale, mode and rotation whatever its position is, and the
/// position the entry's text reads as (none without one). Reading fails
/// exactly when some entry's position cannot be read.
pub proof fn law_entries_kept(entries: Seq<TargetEntryView>)
    ensures
        config_of(entries) is Ok <==> forall|i: int|
            0 <= i < entries.len() && (#[trigger] entries[i]).position is Some ==> position_of(
                entries[i].position->0,
            ) is Ok,
        config_of(entries) is Ok ==> ({
            let ts = config_of(entries)->Ok_0;
            &&& ts.len() == entries.len()
            &&& forall|i: int|
                0 <= i < entries.len() ==> {
                    let t = #[trigger] ts[i];
                    let e = entries[i];
                    &&& t.name == e.name
                    &&& t.scale == e.scale
                    &&& t.mode == e.mode
                    &&& t.rotation == e.rotation
                    &&& t.active is None
                    &&& match e.position {
                        None => t.position is None,
                        Some(p) => t.position == Some(position_of(p)->Ok_0),
                    }
                }
        }),
    decreases entries.len(),
{
    if entries.len() > 0 {
        let rest = entries.drop_last();
        law_entries_kept(rest);
        assert forall|i: int| 0 <= i < rest.len() implies rest[i] == entries[i] by {}
        if config_of(entries) is Ok {
            let ts = config_of(entries)->Ok_0;
            assert forall|i: int|
                0 <= i < entries.len() && (#[trigger] entries[i]).position is Some implies position_of(
                    entries[i].position->0,
                ) is Ok by {
                if i < rest.len() {
                    assert(rest[i] == entries[i]);
                }
            }
        } else {
            if forall|i: int|
                0 <= i < entries.len() && (#[trigger] entries[i]).position is Some ==> position_of(
                    entries[i].position->0,
                ) is Ok {
                assert forall|i: int|
                    0 <= i < rest.len() && (#[trigger] rest[i]).position is Some implies position_of(
                        rest[i].position->0,
                    ) is Ok by {
                    assert(rest[i] == entries[i]);
                }
                assert(entries.last() == entries[entries.len() - 1]);
            }
        }
    }
}

/// The targets the entries describe, in order, or the first error.
pub open spec fn config_of(entries: Seq<TargetEntryView>) -> Result<Seq<TargetView>, Seq<char>>
    decreases entries.len(),
{
    if entries.len() == 0 {
        Ok(Seq::empty())
    } else {
        match config_of(entries.drop_last()) {
            Err(m) => Err(m),
            Ok(ts) => match target_of_entry(entries.last()) {
                Err(m) => Err(m),
                Ok(t) => Ok(ts.push(t)),
            },
        }
    }
}

proof fn lemma_config_err_sticks(entries: Seq<TargetEntryView>, k: int, m: Seq<char>)
    requires
        0 <= k <= entries.len(),
        config_of(entries.take(k)) == Err::<Seq<TargetView>, Seq<char>>(m),
    ensures
        config_of(entries) == Err::<Seq<TargetView>, Seq<char>>(m),
    decreases entries.len() - k,
{
    if k == entries.len() {
        assert(entries.take(k) =~= entries);
    } else {
        assert(entries.take(k + 1).drop_last() =~= entries.take(k));
        lemma_config_err_sticks(entries, k + 1, m);
    }
}

impl Config {
    /// The configuration the entries of a file describe (see [`config_of`]).
    pub fn from_entries(entries: &Vec<TargetEntry>) -> (r: Result<Config, String>)
        ensures
            match r {
                Ok(c) => config_of(entries@.map_values(|e: TargetEntry| e@)) == Ok::<Seq<TargetView>, Seq<char>>(c@),
                Err(e) => config_of(entries@.map_values(|e: TargetEntry| e@)) == Err::<Seq<TargetView>, Seq<char>>(e@),
            },
    {
        let ghost es = entries@.map_values(|e: TargetEntry| e@);
        let mut config = Config::default();
        let mut k: usize = 0;
        while k < entries.len()
            invariant
                es == entries@.map_values(|e: TargetEntry| e@),
                k <= es.len(),
                config_of(es.take(k as int)) == Ok::<Seq<TargetView>, Seq<char>>(config@),
            decreases es.len() - k,
        {
            let entry = &entries[k];
            proof {
                assert(es[k as int] == entry@);
                assert(es.take(k + 1).drop_last() =~= es.take(k as int));
            }
            let position = match &entry.position {
                Some(p) => match Position::try_from(p.clone()) {
                    Ok(pos) => Some(pos),
                    Err(m) => {
                        proof {
                            lemma_config_err_sticks(es, k + 1, m@);
                        }
                        return Err(m);
                    },
                },
                None => None,
            };
            let target = Target {
                name: entry.name.clone(),
                position,
                scale: entry.scale,
                mode: entry.mode,
                rotation: entry.rotation,
                active: None,
            };
            config.add_target(target);
            k = k + 1;
        }
        assert(es.take(es.len() as int) =~= es);
        Ok(config)
    }
}

} // verus!
