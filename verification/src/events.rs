use vstd::prelude::*;

use crate::heads::Mode;
use crate::point::Point;
use crate::snapshot::{OutputInfo, OutputView};
use crate::transform::Transform;

verus! {

/// What the compositor tells about an output, one property at a time.
pub enum HeadEvent {
    Name(String),
    Description(String),
    PhysicalSize(Point),
    /// A supported mode, by its configuration index.
    Mode(u32),
    /// Non-zero when the output is on.
    Enabled(i32),
    /// The current mode, by its configuration index.
    CurrentMode(u32),
    Position(Point),
    /// The output is gone.
    Finished,
    Make(String),
    Model(String),
    SerialNumber(String),
    /// Scale factor in 1/256 units.
    Scale(i32),
    Transform(Transform),
}

/// A [`HeadEvent`] with its texts as characters.
pub enum HeadEventView {
    Name(Seq<char>),
    Description(Seq<char>),
    PhysicalSize(Point),
    Mode(u32),
    Enabled(i32),
    CurrentMode(u32),
    Position(Point),
    Finished,
    Make(Seq<char>),
    Model(Seq<char>),
    SerialNumber(Seq<char>),
    Scale(i32),
    Transform(Transform),
}

impl View for HeadEvent {
    type V = HeadEventView;

    open spec fn view(&self) -> HeadEventView {
        match self {
            HeadEvent::Name(s) => HeadEventView::Name(s@),
            HeadEvent::Description(s) => HeadEventView::Description(s@),
            HeadEvent::PhysicalSize(p) => HeadEventView::PhysicalSize(*p),
            HeadEvent::Mode(m) => HeadEventView::Mode(*m),
            HeadEvent::Enabled(e) => HeadEventView::Enabled(*e),
            HeadEvent::CurrentMode(m) => HeadEventView::CurrentMode(*m),
            HeadEvent::Position(p) => HeadEventView::Position(*p),
            HeadEvent::Finished => HeadEventView::Finished,
            HeadEvent::Make(s) => HeadEventView::Make(s@),
            HeadEvent::Model(s) => HeadEventView::Model(s@),
            HeadEvent::SerialNumber(s) => HeadEventView::SerialNumber(s@),
            HeadEvent::Scale(s) => HeadEventView::Scale(*s),
            HeadEvent::Transform(t) => HeadEventView::Transform(*t),
        }
    }
}

/// The output after an event: the event's property takes its value (a mode is
/// added to the supported ones; turning an output on or off keeps its current
/// mode); `Finished` changes nothing.
pub open spec fn output_after(o: OutputView, e: HeadEventView) -> OutputView {
    match e {
        HeadEventView::Name(s) => OutputView { name: s, ..o },
        HeadEventView::Description(s) => OutputView { description: s, ..o },
        HeadEventView::PhysicalSize(p) => OutputView { physical_size: p, ..o },
        HeadEventView::Mode(m) => OutputView { mode_ids: o.mode_ids.push(m), ..o },
        HeadEventView::Enabled(v) => OutputView { enabled: v != 0, ..o },
        HeadEventView::CurrentMode(m) => OutputView { current_mode: Some(m), ..o },
        HeadEventView::Position(p) => OutputView { position: p, ..o },
        HeadEventView::Finished => o,
        HeadEventView::Make(s) => OutputView { make: s, ..o },
        HeadEventView::Model(s) => OutputView { model: s, ..o },
        HeadEventView::SerialNumber(s) => OutputView { serial_number: s, ..o },
        HeadEventView::Scale(s) => OutputView { scale: s, ..o },
        HeadEventView::Transform(t) => OutputView { transform: t, ..o },
    }
}

impl OutputInfo {
    /// An output the compositor has just announced: nothing is known of it yet.
    pub fn announced(id: u32) -> (r: OutputInfo)
        ensures
            r@ == (OutputView {
                id,
                name: Seq::empty(),
                description: Seq::empty(),
                physical_size: Point(0, 0),
                current_mode: None,
                mode_ids: Seq::empty(),
                enabled: false,
                position: Point(0, 0),
                make: Seq::empty(),
                model: Seq::empty(),
                serial_number: Seq::empty(),
                scale: 0,
                transform: Transform::Normal,
            }),
    {
        OutputInfo {
            id,
            name: String::new(),
            description: String::new(),
            physical_size: Point(0, 0),
            current_mode: None,
            mode_ids: Vec::new(),
            enabled: false,
            position: Point(0, 0),
            make: String::new(),
            model: String::new(),
            serial_number: String::new(),
            scale: 0,
            transform: Transform::Normal,
        }
    }

    /// Takes in an event about this output (see [`output_after`]); tells whether
    /// the output is gone and should be forgotten.
    pub fn apply_event(&mut self, event: HeadEvent) -> (finished: bool)
        ensures
            final(self)@ == output_after(old(self)@, event@),
            finished == (event@ is Finished),
    {
        match event {
            HeadEvent::Name(s) => {
                self.name = s;
            },
            HeadEvent::Description(s) => {
                self.description = s;
            },
            HeadEvent::PhysicalSize(p) => {
                self.physical_size = p;
            },
            HeadEvent::Mode(m) => {
                self.mode_ids.push(m);
            },
            HeadEvent::Enabled(v) => {
                self.enabled = v != 0;
            },
            HeadEvent::CurrentMode(m) => {
                self.current_mode = Some(m);
            },
            HeadEvent::Position(p) => {
                self.position = p;
            },
            HeadEvent::Finished => {
                return true;
            },
            HeadEvent::Make(s) => {
                self.make = s;
            },
            HeadEvent::Model(s) => {
                self.model = s;
            },
            HeadEvent::SerialNumber(s) => {
                self.serial_number = s;
            },
            HeadEvent::Scale(s) => {
                self.scale = s;
            },
            HeadEvent::Transform(t) => {
                self.transform = t;
            },
        }
        false
    }
}

/// What the compositor tells about a mode.
#[derive(Debug, Clone, Copy, PartialEq, Eq, Structural)]
pub enum ModeEvent {
    Size(Point),
    /// Refresh rate in mHz.
    Refresh(i32),
    Preferred,
    /// The mode is gone.
    Finished,
}

/// The mode after an event; `Finished` changes nothing.
pub open spec fn mode_after(m: Mode, e: ModeEvent) -> Mode {
    match e {
        ModeEvent::Size(p) => Mode { size: p, ..m },
        ModeEvent::Refresh(r) => Mode { refresh: r, ..m },
        ModeEvent::Preferred => Mode { prefered: true, ..m },
        ModeEvent::Finished => m,
    }
}

impl Mode {
    /// A mode the compositor has just announced: nothing is known of it yet.
    pub fn announced(id: u32) -> (r: Mode)
        ensures
            r == (Mode { id, size: Point(0, 0), refresh: 0, prefered: false }),
    {
        Mode { id, size: Point(0, 0), refresh: 0, prefered: false }
    }

    /// Takes in an event about this mode (see [`mode_after`]); tells whether the
    /// mode is gone and should be forgotten.
    pub fn apply_event(&mut self, event: ModeEvent) -> (finished: bool)
        ensures
            *final(self) == mode_after(*old(self), event),
            finished == (event == ModeEvent::Finished),
    {
        match event {
            ModeEvent::Size(p) => {
                self.size = p;
            },
            ModeEvent::Refresh(r) => {
                self.refresh = r;
            },
            ModeEvent::Preferred => {
                self.prefered = true;
            },
            ModeEvent::Finished => {
                return true;
            },
        }
        false
    }
}

/// What the client keeps between two rounds of output events: the serial of
/// the last round and whether an output appeared since the last notice.
#[derive(Debug, Clone, Copy, PartialEq, Eq, Structural)]
pub struct Rounds {
    pub serial: u32,
    pub dirty: bool,
}

/// The end of a round of events numbered `serial`: the serial is kept, and
/// when an output appeared since the last notice, watchers are told (`notify`),
/// and the notice is done once telling them succeeded.
pub fn on_done(rounds: Rounds, serial: u32, notified: bool) -> (r: Rounds)
    ensures
        r.serial == serial,
        r.dirty == (rounds.dirty && !notified),
{
    Rounds { serial, dirty: rounds.dirty && !notified }
}

} // verus!
