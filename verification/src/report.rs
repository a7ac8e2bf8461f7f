use vstd::prelude::*;
use vstd::string::*;

use crate::decimal::{fixed_text, fixed_to_text, int_text, int_to_text, nat_to_text, refresh_text, refresh_to_text};
use crate::heads::{is_desc_permutation, sort_modes_desc, sortable, sorted_desc, Head, HeadView, Heads, Mode};
use crate::point::Point;
use crate::text::push_char;
use crate::transform::transform_text;

verus! {

/// How a piece of text is shown on a terminal.
#[derive(Debug, Clone, Copy, PartialEq, Eq, Structural)]
pub enum Style {
    Plain,
    Bold,
    Gray,
    LightGray,
}

/// A piece of a line, with its style.
#[derive(Debug)]
pub struct Segment {
    pub text: String,
    pub style: Style,
}

impl View for Segment {
    type V = (Seq<char>, Style);

    open spec fn view(&self) -> (Seq<char>, Style) {
        (self.text@, self.style)
    }
}

/// The lines as texts with styles.
pub open spec fn lines_view(lines: Seq<Vec<Segment>>) -> Seq<Seq<(Seq<char>, Style)>> {
    Seq::new(lines.len(), |i: int| lines[i]@.map_values(|s: Segment| s@))
}

/// `"(x, y)"`.
pub open spec fn point_text(p: Point) -> Seq<char> {
    "("@ + int_text(p.0 as int) + ", "@ + int_text(p.1 as int) + ")"@
}

/// `"w x h"`.
pub open spec fn size_text(p: Point) -> Seq<char> {
    int_text(p.0 as int) + " x "@ + int_text(p.1 as int)
}

/// The size of the current mode, or `"N/A"` without one.
pub open spec fn mode_size_text(mode: Option<Mode>) -> Seq<char> {
    match mode {
        Some(m) => size_text(m.size),
        None => "N/A"@,
    }
}

/// The refresh rate of the current mode, or `"N/A"` without one.
pub open spec fn mode_refresh_text(mode: Option<Mode>) -> Seq<char> {
    match mode {
        Some(m) => refresh_text(m.refresh) + " kHz"@,
        None => "N/A"@,
    }
}

/// `" (disabled)"` for an output that is off.
pub open spec fn state_suffix(enabled: bool) -> Seq<char> {
    if enabled {
        Seq::empty()
    } else {
        " (disabled)"@
    }
}

/// A line of one plain segment.
pub open spec fn plain(t: Seq<char>) -> Seq<(Seq<char>, Style)> {
    seq![(t, Style::Plain)]
}

/// The lines that `list` shows for one output.
pub open spec fn list_head_lines(h: HeadView) -> Seq<Seq<(Seq<char>, Style)>> {
    seq![
        seq![(h.name, Style::Bold), (state_suffix(h.enabled) + ":"@, Style::Plain)],
        plain("\tSerial Number: "@ + h.serial_number),
        seq![("\tMake: "@ + h.make + " "@, Style::Plain), (h.model, Style::Gray)],
        seq![
            ("\tSize: "@ + mode_size_text(h.current_mode) + " "@, Style::Plain),
            ("scale: "@ + fixed_text(h.scale as int), Style::LightGray),
        ],
        plain("\tPhysical Size: "@ + size_text(h.physical_size) + " mm"@),
        plain("\tRefresh Rate: "@ + mode_refresh_text(h.current_mode)),
        plain("\tPosition: "@ + point_text(h.position)),
    ]
}

/// The lines that `list` shows for the first `m` outputs, in order.
pub open spec fn list_lines_of(heads: Seq<(Seq<char>, HeadView)>, m: int) -> Seq<Seq<(Seq<char>, Style)>>
    decreases m,
{
    if m <= 0 {
        Seq::empty()
    } else {
        list_lines_of(heads, m - 1) + list_head_lines(heads[m - 1].1)
    }
}

/// The line describing the mode at `index` in the sorted list, marked when it
/// is the current mode and when it is the preferred one.
pub open spec fn mode_line(mode: Mode, index: int, current: bool) -> Seq<char> {
    (if current { "\t>"@ } else { "\t "@ }) + " "@ + int_text(index) + ". "@ + size_text(mode.size) + " @ "@
        + refresh_text(mode.refresh) + " kHz "@ + (if mode.prefered { "(*)"@ } else { Seq::empty() })
}

/// The lines that `show` prints for one output before its modes.
pub open spec fn show_head_lines(h: HeadView) -> Seq<Seq<char>> {
    seq![
        "Name: "@ + h.name + state_suffix(h.enabled),
        "Serial Number: "@ + h.serial_number,
        "Make: "@ + h.make,
        "Model: "@ + h.model,
        "Size: "@ + mode_size_text(h.current_mode),
        "Scale: "@ + fixed_text(h.scale as int),
        "Rotation: "@ + transform_text(h.transform),
        "Physical Size: "@ + size_text(h.physical_size) + " mm"@,
        "Refresh Rate: "@ + mode_refresh_text(h.current_mode),
        "Position: "@ + point_text(h.position),
        "Modes:"@,
    ]
}

/// The lines that `show` prints for one output, its modes listed as in `sorted`.
pub open spec fn show_lines_with(h: HeadView, sorted: Seq<Mode>) -> Seq<Seq<char>> {
    show_head_lines(h) + Seq::new(sorted.len(), |i: int| mode_line(sorted[i], i, h.current_mode == Some(sorted[i])))
}

/// `show` marks exactly the mode line of the current mode: the line for the
/// mode at index `i` of the sorted list starts with `"\t>"` when that mode is
/// the output's current mode (same id, size, refresh and preference) and with
/// `"\t "` otherwise, and it ends with `"(*)"` exactly when the mode is the
/// preferred one; so when the output's modes have distinct ids, at most one
/// line is marked current.
pub proof fn law_show_marks_current(h: HeadView, sorted: Seq<Mode>)
    requires
        sorted_desc(h.modes, sorted),
    ensures
        show_lines_with(h, sorted).len() == 11 + sorted.len(),
        forall|i: int|
            0 <= i < sorted.len() ==> (#[trigger] show_lines_with(h, sorted)[11 + i]).len() >= 2
                && show_lines_with(h, sorted)[11 + i][0] == '\t' && (show_lines_with(h, sorted)[11 + i][1]
                == '>' <==> h.current_mode == Some(sorted[i])) && (show_lines_with(h, sorted)[11 + i][1]
                != '>' ==> show_lines_with(h, sorted)[11 + i][1] == ' ') && (show_lines_with(h, sorted)[11
                + i].last() == ')' <==> sorted[i].prefered),
        (forall|a: int, b: int|
            0 <= a < b < h.modes.len() ==> (#[trigger] h.modes[a]).id != (#[trigger] h.modes[b]).id)
            ==> forall|i: int, j: int|
            0 <= i < sorted.len() && 0 <= j < sorted.len() && (#[trigger] show_lines_with(h, sorted)[11 + i])[1]
                == '>' && (#[trigger] show_lines_with(h, sorted)[11 + j])[1] == '>' ==> i == j,
{
    reveal_strlit("\t>");
    reveal_strlit("\t ");
    reveal_strlit(" kHz ");
    reveal_strlit("(*)");
    let lines = show_lines_with(h, sorted);
    assert forall|i: int| 0 <= i < sorted.len() implies (#[trigger] lines[11 + i]).len() >= 2 && lines[11
        + i][0] == '\t' && (lines[11 + i][1] == '>' <==> h.current_mode == Some(sorted[i])) && (lines[11
        + i][1] != '>' ==> lines[11 + i][1] == ' ') && (lines[11 + i].last() == ')' <==> sorted[i].prefered) by {
        let cur = h.current_mode == Some(sorted[i]);
        let mark: Seq<char> = if cur { "\t>"@ } else { "\t "@ };
        assert(lines[11 + i] == mode_line(sorted[i], i, cur));
        let rest = " "@ + int_text(i) + ". "@ + size_text(sorted[i].size) + " @ "@ + refresh_text(sorted[i].refresh)
            + " kHz "@ + (if sorted[i].prefered { "(*)"@ } else { Seq::empty() });
        assert(mode_line(sorted[i], i, cur) =~= mark + rest);
        let head = mark + " "@ + int_text(i) + ". "@ + size_text(sorted[i].size) + " @ "@ + refresh_text(
            sorted[i].refresh,
        ) + " kHz "@;
        if sorted[i].prefered {
            assert(mode_line(sorted[i], i, cur) =~= head + "(*)"@);
        } else {
            assert(mode_line(sorted[i], i, cur) =~= head);
            assert(head.last() == ' ');
        }
    }
    if forall|a: int, b: int|
        0 <= a < b < h.modes.len() ==> (#[trigger] h.modes[a]).id != (#[trigger] h.modes[b]).id {
        assert forall|i: int, j: int|
            0 <= i < sorted.len() && 0 <= j < sorted.len() && (#[trigger] lines[11 + i])[1] == '>'
                && (#[trigger] lines[11 + j])[1] == '>' implies i == j by {
            let p = choose|p: Seq<int>| is_desc_permutation(h.modes, sorted, p);
            assert(sorted[i] == h.modes[p[i]]);
            assert(sorted[j] == h.modes[p[j]]);
            if p[i] < p[j] {
                assert(h.modes[p[i]].id != h.modes[p[j]].id);
            } else if p[j] < p[i] {
                assert(h.modes[p[j]].id != h.modes[p[i]].id);
            }
            if i != j {
                assert(p[i] != p[j]);
            }
        }
    }
}

/// The `Size` of `list` and `show` is the current mode's size in pixels,
/// whatever the output's scale (`"N/A"` without a current mode).
pub proof fn law_size_is_mode_size(h: HeadView, scale: i32)
    ensures
        list_head_lines(h)[3][0].0 == "\tSize: "@ + (match h.current_mode {
            Some(m) => int_text(m.size.0 as int) + " x "@ + int_text(m.size.1 as int),
            None => "N/A"@,
        }) + " "@,
        show_head_lines(h)[4] == "Size: "@ + (match h.current_mode {
            Some(m) => int_text(m.size.0 as int) + " x "@ + int_text(m.size.1 as int),
            None => "N/A"@,
        }),
        list_head_lines(HeadView { scale, ..h })[3][0] == list_head_lines(h)[3][0],
        show_head_lines(HeadView { scale, ..h })[4] == show_head_lines(h)[4],
{
}

/// `"(x, y)"`.
pub fn point_to_text(p: Point) -> (r: String)
    ensures
        r@ == point_text(p),
{
    let x = int_to_text(p.0 as i64);
    let y = int_to_text(p.1 as i64);
    String::from_str("(").concat(x.as_str()).concat(", ").concat(y.as_str()).concat(")")
}

/// `"w x h"`.
pub fn size_to_text(p: Point) -> (r: String)
    ensures
        r@ == size_text(p),
{
    let w = int_to_text(p.0 as i64);
    let h = int_to_text(p.1 as i64);
    w.concat(" x ").concat(h.as_str())
}

fn mode_size_to_text(mode: Option<Mode>) -> (r: String)
    ensures
        r@ == mode_size_text(mode),
{
    match mode {
        Some(m) => size_to_text(m.size),
        None => String::from_str("N/A"),
    }
}

fn mode_refresh_to_text(mode: Option<Mode>) -> (r: String)
    ensures
        r@ == mode_refresh_text(mode),
{
    match mode {
        Some(m) => refresh_to_text(m.refresh).concat(" kHz"),
        None => String::from_str("N/A"),
    }
}

fn state_suffix_text(enabled: bool) -> (r: &'static str)
    ensures
        r@ == state_suffix(enabled),
{
    if enabled {
        proof {
            reveal_strlit("");
        }
        ""
    } else {
        " (disabled)"
    }
}

fn segment(text: String, style: Style) -> (r: Segment)
    ensures
        r@ == (text@, style),
{
    Segment { text, style }
}

fn plain_line(text: String) -> (r: Vec<Segment>)
    ensures
        r@.map_values(|s: Segment| s@) == plain(text@),
{
    let ghost t = text@;
    let mut line = Vec::new();
    line.push(segment(text, Style::Plain));
    assert(line@.map_values(|s: Segment| s@) =~= plain(t));
    line
}

/// The lines that `list` shows for one output (see [`list_head_lines`]).
pub fn list_head(head: &Head) -> (r: Vec<Vec<Segment>>)
    ensures
        lines_view(r@) == list_head_lines(head@),
{
    let h = head;
    let mut lines: Vec<Vec<Segment>> = Vec::new();

    let mut first = Vec::new();
    first.push(segment(h.name.clone(), Style::Bold));
    first.push(segment(String::from_str(state_suffix_text(h.enabled)).concat(":"), Style::Plain));
    lines.push(first);

    lines.push(plain_line(String::from_str("\tSerial Number: ").concat(h.serial_number.as_str())));

    let mut make = Vec::new();
    make.push(segment(String::from_str("\tMake: ").concat(h.make.as_str()).concat(" "), Style::Plain));
    make.push(segment(h.model.clone(), Style::Gray));
    lines.push(make);

    let mut size = Vec::new();
    let size_part = mode_size_to_text(h.current_mode);
    size.push(segment(String::from_str("\tSize: ").concat(size_part.as_str()).concat(" "), Style::Plain));
    let scale_part = fixed_to_text(h.scale);
    size.push(segment(String::from_str("scale: ").concat(scale_part.as_str()), Style::LightGray));
    lines.push(size);

    let physical = size_to_text(h.physical_size);
    lines.push(plain_line(String::from_str("\tPhysical Size: ").concat(physical.as_str()).concat(" mm")));

    let refresh = mode_refresh_to_text(h.current_mode);
    lines.push(plain_line(String::from_str("\tRefresh Rate: ").concat(refresh.as_str())));

    let position = point_to_text(h.position);
    lines.push(plain_line(String::from_str("\tPosition: ").concat(position.as_str())));

    proof {
        let v = lines_view(lines@);
        let w = list_head_lines(head@);
        assert(v.len() == w.len());
        assert forall|k: int| 0 <= k < v.len() implies #[trigger] v[k] =~= w[k] by {
            assert(v[k] == lines@[k]@.map_values(|s: Segment| s@));
        }
        assert(v =~= w);
    }
    lines
}

/// The lines that `list` shows: every output, in order (see [`list_lines_of`]).
pub fn list_lines(heads: &Heads) -> (r: Vec<Vec<Segment>>)
    ensures
        lines_view(r@) == list_lines_of(heads@, heads@.len() as int),
{
    let mut lines: Vec<Vec<Segment>> = Vec::new();
    let mut i: usize = 0;
    while i < heads.len()
        invariant
            i <= heads@.len(),
            lines_view(lines@) == list_lines_of(heads@, i as int),
        decreases heads@.len() - i,
    {
        let mut part = list_head(heads.get(i));
        let ghost before = lines_view(lines@);
        let ghost added = lines_view(part@);
        lines.append(&mut part);
        assert(lines_view(lines@) =~= before + added);
        i = i + 1;
    }
    lines
}

/// The line describing a mode of the sorted list (see [`mode_line`]).
fn mode_to_line(mode: Mode, index: usize, current: bool) -> (r: String)
    ensures
        r@ == mode_line(mode, index as int, current),
{
    let mark = if current {
        String::from_str("\t>")
    } else {
        String::from_str("\t ")
    };
    let number = nat_to_text(index as u64);
    let size = size_to_text(mode.size);
    let refresh = refresh_to_text(mode.refresh);
    let prefered = if mode.prefered {
        String::from_str("(*)")
    } else {
        String::new()
    };
    mark.concat(" ").concat(number.as_str()).concat(". ").concat(size.as_str()).concat(" @ ").concat(
        refresh.as_str(),
    ).concat(" kHz ").concat(prefered.as_str())
}

/// The lines that `show` prints for one output, its modes sorted from the
/// highest to the lowest (see [`show_lines_with`]).
pub fn show_lines(head: &Head) -> (r: Vec<String>)
    requires
        sortable(head@.modes),
    ensures
        exists|sorted: Seq<Mode>|
            sorted_desc(head@.modes, sorted) && r@.map_values(|s: String| s@) == show_lines_with(
                head@,
                sorted,
            ),
{
    let mut lines: Vec<String> = Vec::new();
    lines.push(String::from_str("Name: ").concat(head.name.as_str()).concat(state_suffix_text(head.enabled)));
    lines.push(String::from_str("Serial Number: ").concat(head.serial_number.as_str()));
    lines.push(String::from_str("Make: ").concat(head.make.as_str()));
    lines.push(String::from_str("Model: ").concat(head.model.as_str()));
    let size = mode_size_to_text(head.current_mode);
    lines.push(String::from_str("Size: ").concat(size.as_str()));
    let scale = fixed_to_text(head.scale);
    lines.push(String::from_str("Scale: ").concat(scale.as_str()));
    let rotation = head.transform.name();
    lines.push(String::from_str("Rotation: ").concat(rotation.as_str()));
    let physical = size_to_text(head.physical_size);
    lines.push(String::from_str("Physical Size: ").concat(physical.as_str()).concat(" mm"));
    let refresh = mode_refresh_to_text(head.current_mode);
    lines.push(String::from_str("Refresh Rate: ").concat(refresh.as_str()));
    let position = point_to_text(head.position);
    lines.push(String::from_str("Position: ").concat(position.as_str()));
    lines.push(String::from_str("Modes:"));
    let sorted = sort_modes_desc(&head.modes);
    let ghost head_part = lines@.map_values(|s: String| s@);
    assert(head_part =~= show_head_lines(head@));
    let mut i: usize = 0;
    while i < sorted.len()
        invariant
            i <= sorted@.len(),
            head_part == show_head_lines(head@),
            sorted_desc(head@.modes, sorted@),
            head_part.len() == 11,
            lines@.len() == 11 + i,
            forall|k: int| 0 <= k < 11 ==> #[trigger] lines@[k]@ == head_part[k],
            forall|k: int|
                0 <= k < i ==> #[trigger] lines@[11 + k]@ == mode_line(
                    sorted@[k],
                    k,
                    head.current_mode == Some(sorted@[k]),
                ),
        decreases sorted@.len() - i,
    {
        let mode = sorted[i];
        let current = head.current_mode == Some(mode);
        lines.push(mode_to_line(mode, i, current));
        i = i + 1;
    }
    proof {
        let v = lines@.map_values(|s: String| s@);
        let w = show_lines_with(head@, sorted@);
        assert(v.len() == w.len());
        assert forall|k: int| 0 <= k < v.len() implies v[k] == w[k] by {
            if k < 11 {
                assert(v[k] == lines@[k]@);
            } else {
                assert(v[k] == lines@[11 + (k - 11)]@);
            }
        }
        assert(v =~= w);
    }
    lines
}

/// The lines joined into one text, each ending with a line break; styles are dropped.
pub fn plain_text(lines: &Vec<Vec<Segment>>) -> (r: String)
    ensures
        r@ == joined(lines_view(lines@)),
{
    let mut out = String::new();
    let mut i: usize = 0;
    while i < lines.len()
        invariant
            i <= lines@.len(),
            out@ == joined(lines_view(lines@).take(i as int)),
        decreases lines@.len() - i,
    {
        let line = &lines[i];
        let ghost before = out@;
        let mut k: usize = 0;
        while k < line.len()
            invariant
                k <= line@.len(),
                line@ == lines@[i as int]@,
                out@ == before + line_text(line@.map_values(|s: Segment| s@).take(k as int)),
            decreases line@.len() - k,
        {
            out.append(line[k].text.as_str());
            proof {
                let segs = line@.map_values(|s: Segment| s@);
                assert(segs.take(k + 1).drop_last() =~= segs.take(k as int));
            }
            k = k + 1;
        }
        push_char(&mut out, '\n');
        proof {
            let v = lines_view(lines@);
            assert(v.take(i + 1).drop_last() =~= v.take(i as int));
            assert(line@.map_values(|s: Segment| s@).take(line@.len() as int) =~= v[i as int]);
        }
        i = i + 1;
    }
    assert(lines_view(lines@).take(lines@.len() as int) =~= lines_view(lines@));
    out
}

/// The texts of a line's segments, one after the other.
pub open spec fn line_text(segments: Seq<(Seq<char>, Style)>) -> Seq<char>
    decreases segments.len(),
{
    if segments.len() == 0 {
        Seq::empty()
    } else {
        line_text(segments.drop_last()) + segments.last().0
    }
}

/// The lines' texts, each followed by a line break.
pub open spec fn joined(lines: Seq<Seq<(Seq<char>, Style)>>) -> Seq<char>
    decreases lines.len(),
{
    if lines.len() == 0 {
        Seq::empty()
    } else {
        joined(lines.drop_last()) + line_text(lines.last()) + seq!['\n']
    }
}

} // verus!
