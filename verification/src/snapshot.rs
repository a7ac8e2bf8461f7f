use vstd::prelude::*;
use vstd::string::*;

use crate::heads::{insert_named, Head, HeadView, Heads, Mode};
use crate::point::Point;
use crate::transform::Transform;

verus! {

/// What the compositor last told about one output. Outputs and modes are
/// known by their configuration index.
pub struct OutputInfo {
    pub id: u32,
    pub name: String,
    pub description: String,
    /// Physical size in millimetres.
    pub physical_size: Point,
    /// Index of the current mode, if the output has one.
    pub current_mode: Option<u32>,
    /// Indices of the modes the output supports, in the order they were announced.
    pub mode_ids: Vec<u32>,
    pub enabled: bool,
    pub position: Point,
    pub make: String,
    pub model: String,
    pub serial_number: String,
    /// Scale factor in 1/256 units.
    pub scale: i32,
    pub transform: Transform,
}

/// An [`OutputInfo`] with its texts as characters and its mode indices as a sequence.
pub struct OutputView {
    pub id: u32,
    pub name: Seq<char>,
    pub description: Seq<char>,
    pub physical_size: Point,
    pub current_mode: Option<u32>,
    pub mode_ids: Seq<u32>,
    pub enabled: bool,
    pub position: Point,
    pub make: Seq<char>,
    pub model: Seq<char>,
    pub serial_number: Seq<char>,
    pub scale: i32,
    pub transform: Transform,
}

impl View for OutputInfo {
    type V = OutputView;

    open spec fn view(&self) -> OutputView {
        OutputView {
            id: self.id,
            name: self.name@,
            description: self.description@,
            physical_size: self.physical_size,
            current_mode: self.current_mode,
            mode_ids: self.mode_ids@,
            enabled: self.enabled,
            position: self.position,
            make: self.make@,
            model: self.model@,
            serial_number: self.serial_number@,
            scale: self.scale,
            transform: self.transform,
        }
    }
}

/// The first mode of `modes` from index `i` on whose index is `id`.
pub open spec fn mode_from(modes: Seq<Mode>, id: u32, i: int) -> Option<Mode>
    decreases modes.len() - i,
{
    if i < 0 || i >= modes.len() {
        None
    } else if modes[i].id == id {
        Some(modes[i])
    } else {
        mode_from(modes, id, i + 1)
    }
}

/// The mode whose index is `id`, if it is known.
pub open spec fn mode_lookup(modes: Seq<Mode>, id: u32) -> Option<Mode> {
    mode_from(modes, id, 0)
}

/// Every mode that an output supports is known.
pub open spec fn modes_known(outputs: Seq<OutputView>, modes: Seq<Mode>) -> bool {
    forall|i: int, k: int|
        #![trigger outputs[i].mode_ids[k]]
        0 <= i < outputs.len() && 0 <= k < outputs[i].mode_ids.len() ==> mode_lookup(
            modes,
            outputs[i].mode_ids[k],
        ) is Some
}

/// The head that an output is, with its current mode (when it is known) and
/// its supported modes.
pub open spec fn head_of(o: OutputView, modes: Seq<Mode>) -> HeadView {
    HeadView {
        id: o.id,
        name: o.name,
        description: o.description,
        physical_size: o.physical_size,
        current_mode: match o.current_mode {
            Some(c) => mode_lookup(modes, c),
            None => None,
        },
        modes: Seq::new(o.mode_ids.len(), |k: int| mode_lookup(modes, o.mode_ids[k])->0),
        enabled: o.enabled,
        position: o.position,
        make: o.make,
        model: o.model,
        serial_number: o.serial_number,
        scale: o.scale,
        transform: o.transform,
    }
}

/// The heads of the first outputs, each under its name (a later output replaces
/// an earlier one of the same name).
pub open spec fn heads_of(outputs: Seq<OutputView>, modes: Seq<Mode>) -> Seq<(Seq<char>, HeadView)>
    decreases outputs.len(),
{
    if outputs.len() == 0 {
        Seq::empty()
    } else {
        let o = outputs.last();
        insert_named(heads_of(outputs.drop_last(), modes), o.name, head_of(o, modes))
    }
}

/// The mode whose index is `id`, if it is known.
pub fn find_mode(modes: &Vec<Mode>, id: u32) -> (r: Option<Mode>)
    ensures
        r == mode_lookup(modes@, id),
        r matches Some(m) ==> m.id == id,
{
    let mut i: usize = 0;
    while i < modes.len()
        invariant
            i <= modes@.len(),
            mode_lookup(modes@, id) == mode_from(modes@, id, i as int),
        decreases modes@.len() - i,
    {
        if modes[i].id == id {
            return Some(modes[i]);
        }
        i = i + 1;
    }
    None
}

/// Whether every mode that an output supports is known.
pub fn all_modes_known(outputs: &Vec<OutputInfo>, modes: &Vec<Mode>) -> (r: bool)
    ensures
        r == modes_known(outputs@.map_values(|o: OutputInfo| o@), modes@),
{
    let ghost os = outputs@.map_values(|o: OutputInfo| o@);
    let mut i: usize = 0;
    while i < outputs.len()
        invariant
            os == outputs@.map_values(|o: OutputInfo| o@),
            i <= outputs@.len(),
            forall|a: int, k: int|
                #![trigger os[a].mode_ids[k]]
                0 <= a < i && 0 <= k < os[a].mode_ids.len() ==> mode_lookup(modes@, os[a].mode_ids[k]) is Some,
        decreases outputs@.len() - i,
    {
        let ids = &outputs[i].mode_ids;
        assert(os[i as int] == outputs@[i as int]@);
        let mut k: usize = 0;
        while k < ids.len()
            invariant
                os == outputs@.map_values(|o: OutputInfo| o@),
                i < outputs@.len(),
                ids@ == os[i as int].mode_ids,
                k <= ids@.len(),
                forall|a: int, k2: int|
                    #![trigger os[a].mode_ids[k2]]
                    0 <= a < i && 0 <= k2 < os[a].mode_ids.len() ==> mode_lookup(modes@, os[a].mode_ids[k2]) is Some,
                forall|k2: int| 0 <= k2 < k ==> mode_lookup(modes@, #[trigger] os[i as int].mode_ids[k2]) is Some,
            decreases ids@.len() - k,
        {
            if find_mode(modes, ids[k]).is_none() {
                assert(!modes_known(os, modes@)) by {
                    assert(os[i as int].mode_ids[k as int] == ids@[k as int]);
                }
                return false;
            }
            k = k + 1;
        }
        i = i + 1;
    }
    true
}

impl OutputInfo {
    /// The head this output is (see [`head_of`]).
    pub fn to_head(&self, modes: &Vec<Mode>) -> (r: Head)
        requires
            forall|k: int| 0 <= k < self.mode_ids@.len() ==> mode_lookup(modes@, #[trigger] self.mode_ids@[k]) is Some,
        ensures
            r@ == head_of(self@, modes@),
    {
        let current_mode = match self.current_mode {
            Some(c) => find_mode(modes, c),
            None => None,
        };
        let mut head_modes: Vec<Mode> = Vec::new();
        let mut k: usize = 0;
        while k < self.mode_ids.len()
            invariant
                k <= self.mode_ids@.len(),
                head_modes@.len() == k,
                forall|k2: int| 0 <= k2 < self.mode_ids@.len() ==> mode_lookup(modes@, #[trigger] self.mode_ids@[k2]) is Some,
                forall|k2: int| 0 <= k2 < k ==> #[trigger] head_modes@[k2] == mode_lookup(modes@, self.mode_ids@[k2])->0,
            decreases self.mode_ids@.len() - k,
        {
            let m = find_mode(modes, self.mode_ids[k]);
            head_modes.push(m.unwrap());
            k = k + 1;
        }
        let r = Head {
            id: self.id,
            name: self.name.clone(),
            description: self.description.clone(),
            physical_size: self.physical_size,
            current_mode,
            modes: head_modes,
            enabled: self.enabled,
            position: self.position,
            make: self.make.clone(),
            model: self.model.clone(),
            serial_number: self.serial_number.clone(),
            scale: self.scale,
            transform: self.transform,
        };
        assert(r@.modes =~= head_of(self@, modes@).modes);
        r
    }
}

/// The heads of all outputs, each under its name (see [`heads_of`]).
pub fn heads_from(outputs: &Vec<OutputInfo>, modes: &Vec<Mode>) -> (r: Heads)
    requires
        modes_known(outputs@.map_values(|o: OutputInfo| o@), modes@),
    ensures
        r@ == heads_of(outputs@.map_values(|o: OutputInfo| o@), modes@),
{
    let ghost os = outputs@.map_values(|o: OutputInfo| o@);
    let mut heads = Heads::new();
    let mut i: usize = 0;
    while i < outputs.len()
        invariant
            os == outputs@.map_values(|o: OutputInfo| o@),
            modes_known(os, modes@),
            i <= outputs@.len(),
            heads@ == heads_of(os.take(i as int), modes@),
        decreases outputs@.len() - i,
    {
        let output = &outputs[i];
        proof {
            assert(os[i as int] == output@);
            assert forall|k: int| 0 <= k < output.mode_ids@.len() implies mode_lookup(modes@, #[trigger] output.mode_ids@[k]) is Some by {
                assert(os[i as int].mode_ids[k] == output.mode_ids@[k]);
            }
            assert(os.take(i + 1).drop_last() =~= os.take(i as int));
        }
        let head = output.to_head(modes);
        heads.insert(output.name.clone(), head);
        i = i + 1;
    }
    assert(os.take(outputs@.len() as int) =~= os);
    heads
}

} // verus!
