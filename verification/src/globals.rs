use vstd::prelude::*;

use crate::text::str_eq;

verus! {

/// The version at which a global advertised at `advertised` is bound, for a
/// client that supports versions `start..=end`: none when the compositor's
/// version is below the range, else the lower of the two tops.
pub open spec fn bound_version(advertised: u32, start: u32, end: u32) -> Option<u32> {
    if advertised < start {
        None
    } else if advertised < end {
        Some(advertised)
    } else {
        Some(end)
    }
}

/// Chooses the version to bind a global at (see [`bound_version`]).
pub fn bind_version(advertised: u32, start: u32, end: u32) -> (r: Option<u32>)
    ensures
        r == bound_version(advertised, start, end),
{
    if advertised < start {
        None
    } else if advertised < end {
        Some(advertised)
    } else {
        Some(end)
    }
}

/// Whether the interface `name` is among the interfaces already bound: a
/// global is bound at most once.
pub fn already_bound(bound: &Vec<String>, name: &str) -> (r: bool)
    ensures
        r == exists|i: int| 0 <= i < bound@.len() && #[trigger] bound@[i]@ == name@,
{
    let mut i: usize = 0;
    while i < bound.len()
        invariant
            i <= bound@.len(),
            forall|j: int| 0 <= j < i ==> #[trigger] bound@[j]@ != name@,
        decreases bound@.len() - i,
    {
        if str_eq(bound[i].as_str(), name) {
            return true;
        }
        i = i + 1;
    }
    false
}

} // verus!
