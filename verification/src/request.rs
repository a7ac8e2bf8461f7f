use vstd::prelude::*;

use crate::point::Point;
use crate::transform::Transform;

verus! {

/// The changes asked of one output; a field left `None` is left as it is.
#[derive(Debug, Clone, Copy, PartialEq, Eq, Structural)]
pub struct HeadUpdateRequest {
    pub head_id: u32,
    pub position: Option<Point>,
    /// Configuration index of the mode to switch to.
    pub mode_id: Option<u32>,
    /// Scale factor in 1/256 units.
    pub scale: Option<i32>,
    pub rotation: Option<Transform>,
    pub enabled: Option<bool>,
}

impl HeadUpdateRequest {
    /// A request that only moves the output `head_id` to `position`.
    pub fn move_to(head_id: u32, position: Point) -> (r: HeadUpdateRequest)
        ensures
            r == placement_request(head_id, position),
    {
        HeadUpdateRequest {
            head_id,
            position: Some(position),
            mode_id: None,
            scale: None,
            rotation: None,
            enabled: None,
        }
    }
}

/// A request that only moves the output `head_id` to `position`.
pub open spec fn placement_request(head_id: u32, position: Point) -> HeadUpdateRequest {
    HeadUpdateRequest {
        head_id,
        position: Some(position),
        mode_id: None,
        scale: None,
        rotation: None,
        enabled: None,
    }
}

/// A whole configuration change, for the configuration numbered `serial`.
#[derive(Debug)]
pub struct UpdateRequest {
    pub serial: u32,
    pub head_requests: Vec<HeadUpdateRequest>,
}

} // verus!
