use vstd::prelude::*;
use vstd::string::*;

use crate::config::{Config, Target, TargetView};
use crate::error::{ClientError, ClientErrorView};
use crate::heads::{
    first_match, lemma_first_match, modes_sortable, sort_modes_desc, sortable, sorted_desc, HeadView, Heads,
    Mode,
};
use crate::request::{HeadUpdateRequest, UpdateRequest};
use crate::transform::{transform_of_angle, Transform};

verus! {

/// Why the target cannot be applied, if it cannot: no output is picked by its
/// name, its mode index is past the output's modes, or its rotation is not a
/// multiple of 90 degrees (checked in this order).
pub open spec fn target_error(heads: Seq<(Seq<char>, HeadView)>, t: TargetView) -> Option<Seq<char>> {
    match first_match(heads, t.name) {
        None => Some("target output does not exist"@),
        Some(i) => if t.mode is Some && t.mode->0 >= heads[i].1.modes.len() {
            Some("Invalid mode identifier"@)
        } else if t.rotation is Some && transform_of_angle(t.rotation->0 as int) is None {
            Some("Invalid angle"@)
        } else {
            None
        },
    }
}

/// `req` is what `t` asks of the output it picks: its scale, its state (on or
/// off), the transform for its rotation, and the mode at its index among the
/// output's modes sorted from the highest to the lowest; nothing else.
pub open spec fn is_property_request(heads: Seq<(Seq<char>, HeadView)>, t: TargetView, req: HeadUpdateRequest) -> bool {
    let head = heads[first_match(heads, t.name)->0].1;
    &&& req.head_id == head.id
    &&& req.position is None
    &&& req.scale == t.scale
    &&& req.enabled == t.active
    &&& req.rotation == match t.rotation {
        Some(a) => transform_of_angle(a as int),
        None => None,
    }
    &&& match t.mode {
        None => req.mode_id is None,
        Some(idx) => exists|r: Seq<Mode>|
            sorted_desc(head.modes, r) && req.mode_id == Some(#[trigger] r[idx as int].id),
    }
}

/// The targets before the `k`-th can all be applied.
pub open spec fn fine_before(heads: Seq<(Seq<char>, HeadView)>, targets: Seq<TargetView>, k: int) -> bool {
    forall|j: int| 0 <= j < k ==> #[trigger] target_error(heads, targets[j]) is None
}

/// Every output whose modes get sorted has modes that can be compared (the
/// targets are handled in order, up to the first that cannot be applied).
pub open spec fn sorts_ok(heads: Seq<(Seq<char>, HeadView)>, targets: Seq<TargetView>) -> bool {
    forall|k: int|
        0 <= k < targets.len() && fine_before(heads, targets, k) && (#[trigger] targets[k]).mode is Some
            && first_match(heads, targets[k].name) is Some ==> sortable(
            heads[first_match(heads, targets[k].name)->0].1.modes,
        )
}

/// What setting the properties of `targets` gives for the configuration
/// `serial`: one request per target, in order, or the error of the first
/// target that cannot be applied.
pub open spec fn property_outcome(
    heads: Seq<(Seq<char>, HeadView)>,
    targets: Seq<TargetView>,
    serial: u32,
    r: Result<UpdateRequest, ClientError>,
) -> bool {
    match r {
        Ok(u) => {
            &&& u.serial == serial
            &&& fine_before(heads, targets, targets.len() as int)
            &&& u.head_requests@.len() == targets.len()
            &&& forall|k: int|
                0 <= k < targets.len() ==> is_property_request(heads, targets[k], #[trigger] u.head_requests@[k])
        },
        Err(e) => exists|k: int|
            0 <= k < targets.len() && fine_before(heads, targets, k) && #[trigger] target_error(heads, targets[k])
                is Some && e@ == ClientErrorView::General(target_error(heads, targets[k])->0),
    }
}

/// Sets the mode, scale, rotation and state of the outputs that `config` names
/// (see [`property_outcome`]).
pub fn plan_set_property(config: &Config, heads: &Heads, serial: u32) -> (r: Result<UpdateRequest, ClientError>)
    requires
        sorts_ok(heads@, config@),
    ensures
        property_outcome(heads@, config@, serial, r),
{
    let targets = config.targets();
    let ghost ts = config@;
    let mut requests: Vec<HeadUpdateRequest> = Vec::new();
    let mut k: usize = 0;
    while k < targets.len()
        invariant
            targets@.map_values(|t: Target| t@) == ts,
            ts == config@,
            sorts_ok(heads@, ts),
            k <= ts.len(),
            requests@.len() == k,
            fine_before(heads@, ts, k as int),
            forall|j: int| 0 <= j < k ==> is_property_request(heads@, ts[j], #[trigger] requests@[j]),
        decreases ts.len() - k,
    {
        let target = &targets[k];
        proof {
            assert(targets@.map_values(|t: Target| t@)[k as int] == target@);
            lemma_first_match(heads@, target@.name);
        }
        let head = match heads.find(target.name.as_str()) {
            Some(h) => h,
            None => {
                return Err(ClientError::from_message("target output does not exist"));
            },
        };
        let mut mode_id: Option<u32> = None;
        match target.mode {
            Some(idx) => {
                let sorted = sort_modes_desc(&head.modes);
                if idx < sorted.len() {
                    mode_id = Some(sorted[idx].id);
                } else {
                    return Err(ClientError::from_message("Invalid mode identifier"));
                }
            },
            None => {},
        }
        let mut rotation: Option<Transform> = None;
        match target.rotation {
            Some(angle) => match Transform::from_angle(angle) {
                Ok(t) => {
                    rotation = Some(t);
                },
                Err(e) => {
                    return Err(ClientError::general(e));
                },
            },
            None => {},
        }
        requests.push(
            HeadUpdateRequest {
                head_id: head.id,
                position: None,
                mode_id,
                scale: target.scale,
                rotation,
                enabled: target.active,
            },
        );
        proof {
            assert(target_error(heads@, ts[k as int]) is None);
            assert(is_property_request(heads@, ts[k as int], requests@[k as int]));
        }
        k = k + 1;
    }
    Ok(UpdateRequest { serial, head_requests: requests })
}

/// Sorting is fine for every target handled before the targets stop: the `k`
/// first, and the `k`-th when it cannot be applied.
proof fn lemma_sorts_ok_upto(heads: Seq<(Seq<char>, HeadView)>, ts: Seq<TargetView>, k: int)
    requires
        0 <= k <= ts.len(),
        fine_before(heads, ts, k),
        k < ts.len() ==> target_error(heads, ts[k]) is Some,
        forall|j: int|
            0 <= j <= k && j < ts.len() && (#[trigger] ts[j]).mode is Some && first_match(heads, ts[j].name) is Some
                ==> sortable(heads[first_match(heads, ts[j].name)->0].1.modes),
    ensures
        sorts_ok(heads, ts),
{
    assert forall|j: int|
        0 <= j < ts.len() && fine_before(heads, ts, j) && (#[trigger] ts[j]).mode is Some
            && first_match(heads, ts[j].name) is Some implies sortable(
            heads[first_match(heads, ts[j].name)->0].1.modes,
        ) by {
        if j > k {
            assert(target_error(heads, ts[k]) is None);
        }
    }
}

/// Sets the properties as `config` says ([`plan_set_property`]), unless the
/// modes of an output that would be sorted cannot be compared, in which case
/// nothing is planned (`None`).
pub fn plan_set_property_checked(config: &Config, heads: &Heads, serial: u32) -> (r: Option<
    Result<UpdateRequest, ClientError>,
>)
    ensures
        r is None <==> !sorts_ok(heads@, config@),
        match r {
            Some(res) => property_outcome(heads@, config@, serial, res),
            None => true,
        },
{
    let targets = config.targets();
    let ghost ts = config@;
    let mut k: usize = 0;
    while k < targets.len()
        invariant
            targets@.map_values(|t: Target| t@) == ts,
            ts == config@,
            k <= ts.len(),
            fine_before(heads@, ts, k as int),
            forall|j: int|
                0 <= j < k && (#[trigger] ts[j]).mode is Some && first_match(heads@, ts[j].name) is Some
                    ==> sortable(heads@[first_match(heads@, ts[j].name)->0].1.modes),
        ensures
            sorts_ok(heads@, ts),
        decreases ts.len() - k,
    {
        let target = &targets[k];
        proof {
            assert(targets@.map_values(|t: Target| t@)[k as int] == target@);
            lemma_first_match(heads@, target@.name);
        }
        let head = match heads.find(target.name.as_str()) {
            Some(h) => h,
            None => {
                proof {
                    lemma_sorts_ok_upto(heads@, ts, k as int);
                }
                break;
            },
        };
        if target.mode.is_some() && !modes_sortable(&head.modes) {
            proof {
                assert(!sorts_ok(heads@, ts)) by {
                    assert(ts[k as int].mode is Some);
                }
            }
            return None;
        }
        let bad_mode = match target.mode {
            Some(idx) => idx >= head.modes.len(),
            None => false,
        };
        let bad_angle = match target.rotation {
            Some(angle) => Transform::from_angle(angle).is_err(),
            None => false,
        };
        if bad_mode || bad_angle {
            proof {
                lemma_sorts_ok_upto(heads@, ts, k as int);
            }
            break;
        }
        k = k + 1;
    }
    proof {
        if k == ts.len() {
            lemma_sorts_ok_upto(heads@, ts, k as int);
        }
    }
    Some(plan_set_property(config, heads, serial))
}

} // verus!
