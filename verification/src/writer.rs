use vstd::prelude::*;
use vstd::string::*;

use crate::error::{ClientError, ClientErrorView};
use crate::heads::Mode;
use crate::point::Point;
use crate::request::{HeadUpdateRequest, UpdateRequest};
use crate::snapshot::{mode_lookup, find_mode, OutputInfo, OutputView};
use crate::transform::Transform;

verus! {

/// What is done to one output in a configuration sent to the compositor.
#[derive(Debug, Clone, Copy, PartialEq, Eq, Structural)]
pub enum HeadAction {
    /// The output is turned off.
    Disable { head_id: u32 },
    /// The output is kept (or turned) on, with the given changes; `None` leaves
    /// a property as it is.
    Enable {
        head_id: u32,
        position: Option<Point>,
        mode_id: Option<u32>,
        scale: Option<i32>,
        transform: Option<Transform>,
    },
}

/// The configuration to send: what is done to each output, and whether it is
/// applied at all (it is not when it changes nothing).
#[derive(Debug)]
pub struct WritePlan {
    pub actions: Vec<HeadAction>,
    pub apply: bool,
}

/// How the compositor answered an applied configuration.
#[derive(Debug, Clone, Copy, PartialEq, Eq, Structural)]
pub enum WriteStatus {
    Succeeded,
    Failed,
    Cancelled,
}

/// The index of the first output from index `i` on whose index is `id`.
pub open spec fn output_from(outputs: Seq<OutputView>, id: u32, i: int) -> Option<int>
    decreases outputs.len() - i,
{
    if i < 0 || i >= outputs.len() {
        None
    } else if outputs[i].id == id {
        Some(i)
    } else {
        output_from(outputs, id, i + 1)
    }
}

/// `value`, if it asks for something other than `current`.
pub open spec fn change<T>(value: Option<T>, current: T) -> Option<T> {
    match value {
        Some(v) => if v != current {
            Some(v)
        } else {
            None
        },
        None => None,
    }
}

/// What is done to output `o` for a request that does not turn it off: only the
/// properties that differ from the output's are set.
pub open spec fn enable_action(o: OutputView, r: HeadUpdateRequest) -> HeadAction {
    HeadAction::Enable {
        head_id: r.head_id,
        position: change(r.position, o.position),
        mode_id: match r.mode_id {
            Some(m) => if o.current_mode != Some(m) {
                Some(m)
            } else {
                None
            },
            None => None,
        },
        scale: change(r.scale, o.scale),
        transform: change(r.rotation, o.transform),
    }
}

/// Whether such a request changes the output: it turns it on, or sets one of
/// its properties.
pub open spec fn enable_changes(o: OutputView, r: HeadUpdateRequest) -> bool {
    let a = enable_action(o, r);
    ||| (r.enabled == Some(true) && !o.enabled)
    ||| a->position is Some
    ||| a->mode_id is Some
    ||| a->scale is Some
    ||| a->transform is Some
}

/// The actions for the requests, with whether the configuration changes
/// anything; fails at the first request for an unknown output.
pub open spec fn write_plan_of(outputs: Seq<OutputView>, requests: Seq<HeadUpdateRequest>) -> Result<
    (Seq<HeadAction>, bool),
    Seq<char>,
>
    decreases requests.len(),
{
    if requests.len() == 0 {
        Ok((Seq::empty(), false))
    } else {
        match write_plan_of(outputs, requests.drop_last()) {
            Err(e) => Err(e),
            Ok((actions, dirty)) => {
                let r = requests.last();
                match output_from(outputs, r.head_id, 0) {
                    None => Err("could not find head"@),
                    Some(i) => {
                        let o = outputs[i];
                        if r.enabled == Some(false) {
                            if o.enabled {
                                Ok((actions.push(HeadAction::Disable { head_id: r.head_id }), true))
                            } else {
                                Ok((actions, dirty))
                            }
                        } else {
                            Ok((actions.push(enable_action(o, r)), dirty || enable_changes(o, r)))
                        }
                    },
                }
            },
        }
    }
}

/// Every mode that a request sets on an output it keeps on is known (the
/// requests are handled in order, up to the first for an unknown output).
pub open spec fn write_modes_known(outputs: Seq<OutputView>, modes: Seq<Mode>, requests: Seq<HeadUpdateRequest>) -> bool {
    forall|k: int|
        #![trigger requests[k]]
        0 <= k < requests.len() && write_plan_of(outputs, requests.take(k)) is Ok && output_from(
            outputs,
            requests[k].head_id,
            0,
        ) is Some && requests[k].enabled != Some(false) && requests[k].mode_id is Some
            ==> mode_lookup(modes, requests[k].mode_id->0) is Some
}

/// The index of the output whose index is `id`.
fn find_output(outputs: &Vec<OutputInfo>, id: u32) -> (r: Option<usize>)
    ensures
        match r {
            Some(i) => i < outputs@.len() && output_from(outputs@.map_values(|o: OutputInfo| o@), id, 0) == Some(
                i as int,
            ),
            None => output_from(outputs@.map_values(|o: OutputInfo| o@), id, 0) is None,
        },
{
    let ghost os = outputs@.map_values(|o: OutputInfo| o@);
    let mut i: usize = 0;
    while i < outputs.len()
        invariant
            os == outputs@.map_values(|o: OutputInfo| o@),
            i <= outputs@.len(),
            output_from(os, id, 0) == output_from(os, id, i as int),
        decreases outputs@.len() - i,
    {
        assert(os[i as int] == outputs@[i as int]@);
        if outputs[i].id == id {
            return Some(i);
        }
        i = i + 1;
    }
    None
}

/// `value`, if it asks for something other than `current`.
fn changed_point(value: Option<Point>, current: Point) -> (r: Option<Point>)
    ensures
        r == change(value, current),
{
    match value {
        Some(v) => if v != current {
            Some(v)
        } else {
            None
        },
        None => None,
    }
}

/// `value`, if it asks for something other than `current`.
fn changed_scale(value: Option<i32>, current: i32) -> (r: Option<i32>)
    ensures
        r == change(value, current),
{
    match value {
        Some(v) => if v != current {
            Some(v)
        } else {
            None
        },
        None => None,
    }
}

/// `value`, if it asks for something other than `current`.
fn changed_transform(value: Option<Transform>, current: Transform) -> (r: Option<Transform>)
    ensures
        r == change(value, current),
{
    match value {
        Some(v) => if v != current {
            Some(v)
        } else {
            None
        },
        None => None,
    }
}

/// The configuration that carries out `request` on `outputs` (see
/// [`write_plan_of`]): an output asked to turn off is turned off if it is on;
/// any other is kept on, with only the properties that differ set. The
/// configuration is applied only when it changes something.
pub fn plan_write(request: &UpdateRequest, outputs: &Vec<OutputInfo>, modes: &Vec<Mode>) -> (r: Result<
    WritePlan,
    ClientError,
>)
    requires
        write_modes_known(outputs@.map_values(|o: OutputInfo| o@), modes@, request.head_requests@),
    ensures
        match (r, write_plan_of(outputs@.map_values(|o: OutputInfo| o@), request.head_requests@)) {
            (Ok(plan), Ok((actions, dirty))) => plan.actions@ == actions && plan.apply == dirty,
            (Err(e), Err(msg)) => e@ == ClientErrorView::General(msg),
            _ => false,
        },
{
    let ghost os = outputs@.map_values(|o: OutputInfo| o@);
    let ghost rs = request.head_requests@;
    let mut actions: Vec<HeadAction> = Vec::new();
    let mut apply = false;
    let mut k: usize = 0;
    while k < request.head_requests.len()
        invariant
            os == outputs@.map_values(|o: OutputInfo| o@),
            rs == request.head_requests@,
            write_modes_known(os, modes@, rs),
            k <= rs.len(),
            write_plan_of(os, rs.take(k as int)) == Ok::<(Seq<HeadAction>, bool), Seq<char>>((actions@, apply)),
        decreases rs.len() - k,
    {
        let r = request.head_requests[k];
        proof {
            assert(rs.take(k + 1).drop_last() =~= rs.take(k as int));
            assert(rs.take(k + 1).last() == r);
        }
        let i = match find_output(outputs, r.head_id) {
            Some(i) => i,
            None => {
                proof {
                    lemma_write_err_sticks(os, rs, k + 1, "could not find head"@);
                }
                return Err(ClientError::from_message("could not find head"));
            },
        };
        let output = &outputs[i];
        assert(os[i as int] == output@);
        if r.enabled == Some(false) {
            if output.enabled {
                actions.push(HeadAction::Disable { head_id: r.head_id });
                apply = true;
            }
        } else {
            let mode_id = match r.mode_id {
                Some(m) => {
                    proof {
                        assert(mode_lookup(modes@, m) is Some);
                    }
                    let mode = find_mode(modes, m).unwrap();
                    if output.current_mode != Some(mode.id) {
                        Some(m)
                    } else {
                        None
                    }
                },
                None => None,
            };
            let action = HeadAction::Enable {
                head_id: r.head_id,
                position: changed_point(r.position, output.position),
                mode_id,
                scale: changed_scale(r.scale, output.scale),
                transform: changed_transform(r.rotation, output.transform),
            };
            let turned_on = r.enabled == Some(true) && !output.enabled;
            let changes = match action {
                HeadAction::Enable { position, mode_id, scale, transform, .. } => turned_on || position.is_some()
                    || mode_id.is_some() || scale.is_some() || transform.is_some(),
                HeadAction::Disable { .. } => turned_on,
            };
            actions.push(action);
            apply = apply || changes;
        }
        k = k + 1;
    }
    assert(rs.take(rs.len() as int) =~= rs);
    Ok(WritePlan { actions, apply })
}

/// Once a request fails, the whole plan fails with the same message.
proof fn lemma_write_err_sticks(outputs: Seq<OutputView>, rs: Seq<HeadUpdateRequest>, k: int, e: Seq<char>)
    requires
        0 <= k <= rs.len(),
        write_plan_of(outputs, rs.take(k)) == Err::<(Seq<HeadAction>, bool), Seq<char>>(e),
    ensures
        write_plan_of(outputs, rs) == Err::<(Seq<HeadAction>, bool), Seq<char>>(e),
    decreases rs.len() - k,
{
    if k == rs.len() {
        assert(rs.take(k) =~= rs);
    } else {
        assert(rs.take(k + 1).drop_last() =~= rs.take(k));
        lemma_write_err_sticks(outputs, rs, k + 1, e);
    }
}

/// What an applied configuration comes to: success only when the compositor
/// said it succeeded (`None`: it did not answer in time).
pub fn write_outcome(status: Option<WriteStatus>) -> (r: Result<(), ClientError>)
    ensures
        match r {
            Ok(()) => status == Some(WriteStatus::Succeeded),
            Err(e) => status != Some(WriteStatus::Succeeded) && e@ == ClientErrorView::General(
                "failed to update configurations"@,
            ),
        },
{
    match status {
        Some(WriteStatus::Succeeded) => Ok(()),
        _ => Err(ClientError::from_message("failed to update configurations")),
    }
}

} // verus!
