use vstd::prelude::*;

use crate::config::{Config, Target, TargetView};
use crate::heads::{first_match, HeadView, Heads};

verus! {

/// A target that can be applied to the outputs as they are: the output it
/// names is there, and so is the reference of its position, if it has one.
pub open spec fn target_connected(heads: Seq<(Seq<char>, HeadView)>, t: TargetView) -> bool {
    &&& first_match(heads, t.name) is Some
    &&& match t.position {
        Some(p) => first_match(heads, p.reference) is Some,
        None => true,
    }
}

/// The first `m` targets that can be applied, in order.
pub open spec fn connected_targets(heads: Seq<(Seq<char>, HeadView)>, targets: Seq<TargetView>, m: int) -> Seq<
    TargetView,
>
    decreases m,
{
    if m <= 0 {
        Seq::empty()
    } else {
        let prev = connected_targets(heads, targets, m - 1);
        if target_connected(heads, targets[m - 1]) {
            prev.push(targets[m - 1])
        } else {
            prev
        }
    }
}

/// The part of `config` that can be applied to the outputs as they are (see
/// [`target_connected`]), in order: a target for an output that is not
/// connected, or placed against one that is not, is left out.
pub fn connected_config(config: &Config, heads: &Heads) -> (r: Config)
    ensures
        r@ == connected_targets(heads@, config@, config@.len() as int),
{
    let targets = config.targets();
    let ghost ts = config@;
    let mut out = Config::default();
    let mut k: usize = 0;
    while k < targets.len()
        invariant
            targets@.map_values(|t: Target| t@) == ts,
            ts == config@,
            k <= ts.len(),
            out@ == connected_targets(heads@, ts, k as int),
        decreases ts.len() - k,
    {
        let target = &targets[k];
        assert(targets@.map_values(|t: Target| t@)[k as int] == target@);
        if heads.find(target.name.as_str()).is_some() {
            match &target.position {
                Some(position) => {
                    if heads.find(position.reference.as_str()).is_some() {
                        out.add_target(target.clone_target());
                    }
                },
                None => {
                    out.add_target(target.clone_target());
                },
            }
        }
        k = k + 1;
    }
    out
}

/// What the daemon does on a signal.
#[derive(Debug, Clone, Copy, PartialEq, Eq, Structural)]
pub enum SignalAction {
    /// Read the configuration file again and apply it.
    Reload,
    /// Shut down.
    Stop,
    /// Nothing.
    Ignore,
}

/// The action for signal `signal`: `reload` (the hang-up signal) reloads, any of
/// `terminate` stops, and any other is ignored.
pub fn signal_action(signal: i32, reload: i32, terminate: &Vec<i32>) -> (r: SignalAction)
    ensures
        r == (if signal == reload {
            SignalAction::Reload
        } else if terminate@.contains(signal) {
            SignalAction::Stop
        } else {
            SignalAction::Ignore
        }),
{
    if signal == reload {
        return SignalAction::Reload;
    }
    let mut i: usize = 0;
    while i < terminate.len()
        invariant
            signal != reload,
            i <= terminate@.len(),
            forall|k: int| 0 <= k < i ==> terminate@[k] != signal,
        decreases terminate@.len() - i,
    {
        if terminate[i] == signal {
            assert(terminate@[i as int] == signal);
            return SignalAction::Stop;
        }
        i = i + 1;
    }
    SignalAction::Ignore
}

} // verus!
