//! The decisions of one tick of a moving agent. The caller measures: it
//! computes the candidate positions and tests each against the walkway
//! predicate and the obstacles. The functions here decide which candidate the
//! agent takes and what becomes of its destination. A position is any value
//! the caller likes; nothing here computes with it.

use vstd::prelude::*;

verus! {

/// What becomes of the agent's destination at the end of a tick.
#[derive(Clone, Copy, Debug, PartialEq, Eq, Structural)]
pub enum Retarget {
    /// The destination stays.
    Keep,
    /// The destination becomes the point reflected off the obstacle.
    Bounce,
    /// The destination becomes a freshly sampled random one.
    Random,
}

/// The outcome of the collision response for the obstacle that was hit.
#[derive(Clone, Copy, Debug)]
pub struct Collision<P> {
    /// The position pushed away from the obstacle to the push distance.
    pub pushed: P,
    /// Whether `pushed` passes the walkway predicate.
    pub pushed_valid: bool,
    /// Whether the reflected destination passes the walkway predicate.
    pub bounce_valid: bool,
}

/// What the agent does in this tick.
#[derive(Clone, Copy, Debug)]
pub struct Step<P> {
    /// Where the agent is after the tick.
    pub position: P,
    /// What becomes of its destination.
    pub destination: Retarget,
    /// How many random destinations are sampled on the way; the last one
    /// counts where `destination` is `Random`.
    pub draws: u8,
    /// Whether the tick runs to its end: heading follows the realized
    /// displacement and the stuck timer follows the movement. Where it is
    /// false the tick was cut short: heading stays and the timer is zero.
    pub settled: bool,
}

/// The step taken for the given measurements.
pub open spec fn step_of<P>(
    current: P,
    current_valid: bool,
    snapped: P,
    tentative: P,
    tentative_valid: bool,
    collision: Option<Collision<P>>,
) -> Step<P> {
    if !current_valid {
        Step { position: snapped, destination: Retarget::Random, draws: 1, settled: false }
    } else if !tentative_valid {
        Step { position: current, destination: Retarget::Random, draws: 1, settled: false }
    } else {
        match collision {
            None => Step { position: tentative, destination: Retarget::Keep, draws: 0, settled: true },
            Some(hit) => Step {
                position: if hit.pushed_valid { hit.pushed } else { current },
                destination: if hit.pushed_valid && hit.bounce_valid { Retarget::Bounce } else { Retarget::Random },
                draws: if hit.pushed_valid { if hit.bounce_valid { 0u8 } else { 1u8 } } else if hit.bounce_valid { 1u8 } else { 2u8 },
                settled: true,
            },
        }
    }
}

/// Decides one tick. `current` is where the agent stands and `snapped` the
/// nearest valid position to it; `tentative` is where the step toward the
/// destination would take it; `collision` is present where `tentative` hits
/// an obstacle.
///
/// An agent that stands on an invalid position is snapped and retargeted. One
/// whose step would leave the walkways stays and is retargeted. One that hits
/// an obstacle is pushed away from it and bounces, or stays and is retargeted
/// where the pushed position is invalid. Otherwise it takes the step.
pub fn resolve_step<P: Copy>(
    current: P,
    current_valid: bool,
    snapped: P,
    tentative: P,
    tentative_valid: bool,
    collision: Option<Collision<P>>,
) -> (step: Step<P>)
    ensures
        step == step_of(current, current_valid, snapped, tentative, tentative_valid, collision),
{
    if !current_valid {
        return Step { position: snapped, destination: Retarget::Random, draws: 1, settled: false };
    }
    if !tentative_valid {
        return Step { position: current, destination: Retarget::Random, draws: 1, settled: false };
    }
    match collision {
        None => Step { position: tentative, destination: Retarget::Keep, draws: 0, settled: true },
        Some(hit) => {
            let mut destination: Retarget = Retarget::Bounce;
            let mut draws: u8 = 0;
            if !hit.bounce_valid {
                destination = Retarget::Random;
                draws = draws + 1;
            }
            let mut position: P = hit.pushed;
            if !hit.pushed_valid {
                position = current;
                destination = Retarget::Random;
                draws = draws + 1;
            }
            Step { position, destination, draws, settled: true }
        },
    }
}

/// An agent that stands on a valid position ends the tick on a valid
/// position, whatever was measured, as long as the validity flags are those
/// of the predicate `valid`. An agent that stands on an invalid one ends on
/// the snapped position.
pub proof fn step_keeps_position_valid<P>(
    valid: spec_fn(P) -> bool,
    current: P,
    snapped: P,
    tentative: P,
    collision: Option<Collision<P>>,
)
    requires
        collision matches Some(hit) ==> hit.pushed_valid == valid(hit.pushed),
    ensures
        valid(current) ==> valid(step_of(current, valid(current), snapped, tentative, valid(tentative), collision).position),
        !valid(current) ==> step_of(current, valid(current), snapped, tentative, valid(tentative), collision).position
            == snapped,
{
}

/// When the collision response fires, the agent ends on the pushed position,
/// unless that position is invalid: then it stays where it was before the
/// step.
pub proof fn collision_pushes_or_restores<P>(current: P, snapped: P, tentative: P, hit: Collision<P>)
    ensures
        step_of(current, true, snapped, tentative, true, Some(hit)).position == (if hit.pushed_valid {
            hit.pushed
        } else {
            current
        }),
{
}

/// What becomes of the stuck timer at the end of a tick.
#[derive(Clone, Copy, Debug, PartialEq, Eq, Structural)]
pub enum TimerUpdate {
    /// The timer is zero.
    Reset,
    /// The timer had run out at the start of the tick and was set back; the
    /// agent has not moved since, so it holds the length of this tick.
    Restart,
    /// The length of this tick is added to the timer.
    Accumulate,
}

/// The timer update for a tick. `expired` says that the timer had passed the
/// stuck timeout when the tick began, `settled` that the tick ran to its end,
/// `moved` that the agent's position changed by more than the movement
/// threshold along either axis.
pub open spec fn timer_update_of(expired: bool, settled: bool, moved: bool) -> TimerUpdate {
    if !settled || moved {
        TimerUpdate::Reset
    } else if expired {
        TimerUpdate::Restart
    } else {
        TimerUpdate::Accumulate
    }
}

/// Decides what becomes of the stuck timer. A tick that was cut short, or in
/// which the agent moved, leaves the timer at zero. Otherwise the tick's
/// length is added: to the timer, or to zero where the timer had run out.
pub fn timer_update(expired: bool, settled: bool, moved: bool) -> (update: TimerUpdate)
    ensures
        update == timer_update_of(expired, settled, moved),
{
    if !settled || moved {
        TimerUpdate::Reset
    } else if expired {
        TimerUpdate::Restart
    } else {
        TimerUpdate::Accumulate
    }
}

/// An agent that moved leaves the tick with a timer of zero. One that did
/// not move, in a tick that ran to its end and began with a timer that had
/// not run out, has the tick's length added to its timer.
pub proof fn timer_follows_movement(expired: bool, settled: bool, moved: bool)
    ensures
        moved ==> timer_update_of(expired, settled, moved) == TimerUpdate::Reset,
        !moved && settled && !expired ==> timer_update_of(expired, settled, moved) == TimerUpdate::Accumulate,
{
}

/// Where a move toward a waypoint may end, before obstacles are looked at.
#[derive(Clone, Copy, Debug)]
pub enum Aim<P> {
    /// The agent stood on an invalid position: it is put on this one and the
    /// tick ends, heading unchanged.
    Snap(P),
    /// No valid endpoint was found: the agent stays and the tick ends,
    /// heading unchanged.
    Stay,
    /// The move ends here unless an obstacle lies on the way.
    Go(P),
}

/// The endpoint chosen for the given measurements.
pub open spec fn aim_of<P>(
    current_valid: bool,
    snapped: P,
    target: P,
    target_valid: bool,
    along_first: P,
    along_first_valid: bool,
    along_second: P,
    along_second_valid: bool,
) -> Aim<P> {
    if !current_valid {
        Aim::Snap(snapped)
    } else if target_valid {
        Aim::Go(target)
    } else if along_first_valid {
        Aim::Go(along_first)
    } else if along_second_valid {
        Aim::Go(along_second)
    } else {
        Aim::Stay
    }
}

/// Chooses the endpoint of a move toward a waypoint. `target` is the full
/// step; `along_first` is the step with the second coordinate held at its
/// current value, `along_second` the step with the first coordinate held.
/// An invalid full step is replaced by the first of the two that is valid.
pub fn resolve_aim<P: Copy>(
    current_valid: bool,
    snapped: P,
    target: P,
    target_valid: bool,
    along_first: P,
    along_first_valid: bool,
    along_second: P,
    along_second_valid: bool,
) -> (aim: Aim<P>)
    ensures
        aim == aim_of(
            current_valid,
            snapped,
            target,
            target_valid,
            along_first,
            along_first_valid,
            along_second,
            along_second_valid,
        ),
{
    if !current_valid {
        return Aim::Snap(snapped);
    }
    if !target_valid {
        if along_first_valid {
            return Aim::Go(along_first);
        } else if along_second_valid {
            return Aim::Go(along_second);
        } else {
            return Aim::Stay;
        }
    }
    Aim::Go(target)
}

/// Where the move ends once the way to `endpoint` was tested against the
/// obstacles.
pub open spec fn landing_of<P>(current: P, endpoint: P, pushed: Option<(P, bool)>) -> P {
    match pushed {
        None => endpoint,
        Some(push) => if push.1 { push.0 } else { current },
    }
}

/// Ends a move toward a waypoint. `pushed` is present where an obstacle lies
/// within reach of the way from `current` to `endpoint`: the endpoint pushed
/// away from the obstacle, and whether that position is valid. A valid pushed
/// position is taken; an invalid one cancels the move.
pub fn resolve_landing<P: Copy>(current: P, endpoint: P, pushed: Option<(P, bool)>) -> (position: P)
    ensures
        position == landing_of(current, endpoint, pushed),
{
    match pushed {
        None => endpoint,
        Some(push) => {
            if push.1 {
                push.0
            } else {
                current
            }
        },
    }
}

/// A move toward a waypoint that starts on a valid position ends on a valid
/// one, as long as the validity flags are those of the predicate `valid`.
pub proof fn waypoint_move_stays_valid<P>(
    valid: spec_fn(P) -> bool,
    current: P,
    snapped: P,
    target: P,
    along_first: P,
    along_second: P,
    pushed: Option<(P, bool)>,
)
    requires
        valid(current),
        pushed matches Some(push) ==> push.1 == valid(push.0),
    ensures
        (match aim_of(
            true,
            snapped,
            target,
            valid(target),
            along_first,
            valid(along_first),
            along_second,
            valid(along_second),
        ) {
            Aim::Snap(_) => false,
            Aim::Stay => true,
            Aim::Go(endpoint) => valid(endpoint) && valid(landing_of(current, endpoint, pushed)),
        }),
{
}

} // verus!
