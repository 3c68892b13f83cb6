//! Choosing a random destination by rejection: the caller draws candidate
//! points, the functions here say which draw is taken and when to give up.

use vstd::prelude::*;

verus! {

/// Number of draws after which the sampler gives up.
pub const MAX_ATTEMPTS: u32 = 50;

/// One candidate destination.
#[derive(Clone, Copy, Debug)]
pub enum Draw<P> {
    /// A point on the centre line of a lane.
    OnLane(P),
    /// A point anywhere in the store, with the outcome of the walkway
    /// predicate on it.
    Anywhere(P, bool),
}

/// What the sampler does with a draw.
#[derive(Clone, Copy, Debug)]
pub enum Verdict<P> {
    /// The point is the destination.
    Accept(P),
    /// The point is dropped and another one is drawn.
    Retry,
    /// The point is dropped and no other is drawn: the destination is a lane
    /// centre at mid height.
    Fallback,
}

/// The verdict on `draw` after `made` draws were dropped before it.
pub open spec fn verdict_of<P>(made: u32, draw: Draw<P>) -> Verdict<P> {
    match draw {
        Draw::OnLane(point) => Verdict::Accept(point),
        Draw::Anywhere(point, valid) => if valid {
            Verdict::Accept(point)
        } else if made + 1 < MAX_ATTEMPTS {
            Verdict::Retry
        } else {
            Verdict::Fallback
        },
    }
}

/// Judges one draw. A point on a lane is taken as it is. A point from
/// anywhere in the store is taken only where it passes the walkway predicate;
/// the last of the allowed draws, if dropped, ends the sampling.
pub fn judge_draw<P>(made: u32, draw: Draw<P>) -> (verdict: Verdict<P>)
    requires
        made < MAX_ATTEMPTS,
    ensures
        verdict == verdict_of(made, draw),
{
    match draw {
        Draw::OnLane(point) => Verdict::Accept(point),
        Draw::Anywhere(point, valid) => {
            if valid {
                Verdict::Accept(point)
            } else if made + 1 < MAX_ATTEMPTS {
                Verdict::Retry
            } else {
                Verdict::Fallback
            }
        },
    }
}

/// A point drawn from anywhere in the store is accepted only where it passed
/// the walkway predicate, and a point on a lane is always accepted.
pub proof fn accepted_draw_was_admitted<P>(made: u32, draw: Draw<P>)
    ensures
        draw matches Draw::OnLane(point) ==> verdict_of(made, draw) == Verdict::Accept(point),
        draw matches Draw::Anywhere(point, valid) ==> (verdict_of(made, draw) is Accept <==> valid),
        verdict_of(made, draw) matches Verdict::Accept(taken) ==> (match draw {
            Draw::OnLane(point) => taken == point,
            Draw::Anywhere(point, valid) => valid && taken == point,
        }),
{
}

/// The sampler never asks for more draws than it allows: a retry leaves at
/// least one draw.
pub proof fn retry_leaves_a_draw<P>(made: u32, draw: Draw<P>)
    requires
        made < MAX_ATTEMPTS,
    ensures
        verdict_of(made, draw) is Retry ==> made + 1 < MAX_ATTEMPTS,
{
}

} // verus!
