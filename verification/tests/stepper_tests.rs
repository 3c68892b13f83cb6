use store_nav::stepper::{
    resolve_aim, resolve_landing, resolve_step, timer_update, Aim, Collision, Retarget, TimerUpdate,
};

const HERE: (i32, i32) = (0, 0);
const SNAPPED: (i32, i32) = (-5, 0);
const AHEAD: (i32, i32) = (1, 0);
const PUSHED: (i32, i32) = (2, 3);

#[test]
fn free_step_is_taken() {
    let step = resolve_step(HERE, true, SNAPPED, AHEAD, true, None);
    assert_eq!(step.position, AHEAD);
    assert_eq!(step.destination, Retarget::Keep);
    assert_eq!(step.draws, 0);
    assert!(step.settled);
}

#[test]
fn agent_on_an_invalid_position_is_snapped() {
    let hit = Collision { pushed: PUSHED, pushed_valid: true, bounce_valid: true };
    let step = resolve_step(HERE, false, SNAPPED, AHEAD, true, Some(hit));
    assert_eq!(step.position, SNAPPED);
    assert_eq!(step.destination, Retarget::Random);
    assert_eq!(step.draws, 1);
    assert!(!step.settled);
}

#[test]
fn step_off_the_walkways_is_not_taken() {
    let step = resolve_step(HERE, true, SNAPPED, AHEAD, false, None);
    assert_eq!(step.position, HERE);
    assert_eq!(step.destination, Retarget::Random);
    assert_eq!(step.draws, 1);
    assert!(!step.settled);
}

#[test]
fn collision_pushes_the_agent_and_bounces() {
    let hit = Collision { pushed: PUSHED, pushed_valid: true, bounce_valid: true };
    let step = resolve_step(HERE, true, SNAPPED, AHEAD, true, Some(hit));
    assert_eq!(step.position, PUSHED);
    assert_eq!(step.destination, Retarget::Bounce);
    assert_eq!(step.draws, 0);
    assert!(step.settled);
}

#[test]
fn collision_with_an_invalid_bounce_retargets() {
    let hit = Collision { pushed: PUSHED, pushed_valid: true, bounce_valid: false };
    let step = resolve_step(HERE, true, SNAPPED, AHEAD, true, Some(hit));
    assert_eq!(step.position, PUSHED);
    assert_eq!(step.destination, Retarget::Random);
    assert_eq!(step.draws, 1);
}

#[test]
fn collision_with_an_invalid_push_restores_the_position() {
    let hit = Collision { pushed: PUSHED, pushed_valid: false, bounce_valid: true };
    let step = resolve_step(HERE, true, SNAPPED, AHEAD, true, Some(hit));
    assert_eq!(step.position, HERE);
    assert_eq!(step.destination, Retarget::Random);
    assert_eq!(step.draws, 1);
    assert!(step.settled);
    let both = Collision { pushed: PUSHED, pushed_valid: false, bounce_valid: false };
    let step = resolve_step(HERE, true, SNAPPED, AHEAD, true, Some(both));
    assert_eq!(step.position, HERE);
    assert_eq!(step.destination, Retarget::Random);
    assert_eq!(step.draws, 2);
}

#[test]
fn valid_start_never_ends_on_an_invalid_position() {
    let valid = |p: (i32, i32)| p.1 == 0;
    let candidates = [(0, 0), (1, 0), (2, 3), (4, 1)];
    for &tentative in &candidates {
        for &pushed in &candidates {
            for bounce_valid in [false, true] {
                for with_hit in [false, true] {
                    let hit = Collision { pushed, pushed_valid: valid(pushed), bounce_valid };
                    let collision = if with_hit { Some(hit) } else { None };
                    let step = resolve_step(HERE, valid(HERE), SNAPPED, tentative, valid(tentative), collision);
                    assert!(valid(step.position));
                }
            }
        }
    }
}

#[test]
fn aim_prefers_the_full_step() {
    assert!(matches!(resolve_aim(true, SNAPPED, AHEAD, true, (1, 9), true, (9, 1), true), Aim::Go(p) if p == AHEAD));
}

#[test]
fn aim_slides_along_one_axis() {
    assert!(matches!(resolve_aim(true, SNAPPED, AHEAD, false, (1, 9), true, (9, 1), true), Aim::Go(p) if p == (1, 9)));
    assert!(matches!(resolve_aim(true, SNAPPED, AHEAD, false, (1, 9), false, (9, 1), true), Aim::Go(p) if p == (9, 1)));
}

#[test]
fn aim_without_a_valid_endpoint_stays() {
    assert!(matches!(resolve_aim(true, SNAPPED, AHEAD, false, (1, 9), false, (9, 1), false), Aim::Stay));
}

#[test]
fn aim_from_an_invalid_position_snaps() {
    assert!(matches!(resolve_aim(false, SNAPPED, AHEAD, true, (1, 9), true, (9, 1), true), Aim::Snap(p) if p == SNAPPED));
}

#[test]
fn landing_follows_the_collision_test() {
    assert_eq!(resolve_landing(HERE, AHEAD, None), AHEAD);
    assert_eq!(resolve_landing(HERE, AHEAD, Some((PUSHED, true))), PUSHED);
    assert_eq!(resolve_landing(HERE, AHEAD, Some((PUSHED, false))), HERE);
}

#[test]
fn timer_is_zero_after_a_move() {
    for expired in [false, true] {
        for settled in [false, true] {
            assert_eq!(timer_update(expired, settled, true), TimerUpdate::Reset);
        }
    }
}

#[test]
fn timer_accumulates_while_the_agent_rests() {
    assert_eq!(timer_update(false, true, false), TimerUpdate::Accumulate);
}

#[test]
fn timer_restarts_after_it_ran_out() {
    assert_eq!(timer_update(true, true, false), TimerUpdate::Restart);
}

#[test]
fn timer_is_zero_after_a_tick_cut_short() {
    assert_eq!(timer_update(false, false, false), TimerUpdate::Reset);
    assert_eq!(timer_update(true, false, false), TimerUpdate::Reset);
}
