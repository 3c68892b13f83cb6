use store_nav::sampling::{judge_draw, Draw, Verdict, MAX_ATTEMPTS};

#[test]
fn fifty_draws_are_allowed() {
    assert_eq!(MAX_ATTEMPTS, 50);
}

#[test]
fn point_on_a_lane_is_always_taken() {
    for made in [0, 1, 49] {
        assert!(matches!(judge_draw(made, Draw::OnLane((3, 4))), Verdict::Accept((3, 4))));
    }
}

#[test]
fn point_from_anywhere_is_taken_where_it_is_valid() {
    assert!(matches!(judge_draw(0, Draw::Anywhere((3, 4), true)), Verdict::Accept((3, 4))));
    assert!(matches!(judge_draw(49, Draw::Anywhere((3, 4), true)), Verdict::Accept((3, 4))));
}

#[test]
fn invalid_point_is_drawn_again() {
    assert!(matches!(judge_draw(0, Draw::Anywhere((3, 4), false)), Verdict::Retry));
    assert!(matches!(judge_draw(48, Draw::Anywhere((3, 4), false)), Verdict::Retry));
}

#[test]
fn fiftieth_invalid_point_ends_the_sampling() {
    assert!(matches!(judge_draw(49, Draw::Anywhere((3, 4), false)), Verdict::Fallback));
}

#[test]
fn sampling_takes_the_first_admitted_draw() {
    let draws = [
        Draw::Anywhere((1, 1), false),
        Draw::Anywhere((2, 2), false),
        Draw::Anywhere((3, 3), true),
        Draw::OnLane((4, 4)),
    ];
    let mut made = 0;
    let mut taken = None;
    for draw in draws {
        match judge_draw(made, draw) {
            Verdict::Accept(point) => {
                taken = Some(point);
                break;
            }
            Verdict::Retry => made += 1,
            Verdict::Fallback => break,
        }
    }
    assert_eq!(taken, Some((3, 3)));
    assert_eq!(made, 2);
}
