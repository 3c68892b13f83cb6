use store_nav::route::{compute_path_with_outer_walkway, detour, finish_route, or_straight_line, stitch_legs};

#[test]
fn stitching_drops_the_shared_points() {
    let route = stitch_legs(&vec![1, 2, 3], &vec![3, 4], &vec![4, 5, 6]);
    assert_eq!(route, vec![1, 2, 3, 4, 5, 6]);
}

#[test]
fn stitching_with_empty_legs() {
    let none: Vec<i32> = Vec::new();
    assert_eq!(stitch_legs(&vec![1, 2], &none, &vec![7, 8]), vec![1, 2, 8]);
    assert_eq!(stitch_legs(&none, &vec![5], &vec![5]), Vec::<i32>::new());
    assert_eq!(stitch_legs(&none, &none, &none), Vec::<i32>::new());
}

#[test]
fn stitching_points_of_a_detour() {
    let first = vec![(0.0f32, 0.0f32), (0.0, 40.0)];
    let second = vec![(0.0f32, 40.0f32), (30.0, 40.0)];
    let third = vec![(30.0f32, 40.0f32), (30.0, 5.0)];
    assert_eq!(
        stitch_legs(&first, &second, &third),
        vec![(0.0, 0.0), (0.0, 40.0), (30.0, 40.0), (30.0, 5.0)]
    );
}

#[test]
fn finishing_appends_the_end_where_the_route_stops_short() {
    assert_eq!(finish_route(vec![1, 2], 9, true), vec![1, 2, 9]);
    assert_eq!(finish_route(vec![1, 2], 9, false), vec![1, 2]);
    assert_eq!(finish_route(Vec::new(), 9, true), vec![9]);
}

#[test]
fn finished_route_ends_within_half_a_unit() {
    let end = (80.0f32, 0.0f32);
    let near = |p: &(f32, f32)| (p.0 - end.0) * (p.0 - end.0) + (p.1 - end.1) * (p.1 - end.1) <= 0.25;
    for route in [vec![(77.5f32, 2.5f32)], vec![(80.2, 0.1)], Vec::new()] {
        let far = route.last().map(|p| !near(p)).unwrap_or(true);
        let out = finish_route(route, end, far);
        assert!(near(out.last().unwrap()));
    }
}

#[test]
fn missing_route_becomes_the_straight_line() {
    assert_eq!(or_straight_line(None, (1, 2), (3, 4)), vec![(1, 2), (3, 4)]);
    assert_eq!(or_straight_line(Some(vec![(1, 2), (1, 3)]), (0, 0), (9, 9)), vec![(1, 2), (1, 3)]);
}

/// The cells from `from` to `to` along the first axis, then along the second.
fn elbow(from: (i32, i32), to: (i32, i32)) -> Vec<(i32, i32)> {
    let mut out = vec![from];
    let mut here = from;
    while here.0 != to.0 {
        here.0 += if to.0 > here.0 { 1 } else { -1 };
        out.push(here);
    }
    while here.1 != to.1 {
        here.1 += if to.1 > here.1 { 1 } else { -1 };
        out.push(here);
    }
    out
}

#[test]
fn detour_chains_three_legs() {
    let route = detour(&elbow, (0, 0), (0, 2), (3, 2), (3, 0));
    assert_eq!(
        route,
        vec![(0, 0), (0, 1), (0, 2), (1, 2), (2, 2), (3, 2), (3, 1), (3, 0)]
    );
}

#[test]
fn detour_goes_on_from_where_a_leg_ended() {
    // A finder that stops one step short of where it was sent.
    let short = |from: (i32, i32), to: (i32, i32)| {
        let mut leg = elbow(from, to);
        if leg.len() > 1 {
            leg.pop();
        }
        leg
    };
    let route = detour(&short, (0, 0), (0, 3), (2, 3), (2, 0));
    // Legs: (0,0)..(0,2), then (0,2)..(2,2), then (2,2)..(2,1).
    assert_eq!(route, vec![(0, 0), (0, 1), (0, 2), (1, 2), (2, 2), (2, 1)]);
}

#[test]
fn outer_route_takes_the_shorter_detour() {
    let not_longer = |a: &Vec<(i32, i32)>, b: &Vec<(i32, i32)>| a.len() <= b.len();
    let end = (4, 1);
    let near = |p: (i32, i32)| p == end;
    let route = compute_path_with_outer_walkway(
        &elbow,
        &not_longer,
        &near,
        (0, 1),
        end,
        ((0, 5), (4, 5)),
        ((0, 0), (4, 0)),
    );
    assert_eq!(route, vec![(0, 1), (0, 0), (1, 0), (2, 0), (3, 0), (4, 0), (4, 1)]);
}

#[test]
fn outer_route_prefers_the_top_on_a_tie() {
    let not_longer = |a: &Vec<(i32, i32)>, b: &Vec<(i32, i32)>| a.len() <= b.len();
    let end = (2, 1);
    let near = |p: (i32, i32)| p == end;
    let route =
        compute_path_with_outer_walkway(&elbow, &not_longer, &near, (0, 1), end, ((0, 2), (2, 2)), ((0, 0), (2, 0)));
    assert_eq!(route, vec![(0, 1), (0, 2), (1, 2), (2, 2), (2, 1)]);
}

#[test]
fn outer_route_ends_on_the_requested_point() {
    // A finder that snaps every point to even coordinates, as cell centres do.
    let snapping = |from: (i32, i32), to: (i32, i32)| elbow((from.0 & !1, from.1 & !1), (to.0 & !1, to.1 & !1));
    let not_longer = |a: &Vec<(i32, i32)>, b: &Vec<(i32, i32)>| a.len() <= b.len();
    let end = (5, 1);
    let near = |p: (i32, i32)| p == end;
    let route =
        compute_path_with_outer_walkway(&snapping, &not_longer, &near, (1, 1), end, ((1, 4), (5, 4)), ((1, 0), (5, 0)));
    assert_eq!(route.last(), Some(&end));
    assert_eq!(route[route.len() - 2], (4, 0));
}
