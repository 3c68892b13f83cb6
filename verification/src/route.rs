//! Joining the legs of a detour into one route.

use vstd::prelude::*;

verus! {

/// A leg without its first point; the empty leg stays empty.
pub open spec fn without_first<T>(leg: Seq<T>) -> Seq<T> {
    if leg.len() == 0 { leg } else { leg.subrange(1, leg.len() as int) }
}

/// The three legs in order, the second and third without their first point:
/// each of them starts where the leg before it ended.
pub open spec fn stitched<T>(first: Seq<T>, second: Seq<T>, third: Seq<T>) -> Seq<T> {
    first + without_first(second) + without_first(third)
}

/// Appends `leg` without its first point to `route`.
fn append_rest<T: Copy>(route: &mut Vec<T>, leg: &Vec<T>)
    ensures
        final(route)@ == old(route)@ + without_first(leg@),
{
    let mut i: usize = 1;
    while i < leg.len()
        invariant
            1 <= i,
            i <= leg@.len() || leg@.len() == 0,
            leg@.len() == 0 ==> route@ == old(route)@,
            leg@.len() > 0 ==> route@ == old(route)@ + leg@.subrange(1, i as int),
        decreases leg.len() - i,
    {
        route.push(leg[i]);
        assert(leg@.subrange(1, i + 1) =~= leg@.subrange(1, i as int).push(leg@[i as int]));
        i = i + 1;
    }
    assert(leg@.len() > 0 ==> leg@.subrange(1, i as int) =~= without_first(leg@));
    assert(leg@.len() == 0 ==> old(route)@ + without_first(leg@) =~= old(route)@);
}

/// Joins the three legs of a detour into one route, dropping the point that
/// each later leg shares with the end of the one before.
pub fn stitch_legs<T: Copy>(first: &Vec<T>, second: &Vec<T>, third: &Vec<T>) -> (route: Vec<T>)
    ensures
        route@ == stitched(first@, second@, third@),
{
    let mut route: Vec<T> = Vec::new();
    let mut i: usize = 0;
    while i < first.len()
        invariant
            i <= first@.len(),
            route@ == first@.subrange(0, i as int),
        decreases first.len() - i,
    {
        route.push(first[i]);
        assert(first@.subrange(0, i + 1) =~= first@.subrange(0, i as int).push(first@[i as int]));
        i = i + 1;
    }
    assert(route@ =~= first@);
    append_rest(&mut route, second);
    append_rest(&mut route, third);
    route
}

/// The last point of `leg`, or `otherwise` for a leg without points.
pub open spec fn end_of<T>(leg: Seq<T>, otherwise: T) -> T {
    if leg.len() == 0 { otherwise } else { leg.last() }
}

/// `route` is a detour from `start` to `end` by way of the two anchors, made
/// of legs that `find` gave: the first from `start` to the first anchor, the
/// second from where the first ended to the second anchor, the third from
/// where the second ended to `end`.
pub open spec fn is_detour<T, F: Fn(T, T) -> Vec<T>>(
    find: F,
    start: T,
    first_anchor: T,
    second_anchor: T,
    end: T,
    route: Seq<T>,
) -> bool {
    exists|first: Vec<T>, second: Vec<T>, third: Vec<T>|
        {
            &&& call_ensures(find, (start, first_anchor), first)
            &&& call_ensures(find, (end_of(first@, first_anchor), second_anchor), second)
            &&& call_ensures(find, (end_of(second@, second_anchor), end), third)
            &&& route == #[trigger] stitched(first@, second@, third@)
        }
}

/// The last point of `leg`, or `otherwise` for a leg without points.
fn leg_end<T: Copy>(leg: &Vec<T>, otherwise: T) -> (point: T)
    ensures
        point == end_of(leg@, otherwise),
{
    if leg.len() == 0 {
        otherwise
    } else {
        leg[leg.len() - 1]
    }
}

/// Builds the detour from `start` to `end` by way of two anchors out of
/// three legs, each found by `find`, and stitches them. A leg starts where
/// the leg before it ended, which need not be the anchor it was aimed at.
pub fn detour<T: Copy, F: Fn(T, T) -> Vec<T>>(
    find: &F,
    start: T,
    first_anchor: T,
    second_anchor: T,
    end: T,
) -> (route: Vec<T>)
    requires
        forall|from: T, to: T| call_requires(*find, (from, to)),
    ensures
        is_detour(*find, start, first_anchor, second_anchor, end, route@),
{
    let first: Vec<T> = find(start, first_anchor);
    let second: Vec<T> = find(leg_end(&first, first_anchor), second_anchor);
    let third: Vec<T> = find(leg_end(&second, second_anchor), end);
    let route: Vec<T> = stitch_legs(&first, &second, &third);
    assert(route@ == stitched(first@, second@, third@));
    route
}

/// The points of `route` where there is one, the straight line from `start`
/// to `end` otherwise.
pub open spec fn route_or_line<T>(route: Option<Seq<T>>, start: T, end: T) -> Seq<T> {
    match route {
        Some(points) => points,
        None => seq![start, end],
    }
}

/// The points of a route that may be missing.
pub open spec fn points_of<T>(route: Option<Vec<T>>) -> Option<Seq<T>> {
    match route {
        Some(points) => Some(points@),
        None => None,
    }
}

/// Hands out the route that was found. Where none was found the caller gets
/// the straight line between its two points, whatever lies between them.
pub fn or_straight_line<T>(route: Option<Vec<T>>, start: T, end: T) -> (out: Vec<T>)
    ensures
        out@ == route_or_line(points_of(route), start, end),
{
    match route {
        Some(points) => points,
        None => {
            let mut line: Vec<T> = Vec::new();
            line.push(start);
            line.push(end);
            assert(line@ =~= seq![start, end]);
            line
        },
    }
}

/// `route` with `end` appended where `far` holds.
pub open spec fn finished<T>(route: Seq<T>, end: T, far: bool) -> Seq<T> {
    if far { route.push(end) } else { route }
}

/// Makes a route end at the requested point. `far` says that the route is
/// empty or that its last point is further from `end` than the tolerance
/// allows; the point is then appended.
pub fn finish_route<T>(route: Vec<T>, end: T, far: bool) -> (out: Vec<T>)
    ensures
        out@ == finished(route@, end, far),
{
    let mut out: Vec<T> = route;
    if far {
        out.push(end);
    }
    out
}

/// A finished route ends within the tolerance of the requested point: for
/// any notion `near` of being within tolerance that holds of the point
/// itself, as long as `far` was measured as said.
pub proof fn finished_route_ends_near<T>(near: spec_fn(T) -> bool, route: Seq<T>, end: T, far: bool)
    requires
        near(end),
        far <==> (route.len() == 0 || !near(route.last())),
    ensures
        finished(route, end, far).len() > 0,
        near(finished(route, end, far).last()),
{
}

/// `route` is what the outer-walkway router hands out for the two detours
/// `top` and `bottom`: the top detour where `not_longer` says that it is not
/// longer than the bottom one, the bottom detour otherwise; with `end`
/// appended where the chosen detour has no last point that `near` accepts.
pub open spec fn is_outer_route<T, L: Fn(&Vec<T>, &Vec<T>) -> bool, N: Fn(T) -> bool>(
    not_longer: L,
    near: N,
    top: Vec<T>,
    bottom: Vec<T>,
    end: T,
    route: Seq<T>,
) -> bool {
    exists|top_wins: bool, ends_near: bool| #[trigger] outer_route_by(not_longer, near, top, bottom, end, route, top_wins, ends_near)
}

/// `route` is what the router hands out where the comparison of the two
/// detours gave `top_wins` and the test of the chosen detour's last point
/// gave `ends_near`.
pub open spec fn outer_route_by<T, L: Fn(&Vec<T>, &Vec<T>) -> bool, N: Fn(T) -> bool>(
    not_longer: L,
    near: N,
    top: Vec<T>,
    bottom: Vec<T>,
    end: T,
    route: Seq<T>,
    top_wins: bool,
    ends_near: bool,
) -> bool {
    let chosen = if top_wins { top@ } else { bottom@ };
    &&& call_ensures(not_longer, (&top, &bottom), top_wins)
    &&& chosen.len() > 0 ==> call_ensures(near, (chosen.last(),), ends_near)
    &&& route == finished(chosen, end, chosen.len() == 0 || !ends_near)
}

/// `route` is what the router hands out for some pair of detours from
/// `start` to `end`, one by way of the anchors `top`, one by way of the
/// anchors `bottom`.
pub open spec fn routed_around<T, F: Fn(T, T) -> Vec<T>, L: Fn(&Vec<T>, &Vec<T>) -> bool, N: Fn(T) -> bool>(
    find: F,
    not_longer: L,
    near: N,
    start: T,
    end: T,
    top: (T, T),
    bottom: (T, T),
    route: Seq<T>,
) -> bool {
    exists|top_route: Vec<T>, bottom_route: Vec<T>|
        {
            &&& is_detour(find, start, top.0, top.1, end, top_route@)
            &&& is_detour(find, start, bottom.0, bottom.1, end, bottom_route@)
            &&& #[trigger] is_outer_route(not_longer, near, top_route, bottom_route, end, route)
        }
}

/// Routes from `start` to `end` along the top or the bottom walkway,
/// whichever detour is shorter. `top` and `bottom` are the two anchors of
/// each detour: the point on that walkway beside `start` and the one beside
/// `end`. `find` finds one leg, `not_longer` compares the lengths of two
/// routes, and `near` says whether a point is within the tolerance of `end`.
///
/// The route handed out ends on `end` itself or on a point that `near`
/// accepted.
pub fn compute_path_with_outer_walkway<T: Copy, F: Fn(T, T) -> Vec<T>, L: Fn(&Vec<T>, &Vec<T>) -> bool, N: Fn(T) -> bool>(
    find: &F,
    not_longer: &L,
    near: &N,
    start: T,
    end: T,
    top: (T, T),
    bottom: (T, T),
) -> (route: Vec<T>)
    requires
        forall|from: T, to: T| call_requires(*find, (from, to)),
        forall|a: &Vec<T>, b: &Vec<T>| call_requires(*not_longer, (a, b)),
        forall|point: T| call_requires(*near, (point,)),
    ensures
        routed_around(*find, *not_longer, *near, start, end, top, bottom, route@),
        route@.len() > 0,
        route@.last() == end || call_ensures(*near, (route@.last(),), true),
{
    let top_route: Vec<T> = detour(find, start, top.0, top.1, end);
    let bottom_route: Vec<T> = detour(find, start, bottom.0, bottom.1, end);
    let top_wins: bool = not_longer(&top_route, &bottom_route);
    let ghost chosen = if top_wins { top_route@ } else { bottom_route@ };
    let picked: Vec<T> = if top_wins { top_route } else { bottom_route };
    let mut ends_near: bool = false;
    if picked.len() > 0 {
        ends_near = near(picked[picked.len() - 1]);
    }
    let far: bool = picked.len() == 0 || !ends_near;
    let route: Vec<T> = finish_route(picked, end, far);
    proof {
        assert(route@ == finished(chosen, end, chosen.len() == 0 || !ends_near));
        assert(outer_route_by(*not_longer, *near, top_route, bottom_route, end, route@, top_wins, ends_near));
        assert(is_outer_route(*not_longer, *near, top_route, bottom_route, end, route@));
    }
    route
}

} // verus!
