//! Earliest-arrival planning: a label-setting search over (island, legs used,
//! waypoint seen) states that settles states in order of arrival minute.

use vstd::prelude::*;
use vstd::arithmetic::div_mod::{lemma_fundamental_div_mod, lemma_mod_pos_bound};
use vstd::set_lib::{set_int_range, lemma_int_range, lemma_len_subset};
use crate::timetable::{
    ISLAND_COUNT, FERRY_COUNT, DAY_END, Ferry, spec_ferry, ferry, depart, next_departure,
    lemma_next_departure, lemma_ferry_well_formed, lemma_ferry_unique,
};
use crate::journey::{
    Leg, Query, query, query_ok, allowed_hop, sails_on, leg_ok, is_route, end_island, end_time,
    visits, is_journey, takes_first_boats, has_journey, ready_after, answers_earliest,
    open_routes, no_closed_hops, has_journey_within, lemma_route_after_start,
    lemma_route_push, lemma_route_pop, lemma_first_boats_push, lemma_journey_lands_allowed,
    sidx, flag, next_flag, route_state, tie_le,
};

verus! {

/// Number of search states: six islands, zero to eight legs, waypoint seen or not.
pub const STATE_COUNT: usize = 108;

/// The state in which every search starts.
pub open spec fn start_state(q: Query) -> int {
    sidx(q.from, 0, next_flag(q, 0, q.from))
}

/// A goal state: on the destination, with the waypoint seen if there is one.
pub open spec fn is_goal(q: Query, i: int, v: int) -> bool {
    i == q.to && (q.via is None || v == 1)
}

/// `legs` are a route ending in state `s` at minute `t`, taking the first boat on every leg.
spec fn path_fits(q: Query, legs: Seq<Leg>, s: int, t: int) -> bool {
    &&& is_route(q, legs)
    &&& route_state(q, legs) == s
    &&& end_time(q, legs) == t
    &&& takes_first_boats(q, legs)
}

/// No route ends in state `s` before minute `t`.
spec fn optimal_at(q: Query, t: int, s: int) -> bool {
    forall|legs: Seq<Leg>|
        is_route(q, legs) && #[trigger] route_state(q, legs) == s ==> t <= end_time(q, legs)
}

/// The arrival minute of a hop on ferry `f` from a state with `l` legs that was reached at `t`.
spec fn hop_arrival(q: Query, t: int, l: int, f: Ferry) -> int {
    next_departure(
        f,
        t + (if l > 0 {
            q.transfer
        } else {
            0
        }),
    ) + f.travel
}

/// The hop from state `(i, l, v)` on timetable entry `fi` has been relaxed.
spec fn edge_relaxed(q: Query, best: Seq<u32>, i: int, l: int, v: int, fi: int) -> bool {
    let f = spec_ferry(fi);
    let arr = hop_arrival(q, best[sidx(i, l, v)] as int, l, f);
    (f.from == i && allowed_hop(q, i, f.to as int) && l < q.max_legs && arr <= DAY_END) ==> best[sidx(
        f.to as int,
        l + 1,
        next_flag(q, v, f.to as int),
    )] <= arr
}

/// Every settled state other than `skip` has had all its hops relaxed.
spec fn relaxed(q: Query, best: Seq<u32>, settled: Seq<bool>, skip: int) -> bool {
    forall|i: int, l: int, v: int, fi: int|
        0 <= i < ISLAND_COUNT && 0 <= l < 9 && 0 <= v < 2 && 0 <= fi < FERRY_COUNT && settled[sidx(
            i,
            l,
            v,
        )] && sidx(i, l, v) != skip ==> #[trigger] edge_relaxed(q, best, i, l, v, fi)
}

/// The invariant of the search.
spec fn search_ok(
    q: Query,
    best: Seq<u32>,
    settled: Seq<bool>,
    paths: Seq<Vec<Leg>>,
    skip: int,
) -> bool {
    &&& query_ok(q)
    &&& best.len() == STATE_COUNT
    &&& settled.len() == STATE_COUNT
    &&& paths.len() == STATE_COUNT
    &&& best[start_state(q)] == q.at
    &&& forall|s: int|
        0 <= s < STATE_COUNT && best[s] != u32::MAX ==> #[trigger] path_fits(
            q,
            paths[s]@,
            s,
            best[s] as int,
        )
    &&& forall|s: int|
        0 <= s < STATE_COUNT && #[trigger] settled[s] ==> best[s] != u32::MAX && optimal_at(
            q,
            best[s] as int,
            s,
        )
    &&& relaxed(q, best, settled, skip)
    &&& forall|l: int, v: int|
        0 <= l < 9 && 0 <= v < 2 && is_goal(q, q.to, v) ==> !#[trigger] settled[sidx(q.to, l, v)]
}

/// Distinct (island, legs, flag) triples have distinct state numbers.
pub proof fn lemma_sidx_injective(i: int, l: int, v: int, i2: int, l2: int, v2: int)
    requires
        0 <= i < ISLAND_COUNT,
        0 <= l < 9,
        0 <= v < 2,
        0 <= i2 < ISLAND_COUNT,
        0 <= l2 < 9,
        0 <= v2 < 2,
        sidx(i, l, v) == sidx(i2, l2, v2),
    ensures
        i == i2,
        l == l2,
        v == v2,
{
}

/// A route ends on the map, within eight legs, in one of the search states.
pub proof fn lemma_route_state_bounds(q: Query, legs: Seq<Leg>)
    requires
        query_ok(q),
        is_route(q, legs),
    ensures
        0 <= end_island(q, legs) < ISLAND_COUNT,
        0 <= flag(q, legs) < 2,
        legs.len() <= 8,
        0 <= route_state(q, legs) < STATE_COUNT,
        end_time(q, legs) < u32::MAX,
{
    let n = legs.len() as int;
    if n > 0 {
        assert(leg_ok(q, legs, n - 1));
        let i = choose|i: int| #[trigger] sails_on(q, legs[n - 1], crate::journey::ready_time(q, legs, n - 1), i);
        lemma_ferry_well_formed(i);
    }
}

proof fn lemma_flag_push(q: Query, legs: Seq<Leg>, leg: Leg)
    requires
        forall|x: int| visits(q, legs.push(leg), x) <==> (visits(q, legs, x) || leg.1 == x),
    ensures
        flag(q, legs.push(leg)) == next_flag(q, flag(q, legs), leg.1 as int),
{
}

proof fn lemma_start_state(q: Query, legs: Seq<Leg>)
    requires
        legs.len() == 0,
    ensures
        route_state(q, legs) == start_state(q),
        end_time(q, legs) == q.at,
{
    if let Some(x) = q.via {
        assert(visits(q, legs, x) <==> q.from == x);
    }
}

/// Every route that ends in an unsettled state arrives no earlier than some
/// unsettled state's label.
proof fn lemma_frontier(
    q: Query,
    best: Seq<u32>,
    settled: Seq<bool>,
    paths: Seq<Vec<Leg>>,
    legs: Seq<Leg>,
) -> (s: int)
    requires
        search_ok(q, best, settled, paths, -1),
        is_route(q, legs),
        !settled[route_state(q, legs)],
    ensures
        0 <= s < STATE_COUNT,
        !settled[s],
        best[s] <= end_time(q, legs),
    decreases legs.len(),
{
    lemma_route_state_bounds(q, legs);
    if legs.len() == 0 {
        lemma_start_state(q, legs);
        start_state(q)
    } else {
        let prev = legs.drop_last();
        let last = legs.last();
        let fi = lemma_route_pop(q, legs);
        lemma_route_state_bounds(q, prev);
        lemma_flag_push(q, prev, last);
        let sp = route_state(q, prev);
        if !settled[sp] {
            lemma_frontier(q, best, settled, paths, prev)
        } else {
            assert(optimal_at(q, best[sp] as int, sp));
            assert(best[sp] <= end_time(q, prev));
            let i = end_island(q, prev);
            let l = prev.len() as int;
            let v = flag(q, prev);
            lemma_ferry_well_formed(fi);
            assert(edge_relaxed(q, best, i, l, v, fi));
            let f = spec_ferry(fi);
            let r = best[sp] + (if l > 0 {
                q.transfer
            } else {
                0
            });
            if l == 0 {
                lemma_start_state(q, prev);
            }
            assert(r <= ready_after(q, prev));
            lemma_next_departure(f, r);
            assert(next_departure(f, r) <= last.2);
            assert(legs.drop_last().push(last) == legs);
            route_state(q, legs)
        }
    }
}

/// `(t1, s1)` comes before `(t2, s2)`: an earlier minute, or the same
/// minute and a smaller state.
spec fn lex_lt(t1: int, s1: int, t2: int, s2: int) -> bool {
    t1 < t2 || (t1 == t2 && s1 < s2)
}

/// The timetable entry that serves the hop of `leg`.
spec fn leg_ferry(leg: Leg) -> int {
    choose|i: int| 0 <= i < FERRY_COUNT && spec_ferry(i).from == leg.0 && spec_ferry(i).to == leg.1
}

/// The last hop of `legs` has been relaxed: it starts from a settled state,
/// and, if that state is `skip`, on a timetable entry below `k`.
spec fn covered(q: Query, settled: Seq<bool>, legs: Seq<Leg>, skip: int, k: int) -> bool {
    let p = route_state(q, legs.drop_last());
    &&& settled[p]
    &&& (p == skip ==> leg_ferry(legs.last()) < k)
}

/// `legs` come first in the tie order among the routes ending in state `s` at minute `t`.
spec fn least_among(q: Query, legs: Seq<Leg>, s: int, t: int) -> bool {
    forall|r: Seq<Leg>|
        is_route(q, r) && #[trigger] route_state(q, r) == s && end_time(q, r) == t ==> tie_le(q, legs, r)
}

/// `legs` come first in the tie order among the routes ending in state `s`
/// at minute `t` whose last hop has been relaxed.
spec fn least_covered(q: Query, settled: Seq<bool>, legs: Seq<Leg>, s: int, t: int, skip: int, k: int) -> bool {
    forall|r: Seq<Leg>|
        is_route(q, r) && r.len() > 0 && #[trigger] route_state(q, r) == s && end_time(q, r) == t
            && covered(q, settled, r, skip, k) ==> tie_le(q, legs, r)
}

/// The route recorded for state `s` extends the route recorded for a
/// settled state, reached at that state's label.
spec fn pred_ok(q: Query, best: Seq<u32>, settled: Seq<bool>, paths: Seq<Vec<Leg>>, s: int) -> bool {
    let pre = paths[s]@.drop_last();
    let p = route_state(q, pre);
    &&& 0 <= p < STATE_COUNT
    &&& settled[p]
    &&& best[p] == end_time(q, pre)
    &&& paths[p]@ == pre
}

/// The part of the search invariant that fixes which of equally early routes is recorded.
spec fn tie_ok(
    q: Query,
    best: Seq<u32>,
    settled: Seq<bool>,
    paths: Seq<Vec<Leg>>,
    skip: int,
    k: int,
) -> bool {
    &&& forall|p: int, s: int|
        #![trigger settled[p], settled[s]]
        0 <= p < STATE_COUNT && 0 <= s < STATE_COUNT && settled[p] && !settled[s] ==> lex_lt(
            best[p] as int,
            p,
            best[s] as int,
            s,
        )
    &&& skip != -1 ==> 0 <= skip < STATE_COUNT && forall|p: int|
        0 <= p < STATE_COUNT && #[trigger] settled[p] && p != skip ==> lex_lt(
            best[p] as int,
            p,
            best[skip] as int,
            skip,
        )
    &&& forall|s: int|
        0 <= s < STATE_COUNT && #[trigger] settled[s] ==> least_among(q, paths[s]@, s, best[s] as int)
    &&& forall|s: int|
        0 <= s < STATE_COUNT && best[s] != u32::MAX && paths[s]@.len() > 0 ==> #[trigger] pred_ok(
            q,
            best,
            settled,
            paths,
            s,
        )
    &&& forall|s: int|
        0 <= s < STATE_COUNT && !settled[s] && best[s] != u32::MAX ==> #[trigger] least_covered(
            q,
            settled,
            paths[s]@,
            s,
            best[s] as int,
            skip,
            k,
        )
}

/// The facts about the last hop of a route that the search relies on.
proof fn lemma_last_hop(q: Query, legs: Seq<Leg>)
    requires
        query_ok(q),
        is_route(q, legs),
        legs.len() > 0,
    ensures
        ({
            let pre = legs.drop_last();
            let fi = leg_ferry(legs.last());
            let f = spec_ferry(fi);
            &&& 0 <= fi < FERRY_COUNT
            &&& sails_on(q, legs.last(), ready_after(q, pre), fi)
            &&& f.from == end_island(q, pre)
            &&& f.to == legs.last().1
            &&& allowed_hop(q, end_island(q, pre), f.to as int)
            &&& pre.len() < q.max_legs
            &&& 0 <= end_island(q, pre) < ISLAND_COUNT
            &&& 0 <= flag(q, pre) < 2
            &&& is_route(q, pre)
            &&& 0 <= route_state(q, pre) < STATE_COUNT
            &&& route_state(q, legs) == sidx(
                f.to as int,
                pre.len() as int + 1,
                next_flag(q, flag(q, pre), f.to as int),
            )
            &&& end_time(q, pre) < end_time(q, legs)
            &&& end_time(q, legs) <= DAY_END
            &&& forall|t: int|
                0 <= t <= end_time(q, pre) ==> #[trigger] hop_arrival(q, t, pre.len() as int, f)
                    <= end_time(q, legs)
        }),
{
    let pre = legs.drop_last();
    let last = legs.last();
    let i = lemma_route_pop(q, legs);
    lemma_ferry_well_formed(i);
    let fi = leg_ferry(last);
    lemma_ferry_unique(i, fi);
    lemma_route_state_bounds(q, pre);
    lemma_route_state_bounds(q, legs);
    lemma_flag_push(q, pre, last);
    let f = spec_ferry(fi);
    if pre.len() == 0 {
        lemma_start_state(q, pre);
    }
    assert forall|t: int|
        0 <= t <= end_time(q, pre) implies #[trigger] hop_arrival(q, t, pre.len() as int, f) <= end_time(q, legs) by {
        let r = t + (if pre.len() > 0 {
            q.transfer
        } else {
            0
        });
        assert(r <= ready_after(q, pre));
        lemma_next_departure(f, r);
    }
}

/// The state picked next is first in the tie order among all routes to it
/// at its label.
proof fn lemma_picked_least(
    q: Query,
    best: Seq<u32>,
    settled: Seq<bool>,
    paths: Seq<Vec<Leg>>,
    u: int,
)
    requires
        search_ok(q, best, settled, paths, -1),
        tie_ok(q, best, settled, paths, -1, 0),
        0 <= u < STATE_COUNT,
        !settled[u],
        best[u] != u32::MAX,
        forall|s: int| 0 <= s < STATE_COUNT && !settled[s] ==> best[u] <= best[s],
    ensures
        least_among(q, paths[u]@, u, best[u] as int),
{
    assert forall|r: Seq<Leg>|
        is_route(q, r) && #[trigger] route_state(q, r) == u && end_time(q, r) == best[u] implies tie_le(
        q,
        paths[u]@,
        r,
    ) by {
        assert(path_fits(q, paths[u]@, u, best[u] as int));
        lemma_route_state_bounds(q, r);
        lemma_route_state_bounds(q, paths[u]@);
        lemma_sidx_injective(
            end_island(q, r),
            r.len() as int,
            flag(q, r),
            end_island(q, paths[u]@),
            paths[u]@.len() as int,
            flag(q, paths[u]@),
        );
        if r.len() > 0 {
            lemma_last_hop(q, r);
            let pre = r.drop_last();
            let p = route_state(q, pre);
            if !settled[p] {
                let s = lemma_frontier(q, best, settled, paths, pre);
                assert(false);
            }
            assert(covered(q, settled, r, -1, 0));
            assert(least_covered(q, settled, paths[u]@, u, best[u] as int, -1, 0));
        }
    }
}

/// A route that ends in an unsettled state at the label of the state picked
/// next has reached that state's label.
proof fn lemma_reached_label(
    q: Query,
    best: Seq<u32>,
    settled: Seq<bool>,
    paths: Seq<Vec<Leg>>,
    u: int,
    r: Seq<Leg>,
)
    requires
        search_ok(q, best, settled, paths, -1),
        0 <= u < STATE_COUNT,
        !settled[u],
        forall|s: int| 0 <= s < STATE_COUNT && !settled[s] ==> best[u] <= best[s],
        is_route(q, r),
        !settled[route_state(q, r)],
        end_time(q, r) == best[u],
    ensures
        best[route_state(q, r)] == best[u],
{
    lemma_route_state_bounds(q, r);
    if r.len() == 0 {
        lemma_start_state(q, r);
    } else {
        lemma_last_hop(q, r);
        let pre = r.drop_last();
        let p = route_state(q, pre);
        if !settled[p] {
            let s = lemma_frontier(q, best, settled, paths, pre);
            assert(false);
        }
        assert(optimal_at(q, best[p] as int, p));
        let fi = leg_ferry(r.last());
        assert(edge_relaxed(q, best, end_island(q, pre), pre.len() as int, flag(q, pre), fi));
        assert(hop_arrival(q, best[p] as int, pre.len() as int, spec_ferry(fi)) <= end_time(q, r));
    }
}

/// A copy of `legs`.
fn copy_legs(legs: &Vec<Leg>) -> (r: Vec<Leg>)
    ensures
        r@ == legs@,
{
    let mut r: Vec<Leg> = Vec::new();
    let mut i: usize = 0;
    while i < legs.len()
        invariant
            i <= legs.len(),
            r@ == legs@.take(i as int),
        decreases legs.len() - i,
    {
        r.push(legs[i]);
        i = i + 1;
        assert(r@ =~= legs@.take(i as int));
    }
    assert(legs@.take(legs.len() as int) =~= legs@);
    r
}

/// The first unsettled state with the smallest finite label, if any.
fn pick_next(best: &Vec<u32>, settled: &Vec<bool>) -> (r: Option<usize>)
    requires
        best.len() == STATE_COUNT,
        settled.len() == STATE_COUNT,
    ensures
        match r {
            Some(u) => {
                &&& u < STATE_COUNT
                &&& !settled@[u as int]
                &&& best@[u as int] != u32::MAX
                &&& forall|s: int| 0 <= s < STATE_COUNT && !settled@[s] ==> best@[u as int] <= best@[s]
                &&& forall|s: int| 0 <= s < u && !settled@[s] ==> best@[u as int] < best@[s]
            },
            None => forall|s: int| 0 <= s < STATE_COUNT ==> settled@[s] || best@[s] == u32::MAX,
        },
{
    let mut found: Option<usize> = None;
    let mut s: usize = 0;
    while s < STATE_COUNT
        invariant
            s <= STATE_COUNT,
            best.len() == STATE_COUNT,
            settled.len() == STATE_COUNT,
            match found {
                Some(u) => {
                    &&& u < s
                    &&& !settled@[u as int]
                    &&& best@[u as int] != u32::MAX
                    &&& forall|j: int| 0 <= j < s && !settled@[j] ==> best@[u as int] <= best@[j]
                    &&& forall|j: int| 0 <= j < u && !settled@[j] ==> best@[u as int] < best@[j]
                },
                None => forall|j: int| 0 <= j < s ==> settled@[j] || best@[j] == u32::MAX,
            },
        decreases STATE_COUNT - s,
    {
        if !settled[s] && best[s] != u32::MAX {
            match found {
                None => {
                    found = Some(s);
                },
                Some(u) => {
                    if best[s] < best[u] {
                        found = Some(s);
                    }
                },
            }
        }
        s = s + 1;
    }
    found
}

/// The hops on timetable entries below `k` out of state `(ui, ul, uv)` have been relaxed.
spec fn relaxed_below(q: Query, best: Seq<u32>, ui: int, ul: int, uv: int, k: int) -> bool {
    forall|fj: int| 0 <= fj < k ==> #[trigger] edge_relaxed(q, best, ui, ul, uv, fj)
}

/// The route that extends the route of state `u` by `leg` fits its state.
proof fn lemma_extended_fits(
    q: Query,
    old_p: Seq<Leg>,
    u: int,
    ui: int,
    ul: int,
    uv: int,
    now: int,
    leg: Leg,
    fi: int,
)
    requires
        query_ok(q),
        path_fits(q, old_p, u, now),
        0 <= ui < ISLAND_COUNT,
        0 <= ul < 9,
        0 <= uv < 2,
        u == sidx(ui, ul, uv),
        ul < q.max_legs,
        leg.0 == ui,
        sails_on(q, leg, now + (if ul > 0 { q.transfer } else { 0 }), fi),
        leg.2 == next_departure(spec_ferry(fi), now + (if ul > 0 { q.transfer } else { 0 })),
    ensures
        path_fits(
            q,
            old_p.push(leg),
            sidx(leg.1 as int, ul + 1, next_flag(q, uv, leg.1 as int)),
            leg.3 as int,
        ),
        old_p.push(leg).len() > 0,
{
    lemma_route_state_bounds(q, old_p);
    lemma_sidx_injective(end_island(q, old_p), old_p.len() as int, flag(q, old_p), ui, ul, uv);
    if ul == 0 {
        assert(ready_after(q, old_p) == q.at);
    }
    assert(ready_after(q, old_p) == now + (if ul > 0 { q.transfer } else { 0 }));
    lemma_route_push(q, old_p, leg, fi);
    lemma_first_boats_push(q, old_p, leg, fi);
    lemma_flag_push(q, old_p, leg);
}

/// Lowering the label of an unsettled state to the time of a fitting route
/// keeps the search invariant.
proof fn lemma_lower_label(
    q: Query,
    best: Seq<u32>,
    paths: Seq<Vec<Leg>>,
    settled: Seq<bool>,
    u: int,
    ui: int,
    ul: int,
    uv: int,
    k: int,
    target: int,
    arrival: u32,
    new_path: Seq<Leg>,
    new_best: Seq<u32>,
    new_paths: Seq<Vec<Leg>>,
)
    requires
        search_ok(q, best, settled, paths, u),
        relaxed_below(q, best, ui, ul, uv, k),
        settled[u],
        0 <= ui < ISLAND_COUNT,
        0 <= ul < 9,
        0 <= uv < 2,
        u == sidx(ui, ul, uv),
        0 <= target < STATE_COUNT,
        path_fits(q, new_path, target, arrival as int),
        new_path.len() > 0,
        arrival < best[target],
        new_best == best.update(target, arrival),
        new_paths.len() == STATE_COUNT,
        new_paths[target]@ == new_path,
        forall|s: int| 0 <= s < STATE_COUNT && s != target ==> new_paths[s] == paths[s],
    ensures
        search_ok(q, new_best, settled, new_paths, u),
        relaxed_below(q, new_best, ui, ul, uv, k),
        new_best[u] == best[u],
        !settled[target],
{
    lemma_route_state_bounds(q, new_path);
    if settled[target] {
        assert(optimal_at(q, best[target] as int, target));
        assert(false);
    }
    assert(target != start_state(q)) by {
        if target == start_state(q) {
            lemma_sidx_injective(
                end_island(q, new_path),
                new_path.len() as int,
                flag(q, new_path),
                q.from,
                0,
                next_flag(q, 0, q.from),
            );
        }
    }
    assert forall|s: int|
        0 <= s < STATE_COUNT && new_best[s] != u32::MAX implies #[trigger] path_fits(
        q,
        new_paths[s]@,
        s,
        new_best[s] as int,
    ) by {
        if s != target {
            assert(path_fits(q, paths[s]@, s, best[s] as int));
        }
    }
    assert forall|s: int|
        0 <= s < STATE_COUNT && #[trigger] settled[s] implies new_best[s] != u32::MAX && optimal_at(
        q,
        new_best[s] as int,
        s,
    ) by {
        assert(s != target);
    }
    assert forall|i: int, l: int, v: int, fj: int|
        0 <= i < ISLAND_COUNT && 0 <= l < 9 && 0 <= v < 2 && 0 <= fj < FERRY_COUNT && settled[sidx(
            i,
            l,
            v,
        )] && sidx(i, l, v) != u implies #[trigger] edge_relaxed(q, new_best, i, l, v, fj) by {
        assert(edge_relaxed(q, best, i, l, v, fj));
    }
    assert forall|fj: int| 0 <= fj < k implies #[trigger] edge_relaxed(q, new_best, ui, ul, uv, fj) by {
        assert(edge_relaxed(q, best, ui, ul, uv, fj));
    }
}

/// Settling the picked state keeps the tie order of the search.
proof fn lemma_tie_settle(
    q: Query,
    best: Seq<u32>,
    settled: Seq<bool>,
    paths: Seq<Vec<Leg>>,
    u: int,
)
    requires
        query_ok(q),
        tie_ok(q, best, settled, paths, -1, 0),
        0 <= u < STATE_COUNT,
        !settled[u],
        best[u] != u32::MAX,
        settled.len() == STATE_COUNT,
        forall|s: int| 0 <= s < STATE_COUNT && !settled[s] ==> best[u] <= best[s],
        forall|s: int| 0 <= s < u && !settled[s] ==> best[u] < best[s],
        least_among(q, paths[u]@, u, best[u] as int),
    ensures
        tie_ok(q, best, settled.update(u, true), paths, u, 0),
{
    let ns = settled.update(u, true);
    assert forall|p: int, s: int|
        #![trigger ns[p], ns[s]]
        0 <= p < STATE_COUNT && 0 <= s < STATE_COUNT && ns[p] && !ns[s] implies lex_lt(
        best[p] as int,
        p,
        best[s] as int,
        s,
    ) by {
        if p != u {
            assert(settled[p] && !settled[s]);
        }
    }
    assert forall|p: int|
        0 <= p < STATE_COUNT && #[trigger] ns[p] && p != u implies lex_lt(
        best[p] as int,
        p,
        best[u] as int,
        u,
    ) by {
        assert(settled[p] && !settled[u]);
    }
    assert forall|s: int|
        0 <= s < STATE_COUNT && #[trigger] ns[s] implies least_among(q, paths[s]@, s, best[s] as int) by {
        if s != u {
            assert(settled[s]);
        }
    }
    assert forall|s: int|
        0 <= s < STATE_COUNT && best[s] != u32::MAX && paths[s]@.len() > 0 implies #[trigger] pred_ok(
        q,
        best,
        ns,
        paths,
        s,
    ) by {
        assert(pred_ok(q, best, settled, paths, s));
    }
    assert forall|s: int|
        0 <= s < STATE_COUNT && !ns[s] && best[s] != u32::MAX implies #[trigger] least_covered(
        q,
        ns,
        paths[s]@,
        s,
        best[s] as int,
        u,
        0,
    ) by {
        assert(least_covered(q, settled, paths[s]@, s, best[s] as int, -1, 0));
        assert forall|r: Seq<Leg>|
            is_route(q, r) && r.len() > 0 && #[trigger] route_state(q, r) == s && end_time(q, r)
                == best[s] && covered(q, ns, r, u, 0) implies tie_le(q, paths[s]@, r) by {
            lemma_last_hop(q, r);
            assert(covered(q, settled, r, -1, 0));
        }
    }
}

/// Once every hop out of the settled state `u` has been relaxed, the tie
/// order holds with no state left aside.
proof fn lemma_tie_finish(
    q: Query,
    best: Seq<u32>,
    settled: Seq<bool>,
    paths: Seq<Vec<Leg>>,
    u: int,
)
    requires
        query_ok(q),
        tie_ok(q, best, settled, paths, u, FERRY_COUNT as int),
    ensures
        tie_ok(q, best, settled, paths, -1, 0),
{
    assert forall|s: int|
        0 <= s < STATE_COUNT && !settled[s] && best[s] != u32::MAX implies #[trigger] least_covered(
        q,
        settled,
        paths[s]@,
        s,
        best[s] as int,
        -1,
        0,
    ) by {
        assert(least_covered(q, settled, paths[s]@, s, best[s] as int, u, FERRY_COUNT as int));
        assert forall|r: Seq<Leg>|
            is_route(q, r) && r.len() > 0 && #[trigger] route_state(q, r) == s && end_time(q, r)
                == best[s] && covered(q, settled, r, -1, 0) implies tie_le(q, paths[s]@, r) by {
            lemma_last_hop(q, r);
            assert(covered(q, settled, r, u, FERRY_COUNT as int));
        }
    }
}

/// One relaxation step, whether or not it lowered a label, keeps the tie
/// order with one more timetable entry relaxed out of `u`.
proof fn lemma_tie_step(
    q: Query,
    best: Seq<u32>,
    settled: Seq<bool>,
    paths: Seq<Vec<Leg>>,
    nbest: Seq<u32>,
    npaths: Seq<Vec<Leg>>,
    u: int,
    ui: int,
    ul: int,
    uv: int,
    k: int,
    changed: bool,
    t: int,
)
    requires
        search_ok(q, best, settled, paths, u),
        tie_ok(q, best, settled, paths, u, k),
        relaxed_below(q, best, ui, ul, uv, k),
        search_ok(q, nbest, settled, npaths, u),
        relaxed_below(q, nbest, ui, ul, uv, k + 1),
        settled[u],
        0 <= ui < ISLAND_COUNT,
        0 <= ul < 9,
        0 <= uv < 2,
        u == sidx(ui, ul, uv),
        0 <= k < FERRY_COUNT,
        !changed ==> nbest == best && npaths == paths,
        changed ==> {
            &&& 0 <= t < STATE_COUNT
            &&& !settled[t]
            &&& nbest == best.update(t, nbest[t])
            &&& npaths[t]@.len() > 0
            &&& npaths[t]@.drop_last() == paths[u]@
            &&& forall|s: int| 0 <= s < STATE_COUNT && s != t ==> npaths[s] == paths[s]
            &&& best[u] < nbest[t]
            &&& nbest[t] < best[t]
            &&& t == sidx(
                spec_ferry(k).to as int,
                ul + 1,
                next_flag(q, uv, spec_ferry(k).to as int),
            )
        },
    ensures
        tie_ok(q, nbest, settled, npaths, u, k + 1),
{
    assert(path_fits(q, paths[u]@, u, best[u] as int));
    lemma_route_state_bounds(q, paths[u]@);
    assert forall|p: int, s: int|
        #![trigger settled[p], settled[s]]
        0 <= p < STATE_COUNT && 0 <= s < STATE_COUNT && settled[p] && !settled[s] implies lex_lt(
        nbest[p] as int,
        p,
        nbest[s] as int,
        s,
    ) by {
        if changed && s == t {
            if p != u {
                assert(settled[p]);
            }
        }
    }
    assert forall|p: int|
        0 <= p < STATE_COUNT && #[trigger] settled[p] && p != u implies lex_lt(
        nbest[p] as int,
        p,
        nbest[u] as int,
        u,
    ) by {}
    assert forall|s: int|
        0 <= s < STATE_COUNT && #[trigger] settled[s] implies least_among(q, npaths[s]@, s, nbest[s] as int) by {}
    assert forall|s: int|
        0 <= s < STATE_COUNT && nbest[s] != u32::MAX && npaths[s]@.len() > 0 implies #[trigger] pred_ok(
        q,
        nbest,
        settled,
        npaths,
        s,
    ) by {
        if !(changed && s == t) {
            assert(pred_ok(q, best, settled, paths, s));
        }
    }
    assert forall|s: int|
        0 <= s < STATE_COUNT && !settled[s] && nbest[s] != u32::MAX implies #[trigger] least_covered(
        q,
        settled,
        npaths[s]@,
        s,
        nbest[s] as int,
        u,
        k + 1,
    ) by {
        assert forall|r: Seq<Leg>|
            is_route(q, r) && r.len() > 0 && #[trigger] route_state(q, r) == s && end_time(q, r)
                == nbest[s] && covered(q, settled, r, u, k + 1) implies tie_le(q, npaths[s]@, r) by {
            lemma_last_hop(q, r);
            let pre = r.drop_last();
            let p = route_state(q, pre);
            let fi = leg_ferry(r.last());
            assert(settled[p]);
            assert(optimal_at(q, best[p] as int, p));
            assert(best[p] <= end_time(q, pre));
            if p == u {
                lemma_sidx_injective(end_island(q, pre), pre.len() as int, flag(q, pre), ui, ul, uv);
            }
            if p != u || fi < k {
                if p != u {
                    assert(edge_relaxed(q, best, end_island(q, pre), pre.len() as int, flag(q, pre), fi));
                } else {
                    assert(relaxed_below(q, best, ui, ul, uv, k));
                    assert(edge_relaxed(q, best, ui, ul, uv, fi));
                }
                assert(hop_arrival(q, best[p] as int, pre.len() as int, spec_ferry(fi)) <= end_time(q, r));
                if changed && s == t {
                    assert(false);
                }
                assert(least_covered(q, settled, paths[s]@, s, best[s] as int, u, k));
            } else {
                assert(fi == k);
                assert(hop_arrival(q, best[u] as int, ul, spec_ferry(k)) <= end_time(q, r));
                assert(edge_relaxed(q, nbest, ui, ul, uv, k));
                assert(s == sidx(spec_ferry(k).to as int, ul + 1, next_flag(q, uv, spec_ferry(k).to as int)));
                let own = npaths[s]@;
                assert(path_fits(q, own, s, nbest[s] as int));
                lemma_route_state_bounds(q, own);
                lemma_sidx_injective(
                    end_island(q, own),
                    own.len() as int,
                    flag(q, own),
                    spec_ferry(k).to as int,
                    ul + 1,
                    next_flag(q, uv, spec_ferry(k).to as int),
                );
                assert(own.len() > 0);
                assert(pred_ok(q, nbest, settled, npaths, s));
                let pp = route_state(q, own.drop_last());
                assert(least_among(q, paths[u]@, u, best[u] as int));
                if pp == u {
                    assert(npaths[u] == paths[u]);
                    if end_time(q, own.drop_last()) == end_time(q, pre) {
                        assert(tie_le(q, paths[u]@, pre));
                    }
                } else {
                    assert(settled[pp]);
                    assert(lex_lt(best[pp] as int, pp, best[u] as int, u));
                }
                assert(tie_le(q, own, r));
            }
        }
    }
}

/// Relaxes the hop out of the settled state `u = (ui, ul, uv)` on timetable entry `fi`.
fn relax_hop(
    from: usize,
    to: usize,
    at: u32,
    avoid: &[bool; 6],
    transfer: u32,
    max_legs: usize,
    via: Option<usize>,
    avoid_route: &[[bool; 6]; 6],
    best: &mut Vec<u32>,
    paths: &mut Vec<Vec<Leg>>,
    settled: &Vec<bool>,
    u: usize,
    ui: usize,
    ul: usize,
    uv: usize,
    fi: usize,
)
    requires
        search_ok(
            query(from, to, at, *avoid, transfer, max_legs, via, *avoid_route),
            old(best)@,
            settled@,
            old(paths)@,
            u as int,
        ),
        relaxed_below(
            query(from, to, at, *avoid, transfer, max_legs, via, *avoid_route),
            old(best)@,
            ui as int,
            ul as int,
            uv as int,
            fi as int,
        ),
        ui < ISLAND_COUNT,
        ul < 9,
        uv < 2,
        u == sidx(ui as int, ul as int, uv as int),
        settled@[u as int],
        fi < FERRY_COUNT,
        tie_ok(
            query(from, to, at, *avoid, transfer, max_legs, via, *avoid_route),
            old(best)@,
            settled@,
            old(paths)@,
            u as int,
            fi as int,
        ),
    ensures
        tie_ok(
            query(from, to, at, *avoid, transfer, max_legs, via, *avoid_route),
            final(best)@,
            settled@,
            final(paths)@,
            u as int,
            fi + 1,
        ),
        search_ok(
            query(from, to, at, *avoid, transfer, max_legs, via, *avoid_route),
            final(best)@,
            settled@,
            final(paths)@,
            u as int,
        ),
        relaxed_below(
            query(from, to, at, *avoid, transfer, max_legs, via, *avoid_route),
            final(best)@,
            ui as int,
            ul as int,
            uv as int,
            fi + 1,
        ),
        final(best)@[u as int] == old(best)@[u as int],
{
    let ghost q = query(from, to, at, *avoid, transfer, max_legs, via, *avoid_route);
    let ghost old_best = best@;
    let ghost old_paths = paths@;
    let now = best[u];
    let f = ferry(fi);
    let ghost mut changed = false;
    let ghost mut tgt: int = 0;
    let ghost r_spec: int = now + (if ul > 0 {
        q.transfer
    } else {
        0
    });
    proof {
        lemma_ferry_well_formed(fi as int);
        lemma_next_departure(f, r_spec);
    }
    if f.from == ui && !avoid[f.to] && !avoid_route[ui][f.to] && ul < max_legs {
        let ready: u64 = if ul > 0 {
            now as u64 + transfer as u64
        } else {
            now as u64
        };
        if ready <= 1440 {
            if let Some(d) = depart(ready as u32, f) {
                let arrival = d + f.travel;
                let next_v: usize = if uv == 1 {
                    1
                } else {
                    match via {
                        Some(x) => if x == f.to {
                            1
                        } else {
                            0
                        },
                        None => 0,
                    }
                };
                if arrival <= DAY_END {
                    let target = f.to * 18 + (ul + 1) * 2 + next_v;
                    if arrival < best[target] {
                        let mut p = copy_legs(&paths[u]);
                        let leg: Leg = (ui, f.to, d, arrival);
                        proof {
                            assert(path_fits(q, old_paths[u as int]@, u as int, now as int));
                            assert(sails_on(q, leg, r_spec, fi as int));
                            lemma_extended_fits(q, p@, u as int, ui as int, ul as int, uv as int, now as int, leg, fi as int);
                        }
                        p.push(leg);
                        best.set(target, arrival);
                        paths.set(target, p);
                        proof {
                            lemma_lower_label(
                                q,
                                old_best,
                                old_paths,
                                settled@,
                                u as int,
                                ui as int,
                                ul as int,
                                uv as int,
                                fi as int,
                                target as int,
                                arrival,
                                p@,
                                best@,
                                paths@,
                            );
                            assert(p@.drop_last() == old_paths[u as int]@);
                            changed = true;
                            tgt = target as int;
                        }
                    }
                }
            }
        }
    }
    assert(edge_relaxed(q, best@, ui as int, ul as int, uv as int, fi as int));
    assert forall|fj: int| 0 <= fj < fi + 1 implies #[trigger] edge_relaxed(
        q,
        best@,
        ui as int,
        ul as int,
        uv as int,
        fj,
    ) by {
        if fj < fi {
            assert(relaxed_below(q, best@, ui as int, ul as int, uv as int, fi as int));
        }
    }
    proof {
        lemma_tie_step(
            q,
            old_best,
            settled@,
            old_paths,
            best@,
            paths@,
            u as int,
            ui as int,
            ul as int,
            uv as int,
            fi as int,
            changed,
            tgt,
        );
    }
}

/// Relaxes every hop out of the freshly settled state `u = (ui, ul, uv)`.
fn relax_from(
    from: usize,
    to: usize,
    at: u32,
    avoid: &[bool; 6],
    transfer: u32,
    max_legs: usize,
    via: Option<usize>,
    avoid_route: &[[bool; 6]; 6],
    best: &mut Vec<u32>,
    paths: &mut Vec<Vec<Leg>>,
    settled: &Vec<bool>,
    u: usize,
    ui: usize,
    ul: usize,
    uv: usize,
)
    requires
        search_ok(
            query(from, to, at, *avoid, transfer, max_legs, via, *avoid_route),
            old(best)@,
            settled@,
            old(paths)@,
            u as int,
        ),
        ui < ISLAND_COUNT,
        ul < 9,
        uv < 2,
        u == sidx(ui as int, ul as int, uv as int),
        settled@[u as int],
        tie_ok(
            query(from, to, at, *avoid, transfer, max_legs, via, *avoid_route),
            old(best)@,
            settled@,
            old(paths)@,
            u as int,
            0,
        ),
    ensures
        search_ok(
            query(from, to, at, *avoid, transfer, max_legs, via, *avoid_route),
            final(best)@,
            settled@,
            final(paths)@,
            -1,
        ),
        tie_ok(
            query(from, to, at, *avoid, transfer, max_legs, via, *avoid_route),
            final(best)@,
            settled@,
            final(paths)@,
            -1,
            0,
        ),
{
    let ghost q = query(from, to, at, *avoid, transfer, max_legs, via, *avoid_route);
    let mut fi: usize = 0;
    while fi < FERRY_COUNT
        invariant
            q == query(from, to, at, *avoid, transfer, max_legs, via, *avoid_route),
            search_ok(q, best@, settled@, paths@, u as int),
            relaxed_below(q, best@, ui as int, ul as int, uv as int, fi as int),
            tie_ok(q, best@, settled@, paths@, u as int, fi as int),
            ui < ISLAND_COUNT,
            ul < 9,
            uv < 2,
            u == sidx(ui as int, ul as int, uv as int),
            settled@[u as int],
            fi <= FERRY_COUNT,
        decreases FERRY_COUNT - fi,
    {
        relax_hop(
            from,
            to,
            at,
            avoid,
            transfer,
            max_legs,
            via,
            avoid_route,
            best,
            paths,
            settled,
            u,
            ui,
            ul,
            uv,
            fi,
        );
        fi = fi + 1;
    }
    assert forall|i: int, l: int, v: int, fj: int|
        0 <= i < ISLAND_COUNT && 0 <= l < 9 && 0 <= v < 2 && 0 <= fj < FERRY_COUNT && settled@[sidx(
            i,
            l,
            v,
        )] && sidx(i, l, v) != -1 implies #[trigger] edge_relaxed(q, best@, i, l, v, fj) by {
        if sidx(i, l, v) == u {
            lemma_sidx_injective(i, l, v, ui as int, ul as int, uv as int);
            assert(relaxed_below(q, best@, ui as int, ul as int, uv as int, FERRY_COUNT as int));
        }
    }
    proof {
        lemma_tie_finish(q, best@, settled@, paths@, u as int);
    }
}

/// A journey ends in a goal state.
proof fn lemma_journey_goal(q: Query, legs: Seq<Leg>)
    requires
        query_ok(q),
        is_journey(q, legs),
    ensures
        route_state(q, legs) == sidx(q.to, legs.len() as int, flag(q, legs)),
        0 <= legs.len() < 9,
        0 <= flag(q, legs) < 2,
        is_goal(q, q.to, flag(q, legs)),
        end_time(q, legs) < u32::MAX,
{
    lemma_route_state_bounds(q, legs);
}

/// The label of the state picked next bounds every route to it and every journey.
proof fn lemma_earliest_at(
    q: Query,
    best: Seq<u32>,
    settled: Seq<bool>,
    paths: Seq<Vec<Leg>>,
    u: int,
)
    requires
        search_ok(q, best, settled, paths, -1),
        0 <= u < STATE_COUNT,
        !settled[u],
        forall|s: int| 0 <= s < STATE_COUNT && !settled[s] ==> best[u] <= best[s],
    ensures
        optimal_at(q, best[u] as int, u),
        forall|legs: Seq<Leg>| #[trigger] is_journey(q, legs) ==> best[u] <= end_time(q, legs),
{
    assert forall|legs: Seq<Leg>|
        is_route(q, legs) && #[trigger] route_state(q, legs) == u implies best[u] <= end_time(q, legs) by {
        let s = lemma_frontier(q, best, settled, paths, legs);
    }
    assert forall|legs: Seq<Leg>| #[trigger] is_journey(q, legs) implies best[u] <= end_time(q, legs) by {
        lemma_journey_goal(q, legs);
        let s = lemma_frontier(q, best, settled, paths, legs);
    }
}

/// With no unsettled state left to pick, no journey exists.
proof fn lemma_nothing_left(q: Query, best: Seq<u32>, settled: Seq<bool>, paths: Seq<Vec<Leg>>)
    requires
        search_ok(q, best, settled, paths, -1),
        forall|s: int| 0 <= s < STATE_COUNT ==> settled[s] || best[s] == u32::MAX,
    ensures
        !has_journey(q),
{
    assert forall|legs: Seq<Leg>| !#[trigger] is_journey(q, legs) by {
        if is_journey(q, legs) {
            lemma_journey_goal(q, legs);
            let s = lemma_frontier(q, best, settled, paths, legs);
        }
    }
}

/// Once every state is settled, no journey exists.
proof fn lemma_all_settled(
    q: Query,
    best: Seq<u32>,
    settled: Seq<bool>,
    paths: Seq<Vec<Leg>>,
    done: Set<int>,
)
    requires
        search_ok(q, best, settled, paths, -1),
        done.finite(),
        done.len() == STATE_COUNT,
        forall|s: int| #[trigger] done.contains(s) <==> (0 <= s < STATE_COUNT && settled[s]),
    ensures
        !has_journey(q),
{
    assert forall|s: int| 0 <= s < STATE_COUNT implies #[trigger] settled[s] by {
        if !settled[s] {
            let all = set_int_range(0, STATE_COUNT as int);
            lemma_int_range(0, STATE_COUNT as int);
            assert(done.subset_of(all.remove(s)));
            lemma_len_subset(done, all.remove(s));
        }
    }
    assert forall|legs: Seq<Leg>| !#[trigger] is_journey(q, legs) by {
        if is_journey(q, legs) {
            lemma_journey_goal(q, legs);
            assert(settled[route_state(q, legs)]);
        }
    }
}

/// A goal state picked next carries the journey that the planner answers
/// with: no journey arriving at its label has fewer legs, and those with as
/// many come no earlier in the tie order.
proof fn lemma_goal_answer(
    q: Query,
    best: Seq<u32>,
    settled: Seq<bool>,
    paths: Seq<Vec<Leg>>,
    u: int,
    ui: int,
    ul: int,
    uv: int,
)
    requires
        search_ok(q, best, settled, paths, -1),
        0 <= ui < ISLAND_COUNT,
        0 <= ul < 9,
        0 <= uv < 2,
        u == sidx(ui, ul, uv),
        is_goal(q, ui, uv),
        !settled[u],
        forall|s: int| 0 <= s < STATE_COUNT && !settled[s] ==> best[u] <= best[s],
        forall|s: int| 0 <= s < u && !settled[s] ==> best[u] < best[s],
        least_among(q, paths[u]@, u, best[u] as int),
        path_fits(q, paths[u]@, u, best[u] as int),
    ensures
        forall|other: Seq<Leg>|
            #[trigger] is_journey(q, other) && end_time(q, other) == best[u] ==> paths[u]@.len() <= other.len(),
        forall|other: Seq<Leg>|
            #[trigger] is_journey(q, other) && end_time(q, other) == best[u] && other.len() == paths[u]@.len()
                ==> tie_le(q, paths[u]@, other),
{
    lemma_route_state_bounds(q, paths[u]@);
    lemma_sidx_injective(
        end_island(q, paths[u]@),
        paths[u]@.len() as int,
        flag(q, paths[u]@),
        ui,
        ul,
        uv,
    );
    assert forall|other: Seq<Leg>|
        #[trigger] is_journey(q, other) && end_time(q, other) == best[u] implies paths[u]@.len() <= other.len()
            && (other.len() == paths[u]@.len() ==> tie_le(q, paths[u]@, other)) by {
        lemma_journey_goal(q, other);
        let g = route_state(q, other);
        lemma_reached_label(q, best, settled, paths, u, other);
        assert(!settled[g]);
        assert(best[g] == best[u]);
        if g < u {
            assert(best[u] < best[g]);
        }
        if other.len() <= ul {
            assert(g >= u);
            assert(g == u);
        }
    }
}

/// Settling the picked state, which is not a goal, keeps the invariant (its
/// own hops still to be relaxed).
proof fn lemma_settle(
    q: Query,
    best: Seq<u32>,
    settled: Seq<bool>,
    paths: Seq<Vec<Leg>>,
    u: int,
    ui: int,
    ul: int,
    uv: int,
)
    requires
        search_ok(q, best, settled, paths, -1),
        0 <= ui < ISLAND_COUNT,
        0 <= ul < 9,
        0 <= uv < 2,
        u == sidx(ui, ul, uv),
        best[u] != u32::MAX,
        optimal_at(q, best[u] as int, u),
        !is_goal(q, ui, uv),
    ensures
        search_ok(q, best, settled.update(u, true), paths, u),
{
    let ns = settled.update(u, true);
    assert forall|s: int|
        0 <= s < STATE_COUNT && #[trigger] ns[s] implies best[s] != u32::MAX && optimal_at(
        q,
        best[s] as int,
        s,
    ) by {
        if s != u {
            assert(settled[s]);
        }
    }
    assert forall|i: int, l: int, v: int, fj: int|
        0 <= i < ISLAND_COUNT && 0 <= l < 9 && 0 <= v < 2 && 0 <= fj < FERRY_COUNT && ns[sidx(
            i,
            l,
            v,
        )] && sidx(i, l, v) != u implies #[trigger] edge_relaxed(q, best, i, l, v, fj) by {
        assert(settled[sidx(i, l, v)]);
    }
    assert forall|l: int, v: int|
        0 <= l < 9 && 0 <= v < 2 && is_goal(q, q.to, v) implies !#[trigger] ns[sidx(q.to, l, v)] by {
        if sidx(q.to, l, v) == u {
            lemma_sidx_injective(q.to, l, v, ui, ul, uv);
        }
    }
}

/// The earliest arrival from island `from` at minute `at` to island `to`,
/// with the legs sailed, under every constraint of the request: islands in
/// `avoid` are never landed on (nor may either end be one of them), directed
/// hops closed in `avoid_route` are not used, each leg after the first leaves
/// at least `transfer` minutes after the previous arrival, at most `max_legs`
/// legs are sailed, and the waypoint `via`, if given, is visited (being the
/// start or the destination counts).
///
/// The answer is `None` exactly when no journey exists; otherwise its arrival
/// is the earliest of all journeys, and its legs are such a journey in which
/// every leg takes the first boat.
pub fn route_limited_via(
    from: usize,
    to: usize,
    at: u32,
    avoid: &[bool; 6],
    transfer: u32,
    max_legs: usize,
    via: Option<usize>,
    avoid_route: &[[bool; 6]; 6],
) -> (r: Option<(u32, Vec<Leg>)>)
    requires
        from < ISLAND_COUNT,
        to < ISLAND_COUNT,
        max_legs <= 8,
        (via matches Some(x) ==> x < ISLAND_COUNT),
    ensures
        answers_earliest(query(from, to, at, *avoid, transfer, max_legs, via, *avoid_route), r),
{
    let ghost q = query(from, to, at, *avoid, transfer, max_legs, via, *avoid_route);
    assert(query_ok(q));
    let via_avoided = match via {
        Some(x) => avoid[x],
        None => false,
    };
    if max_legs == 0 || avoid[from] || avoid[to] || via_avoided {
        assert forall|legs: Seq<Leg>| !#[trigger] is_journey(q, legs) by {
            if is_journey(q, legs) {
                lemma_journey_lands_allowed(q, legs);
            }
        }
        return None;
    }
    let initial_via: usize = match via {
        Some(x) => if x == from {
            1
        } else {
            0
        },
        None => 0,
    };
    let mut best: Vec<u32> = Vec::new();
    let mut settled: Vec<bool> = Vec::new();
    let mut paths: Vec<Vec<Leg>> = Vec::new();
    let mut k: usize = 0;
    while k < STATE_COUNT
        invariant
            k <= STATE_COUNT,
            best.len() == k,
            settled.len() == k,
            paths.len() == k,
            forall|j: int| 0 <= j < k ==> best@[j] == u32::MAX,
            forall|j: int| 0 <= j < k ==> !settled@[j],
            forall|j: int| 0 <= j < k ==> (#[trigger] paths@[j])@.len() == 0,
        decreases STATE_COUNT - k,
    {
        best.push(u32::MAX);
        settled.push(false);
        paths.push(Vec::new());
        k = k + 1;
    }
    let start = from * 18 + initial_via;
    best.set(start, at);
    proof {
        let empty = Seq::<Leg>::empty();
        lemma_start_state(q, empty);
        assert(start == start_state(q));
        assert forall|s: int|
            0 <= s < STATE_COUNT && best@[s] != u32::MAX implies #[trigger] path_fits(
            q,
            paths@[s]@,
            s,
            best@[s] as int,
        ) by {
            assert(s == start);
            assert(paths@[s]@ =~= empty);
        }
        assert(search_ok(q, best@, settled@, paths@, -1));
        assert(tie_ok(q, best@, settled@, paths@, -1, 0));
    }
    let ghost mut done: Set<int> = Set::empty();
    let mut round: usize = 0;
    while round < STATE_COUNT
        invariant
            q == query(from, to, at, *avoid, transfer, max_legs, via, *avoid_route),
            search_ok(q, best@, settled@, paths@, -1),
            tie_ok(q, best@, settled@, paths@, -1, 0),
            round <= STATE_COUNT,
            done.finite(),
            done.len() == round,
            forall|s: int| #[trigger] done.contains(s) <==> (0 <= s < STATE_COUNT && settled@[s]),
        decreases STATE_COUNT - round,
    {
        let u = match pick_next(&best, &settled) {
            Some(u) => u,
            None => {
                proof {
                    lemma_nothing_left(q, best@, settled@, paths@);
                }
                return None;
            },
        };
        let now = best[u];
        let ui = u / 18;
        let ul = (u % 18) / 2;
        let uv = u % 2;
        proof {
            lemma_fundamental_div_mod(u as int, 18);
            lemma_mod_pos_bound(u as int, 18);
            lemma_fundamental_div_mod((u % 18) as int, 2);
            lemma_mod_pos_bound((u % 18) as int, 2);
            assert(u == sidx(ui as int, ul as int, uv as int));
            lemma_earliest_at(q, best@, settled@, paths@, u as int);
            lemma_picked_least(q, best@, settled@, paths@, u as int);
        }
        let at_goal = ui == to && match via {
            None => true,
            Some(_) => uv == 1,
        };
        if at_goal {
            let legs = copy_legs(&paths[u]);
            proof {
                assert(path_fits(q, paths@[u as int]@, u as int, now as int));
                lemma_route_state_bounds(q, legs@);
                lemma_sidx_injective(
                    end_island(q, legs@),
                    legs@.len() as int,
                    flag(q, legs@),
                    ui as int,
                    ul as int,
                    uv as int,
                );
                assert(is_journey(q, legs@));
                lemma_goal_answer(q, best@, settled@, paths@, u as int, ui as int, ul as int, uv as int);
            }
            return Some((now, legs));
        }
        proof {
            lemma_settle(q, best@, settled@, paths@, u as int, ui as int, ul as int, uv as int);
            lemma_tie_settle(q, best@, settled@, paths@, u as int);
        }
        settled.set(u, true);
        proof {
            assert(!done.contains(u as int));
            done = done.insert(u as int);
        }
        relax_from(
            from,
            to,
            at,
            avoid,
            transfer,
            max_legs,
            via,
            avoid_route,
            &mut best,
            &mut paths,
            &settled,
            u,
            ui,
            ul,
            uv,
        );
        round = round + 1;
    }
    proof {
        lemma_all_settled(q, best@, settled@, paths@, done);
    }
    None
}

/// The table of closed directed hops in which nothing is closed.
pub fn no_avoided_routes() -> (r: [[bool; 6]; 6])
    ensures
        r@.map_values(|row: [bool; 6]| row@) == no_closed_hops(),
        r == open_routes(),
{
    let r = [[false; 6]; 6];
    assert(r@.map_values(|row: [bool; 6]| row@) =~~= no_closed_hops());
    proof {
        let c = open_routes();
        assert(c@.map_values(|row: [bool; 6]| row@) == no_closed_hops());
        assert forall|a: int| 0 <= a < ISLAND_COUNT implies r@[a] == c@[a] by {
            assert(r@.map_values(|row: [bool; 6]| row@)[a] == c@.map_values(|row: [bool; 6]| row@)[a]);
            assert(r@[a] =~= c@[a]);
        }
        assert(r =~= c);
    }
    r
}

/// The earliest arrival from `from` at minute `at` to `to` with at most
/// `max_legs` legs, avoiding the islands in `avoid` and keeping `transfer`
/// minutes between legs; no waypoint and no closed hops.
pub fn route_limited(
    from: usize,
    to: usize,
    at: u32,
    avoid: &[bool; 6],
    transfer: u32,
    max_legs: usize,
) -> (r: Option<(u32, Vec<Leg>)>)
    requires
        from < ISLAND_COUNT,
        to < ISLAND_COUNT,
        max_legs <= 8,
    ensures
        answers_earliest(query(from, to, at, *avoid, transfer, max_legs, None, open_routes()), r),
{
    route_limited_via(from, to, at, avoid, transfer, max_legs, None, &no_avoided_routes())
}

/// The earliest arrival from `from` at minute `at` to `to` with the full leg
/// budget of eight, avoiding the islands in `avoid` and keeping `transfer`
/// minutes between legs.
pub fn route(from: usize, to: usize, at: u32, avoid: &[bool; 6], transfer: u32) -> (r: Option<(u32, Vec<Leg>)>)
    requires
        from < ISLAND_COUNT,
        to < ISLAND_COUNT,
    ensures
        answers_earliest(query(from, to, at, *avoid, transfer, 8, None, open_routes()), r),
{
    route_limited_via(from, to, at, avoid, transfer, 8, None, &no_avoided_routes())
}

/// The earliest-arrival answer of `route_limited_via`, kept only when it
/// arrives within `max_duration` minutes of the start minute `at`: `None`
/// exactly when no journey does so.
pub fn route_limited_via_within(
    from: usize,
    to: usize,
    at: u32,
    avoid: &[bool; 6],
    transfer: u32,
    max_legs: usize,
    via: Option<usize>,
    avoid_route: &[[bool; 6]; 6],
    max_duration: u32,
) -> (r: Option<(u32, Vec<Leg>)>)
    requires
        from < ISLAND_COUNT,
        to < ISLAND_COUNT,
        max_legs <= 8,
        (via matches Some(x) ==> x < ISLAND_COUNT),
    ensures
        r is Some <==> has_journey_within(
            query(from, to, at, *avoid, transfer, max_legs, via, *avoid_route),
            u32::MAX as int,
            max_duration as int,
        ),
        r is Some ==> answers_earliest(query(from, to, at, *avoid, transfer, max_legs, via, *avoid_route), r),
{
    let ghost q = query(from, to, at, *avoid, transfer, max_legs, via, *avoid_route);
    let found = route_limited_via(from, to, at, avoid, transfer, max_legs, via, avoid_route);
    let ghost answer = found;
    match found {
        Some((arrival, legs)) => {
            proof {
                lemma_route_after_start(q, legs@);
                lemma_route_state_bounds(q, legs@);
            }
            if arrival - at <= max_duration {
                assert(is_journey(q, legs@));
                assert(answer == Some((arrival, legs)));
                return Some((arrival, legs));
            }
            assert(!has_journey_within(q, u32::MAX as int, max_duration as int)) by {
                if has_journey_within(q, u32::MAX as int, max_duration as int) {
                    let other = choose|other: Seq<Leg>|
                        #[trigger] is_journey(q, other) && end_time(q, other) <= u32::MAX && end_time(q, other)
                            - q.at <= max_duration;
                    assert(is_journey(q, other));
                }
            }
            None
        },
        None => {
            assert(!has_journey_within(q, u32::MAX as int, max_duration as int)) by {
                if has_journey_within(q, u32::MAX as int, max_duration as int) {
                    let other = choose|other: Seq<Leg>|
                        #[trigger] is_journey(q, other) && end_time(q, other) <= u32::MAX && end_time(q, other)
                            - q.at <= max_duration;
                    assert(is_journey(q, other));
                }
            }
            None
        },
    }
}

} // verus!
