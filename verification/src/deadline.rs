//! Deadline planning: the latest departure from which the destination can
//! still be reached by a given minute.

use vstd::prelude::*;
use crate::timetable::ISLAND_COUNT;
use crate::journey::{
    Leg, query, open_routes, is_journey, end_time, has_journey_by, has_journey_within,
    answers_earliest, lemma_route_after_start,
};
use crate::planner::{route_limited_via, no_avoided_routes};

verus! {

/// `r` answers a deadline request with a duration limit, the request from
/// start minute `d` being `query(from, to, d, avoid, transfer, max_legs, via,
/// avoid_routes)`. It is `None` exactly when no start minute up to `deadline`
/// admits a journey arriving by `deadline` within `max_duration` minutes of
/// its start; otherwise it holds the latest such start minute together with
/// the earliest-arrival answer of the request from that minute (the arrival
/// and the journey that `answers_earliest` determines).
pub open spec fn answers_latest_within(
    from: usize,
    to: usize,
    avoid: [bool; 6],
    transfer: u32,
    max_legs: usize,
    via: Option<usize>,
    avoid_routes: [[bool; 6]; 6],
    deadline: u32,
    max_duration: u32,
    r: Option<(u32, u32, Vec<Leg>)>,
) -> bool {
    &&& (r is Some <==> exists|d: u32|
        d <= deadline && #[trigger] has_journey_within(
            query(from, to, d, avoid, transfer, max_legs, via, avoid_routes),
            deadline as int,
            max_duration as int,
        ))
    &&& (r matches Some((departure, arrival, legs)) ==> {
        &&& departure <= deadline
        &&& arrival <= deadline
        &&& arrival - departure <= max_duration
        &&& answers_earliest(
            query(from, to, departure, avoid, transfer, max_legs, via, avoid_routes),
            Some((arrival, legs)),
        )
        &&& forall|d: u32|
            departure < d <= deadline ==> !#[trigger] has_journey_within(
                query(from, to, d, avoid, transfer, max_legs, via, avoid_routes),
                deadline as int,
                max_duration as int,
            )
    })
}

/// `r` answers a deadline request, the request from start minute `d` being
/// `query(from, to, d, avoid, transfer, max_legs, via, avoid_routes)`. It is
/// `None` exactly when no start minute up to `deadline` admits a journey
/// arriving by `deadline`; otherwise it holds the latest such start minute
/// together with the earliest-arrival answer of the request from that minute.
pub open spec fn answers_latest(
    from: usize,
    to: usize,
    avoid: [bool; 6],
    transfer: u32,
    max_legs: usize,
    via: Option<usize>,
    avoid_routes: [[bool; 6]; 6],
    deadline: u32,
    r: Option<(u32, u32, Vec<Leg>)>,
) -> bool {
    &&& (r is Some <==> exists|d: u32|
        d <= deadline && #[trigger] has_journey_by(
            query(from, to, d, avoid, transfer, max_legs, via, avoid_routes),
            deadline as int,
        ))
    &&& (r matches Some((departure, arrival, legs)) ==> {
        &&& departure <= deadline
        &&& arrival <= deadline
        &&& answers_earliest(
            query(from, to, departure, avoid, transfer, max_legs, via, avoid_routes),
            Some((arrival, legs)),
        )
        &&& forall|d: u32|
            departure < d <= deadline ==> !#[trigger] has_journey_by(
                query(from, to, d, avoid, transfer, max_legs, via, avoid_routes),
                deadline as int,
            )
    })
}

/// The latest start minute, at or before `deadline`, from which the
/// destination can be reached by `deadline` within `max_duration` minutes
/// under the constraints of `route_limited_via`, with the earliest-arrival
/// answer from there.
pub fn latest_route_within(
    from: usize,
    to: usize,
    deadline: u32,
    avoid: &[bool; 6],
    transfer: u32,
    max_legs: usize,
    via: Option<usize>,
    avoid_routes: &[[bool; 6]; 6],
    max_duration: u32,
) -> (r: Option<(u32, u32, Vec<Leg>)>)
    requires
        from < ISLAND_COUNT,
        to < ISLAND_COUNT,
        max_legs <= 8,
        (via matches Some(x) ==> x < ISLAND_COUNT),
    ensures
        answers_latest_within(
            from,
            to,
            *avoid,
            transfer,
            max_legs,
            via,
            *avoid_routes,
            deadline,
            max_duration,
            r,
        ),
{
    let mut departure: u32 = deadline;
    loop
        invariant
            from < ISLAND_COUNT,
            to < ISLAND_COUNT,
            max_legs <= 8,
            (via matches Some(x) ==> x < ISLAND_COUNT),
            departure <= deadline,
            forall|d: u32|
                departure < d <= deadline ==> !#[trigger] has_journey_within(
                    query(from, to, d, *avoid, transfer, max_legs, via, *avoid_routes),
                    deadline as int,
                    max_duration as int,
                ),
        decreases departure,
    {
        let found = route_limited_via(from, to, departure, avoid, transfer, max_legs, via, avoid_routes);
        let ghost q = query(from, to, departure, *avoid, transfer, max_legs, via, *avoid_routes);
        let ghost answer = found;
        let ghost fits = has_journey_within(q, deadline as int, max_duration as int);
        match found {
            Some((arrival, legs)) => {
                proof {
                    lemma_route_after_start(q, legs@);
                }
                if arrival <= deadline && arrival - departure <= max_duration {
                    assert(is_journey(q, legs@));
                    assert(has_journey_within(q, deadline as int, max_duration as int));
                    assert(answer == Some((arrival, legs)));
                    return Some((departure, arrival, legs));
                }
                assert(!fits) by {
                    if fits {
                        let other = choose|other: Seq<Leg>|
                            #[trigger] is_journey(q, other) && end_time(q, other) <= deadline
                                && end_time(q, other) - q.at <= max_duration;
                        assert(is_journey(q, other));
                    }
                }
            },
            None => {
                assert(!fits) by {
                    if fits {
                        let other = choose|other: Seq<Leg>|
                            #[trigger] is_journey(q, other) && end_time(q, other) <= deadline
                                && end_time(q, other) - q.at <= max_duration;
                        assert(is_journey(q, other));
                    }
                }
            },
        }
        if departure == 0 {
            return None;
        }
        departure = departure - 1;
    }
}

/// The latest start minute, at or before `deadline`, from which the
/// destination can be reached by `deadline` under the constraints of
/// `route_limited_via`, with the earliest-arrival answer from there.
pub fn latest_route_limited_via(
    from: usize,
    to: usize,
    deadline: u32,
    avoid: &[bool; 6],
    transfer: u32,
    max_legs: usize,
    via: Option<usize>,
    avoid_routes: &[[bool; 6]; 6],
) -> (r: Option<(u32, u32, Vec<Leg>)>)
    requires
        from < ISLAND_COUNT,
        to < ISLAND_COUNT,
        max_legs <= 8,
        (via matches Some(x) ==> x < ISLAND_COUNT),
    ensures
        answers_latest(from, to, *avoid, transfer, max_legs, via, *avoid_routes, deadline, r),
{
    let r = latest_route_within(from, to, deadline, avoid, transfer, max_legs, via, avoid_routes, u32::MAX);
    assert forall|d: u32|
        #![trigger has_journey_by(query(from, to, d, *avoid, transfer, max_legs, via, *avoid_routes), deadline as int)]
        #![trigger has_journey_within(query(from, to, d, *avoid, transfer, max_legs, via, *avoid_routes), deadline as int, u32::MAX as int)]
        has_journey_by(query(from, to, d, *avoid, transfer, max_legs, via, *avoid_routes), deadline as int)
            == has_journey_within(
            query(from, to, d, *avoid, transfer, max_legs, via, *avoid_routes),
            deadline as int,
            u32::MAX as int,
        ) by {
        let q = query(from, to, d, *avoid, transfer, max_legs, via, *avoid_routes);
        if has_journey_by(q, deadline as int) {
            let other = choose|other: Seq<Leg>| #[trigger] is_journey(q, other) && end_time(q, other) <= deadline;
            assert(is_journey(q, other));
        }
        if has_journey_within(q, deadline as int, u32::MAX as int) {
            let other = choose|other: Seq<Leg>|
                #[trigger] is_journey(q, other) && end_time(q, other) <= deadline && end_time(q, other) - q.at
                    <= u32::MAX;
            assert(is_journey(q, other));
        }
    }
    r
}

/// `latest_route_limited_via` with no waypoint and no closed hops.
pub fn latest_route_limited(
    from: usize,
    to: usize,
    deadline: u32,
    avoid: &[bool; 6],
    transfer: u32,
    max_legs: usize,
) -> (r: Option<(u32, u32, Vec<Leg>)>)
    requires
        from < ISLAND_COUNT,
        to < ISLAND_COUNT,
        max_legs <= 8,
    ensures
        answers_latest(from, to, *avoid, transfer, max_legs, None, open_routes(), deadline, r),
{
    latest_route_limited_via(from, to, deadline, avoid, transfer, max_legs, None, &no_avoided_routes())
}

/// `latest_route_limited` with the full leg budget of eight.
pub fn latest_route(
    from: usize,
    to: usize,
    deadline: u32,
    avoid: &[bool; 6],
    transfer: u32,
) -> (r: Option<(u32, u32, Vec<Leg>)>)
    requires
        from < ISLAND_COUNT,
        to < ISLAND_COUNT,
    ensures
        answers_latest(from, to, *avoid, transfer, 8, None, open_routes(), deadline, r),
{
    latest_route_limited_via(from, to, deadline, avoid, transfer, 8, None, &no_avoided_routes())
}

} // verus!
