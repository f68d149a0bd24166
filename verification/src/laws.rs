//! Laws of the planner that relate requests and answers to one another.

use vstd::prelude::*;
use crate::timetable::{ISLAND_COUNT, lemma_ferry_well_formed, lemma_ferry_unique};
use crate::journey::{
    Leg, Query, query_ok, allowed_hop, sails_on, ready_time, leg_ok, is_route, end_island,
    end_time, visits, is_journey, has_journey, has_journey_by, answers_earliest,
    lemma_journey_lands_allowed, lemma_route_after_start, lemma_route_pop, route_state, flag, tie_le,
};
use crate::planner::{lemma_sidx_injective, lemma_route_state_bounds};

verus! {

/// `q1` admits everything `q2` admits: same endpoints and waypoint, a start
/// no later, a transfer buffer no longer, a leg budget no smaller, and no
/// island avoided or hop closed that `q2` allows.
pub open spec fn looser(q1: Query, q2: Query) -> bool {
    &&& q1.from == q2.from
    &&& q1.to == q2.to
    &&& q1.via == q2.via
    &&& 0 <= q1.at <= q2.at
    &&& 0 <= q1.transfer <= q2.transfer
    &&& q2.max_legs <= q1.max_legs
    &&& forall|i: int| 0 <= i < ISLAND_COUNT ==> #[trigger] q1.avoid[i] ==> q2.avoid[i]
    &&& forall|a: int, b: int|
        0 <= a < ISLAND_COUNT && 0 <= b < ISLAND_COUNT ==> #[trigger] q1.closed[a][b] ==> q2.closed[a][b]
}

/// Loosening a request keeps every journey: starting earlier, shortening the
/// transfer buffer, raising the leg budget, or avoiding fewer islands or hops
/// never makes a journey unavailable, and the journey arrives no later.
pub proof fn law_looser_request_keeps_journeys(q1: Query, q2: Query, legs: Seq<Leg>)
    requires
        query_ok(q2),
        looser(q1, q2),
        is_journey(q2, legs),
    ensures
        is_journey(q1, legs),
        end_time(q1, legs) <= end_time(q2, legs),
{
    assert forall|k: int| 0 <= k < legs.len() implies #[trigger] leg_ok(q1, legs, k) by {
        assert(leg_ok(q2, legs, k));
        let i = choose|i: int| #[trigger] sails_on(q2, legs[k], ready_time(q2, legs, k), i);
        lemma_ferry_well_formed(i);
        assert(allowed_hop(q1, legs[k].0 as int, legs[k].1 as int));
        assert(ready_time(q1, legs, k) <= ready_time(q2, legs, k));
        assert(sails_on(q1, legs[k], ready_time(q1, legs, k), i));
    }
    if let Some(x) = q1.via {
        assert(visits(q2, legs, x));
        assert(visits(q1, legs, x));
    }
}

/// A looser request arrives no later: whenever the stricter request has an
/// earliest journey, so does the looser one, and its earliest arrival is no
/// later.
pub proof fn law_looser_request_arrives_no_later(
    q1: Query,
    q2: Query,
    r1: Option<(u32, Vec<Leg>)>,
    r2: Option<(u32, Vec<Leg>)>,
)
    requires
        query_ok(q2),
        looser(q1, q2),
        answers_earliest(q1, r1),
        answers_earliest(q2, r2),
        r2 is Some,
    ensures
        r1 matches Some((a1, _)) && r2 matches Some((a2, _)) && a1 <= a2,
{
    let legs2 = match r2 {
        Some((_, l)) => l@,
        None => Seq::empty(),
    };
    law_looser_request_keeps_journeys(q1, q2, legs2);
    assert(is_journey(q1, legs2));
}

/// Arriving by a deadline stays possible from every earlier start minute, so
/// the start minutes from which a deadline can be met form an initial
/// stretch of the day, and a deadline search that walks back from the
/// deadline stops at its end.
pub proof fn law_deadline_feasible_from_earlier_start(q: Query, d: int, deadline: int)
    requires
        query_ok(q),
        0 <= d <= q.at,
        has_journey_by(q, deadline),
    ensures
        has_journey_by(Query { at: d, ..q }, deadline),
{
    let q1 = Query { at: d, ..q };
    let legs = choose|legs: Seq<Leg>| #[trigger] is_journey(q, legs) && end_time(q, legs) <= deadline;
    law_looser_request_keeps_journeys(q1, q, legs);
    assert(is_journey(q1, legs));
}

/// The leg budget only cuts journeys by their number of legs: under a
/// budget of `k` the journeys are exactly the journeys under any larger
/// budget that use at most `k` legs, so a faster journey with more legs
/// cannot hide one that fits the budget.
pub proof fn law_leg_budget(q: Query, k: int, legs: Seq<Leg>)
    requires
        1 <= k <= q.max_legs,
    ensures
        is_journey(Query { max_legs: k, ..q }, legs) <==> (is_journey(q, legs) && legs.len() <= k),
{
    let qk = Query { max_legs: k, ..q };
    if is_journey(q, legs) && legs.len() <= k {
        assert forall|j: int| 0 <= j < legs.len() implies #[trigger] leg_ok(qk, legs, j) by {
            assert(leg_ok(q, legs, j));
            let i = choose|i: int| #[trigger] sails_on(q, legs[j], ready_time(q, legs, j), i);
            assert(sails_on(qk, legs[j], ready_time(qk, legs, j), i));
        }
        if let Some(x) = q.via {
            assert(visits(qk, legs, x) == visits(q, legs, x));
        }
    }
    if is_journey(qk, legs) {
        assert forall|j: int| 0 <= j < legs.len() implies #[trigger] leg_ok(q, legs, j) by {
            assert(leg_ok(qk, legs, j));
            let i = choose|i: int| #[trigger] sails_on(qk, legs[j], ready_time(qk, legs, j), i);
            assert(sails_on(q, legs[j], ready_time(q, legs, j), i));
        }
        if let Some(x) = q.via {
            assert(visits(qk, legs, x) == visits(q, legs, x));
        }
    }
}

/// A waypoint at the start or at the destination constrains nothing: the
/// journeys are those of the same request without a waypoint.
pub proof fn law_via_at_endpoint(q: Query, legs: Seq<Leg>)
    requires
        q.via == Some(q.from) || q.via == Some(q.to),
    ensures
        is_journey(q, legs) <==> is_journey(Query { via: None, ..q }, legs),
{
    let q0 = Query { via: None, ..q };
    if is_route(q, legs) {
        assert forall|j: int| 0 <= j < legs.len() implies #[trigger] leg_ok(q0, legs, j) by {
            assert(leg_ok(q, legs, j));
            let i = choose|i: int| #[trigger] sails_on(q, legs[j], ready_time(q, legs, j), i);
            assert(sails_on(q0, legs[j], ready_time(q0, legs, j), i));
        }
    }
    if is_route(q0, legs) {
        assert forall|j: int| 0 <= j < legs.len() implies #[trigger] leg_ok(q, legs, j) by {
            assert(leg_ok(q0, legs, j));
            let i = choose|i: int| #[trigger] sails_on(q0, legs[j], ready_time(q0, legs, j), i);
            assert(sails_on(q, legs[j], ready_time(q, legs, j), i));
        }
    }
    assert(is_route(q, legs) == is_route(q0, legs));
    if is_route(q, legs) && end_island(q, legs) == q.to && q.via == Some(q.to) && q.from != q.to {
        let n = legs.len() as int;
        assert(legs[n - 1].1 == q.to);
        assert(visits(q, legs, q.to));
    }
}

/// Avoiding either endpoint makes every request unavailable.
pub proof fn law_avoided_endpoint(q: Query)
    requires
        q.avoid[q.from] || q.avoid[q.to],
    ensures
        !has_journey(q),
{
    assert forall|legs: Seq<Leg>| !#[trigger] is_journey(q, legs) by {
        if is_journey(q, legs) {
            lemma_journey_lands_allowed(q, legs);
        }
    }
}

/// A traveller already on the destination, with the waypoint there or
/// absent, is answered at once: the earliest arrival is the start minute
/// and the journey has no legs.
pub proof fn law_already_there(q: Query, r: Option<(u32, Vec<Leg>)>)
    requires
        query_ok(q),
        q.from == q.to,
        q.via is None || q.via == Some(q.from),
        !q.avoid[q.from],
        1 <= q.max_legs,
        q.at < u32::MAX,
        answers_earliest(q, r),
    ensures
        r matches Some((arrival, legs)) && arrival == q.at && legs@.len() == 0,
{
    let empty = Seq::<Leg>::empty();
    assert(is_journey(q, empty));
    let legs = match r {
        Some((_, l)) => l@,
        None => Seq::empty(),
    };
    assert(is_journey(q, legs));
    assert(end_time(q, legs) <= q.at);
    lemma_route_after_start(q, legs);
}

/// Two routes that end in the same state at the same minute and each come
/// no later than the other in the tie order are the same route.
pub proof fn lemma_tie_antisymmetric(q: Query, a: Seq<Leg>, b: Seq<Leg>)
    requires
        query_ok(q),
        is_route(q, a),
        is_route(q, b),
        route_state(q, a) == route_state(q, b),
        end_time(q, a) == end_time(q, b),
        tie_le(q, a, b),
        tie_le(q, b, a),
    ensures
        a == b,
    decreases a.len(),
{
    lemma_route_state_bounds(q, a);
    lemma_route_state_bounds(q, b);
    lemma_sidx_injective(
        end_island(q, a),
        a.len() as int,
        flag(q, a),
        end_island(q, b),
        b.len() as int,
        flag(q, b),
    );
    if a.len() == 0 {
        assert(a =~= b);
    } else {
        let pa = a.drop_last();
        let pb = b.drop_last();
        let ia = lemma_route_pop(q, a);
        let ib = lemma_route_pop(q, b);
        lemma_tie_antisymmetric(q, pa, pb);
        lemma_ferry_unique(ia, ib);
        assert(a.last() == b.last());
        assert(a =~= b) by {
            assert(pa.push(a.last()) == a);
            assert(pb.push(b.last()) == b);
        }
    }
}

/// The earliest-arrival answer is unique: two answers to the same request
/// hold the same arrival and the same legs. In particular the deadline
/// search's legs are exactly those the earliest-arrival planner returns from
/// the chosen start minute.
pub proof fn law_earliest_answer_unique(
    q: Query,
    r1: Option<(u32, Vec<Leg>)>,
    r2: Option<(u32, Vec<Leg>)>,
)
    requires
        query_ok(q),
        answers_earliest(q, r1),
        answers_earliest(q, r2),
    ensures
        r1 is Some <==> r2 is Some,
        r1 matches Some((a1, l1)) ==> (r2 matches Some((a2, l2)) && a1 == a2 && l1@ == l2@),
{
    if let Some((a1, l1)) = r1 {
        if let Some((a2, l2)) = r2 {
            assert(is_journey(q, l1@));
            assert(is_journey(q, l2@));
            assert(a1 == a2);
            assert(l1@.len() == l2@.len());
            assert(tie_le(q, l1@, l2@));
            assert(tie_le(q, l2@, l1@));
            lemma_route_state_bounds(q, l1@);
            lemma_route_state_bounds(q, l2@);
            lemma_tie_antisymmetric(q, l1@, l2@);
        }
    }
}

/// The published timetable: a ferry leaves island `a` for island `b` at
/// minute `d` and lands at minute `e` exactly for these services (origin,
/// destination, first departure, interval, crossing time): Aster-Bramble
/// 0/30/20, Bramble-Aster 10/30/20, Bramble-Cove 5/40/25, Cove-Drift
/// 0/60/30, Drift-Ember 15/45/20, Ember-Fenn 0/50/35, Aster-Fenn 20/90/80,
/// Cove-Aster 30/75/45.
pub open spec fn published_sailing(a: int, b: int, d: int, e: int) -> bool {
    ||| a == 0 && b == 1 && d >= 0 && d % 30 == 0 && e == d + 20
    ||| a == 1 && b == 0 && d >= 10 && (d - 10) % 30 == 0 && e == d + 20
    ||| a == 1 && b == 2 && d >= 5 && (d - 5) % 40 == 0 && e == d + 25
    ||| a == 2 && b == 3 && d >= 0 && d % 60 == 0 && e == d + 30
    ||| a == 3 && b == 4 && d >= 15 && (d - 15) % 45 == 0 && e == d + 20
    ||| a == 4 && b == 5 && d >= 0 && d % 50 == 0 && e == d + 35
    ||| a == 0 && b == 5 && d >= 20 && (d - 20) % 90 == 0 && e == d + 80
    ||| a == 2 && b == 0 && d >= 30 && (d - 30) % 75 == 0 && e == d + 45
}

/// Under a request that avoids no island and closes no hop, a leg can be
/// sailed from minute `ready` exactly when it is a published sailing that
/// leaves no earlier than `ready` and lands within the day.
pub proof fn law_sailings_follow_the_timetable(q: Query, leg: Leg, ready: int)
    requires
        query_ok(q),
        forall|i: int| 0 <= i < ISLAND_COUNT ==> !#[trigger] q.avoid[i],
        forall|a: int, b: int| 0 <= a < ISLAND_COUNT && 0 <= b < ISLAND_COUNT ==> !#[trigger] q.closed[a][b],
    ensures
        (exists|i: int| #[trigger] sails_on(q, leg, ready, i)) <==> (ready <= leg.2 && leg.3 <= 1440
            && published_sailing(leg.0 as int, leg.1 as int, leg.2 as int, leg.3 as int)),
{
    if ready <= leg.2 && leg.3 <= 1440 && published_sailing(leg.0 as int, leg.1 as int, leg.2 as int, leg.3 as int) {
        let a = leg.0 as int;
        let b = leg.1 as int;
        let i: int = if a == 0 && b == 1 {
            0
        } else if a == 1 && b == 0 {
            1
        } else if a == 1 && b == 2 {
            2
        } else if a == 2 && b == 3 {
            3
        } else if a == 3 && b == 4 {
            4
        } else if a == 4 && b == 5 {
            5
        } else if a == 0 && b == 5 {
            6
        } else {
            7
        };
        assert(q.avoid[b] == false);
        assert(q.closed[a][b] == false);
        assert(sails_on(q, leg, ready, i));
    }
    if exists|i: int| #[trigger] sails_on(q, leg, ready, i) {
        let i = choose|i: int| #[trigger] sails_on(q, leg, ready, i);
        assert(published_sailing(leg.0 as int, leg.1 as int, leg.2 as int, leg.3 as int));
    }
}


/// Whether a leg can be sailed from minute `ready` under a request: the hop
/// is allowed, and it is a published sailing leaving no earlier than `ready`
/// and landing within the day.
proof fn lemma_sailing_is_published(q: Query, leg: Leg, ready: int)
    requires
        query_ok(q),
    ensures
        (exists|i: int| #[trigger] sails_on(q, leg, ready, i)) <==> (ready <= leg.2 && leg.3 <= 1440
            && published_sailing(leg.0 as int, leg.1 as int, leg.2 as int, leg.3 as int) && !q.avoid[leg.1 as int]
            && !q.closed[leg.0 as int][leg.1 as int]),
{
    if ready <= leg.2 && leg.3 <= 1440 && published_sailing(leg.0 as int, leg.1 as int, leg.2 as int, leg.3 as int)
        && !q.avoid[leg.1 as int] && !q.closed[leg.0 as int][leg.1 as int] {
        let a = leg.0 as int;
        let b = leg.1 as int;
        let i: int = if a == 0 && b == 1 {
            0
        } else if a == 1 && b == 0 {
            1
        } else if a == 1 && b == 2 {
            2
        } else if a == 2 && b == 3 {
            3
        } else if a == 3 && b == 4 {
            4
        } else if a == 4 && b == 5 {
            5
        } else if a == 0 && b == 5 {
            6
        } else {
            7
        };
        assert(sails_on(q, leg, ready, i));
    }
    if exists|i: int| #[trigger] sails_on(q, leg, ready, i) {
        let i = choose|i: int| #[trigger] sails_on(q, leg, ready, i);
        assert(published_sailing(leg.0 as int, leg.1 as int, leg.2 as int, leg.3 as int));
    }
}

/// Leg `k` of `legs`, read without the journey vocabulary: it leaves from the
/// start island (first leg) or where the previous leg landed, no earlier than
/// the start minute (first leg) or the previous arrival plus the transfer
/// buffer, is a published sailing landing within the day, lands on an island
/// that is not avoided and uses a hop that is not closed.
pub open spec fn chained_sailing(q: Query, legs: Seq<Leg>, k: int) -> bool {
    &&& legs[k].0 == (if k == 0 {
        q.from
    } else {
        legs[k - 1].1 as int
    })
    &&& (if k == 0 {
        q.at
    } else {
        legs[k - 1].3 + q.transfer
    }) <= legs[k].2
    &&& legs[k].3 <= 1440
    &&& published_sailing(legs[k].0 as int, legs[k].1 as int, legs[k].2 as int, legs[k].3 as int)
    &&& !q.avoid[legs[k].1 as int]
    &&& !q.closed[legs[k].0 as int][legs[k].1 as int]
}

/// `legs`, read without the journey vocabulary, answer the request: the
/// start island is not avoided, the start minute is a usable one, the leg
/// budget is at least one and not exceeded, every leg is a chained published
/// sailing, the last leg (or the start, with no legs) is on the destination,
/// and the waypoint, if any, is the start island or the landing island of
/// some leg.
pub open spec fn sailing_chain(q: Query, legs: Seq<Leg>) -> bool {
    &&& !q.avoid[q.from]
    &&& q.at < u32::MAX
    &&& 1 <= q.max_legs
    &&& legs.len() <= q.max_legs
    &&& forall|k: int| 0 <= k < legs.len() ==> #[trigger] chained_sailing(q, legs, k)
    &&& (if legs.len() == 0 {
        q.from
    } else {
        legs[legs.len() - 1].1 as int
    }) == q.to
    &&& (q.via matches Some(x) ==> (q.from == x || exists|k: int|
        0 <= k < legs.len() && #[trigger] legs[k].1 == x))
}

/// The minute at which `legs` are done: the last arrival, or the start
/// minute when there are no legs.
pub open spec fn chain_end(q: Query, legs: Seq<Leg>) -> int {
    if legs.len() == 0 {
        q.at
    } else {
        legs[legs.len() - 1].3 as int
    }
}

/// A journey answers a request exactly when it is a chain of published
/// sailings that meets the request.
pub proof fn law_journey_is_a_chain_of_sailings(q: Query, legs: Seq<Leg>)
    requires
        query_ok(q),
    ensures
        is_journey(q, legs) <==> sailing_chain(q, legs),
        end_time(q, legs) == chain_end(q, legs),
{
    assert forall|k: int| 0 <= k < legs.len() implies (#[trigger] leg_ok(q, legs, k) <==> chained_sailing(
        q,
        legs,
        k,
    )) by {
        lemma_sailing_is_published(q, legs[k], ready_time(q, legs, k));
    }
    if is_journey(q, legs) {
        assert forall|k: int| 0 <= k < legs.len() implies #[trigger] chained_sailing(q, legs, k) by {
            assert(leg_ok(q, legs, k));
        }
    }
    if !q.avoid[q.from] && q.at < u32::MAX && 1 <= q.max_legs && legs.len() <= q.max_legs && (forall|k: int|
        0 <= k < legs.len() ==> #[trigger] chained_sailing(q, legs, k)) {
        assert forall|k: int| 0 <= k < legs.len() implies #[trigger] leg_ok(q, legs, k) by {
            assert(chained_sailing(q, legs, k));
        }
        assert(is_route(q, legs));
    }
}

/// An earliest-arrival answer is a chain of published sailings that meets
/// the request and arrives when it says, no later than any other such
/// chain; there is no answer exactly when no such chain exists.
pub proof fn law_earliest_answer_is_the_fastest_chain(q: Query, r: Option<(u32, Vec<Leg>)>, other: Seq<Leg>)
    requires
        query_ok(q),
        answers_earliest(q, r),
    ensures
        sailing_chain(q, other) ==> (r matches Some((arrival, _)) && arrival <= chain_end(q, other)),
        r matches Some((arrival, legs)) ==> sailing_chain(q, legs@) && chain_end(q, legs@) == arrival,
        r is None ==> !sailing_chain(q, other),
{
    law_journey_is_a_chain_of_sailings(q, other);
    if sailing_chain(q, other) {
        assert(is_journey(q, other));
        assert(has_journey(q));
    }
    if let Some((arrival, legs)) = r {
        law_journey_is_a_chain_of_sailings(q, legs@);
    }
}

} // verus!
