//! What a journey is: the legs a traveller can sail under a planning request,
//! and the facts about journeys that the planner's proofs use.

use vstd::prelude::*;
use crate::timetable::{
    ISLAND_COUNT, FERRY_COUNT, DAY_END, spec_ferry, scheduled, next_departure, lemma_ferry_unique,
    lemma_ferry_well_formed,
};

verus! {

/// One ferry leg: origin island, destination island, departure minute and
/// arrival minute.
pub type Leg = (usize, usize, u32, u32);

/// A planning request, as mathematical values.
pub struct Query {
    /// Island the traveller starts on.
    pub from: int,
    /// Island the traveller wants to reach.
    pub to: int,
    /// Minute at which the traveller is ready to leave.
    pub at: int,
    /// Islands that must not be landed on (indexed by island).
    pub avoid: Seq<bool>,
    /// Minimum minutes between one leg's arrival and the next leg's departure.
    pub transfer: int,
    /// Most legs a journey may have.
    pub max_legs: int,
    /// An island the journey must visit, if any.
    pub via: Option<int>,
    /// Directed ferry hops that must not be used: `closed[a][b]` closes `a -> b`.
    pub closed: Seq<Seq<bool>>,
}

/// The shape every request made of the planner's arguments has.
pub open spec fn query_ok(q: Query) -> bool {
    &&& 0 <= q.from < ISLAND_COUNT
    &&& 0 <= q.to < ISLAND_COUNT
    &&& 0 <= q.at <= u32::MAX
    &&& q.avoid.len() == ISLAND_COUNT
    &&& q.closed.len() == ISLAND_COUNT
    &&& forall|a: int| 0 <= a < ISLAND_COUNT ==> (#[trigger] q.closed[a]).len() == ISLAND_COUNT
    &&& 0 <= q.transfer <= u32::MAX
    &&& 0 <= q.max_legs <= 8
    &&& (q.via matches Some(x) ==> 0 <= x < ISLAND_COUNT)
}

/// The request made of the planner's arguments.
pub open spec fn query(
    from: usize,
    to: usize,
    at: u32,
    avoid: [bool; 6],
    transfer: u32,
    max_legs: usize,
    via: Option<usize>,
    avoid_routes: [[bool; 6]; 6],
) -> Query {
    Query {
        from: from as int,
        to: to as int,
        at: at as int,
        avoid: avoid@,
        transfer: transfer as int,
        max_legs: max_legs as int,
        via: match via {
            Some(x) => Some(x as int),
            None => None,
        },
        closed: avoid_routes@.map_values(|row: [bool; 6]| row@),
    }
}

/// A hop from island `a` to island `b` lands on an island that is not avoided
/// and uses a directed route that is not closed.
pub open spec fn allowed_hop(q: Query, a: int, b: int) -> bool {
    &&& !q.avoid[b]
    &&& !q.closed[a][b]
}

/// `leg` sails on timetable entry `i`, leaving no earlier than minute `ready`,
/// at one of that ferry's scheduled departures, and arrives within the day.
pub open spec fn sails_on(q: Query, leg: Leg, ready: int, i: int) -> bool {
    let f = spec_ferry(i);
    &&& 0 <= i < FERRY_COUNT
    &&& f.from == leg.0
    &&& f.to == leg.1
    &&& allowed_hop(q, leg.0 as int, leg.1 as int)
    &&& scheduled(f, leg.2 as int)
    &&& ready <= leg.2
    &&& leg.3 == leg.2 + f.travel
    &&& leg.3 <= DAY_END
}

/// The earliest minute at which leg `k` may leave: the requested start for the
/// first leg, and the previous arrival plus the transfer buffer otherwise.
pub open spec fn ready_time(q: Query, legs: Seq<Leg>, k: int) -> int {
    if k == 0 {
        q.at
    } else {
        legs[k - 1].3 + q.transfer
    }
}

/// The island on which leg `k` must start.
pub open spec fn start_of(q: Query, legs: Seq<Leg>, k: int) -> int {
    if k == 0 {
        q.from
    } else {
        legs[k - 1].1 as int
    }
}

/// Leg `k` starts where the journey stands and sails on some ferry in time.
pub open spec fn leg_ok(q: Query, legs: Seq<Leg>, k: int) -> bool {
    &&& legs[k].0 == start_of(q, legs, k)
    &&& exists|i: int| sails_on(q, legs[k], ready_time(q, legs, k), i)
}

/// `legs` can be sailed from the request's start: the start island is not
/// avoided, the leg budget is positive and not exceeded, and every leg is
/// sailable. (A start minute of `u32::MAX` is refused: the planner reserves
/// that value.)
pub open spec fn is_route(q: Query, legs: Seq<Leg>) -> bool {
    &&& 0 <= q.from < ISLAND_COUNT
    &&& !q.avoid[q.from]
    &&& 0 <= q.at < u32::MAX
    &&& 1 <= q.max_legs
    &&& legs.len() <= q.max_legs
    &&& forall|k: int| 0 <= k < legs.len() ==> #[trigger] leg_ok(q, legs, k)
}

/// The island where `legs` end.
pub open spec fn end_island(q: Query, legs: Seq<Leg>) -> int {
    if legs.len() == 0 {
        q.from
    } else {
        legs.last().1 as int
    }
}

/// The minute at which `legs` end.
pub open spec fn end_time(q: Query, legs: Seq<Leg>) -> int {
    if legs.len() == 0 {
        q.at
    } else {
        legs.last().3 as int
    }
}

/// `legs` visit island `x`: it is the start island or some leg lands on it.
pub open spec fn visits(q: Query, legs: Seq<Leg>, x: int) -> bool {
    q.from == x || exists|k: int| 0 <= k < legs.len() && legs[k].1 == x
}

/// The waypoint, if there is one, is visited.
pub open spec fn via_met(q: Query, legs: Seq<Leg>) -> bool {
    match q.via {
        Some(x) => visits(q, legs, x),
        None => true,
    }
}

/// `legs` are a journey that answers the request: a route that ends on the
/// destination and visits the waypoint.
pub open spec fn is_journey(q: Query, legs: Seq<Leg>) -> bool {
    &&& is_route(q, legs)
    &&& end_island(q, legs) == q.to
    &&& via_met(q, legs)
}

/// Every leg takes the first boat: it leaves at the first scheduled
/// departure, at or after the minute it may leave, of the ferry it sails on.
pub open spec fn takes_first_boats(q: Query, legs: Seq<Leg>) -> bool {
    forall|k: int, i: int|
        0 <= k < legs.len() && 0 <= i < FERRY_COUNT && spec_ferry(i).from == legs[k].0
            && spec_ferry(i).to == legs[k].1 ==> legs[k].2 == #[trigger] next_departure(
            spec_ferry(i),
            ready_time(q, legs, k),
        )
}

/// A journey with the earliest arrival among all journeys of the request.
pub open spec fn is_earliest_journey(q: Query, legs: Seq<Leg>) -> bool {
    &&& is_journey(q, legs)
    &&& forall|other: Seq<Leg>| #[trigger] is_journey(q, other) ==> end_time(q, legs) <= end_time(q, other)
}

/// Some journey answers the request.
pub open spec fn has_journey(q: Query) -> bool {
    exists|legs: Seq<Leg>| #[trigger] is_journey(q, legs)
}

/// Some journey answers the request and arrives no later than `deadline`.
pub open spec fn has_journey_by(q: Query, deadline: int) -> bool {
    exists|legs: Seq<Leg>| #[trigger] is_journey(q, legs) && end_time(q, legs) <= deadline
}

/// Some journey answers the request, arrives no later than `deadline`, and
/// takes at most `max_duration` minutes from the request's start minute.
pub open spec fn has_journey_within(q: Query, deadline: int, max_duration: int) -> bool {
    exists|legs: Seq<Leg>|
        #[trigger] is_journey(q, legs) && end_time(q, legs) <= deadline && end_time(q, legs) - q.at
            <= max_duration
}

/// The minute from which the next leg after `legs` may leave.
pub open spec fn ready_after(q: Query, legs: Seq<Leg>) -> int {
    if legs.len() == 0 {
        q.at
    } else {
        end_time(q, legs) + q.transfer
    }
}

/// Extending a route by a sailable leg gives a route.
pub proof fn lemma_route_push(q: Query, legs: Seq<Leg>, leg: Leg, i: int)
    requires
        is_route(q, legs),
        legs.len() + 1 <= q.max_legs,
        leg.0 == end_island(q, legs),
        sails_on(q, leg, ready_after(q, legs), i),
    ensures
        is_route(q, legs.push(leg)),
        end_island(q, legs.push(leg)) == leg.1,
        end_time(q, legs.push(leg)) == leg.3,
        forall|x: int| visits(q, legs.push(leg), x) <==> (visits(q, legs, x) || leg.1 == x),
        ready_time(q, legs.push(leg), legs.len() as int) == ready_after(q, legs),
{
    let p = legs.push(leg);
    let n = legs.len() as int;
    assert forall|k: int| 0 <= k < p.len() implies #[trigger] leg_ok(q, p, k) by {
        if k < n {
            assert(leg_ok(q, legs, k));
            assert(p[k] == legs[k]);
            if k > 0 {
                assert(p[k - 1] == legs[k - 1]);
            }
            assert(ready_time(q, p, k) == ready_time(q, legs, k));
            let j = choose|j: int| sails_on(q, legs[k], ready_time(q, legs, k), j);
            assert(sails_on(q, p[k], ready_time(q, p, k), j));
        } else {
            assert(p[k] == leg);
            assert(ready_time(q, p, k) == ready_after(q, legs));
            assert(sails_on(q, p[k], ready_time(q, p, k), i));
        }
    }
    assert forall|x: int| visits(q, p, x) <==> (visits(q, legs, x) || leg.1 == x) by {
        if visits(q, p, x) && q.from != x {
            let k = choose|k: int| 0 <= k < p.len() && p[k].1 == x;
            if k < n {
                assert(legs[k].1 == x);
            }
        }
        if visits(q, legs, x) && q.from != x {
            let k = choose|k: int| 0 <= k < legs.len() && legs[k].1 == x;
            assert(p[k].1 == x);
        }
        if leg.1 == x {
            assert(p[n].1 == x);
        }
    }
}

/// A route whose legs all take the first boat keeps that property when it is
/// extended by a leg that takes the first boat.
pub proof fn lemma_first_boats_push(q: Query, legs: Seq<Leg>, leg: Leg, i: int)
    requires
        takes_first_boats(q, legs),
        sails_on(q, leg, ready_after(q, legs), i),
        leg.2 == next_departure(spec_ferry(i), ready_after(q, legs)),
    ensures
        takes_first_boats(q, legs.push(leg)),
{
    let p = legs.push(leg);
    let n = legs.len() as int;
    assert forall|k: int, j: int|
        0 <= k < p.len() && 0 <= j < FERRY_COUNT && spec_ferry(j).from == p[k].0
            && spec_ferry(j).to == p[k].1 implies p[k].2 == #[trigger] next_departure(
        spec_ferry(j),
        ready_time(q, p, k),
    ) by {
        if k < n {
            assert(p[k] == legs[k]);
            if k > 0 {
                assert(p[k - 1] == legs[k - 1]);
            }
            assert(ready_time(q, p, k) == ready_time(q, legs, k));
            assert(legs[k].2 == next_departure(spec_ferry(j), ready_time(q, legs, k)));
        } else {
            lemma_ferry_unique(i, j);
            assert(ready_time(q, p, k) == ready_after(q, legs));
        }
    }
}

/// A journey lands only on islands that are not avoided: its destination and
/// its waypoint among them.
pub proof fn lemma_journey_lands_allowed(q: Query, legs: Seq<Leg>)
    requires
        is_journey(q, legs),
    ensures
        !q.avoid[q.to],
        q.via matches Some(x) ==> !q.avoid[x],
{
    let n = legs.len() as int;
    if n > 0 {
        assert(leg_ok(q, legs, n - 1));
    }
    if let Some(x) = q.via {
        if q.from != x {
            let k = choose|k: int| 0 <= k < legs.len() && legs[k].1 == x;
            assert(leg_ok(q, legs, k));
        }
    }
}

/// Dropping the last leg of a route gives a route, from whose end the last
/// leg sails.
pub proof fn lemma_route_pop(q: Query, legs: Seq<Leg>) -> (i: int)
    requires
        is_route(q, legs),
        legs.len() > 0,
        q.transfer >= 0,
    ensures
        is_route(q, legs.drop_last()),
        legs.last().0 == end_island(q, legs.drop_last()),
        sails_on(q, legs.last(), ready_after(q, legs.drop_last()), i),
        legs.drop_last().push(legs.last()) == legs,
        end_time(q, legs.drop_last()) <= ready_after(q, legs.drop_last()) <= end_time(q, legs),
        forall|x: int| visits(q, legs, x) <==> (visits(q, legs.drop_last(), x) || legs.last().1 == x),
{
    let p = legs.drop_last();
    let n = legs.len() - 1;
    assert forall|k: int| 0 <= k < p.len() implies #[trigger] leg_ok(q, p, k) by {
        assert(leg_ok(q, legs, k));
        assert(p[k] == legs[k]);
        if k > 0 {
            assert(p[k - 1] == legs[k - 1]);
        }
        assert(ready_time(q, p, k) == ready_time(q, legs, k));
        let j = choose|j: int| sails_on(q, legs[k], ready_time(q, legs, k), j);
        assert(sails_on(q, p[k], ready_time(q, p, k), j));
    }
    assert(leg_ok(q, legs, n));
    assert(ready_time(q, legs, n) == ready_after(q, p));
    let i = choose|j: int| sails_on(q, legs[n], ready_time(q, legs, n), j);
    assert(p.push(legs.last()) =~= legs);
    lemma_route_push(q, p, legs.last(), i);
    i
}

/// No directed hop is closed.
pub open spec fn no_closed_hops() -> Seq<Seq<bool>> {
    Seq::new(ISLAND_COUNT as nat, |a: int| Seq::new(ISLAND_COUNT as nat, |b: int| false))
}

/// A table of closed directed hops in which nothing is closed.
pub open spec fn open_routes() -> [[bool; 6]; 6] {
    choose|routes: [[bool; 6]; 6]| routes@.map_values(|row: [bool; 6]| row@) == no_closed_hops()
}

/// The search state of island `i` reached with `l` legs and waypoint flag
/// `v`, as a number: states are ordered by island, then by legs used, then
/// by whether the waypoint was seen.
pub open spec fn sidx(i: int, l: int, v: int) -> int {
    i * 18 + l * 2 + v
}

/// Whether `legs` have visited the waypoint (0 or 1; always 0 without one).
pub open spec fn flag(q: Query, legs: Seq<Leg>) -> int {
    match q.via {
        Some(x) => if visits(q, legs, x) {
            1
        } else {
            0
        },
        None => 0,
    }
}

/// The waypoint flag after landing on island `b` with flag `v`.
pub open spec fn next_flag(q: Query, v: int, b: int) -> int {
    if v == 1 || q.via == Some(b) {
        1
    } else {
        0
    }
}

/// The search state in which `legs` end.
pub open spec fn route_state(q: Query, legs: Seq<Leg>) -> int {
    sidx(end_island(q, legs), legs.len() as int, flag(q, legs))
}

/// `a` comes no later than `b` in the planner's order among routes of equal
/// length: compared from the last leg backwards, first by the minute at
/// which the leg's starting point was reached, then by the search state
/// (island, legs used, waypoint seen) it starts from.
pub open spec fn tie_le(q: Query, a: Seq<Leg>, b: Seq<Leg>) -> bool
    decreases a.len(),
{
    if a.len() == 0 || a.len() != b.len() {
        true
    } else {
        let pa = a.drop_last();
        let pb = b.drop_last();
        ||| end_time(q, pa) < end_time(q, pb)
        ||| end_time(q, pa) == end_time(q, pb) && route_state(q, pa) < route_state(q, pb)
        ||| end_time(q, pa) == end_time(q, pb) && route_state(q, pa) == route_state(q, pb) && tie_le(
            q,
            pa,
            pb,
        )
    }
}

/// `r` answers the request `q` by earliest arrival: it is `None` exactly
/// when no journey exists, and otherwise holds the earliest arrival and a
/// journey that arrives then, taking the first boat on every leg; among the
/// journeys that arrive then it has the fewest legs, and among those it comes
/// first in the tie order `tie_le`.
pub open spec fn answers_earliest(q: Query, r: Option<(u32, Vec<Leg>)>) -> bool {
    &&& (r is Some <==> has_journey(q))
    &&& (r matches Some((arrival, legs)) ==> {
        &&& is_earliest_journey(q, legs@)
        &&& end_time(q, legs@) == arrival
        &&& takes_first_boats(q, legs@)
        &&& forall|other: Seq<Leg>|
            #[trigger] is_journey(q, other) && end_time(q, other) == arrival ==> legs@.len() <= other.len()
        &&& forall|other: Seq<Leg>|
            #[trigger] is_journey(q, other) && end_time(q, other) == arrival && other.len() == legs@.len()
                ==> tie_le(q, legs@, other)
    })
}

/// Along a route, every leg arrives after the start minute.
pub proof fn lemma_leg_after_start(q: Query, legs: Seq<Leg>, k: int)
    requires
        is_route(q, legs),
        0 <= q.transfer,
        0 <= k < legs.len(),
    ensures
        legs[k].3 > q.at,
    decreases k,
{
    assert(leg_ok(q, legs, k));
    let i = choose|i: int| #[trigger] sails_on(q, legs[k], ready_time(q, legs, k), i);
    lemma_ferry_well_formed(i);
    if k > 0 {
        lemma_leg_after_start(q, legs, k - 1);
    }
}

/// A route never ends before it starts.
pub proof fn lemma_route_after_start(q: Query, legs: Seq<Leg>)
    requires
        is_route(q, legs),
        0 <= q.transfer,
    ensures
        end_time(q, legs) >= q.at,
        legs.len() > 0 ==> end_time(q, legs) > q.at,
{
    if legs.len() > 0 {
        lemma_leg_after_start(q, legs, legs.len() - 1);
    }
}

} // verus!
