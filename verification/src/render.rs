//! Text the planner's users print: decimal numbers, the JSON form of an
//! itinerary, the plain itinerary, and the route catalogue.

use vstd::prelude::*;
use crate::timetable::{
    ISLAND_COUNT, FERRY_COUNT, spec_ferry, ferry, spec_island_name, island_name,
    lemma_ferry_well_formed,
};
use crate::journey::Leg;

verus! {

/// Concatenation of character sequences may be regrouped.
pub broadcast proof fn lemma_concat_regroup(a: Seq<char>, b: Seq<char>, c: Seq<char>)
    ensures
        #[trigger] (a + (b + c)) == (a + b) + c,
{
    assert(a + (b + c) =~= (a + b) + c);
}

/// The ASCII digit for `d` (below ten).
pub open spec fn digit_char(d: nat) -> char {
    (('0' as u32) + d) as char
}

/// The decimal form of `n`, without leading zeros.
pub open spec fn decimal(n: nat) -> Seq<char>
    decreases n,
{
    if n < 10 {
        seq![digit_char(n)]
    } else {
        decimal(n / 10) + seq![digit_char(n % 10)]
    }
}

fn digit_str(d: u64) -> (s: &'static str)
    requires
        d < 10,
    ensures
        s@ == seq![digit_char(d as nat)],
{
    if d == 0 {
        proof { reveal_strlit("0"); }
        "0"
    } else if d == 1 {
        proof { reveal_strlit("1"); }
        "1"
    } else if d == 2 {
        proof { reveal_strlit("2"); }
        "2"
    } else if d == 3 {
        proof { reveal_strlit("3"); }
        "3"
    } else if d == 4 {
        proof { reveal_strlit("4"); }
        "4"
    } else if d == 5 {
        proof { reveal_strlit("5"); }
        "5"
    } else if d == 6 {
        proof { reveal_strlit("6"); }
        "6"
    } else if d == 7 {
        proof { reveal_strlit("7"); }
        "7"
    } else if d == 8 {
        proof { reveal_strlit("8"); }
        "8"
    } else {
        proof { reveal_strlit("9"); }
        "9"
    }
}

/// Appends the decimal form of `n` to `out`.
pub fn push_decimal(out: &mut String, n: u64)
    ensures
        final(out)@ == old(out)@ + decimal(n as nat),
    decreases n,
{
    if n < 10 {
        out.append(digit_str(n));
    } else {
        push_decimal(out, n / 10);
        out.append(digit_str(n % 10));
    }
}

/// The decimal form of `n`.
pub fn decimal_string(n: u64) -> (s: String)
    ensures
        s@ == decimal(n as nat),
{
    let mut s = String::new();
    push_decimal(&mut s, n);
    assert(s@ =~= decimal(n as nat));
    s
}

/// `s` between double quotes.
pub open spec fn quoted(s: Seq<char>) -> Seq<char> {
    "\""@ + s + "\""@
}

/// `a - b`, or zero when `b` is larger.
pub open spec fn saturating_diff(a: int, b: int) -> int {
    if a >= b {
        a - b
    } else {
        0
    }
}

/// The quoted names of the avoided islands among the first `n`, separated by commas.
pub open spec fn avoided_json(avoid: Seq<bool>, n: int) -> Seq<char>
    decreases n,
{
    if n <= 0 {
        Seq::empty()
    } else if avoid[n - 1] {
        let prev = avoided_json(avoid, n - 1);
        if prev.len() == 0 {
            quoted(spec_island_name(n - 1))
        } else {
            prev + ","@ + quoted(spec_island_name(n - 1))
        }
    } else {
        avoided_json(avoid, n - 1)
    }
}

/// Minutes spent waiting before leg `k`: since the start for the first leg,
/// since the previous arrival otherwise (never negative).
pub open spec fn wait_before(legs: Seq<Leg>, departure: int, k: int) -> int {
    if k == 0 {
        saturating_diff(legs[k].2 as int, departure)
    } else {
        saturating_diff(legs[k].2 as int, legs[k - 1].3 as int)
    }
}

/// The JSON object of leg `k`.
pub open spec fn leg_json(legs: Seq<Leg>, departure: int, k: int) -> Seq<char> {
    "{\"from\":\""@ + spec_island_name(legs[k].0 as int) + "\",\"to\":\""@ + spec_island_name(
        legs[k].1 as int,
    ) + "\",\"depart\":"@ + decimal(legs[k].2 as nat) + ",\"arrive\":"@ + decimal(legs[k].3 as nat)
        + ",\"wait\":"@ + decimal(wait_before(legs, departure, k) as nat) + "}"@
}

/// The JSON objects of the first `n` legs, separated by commas.
pub open spec fn legs_json(legs: Seq<Leg>, departure: int, n: int) -> Seq<char>
    decreases n,
{
    if n <= 0 {
        Seq::empty()
    } else if n == 1 {
        leg_json(legs, departure, 0)
    } else {
        legs_json(legs, departure, n - 1) + ","@ + leg_json(legs, departure, n - 1)
    }
}

/// The JSON text of the waypoint: `null`, or its quoted name.
pub open spec fn via_json(via: Option<usize>) -> Seq<char> {
    match via {
        Some(x) => quoted(spec_island_name(x as int)),
        None => "null"@,
    }
}

/// The JSON object that describes a planned journey and the constraints it
/// was planned under.
pub open spec fn route_json(
    from: int,
    to: int,
    departure: int,
    arrival: int,
    legs: Seq<Leg>,
    max_legs: int,
    avoid: Seq<bool>,
    transfer: int,
    via: Option<usize>,
) -> Seq<char> {
    "{\"schema_version\":1,\"from\":\""@ + spec_island_name(from) + "\",\"to\":\""@ + spec_island_name(
        to,
    ) + "\",\"via\":"@ + via_json(via) + ",\"departure\":"@ + decimal(departure as nat)
        + ",\"arrival\":"@ + decimal(arrival as nat) + ",\"max_legs\":"@ + decimal(max_legs as nat)
        + ",\"min_transfer\":"@ + decimal(transfer as nat) + ",\"avoid\":["@ + avoided_json(
        avoid,
        ISLAND_COUNT as int,
    ) + "],\"legs\":["@ + legs_json(legs, departure, legs.len() as int) + "]}"@
}

/// Every leg of `legs` joins two islands of the map.
pub open spec fn legs_on_map(legs: Seq<Leg>) -> bool {
    forall|k: int| 0 <= k < legs.len() ==> legs[k].0 < ISLAND_COUNT && legs[k].1 < ISLAND_COUNT
}

fn push_quoted_island(out: &mut String, i: usize)
    requires
        i < ISLAND_COUNT,
    ensures
        final(out)@ == old(out)@ + quoted(spec_island_name(i as int)),
{
    out.append("\"");
    out.append(island_name(i));
    out.append("\"");
}

fn push_leg_json(out: &mut String, legs: &[Leg], departure: u32, k: usize)
    requires
        k < legs@.len(),
        legs_on_map(legs@),
    ensures
        final(out)@ == old(out)@ + leg_json(legs@, departure as int, k as int),
{
    let leg = legs[k];
    let wait = if k == 0 {
        wait_minutes(leg.2, departure)
    } else {
        wait_minutes(leg.2, legs[k - 1].3)
    };
    broadcast use lemma_concat_regroup;
    let ghost start = out@;
    out.append("{\"from\":\"");
    out.append(island_name(leg.0));
    out.append("\",\"to\":\"");
    out.append(island_name(leg.1));
    out.append("\",\"depart\":");
    push_decimal(out, leg.2 as u64);
    out.append(",\"arrive\":");
    push_decimal(out, leg.3 as u64);
    out.append(",\"wait\":");
    push_decimal(out, wait as u64);
    out.append("}");
}

fn wait_minutes(depart: u32, since: u32) -> (w: u32)
    ensures
        w == saturating_diff(depart as int, since as int),
{
    if depart >= since {
        depart - since
    } else {
        0
    }
}

/// The JSON description of a planned journey: the request's endpoints,
/// waypoint, start and arrival minutes, leg budget, transfer buffer and
/// avoided islands, and each leg with its islands, minutes and wait.
pub fn json_route(
    from: usize,
    to: usize,
    departure: u32,
    arrival: u32,
    legs: &[Leg],
    max_legs: usize,
    avoid: &[bool; 6],
    transfer: u32,
    via: Option<usize>,
) -> (s: String)
    requires
        from < ISLAND_COUNT,
        to < ISLAND_COUNT,
        legs_on_map(legs@),
        (via matches Some(x) ==> x < ISLAND_COUNT),
    ensures
        s@ == route_json(
            from as int,
            to as int,
            departure as int,
            arrival as int,
            legs@,
            max_legs as int,
            avoid@,
            transfer as int,
            via,
        ),
{
    let mut out = String::new();
    out.append("{\"schema_version\":1,\"from\":\"");
    out.append(island_name(from));
    out.append("\",\"to\":\"");
    out.append(island_name(to));
    out.append("\",\"via\":");
    match via {
        Some(x) => push_quoted_island(&mut out, x),
        None => out.append("null"),
    }
    out.append(",\"departure\":");
    push_decimal(&mut out, departure as u64);
    out.append(",\"arrival\":");
    push_decimal(&mut out, arrival as u64);
    out.append(",\"max_legs\":");
    push_decimal(&mut out, max_legs as u64);
    out.append(",\"min_transfer\":");
    push_decimal(&mut out, transfer as u64);
    out.append(",\"avoid\":[");
    let ghost head = out@;
    let mut i: usize = 0;
    let mut any = false;
    while i < ISLAND_COUNT
        invariant
            i <= ISLAND_COUNT,
            out@ == head + avoided_json(avoid@, i as int),
            any == (avoided_json(avoid@, i as int).len() > 0),
        decreases ISLAND_COUNT - i,
    {
        if avoid[i] {
            if any {
                out.append(",");
            }
            push_quoted_island(&mut out, i);
            any = true;
            proof {
                assert(out@ =~= head + avoided_json(avoid@, i + 1));
            }
        } else {
            assert(avoided_json(avoid@, i + 1) == avoided_json(avoid@, i as int));
        }
        i = i + 1;
    }
    out.append("],\"legs\":[");
    let ghost head2 = out@;
    let mut n: usize = 0;
    while n < legs.len()
        invariant
            n <= legs.len(),
            legs_on_map(legs@),
            out@ == head2 + legs_json(legs@, departure as int, n as int),
        decreases legs.len() - n,
    {
        if n > 0 {
            out.append(",");
        }
        push_leg_json(&mut out, legs, departure, n);
        proof {
            assert(out@ =~= head2 + legs_json(legs@, departure as int, n + 1));
        }
        n = n + 1;
    }
    out.append("]}");
    proof {
        assert(out@ =~= route_json(
            from as int,
            to as int,
            departure as int,
            arrival as int,
            legs@,
            max_legs as int,
            avoid@,
            transfer as int,
            via,
        ));
    }
    out
}

/// The JSON object of timetable entry `i`.
pub open spec fn ferry_json(i: int) -> Seq<char> {
    let f = spec_ferry(i);
    "{\"from\":\""@ + spec_island_name(f.from as int) + "\",\"to\":\""@ + spec_island_name(f.to as int)
        + "\",\"first\":"@ + decimal(f.first as nat) + ",\"every\":"@ + decimal(f.every as nat)
        + ",\"travel\":"@ + decimal(f.travel as nat) + "}"@
}

/// The catalogue line of timetable entry `i`.
pub open spec fn ferry_line(i: int) -> Seq<char> {
    let f = spec_ferry(i);
    spec_island_name(f.from as int) + " -> "@ + spec_island_name(f.to as int) + " | "@ + decimal(
        f.first as nat,
    ) + " | "@ + decimal(f.every as nat) + " | "@ + decimal(f.travel as nat) + "\n"@
}

/// Timetable entry `i` is listed under the origin filter `from`.
pub open spec fn listed(from: Option<usize>, i: int) -> bool {
    match from {
        Some(x) => spec_ferry(i).from == x,
        None => true,
    }
}

/// The JSON objects of the listed entries among the first `n`, separated by commas.
pub open spec fn ferries_json(from: Option<usize>, n: int) -> Seq<char>
    decreases n,
{
    if n <= 0 {
        Seq::empty()
    } else if listed(from, n - 1) {
        let prev = ferries_json(from, n - 1);
        if prev.len() == 0 {
            ferry_json(n - 1)
        } else {
            prev + ","@ + ferry_json(n - 1)
        }
    } else {
        ferries_json(from, n - 1)
    }
}

/// The catalogue lines of the listed entries among the first `n`.
pub open spec fn ferry_lines(from: Option<usize>, n: int) -> Seq<char>
    decreases n,
{
    if n <= 0 {
        Seq::empty()
    } else if listed(from, n - 1) {
        ferry_lines(from, n - 1) + ferry_line(n - 1)
    } else {
        ferry_lines(from, n - 1)
    }
}

/// The route catalogue, restricted to the routes leaving `from` if given: a
/// JSON object with the listed timetable entries, or a titled table with one
/// line per listed entry; each ends with a newline.
pub open spec fn catalogue(json: bool, from: Option<usize>) -> Seq<char> {
    if json {
        "{\"schema_version\":1,\"routes\":["@ + ferries_json(from, FERRY_COUNT as int) + "]}\n"@
    } else {
        "Island Time ferry routes (fictional timetable)\n"@
            + "from -> to | first departure | every minutes | travel minutes\n"@ + ferry_lines(
            from,
            FERRY_COUNT as int,
        )
    }
}

fn push_ferry_json(out: &mut String, i: usize)
    requires
        i < FERRY_COUNT,
    ensures
        final(out)@ == old(out)@ + ferry_json(i as int),
{
    broadcast use lemma_concat_regroup;
    let f = ferry(i);
    proof {
        lemma_ferry_well_formed(i as int);
    }
    out.append("{\"from\":\"");
    out.append(island_name(f.from));
    out.append("\",\"to\":\"");
    out.append(island_name(f.to));
    out.append("\",\"first\":");
    push_decimal(out, f.first as u64);
    out.append(",\"every\":");
    push_decimal(out, f.every as u64);
    out.append(",\"travel\":");
    push_decimal(out, f.travel as u64);
    out.append("}");
}

fn push_ferry_line(out: &mut String, i: usize)
    requires
        i < FERRY_COUNT,
    ensures
        final(out)@ == old(out)@ + ferry_line(i as int),
{
    broadcast use lemma_concat_regroup;
    let f = ferry(i);
    proof {
        lemma_ferry_well_formed(i as int);
    }
    out.append(island_name(f.from));
    out.append(" -> ");
    out.append(island_name(f.to));
    out.append(" | ");
    push_decimal(out, f.first as u64);
    out.append(" | ");
    push_decimal(out, f.every as u64);
    out.append(" | ");
    push_decimal(out, f.travel as u64);
    out.append("\n");
}

/// The route catalogue, as JSON or as a table, of every route or of the
/// routes leaving island `from`.
pub fn list_routes(json: bool, from: Option<usize>) -> (s: String)
    ensures
        s@ == catalogue(json, from),
{
    broadcast use lemma_concat_regroup;
    let mut out = String::new();
    if json {
        out.append("{\"schema_version\":1,\"routes\":[");
        let ghost head = out@;
        let mut any = false;
        let mut i: usize = 0;
        while i < FERRY_COUNT
            invariant
                i <= FERRY_COUNT,
                out@ == head + ferries_json(from, i as int),
                any == (ferries_json(from, i as int).len() > 0),
            decreases FERRY_COUNT - i,
        {
            let f = ferry(i);
            let wanted = match from {
                Some(x) => f.from == x,
                None => true,
            };
            if wanted {
                if any {
                    out.append(",");
                }
                push_ferry_json(&mut out, i);
                any = true;
            }
            i = i + 1;
        }
        out.append("]}\n");
    } else {
        out.append("Island Time ferry routes (fictional timetable)\n");
        out.append("from -> to | first departure | every minutes | travel minutes\n");
        let ghost head = out@;
        let mut i: usize = 0;
        while i < FERRY_COUNT
            invariant
                i <= FERRY_COUNT,
                out@ == head + ferry_lines(from, i as int),
            decreases FERRY_COUNT - i,
        {
            let f = ferry(i);
            let wanted = match from {
                Some(x) => f.from == x,
                None => true,
            };
            if wanted {
                push_ferry_line(&mut out, i);
            }
            i = i + 1;
        }
    }
    assert(out@ =~= catalogue(json, from));
    out
}

/// The quoted island names among the first `n`, separated by commas.
pub open spec fn islands_json(n: int) -> Seq<char>
    decreases n,
{
    if n <= 0 {
        Seq::empty()
    } else if n == 1 {
        quoted(spec_island_name(0))
    } else {
        islands_json(n - 1) + ","@ + quoted(spec_island_name(n - 1))
    }
}

/// The first `n` island names, one per line.
pub open spec fn island_lines(n: int) -> Seq<char>
    decreases n,
{
    if n <= 0 {
        Seq::empty()
    } else {
        island_lines(n - 1) + spec_island_name(n - 1) + "\n"@
    }
}

/// The island list: a JSON object with the names of all islands, or one name
/// per line; each ends with a newline.
pub open spec fn island_catalogue(json: bool) -> Seq<char> {
    if json {
        "{\"schema_version\":1,\"islands\":["@ + islands_json(ISLAND_COUNT as int) + "]}\n"@
    } else {
        island_lines(ISLAND_COUNT as int)
    }
}

/// The names of the islands, as JSON or one per line.
pub fn list_islands(json: bool) -> (s: String)
    ensures
        s@ == island_catalogue(json),
{
    broadcast use lemma_concat_regroup;
    let mut out = String::new();
    if json {
        out.append("{\"schema_version\":1,\"islands\":[");
    }
    let ghost head = out@;
    let mut i: usize = 0;
    while i < ISLAND_COUNT
        invariant
            i <= ISLAND_COUNT,
            json ==> out@ == head + islands_json(i as int),
            !json ==> out@ == head + island_lines(i as int),
        decreases ISLAND_COUNT - i,
    {
        if json {
            if i > 0 {
                out.append(",");
            }
            push_quoted_island(&mut out, i);
        } else {
            out.append(island_name(i));
            out.append("\n");
        }
        i = i + 1;
    }
    if json {
        out.append("]}\n");
    }
    assert(out@ =~= island_catalogue(json));
    out
}

/// The line of leg `k` in a plain itinerary.
pub open spec fn leg_line(legs: Seq<Leg>, k: int) -> Seq<char> {
    "  "@ + spec_island_name(legs[k].0 as int) + " -> "@ + spec_island_name(legs[k].1 as int)
        + ": depart "@ + decimal(legs[k].2 as nat) + ", arrive "@ + decimal(legs[k].3 as nat) + "\n"@
}

/// The lines of the first `n` legs.
pub open spec fn leg_lines(legs: Seq<Leg>, n: int) -> Seq<char>
    decreases n,
{
    if n <= 0 {
        Seq::empty()
    } else {
        leg_lines(legs, n - 1) + leg_line(legs, n - 1)
    }
}

/// A plain itinerary: a heading with the endpoints, start and arrival
/// minutes, then one line per leg; each line ends with a newline.
pub open spec fn itinerary(from: int, to: int, departure: int, arrival: int, legs: Seq<Leg>) -> Seq<
    char,
> {
    "route "@ + spec_island_name(from) + " -> "@ + spec_island_name(to) + " (departed at "@ + decimal(
        departure as nat,
    ) + ", arrive at "@ + decimal(arrival as nat) + ")\n"@ + leg_lines(legs, legs.len() as int)
}

fn push_leg_line(out: &mut String, legs: &[Leg], k: usize)
    requires
        k < legs@.len(),
        legs_on_map(legs@),
    ensures
        final(out)@ == old(out)@ + leg_line(legs@, k as int),
{
    broadcast use lemma_concat_regroup;
    let leg = legs[k];
    out.append("  ");
    out.append(island_name(leg.0));
    out.append(" -> ");
    out.append(island_name(leg.1));
    out.append(": depart ");
    push_decimal(out, leg.2 as u64);
    out.append(", arrive ");
    push_decimal(out, leg.3 as u64);
    out.append("\n");
}

/// The plain itinerary of a planned journey.
pub fn itinerary_text(from: usize, to: usize, departure: u32, arrival: u32, legs: &[Leg]) -> (s: String)
    requires
        from < ISLAND_COUNT,
        to < ISLAND_COUNT,
        legs_on_map(legs@),
    ensures
        s@ == itinerary(from as int, to as int, departure as int, arrival as int, legs@),
{
    broadcast use lemma_concat_regroup;
    let mut out = String::new();
    out.append("route ");
    out.append(island_name(from));
    out.append(" -> ");
    out.append(island_name(to));
    out.append(" (departed at ");
    push_decimal(&mut out, departure as u64);
    out.append(", arrive at ");
    push_decimal(&mut out, arrival as u64);
    out.append(")\n");
    let ghost head = out@;
    let mut n: usize = 0;
    while n < legs.len()
        invariant
            n <= legs.len(),
            legs_on_map(legs@),
            out@ == head + leg_lines(legs@, n as int),
        decreases legs.len() - n,
    {
        push_leg_line(&mut out, legs, n);
        n = n + 1;
    }
    assert(out@ =~= itinerary(from as int, to as int, departure as int, arrival as int, legs@));
    out
}

/// The message for a traveller who is already where they want to be: `at
/// minute` when planning from a start minute, `by minute` when planning to a
/// deadline; it ends with a newline.
pub open spec fn already_there(island: int, minute: int, by_deadline: bool) -> Seq<char> {
    "already at "@ + spec_island_name(island) + (if by_deadline {
        " by minute "@
    } else {
        " at minute "@
    }) + decimal(minute as nat) + "\n"@
}

/// The message for a traveller who is already on the destination island.
pub fn already_there_text(island: usize, minute: u32, by_deadline: bool) -> (s: String)
    requires
        island < ISLAND_COUNT,
    ensures
        s@ == already_there(island as int, minute as int, by_deadline),
{
    let mut out = String::new();
    out.append("already at ");
    out.append(island_name(island));
    if by_deadline {
        out.append(" by minute ");
    } else {
        out.append(" at minute ");
    }
    push_decimal(&mut out, minute as u64);
    out.append("\n");
    assert(out@ =~= already_there(island as int, minute as int, by_deadline));
    out
}

/// Horizontal position of island `i` on the map.
pub open spec fn map_x(i: int) -> int {
    if i == 0 || i == 5 {
        100
    } else if i == 1 || i == 4 {
        260
    } else {
        420
    }
}

/// Vertical position of island `i` on the map.
pub open spec fn map_y(i: int) -> int {
    if i == 0 {
        100
    } else if i == 1 {
        80
    } else if i == 2 {
        120
    } else if i == 3 {
        260
    } else if i == 4 {
        340
    } else {
        300
    }
}

fn map_point(i: usize) -> (p: (u64, u64))
    requires
        i < ISLAND_COUNT,
    ensures
        p.0 == map_x(i as int),
        p.1 == map_y(i as int),
{
    if i == 0 {
        (100, 100)
    } else if i == 1 {
        (260, 80)
    } else if i == 2 {
        (420, 120)
    } else if i == 3 {
        (420, 260)
    } else if i == 4 {
        (260, 340)
    } else {
        (100, 300)
    }
}

/// The opening of the map document, `height` pixels tall.
pub open spec fn svg_header(height: nat) -> Seq<char> {
    "<svg xmlns=\"http://www.w3.org/2000/svg\" width=\"760\" height=\""@ + decimal(height)
        + "\" viewBox=\"0 0 760 "@ + decimal(height)
        + "\"><title>Island Time itinerary</title><desc>Retrospective fictional ferry puzzle created September 2026.</desc><style>text{font:14px sans-serif}.avoid{fill:#eee;stroke:#999;stroke-dasharray:4}.island{fill:#dff3f0;stroke:#245}</style><defs><marker id=\"arrow\" markerWidth=\"8\" markerHeight=\"8\" refX=\"7\" refY=\"3\" orient=\"auto\"><path d=\"M0,0 L8,3 L0,6 z\" fill=\"#d65\"/></marker></defs><rect width=\"100%\" height=\"100%\" fill=\"#fffaf0\"/><text x=\"24\" y=\"30\" font-size=\"20\">Island Time itinerary</text>"@
}

/// The arrow of leg `k`, ending at `ends[k]`, with its number at the middle of the hop.
pub open spec fn svg_arrow(legs: Seq<Leg>, ends: Seq<(Seq<char>, Seq<char>)>, k: int) -> Seq<char> {
    let a = legs[k].0 as int;
    let b = legs[k].1 as int;
    "<line x1=\""@ + decimal(map_x(a) as nat) + "\" y1=\""@ + decimal(map_y(a) as nat) + "\" x2=\""@
        + ends[k].0 + "\" y2=\""@ + ends[k].1
        + "\" stroke=\"#d65\" stroke-width=\"4\" marker-end=\"url(#arrow)\"/><text x=\""@ + decimal(
        ((map_x(a) + map_x(b)) / 2) as nat,
    ) + "\" y=\""@ + decimal(((map_y(a) + map_y(b)) / 2) as nat) + "\">"@ + decimal((k + 1) as nat)
        + "</text>"@
}

/// The arrows of the first `n` legs.
pub open spec fn svg_arrows(legs: Seq<Leg>, ends: Seq<(Seq<char>, Seq<char>)>, n: int) -> Seq<char>
    decreases n,
{
    if n <= 0 {
        Seq::empty()
    } else {
        svg_arrows(legs, ends, n - 1) + svg_arrow(legs, ends, n - 1)
    }
}

/// The node of island `i`, styled as avoided when `avoid[i]` is set.
pub open spec fn svg_island(avoid: Seq<bool>, i: int) -> Seq<char> {
    "<circle class=\""@ + (if avoid[i] {
        "avoid"@
    } else {
        "island"@
    }) + "\" cx=\""@ + decimal(map_x(i) as nat) + "\" cy=\""@ + decimal(map_y(i) as nat)
        + "\" r=\"28\"/><text x=\""@ + decimal(map_x(i) as nat) + "\" y=\""@ + decimal(
        (map_y(i) + 5) as nat,
    ) + "\" text-anchor=\"middle\">"@ + spec_island_name(i) + "</text>"@
}

/// The nodes of the first `n` islands.
pub open spec fn svg_islands(avoid: Seq<bool>, n: int) -> Seq<char>
    decreases n,
{
    if n <= 0 {
        Seq::empty()
    } else {
        svg_islands(avoid, n - 1) + svg_island(avoid, n - 1)
    }
}

/// The summary line: endpoints, start, total arrival and transfer buffer.
pub open spec fn svg_summary(from: int, to: int, start_time: int, arrival: int, transfer: int) -> Seq<
    char,
> {
    "<text x=\"24\" y=\"380\">"@ + spec_island_name(from) + " -&gt; "@ + spec_island_name(to)
        + " | depart "@ + decimal(start_time as nat) + " | total arrival "@ + decimal(arrival as nat)
        + " | transfer buffer "@ + decimal(transfer as nat) + " min</text>"@
}

/// The detail line of leg `k`, with the minutes waited before it.
pub open spec fn svg_leg_row(legs: Seq<Leg>, start_time: int, k: int) -> Seq<char> {
    "<text x=\"24\" y=\""@ + decimal((406 + 26 * k) as nat) + "\">leg "@ + decimal((k + 1) as nat)
        + ": "@ + spec_island_name(legs[k].0 as int) + " -&gt; "@ + spec_island_name(legs[k].1 as int)
        + " | depart "@ + decimal(legs[k].2 as nat) + " | arrive "@ + decimal(legs[k].3 as nat)
        + " | wait "@ + decimal(wait_before(legs, start_time, k) as nat) + " min</text>"@
}

/// The detail lines of the first `n` legs.
pub open spec fn svg_leg_rows(legs: Seq<Leg>, start_time: int, n: int) -> Seq<char>
    decreases n,
{
    if n <= 0 {
        Seq::empty()
    } else {
        svg_leg_rows(legs, start_time, n - 1) + svg_leg_row(legs, start_time, n - 1)
    }
}

/// The map of a planned journey: a header sized to the number of legs, one
/// numbered arrow per leg ending at the given point, one node per island
/// (avoided islands styled apart), the summary line, one detail line per leg
/// and a closing line.
pub open spec fn svg_document(
    from: int,
    to: int,
    start_time: int,
    arrival: int,
    legs: Seq<Leg>,
    avoid: Seq<bool>,
    transfer: int,
    ends: Seq<(Seq<char>, Seq<char>)>,
) -> Seq<char> {
    svg_header((440 + 26 * legs.len()) as nat) + svg_arrows(legs, ends, legs.len() as int)
        + svg_islands(avoid, ISLAND_COUNT as int) + svg_summary(from, to, start_time, arrival, transfer)
        + svg_leg_rows(legs, start_time, legs.len() as int) + "<text x=\"24\" y=\""@ + decimal(
        (406 + 26 * legs.len()) as nat,
    ) + "\">Retrospective fictional artwork · September 2026</text></svg>"@
}

fn push_svg_arrow(out: &mut String, legs: &[Leg], ends: &[(String, String)], k: usize)
    requires
        k < legs@.len(),
        legs@.len() == ends@.len(),
        legs_on_map(legs@),
    ensures
        final(out)@ == old(out)@ + svg_arrow(
            legs@,
            ends@.map_values(|e: (String, String)| (e.0@, e.1@)),
            k as int,
        ),
{
    broadcast use lemma_concat_regroup;
    let leg = legs[k];
    let (x1, y1) = map_point(leg.0);
    let (x2, y2) = map_point(leg.1);
    out.append("<line x1=\"");
    push_decimal(out, x1);
    out.append("\" y1=\"");
    push_decimal(out, y1);
    out.append("\" x2=\"");
    out.append(ends[k].0.as_str());
    out.append("\" y2=\"");
    out.append(ends[k].1.as_str());
    out.append("\" stroke=\"#d65\" stroke-width=\"4\" marker-end=\"url(#arrow)\"/><text x=\"");
    push_decimal(out, (x1 + x2) / 2);
    out.append("\" y=\"");
    push_decimal(out, (y1 + y2) / 2);
    out.append("\">");
    push_decimal(out, k as u64 + 1);
    out.append("</text>");
}

fn push_svg_island(out: &mut String, avoid: &[bool; 6], i: usize)
    requires
        i < ISLAND_COUNT,
    ensures
        final(out)@ == old(out)@ + svg_island(avoid@, i as int),
{
    broadcast use lemma_concat_regroup;
    let (x, y) = map_point(i);
    out.append("<circle class=\"");
    if avoid[i] {
        out.append("avoid");
    } else {
        out.append("island");
    }
    out.append("\" cx=\"");
    push_decimal(out, x);
    out.append("\" cy=\"");
    push_decimal(out, y);
    out.append("\" r=\"28\"/><text x=\"");
    push_decimal(out, x);
    out.append("\" y=\"");
    push_decimal(out, y + 5);
    out.append("\" text-anchor=\"middle\">");
    out.append(island_name(i));
    out.append("</text>");
}

fn push_svg_leg_row(out: &mut String, legs: &[Leg], start_time: u32, k: usize)
    requires
        k < legs@.len(),
        legs@.len() <= u32::MAX,
        legs_on_map(legs@),
    ensures
        final(out)@ == old(out)@ + svg_leg_row(legs@, start_time as int, k as int),
{
    broadcast use lemma_concat_regroup;
    let leg = legs[k];
    let wait = if k == 0 {
        wait_minutes(leg.2, start_time)
    } else {
        wait_minutes(leg.2, legs[k - 1].3)
    };
    out.append("<text x=\"24\" y=\"");
    push_decimal(out, 406 + 26 * k as u64);
    out.append("\">leg ");
    push_decimal(out, k as u64 + 1);
    out.append(": ");
    out.append(island_name(leg.0));
    out.append(" -&gt; ");
    out.append(island_name(leg.1));
    out.append(" | depart ");
    push_decimal(out, leg.2 as u64);
    out.append(" | arrive ");
    push_decimal(out, leg.3 as u64);
    out.append(" | wait ");
    push_decimal(out, wait as u64);
    out.append(" min</text>");
}

fn push_svg_header(out: &mut String, height: u64)
    ensures
        final(out)@ == old(out)@ + svg_header(height as nat),
{
    broadcast use lemma_concat_regroup;
    out.append("<svg xmlns=\"http://www.w3.org/2000/svg\" width=\"760\" height=\"");
    push_decimal(out, height);
    out.append("\" viewBox=\"0 0 760 ");
    push_decimal(out, height);
    out.append("\"><title>Island Time itinerary</title><desc>Retrospective fictional ferry puzzle created September 2026.</desc><style>text{font:14px sans-serif}.avoid{fill:#eee;stroke:#999;stroke-dasharray:4}.island{fill:#dff3f0;stroke:#245}</style><defs><marker id=\"arrow\" markerWidth=\"8\" markerHeight=\"8\" refX=\"7\" refY=\"3\" orient=\"auto\"><path d=\"M0,0 L8,3 L0,6 z\" fill=\"#d65\"/></marker></defs><rect width=\"100%\" height=\"100%\" fill=\"#fffaf0\"/><text x=\"24\" y=\"30\" font-size=\"20\">Island Time itinerary</text>");
}

fn push_svg_summary(out: &mut String, from: usize, to: usize, start_time: u32, arrival: u32, transfer: u32)
    requires
        from < ISLAND_COUNT,
        to < ISLAND_COUNT,
    ensures
        final(out)@ == old(out)@ + svg_summary(
            from as int,
            to as int,
            start_time as int,
            arrival as int,
            transfer as int,
        ),
{
    broadcast use lemma_concat_regroup;
    out.append("<text x=\"24\" y=\"380\">");
    out.append(island_name(from));
    out.append(" -&gt; ");
    out.append(island_name(to));
    out.append(" | depart ");
    push_decimal(out, start_time as u64);
    out.append(" | total arrival ");
    push_decimal(out, arrival as u64);
    out.append(" | transfer buffer ");
    push_decimal(out, transfer as u64);
    out.append(" min</text>");
}

/// The SVG map of a planned journey, given for each leg the text of the
/// two coordinates where its arrow ends.
pub fn svg_map(
    from: usize,
    to: usize,
    start_time: u32,
    arrival: u32,
    legs: &[Leg],
    avoid: &[bool; 6],
    transfer: u32,
    arrow_ends: &[(String, String)],
) -> (s: String)
    requires
        from < ISLAND_COUNT,
        to < ISLAND_COUNT,
        legs_on_map(legs@),
        legs@.len() <= u32::MAX,
        arrow_ends@.len() == legs@.len(),
    ensures
        s@ == svg_document(
            from as int,
            to as int,
            start_time as int,
            arrival as int,
            legs@,
            avoid@,
            transfer as int,
            arrow_ends@.map_values(|e: (String, String)| (e.0@, e.1@)),
        ),
{
    broadcast use lemma_concat_regroup;
    let ghost ends = arrow_ends@.map_values(|e: (String, String)| (e.0@, e.1@));
    let n = legs.len();
    let mut out = String::new();
    push_svg_header(&mut out, 440 + 26 * n as u64);
    let ghost part1 = out@;
    let mut k: usize = 0;
    while k < n
        invariant
            n == legs@.len(),
            n == arrow_ends@.len(),
            legs_on_map(legs@),
            k <= n,
            ends == arrow_ends@.map_values(|e: (String, String)| (e.0@, e.1@)),
            out@ == part1 + svg_arrows(legs@, ends, k as int),
        decreases n - k,
    {
        push_svg_arrow(&mut out, legs, arrow_ends, k);
        k = k + 1;
    }
    let ghost part2 = out@;
    let mut i: usize = 0;
    while i < ISLAND_COUNT
        invariant
            i <= ISLAND_COUNT,
            out@ == part2 + svg_islands(avoid@, i as int),
        decreases ISLAND_COUNT - i,
    {
        push_svg_island(&mut out, avoid, i);
        i = i + 1;
    }
    push_svg_summary(&mut out, from, to, start_time, arrival, transfer);
    let ghost part3 = out@;
    let mut j: usize = 0;
    while j < n
        invariant
            n == legs@.len(),
            n <= u32::MAX,
            legs_on_map(legs@),
            j <= n,
            out@ == part3 + svg_leg_rows(legs@, start_time as int, j as int),
        decreases n - j,
    {
        push_svg_leg_row(&mut out, legs, start_time, j);
        j = j + 1;
    }
    out.append("<text x=\"24\" y=\"");
    push_decimal(&mut out, 406 + 26 * n as u64);
    out.append("\">Retrospective fictional artwork · September 2026</text></svg>");
    out
}

} // verus!
