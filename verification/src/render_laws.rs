//! What the printed forms say: each law names a piece of text, written out
//! from the request and the planned legs, that the rendered output holds.

use vstd::prelude::*;
use crate::timetable::{ISLAND_COUNT, FERRY_COUNT, spec_ferry, spec_island_name};
use crate::journey::Leg;
use crate::names::{u32_text, unsigned_body, all_digits, digits_value, is_digit};
use crate::render::{
    decimal, itinerary, leg_lines, leg_line, svg_document, svg_leg_rows, svg_leg_row, svg_header,
    svg_arrows, svg_islands, svg_summary, svg_island, svg_arrow, map_x, map_y,
    already_there, route_json, legs_json, leg_json, avoided_json, catalogue, ferries_json, ferry_json,
    ferry_lines, ferry_line, listed,
};

verus! {

/// `t` stands somewhere in `s` as a contiguous piece.
pub open spec fn occurs(s: Seq<char>, t: Seq<char>) -> bool {
    exists|i: int| 0 <= i && i + t.len() <= s.len() && #[trigger] s.subrange(i, i + t.len()) == t
}

/// `s` begins with `p`.
pub open spec fn starts_with(s: Seq<char>, p: Seq<char>) -> bool {
    p.len() <= s.len() && s.subrange(0, p.len() as int) == p
}

/// A piece stands in any text made of something, the piece, and something.
pub proof fn lemma_occurs_in(a: Seq<char>, t: Seq<char>, b: Seq<char>)
    ensures
        occurs(a + t + b, t),
{
    let s = a + t + b;
    assert(s.subrange(a.len() as int, (a.len() + t.len()) as int) =~= t);
}

/// Text added after keeps a piece.
pub proof fn lemma_occurs_before(s: Seq<char>, t: Seq<char>, b: Seq<char>)
    requires
        occurs(s, t),
    ensures
        occurs(s + b, t),
{
    let i = choose|i: int| 0 <= i && i + t.len() <= s.len() && #[trigger] s.subrange(i, i + t.len()) == t;
    assert((s + b).subrange(i, i + t.len()) =~= s.subrange(i, i + t.len()));
}

/// Text added before keeps a piece.
pub proof fn lemma_occurs_after(a: Seq<char>, s: Seq<char>, t: Seq<char>)
    requires
        occurs(s, t),
    ensures
        occurs(a + s, t),
{
    let i = choose|i: int| 0 <= i && i + t.len() <= s.len() && #[trigger] s.subrange(i, i + t.len()) == t;
    let j = i + a.len();
    assert((a + s).subrange(j, j + t.len()) =~= s.subrange(i, i + t.len()));
}

/// A piece that stands in `s` stands in `a + s + b`.
pub proof fn lemma_occurs_within(a: Seq<char>, s: Seq<char>, b: Seq<char>, t: Seq<char>)
    requires
        occurs(s, t),
    ensures
        occurs(a + s + b, t),
{
    lemma_occurs_after(a, s, t);
    lemma_occurs_before(a + s, t, b);
}

/// Minutes waited before leg `k`: from `start` for the first leg, from the
/// previous arrival for later legs, and never below zero.
pub open spec fn waited(legs: Seq<Leg>, start: int, k: int) -> int {
    let since = if k == 0 {
        start
    } else {
        legs[k - 1].3 as int
    };
    if legs[k].2 >= since {
        legs[k].2 - since
    } else {
        0
    }
}

/// The itinerary line of leg `k`: its two islands by name, then its own
/// departure and arrival minutes.
pub open spec fn leg_line_text(legs: Seq<Leg>, k: int) -> Seq<char> {
    "  "@ + spec_island_name(legs[k].0 as int) + " -> "@ + spec_island_name(legs[k].1 as int)
        + ": depart "@ + decimal(legs[k].2 as nat) + ", arrive "@ + decimal(legs[k].3 as nat) + "\n"@
}

/// The JSON object of leg `k`: its two islands by name, its departure and
/// arrival minutes, and the minutes waited before it.
pub open spec fn leg_object_text(legs: Seq<Leg>, departure: int, k: int) -> Seq<char> {
    "{\"from\":\""@ + spec_island_name(legs[k].0 as int) + "\",\"to\":\""@ + spec_island_name(
        legs[k].1 as int,
    ) + "\",\"depart\":"@ + decimal(legs[k].2 as nat) + ",\"arrive\":"@ + decimal(legs[k].3 as nat)
        + ",\"wait\":"@ + decimal(waited(legs, departure, k) as nat) + "}"@
}

/// The map's detail line of leg `k`: numbered `k + 1` at height
/// `406 + 26 k`, with its two islands, its departure and arrival minutes and
/// the minutes waited before it.
pub open spec fn leg_row_text(legs: Seq<Leg>, start: int, k: int) -> Seq<char> {
    "<text x=\"24\" y=\""@ + decimal((406 + 26 * k) as nat) + "\">leg "@ + decimal((k + 1) as nat) + ": "@
        + spec_island_name(legs[k].0 as int) + " -&gt; "@ + spec_island_name(legs[k].1 as int)
        + " | depart "@ + decimal(legs[k].2 as nat) + " | arrive "@ + decimal(legs[k].3 as nat)
        + " | wait "@ + decimal(waited(legs, start, k) as nat) + " min</text>"@
}

/// Among the lines of the first `n` legs stands the line of every leg below
/// `n`, and the line of each leg but the last is followed by the next one's.
#[verifier::spinoff_prover]
proof fn lemma_leg_lines_in_order(legs: Seq<Leg>, n: int)
    requires
        0 <= n,
    ensures
        forall|k: int| 0 <= k < n ==> #[trigger] occurs(leg_lines(legs, n), leg_line_text(legs, k)),
        forall|k: int|
            0 <= k && k + 1 < n ==> #[trigger] occurs(
                leg_lines(legs, n),
                leg_line_text(legs, k) + leg_line_text(legs, k + 1),
            ),
    decreases n,
{
    if n > 0 {
        lemma_leg_lines_in_order(legs, n - 1);
        let prev = leg_lines(legs, n - 1);
        let last = leg_line(legs, n - 1);
        assert(leg_lines(legs, n) == prev + last);
        assert(last == leg_line_text(legs, n - 1));
        lemma_occurs_in(prev, last, Seq::empty());
        assert(prev + last + Seq::<char>::empty() =~= prev + last);
        assert forall|k: int| 0 <= k < n - 1 implies #[trigger] occurs(
            leg_lines(legs, n),
            leg_line_text(legs, k),
        ) by {
            lemma_occurs_before(prev, leg_line_text(legs, k), last);
        }
        assert forall|k: int| 0 <= k && k + 2 < n implies #[trigger] occurs(
            leg_lines(legs, n),
            leg_line_text(legs, k) + leg_line_text(legs, k + 1),
        ) by {
            lemma_occurs_before(prev, leg_line_text(legs, k) + leg_line_text(legs, k + 1), last);
        }
        if n >= 2 {
            let before = leg_lines(legs, n - 2);
            let pair = leg_line_text(legs, n - 2) + leg_line_text(legs, n - 1);
            assert(leg_line(legs, n - 2) == leg_line_text(legs, n - 2));
            assert(leg_lines(legs, n) =~= before + pair + Seq::<char>::empty());
            lemma_occurs_in(before, pair, Seq::empty());
            }
    }
}

/// A plain itinerary opens with the endpoints and the start and arrival
/// minutes, and holds for every leg a line with its two islands, its own
/// departure minute and its own arrival minute; the line of each leg but the
/// last is directly followed by the line of the next leg.
pub proof fn law_itinerary_lists_each_leg(
    from: int,
    to: int,
    departure: int,
    arrival: int,
    legs: Seq<Leg>,
)
    ensures
        starts_with(
            itinerary(from, to, departure, arrival, legs),
            "route "@ + spec_island_name(from) + " -> "@ + spec_island_name(to) + " (departed at "@
                + decimal(departure as nat) + ", arrive at "@ + decimal(arrival as nat) + ")\n"@,
        ),
        forall|k: int|
            0 <= k < legs.len() ==> #[trigger] occurs(
                itinerary(from, to, departure, arrival, legs),
                leg_line_text(legs, k),
            ),
        forall|k: int|
            0 <= k && k + 1 < legs.len() ==> #[trigger] occurs(
                itinerary(from, to, departure, arrival, legs),
                leg_line_text(legs, k) + leg_line_text(legs, k + 1),
            ),
{
    let head = "route "@ + spec_island_name(from) + " -> "@ + spec_island_name(to) + " (departed at "@
        + decimal(departure as nat) + ", arrive at "@ + decimal(arrival as nat) + ")\n"@;
    let body = leg_lines(legs, legs.len() as int);
    let text = itinerary(from, to, departure, arrival, legs);
    assert(text =~= head + body);
    assert(text.subrange(0, head.len() as int) =~= head);
    lemma_leg_lines_in_order(legs, legs.len() as int);
    assert forall|k: int| 0 <= k < legs.len() implies #[trigger] occurs(
        text,
        leg_line_text(legs, k),
    ) by {
        lemma_occurs_after(head, body, leg_line_text(legs, k));
    }
    assert forall|k: int| 0 <= k && k + 1 < legs.len() implies #[trigger] occurs(
        text,
        leg_line_text(legs, k) + leg_line_text(legs, k + 1),
    ) by {
        lemma_occurs_after(head, body, leg_line_text(legs, k) + leg_line_text(legs, k + 1));
    }
}

/// The detail line of every leg below `n` stands among the first `n` detail lines.
proof fn lemma_svg_row_listed(legs: Seq<Leg>, start_time: int, k: int, n: int)
    requires
        0 <= k < n,
    ensures
        occurs(svg_leg_rows(legs, start_time, n), svg_leg_row(legs, start_time, k)),
    decreases n,
{
    if n - 1 == k {
        lemma_occurs_in(svg_leg_rows(legs, start_time, k), svg_leg_row(legs, start_time, k), Seq::empty());
        assert(svg_leg_rows(legs, start_time, k) + svg_leg_row(legs, start_time, k) + Seq::<char>::empty()
            =~= svg_leg_rows(legs, start_time, n));
    } else {
        lemma_svg_row_listed(legs, start_time, k, n - 1);
        lemma_occurs_before(
            svg_leg_rows(legs, start_time, n - 1),
            svg_leg_row(legs, start_time, k),
            svg_leg_row(legs, start_time, n - 1),
        );
    }
}

/// The map of a planned journey holds, for every leg `k`, a detail line
/// numbered `k + 1` at height `406 + 26 k` with its two islands, its
/// departure and arrival minutes, and the minutes waited before it: from the
/// start minute for the first leg, from the previous arrival for later legs,
/// and never below zero.
pub proof fn law_svg_rows_show_each_leg_and_wait(
    from: int,
    to: int,
    start_time: int,
    arrival: int,
    legs: Seq<Leg>,
    avoid: Seq<bool>,
    transfer: int,
    ends: Seq<(Seq<char>, Seq<char>)>,
)
    ensures
        forall|k: int|
            0 <= k < legs.len() ==> #[trigger] occurs(
                svg_document(from, to, start_time, arrival, legs, avoid, transfer, ends),
                leg_row_text(legs, start_time, k),
            ),
{
    let doc = svg_document(from, to, start_time, arrival, legs, avoid, transfer, ends);
    let n = legs.len() as int;
    let rows = svg_leg_rows(legs, start_time, n);
    let before = svg_header((440 + 26 * legs.len()) as nat) + svg_arrows(legs, ends, n) + svg_islands(
        avoid,
        ISLAND_COUNT as int,
    ) + svg_summary(from, to, start_time, arrival, transfer);
    let after = "<text x=\"24\" y=\""@ + decimal((406 + 26 * legs.len()) as nat)
        + "\">Retrospective fictional artwork · September 2026</text></svg>"@;
    assert(doc =~= before + rows + after);
    assert forall|k: int| 0 <= k < legs.len() implies #[trigger] occurs(
        doc,
        leg_row_text(legs, start_time, k),
    ) by {
        lemma_svg_row_listed(legs, start_time, k, n);
        assert(svg_leg_row(legs, start_time, k) == leg_row_text(legs, start_time, k));
        lemma_occurs_within(before, rows, after, svg_leg_row(legs, start_time, k));
    }
}

/// In a list built piece by piece (`list(m)` is `list(m - 1)` followed by
/// `piece(m - 1)`), every piece below `n` stands in `list(n)`.
proof fn lemma_piece_of_list(
    list: spec_fn(int) -> Seq<char>,
    piece: spec_fn(int) -> Seq<char>,
    k: int,
    n: int,
)
    requires
        0 <= k < n,
        forall|m: int| 0 < m <= n ==> #[trigger] list(m) == list(m - 1) + piece(m - 1),
    ensures
        occurs(list(n), piece(k)),
    decreases n,
{
    assert(list(n) == list(n - 1) + piece(n - 1));
    if n - 1 == k {
        lemma_occurs_in(list(k), piece(k), Seq::empty());
        assert(list(k) + piece(k) + Seq::<char>::empty() =~= list(n));
    } else {
        lemma_piece_of_list(list, piece, k, n - 1);
        lemma_occurs_before(list(n - 1), piece(k), piece(n - 1));
    }
}

/// The map node of island `i`: a circle at the island's place, styled
/// `avoid` when the island is avoided and `island` otherwise, with the
/// island's name beneath its centre.
pub open spec fn island_node_text(avoid: Seq<bool>, i: int) -> Seq<char> {
    "<circle class=\""@ + (if avoid[i] {
        "avoid"@
    } else {
        "island"@
    }) + "\" cx=\""@ + decimal(map_x(i) as nat) + "\" cy=\""@ + decimal(map_y(i) as nat)
        + "\" r=\"28\"/><text x=\""@ + decimal(map_x(i) as nat) + "\" y=\""@ + decimal((map_y(i) + 5) as nat)
        + "\" text-anchor=\"middle\">"@ + spec_island_name(i) + "</text>"@
}

/// The map arrow of leg `k`: a line from the place of the island it leaves
/// to the given end point, and the leg's number `k + 1` halfway between its
/// two islands.
pub open spec fn arrow_text(legs: Seq<Leg>, ends: Seq<(Seq<char>, Seq<char>)>, k: int) -> Seq<char> {
    "<line x1=\""@ + decimal(map_x(legs[k].0 as int) as nat) + "\" y1=\""@ + decimal(
        map_y(legs[k].0 as int) as nat,
    ) + "\" x2=\""@ + ends[k].0 + "\" y2=\""@ + ends[k].1
        + "\" stroke=\"#d65\" stroke-width=\"4\" marker-end=\"url(#arrow)\"/><text x=\""@ + decimal(
        ((map_x(legs[k].0 as int) + map_x(legs[k].1 as int)) / 2) as nat,
    ) + "\" y=\""@ + decimal(((map_y(legs[k].0 as int) + map_y(legs[k].1 as int)) / 2) as nat) + "\">"@
        + decimal((k + 1) as nat) + "</text>"@
}

/// A text that opens with `p` still opens with `p` when more follows.
proof fn lemma_starts_with_more(s: Seq<char>, p: Seq<char>, b: Seq<char>)
    requires
        starts_with(s, p),
    ensures
        starts_with(s + b, p),
{
    assert((s + b).subrange(0, p.len() as int) =~= s.subrange(0, p.len() as int));
}

/// The map of a planned journey is `440 + 26` pixels per leg tall; it holds
/// an arrow numbered `k + 1` for every leg `k`, a node for every island
/// (styled apart exactly when the island is avoided), and a summary line
/// with the two endpoints, the start minute, the arrival minute and the
/// transfer buffer.
pub proof fn law_svg_map_draws_the_request(
    from: int,
    to: int,
    start_time: int,
    arrival: int,
    legs: Seq<Leg>,
    avoid: Seq<bool>,
    transfer: int,
    ends: Seq<(Seq<char>, Seq<char>)>,
)
    ensures
        starts_with(
            svg_document(from, to, start_time, arrival, legs, avoid, transfer, ends),
            "<svg xmlns=\"http://www.w3.org/2000/svg\" width=\"760\" height=\""@ + decimal(
                (440 + 26 * legs.len()) as nat,
            ) + "\" viewBox=\"0 0 760 "@ + decimal((440 + 26 * legs.len()) as nat),
        ),
        occurs(
            svg_document(from, to, start_time, arrival, legs, avoid, transfer, ends),
            "<text x=\"24\" y=\"380\">"@ + spec_island_name(from) + " -&gt; "@ + spec_island_name(to)
                + " | depart "@ + decimal(start_time as nat) + " | total arrival "@ + decimal(arrival as nat)
                + " | transfer buffer "@ + decimal(transfer as nat) + " min</text>"@,
        ),
        forall|i: int|
            0 <= i < ISLAND_COUNT ==> #[trigger] occurs(
                svg_document(from, to, start_time, arrival, legs, avoid, transfer, ends),
                island_node_text(avoid, i),
            ),
        forall|k: int|
            0 <= k < legs.len() ==> #[trigger] occurs(
                svg_document(from, to, start_time, arrival, legs, avoid, transfer, ends),
                arrow_text(legs, ends, k),
            ),
{
    let doc = svg_document(from, to, start_time, arrival, legs, avoid, transfer, ends);
    let n = legs.len() as int;
    let h = (440 + 26 * legs.len()) as nat;
    let head = svg_header(h);
    let arrows = svg_arrows(legs, ends, n);
    let nodes = svg_islands(avoid, ISLAND_COUNT as int);
    let summary = svg_summary(from, to, start_time, arrival, transfer);
    let p2 = head + arrows;
    let p3 = p2 + nodes;
    let rest = svg_leg_rows(legs, start_time, n) + "<text x=\"24\" y=\""@ + decimal((406 + 26 * legs.len()) as nat)
        + "\">Retrospective fictional artwork · September 2026</text></svg>"@;
    assert(doc =~= p3 + summary + rest);
    let opening = "<svg xmlns=\"http://www.w3.org/2000/svg\" width=\"760\" height=\""@ + decimal(h)
        + "\" viewBox=\"0 0 760 "@ + decimal(h);
    assert(starts_with(head, opening)) by {
        let style = "\"><title>Island Time itinerary</title><desc>Retrospective fictional ferry puzzle created September 2026.</desc><style>text{font:14px sans-serif}.avoid{fill:#eee;stroke:#999;stroke-dasharray:4}.island{fill:#dff3f0;stroke:#245}</style><defs><marker id=\"arrow\" markerWidth=\"8\" markerHeight=\"8\" refX=\"7\" refY=\"3\" orient=\"auto\"><path d=\"M0,0 L8,3 L0,6 z\" fill=\"#d65\"/></marker></defs><rect width=\"100%\" height=\"100%\" fill=\"#fffaf0\"/><text x=\"24\" y=\"30\" font-size=\"20\">Island Time itinerary</text>"@;
        assert(head == opening + style);
        assert(head.subrange(0, opening.len() as int) =~= opening);
    }
    lemma_starts_with_more(head, opening, arrows);
    lemma_starts_with_more(p2, opening, nodes);
    lemma_starts_with_more(p3, opening, summary);
    lemma_starts_with_more(p3 + summary, opening, rest);
    lemma_occurs_in(p3, summary, rest);
    assert forall|i: int| 0 <= i < ISLAND_COUNT implies #[trigger] occurs(doc, island_node_text(avoid, i)) by {
        let list = |m: int| svg_islands(avoid, m);
        let piece = |m: int| svg_island(avoid, m);
        assert forall|m: int| 0 < m <= ISLAND_COUNT implies #[trigger] list(m) == list(m - 1) + piece(m - 1) by {}
        lemma_piece_of_list(list, piece, i, ISLAND_COUNT as int);
        let t = island_node_text(avoid, i);
        assert(svg_island(avoid, i) == t);
        lemma_occurs_after(p2, nodes, t);
        lemma_occurs_before(p3, t, summary);
        lemma_occurs_before(p3 + summary, t, rest);
    }
    assert forall|k: int| 0 <= k < legs.len() implies #[trigger] occurs(doc, arrow_text(legs, ends, k)) by {
        let list = |m: int| svg_arrows(legs, ends, m);
        let piece = |m: int| svg_arrow(legs, ends, m);
        assert forall|m: int| 0 < m <= n implies #[trigger] list(m) == list(m - 1) + piece(m - 1) by {}
        lemma_piece_of_list(list, piece, k, n);
        let t = arrow_text(legs, ends, k);
        assert(svg_arrow(legs, ends, k) == t);
        lemma_occurs_after(head, arrows, t);
        lemma_occurs_before(p2, t, nodes);
        lemma_occurs_before(p3, t, summary);
        lemma_occurs_before(p3 + summary, t, rest);
    }
}

/// Among the objects of the first `n` legs stands the object of every leg
/// below `n`, and the object of each leg but the last is followed, after a
/// comma, by the next one's.
#[verifier::spinoff_prover]
proof fn lemma_leg_objects_in_order(legs: Seq<Leg>, departure: int, n: int)
    requires
        0 <= n,
    ensures
        forall|k: int|
            0 <= k < n ==> #[trigger] occurs(legs_json(legs, departure, n), leg_object_text(legs, departure, k)),
        forall|k: int|
            0 <= k && k + 1 < n ==> #[trigger] occurs(
                legs_json(legs, departure, n),
                leg_object_text(legs, departure, k) + ","@ + leg_object_text(legs, departure, k + 1),
            ),
    decreases n,
{
    if n == 1 {
        assert(leg_json(legs, departure, 0) == leg_object_text(legs, departure, 0));
        lemma_occurs_in(Seq::empty(), leg_object_text(legs, departure, 0), Seq::empty());
        assert(Seq::<char>::empty() + leg_object_text(legs, departure, 0) + Seq::<char>::empty()
            =~= legs_json(legs, departure, n));
    } else if n > 1 {
        lemma_leg_objects_in_order(legs, departure, n - 1);
        let prev = legs_json(legs, departure, n - 1);
        let last = leg_object_text(legs, departure, n - 1);
        assert(leg_json(legs, departure, n - 1) == last);
        assert(legs_json(legs, departure, n) == prev + ","@ + last);
        lemma_occurs_in(prev + ","@, last, Seq::empty());
        assert(prev + ","@ + last + Seq::<char>::empty() =~= prev + ","@ + last);
        assert(prev + (","@ + last) =~= prev + ","@ + last);
        assert forall|k: int| 0 <= k < n - 1 implies #[trigger] occurs(
            legs_json(legs, departure, n),
            leg_object_text(legs, departure, k),
        ) by {
            lemma_occurs_before(prev, leg_object_text(legs, departure, k), ","@ + last);
        }
        assert forall|k: int| 0 <= k && k + 2 < n implies #[trigger] occurs(
            legs_json(legs, departure, n),
            leg_object_text(legs, departure, k) + ","@ + leg_object_text(legs, departure, k + 1),
        ) by {
            lemma_occurs_before(
                prev,
                leg_object_text(legs, departure, k) + ","@ + leg_object_text(legs, departure, k + 1),
                ","@ + last,
            );
        }
        let pair = leg_object_text(legs, departure, n - 2) + ","@ + last;
        assert(leg_json(legs, departure, n - 2) == leg_object_text(legs, departure, n - 2));
        if n == 2 {
            assert(legs_json(legs, departure, n) =~= Seq::<char>::empty() + pair + Seq::<char>::empty());
            lemma_occurs_in(Seq::empty(), pair, Seq::empty());
        } else {
            let before = legs_json(legs, departure, n - 2) + ","@;
            assert(legs_json(legs, departure, n) =~= before + pair + Seq::<char>::empty());
            lemma_occurs_in(before, pair, Seq::empty());
        }
    }
}

/// The opening of the JSON form of a planned journey, up to the list of
/// avoided islands: the schema version, the two endpoints by name, the
/// waypoint (its quoted name, or `null`), the start and arrival minutes, the
/// leg budget and the transfer buffer.
pub open spec fn route_head_text(
    from: int,
    to: int,
    departure: int,
    arrival: int,
    max_legs: int,
    transfer: int,
    via: Option<usize>,
) -> Seq<char> {
    "{\"schema_version\":1,\"from\":\""@ + spec_island_name(from) + "\",\"to\":\""@ + spec_island_name(to)
        + "\",\"via\":"@ + (match via {
        Some(x) => "\""@ + spec_island_name(x as int) + "\""@,
        None => "null"@,
    }) + ",\"departure\":"@ + decimal(departure as nat) + ",\"arrival\":"@ + decimal(arrival as nat)
        + ",\"max_legs\":"@ + decimal(max_legs as nat) + ",\"min_transfer\":"@ + decimal(transfer as nat)
        + ",\"avoid\":["@
}

/// The JSON form of a planned journey opens with the schema version, the
/// names of the two endpoints, the waypoint (its quoted name when one is
/// given, `null` otherwise), the start and arrival minutes, the leg budget
/// and the transfer buffer; and it holds for every leg an object with its
/// two islands, its departure and arrival minutes and the minutes waited
/// before it (from the start minute for the first leg, from the previous
/// arrival for later legs, never below zero), the object of each leg but the
/// last followed, after a comma, by the next leg's.
pub proof fn law_route_json_describes_the_request(
    from: int,
    to: int,
    departure: int,
    arrival: int,
    legs: Seq<Leg>,
    max_legs: int,
    avoid: Seq<bool>,
    transfer: int,
    via: Option<usize>,
)
    ensures
        starts_with(
            route_json(from, to, departure, arrival, legs, max_legs, avoid, transfer, via),
            route_head_text(from, to, departure, arrival, max_legs, transfer, via),
        ),
        forall|k: int|
            0 <= k < legs.len() ==> #[trigger] occurs(
                route_json(from, to, departure, arrival, legs, max_legs, avoid, transfer, via),
                leg_object_text(legs, departure, k),
            ),
        forall|k: int|
            0 <= k && k + 1 < legs.len() ==> #[trigger] occurs(
                route_json(from, to, departure, arrival, legs, max_legs, avoid, transfer, via),
                leg_object_text(legs, departure, k) + ","@ + leg_object_text(legs, departure, k + 1),
            ),
{
    let text = route_json(from, to, departure, arrival, legs, max_legs, avoid, transfer, via);
    let head = route_head_text(from, to, departure, arrival, max_legs, transfer, via);
    let middle = avoided_json(avoid, ISLAND_COUNT as int) + "],\"legs\":["@;
    let objects = legs_json(legs, departure, legs.len() as int);
    let close = "]}"@;
    assert(text =~= head + middle + objects + close);
    assert(text.subrange(0, head.len() as int) =~= head);
    lemma_leg_objects_in_order(legs, departure, legs.len() as int);
    assert forall|k: int| 0 <= k < legs.len() implies #[trigger] occurs(
        text,
        leg_object_text(legs, departure, k),
    ) by {
        lemma_occurs_within(head + middle, objects, close, leg_object_text(legs, departure, k));
    }
    assert forall|k: int| 0 <= k && k + 1 < legs.len() implies #[trigger] occurs(
        text,
        leg_object_text(legs, departure, k) + ","@ + leg_object_text(legs, departure, k + 1),
    ) by {
        lemma_occurs_within(
            head + middle,
            objects,
            close,
            leg_object_text(legs, departure, k) + ","@ + leg_object_text(legs, departure, k + 1),
        );
    }
}

/// How many of the first `n` islands are avoided.
pub open spec fn avoided_count(avoid: Seq<bool>, n: int) -> int
    decreases n,
{
    if n <= 0 {
        0
    } else {
        avoided_count(avoid, n - 1) + if avoid[n - 1] {
            1int
        } else {
            0int
        }
    }
}

/// The total length of the quoted names of the avoided islands among the first `n`.
pub open spec fn avoided_names_len(avoid: Seq<bool>, n: int) -> int
    decreases n,
{
    if n <= 0 {
        0
    } else {
        avoided_names_len(avoid, n - 1) + if avoid[n - 1] {
            spec_island_name(n - 1).len() + 2int
        } else {
            0int
        }
    }
}

#[verifier::spinoff_prover]
proof fn lemma_avoided_entries(avoid: Seq<bool>, n: int)
    requires
        0 <= n,
    ensures
        forall|i: int|
            0 <= i < n && avoid[i] ==> #[trigger] occurs(
                avoided_json(avoid, n),
                "\""@ + spec_island_name(i) + "\""@,
            ),
        avoided_count(avoid, n) >= 0,
        avoided_json(avoid, n).len() == avoided_names_len(avoid, n) + if avoided_count(avoid, n) > 0 {
            avoided_count(avoid, n) - 1
        } else {
            0
        },
        avoided_json(avoid, n).len() == 0 <==> avoided_count(avoid, n) == 0,
    decreases n,
{
    reveal_strlit(",");
    reveal_strlit("\"");
    if n > 0 {
        lemma_avoided_entries(avoid, n - 1);
        let prev = avoided_json(avoid, n - 1);
        let last = "\""@ + spec_island_name(n - 1) + "\""@;
        assert(crate::render::quoted(spec_island_name(n - 1)) == last);
        if avoid[n - 1] {
            if prev.len() == 0 {
                assert(avoided_json(avoid, n) == last);
                lemma_occurs_in(Seq::empty(), last, Seq::empty());
                assert(Seq::<char>::empty() + last + Seq::<char>::empty() =~= last);
                assert forall|i: int| 0 <= i < n - 1 && avoid[i] implies #[trigger] occurs(
                    avoided_json(avoid, n),
                    "\""@ + spec_island_name(i) + "\""@,
                ) by {
                    assert(occurs(prev, "\""@ + spec_island_name(i) + "\""@));
                    assert(("\""@ + spec_island_name(i) + "\""@).len() > 0);
                }
            } else {
                assert(avoided_json(avoid, n) == prev + ","@ + last);
                lemma_occurs_in(prev + ","@, last, Seq::empty());
                assert(prev + ","@ + last + Seq::<char>::empty() =~= prev + ","@ + last);
                assert forall|i: int| 0 <= i < n - 1 && avoid[i] implies #[trigger] occurs(
                    avoided_json(avoid, n),
                    "\""@ + spec_island_name(i) + "\""@,
                ) by {
                    lemma_occurs_before(prev, "\""@ + spec_island_name(i) + "\""@, ","@ + last);
                    assert(prev + (","@ + last) =~= prev + ","@ + last);
                }
            }
        } else {
            assert(avoided_json(avoid, n) == prev);
        }
    }
}

/// In the JSON form of a planned journey the list of avoided islands follows
/// the opening at once and closes before the legs: it holds the quoted name
/// of every avoided island, and nothing but those names and one comma
/// between each two of them.
pub proof fn law_route_json_lists_the_avoided_islands(
    from: int,
    to: int,
    departure: int,
    arrival: int,
    legs: Seq<Leg>,
    max_legs: int,
    avoid: Seq<bool>,
    transfer: int,
    via: Option<usize>,
)
    ensures
        ({
            let text = route_json(from, to, departure, arrival, legs, max_legs, avoid, transfer, via);
            let start = route_head_text(from, to, departure, arrival, max_legs, transfer, via).len() as int;
            let end = start + avoided_names_len(avoid, ISLAND_COUNT as int) + if avoided_count(
                avoid,
                ISLAND_COUNT as int,
            ) > 0 {
                avoided_count(avoid, ISLAND_COUNT as int) - 1
            } else {
                0
            };
            &&& starts_with(text, route_head_text(from, to, departure, arrival, max_legs, transfer, via))
            &&& end <= text.len()
            &&& forall|i: int|
                0 <= i < ISLAND_COUNT && avoid[i] ==> #[trigger] occurs(
                    text.subrange(start, end),
                    "\""@ + spec_island_name(i) + "\""@,
                )
            &&& starts_with(text.subrange(end, text.len() as int), "],\"legs\":["@)
        }),
{
    let text = route_json(from, to, departure, arrival, legs, max_legs, avoid, transfer, via);
    let head = route_head_text(from, to, departure, arrival, max_legs, transfer, via);
    let list = avoided_json(avoid, ISLAND_COUNT as int);
    let after = "],\"legs\":["@ + legs_json(legs, departure, legs.len() as int) + "]}"@;
    lemma_avoided_entries(avoid, ISLAND_COUNT as int);
    assert(text =~= head + list + after);
    let start = head.len() as int;
    let end = start + list.len();
    assert(text.subrange(0, start) =~= head);
    assert(text.subrange(start, end) =~= list);
    assert(text.subrange(end, text.len() as int) =~= after);
    assert(after.subrange(0, "],\"legs\":["@.len() as int) =~= "],\"legs\":["@);
}

/// Timetable entry `i` leaves island `x` when the filter names one; every
/// entry passes when none is named.
pub open spec fn passes(from: Option<usize>, i: int) -> bool {
    match from {
        Some(x) => spec_ferry(i).from == x,
        None => true,
    }
}

/// The JSON object of timetable entry `i`: its two islands by name, first
/// departure, interval and crossing time.
pub open spec fn entry_object(i: int) -> Seq<char> {
    "{\"from\":\""@ + spec_island_name(spec_ferry(i).from as int) + "\",\"to\":\""@ + spec_island_name(
        spec_ferry(i).to as int,
    ) + "\",\"first\":"@ + decimal(spec_ferry(i).first as nat) + ",\"every\":"@ + decimal(
        spec_ferry(i).every as nat,
    ) + ",\"travel\":"@ + decimal(spec_ferry(i).travel as nat) + "}"@
}

/// The table line of timetable entry `i`: its two islands by name, first
/// departure, interval and crossing time.
pub open spec fn entry_line(i: int) -> Seq<char> {
    spec_island_name(spec_ferry(i).from as int) + " -> "@ + spec_island_name(spec_ferry(i).to as int)
        + " | "@ + decimal(spec_ferry(i).first as nat) + " | "@ + decimal(spec_ferry(i).every as nat)
        + " | "@ + decimal(spec_ferry(i).travel as nat) + "\n"@
}

/// How many of the first `n` timetable entries pass the filter.
pub open spec fn passing_count(from: Option<usize>, n: int) -> int
    decreases n,
{
    if n <= 0 {
        0
    } else {
        passing_count(from, n - 1) + if passes(from, n - 1) {
            1int
        } else {
            0int
        }
    }
}

/// The total length of the JSON objects of the passing entries among the first `n`.
pub open spec fn passing_objects_len(from: Option<usize>, n: int) -> int
    decreases n,
{
    if n <= 0 {
        0
    } else {
        passing_objects_len(from, n - 1) + if passes(from, n - 1) {
            entry_object(n - 1).len() as int
        } else {
            0int
        }
    }
}

/// The total length of the table lines of the passing entries among the first `n`.
pub open spec fn passing_lines_len(from: Option<usize>, n: int) -> int
    decreases n,
{
    if n <= 0 {
        0
    } else {
        passing_lines_len(from, n - 1) + if passes(from, n - 1) {
            entry_line(n - 1).len() as int
        } else {
            0int
        }
    }
}

/// The JSON object of a timetable entry is never empty.
proof fn lemma_entry_object_nonempty(i: int)
    ensures
        entry_object(i).len() > 0,
{
    reveal_strlit("}");
}

/// Among the first `n` entries, the JSON list holds the object of every
/// passing entry, and its length is that of the passing objects with one
/// comma between each two of them.
#[verifier::spinoff_prover]
proof fn lemma_json_entries(from: Option<usize>, n: int)
    requires
        0 <= n <= FERRY_COUNT,
    ensures
        forall|i: int| #![trigger spec_ferry(i)]
            0 <= i < n && passes(from, i) ==> occurs(ferries_json(from, n), entry_object(i)),
        ferries_json(from, n).len() == passing_objects_len(from, n) + if passing_count(from, n) > 0 {
            passing_count(from, n) - 1
        } else {
            0
        },
        ferries_json(from, n).len() == 0 <==> passing_count(from, n) == 0,
    decreases n,
{
    reveal_strlit(",");
    if n > 0 {
        lemma_json_entries(from, n - 1);
        let prev = ferries_json(from, n - 1);
        let last = entry_object(n - 1);
        assert(ferry_json(n - 1) == last);
        assert(listed(from, n - 1) == passes(from, n - 1));
        lemma_entry_object_nonempty(n - 1);
        assert(passing_count(from, n - 1) >= 0) by {
            lemma_passing_count_nonneg(from, n - 1);
        }
        if passes(from, n - 1) {
            if prev.len() == 0 {
                assert(ferries_json(from, n) == last);
                lemma_occurs_in(Seq::empty(), last, Seq::empty());
                assert(Seq::<char>::empty() + last + Seq::<char>::empty() =~= last);
            } else {
                assert(ferries_json(from, n) == prev + ","@ + last);
                lemma_occurs_in(prev + ","@, last, Seq::empty());
                assert(prev + ","@ + last + Seq::<char>::empty() =~= prev + ","@ + last);
                assert forall|i: int| #![trigger spec_ferry(i)]
                    0 <= i < n - 1 && passes(from, i) implies occurs(ferries_json(from, n), entry_object(i)) by {
                    lemma_occurs_before(prev, entry_object(i), ","@ + last);
                    assert(prev + (","@ + last) =~= prev + ","@ + last);
                }
            }
        } else {
            assert(ferries_json(from, n) == prev);
        }
    }
}

/// A count of passing entries is never negative.
proof fn lemma_passing_count_nonneg(from: Option<usize>, n: int)
    ensures
        passing_count(from, n) >= 0,
    decreases n,
{
    if n > 0 {
        lemma_passing_count_nonneg(from, n - 1);
    }
}

/// Among the first `n` entries, the table lines hold the line of every
/// passing entry, and nothing but those lines.
#[verifier::spinoff_prover]
proof fn lemma_table_entries(from: Option<usize>, n: int)
    requires
        0 <= n <= FERRY_COUNT,
    ensures
        forall|i: int| #![trigger spec_ferry(i)]
            0 <= i < n && passes(from, i) ==> occurs(ferry_lines(from, n), entry_line(i)),
        ferry_lines(from, n).len() == passing_lines_len(from, n),
    decreases n,
{
    if n > 0 {
        lemma_table_entries(from, n - 1);
        let prev = ferry_lines(from, n - 1);
        let last = entry_line(n - 1);
        assert(ferry_line(n - 1) == last);
        assert(listed(from, n - 1) == passes(from, n - 1));
        if passes(from, n - 1) {
            assert(ferry_lines(from, n) == prev + last);
            lemma_occurs_in(prev, last, Seq::empty());
            assert(prev + last + Seq::<char>::empty() =~= prev + last);
            assert forall|i: int| #![trigger spec_ferry(i)]
                0 <= i < n - 1 && passes(from, i) implies occurs(ferry_lines(from, n), entry_line(i)) by {
                lemma_occurs_before(prev, entry_line(i), last);
            }
        } else {
            assert(ferry_lines(from, n) == prev);
        }
    }
}

/// The route catalogue lists exactly the timetable entries that pass the
/// filter (all of them without one, those leaving island `x` under
/// `Some(x)`): the JSON form holds the object of each passing entry, the
/// table holds the line of each, and neither holds anything more than its
/// frame, those entries, and in JSON one comma between each two of them.
pub proof fn law_catalogue_lists_the_passing_entries(from: Option<usize>)
    ensures
        forall|i: int| #![trigger spec_ferry(i)]
            0 <= i < FERRY_COUNT && passes(from, i) ==> occurs(catalogue(true, from), entry_object(i))
                && occurs(catalogue(false, from), entry_line(i)),
        catalogue(true, from).len() == "{\"schema_version\":1,\"routes\":["@.len() + passing_objects_len(
            from,
            FERRY_COUNT as int,
        ) + (if passing_count(from, FERRY_COUNT as int) > 0 {
            passing_count(from, FERRY_COUNT as int) - 1
        } else {
            0
        }) + "]}\n"@.len(),
        catalogue(false, from).len() == "Island Time ferry routes (fictional timetable)\n"@.len()
            + "from -> to | first departure | every minutes | travel minutes\n"@.len()
            + passing_lines_len(from, FERRY_COUNT as int),
{
    let n = FERRY_COUNT as int;
    lemma_json_entries(from, n);
    lemma_table_entries(from, n);
    let open_json = "{\"schema_version\":1,\"routes\":["@;
    let close_json = "]}\n"@;
    let title = "Island Time ferry routes (fictional timetable)\n"@;
    let columns = "from -> to | first departure | every minutes | travel minutes\n"@;
    assert(catalogue(true, from) == open_json + ferries_json(from, n) + close_json);
    assert(catalogue(false, from) =~= title + columns + ferry_lines(from, n) + Seq::<char>::empty());
    assert forall|i: int| #![trigger spec_ferry(i)]
        0 <= i < FERRY_COUNT && passes(from, i) implies occurs(catalogue(true, from), entry_object(i))
            && occurs(catalogue(false, from), entry_line(i)) by {
        lemma_occurs_within(open_json, ferries_json(from, n), close_json, entry_object(i));
        lemma_occurs_within(title + columns, ferry_lines(from, n), Seq::empty(), entry_line(i));
    }
}

/// The decimal form of `n` is a run of ASCII digits whose value is `n`,
/// starting with a non-zero digit unless `n` is zero.
proof fn lemma_decimal_digits(n: nat)
    ensures
        all_digits(decimal(n)),
        digits_value(decimal(n)) == n,
        decimal(n)[0] != '0' || n == 0,
        decimal(n)[0] != '+',
    decreases n,
{
    if n >= 10 {
        lemma_decimal_digits(n / 10);
        let d = decimal(n);
        assert(d.drop_last() =~= decimal(n / 10));
        assert(d[0] == decimal(n / 10)[0]);
        assert((d.last() as u32) == ('0' as u32) + n % 10);
        assert(digits_value(d) == digits_value(decimal(n / 10)) * 10 + n % 10);
        assert forall|i: int| 0 <= i < d.len() implies is_digit(#[trigger] d[i]) by {
            if i < d.len() - 1 {
                assert(d[i] == decimal(n / 10)[i]);
            }
        }
    } else {
        assert(decimal(n).drop_last() =~= Seq::<char>::empty());
        assert((decimal(n).last() as u32) == ('0' as u32) + n);
        assert(digits_value(Seq::<char>::empty()) == 0);
    }
}

/// Every number the planner prints reads back as itself: the decimal form
/// of a 32-bit value is accepted by the numeric reader and gives that value,
/// and it has no leading zero.
pub proof fn law_decimal_reads_back(n: nat)
    requires
        n <= u32::MAX,
    ensures
        u32_text(decimal(n)) == Some(n),
        decimal(n)[0] != '0' || decimal(n).len() == 1,
{
    lemma_decimal_digits(n);
    assert(unsigned_body(decimal(n)) == decimal(n));
}


/// The message for a traveller already on the destination opens with the
/// island's name and gives the minute, after `at minute` when planning from
/// a start minute and after `by minute` when planning to a deadline, on a
/// line of its own.
pub proof fn law_already_there_names_island_and_minute(island: int, minute: int, by_deadline: bool)
    ensures
        starts_with(already_there(island, minute, by_deadline), "already at "@ + spec_island_name(island)),
        occurs(
            already_there(island, minute, by_deadline),
            (if by_deadline {
                " by minute "@
            } else {
                " at minute "@
            }) + decimal(minute as nat) + "\n"@,
        ),
{
    let head = "already at "@ + spec_island_name(island);
    let tail = (if by_deadline {
        " by minute "@
    } else {
        " at minute "@
    }) + decimal(minute as nat) + "\n"@;
    let text = already_there(island, minute, by_deadline);
    assert(text =~= head + tail);
    assert(text.subrange(0, head.len() as int) =~= head);
    lemma_occurs_in(head, tail, Seq::empty());
    assert(head + tail + Seq::<char>::empty() =~= text);
}

} // verus!
