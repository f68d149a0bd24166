use island_time::deadline::{latest_route, latest_route_limited_via, latest_route_within};
use island_time::names::{island, parse_clock, parse_hop, parse_u32_text, HopError};
use island_time::planner::{
    no_avoided_routes, route, route_limited, route_limited_via, route_limited_via_within,
};
use island_time::render::{
    already_there_text, decimal_string, itinerary_text, json_route, list_islands, list_routes, svg_map,
};
use island_time::timetable::{depart, ferry, island_name, FERRY_COUNT};

#[test]
fn depart_takes_first_scheduled_boat() {
    assert_eq!(depart(0, ferry(1)), Some(10));
    assert_eq!(depart(10, ferry(1)), Some(10));
    assert_eq!(depart(11, ferry(1)), Some(40));
    assert_eq!(depart(21, ferry(6)), Some(110));
    assert_eq!(depart(1400, ferry(5)), Some(1400));
    assert_eq!(depart(1401, ferry(5)), None);
    assert_eq!(depart(u32::MAX, ferry(0)), None);
}

#[test]
fn earliest_route_legs_take_first_boats() {
    let (arrival, legs) = route(0, 4, 0, &[false; 6], 0).unwrap();
    assert_eq!(arrival, 170);
    assert_eq!(legs, vec![(0, 1, 0, 20), (1, 2, 45, 70), (2, 3, 120, 150), (3, 4, 150, 170)]);
    let mut ready = 0;
    for (k, leg) in legs.iter().enumerate() {
        let f = (0..FERRY_COUNT).map(ferry).find(|f| f.from == leg.0 && f.to == leg.1).unwrap();
        assert_eq!(depart(ready, f), Some(leg.2));
        assert_eq!(leg.3, leg.2 + f.travel);
        ready = leg.3;
        let _ = k;
    }
}

#[test]
fn longer_transfer_never_arrives_earlier() {
    let plain = route(0, 4, 0, &[false; 6], 0).unwrap().0;
    let buffered = route(0, 4, 0, &[false; 6], 30).unwrap().0;
    assert_eq!(buffered, 260);
    assert!(plain <= buffered);
}

#[test]
fn later_start_never_arrives_earlier() {
    let mut previous = 0;
    for at in 0..300 {
        let arrival = route(0, 4, at, &[false; 6], 0).unwrap().0;
        assert!(arrival >= previous);
        assert!(arrival >= at);
        previous = arrival;
    }
}

#[test]
fn leg_budget_keeps_fitting_journeys() {
    let full = route(0, 4, 0, &[false; 6], 0).unwrap();
    let four = route_limited(0, 4, 0, &[false; 6], 0, 4).unwrap();
    assert_eq!(full, four);
    let via = route_limited_via(0, 5, 0, &[false; 6], 0, 8, Some(1), &no_avoided_routes()).unwrap();
    assert_eq!(via.0, 190);
    assert_eq!(via.1.len(), 3);
    assert_eq!(
        route_limited_via(0, 5, 0, &[false; 6], 0, 3, Some(1), &no_avoided_routes()).unwrap().0,
        190
    );
}

#[test]
fn waypoint_at_an_endpoint_changes_nothing() {
    let plain = route_limited_via(0, 4, 0, &[false; 6], 0, 8, None, &no_avoided_routes());
    let at_start = route_limited_via(0, 4, 0, &[false; 6], 0, 8, Some(0), &no_avoided_routes());
    let at_end = route_limited_via(0, 4, 0, &[false; 6], 0, 8, Some(4), &no_avoided_routes());
    assert_eq!(plain, at_start);
    assert_eq!(plain, at_end);
}

#[test]
fn avoided_endpoint_is_unavailable() {
    let mut avoid = [false; 6];
    avoid[0] = true;
    assert!(route(0, 5, 0, &avoid, 0).is_none());
    assert!(route(0, 0, 0, &avoid, 0).is_none());
    assert!(latest_route(0, 5, 1440, &avoid, 0).is_none());
}

#[test]
fn closed_hop_is_detoured_and_reverse_is_independent() {
    let mut closed = no_avoided_routes();
    closed[0][5] = true;
    let detour = route_limited_via(0, 5, 0, &[false; 6], 0, 8, None, &closed).unwrap();
    assert_eq!(detour.0, 235);
    assert_eq!(detour.1.len(), 5);
    let mut reverse = no_avoided_routes();
    reverse[5][0] = true;
    assert_eq!(route_limited_via(0, 5, 0, &[false; 6], 0, 8, None, &reverse).unwrap().0, 100);
}

#[test]
fn already_there_is_answered_at_once() {
    assert_eq!(route(3, 3, 77, &[false; 6], 0), Some((77, vec![])));
    assert_eq!(route_limited(3, 3, 77, &[false; 6], 0, 0), None);
    assert_eq!(route(3, 3, u32::MAX, &[false; 6], 0), None);
    assert_eq!(route(3, 3, 2000, &[false; 6], 0), Some((2000, vec![])));
}

#[test]
fn deadline_is_feasible_from_every_earlier_start() {
    let (departure, arrival, legs) = latest_route(0, 4, 300, &[false; 6], 0).unwrap();
    assert!(arrival <= 300);
    assert_eq!(route(0, 4, departure, &[false; 6], 0), Some((arrival, legs)));
    for d in 0..=departure {
        assert!(route(0, 4, d, &[false; 6], 0).unwrap().0 <= 300);
    }
    for d in departure + 1..=300 {
        assert!(route(0, 4, d, &[false; 6], 0).map_or(true, |(a, _)| a > 300));
    }
}

#[test]
fn deadline_with_duration_limit() {
    let r = latest_route_within(0, 1, 60, &[false; 6], 0, 8, None, &no_avoided_routes(), 20).unwrap();
    assert_eq!((r.0, r.1), (30, 50));
    assert!(latest_route_within(0, 1, 60, &[false; 6], 0, 8, None, &no_avoided_routes(), 19).is_none());
    let closed_back = {
        let mut c = no_avoided_routes();
        c[0][1] = true;
        c
    };
    assert!(latest_route_limited_via(0, 1, 1440, &[false; 6], 0, 8, None, &closed_back).is_none());
}

#[test]
fn island_names_ignore_ascii_case() {
    assert_eq!(island("aSTER"), Some(0));
    assert_eq!(island("fenn"), Some(5));
    assert_eq!(island("Fen"), None);
    assert_eq!(island("fenn "), None);
    assert_eq!(island(""), None);
    assert_eq!(island_name(2), "Cove");
}

#[test]
fn clock_times_are_read_exactly() {
    assert_eq!(parse_clock("07:05"), Some(425));
    assert_eq!(parse_clock("7:5"), Some(425));
    assert_eq!(parse_clock("+1:+2"), Some(62));
    assert_eq!(parse_clock("00:00"), Some(0));
    assert_eq!(parse_clock("1:2:3"), None);
    assert_eq!(parse_clock("12"), None);
    assert_eq!(parse_clock("-1:00"), None);
    assert_eq!(parse_clock("99999999999:00"), None);
    assert_eq!(parse_clock(":30"), None);
    assert_eq!(parse_clock("10:60"), None);
    assert_eq!(parse_clock("25:00"), None);
}

#[test]
fn unsigned_numbers_are_read_exactly() {
    assert_eq!(parse_u32_text("4294967295"), Some(u32::MAX));
    assert_eq!(parse_u32_text("4294967296"), None);
    assert_eq!(parse_u32_text("+"), None);
    assert_eq!(parse_u32_text(""), None);
    assert_eq!(parse_u32_text("00012"), Some(12));
    assert_eq!(parse_u32_text("1x"), None);
}

#[test]
fn hops_are_read_with_their_errors() {
    assert_eq!(parse_hop("aster:FENN"), Ok((0, 5)));
    assert_eq!(parse_hop("Aster"), Err(HopError::MissingColon));
    assert_eq!(parse_hop("Aster:Nowhere"), Err(HopError::UnknownIsland));
    assert_eq!(parse_hop("Aster:Fenn:Cove"), Err(HopError::UnknownIsland));
}

#[test]
fn journey_json_is_exact() {
    let (arrival, legs) = route(0, 4, 0, &[false; 6], 0).unwrap();
    assert_eq!(
        json_route(0, 4, 0, arrival, &legs, 8, &[false; 6], 0, None),
        "{\"schema_version\":1,\"from\":\"Aster\",\"to\":\"Ember\",\"via\":null,\"departure\":0,\"arrival\":170,\"max_legs\":8,\"min_transfer\":0,\"avoid\":[],\"legs\":[{\"from\":\"Aster\",\"to\":\"Bramble\",\"depart\":0,\"arrive\":20,\"wait\":0},{\"from\":\"Bramble\",\"to\":\"Cove\",\"depart\":45,\"arrive\":70,\"wait\":25},{\"from\":\"Cove\",\"to\":\"Drift\",\"depart\":120,\"arrive\":150,\"wait\":50},{\"from\":\"Drift\",\"to\":\"Ember\",\"depart\":150,\"arrive\":170,\"wait\":0}]}"
    );
    let mut avoid = [false; 6];
    avoid[1] = true;
    avoid[3] = true;
    assert_eq!(
        json_route(2, 2, 100, 100, &[], 8, &avoid, 10, Some(2)),
        "{\"schema_version\":1,\"from\":\"Cove\",\"to\":\"Cove\",\"via\":\"Cove\",\"departure\":100,\"arrival\":100,\"max_legs\":8,\"min_transfer\":10,\"avoid\":[\"Bramble\",\"Drift\"],\"legs\":[]}"
    );
    assert!(json_route(0, 1, 50, 20, &[(0, 1, 10, 20)], 1, &[false; 6], 0, None).contains("\"wait\":0"));
}

#[test]
fn catalogues_are_exact() {
    assert_eq!(
        list_routes(false, Some(2)),
        "Island Time ferry routes (fictional timetable)\nfrom -> to | first departure | every minutes | travel minutes\nCove -> Drift | 0 | 60 | 30\nCove -> Aster | 30 | 75 | 45\n"
    );
    assert_eq!(list_routes(true, Some(5)), "{\"schema_version\":1,\"routes\":[]}\n");
    let all = list_routes(true, None);
    assert!(all.starts_with("{\"schema_version\":1,\"routes\":[{\"from\":\"Aster\",\"to\":\"Bramble\",\"first\":0,\"every\":30,\"travel\":20},"));
    assert_eq!(all.matches("\"from\"").count(), 8);
    assert_eq!(list_routes(false, None).lines().count(), 10);
    assert_eq!(
        list_islands(true),
        "{\"schema_version\":1,\"islands\":[\"Aster\",\"Bramble\",\"Cove\",\"Drift\",\"Ember\",\"Fenn\"]}\n"
    );
    assert_eq!(list_islands(false), "Aster\nBramble\nCove\nDrift\nEmber\nFenn\n");
}

#[test]
fn itinerary_text_is_exact() {
    let (arrival, legs) = route(0, 1, 1, &[false; 6], 0).unwrap();
    assert_eq!(
        itinerary_text(0, 1, 1, arrival, &legs),
        "route Aster -> Bramble (departed at 1, arrive at 50)\n  Aster -> Bramble: depart 30, arrive 50\n"
    );
    assert_eq!(already_there_text(3, 77, false), "already at Drift at minute 77\n");
    assert_eq!(already_there_text(3, 120, true), "already at Drift by minute 120\n");
}

#[test]
fn decimals_are_exact() {
    assert_eq!(decimal_string(0), "0");
    assert_eq!(decimal_string(1440), "1440");
    assert_eq!(decimal_string(u64::MAX), "18446744073709551615");
}

#[test]
fn equally_early_journeys_resolve_to_fewest_legs() {
    assert_eq!(
        route(0, 4, 0, &[false; 6], 0),
        Some((170, vec![(0, 1, 0, 20), (1, 2, 45, 70), (2, 3, 120, 150), (3, 4, 150, 170)]))
    );
    let mut closed = no_avoided_routes();
    closed[0][5] = true;
    assert_eq!(
        route_limited_via(0, 5, 0, &[false; 6], 0, 8, None, &closed),
        Some((235, vec![(0, 1, 0, 20), (1, 2, 45, 70), (2, 3, 120, 150), (3, 4, 150, 170), (4, 5, 200, 235)]))
    );
    let mut reverse = no_avoided_routes();
    reverse[1][0] = true;
    assert_eq!(
        route_limited_via(0, 1, 0, &[false; 6], 0, 8, None, &reverse),
        Some((20, vec![(0, 1, 0, 20)]))
    );
}

#[test]
fn deadline_legs_are_the_earliest_answer_from_the_chosen_start() {
    for deadline in [60, 200, 300, 700, 1440] {
        for via in [None, Some(1), Some(2)] {
            if let Some((departure, arrival, legs)) =
                latest_route_limited_via(0, 5, deadline, &[false; 6], 0, 8, via, &no_avoided_routes())
            {
                assert_eq!(
                    route_limited_via(0, 5, departure, &[false; 6], 0, 8, via, &no_avoided_routes()),
                    Some((arrival, legs))
                );
            }
        }
    }
}

#[test]
fn duration_limit_on_earliest_answer() {
    let full = route_limited_via(0, 4, 0, &[false; 6], 0, 8, None, &no_avoided_routes());
    assert_eq!(route_limited_via_within(0, 4, 0, &[false; 6], 0, 8, None, &no_avoided_routes(), 170), full);
    assert_eq!(route_limited_via_within(0, 4, 0, &[false; 6], 0, 8, None, &no_avoided_routes(), 169), None);
    assert_eq!(
        route_limited_via_within(3, 3, 50, &[false; 6], 0, 8, None, &no_avoided_routes(), 0),
        Some((50, vec![]))
    );
}

#[test]
fn every_clock_minute_reads_back() {
    for h in 0..=24u32 {
        for m in 0..60u32 {
            if h == 24 && m > 0 {
                continue;
            }
            assert_eq!(parse_clock(&format!("{:02}:{:02}", h, m)), Some(h * 60 + m));
        }
    }
}

#[test]
fn svg_map_has_structure() {
    let (arrival, legs) = route(0, 4, 0, &[false; 6], 0).unwrap();
    let ends: Vec<(String, String)> = legs.iter().map(|_| ("1.00".to_string(), "2.00".to_string())).collect();
    let mut avoid = [false; 6];
    avoid[5] = true;
    let svg = svg_map(0, 4, 0, arrival, &legs, &avoid, 0, &ends);
    assert!(svg.contains("<svg") && svg.contains("<title>") && svg.matches("leg ").count() == 4 && svg.contains("wait"));
    assert!(svg.starts_with("<svg xmlns=\"http://www.w3.org/2000/svg\" width=\"760\" height=\"544\" viewBox=\"0 0 760 544\">"));
    assert!(svg.contains("<line x1=\"100\" y1=\"100\" x2=\"1.00\" y2=\"2.00\" stroke=\"#d65\" stroke-width=\"4\" marker-end=\"url(#arrow)\"/><text x=\"180\" y=\"90\">1</text>"));
    assert!(svg.contains("<circle class=\"avoid\" cx=\"100\" cy=\"300\" r=\"28\"/><text x=\"100\" y=\"305\" text-anchor=\"middle\">Fenn</text>"));
    assert!(svg.contains("<circle class=\"island\" cx=\"100\" cy=\"100\" r=\"28\"/>"));
    assert!(svg.contains("<text x=\"24\" y=\"380\">Aster -&gt; Ember | depart 0 | total arrival 170 | transfer buffer 0 min</text>"));
    assert!(svg.contains("<text x=\"24\" y=\"432\">leg 2: Bramble -&gt; Cove | depart 45 | arrive 70 | wait 25 min</text>"));
    assert!(svg.ends_with("<text x=\"24\" y=\"510\">Retrospective fictional artwork · September 2026</text></svg>"));
    let empty = svg_map(2, 2, 100, 100, &[], &[false; 6], 0, &[]);
    assert!(empty.contains("height=\"440\"") && empty.matches("leg ").count() == 0);
}
