use island_time::deadline::{latest_route, latest_route_limited, latest_route_limited_via};
use island_time::names::parse_clock;
use island_time::planner::{no_avoided_routes, route, route_limited, route_limited_via};
use island_time::timetable::{depart, ferry};

#[test]
fn departure_boundary_and_missed_boat() {
    let f = ferry(0);
    assert_eq!(depart(0, f), Some(0));
    assert_eq!(depart(1, f), Some(30));
    assert_eq!(depart(30, f), Some(30));
}

#[test]
fn route_waits_for_missed_boat() {
    let (arrival, legs) = route(0, 1, 1, &[false; 6], 0).unwrap();
    assert_eq!(arrival, 50);
    assert_eq!(legs[0].2, 30);
}

#[test]
fn same_origin_is_empty() {
    assert_eq!(route(2, 2, 100, &[false; 6], 0).unwrap().0, 100);
}

#[test]
fn bounds_reject_overflow_schedule() {
    assert_eq!(depart(1441, ferry(0)), None);
}

#[test]
fn unreachable_and_cutoff_are_rejected() {
    assert!(route(5, 0, 0, &[false; 6], 0).is_none());
    assert!(route(0, 5, 1400, &[false; 6], 0).is_none());
}

#[test]
fn multi_leg_path_is_found() {
    let (arrival, legs) = route(0, 4, 0, &[false; 6], 0).unwrap();
    assert_eq!(arrival, 170);
    assert_eq!(legs.len(), 4);
}

#[test]
fn avoid_and_transfer_change_route() {
    let mut avoid = [false; 6];
    avoid[1] = true;
    assert_eq!(route(0, 5, 0, &avoid, 0).unwrap().1.len(), 1);
    assert_eq!(route(0, 5, 0, &[false; 6], 10).unwrap().0, 100);
    let mut endpoint = [false; 6];
    endpoint[5] = true;
    assert!(route(0, 5, 0, &endpoint, 0).is_none());
}

#[test]
fn latest_departure_meets_deadline() {
    let (departure, arrival, legs) = latest_route(0, 1, 60, &[false; 6], 0).unwrap();
    assert_eq!((departure, arrival, legs[0].2), (30, 50, 30));
    assert!(latest_route(0, 1, 19, &[false; 6], 0).is_none());
    assert_eq!(parse_clock("24:00"), Some(1440));
    assert_eq!(parse_clock("24:01"), None);
}

#[test]
fn leg_limits_apply_to_earliest_and_latest_routes() {
    assert!(route_limited(0, 4, 0, &[false; 6], 0, 3).is_none());
    assert!(route_limited(0, 4, 0, &[false; 6], 0, 4).is_some());
    assert!(latest_route_limited(0, 4, 200, &[false; 6], 0, 3).is_none());
    assert!(latest_route_limited(0, 4, 200, &[false; 6], 0, 4).is_some());
}

#[test]
fn via_shares_route_state_and_leg_budget() {
    let forced = route_limited_via(0, 5, 0, &[false; 6], 0, 8, Some(1), &no_avoided_routes()).unwrap();
    assert!(forced.1.iter().any(|leg| leg.1 == 1));
    assert!(route_limited_via(0, 5, 0, &[false; 6], 0, 2, Some(1), &no_avoided_routes()).is_none());
    assert!(latest_route_limited_via(0, 5, 300, &[false; 6], 0, 8, Some(1), &no_avoided_routes()).is_some());
}

#[test]
fn via_origin_destination_and_avoidance() {
    let via_origin = route_limited_via(0, 5, 0, &[false; 6], 0, 1, Some(0), &no_avoided_routes()).unwrap();
    let via_destination = route_limited_via(0, 5, 0, &[false; 6], 0, 1, Some(5), &no_avoided_routes()).unwrap();
    assert_eq!(via_origin.0, 100);
    assert_eq!(via_destination.0, 100);
    let mut avoid = [false; 6];
    avoid[1] = true;
    assert!(route_limited_via(0, 5, 0, &avoid, 0, 8, Some(1), &no_avoided_routes()).is_none());
}
