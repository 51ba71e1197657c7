use std::collections::HashMap;

use heatmapping::culling::get_culled_connections;
use heatmapping::dijkstra::initialize_dijkstra;
use heatmapping::loading::{add_stop_time, add_transfer, add_walk_transfers, LoadError};
use heatmapping::min_queue::MinQueue;
use heatmapping::search::earliest_arrivals;
use heatmapping::structs::{
    service_key, Connection, Date, ServiceExceptionType, StopTime, Timetable, Transfer, Trip,
};
use heatmapping::timetable::{build_connections, sort_stop_times};

const DAY: Date = Date { year: 2026, month: 3, day: 13 };

fn conn(to: u32, service: u32, dep: u32, arr: u32) -> Connection {
    Connection { to_stop_id: to, service_id: service, arrival_time: arr, departure_time: dep }
}

fn visit(stop: u32, arr: u32, dep: u32) -> StopTime {
    StopTime { stop_id: stop, arrival_time: arr, departure_time: dep }
}

/// Service 7 runs on the day, service 8 is removed; stop 1 has a ride to 2,
/// one that leaves too early (to 3) and one of the removed service (to 4);
/// stop 2 has a ride to 5 and a walk to 6.
fn small_timetable() -> Timetable {
    let mut services = HashMap::new();
    services.insert(service_key(7, DAY), ServiceExceptionType::ServiceAdded);
    services.insert(service_key(8, DAY), ServiceExceptionType::ServiceRemoved);
    let mut connections = HashMap::new();
    connections.insert(
        1,
        vec![conn(2, 7, 32500, 33000), conn(3, 7, 32000, 32100), conn(4, 8, 32600, 32700)],
    );
    connections.insert(2, vec![conn(5, 7, 33100, 34000)]);
    let mut transfers = HashMap::new();
    transfers.insert(2, vec![Transfer { to_stop_id: 6, min_transfer_time: 120 }]);
    Timetable {
        routes: HashMap::new(),
        trips: HashMap::new(),
        services,
        transfers,
        connections,
    }
}

#[test]
fn min_queue_pops_smallest_first() {
    let mut q = MinQueue::new();
    assert!(q.is_empty());
    q.push((5, 1));
    q.push((3, 2));
    q.push((3, 1));
    q.push((9, 0));
    q.push((3, 1));
    assert_eq!(q.len(), 5);
    assert_eq!(q.pop(), Some((3, 1)));
    assert_eq!(q.pop(), Some((3, 1)));
    assert_eq!(q.pop(), Some((3, 2)));
    assert_eq!(q.pop(), Some((5, 1)));
    assert_eq!(q.pop(), Some((9, 0)));
    assert_eq!(q.pop(), None);
    assert!(q.is_empty());
}

#[test]
fn culling_keeps_rides_in_time_and_in_service() {
    let tt = small_timetable();
    let culled = get_culled_connections(32400, 33500, &tt.connections, &tt, DAY);
    assert_eq!(culled.len(), 1);
    assert_eq!(culled[&1], vec![conn(2, 7, 32500, 33000)]);
    let all = get_culled_connections(32400, u32::MAX, &tt.connections, &tt, DAY);
    assert_eq!(all[&1], vec![conn(2, 7, 32500, 33000)]);
    assert_eq!(all[&2], vec![conn(5, 7, 33100, 34000)]);
}

#[test]
fn culling_on_a_day_without_service_keeps_nothing() {
    let tt = small_timetable();
    let other_day = Date { year: 2026, month: 3, day: 14 };
    let culled = get_culled_connections(0, u32::MAX, &tt.connections, &tt, other_day);
    assert!(culled.is_empty());
}

#[test]
fn dijkstra_finds_earliest_arrivals() {
    let tt = small_timetable();
    let walks = vec![(1u32, 60u32)];
    let arrivals = initialize_dijkstra(&tt, 32400, DAY, &walks);
    let mut expected = HashMap::new();
    expected.insert(1, 32460);
    expected.insert(2, 33000);
    expected.insert(5, 34000);
    expected.insert(6, 33120);
    assert_eq!(arrivals, expected);
}

#[test]
fn dijkstra_cannot_board_a_ride_already_gone() {
    let tt = small_timetable();
    // arriving at stop 1 only after the ride to 2 has left
    let walks = vec![(1u32, 200u32)];
    let arrivals = initialize_dijkstra(&tt, 32400, DAY, &walks);
    let mut expected = HashMap::new();
    expected.insert(1, 32600);
    assert_eq!(arrivals, expected);
}

#[test]
fn dijkstra_prefers_the_faster_way() {
    let mut tt = small_timetable();
    // a slow walk from 1 to 2 that beats nothing, and a fast one to 5
    tt.transfers.insert(
        1,
        vec![
            Transfer { to_stop_id: 2, min_transfer_time: 5000 },
            Transfer { to_stop_id: 5, min_transfer_time: 100 },
        ],
    );
    let walks = vec![(1u32, 0u32), (9u32, 10u32)];
    let arrivals = initialize_dijkstra(&tt, 32400, DAY, &walks);
    assert_eq!(arrivals[&1], 32400);
    assert_eq!(arrivals[&9], 32410);
    assert_eq!(arrivals[&2], 33000);
    assert_eq!(arrivals[&5], 32500);
    assert_eq!(arrivals[&6], 33120);
    assert_eq!(arrivals.len(), 5);
}

#[test]
fn dijkstra_without_stops_in_range_reaches_nothing() {
    let tt = small_timetable();
    let arrivals = initialize_dijkstra(&tt, 32400, DAY, &vec![]);
    assert!(arrivals.is_empty());
}

#[test]
fn earliest_arrivals_uses_given_rides() {
    let mut rides = HashMap::new();
    rides.insert(1, vec![conn(2, 0, 100, 150), conn(2, 0, 90, 300)]);
    let transfers = HashMap::new();
    let arrivals = earliest_arrivals(&vec![(1, 95), (3, 7)], &rides, &transfers);
    assert_eq!(arrivals[&1], 95);
    assert_eq!(arrivals[&2], 150);
    assert_eq!(arrivals[&3], 7);
    assert_eq!(arrivals.len(), 3);
}

#[test]
fn stop_times_sort_by_departure_and_stay_stable() {
    let mut visits = vec![visit(3, 300, 310), visit(1, 100, 110), visit(4, 305, 310), visit(2, 200, 210)];
    sort_stop_times(&mut visits);
    assert_eq!(
        visits,
        vec![visit(1, 100, 110), visit(2, 200, 210), visit(3, 300, 310), visit(4, 305, 310)]
    );
}

#[test]
fn connections_link_consecutive_visits() {
    let mut trips = HashMap::new();
    trips.insert(
        10,
        Trip {
            route_id: 1,
            service_id: 7,
            stop_times: vec![visit(2, 200, 210), visit(1, 100, 110), visit(3, 300, 310)],
        },
    );
    trips.insert(
        11,
        Trip { route_id: 1, service_id: 8, stop_times: vec![visit(1, 400, 420), visit(5, 500, 500)] },
    );
    let connections = build_connections(&mut trips);
    assert_eq!(trips[&10].stop_times, vec![visit(1, 100, 110), visit(2, 200, 210), visit(3, 300, 310)]);
    assert_eq!(connections[&2], vec![conn(3, 7, 210, 300)]);
    assert_eq!(connections.len(), 2);
    let mut from_one = connections[&1].clone();
    from_one.sort_by_key(|c| c.departure_time);
    assert_eq!(from_one, vec![conn(2, 7, 110, 200), conn(5, 8, 420, 500)]);
}

#[test]
fn stop_times_join_their_trip() {
    let mut trips = HashMap::new();
    trips.insert(10, Trip { route_id: 1, service_id: 7, stop_times: vec![] });
    assert_eq!(add_stop_time(&mut trips, 10, visit(1, 100, 110)), Ok(()));
    assert_eq!(add_stop_time(&mut trips, 10, visit(2, 200, 210)), Ok(()));
    assert_eq!(trips[&10].stop_times, vec![visit(1, 100, 110), visit(2, 200, 210)]);
    assert_eq!(trips[&10].service_id, 7);
}

#[test]
fn stop_time_of_unknown_trip_is_refused() {
    let mut trips = HashMap::new();
    trips.insert(10, Trip { route_id: 1, service_id: 7, stop_times: vec![] });
    assert_eq!(add_stop_time(&mut trips, 99, visit(1, 100, 110)), Err(LoadError::UnknownTrip));
    assert_eq!(trips.len(), 1);
    assert!(trips[&10].stop_times.is_empty());
}

#[test]
fn transfers_collect_per_stop() {
    let mut transfers = HashMap::new();
    add_transfer(&mut transfers, 1, Transfer { to_stop_id: 2, min_transfer_time: 0 });
    add_transfer(&mut transfers, 1, Transfer { to_stop_id: 3, min_transfer_time: 60 });
    add_transfer(&mut transfers, 4, Transfer { to_stop_id: 1, min_transfer_time: 30 });
    assert_eq!(
        transfers[&1],
        vec![
            Transfer { to_stop_id: 2, min_transfer_time: 0 },
            Transfer { to_stop_id: 3, min_transfer_time: 60 }
        ]
    );
    assert_eq!(transfers[&4], vec![Transfer { to_stop_id: 1, min_transfer_time: 30 }]);
}

#[test]
fn walks_skip_the_stop_itself() {
    let mut transfers = HashMap::new();
    add_transfer(&mut transfers, 1, Transfer { to_stop_id: 7, min_transfer_time: 180 });
    add_walk_transfers(&mut transfers, 1, &vec![(1, 0), (2, 30), (3, 45)]);
    assert_eq!(
        transfers[&1],
        vec![
            Transfer { to_stop_id: 7, min_transfer_time: 180 },
            Transfer { to_stop_id: 2, min_transfer_time: 30 },
            Transfer { to_stop_id: 3, min_transfer_time: 45 }
        ]
    );
    add_walk_transfers(&mut transfers, 5, &vec![(5, 0)]);
    assert!(!transfers.contains_key(&5));
}

#[test]
fn arrivals_never_precede_departure() {
    let tt = small_timetable();
    for depart in [0u32, 32000, 32400, 33050, 40000] {
        let arrivals = initialize_dijkstra(&tt, depart, DAY, &vec![(1, 30), (2, 0)]);
        assert!(!arrivals.is_empty());
        for (_, t) in arrivals {
            assert!(t >= depart);
        }
    }
}
