use std::collections::HashMap;

use heatmapping::feed::{load_feed, load_routes, Column, FeedError, FeedFile};
use heatmapping::structs::{
    service_key, Date, RouteType, ServiceExceptionType, StopTime, Timetable, Transfer,
};

const STOPS: &str = "stop_id,stop_name,stop_lat,stop_lon\n1001,A,55.6,12.5\nstoparea:1002,B,55.7,12.6\n";
const ROUTES: &str = "route_id,route_short_name,route_type\n31,1,3\n32,2,700\n";
const TRIPS: &str = "route_id,service_id,trip_id\n31,7,100\n";
const STOP_TIMES: &str = "trip_id,arrival_time,departure_time,stop_id,stop_sequence\n\
100,09:00:00,09:01:00,1001,1\n100,09:10:00,09:11:00,stoparea:1002,2\n";
const CALENDAR: &str = "service_id,date,exception_type\n7,20260313,1\n7,20260314,x\n";
const TRANSFERS: &str = "from_stop_id,to_stop_id,transfer_type,min_transfer_time\n1001,1002,2,120\n1002,stoparea:1001,2,\n";

fn empty_timetable() -> Timetable {
    Timetable {
        routes: HashMap::new(),
        trips: HashMap::new(),
        services: HashMap::new(),
        transfers: HashMap::new(),
        connections: HashMap::new(),
    }
}

fn load(files: [&str; 6], tt: &mut Timetable) -> Result<Vec<(u32, String, String)>, FeedError> {
    load_feed(
        files[0].as_bytes(),
        files[1].as_bytes(),
        files[2].as_bytes(),
        files[3].as_bytes(),
        files[4].as_bytes(),
        files[5].as_bytes(),
        tt,
    )
}

#[test]
fn feed_fills_the_timetable() {
    let mut tt = empty_timetable();
    let stops = load([STOPS, ROUTES, TRIPS, STOP_TIMES, CALENDAR, TRANSFERS], &mut tt).unwrap();
    assert_eq!(
        stops,
        vec![
            (1001, "55.6".to_string(), "12.5".to_string()),
            (1002, "55.7".to_string(), "12.6".to_string()),
        ]
    );
    assert_eq!(tt.routes.len(), 2);
    assert_eq!(tt.routes[&31].route_type, RouteType::BUS);
    assert_eq!(tt.routes[&32].route_type, RouteType::BUS);
    assert_eq!(tt.trips.len(), 1);
    let trip = &tt.trips[&100];
    assert_eq!(trip.route_id, 31);
    assert_eq!(trip.service_id, 7);
    assert_eq!(
        trip.stop_times,
        vec![
            StopTime { stop_id: 1001, arrival_time: 32400, departure_time: 32460 },
            StopTime { stop_id: 1002, arrival_time: 33000, departure_time: 33060 },
        ]
    );
    let d13 = Date { year: 2026, month: 3, day: 13 };
    let d14 = Date { year: 2026, month: 3, day: 14 };
    assert_eq!(tt.services[&service_key(7, d13)], ServiceExceptionType::ServiceAdded);
    assert_eq!(tt.services[&service_key(7, d14)], ServiceExceptionType::ServiceRemoved);
    assert_eq!(tt.transfers[&1001], vec![Transfer { to_stop_id: 1002, min_transfer_time: 120 }]);
    assert_eq!(tt.transfers[&1002], vec![Transfer { to_stop_id: 1001, min_transfer_time: 0 }]);
    assert!(tt.connections.is_empty());
}

#[test]
fn missing_column_is_reported() {
    let mut tt = empty_timetable();
    let stops = "stop_id,stop_lon\n1001,12.5\n";
    assert_eq!(
        load([stops, ROUTES, TRIPS, STOP_TIMES, CALENDAR, TRANSFERS], &mut tt),
        Err(FeedError::MissingColumn(Column::StopLat))
    );
    assert!(tt.routes.is_empty());
}

#[test]
fn empty_file_has_no_missing_column() {
    let mut tt = empty_timetable();
    let routes = "route_id\n";
    assert!(load([STOPS, routes, TRIPS, STOP_TIMES, CALENDAR, TRANSFERS], &mut tt).is_ok());
    assert!(tt.routes.is_empty());
}

#[test]
fn invalid_number_is_reported() {
    let mut tt = empty_timetable();
    let routes = "route_id,route_type\n31,3\n32,bus\n33,1\n";
    assert_eq!(
        load([STOPS, routes, TRIPS, STOP_TIMES, CALENDAR, TRANSFERS], &mut tt),
        Err(FeedError::InvalidNumber(Column::RouteType))
    );
    // the records before the failing one are taken in
    assert_eq!(tt.routes.len(), 1);
    assert!(tt.routes.contains_key(&31));
}

#[test]
fn stop_time_of_unknown_trip_fails_the_feed() {
    let mut tt = empty_timetable();
    let stop_times = "trip_id,arrival_time,departure_time,stop_id,stop_sequence\n999,09:00:00,09:01:00,1001,1\n100,09:00\n";
    assert_eq!(
        load([STOPS, ROUTES, TRIPS, stop_times, CALENDAR, TRANSFERS], &mut tt),
        Err(FeedError::UnknownTrip)
    );
}

#[test]
fn clock_time_without_three_parts_is_refused() {
    let mut tt = empty_timetable();
    let stop_times = "trip_id,arrival_time,departure_time,stop_id,stop_sequence\n100,09:00,09:01:00,1001,1\n";
    assert_eq!(
        load([STOPS, ROUTES, TRIPS, stop_times, CALENDAR, TRANSFERS], &mut tt),
        Err(FeedError::UnreadableClockTime(Column::ArrivalTime))
    );
    let too_late = "trip_id,arrival_time,departure_time,stop_id,stop_sequence\n100,09:00:00,4294967:00:00,1001,1\n";
    let mut tt = empty_timetable();
    assert_eq!(
        load([STOPS, ROUTES, TRIPS, too_late, CALENDAR, TRANSFERS], &mut tt),
        Err(FeedError::UnreadableClockTime(Column::DepartureTime))
    );
}

#[test]
fn short_date_is_refused() {
    let mut tt = empty_timetable();
    let calendar = "service_id,date,exception_type\n7,2026031,1\n";
    assert_eq!(
        load([STOPS, ROUTES, TRIPS, STOP_TIMES, calendar, TRANSFERS], &mut tt),
        Err(FeedError::UncuttableDate)
    );
    let calendar = "service_id,date,exception_type\n7,2026ab13,1\n";
    let mut tt = empty_timetable();
    assert_eq!(
        load([STOPS, ROUTES, TRIPS, STOP_TIMES, calendar, TRANSFERS], &mut tt),
        Err(FeedError::InvalidNumber(Column::Date))
    );
}

#[test]
fn ragged_csv_is_unreadable() {
    let mut tt = empty_timetable();
    let trips = "route_id,service_id,trip_id\n31,7,100\n31,7\n31,7,101\n";
    assert_eq!(
        load([STOPS, ROUTES, trips, STOP_TIMES, CALENDAR, TRANSFERS], &mut tt),
        Err(FeedError::Unreadable(FeedFile::Trips))
    );
    // the records before the unreadable one are taken in
    assert!(tt.trips.contains_key(&100));
    assert!(!tt.trips.contains_key(&101));
}

#[test]
fn non_numeric_stop_id_is_refused() {
    let mut tt = empty_timetable();
    let stops = "stop_id,stop_lat,stop_lon\nstoparea:north,55.6,12.5\n";
    assert_eq!(
        load([stops, ROUTES, TRIPS, STOP_TIMES, CALENDAR, TRANSFERS], &mut tt),
        Err(FeedError::InvalidNumber(Column::StopId))
    );
}

#[test]
fn transfer_without_target_leaves_an_empty_list() {
    let mut tt = empty_timetable();
    let transfers = "from_stop_id,min_transfer_time\n1001,60\n";
    assert_eq!(
        load([STOPS, ROUTES, TRIPS, STOP_TIMES, CALENDAR, transfers], &mut tt),
        Err(FeedError::MissingColumn(Column::ToStopId))
    );
    assert_eq!(tt.transfers[&1001], Vec::<Transfer>::new());
}

#[test]
fn repeated_header_uses_the_last_column() {
    let header = vec!["route_id".to_string(), "route_type".to_string(), "route_type".to_string()];
    let rows = vec![vec!["31".to_string(), "bad".to_string(), "1".to_string()]];
    let mut routes = HashMap::new();
    assert_eq!(load_routes(&header, &rows, &mut routes), Ok(()));
    assert_eq!(routes[&31].route_type, RouteType::SUBWAY);
}
