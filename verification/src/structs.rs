//! The plain data structures shared by the timetable, the search and the
//! renderer preparation.

use std::collections::HashMap;
use vstd::prelude::*;

verus! {

/// Transit type (`route_type` in routes.txt).
///
///  - 0 : Tram, Streetcar, Light rail.
///  - 1 : Subway, Metro.
///  - 2 : Rail.
///  - 3 : Bus.
///  - 4 : Ferry.
///  - 5 : Cable tram.
///  - 6 : Aerial lift, suspended cable car.
///  - 7 : Funicular.
///  - 11: Trolleybus.
///  - 12: Monorail.
#[derive(Clone, Copy, Debug, PartialEq, Eq, Structural)]
pub enum RouteType {
    TRAM,
    SUBWAY,
    RAIL,
    BUS,
    FERRY,
    CABLETRAM,
    AERIALLIFT,
    FUNICULAR,
    TROLLEYBUS,
    MONORAIL,
}

/// The route type that a `route_type` code stands for; unknown codes are
/// read as buses.
pub open spec fn route_type_of(code: u32) -> RouteType {
    if code == 0 {
        RouteType::TRAM
    } else if code == 1 {
        RouteType::SUBWAY
    } else if code == 2 {
        RouteType::RAIL
    } else if code == 3 {
        RouteType::BUS
    } else if code == 4 {
        RouteType::FERRY
    } else if code == 5 {
        RouteType::CABLETRAM
    } else if code == 6 {
        RouteType::AERIALLIFT
    } else if code == 7 {
        RouteType::FUNICULAR
    } else if code == 11 {
        RouteType::TROLLEYBUS
    } else if code == 12 {
        RouteType::MONORAIL
    } else {
        RouteType::BUS
    }
}

impl RouteType {
    /// converts route_type integer to RouteType enum
    pub fn parse_route_type(route_type: u32) -> (r: RouteType)
        ensures
            r == route_type_of(route_type),
    {
        match route_type {
            0 => RouteType::TRAM,
            1 => RouteType::SUBWAY,
            2 => RouteType::RAIL,
            3 => RouteType::BUS,
            4 => RouteType::FERRY,
            5 => RouteType::CABLETRAM,
            6 => RouteType::AERIALLIFT,
            7 => RouteType::FUNICULAR,
            11 => RouteType::TROLLEYBUS,
            12 => RouteType::MONORAIL,
            _ => RouteType::BUS,
        }
    }
}


/// A route of the network.
pub struct Route {
    pub route_type: RouteType,
}

/// A trip of a route: the ordered visits of one vehicle.
pub struct Trip {
    pub route_id: u32,
    pub service_id: u32,
    pub stop_times: Vec<StopTime>,
}

/// One visit of a trip at a stop.
#[derive(Clone, Copy, Debug, PartialEq, Eq, Structural)]
pub struct StopTime {
    pub stop_id: u32,
    /// seconds since midnight (note, can sometimes be greater than 24 hours worth)
    pub arrival_time: u32,
    /// seconds since midnight (note, can sometimes be greater than 24 hours worth)
    pub departure_time: u32,
}

/// A calendar date.
#[derive(Clone, Copy, Debug, PartialEq, Eq, Hash, Structural)]
pub struct Date {
    pub year: u32,
    pub month: u8,
    pub day: u8,
}

/// A walking (or otherwise timed) transfer away from a stop; the stop it
/// starts from is the key under which it is stored.
#[derive(Clone, Copy, Debug, PartialEq, Eq, Structural)]
pub struct Transfer {
    pub to_stop_id: u32,
    /// (in seconds)
    pub min_transfer_time: u32,
}

/// A ride of one trip between two consecutive stops; the stop it starts
/// from is the key under which it is stored.
#[derive(Clone, Copy, Debug, PartialEq, Eq, Structural)]
pub struct Connection {
    pub to_stop_id: u32,
    /// service id of parent trip
    pub service_id: u32,
    /// time when arriving at destination (neighbor) stop (in seconds since midnight)
    pub arrival_time: u32,
    /// time when departing towards (neighbor) stop (in seconds since midnight)
    pub departure_time: u32,
}

/// Whether a service runs on a date (`exception_type` in calendar_dates.txt).
#[derive(Clone, Copy, Debug, PartialEq, Eq, Structural)]
pub enum ServiceExceptionType {
    ServiceAdded,
    ServiceRemoved,
}

/// The exception type that an `exception_type` code stands for: 1 adds a
/// service, every other code removes it.
pub open spec fn exception_type_of(code: u32) -> ServiceExceptionType {
    if code == 1 {
        ServiceExceptionType::ServiceAdded
    } else {
        ServiceExceptionType::ServiceRemoved
    }
}

impl ServiceExceptionType {
    /// converts exception_type integer to ServiceExceptionType enum
    pub fn parse_exception_type(exception_type: u32) -> (r: ServiceExceptionType)
        ensures
            r == exception_type_of(exception_type),
    {
        match exception_type {
            1 => ServiceExceptionType::ServiceAdded,
            2 => ServiceExceptionType::ServiceRemoved,
            _ => ServiceExceptionType::ServiceRemoved,
        }
    }
}

/// Used as a key to find a `GpuGridCellVal`.
/// Each spatial grid cell has a unique `GpuGridCellKey` value.
#[derive(Clone, Copy, Debug, PartialEq, Eq, Structural)]
pub struct GpuGridCellKey {
    /// latitude cell index
    pub lat_index: i32,
    /// longitude cell index
    pub lon_index: i32,
}

/// Found using `GpuGridCellKey`.
/// Used to find the portion of the GpuStop array that corresponds to this specific spatial grid cell.
#[derive(Clone, Copy, Debug, PartialEq, Eq, Structural)]
pub struct GpuGridCellVal {
    /// Defines the starting index of the GpuStop array that corresponds to this spatial grid cell
    pub start: u32,
    /// Defines how many indeces of the GpuStop array are part of this spatial grid cell
    pub count: u32,
}

/// The key under which the exception of a service on a date is stored:
/// the service id in the high bits, then the year, month and day.
pub open spec fn spec_service_key(service_id: u32, date: Date) -> u128 {
    (service_id * 0x1_0000_0000_0000 + date.year * 0x1_0000 + date.month * 0x100
        + date.day) as u128
}

/// Computes the key under which the exception of `service_id` on `date` is stored.
pub fn service_key(service_id: u32, date: Date) -> (k: u128)
    ensures
        k == spec_service_key(service_id, date),
{
    (service_id as u128) * 0x1_0000_0000_0000u128 + (date.year as u128) * 0x1_0000u128 + (
    date.month as u128) * 0x100u128 + (date.day as u128)
}

/// Different services or dates never share a key, so the exceptions of
/// every service on every date are kept apart.
pub proof fn service_key_injective(service_a: u32, date_a: Date, service_b: u32, date_b: Date)
    requires
        spec_service_key(service_a, date_a) == spec_service_key(service_b, date_b),
    ensures
        service_a == service_b,
        date_a == date_b,
{
    let low_a = date_a.year * 0x1_0000 + date_a.month * 0x100 + date_a.day;
    let low_b = date_b.year * 0x1_0000 + date_b.month * 0x100 + date_b.day;
    assert(low_a < 0x1_0000_0000_0000);
    assert(low_b < 0x1_0000_0000_0000);
    assert(service_a * 0x1_0000_0000_0000 + low_a == service_b * 0x1_0000_0000_0000 + low_b);
    if service_a < service_b {
        assert(service_a * 0x1_0000_0000_0000 + low_a < service_b * 0x1_0000_0000_0000);
    } else if service_a > service_b {
        assert(service_b * 0x1_0000_0000_0000 + low_b < service_a * 0x1_0000_0000_0000);
    }
    assert(low_a == low_b);
    let md_a = date_a.month * 0x100 + date_a.day;
    let md_b = date_b.month * 0x100 + date_b.day;
    if date_a.year < date_b.year {
        assert(date_a.year * 0x1_0000 + md_a < date_b.year * 0x1_0000);
    } else if date_a.year > date_b.year {
        assert(date_b.year * 0x1_0000 + md_b < date_a.year * 0x1_0000);
    }
    if date_a.month < date_b.month {
        assert(date_a.month * 0x100 + date_a.day < date_b.month * 0x100);
    } else if date_a.month > date_b.month {
        assert(date_b.month * 0x100 + date_b.day < date_a.month * 0x100);
    }
}

/// The timetable part of a GTFS feed: everything the earliest-arrival search reads.
pub struct Timetable {
    /// <route_id, Route>
    pub routes: HashMap<u32, Route>,
    /// <trip_id, Trip>
    pub trips: HashMap<u32, Trip>,
    /// <service_key(service_id, Date), exception_type>
    pub services: HashMap<u128, ServiceExceptionType>,
    /// <from_stop_id, list of Transfers from stop>
    pub transfers: HashMap<u32, Vec<Transfer>>,
    /// <from_stop_id, list of Connections>
    pub connections: HashMap<u32, Vec<Connection>>,
}

} // verus!
