//! Reading the files of a GTFS feed into the timetable: each file is parsed
//! as a CSV table, its columns are found by their header, and each record
//! is checked and taken in, in file order, until the first error.

use std::collections::HashMap;
use vstd::prelude::*;
use vstd::string::StringSliceAdditionalSpecFns;
use vstd::utf8::encode_utf8;

use crate::fields::{
    clock_fields, clock_seconds, clock_text_readable, date_of, date_text_cuttable, id_of,
    is_clock_text_readable, is_date_text_cuttable, parse_route_id, parse_stop_id, parse_u32,
    parse_u32_or_zero, parse_unsigned, str_time_to_seconds, FieldError,
};
use crate::loading::{add_stop_time, add_transfer, transfers_from};
use crate::structs::{
    exception_type_of, route_type_of, service_key, spec_service_key, Date, Route, RouteType,
    ServiceExceptionType, StopTime, Timetable, Transfer, Trip,
};

verus! {

broadcast use {vstd::std_specs::hash::group_hash_axioms, vstd::string::to_string_from_display_ensures_for_str};

/// A column that the reading of a feed requires.
#[derive(Clone, Copy, Debug, PartialEq, Eq, Structural)]
pub enum Column {
    StopId,
    StopLat,
    StopLon,
    RouteId,
    RouteType,
    TripId,
    ServiceId,
    StopSequence,
    ArrivalTime,
    DepartureTime,
    Date,
    ExceptionType,
    FromStopId,
    ToStopId,
    MinTransferTime,
}

/// The header text of column `c`.
pub open spec fn column_name(c: Column) -> Seq<char> {
    match c {
        Column::StopId => "stop_id"@,
        Column::StopLat => "stop_lat"@,
        Column::StopLon => "stop_lon"@,
        Column::RouteId => "route_id"@,
        Column::RouteType => "route_type"@,
        Column::TripId => "trip_id"@,
        Column::ServiceId => "service_id"@,
        Column::StopSequence => "stop_sequence"@,
        Column::ArrivalTime => "arrival_time"@,
        Column::DepartureTime => "departure_time"@,
        Column::Date => "date"@,
        Column::ExceptionType => "exception_type"@,
        Column::FromStopId => "from_stop_id"@,
        Column::ToStopId => "to_stop_id"@,
        Column::MinTransferTime => "min_transfer_time"@,
    }
}

/// The header text of column `c`.
pub fn column_text(c: Column) -> (t: &'static str)
    ensures
        t@ == column_name(c),
{
    match c {
        Column::StopId => "stop_id",
        Column::StopLat => "stop_lat",
        Column::StopLon => "stop_lon",
        Column::RouteId => "route_id",
        Column::RouteType => "route_type",
        Column::TripId => "trip_id",
        Column::ServiceId => "service_id",
        Column::StopSequence => "stop_sequence",
        Column::ArrivalTime => "arrival_time",
        Column::DepartureTime => "departure_time",
        Column::Date => "date",
        Column::ExceptionType => "exception_type",
        Column::FromStopId => "from_stop_id",
        Column::ToStopId => "to_stop_id",
        Column::MinTransferTime => "min_transfer_time",
    }
}

/// A file of a feed.
#[derive(Clone, Copy, Debug, PartialEq, Eq, Structural)]
pub enum FeedFile {
    Stops,
    Routes,
    Trips,
    StopTimes,
    CalendarDates,
    Transfers,
}

/// Why a feed could not be read.
#[derive(Clone, Copy, Debug, PartialEq, Eq, Structural)]
pub enum FeedError {
    /// The CSV reader reports an error in the file.
    Unreadable(FeedFile),
    /// A record has no value in a required column.
    MissingColumn(Column),
    /// The value of a numeric column is not a `u32`.
    InvalidNumber(Column),
    /// A stop time names a trip that the trips file does not hold.
    UnknownTrip,
    /// A clock time has not exactly three parts, or its time does not fit
    /// in a `u32`.
    UnreadableClockTime(Column),
    /// A date has fewer than eight bytes, or its parts are cut inside a
    /// character.
    UncuttableDate,
}

/// The texts of a CSV record.
pub open spec fn texts(v: Seq<String>) -> Seq<Seq<char>> {
    v.map_values(|s: String| s@)
}

/// The records of a CSV table, as texts.
pub open spec fn table_rows(rows: Seq<Vec<String>>) -> Seq<Seq<Seq<char>>> {
    rows.map_values(|r: Vec<String>| texts(r@))
}

/// What the `csv` crate reads from the bytes of a file: nothing when it
/// reports an error on the header; else the header record, the records
/// before the first one on which it reports an error, and whether there was
/// no such record.
pub uninterp spec fn spec_csv_table(bytes: Seq<u8>) -> Option<(Seq<Seq<char>>, Seq<Seq<Seq<char>>>, bool)>;

/// Reads `bytes` with `csv::Reader::from_reader` (default settings: a
/// header record, commas, records of equal length), taking the header with
/// `Reader::headers` and the records with `Reader::records`, each field as a
/// `String`.
///
/// The contract claims that the result is the value named `spec_csv_table`
/// of the bytes, field by field: none when reading the header reports an
/// error; else the header, the records up to the first one on which the
/// reader reports an error, and whether all records were read. It does not
/// say how the crate splits the bytes into records and fields.
#[verifier::external_body]
fn read_csv_table(bytes: &[u8]) -> (r: Option<(Vec<String>, Vec<Vec<String>>, bool)>)
    ensures
        match spec_csv_table(bytes@) {
            Some(t) => r matches Some(v) && texts(v.0@) == t.0 && table_rows(v.1@) == t.1 && v.2 == t.2,
            None => r is None,
        },
{
    let mut reader = csv::Reader::from_reader(bytes);
    let header: Vec<String> = reader.headers().ok()?.iter().map(String::from).collect();
    let mut rows: Vec<Vec<String>> = Vec::new();
    for record in reader.records() {
        match record {
            Ok(record) => rows.push(record.iter().map(String::from).collect()),
            Err(_) => return Some((header, rows, false)),
        }
    }
    Some((header, rows, true))
}

/// The index of the column named `name`: its last place in the header.
pub open spec fn column_of(header: Seq<Seq<char>>, name: Seq<char>) -> Option<int>
    decreases header.len(),
{
    if header.len() == 0 {
        None
    } else if header.last() == name {
        Some(header.len() - 1)
    } else {
        column_of(header.drop_last(), name)
    }
}

/// The value of a record at column index `col`, when the record has one.
pub open spec fn cell_in(row: Seq<Seq<char>>, col: Option<int>) -> Option<Seq<char>> {
    match col {
        Some(i) => if 0 <= i < row.len() {
            Some(row[i])
        } else {
            None
        },
        None => None,
    }
}

/// The value of a record in column `c` of a table with header `header`.
pub open spec fn cell_of(header: Seq<Seq<char>>, row: Seq<Seq<char>>, c: Column) -> Option<Seq<char>> {
    cell_in(row, column_of(header, column_name(c)))
}

/// The `u32` a text reads as, if any.
pub open spec fn number_of(t: Seq<char>) -> Option<nat> {
    parse_unsigned(encode_utf8(t), u32::MAX as nat)
}

/// The `u32` a text reads as, or 0.
pub open spec fn number_or_zero(t: Seq<char>) -> u32 {
    match number_of(t) {
        Some(v) => v as u32,
        None => 0,
    }
}

/// Takes the records `rows` in order, each by `step`, stopping at the first
/// record that fails; gives the state reached and that failure, if any.
pub open spec fn fold_rows<S>(
    rows: Seq<Seq<Seq<char>>>,
    s: S,
    step: spec_fn(S, Seq<Seq<char>>) -> (S, Option<FeedError>),
) -> (S, Option<FeedError>)
    decreases rows.len(),
{
    if rows.len() == 0 {
        (s, None)
    } else {
        let (s1, e) = step(s, rows[0]);
        if e is Some {
            (s1, e)
        } else {
            fold_rows(rows.drop_first(), s1, step)
        }
    }
}

proof fn lemma_fold_rows_unfold<S>(
    rows: Seq<Seq<Seq<char>>>,
    i: int,
    s: S,
    step: spec_fn(S, Seq<Seq<char>>) -> (S, Option<FeedError>),
)
    requires
        0 <= i < rows.len(),
    ensures
        fold_rows(rows.skip(i), s, step) == (if step(s, rows[i]).1 is Some {
            step(s, rows[i])
        } else {
            fold_rows(rows.skip(i + 1), step(s, rows[i]).0, step)
        }),
{
    assert(rows.skip(i).drop_first() =~= rows.skip(i + 1));
    assert(rows.skip(i)[0] == rows[i]);
}

proof fn lemma_fold_rows_end<S>(
    rows: Seq<Seq<Seq<char>>>,
    s: S,
    step: spec_fn(S, Seq<Seq<char>>) -> (S, Option<FeedError>),
)
    ensures
        fold_rows(rows.skip(rows.len() as int), s, step) == (s, None::<FeedError>),
{
    assert(rows.skip(rows.len() as int) =~= Seq::<Seq<Seq<char>>>::empty());
}

/// Finds the index of column `c` in `header`.
fn find_column(header: &Vec<String>, c: Column) -> (r: Option<usize>)
    ensures
        col_int(r) == column_of(texts(header@), column_name(c)),
        r matches Some(i) ==> i < header@.len(),
{
    let name = column_text(c).to_string();
    let ghost h = texts(header@);
    let mut i = header.len();
    assert(h.take(i as int) =~= h);
    while i > 0
        invariant
            i <= header@.len(),
            h == texts(header@),
            name@ == column_name(c),
            column_of(h, column_name(c)) == column_of(h.take(i as int), column_name(c)),
        decreases i,
    {
        let ghost t = h.take(i as int);
        assert(t.last() == header@[i - 1]@);
        if header[i - 1] == name {
            return Some(i - 1);
        }
        assert(t.drop_last() =~= h.take(i - 1));
        i = i - 1;
    }
    None
}

/// The index of a column as an integer.
pub open spec fn col_int(col: Option<usize>) -> Option<int> {
    match col {
        Some(i) => Some(i as int),
        None => None,
    }
}

/// The value of `row` at column index `col`, when it has one.
fn cell_at<'a>(row: &'a Vec<String>, col: Option<usize>) -> (r: Option<&'a str>)
    ensures
        match cell_in(texts(row@), col_int(col)) {
            Some(t) => r matches Some(s) && s@ == t,
            None => r is None,
        },
{
    match col {
        Some(i) => {
            if i < row.len() {
                Some(row[i].as_str())
            } else {
                None
            }
        },
        None => None,
    }
}

/// The value of `row` in column `c` (at `col`), or the error of a missing
/// column.
fn required<'a>(row: &'a Vec<String>, col: Option<usize>, c: Column) -> (r: Result<&'a str, FeedError>)
    ensures
        match cell_in(texts(row@), col_int(col)) {
            Some(t) => r matches Ok(s) && s@ == t,
            None => r == Err::<&str, FeedError>(FeedError::MissingColumn(c)),
        },
{
    match cell_at(row, col) {
        Some(t) => Ok(t),
        None => Err(FeedError::MissingColumn(c)),
    }
}

/// Reads the `u32` of a column value, or the error of an invalid number.
fn number(text: &str, c: Column) -> (r: Result<u32, FeedError>)
    ensures
        match number_of(text@) {
            Some(v) => r == Ok::<u32, FeedError>(v as u32),
            None => r == Err::<u32, FeedError>(FeedError::InvalidNumber(c)),
        },
{
    match parse_u32(text) {
        Ok(v) => Ok(v),
        Err(_) => Err(FeedError::InvalidNumber(c)),
    }
}

/// The id an id column value reads as (the number after its last `:`).
pub open spec fn id_in(t: Seq<char>) -> Option<nat> {
    id_of(encode_utf8(t))
}

/// Reads a stop id column value, or the error of an invalid number.
fn stop_id_number(text: &str, c: Column) -> (r: Result<u32, FeedError>)
    ensures
        match id_in(text@) {
            Some(v) => r == Ok::<u32, FeedError>(v as u32),
            None => r == Err::<u32, FeedError>(FeedError::InvalidNumber(c)),
        },
{
    match parse_stop_id(text) {
        Ok(v) => Ok(v),
        Err(_) => Err(FeedError::InvalidNumber(c)),
    }
}

/// Reads a route id column value, or the error of an invalid number.
fn route_id_number(text: &str) -> (r: Result<u32, FeedError>)
    ensures
        match id_in(text@) {
            Some(v) => r == Ok::<u32, FeedError>(v as u32),
            None => r == Err::<u32, FeedError>(FeedError::InvalidNumber(Column::RouteId)),
        },
{
    match parse_route_id(text) {
        Ok(v) => Ok(v),
        Err(_) => Err(FeedError::InvalidNumber(Column::RouteId)),
    }
}

// ---------------------------------------------------------------- stops

/// A stop record: the stop id, and the latitude and longitude texts.
pub type StopRow = (u32, Seq<char>, Seq<char>);

/// What a record of stops.txt adds: its stop, with the id that its
/// `stop_id` text reads as.
pub open spec fn stop_step(h: Seq<Seq<char>>, row: Seq<Seq<char>>, s: Seq<StopRow>) -> (Seq<StopRow>, Option<FeedError>) {
    match cell_of(h, row, Column::StopId) {
        None => (s, Some(FeedError::MissingColumn(Column::StopId))),
        Some(it) => match id_in(it) {
            None => (s, Some(FeedError::InvalidNumber(Column::StopId))),
            Some(id) => match cell_of(h, row, Column::StopLat) {
                None => (s, Some(FeedError::MissingColumn(Column::StopLat))),
                Some(lat) => match cell_of(h, row, Column::StopLon) {
                    None => (s, Some(FeedError::MissingColumn(Column::StopLon))),
                    Some(lon) => (s.push((id as u32, lat, lon)), None),
                },
            },
        },
    }
}

pub open spec fn stop_stepper(h: Seq<Seq<char>>) -> spec_fn(Seq<StopRow>, Seq<Seq<char>>) -> (Seq<StopRow>, Option<FeedError>) {
    |s: Seq<StopRow>, row: Seq<Seq<char>>| stop_step(h, row, s)
}

/// The stops as records of ids and texts.
pub open spec fn stop_rows_view(v: Seq<(u32, String, String)>) -> Seq<StopRow> {
    v.map_values(|x: (u32, String, String)| (x.0, x.1@, x.2@))
}

/// Reads the stops of stops.txt: for each record, its stop id and the texts
/// of its latitude and longitude.
pub fn load_stops(header: &Vec<String>, rows: &Vec<Vec<String>>) -> (r: Result<Vec<(u32, String, String)>, FeedError>)
    ensures
        ({
            let (s, e) = fold_rows(table_rows(rows@), Seq::<StopRow>::empty(), stop_stepper(texts(header@)));
            match e {
                None => r matches Ok(v) && stop_rows_view(v@) == s,
                Some(x) => r == Err::<Vec<(u32, String, String)>, FeedError>(x),
            }
        }),
{
    let ghost h = texts(header@);
    let ghost rs = table_rows(rows@);
    let ghost step = stop_stepper(h);
    let id_col = find_column(header, Column::StopId);
    let lat_col = find_column(header, Column::StopLat);
    let lon_col = find_column(header, Column::StopLon);
    let mut out: Vec<(u32, String, String)> = Vec::new();
    let n = rows.len();
    assert(rs.skip(0) =~= rs);
    assert(stop_rows_view(out@) =~= Seq::<StopRow>::empty());
    for i in 0..n
        invariant
            n == rows@.len(),
            h == texts(header@),
            rs == table_rows(rows@),
            step == stop_stepper(h),
            col_int(id_col) == column_of(h, column_name(Column::StopId)),
            col_int(lat_col) == column_of(h, column_name(Column::StopLat)),
            col_int(lon_col) == column_of(h, column_name(Column::StopLon)),
            fold_rows(rs, Seq::<StopRow>::empty(), step) == fold_rows(rs.skip(i as int), stop_rows_view(out@), step),
    {
        let row = &rows[i];
        proof {
            lemma_fold_rows_unfold(rs, i as int, stop_rows_view(out@), step);
            assert(rs[i as int] == texts(row@));
        }
        let id_text = match required(row, id_col, Column::StopId) {
            Ok(t) => t,
            Err(e) => return Err(e),
        };
        let id = match stop_id_number(id_text, Column::StopId) {
            Ok(v) => v,
            Err(e) => return Err(e),
        };
        let lat = match required(row, lat_col, Column::StopLat) {
            Ok(t) => t,
            Err(e) => return Err(e),
        };
        let lon = match required(row, lon_col, Column::StopLon) {
            Ok(t) => t,
            Err(e) => return Err(e),
        };
        let ghost before = out@;
        out.push((id, lat.to_string(), lon.to_string()));
        proof {
            assert(stop_rows_view(out@) =~= stop_rows_view(before).push((id, lat@, lon@)));
        }
    }
    proof {
        lemma_fold_rows_end(rs, stop_rows_view(out@), step);
    }
    Ok(out)
}

// ---------------------------------------------------------------- routes

/// What a record of routes.txt does: stores its route type under the
/// route id that its `route_id` text reads as.
pub open spec fn route_step(h: Seq<Seq<char>>, row: Seq<Seq<char>>, m: Map<u32, Route>) -> (Map<u32, Route>, Option<FeedError>) {
    match cell_of(h, row, Column::RouteId) {
        None => (m, Some(FeedError::MissingColumn(Column::RouteId))),
        Some(it) => match id_in(it) {
            None => (m, Some(FeedError::InvalidNumber(Column::RouteId))),
            Some(id) => match cell_of(h, row, Column::RouteType) {
                None => (m, Some(FeedError::MissingColumn(Column::RouteType))),
                Some(t) => match number_of(t) {
                    None => (m, Some(FeedError::InvalidNumber(Column::RouteType))),
                    Some(v) => (m.insert(id as u32, Route { route_type: route_type_of(v as u32) }), None),
                },
            },
        },
    }
}

pub open spec fn route_stepper(h: Seq<Seq<char>>) -> spec_fn(Map<u32, Route>, Seq<Seq<char>>) -> (Map<u32, Route>, Option<FeedError>) {
    |m: Map<u32, Route>, row: Seq<Seq<char>>| route_step(h, row, m)
}

/// Takes the records of routes.txt into `routes`.
pub fn load_routes(header: &Vec<String>, rows: &Vec<Vec<String>>, routes: &mut HashMap<u32, Route>) -> (r: Result<(), FeedError>)
    ensures
        ({
            let (m, e) = fold_rows(table_rows(rows@), old(routes)@, route_stepper(texts(header@)));
            &&& final(routes)@ == m
            &&& r == match e {
                None => Ok::<(), FeedError>(()),
                Some(x) => Err(x),
            }
        }),
{
    let ghost h = texts(header@);
    let ghost rs = table_rows(rows@);
    let ghost step = route_stepper(h);
    let id_col = find_column(header, Column::RouteId);
    let type_col = find_column(header, Column::RouteType);
    let n = rows.len();
    assert(rs.skip(0) =~= rs);
    for i in 0..n
        invariant
            n == rows@.len(),
            h == texts(header@),
            rs == table_rows(rows@),
            step == route_stepper(h),
            col_int(id_col) == column_of(h, column_name(Column::RouteId)),
            col_int(type_col) == column_of(h, column_name(Column::RouteType)),
            fold_rows(rs, old(routes)@, step) == fold_rows(rs.skip(i as int), routes@, step),
    {
        let row = &rows[i];
        proof {
            lemma_fold_rows_unfold(rs, i as int, routes@, step);
            assert(rs[i as int] == texts(row@));
        }
        let id = match required(row, id_col, Column::RouteId) {
            Ok(t) => t,
            Err(e) => return Err(e),
        };
        let route_id = match route_id_number(id) {
            Ok(v) => v,
            Err(e) => return Err(e),
        };
        let type_text = match required(row, type_col, Column::RouteType) {
            Ok(t) => t,
            Err(e) => return Err(e),
        };
        let route_type = match number(type_text, Column::RouteType) {
            Ok(v) => v,
            Err(e) => return Err(e),
        };
        routes.insert(route_id, Route { route_type: RouteType::parse_route_type(route_type) });
    }
    proof {
        lemma_fold_rows_end(rs, routes@, step);
    }
    Ok(())
}

// ---------------------------------------------------------------- trips

/// A trip as plain values: route id, service id and visits.
pub type TripRow = (u32, u32, Seq<StopTime>);

/// The trips of a trip map as plain values.
pub open spec fn trips_model(m: Map<u32, Trip>) -> Map<u32, TripRow> {
    Map::new(|k: u32| m.contains_key(k), |k: u32| (m[k].route_id, m[k].service_id, m[k].stop_times@))
}

/// What a record of trips.txt does: stores under its trip id a trip of its
/// route (the id its `route_id` text reads as) and service, with no visits
/// yet.
pub open spec fn trip_step(h: Seq<Seq<char>>, row: Seq<Seq<char>>, m: Map<u32, TripRow>) -> (Map<u32, TripRow>, Option<FeedError>) {
    match cell_of(h, row, Column::TripId) {
        None => (m, Some(FeedError::MissingColumn(Column::TripId))),
        Some(tt) => match number_of(tt) {
            None => (m, Some(FeedError::InvalidNumber(Column::TripId))),
            Some(trip_id) => match cell_of(h, row, Column::RouteId) {
                None => (m, Some(FeedError::MissingColumn(Column::RouteId))),
                Some(rt) => match id_in(rt) {
                    None => (m, Some(FeedError::InvalidNumber(Column::RouteId))),
                    Some(route_id) => match cell_of(h, row, Column::ServiceId) {
                        None => (m, Some(FeedError::MissingColumn(Column::ServiceId))),
                        Some(st) => match number_of(st) {
                            None => (m, Some(FeedError::InvalidNumber(Column::ServiceId))),
                            Some(service_id) => (
                                m.insert(
                                    trip_id as u32,
                                    (route_id as u32, service_id as u32, Seq::<StopTime>::empty()),
                                ),
                                None,
                            ),
                        },
                    },
                },
            },
        },
    }
}

pub open spec fn trip_stepper(h: Seq<Seq<char>>) -> spec_fn(Map<u32, TripRow>, Seq<Seq<char>>) -> (Map<u32, TripRow>, Option<FeedError>) {
    |m: Map<u32, TripRow>, row: Seq<Seq<char>>| trip_step(h, row, m)
}

/// Takes the records of trips.txt into `trips`.
pub fn load_trips(header: &Vec<String>, rows: &Vec<Vec<String>>, trips: &mut HashMap<u32, Trip>) -> (r: Result<(), FeedError>)
    ensures
        ({
            let (m, e) = fold_rows(table_rows(rows@), trips_model(old(trips)@), trip_stepper(texts(header@)));
            &&& trips_model(final(trips)@) == m
            &&& r == match e {
                None => Ok::<(), FeedError>(()),
                Some(x) => Err(x),
            }
        }),
{
    let ghost h = texts(header@);
    let ghost rs = table_rows(rows@);
    let ghost step = trip_stepper(h);
    let trip_col = find_column(header, Column::TripId);
    let route_col = find_column(header, Column::RouteId);
    let service_col = find_column(header, Column::ServiceId);
    let n = rows.len();
    assert(rs.skip(0) =~= rs);
    for i in 0..n
        invariant
            n == rows@.len(),
            h == texts(header@),
            rs == table_rows(rows@),
            step == trip_stepper(h),
            col_int(trip_col) == column_of(h, column_name(Column::TripId)),
            col_int(route_col) == column_of(h, column_name(Column::RouteId)),
            col_int(service_col) == column_of(h, column_name(Column::ServiceId)),
            fold_rows(rs, trips_model(old(trips)@), step) == fold_rows(rs.skip(i as int), trips_model(trips@), step),
    {
        let row = &rows[i];
        proof {
            lemma_fold_rows_unfold(rs, i as int, trips_model(trips@), step);
            assert(rs[i as int] == texts(row@));
        }
        let trip_text = match required(row, trip_col, Column::TripId) {
            Ok(t) => t,
            Err(e) => return Err(e),
        };
        let trip_id = match number(trip_text, Column::TripId) {
            Ok(v) => v,
            Err(e) => return Err(e),
        };
        let route_text = match required(row, route_col, Column::RouteId) {
            Ok(t) => t,
            Err(e) => return Err(e),
        };
        let route_id = match route_id_number(route_text) {
            Ok(v) => v,
            Err(e) => return Err(e),
        };
        let service_text = match required(row, service_col, Column::ServiceId) {
            Ok(t) => t,
            Err(e) => return Err(e),
        };
        let service_id = match number(service_text, Column::ServiceId) {
            Ok(v) => v,
            Err(e) => return Err(e),
        };
        let trip = Trip { route_id, service_id, stop_times: Vec::new() };
        let ghost before = trips@;
        trips.insert(trip_id, trip);
        proof {
            assert(trips_model(trips@) =~= trips_model(before).insert(
                trip_id,
                (route_id, service_id, Seq::<StopTime>::empty()),
            ));
        }
    }
    proof {
        lemma_fold_rows_end(rs, trips_model(trips@), step);
    }
    Ok(())
}

// ---------------------------------------------------------------- stop times

/// The seconds of a clock time column value: the error of an unreadable
/// time, or of parts that are not numbers, or the time.
pub open spec fn clock_of(t: Seq<char>, c: Column) -> Result<u32, FeedError> {
    if !clock_text_readable(encode_utf8(t)) {
        Err(FeedError::UnreadableClockTime(c))
    } else {
        match clock_fields(encode_utf8(t)) {
            Some(f) => Ok(clock_seconds(f) as u32),
            None => Err(FeedError::InvalidNumber(c)),
        }
    }
}

/// What a record of stop_times.txt does: appends a visit (at the stop whose
/// id its `stop_id` text reads as) to the visits of its trip, which must
/// exist.
pub open spec fn stop_time_step(h: Seq<Seq<char>>, row: Seq<Seq<char>>, m: Map<u32, TripRow>) -> (Map<u32, TripRow>, Option<FeedError>) {
    match cell_of(h, row, Column::TripId) {
        None => (m, Some(FeedError::MissingColumn(Column::TripId))),
        Some(tt) => match number_of(tt) {
            None => (m, Some(FeedError::InvalidNumber(Column::TripId))),
            Some(trip_id) => if !m.contains_key(trip_id as u32) {
                (m, Some(FeedError::UnknownTrip))
            } else {
                match cell_of(h, row, Column::StopSequence) {
                    None => (m, Some(FeedError::MissingColumn(Column::StopSequence))),
                    Some(qt) => match number_of(qt) {
                        None => (m, Some(FeedError::InvalidNumber(Column::StopSequence))),
                        Some(_) => visit_step(h, row, m, trip_id as u32),
                    },
                }
            },
        },
    }
}

/// The rest of a record of stop_times.txt, once its trip `trip_id` is
/// known to exist: the stop and the two clock times of the visit.
pub open spec fn visit_step(h: Seq<Seq<char>>, row: Seq<Seq<char>>, m: Map<u32, TripRow>, trip_id: u32) -> (Map<u32, TripRow>, Option<FeedError>) {
    match cell_of(h, row, Column::StopId) {
        None => (m, Some(FeedError::MissingColumn(Column::StopId))),
        Some(st) => match id_in(st) {
            None => (m, Some(FeedError::InvalidNumber(Column::StopId))),
            Some(stop_id) => match cell_of(h, row, Column::ArrivalTime) {
                None => (m, Some(FeedError::MissingColumn(Column::ArrivalTime))),
                Some(at) => match clock_of(at, Column::ArrivalTime) {
                    Err(e) => (m, Some(e)),
                    Ok(arrival) => match cell_of(h, row, Column::DepartureTime) {
                        None => (m, Some(FeedError::MissingColumn(Column::DepartureTime))),
                        Some(dt) => match clock_of(dt, Column::DepartureTime) {
                            Err(e) => (m, Some(e)),
                            Ok(departure) => {
                                let t = m[trip_id];
                                let visit = StopTime {
                                    stop_id: stop_id as u32,
                                    arrival_time: arrival,
                                    departure_time: departure,
                                };
                                (m.insert(trip_id, (t.0, t.1, t.2.push(visit))), None)
                            },
                        },
                    },
                },
            },
        },
    }
}

pub open spec fn stop_time_stepper(h: Seq<Seq<char>>) -> spec_fn(Map<u32, TripRow>, Seq<Seq<char>>) -> (Map<u32, TripRow>, Option<FeedError>) {
    |m: Map<u32, TripRow>, row: Seq<Seq<char>>| stop_time_step(h, row, m)
}

/// Reads a clock time column value.
fn clock_time(text: &str, c: Column) -> (r: Result<u32, FeedError>)
    ensures
        r == clock_of(text@, c),
{
    if !is_clock_text_readable(text) {
        return Err(FeedError::UnreadableClockTime(c));
    }
    match str_time_to_seconds(text) {
        Ok(v) => Ok(v),
        Err(_) => Err(FeedError::InvalidNumber(c)),
    }
}

/// Takes the records of stop_times.txt into the visits of `trips`.
pub fn load_stop_times(header: &Vec<String>, rows: &Vec<Vec<String>>, trips: &mut HashMap<u32, Trip>) -> (r: Result<(), FeedError>)
    ensures
        ({
            let (m, e) = fold_rows(table_rows(rows@), trips_model(old(trips)@), stop_time_stepper(texts(header@)));
            &&& trips_model(final(trips)@) == m
            &&& r == match e {
                None => Ok::<(), FeedError>(()),
                Some(x) => Err(x),
            }
        }),
{
    let ghost h = texts(header@);
    let ghost rs = table_rows(rows@);
    let ghost step = stop_time_stepper(h);
    let trip_col = find_column(header, Column::TripId);
    let seq_col = find_column(header, Column::StopSequence);
    let stop_col = find_column(header, Column::StopId);
    let arr_col = find_column(header, Column::ArrivalTime);
    let dep_col = find_column(header, Column::DepartureTime);
    let n = rows.len();
    assert(rs.skip(0) =~= rs);
    for i in 0..n
        invariant
            n == rows@.len(),
            h == texts(header@),
            rs == table_rows(rows@),
            step == stop_time_stepper(h),
            col_int(trip_col) == column_of(h, column_name(Column::TripId)),
            col_int(seq_col) == column_of(h, column_name(Column::StopSequence)),
            col_int(stop_col) == column_of(h, column_name(Column::StopId)),
            col_int(arr_col) == column_of(h, column_name(Column::ArrivalTime)),
            col_int(dep_col) == column_of(h, column_name(Column::DepartureTime)),
            fold_rows(rs, trips_model(old(trips)@), step) == fold_rows(rs.skip(i as int), trips_model(trips@), step),
    {
        let row = &rows[i];
        proof {
            lemma_fold_rows_unfold(rs, i as int, trips_model(trips@), step);
            assert(rs[i as int] == texts(row@));
        }
        let trip_text = match required(row, trip_col, Column::TripId) {
            Ok(t) => t,
            Err(e) => return Err(e),
        };
        let trip_id = match number(trip_text, Column::TripId) {
            Ok(v) => v,
            Err(e) => return Err(e),
        };
        if !trips.contains_key(&trip_id) {
            return Err(FeedError::UnknownTrip);
        }
        let seq_text = match required(row, seq_col, Column::StopSequence) {
            Ok(t) => t,
            Err(e) => return Err(e),
        };
        match number(seq_text, Column::StopSequence) {
            Ok(_) => {},
            Err(e) => return Err(e),
        }
        let stop_text = match required(row, stop_col, Column::StopId) {
            Ok(t) => t,
            Err(e) => return Err(e),
        };
        let stop_id = match stop_id_number(stop_text, Column::StopId) {
            Ok(v) => v,
            Err(e) => return Err(e),
        };
        let arr_text = match required(row, arr_col, Column::ArrivalTime) {
            Ok(t) => t,
            Err(e) => return Err(e),
        };
        let arrival_time = match clock_time(arr_text, Column::ArrivalTime) {
            Ok(v) => v,
            Err(e) => return Err(e),
        };
        let dep_text = match required(row, dep_col, Column::DepartureTime) {
            Ok(t) => t,
            Err(e) => return Err(e),
        };
        let departure_time = match clock_time(dep_text, Column::DepartureTime) {
            Ok(v) => v,
            Err(e) => return Err(e),
        };
        let visit = StopTime { stop_id, arrival_time, departure_time };
        let ghost before = trips@;
        let _ = add_stop_time(trips, trip_id, visit);
        proof {
            let t = trips_model(before)[trip_id];
            assert(trips_model(trips@) =~= trips_model(before).insert(trip_id, (t.0, t.1, t.2.push(visit))));
        }
    }
    proof {
        lemma_fold_rows_end(rs, trips_model(trips@), step);
    }
    Ok(())
}

// ---------------------------------------------------------------- calendar dates

/// What a record of calendar_dates.txt does: stores the exception type
/// (0 when it is no number) of its service on its date.
pub open spec fn calendar_step(
    h: Seq<Seq<char>>,
    row: Seq<Seq<char>>,
    m: Map<u128, ServiceExceptionType>,
) -> (Map<u128, ServiceExceptionType>, Option<FeedError>) {
    match cell_of(h, row, Column::ServiceId) {
        None => (m, Some(FeedError::MissingColumn(Column::ServiceId))),
        Some(st) => match number_of(st) {
            None => (m, Some(FeedError::InvalidNumber(Column::ServiceId))),
            Some(service_id) => match cell_of(h, row, Column::Date) {
                None => (m, Some(FeedError::MissingColumn(Column::Date))),
                Some(dt) => if !date_text_cuttable(encode_utf8(dt)) {
                    (m, Some(FeedError::UncuttableDate))
                } else {
                    match date_of(encode_utf8(dt)) {
                        None => (m, Some(FeedError::InvalidNumber(Column::Date))),
                        Some(date) => match cell_of(h, row, Column::ExceptionType) {
                            None => (m, Some(FeedError::MissingColumn(Column::ExceptionType))),
                            Some(et) => (
                                m.insert(
                                    spec_service_key(service_id as u32, date),
                                    exception_type_of(number_or_zero(et)),
                                ),
                                None,
                            ),
                        },
                    }
                },
            },
        },
    }
}

pub open spec fn calendar_stepper(h: Seq<Seq<char>>) -> spec_fn(Map<u128, ServiceExceptionType>, Seq<Seq<char>>) -> (Map<u128, ServiceExceptionType>, Option<FeedError>) {
    |m: Map<u128, ServiceExceptionType>, row: Seq<Seq<char>>| calendar_step(h, row, m)
}

/// Takes the records of calendar_dates.txt into `services`.
pub fn load_calendar_dates(
    header: &Vec<String>,
    rows: &Vec<Vec<String>>,
    services: &mut HashMap<u128, ServiceExceptionType>,
) -> (r: Result<(), FeedError>)
    ensures
        ({
            let (m, e) = fold_rows(table_rows(rows@), old(services)@, calendar_stepper(texts(header@)));
            &&& final(services)@ == m
            &&& r == match e {
                None => Ok::<(), FeedError>(()),
                Some(x) => Err(x),
            }
        }),
{
    let ghost h = texts(header@);
    let ghost rs = table_rows(rows@);
    let ghost step = calendar_stepper(h);
    let service_col = find_column(header, Column::ServiceId);
    let date_col = find_column(header, Column::Date);
    let type_col = find_column(header, Column::ExceptionType);
    let n = rows.len();
    assert(rs.skip(0) =~= rs);
    for i in 0..n
        invariant
            n == rows@.len(),
            h == texts(header@),
            rs == table_rows(rows@),
            step == calendar_stepper(h),
            col_int(service_col) == column_of(h, column_name(Column::ServiceId)),
            col_int(date_col) == column_of(h, column_name(Column::Date)),
            col_int(type_col) == column_of(h, column_name(Column::ExceptionType)),
            fold_rows(rs, old(services)@, step) == fold_rows(rs.skip(i as int), services@, step),
    {
        let row = &rows[i];
        proof {
            lemma_fold_rows_unfold(rs, i as int, services@, step);
            assert(rs[i as int] == texts(row@));
        }
        let service_text = match required(row, service_col, Column::ServiceId) {
            Ok(t) => t,
            Err(e) => return Err(e),
        };
        let service_id = match number(service_text, Column::ServiceId) {
            Ok(v) => v,
            Err(e) => return Err(e),
        };
        let date_text = match required(row, date_col, Column::Date) {
            Ok(t) => t,
            Err(e) => return Err(e),
        };
        if !is_date_text_cuttable(date_text) {
            return Err(FeedError::UncuttableDate);
        }
        let date = match Date::parse_date_string(date_text) {
            Ok(d) => d,
            Err(_) => return Err(FeedError::InvalidNumber(Column::Date)),
        };
        let type_text = match required(row, type_col, Column::ExceptionType) {
            Ok(t) => t,
            Err(e) => return Err(e),
        };
        // default to 0, which lets `parse_exception_type()` decide the default
        let exception_type = ServiceExceptionType::parse_exception_type(parse_u32_or_zero(type_text));
        services.insert(service_key(service_id, date), exception_type);
    }
    proof {
        lemma_fold_rows_end(rs, services@, step);
    }
    Ok(())
}

// ---------------------------------------------------------------- transfers

/// The transfer lists of a transfer map as plain values.
pub open spec fn transfers_model(m: Map<u32, Vec<Transfer>>) -> Map<u32, Seq<Transfer>> {
    Map::new(|k: u32| m.contains_key(k), |k: u32| m[k]@)
}

/// The transfers stored under `s` in a plain transfer map, or none.
pub open spec fn listed_transfers(m: Map<u32, Seq<Transfer>>, s: u32) -> Seq<Transfer> {
    if m.contains_key(s) {
        m[s]
    } else {
        Seq::empty()
    }
}

/// What a record of transfers.txt does: once its `from_stop_id` is read as
/// an id, the stop gets a (possibly empty) transfer list; then the transfer
/// to `to_stop_id`, taking `min_transfer_time` seconds (0 when it is no
/// number), is appended to it.
pub open spec fn transfer_step(
    h: Seq<Seq<char>>,
    row: Seq<Seq<char>>,
    m: Map<u32, Seq<Transfer>>,
) -> (Map<u32, Seq<Transfer>>, Option<FeedError>) {
    match cell_of(h, row, Column::FromStopId) {
        None => (m, Some(FeedError::MissingColumn(Column::FromStopId))),
        Some(ft) => match id_in(ft) {
            None => (m, Some(FeedError::InvalidNumber(Column::FromStopId))),
            Some(from_id) => {
                let from = from_id as u32;
                let m1 = m.insert(from, listed_transfers(m, from));
                match cell_of(h, row, Column::ToStopId) {
                    None => (m1, Some(FeedError::MissingColumn(Column::ToStopId))),
                    Some(tt) => match id_in(tt) {
                        None => (m1, Some(FeedError::InvalidNumber(Column::ToStopId))),
                        Some(to) => match cell_of(h, row, Column::MinTransferTime) {
                            None => (m1, Some(FeedError::MissingColumn(Column::MinTransferTime))),
                            Some(mt) => (
                                m1.insert(
                                    from,
                                    listed_transfers(m, from).push(
                                        Transfer { to_stop_id: to as u32, min_transfer_time: number_or_zero(mt) },
                                    ),
                                ),
                                None,
                            ),
                        },
                    },
                }
            },
        },
    }
}

pub open spec fn transfer_stepper(h: Seq<Seq<char>>) -> spec_fn(Map<u32, Seq<Transfer>>, Seq<Seq<char>>) -> (Map<u32, Seq<Transfer>>, Option<FeedError>) {
    |m: Map<u32, Seq<Transfer>>, row: Seq<Seq<char>>| transfer_step(h, row, m)
}

/// The records of transfers.txt whose `from_stop_id` reads as stop `s`.
pub open spec fn records_from(h: Seq<Seq<char>>, rows: Seq<Seq<Seq<char>>>, s: u32) -> Seq<Seq<Seq<char>>> {
    rows.filter(|row: Seq<Seq<char>>| cell_of(h, row, Column::FromStopId) matches Some(t) && id_in(t) == Some(s as nat))
}

/// A record of transfers.txt never removes a transfer: every stop's list
/// before the record is a prefix of its list after it. A record that is
/// taken in adds exactly its own transfer (to the stop its `to_stop_id`
/// reads as, taking its `min_transfer_time`) at the end of the list of the
/// stop its `from_stop_id` reads as, and changes no other list; a record
/// that fails adds no transfer.
pub proof fn transfer_record_appends(h: Seq<Seq<char>>, row: Seq<Seq<char>>, m: Map<u32, Seq<Transfer>>)
    ensures
        ({
            let (m2, e) = transfer_step(h, row, m);
            &&& forall|s: u32| #[trigger] listed_transfers(m, s).is_prefix_of(listed_transfers(m2, s))
            &&& e is Some ==> forall|s: u32| #[trigger] listed_transfers(m2, s) == listed_transfers(m, s)
            &&& e is None ==> {
                &&& cell_of(h, row, Column::FromStopId) is Some
                &&& cell_of(h, row, Column::ToStopId) is Some
                &&& cell_of(h, row, Column::MinTransferTime) is Some
                &&& id_in(cell_of(h, row, Column::FromStopId)->0) is Some
                &&& id_in(cell_of(h, row, Column::ToStopId)->0) is Some
                &&& {
                    let from = (id_in(cell_of(h, row, Column::FromStopId)->0)->0) as u32;
                    let added = Transfer {
                        to_stop_id: (id_in(cell_of(h, row, Column::ToStopId)->0)->0) as u32,
                        min_transfer_time: number_or_zero(cell_of(h, row, Column::MinTransferTime)->0),
                    };
                    &&& listed_transfers(m2, from) == listed_transfers(m, from).push(added)
                    &&& forall|s: u32| s != from ==> #[trigger] listed_transfers(m2, s) == listed_transfers(m, s)
                }
            }
        }),
{
    let (m2, e) = transfer_step(h, row, m);
    assert forall|s: u32| #[trigger] listed_transfers(m, s).is_prefix_of(listed_transfers(m2, s)) by {
        let a = listed_transfers(m, s);
        let b = listed_transfers(m2, s);
        if b.len() > a.len() {
            assert(b.subrange(0, a.len() as int) =~= a);
        } else {
            assert(b =~= a);
            assert(b.subrange(0, a.len() as int) =~= a);
        }
    }
}

/// Reading transfers.txt only appends: every stop's transfers before are a
/// prefix of its transfers after, and when every record is taken in, a
/// stop's list grows by one transfer for each record leaving it.
pub proof fn loading_transfers_only_appends(
    h: Seq<Seq<char>>,
    rows: Seq<Seq<Seq<char>>>,
    m: Map<u32, Seq<Transfer>>,
    s: u32,
)
    ensures
        ({
            let (m2, e) = fold_rows(rows, m, transfer_stepper(h));
            &&& listed_transfers(m, s).is_prefix_of(listed_transfers(m2, s))
            &&& e is None ==> listed_transfers(m2, s).len() == listed_transfers(m, s).len() + records_from(
                h,
                rows,
                s,
            ).len()
        }),
    decreases rows.len(),
{
    let f = |row: Seq<Seq<char>>| cell_of(h, row, Column::FromStopId) matches Some(t) && id_in(t) == Some(s as nat);
    if rows.len() == 0 {
        reveal_with_fuel(Seq::<Seq<Seq<char>>>::filter, 1);
        assert(listed_transfers(m, s).is_prefix_of(listed_transfers(m, s))) by {
            assert(listed_transfers(m, s).subrange(0, listed_transfers(m, s).len() as int) =~= listed_transfers(m, s));
        }
    } else {
        let step = transfer_stepper(h);
        let (m1, e1) = step(m, rows[0]);
        transfer_record_appends(h, rows[0], m);
        assert(listed_transfers(m, s).is_prefix_of(listed_transfers(m1, s)));
        if e1 is None {
            let rest = rows.drop_first();
            loading_transfers_only_appends(h, rest, m1, s);
            let (m2, e) = fold_rows(rest, m1, step);
            assert(fold_rows(rows, m, step) == fold_rows(rest, m1, step));
            let a = listed_transfers(m, s);
            let b = listed_transfers(m1, s);
            let c = listed_transfers(m2, s);
            assert(c.subrange(0, a.len() as int) =~= b.subrange(0, a.len() as int));
            assert(a.is_prefix_of(c));
            assert(rows =~= seq![rows[0]] + rest);
            Seq::filter_distributes_over_add(seq![rows[0]], rest, f);
            reveal_with_fuel(Seq::<Seq<Seq<char>>>::filter, 2);
            assert(seq![rows[0]].drop_last() =~= Seq::<Seq<Seq<char>>>::empty());
            let from_is_s = cell_of(h, rows[0], Column::FromStopId) matches Some(t) && id_in(t) == Some(s as nat);
            if from_is_s {
                assert(seq![rows[0]].filter(f) =~= seq![rows[0]]);
                assert(b.len() == a.len() + 1);
            } else {
                assert(seq![rows[0]].filter(f) =~= Seq::<Seq<Seq<char>>>::empty());
                assert(b.len() == a.len());
            }
        }
    }
}

/// Gives stop `from` a transfer list, empty when it had none.
fn ensure_transfer_list(transfers: &mut HashMap<u32, Vec<Transfer>>, from: u32)
    ensures
        transfers_model(final(transfers)@) == transfers_model(old(transfers)@).insert(
            from,
            listed_transfers(transfers_model(old(transfers)@), from),
        ),
{
    if !transfers.contains_key(&from) {
        transfers.insert(from, Vec::new());
    }
    proof {
        assert(transfers_model(final(transfers)@) =~= transfers_model(old(transfers)@).insert(
            from,
            listed_transfers(transfers_model(old(transfers)@), from),
        ));
    }
}

/// Takes the records of transfers.txt into `transfers`.
pub fn load_transfers(
    header: &Vec<String>,
    rows: &Vec<Vec<String>>,
    transfers: &mut HashMap<u32, Vec<Transfer>>,
) -> (r: Result<(), FeedError>)
    ensures
        ({
            let (m, e) = fold_rows(table_rows(rows@), transfers_model(old(transfers)@), transfer_stepper(texts(header@)));
            &&& transfers_model(final(transfers)@) == m
            &&& r == match e {
                None => Ok::<(), FeedError>(()),
                Some(x) => Err(x),
            }
        }),
{
    let ghost h = texts(header@);
    let ghost rs = table_rows(rows@);
    let ghost step = transfer_stepper(h);
    let from_col = find_column(header, Column::FromStopId);
    let to_col = find_column(header, Column::ToStopId);
    let min_col = find_column(header, Column::MinTransferTime);
    let n = rows.len();
    assert(rs.skip(0) =~= rs);
    for i in 0..n
        invariant
            n == rows@.len(),
            h == texts(header@),
            rs == table_rows(rows@),
            step == transfer_stepper(h),
            col_int(from_col) == column_of(h, column_name(Column::FromStopId)),
            col_int(to_col) == column_of(h, column_name(Column::ToStopId)),
            col_int(min_col) == column_of(h, column_name(Column::MinTransferTime)),
            fold_rows(rs, transfers_model(old(transfers)@), step) == fold_rows(
                rs.skip(i as int),
                transfers_model(transfers@),
                step,
            ),
    {
        let row = &rows[i];
        proof {
            lemma_fold_rows_unfold(rs, i as int, transfers_model(transfers@), step);
            assert(rs[i as int] == texts(row@));
        }
        let from_text = match required(row, from_col, Column::FromStopId) {
            Ok(t) => t,
            Err(e) => return Err(e),
        };
        let from_stop_id = match stop_id_number(from_text, Column::FromStopId) {
            Ok(v) => v,
            Err(e) => return Err(e),
        };
        let ghost m0 = transfers_model(transfers@);
        ensure_transfer_list(transfers, from_stop_id);
        let to_text = match required(row, to_col, Column::ToStopId) {
            Ok(t) => t,
            Err(e) => return Err(e),
        };
        let to_stop_id = match stop_id_number(to_text, Column::ToStopId) {
            Ok(v) => v,
            Err(e) => return Err(e),
        };
        let min_text = match required(row, min_col, Column::MinTransferTime) {
            Ok(t) => t,
            Err(e) => return Err(e),
        };
        let transfer = Transfer {
            to_stop_id,
            // default to 0 if not declared
            min_transfer_time: parse_u32_or_zero(min_text),
        };
        let ghost before = transfers@;
        add_transfer(transfers, from_stop_id, transfer);
        proof {
            assert(transfers_model(before).contains_key(from_stop_id));
            assert(before.contains_key(from_stop_id));
            assert(transfers_model(before)[from_stop_id] == before[from_stop_id]@);
            assert(transfers_from(before, from_stop_id) == listed_transfers(m0, from_stop_id));
            assert(transfers_model(transfers@) =~= transfers_model(before).insert(
                from_stop_id,
                listed_transfers(m0, from_stop_id).push(transfer),
            ));
        }
    }
    proof {
        lemma_fold_rows_end(rs, transfers_model(transfers@), step);
    }
    Ok(())
}

// ---------------------------------------------------------------- a whole feed

/// A CSV table as texts: the header, the records read, and whether every
/// record could be read.
pub type Table = (Seq<Seq<char>>, Seq<Seq<Seq<char>>>, bool);

/// The parts of a timetable that reading a feed fills, as plain values.
pub struct FeedState {
    pub routes: Map<u32, Route>,
    pub trips: Map<u32, TripRow>,
    pub services: Map<u128, ServiceExceptionType>,
    pub transfers: Map<u32, Seq<Transfer>>,
}

/// The parts of `t` that reading a feed fills.
pub open spec fn feed_state(t: Timetable) -> FeedState {
    FeedState {
        routes: t.routes@,
        trips: trips_model(t.trips@),
        services: t.services@,
        transfers: transfers_model(t.transfers@),
    }
}

/// Reading the transfers table, the last of a feed.
pub open spec fn after_transfers(transfers: Option<Table>, s: FeedState, stops: Seq<StopRow>) -> (FeedState, Result<Seq<StopRow>, FeedError>) {
    match transfers {
        None => (s, Err(FeedError::Unreadable(FeedFile::Transfers))),
        Some(t) => {
            let (m, e) = fold_rows(t.1, s.transfers, transfer_stepper(t.0));
            let s1 = FeedState { transfers: m, ..s };
            match e {
                Some(x) => (s1, Err(x)),
                None => if t.2 {
                    (s1, Ok(stops))
                } else {
                    (s1, Err(FeedError::Unreadable(FeedFile::Transfers)))
                },
            }
        },
    }
}

/// Reading the calendar dates table, then the rest.
pub open spec fn after_calendar(
    calendar_dates: Option<Table>,
    transfers: Option<Table>,
    s: FeedState,
    stops: Seq<StopRow>,
) -> (FeedState, Result<Seq<StopRow>, FeedError>) {
    match calendar_dates {
        None => (s, Err(FeedError::Unreadable(FeedFile::CalendarDates))),
        Some(t) => {
            let (m, e) = fold_rows(t.1, s.services, calendar_stepper(t.0));
            let s1 = FeedState { services: m, ..s };
            match e {
                Some(x) => (s1, Err(x)),
                None => if t.2 {
                    after_transfers(transfers, s1, stops)
                } else {
                    (s1, Err(FeedError::Unreadable(FeedFile::CalendarDates)))
                },
            }
        },
    }
}

/// Reading the stop times table, then the rest.
pub open spec fn after_stop_times(
    stop_times: Option<Table>,
    calendar_dates: Option<Table>,
    transfers: Option<Table>,
    s: FeedState,
    stops: Seq<StopRow>,
) -> (FeedState, Result<Seq<StopRow>, FeedError>) {
    match stop_times {
        None => (s, Err(FeedError::Unreadable(FeedFile::StopTimes))),
        Some(t) => {
            let (m, e) = fold_rows(t.1, s.trips, stop_time_stepper(t.0));
            let s1 = FeedState { trips: m, ..s };
            match e {
                Some(x) => (s1, Err(x)),
                None => if t.2 {
                    after_calendar(calendar_dates, transfers, s1, stops)
                } else {
                    (s1, Err(FeedError::Unreadable(FeedFile::StopTimes)))
                },
            }
        },
    }
}

/// Reading the trips table, then the rest.
pub open spec fn after_trips(
    trips: Option<Table>,
    stop_times: Option<Table>,
    calendar_dates: Option<Table>,
    transfers: Option<Table>,
    s: FeedState,
    stops: Seq<StopRow>,
) -> (FeedState, Result<Seq<StopRow>, FeedError>) {
    match trips {
        None => (s, Err(FeedError::Unreadable(FeedFile::Trips))),
        Some(t) => {
            let (m, e) = fold_rows(t.1, s.trips, trip_stepper(t.0));
            let s1 = FeedState { trips: m, ..s };
            match e {
                Some(x) => (s1, Err(x)),
                None => if t.2 {
                    after_stop_times(stop_times, calendar_dates, transfers, s1, stops)
                } else {
                    (s1, Err(FeedError::Unreadable(FeedFile::Trips)))
                },
            }
        },
    }
}

/// Reading the routes table, then the rest.
pub open spec fn after_routes(
    routes: Option<Table>,
    trips: Option<Table>,
    stop_times: Option<Table>,
    calendar_dates: Option<Table>,
    transfers: Option<Table>,
    s: FeedState,
    stops: Seq<StopRow>,
) -> (FeedState, Result<Seq<StopRow>, FeedError>) {
    match routes {
        None => (s, Err(FeedError::Unreadable(FeedFile::Routes))),
        Some(t) => {
            let (m, e) = fold_rows(t.1, s.routes, route_stepper(t.0));
            let s1 = FeedState { routes: m, ..s };
            match e {
                Some(x) => (s1, Err(x)),
                None => if t.2 {
                    after_trips(trips, stop_times, calendar_dates, transfers, s1, stops)
                } else {
                    (s1, Err(FeedError::Unreadable(FeedFile::Routes)))
                },
            }
        },
    }
}

/// Reading a whole feed from its tables in file order, stopping at the
/// first error: the state reached, and the stop records or that error.
pub open spec fn feed_outcome(
    stops: Option<Table>,
    routes: Option<Table>,
    trips: Option<Table>,
    stop_times: Option<Table>,
    calendar_dates: Option<Table>,
    transfers: Option<Table>,
    s: FeedState,
) -> (FeedState, Result<Seq<StopRow>, FeedError>) {
    match stops {
        None => (s, Err(FeedError::Unreadable(FeedFile::Stops))),
        Some(t) => {
            let (rows, e) = fold_rows(t.1, Seq::<StopRow>::empty(), stop_stepper(t.0));
            match e {
                Some(x) => (s, Err(x)),
                None => if t.2 {
                    after_routes(routes, trips, stop_times, calendar_dates, transfers, s, rows)
                } else {
                    (s, Err(FeedError::Unreadable(FeedFile::Stops)))
                },
            }
        },
    }
}

/// Reads one file of a feed as a CSV table.
fn read_table(bytes: &[u8], file: FeedFile) -> (r: Result<(Vec<String>, Vec<Vec<String>>, bool), FeedError>)
    ensures
        match spec_csv_table(bytes@) {
            Some(t) => r matches Ok(v) && texts(v.0@) == t.0 && table_rows(v.1@) == t.1 && v.2 == t.2,
            None => r == Err::<(Vec<String>, Vec<Vec<String>>, bool), FeedError>(FeedError::Unreadable(file)),
        },
{
    match read_csv_table(bytes) {
        Some(t) => Ok(t),
        None => Err(FeedError::Unreadable(file)),
    }
}

/// reads the files of one feed (the bytes of stops.txt, routes.txt,
/// trips.txt, stop_times.txt, calendar_dates.txt and transfers.txt) into
/// `timetable`, in that order; returns the stop records (stop id, latitude
/// text, longitude text), or the first error, having taken in every record
/// before it (a record that the CSV reader cannot read fails the file once
/// the records before it are taken in).
pub fn load_feed(
    stops: &[u8],
    routes: &[u8],
    trips: &[u8],
    stop_times: &[u8],
    calendar_dates: &[u8],
    transfers: &[u8],
    timetable: &mut Timetable,
) -> (r: Result<Vec<(u32, String, String)>, FeedError>)
    ensures
        ({
            let (s, res) = feed_outcome(
                spec_csv_table(stops@),
                spec_csv_table(routes@),
                spec_csv_table(trips@),
                spec_csv_table(stop_times@),
                spec_csv_table(calendar_dates@),
                spec_csv_table(transfers@),
                feed_state(*old(timetable)),
            );
            &&& feed_state(*final(timetable)) == s
            &&& final(timetable).connections@ == old(timetable).connections@
            &&& match res {
                Ok(rows) => r matches Ok(v) && stop_rows_view(v@) == rows,
                Err(e) => r == Err::<Vec<(u32, String, String)>, FeedError>(e),
            }
        }),
{
    let (h, rows, complete) = match read_table(stops, FeedFile::Stops) {
        Ok(t) => t,
        Err(e) => return Err(e),
    };
    let stop_rows = match load_stops(&h, &rows) {
        Ok(v) => v,
        Err(e) => return Err(e),
    };
    if !complete {
        return Err(FeedError::Unreadable(FeedFile::Stops));
    }
    let (h, rows, complete) = match read_table(routes, FeedFile::Routes) {
        Ok(t) => t,
        Err(e) => return Err(e),
    };
    match load_routes(&h, &rows, &mut timetable.routes) {
        Ok(()) => {},
        Err(e) => return Err(e),
    }
    if !complete {
        return Err(FeedError::Unreadable(FeedFile::Routes));
    }
    let (h, rows, complete) = match read_table(trips, FeedFile::Trips) {
        Ok(t) => t,
        Err(e) => return Err(e),
    };
    match load_trips(&h, &rows, &mut timetable.trips) {
        Ok(()) => {},
        Err(e) => return Err(e),
    }
    if !complete {
        return Err(FeedError::Unreadable(FeedFile::Trips));
    }
    let (h, rows, complete) = match read_table(stop_times, FeedFile::StopTimes) {
        Ok(t) => t,
        Err(e) => return Err(e),
    };
    match load_stop_times(&h, &rows, &mut timetable.trips) {
        Ok(()) => {},
        Err(e) => return Err(e),
    }
    if !complete {
        return Err(FeedError::Unreadable(FeedFile::StopTimes));
    }
    let (h, rows, complete) = match read_table(calendar_dates, FeedFile::CalendarDates) {
        Ok(t) => t,
        Err(e) => return Err(e),
    };
    match load_calendar_dates(&h, &rows, &mut timetable.services) {
        Ok(()) => {},
        Err(e) => return Err(e),
    }
    if !complete {
        return Err(FeedError::Unreadable(FeedFile::CalendarDates));
    }
    let (h, rows, complete) = match read_table(transfers, FeedFile::Transfers) {
        Ok(t) => t,
        Err(e) => return Err(e),
    };
    match load_transfers(&h, &rows, &mut timetable.transfers) {
        Ok(()) => {},
        Err(e) => return Err(e),
    }
    if !complete {
        return Err(FeedError::Unreadable(FeedFile::Transfers));
    }
    Ok(stop_rows)
}

} // verus!
