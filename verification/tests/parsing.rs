use std::hash::{DefaultHasher, Hash, Hasher};

use heatmapping::fields::{
    parse_route_id, parse_stop_id, parse_u32, parse_u32_or_zero, seconds_to_str_time,
    str_time_to_seconds, FieldError,
};
use heatmapping::hashing::{hash2_i32, log2, str_to_u32_hash};
use heatmapping::structs::{service_key, Date, RouteType, ServiceExceptionType};

#[test]
fn route_type_codes() {
    assert_eq!(RouteType::parse_route_type(0), RouteType::TRAM);
    assert_eq!(RouteType::parse_route_type(1), RouteType::SUBWAY);
    assert_eq!(RouteType::parse_route_type(2), RouteType::RAIL);
    assert_eq!(RouteType::parse_route_type(3), RouteType::BUS);
    assert_eq!(RouteType::parse_route_type(4), RouteType::FERRY);
    assert_eq!(RouteType::parse_route_type(5), RouteType::CABLETRAM);
    assert_eq!(RouteType::parse_route_type(6), RouteType::AERIALLIFT);
    assert_eq!(RouteType::parse_route_type(7), RouteType::FUNICULAR);
    assert_eq!(RouteType::parse_route_type(11), RouteType::TROLLEYBUS);
    assert_eq!(RouteType::parse_route_type(12), RouteType::MONORAIL);
}

#[test]
fn unknown_route_type_reads_as_bus() {
    assert_eq!(RouteType::parse_route_type(8), RouteType::BUS);
    assert_eq!(RouteType::parse_route_type(700), RouteType::BUS);
}

#[test]
fn exception_type_codes() {
    assert_eq!(ServiceExceptionType::parse_exception_type(1), ServiceExceptionType::ServiceAdded);
    assert_eq!(ServiceExceptionType::parse_exception_type(2), ServiceExceptionType::ServiceRemoved);
    assert_eq!(ServiceExceptionType::parse_exception_type(0), ServiceExceptionType::ServiceRemoved);
    assert_eq!(ServiceExceptionType::parse_exception_type(9), ServiceExceptionType::ServiceRemoved);
}

#[test]
fn date_string_is_read() {
    assert_eq!(
        Date::parse_date_string("20260313"),
        Ok(Date { year: 2026, month: 3, day: 13 })
    );
    assert_eq!(
        Date::parse_date_string("19991231"),
        Ok(Date { year: 1999, month: 12, day: 31 })
    );
}

#[test]
fn date_string_with_letters_is_refused() {
    assert_eq!(Date::parse_date_string("2026ab13"), Err(FieldError::InvalidNumber));
    assert_eq!(Date::parse_date_string("2026-3-1"), Err(FieldError::InvalidNumber));
}

#[test]
fn date_string_reads_only_eight_bytes() {
    assert_eq!(
        Date::parse_date_string("20260313xyz"),
        Ok(Date { year: 2026, month: 3, day: 13 })
    );
}

#[test]
fn numbers_are_read_like_str_parse() {
    assert_eq!(parse_u32("123"), Ok(123));
    assert_eq!(parse_u32("+7"), Ok(7));
    assert_eq!(parse_u32("0042"), Ok(42));
    assert_eq!(parse_u32("4294967295"), Ok(u32::MAX));
    assert_eq!(parse_u32("4294967296"), Err(FieldError::InvalidNumber));
    assert_eq!(parse_u32(""), Err(FieldError::InvalidNumber));
    assert_eq!(parse_u32("+"), Err(FieldError::InvalidNumber));
    assert_eq!(parse_u32("-1"), Err(FieldError::InvalidNumber));
    assert_eq!(parse_u32("1 2"), Err(FieldError::InvalidNumber));
    for text in ["0", "17", "+3", "99999", "abc", "", "12x"] {
        assert_eq!(parse_u32(text).ok(), text.parse::<u32>().ok());
    }
}

#[test]
fn optional_numbers_default_to_zero() {
    assert_eq!(parse_u32_or_zero("180"), 180);
    assert_eq!(parse_u32_or_zero(""), 0);
    assert_eq!(parse_u32_or_zero("soon"), 0);
}

#[test]
fn clock_times_are_read() {
    assert_eq!(str_time_to_seconds("09:00:00"), Ok(32400));
    assert_eq!(str_time_to_seconds("00:00:00"), Ok(0));
    assert_eq!(str_time_to_seconds("25:10:05"), Ok(90605));
    assert_eq!(str_time_to_seconds("9:5:7"), Ok(32707));
}

#[test]
fn clock_times_with_bad_parts_are_refused() {
    assert_eq!(str_time_to_seconds("aa:00:00"), Err(FieldError::InvalidNumber));
    assert_eq!(str_time_to_seconds("09::00"), Err(FieldError::InvalidNumber));
    assert_eq!(str_time_to_seconds("09:00:"), Err(FieldError::InvalidNumber));
}

#[test]
fn clock_times_are_written() {
    assert_eq!(seconds_to_str_time(&32400), "09:00:00");
    assert_eq!(seconds_to_str_time(&0), "00:00:00");
    assert_eq!(seconds_to_str_time(&90605), "25:10:05");
    assert_eq!(seconds_to_str_time(&360000), "100:00:00");
    assert_eq!(seconds_to_str_time(&59), "00:00:59");
}

#[test]
fn written_clock_times_read_back() {
    for t in [0u32, 1, 59, 60, 3599, 3600, 32400, 86399, 90605, 360000, 1_000_000] {
        let text = seconds_to_str_time(&t);
        assert_eq!(str_time_to_seconds(&text), Ok(t));
    }
}

#[test]
fn ids_are_read_after_the_last_colon() {
    assert_eq!(parse_stop_id("600737"), Ok(600737));
    assert_eq!(parse_stop_id("stoparea:600737"), Ok(600737));
    assert_eq!(parse_stop_id("a:b:42"), Ok(42));
    assert_eq!(parse_stop_id("stoparea:"), Err(FieldError::InvalidNumber));
    assert_eq!(parse_stop_id("station"), Err(FieldError::InvalidNumber));
    assert_eq!(parse_route_id("600737"), Ok(600737));
    assert_eq!(parse_route_id("stoparea:600737"), Ok(600737));
    assert_eq!(parse_route_id("R_12"), Err(FieldError::InvalidNumber));
}

#[test]
fn string_hash_is_deterministic() {
    assert_eq!(str_to_u32_hash("600737"), str_to_u32_hash("600737"));
    assert_ne!(str_to_u32_hash("600737"), str_to_u32_hash("stoparea:600737"));
}

#[test]
fn string_hash_is_low_half_of_default_hash() {
    let mut hasher = DefaultHasher::new();
    "600737".hash(&mut hasher);
    assert_eq!(str_to_u32_hash("600737"), (hasher.finish() & 0xFFFF_FFFF) as u32);
}

#[test]
fn cell_hash_values() {
    assert_eq!(hash2_i32(0, 0), 0);
    assert_eq!(hash2_i32(1, 0), 1753845952);
    assert_eq!(hash2_i32(0, 1), 2428528777);
    assert_eq!(hash2_i32(1, 2), 1225277907);
    assert_eq!(hash2_i32(-1, 5), 2992037391);
}

#[test]
fn integer_log2() {
    assert_eq!(log2(1), 0);
    assert_eq!(log2(2), 1);
    assert_eq!(log2(3), 1);
    assert_eq!(log2(1024), 10);
    assert_eq!(log2(1025), 10);
    assert_eq!(log2(u32::MAX), 31);
}

#[test]
fn service_keys_keep_services_and_dates_apart() {
    let d1 = Date { year: 2026, month: 3, day: 13 };
    let d2 = Date { year: 2026, month: 3, day: 14 };
    assert_ne!(service_key(7, d1), service_key(7, d2));
    assert_ne!(service_key(7, d1), service_key(8, d1));
    assert_eq!(service_key(7, d1), service_key(7, Date { year: 2026, month: 3, day: 13 }));
}
