//! The feed itself: a handle naming a feed directory, the five parsed
//! tables, and the readers that turn a table file's bytes into typed rows.
//!
//! Each table file is split into records, its header row names the
//! columns, and every following record yields either a typed row or a
//! `RowError` for that record alone. A header that lacks a required
//! column makes every row of that table fail; a record with the wrong
//! number of fields fails by itself.

use vstd::prelude::*;

use crate::csv::fields_view;
use crate::csv::records_view;
use crate::csv::spec_records;
use crate::csv::split_records;
use crate::model::Calendar;
use crate::model::Route;
use crate::model::RouteType;
use crate::model::RowError;
use crate::model::SpecCalendar;
use crate::model::SpecRoute;
use crate::model::SpecStop;
use crate::model::SpecStopTime;
use crate::model::SpecTrip;
use crate::model::Stop;
use crate::model::StopTime;
use crate::model::Trip;
use crate::parse::check_decimal;
use crate::parse::copy_bytes;
use crate::parse::is_decimal;
use crate::parse::parse_date;
use crate::parse::parse_time;
use crate::parse::parse_u32;
use crate::parse::parse_u64;
use crate::parse::spec_parse_date;
use crate::parse::spec_parse_time;
use crate::parse::spec_parse_u32;
use crate::parse::spec_parse_u64;
use crate::text::bytes_eq;
use vstd::string::StrSliceExecFns;
use vstd::string::StringSliceAdditionalSpecFns;

verus! {

/// A handle on a feed directory holding the five table files.
pub struct GTFS {
    pub path: String,
}

impl GTFS {
    /// Wraps a feed directory path.
    pub fn from_path(path: String) -> (g: GTFS)
        ensures
            g.path@ == path@,
    {
        GTFS { path }
    }
}

/// The first column of the header named `name`, from `i` on.
pub open spec fn find_col(h: Seq<Seq<u8>>, name: Seq<u8>, i: int) -> Option<int>
    decreases h.len() - i,
    when 0 <= i <= h.len()
{
    if i >= h.len() {
        None
    } else if h[i] == name {
        Some(i)
    } else {
        find_col(h, name, i + 1)
    }
}

/// The column of the header named `name`, if any.
pub open spec fn col_of(h: Seq<Seq<u8>>, name: Seq<u8>) -> Option<int> {
    find_col(h, name, 0)
}

/// A found column is a real one and holds the name.
pub proof fn lemma_find_col_in_range(h: Seq<Seq<u8>>, name: Seq<u8>, i: int)
    requires
        0 <= i <= h.len(),
        find_col(h, name, i) is Some,
    ensures
        i <= find_col(h, name, i)->Some_0 < h.len(),
        h[find_col(h, name, i)->Some_0] == name,
    decreases h.len() - i,
{
    if i < h.len() && h[i] != name {
        lemma_find_col_in_range(h, name, i + 1);
    }
}

/// Finds the column of the header that carries the given name.
pub fn lookup_col(header: &Vec<Vec<u8>>, name: &Vec<u8>) -> (r: Option<usize>)
    ensures
        match r {
            Some(k) => col_of(fields_view(header@), name@) == Some(k as int),
            None => col_of(fields_view(header@), name@) is None,
        },
{
    let ghost hv = fields_view(header@);
    let n = header.len();
    let mut i: usize = 0;
    while i < n
        invariant
            hv == fields_view(header@),
            n == header@.len(),
            i <= n,
            hv.len() == n,
            col_of(hv, name@) == find_col(hv, name@, i as int),
        decreases n - i,
    {
        proof {
            assert(hv[i as int] == header@[i as int]@);
        }
        if bytes_eq(&header[i], name) {
            return Some(i);
        }
        proof {
            assert(find_col(hv, name@, i as int) == find_col(hv, name@, i + 1));
        }
        i += 1;
    }
    None
}

/// The typed row a stops record yields, or why it fails.
pub open spec fn spec_stop_row(h: Seq<Seq<u8>>, r: Seq<Seq<u8>>) -> Result<SpecStop, RowError> {
    if r.len() != h.len() {
        Err(RowError::FieldCount)
    } else {
        match (
            col_of(h, ("stop_id").spec_bytes()),
            col_of(h, ("stop_name").spec_bytes()),
            col_of(h, ("stop_lat").spec_bytes()),
            col_of(h, ("stop_lon").spec_bytes()),
        ) {
            (Some(ci), Some(cn), Some(cla), Some(clo)) => {
                if !is_decimal(r[cla]) {
                    Err(RowError::BadCoordinate)
                } else if !is_decimal(r[clo]) {
                    Err(RowError::BadCoordinate)
                } else {
                    Ok(SpecStop { id: r[ci], name: r[cn], lat: r[cla], lon: r[clo] })
                }
            },
            _ => Err(RowError::MissingColumn),
        }
    }
}

/// Reads one stops record against the header.
pub fn parse_stop_row(header: &Vec<Vec<u8>>, row: &Vec<Vec<u8>>) -> (r: Result<Stop, RowError>)
    ensures
        stop_row_model(r) == spec_stop_row(fields_view(header@), fields_view(row@)),
{
    let ghost hv = fields_view(header@);
    let ghost rv = fields_view(row@);
    if row.len() != header.len() {
        return Err(RowError::FieldCount);
    }
    let ci = lookup_col(header, &("stop_id").as_bytes_vec());
    let cn = lookup_col(header, &("stop_name").as_bytes_vec());
    let cla = lookup_col(header, &("stop_lat").as_bytes_vec());
    let clo = lookup_col(header, &("stop_lon").as_bytes_vec());
    match (ci, cn, cla, clo) {
        (Some(ci), Some(cn), Some(cla), Some(clo)) => {
            proof {
                lemma_find_col_in_range(hv, ("stop_id").spec_bytes(), 0);
                lemma_find_col_in_range(hv, ("stop_name").spec_bytes(), 0);
                lemma_find_col_in_range(hv, ("stop_lat").spec_bytes(), 0);
                lemma_find_col_in_range(hv, ("stop_lon").spec_bytes(), 0);
                assert(rv[ci as int] == row@[ci as int]@);
                assert(rv[cn as int] == row@[cn as int]@);
                assert(rv[cla as int] == row@[cla as int]@);
                assert(rv[clo as int] == row@[clo as int]@);
            }
            if !check_decimal(&row[cla]) {
                return Err(RowError::BadCoordinate);
            }
            if !check_decimal(&row[clo]) {
                return Err(RowError::BadCoordinate);
            }
            Ok(
                Stop {
                    id: copy_bytes(&row[ci]),
                    name: copy_bytes(&row[cn]),
                    lat: copy_bytes(&row[cla]),
                    lon: copy_bytes(&row[clo]),
                },
            )
        },
        _ => Err(RowError::MissingColumn),
    }
}

/// The typed row a stop_times record yields, or why it fails.
pub open spec fn spec_stop_time_row(h: Seq<Seq<u8>>, r: Seq<Seq<u8>>) -> Result<
    SpecStopTime,
    RowError,
> {
    if r.len() != h.len() {
        Err(RowError::FieldCount)
    } else {
        match (
            col_of(h, ("trip_id").spec_bytes()),
            col_of(h, ("arrival_time").spec_bytes()),
            col_of(h, ("departure_time").spec_bytes()),
            col_of(h, ("stop_id").spec_bytes()),
            col_of(h, ("stop_sequence").spec_bytes()),
        ) {
            (Some(ct), Some(ca), Some(cd), Some(cs), Some(cq)) => {
                match (spec_parse_time(r[ca]), spec_parse_time(r[cd]), spec_parse_u64(r[cq])) {
                    (Some(at), Some(dt), Some(sq)) => Ok(
                        SpecStopTime {
                            trip_id: r[ct],
                            arrival_time: at,
                            departure_time: dt,
                            stop_id: r[cs],
                            stop_sequence: sq,
                        },
                    ),
                    (None, _, _) => Err(RowError::BadTime),
                    (_, None, _) => Err(RowError::BadTime),
                    _ => Err(RowError::BadNumber),
                }
            },
            _ => Err(RowError::MissingColumn),
        }
    }
}

/// Reads one stop_times record against the header.
pub fn parse_stop_time_row(header: &Vec<Vec<u8>>, row: &Vec<Vec<u8>>) -> (r: Result<
    StopTime,
    RowError,
>)
    ensures
        stop_time_row_model(r) == spec_stop_time_row(fields_view(header@), fields_view(row@)),
{
    let ghost hv = fields_view(header@);
    let ghost rv = fields_view(row@);
    if row.len() != header.len() {
        return Err(RowError::FieldCount);
    }
    let ct = lookup_col(header, &("trip_id").as_bytes_vec());
    let ca = lookup_col(header, &("arrival_time").as_bytes_vec());
    let cd = lookup_col(header, &("departure_time").as_bytes_vec());
    let cs = lookup_col(header, &("stop_id").as_bytes_vec());
    let cq = lookup_col(header, &("stop_sequence").as_bytes_vec());
    match (ct, ca, cd, cs, cq) {
        (Some(ct), Some(ca), Some(cd), Some(cs), Some(cq)) => {
            proof {
                lemma_find_col_in_range(hv, ("trip_id").spec_bytes(), 0);
                lemma_find_col_in_range(hv, ("arrival_time").spec_bytes(), 0);
                lemma_find_col_in_range(hv, ("departure_time").spec_bytes(), 0);
                lemma_find_col_in_range(hv, ("stop_id").spec_bytes(), 0);
                lemma_find_col_in_range(hv, ("stop_sequence").spec_bytes(), 0);
                assert(rv[ct as int] == row@[ct as int]@);
                assert(rv[ca as int] == row@[ca as int]@);
                assert(rv[cd as int] == row@[cd as int]@);
                assert(rv[cs as int] == row@[cs as int]@);
                assert(rv[cq as int] == row@[cq as int]@);
            }
            let at = match parse_time(&row[ca]) {
                Some(t) => t,
                None => {
                    return Err(RowError::BadTime);
                },
            };
            let dt = match parse_time(&row[cd]) {
                Some(t) => t,
                None => {
                    return Err(RowError::BadTime);
                },
            };
            let sq = match parse_u64(&row[cq]) {
                Some(v) => v,
                None => {
                    return Err(RowError::BadNumber);
                },
            };
            Ok(
                StopTime {
                    trip_id: copy_bytes(&row[ct]),
                    arrival_time: at,
                    departure_time: dt,
                    stop_id: copy_bytes(&row[cs]),
                    stop_sequence: sq,
                },
            )
        },
        _ => Err(RowError::MissingColumn),
    }
}

/// The typed row a trips record yields, or why it fails.
pub open spec fn spec_trip_row(h: Seq<Seq<u8>>, r: Seq<Seq<u8>>) -> Result<SpecTrip, RowError> {
    if r.len() != h.len() {
        Err(RowError::FieldCount)
    } else {
        match (
            col_of(h, ("route_id").spec_bytes()),
            col_of(h, ("service_id").spec_bytes()),
            col_of(h, ("trip_id").spec_bytes()),
        ) {
            (Some(cr), Some(cs), Some(ct)) => Ok(
                SpecTrip { route_id: r[cr], service_id: r[cs], trip_id: r[ct] },
            ),
            _ => Err(RowError::MissingColumn),
        }
    }
}

/// Reads one trips record against the header.
pub fn parse_trip_row(header: &Vec<Vec<u8>>, row: &Vec<Vec<u8>>) -> (r: Result<Trip, RowError>)
    ensures
        trip_row_model(r) == spec_trip_row(fields_view(header@), fields_view(row@)),
{
    let ghost hv = fields_view(header@);
    let ghost rv = fields_view(row@);
    if row.len() != header.len() {
        return Err(RowError::FieldCount);
    }
    let cr = lookup_col(header, &("route_id").as_bytes_vec());
    let cs = lookup_col(header, &("service_id").as_bytes_vec());
    let ct = lookup_col(header, &("trip_id").as_bytes_vec());
    match (cr, cs, ct) {
        (Some(cr), Some(cs), Some(ct)) => {
            proof {
                lemma_find_col_in_range(hv, ("route_id").spec_bytes(), 0);
                lemma_find_col_in_range(hv, ("service_id").spec_bytes(), 0);
                lemma_find_col_in_range(hv, ("trip_id").spec_bytes(), 0);
                assert(rv[cr as int] == row@[cr as int]@);
                assert(rv[cs as int] == row@[cs as int]@);
                assert(rv[ct as int] == row@[ct as int]@);
            }
            Ok(
                Trip {
                    route_id: copy_bytes(&row[cr]),
                    service_id: copy_bytes(&row[cs]),
                    trip_id: copy_bytes(&row[ct]),
                },
            )
        },
        _ => Err(RowError::MissingColumn),
    }
}

/// The typed row a routes record yields, or why it fails.
pub open spec fn spec_route_row(h: Seq<Seq<u8>>, r: Seq<Seq<u8>>) -> Result<SpecRoute, RowError> {
    if r.len() != h.len() {
        Err(RowError::FieldCount)
    } else {
        match (
            col_of(h, ("route_id").spec_bytes()),
            col_of(h, ("route_short_name").spec_bytes()),
            col_of(h, ("route_long_name").spec_bytes()),
            col_of(h, ("route_type").spec_bytes()),
        ) {
            (Some(ci), Some(cs), Some(cl), Some(ct)) => {
                match spec_parse_u32(r[ct]) {
                    None => Err(RowError::BadNumber),
                    Some(code) => match RouteType::spec_from_code(code) {
                        None => Err(RowError::BadRouteType),
                        Some(t) => Ok(
                            SpecRoute {
                                route_id: r[ci],
                                short_name: r[cs],
                                long_name: r[cl],
                                route_type: t,
                            },
                        ),
                    },
                }
            },
            _ => Err(RowError::MissingColumn),
        }
    }
}

/// Reads one routes record against the header.
pub fn parse_route_row(header: &Vec<Vec<u8>>, row: &Vec<Vec<u8>>) -> (r: Result<Route, RowError>)
    ensures
        route_row_model(r) == spec_route_row(fields_view(header@), fields_view(row@)),
{
    let ghost hv = fields_view(header@);
    let ghost rv = fields_view(row@);
    if row.len() != header.len() {
        return Err(RowError::FieldCount);
    }
    let ci = lookup_col(header, &("route_id").as_bytes_vec());
    let cs = lookup_col(header, &("route_short_name").as_bytes_vec());
    let cl = lookup_col(header, &("route_long_name").as_bytes_vec());
    let ct = lookup_col(header, &("route_type").as_bytes_vec());
    match (ci, cs, cl, ct) {
        (Some(ci), Some(cs), Some(cl), Some(ct)) => {
            proof {
                lemma_find_col_in_range(hv, ("route_id").spec_bytes(), 0);
                lemma_find_col_in_range(hv, ("route_short_name").spec_bytes(), 0);
                lemma_find_col_in_range(hv, ("route_long_name").spec_bytes(), 0);
                lemma_find_col_in_range(hv, ("route_type").spec_bytes(), 0);
                assert(rv[ci as int] == row@[ci as int]@);
                assert(rv[cs as int] == row@[cs as int]@);
                assert(rv[cl as int] == row@[cl as int]@);
                assert(rv[ct as int] == row@[ct as int]@);
            }
            let code = match parse_u32(&row[ct]) {
                Some(v) => v,
                None => {
                    return Err(RowError::BadNumber);
                },
            };
            let t = match RouteType::from_code(code) {
                Some(t) => t,
                None => {
                    return Err(RowError::BadRouteType);
                },
            };
            Ok(
                Route {
                    route_id: copy_bytes(&row[ci]),
                    short_name: copy_bytes(&row[cs]),
                    long_name: copy_bytes(&row[cl]),
                    route_type: t,
                },
            )
        },
        _ => Err(RowError::MissingColumn),
    }
}

/// The weekday flag a calendar field yields: 0 or 1.
pub open spec fn spec_flag(s: Seq<u8>) -> Result<bool, RowError> {
    match spec_parse_u32(s) {
        None => Err(RowError::BadNumber),
        Some(0u32) => Ok(false),
        Some(1u32) => Ok(true),
        Some(_) => Err(RowError::BadFlag),
    }
}

/// Reads one weekday flag field.
pub fn parse_flag(s: &Vec<u8>) -> (r: Result<bool, RowError>)
    ensures
        r == spec_flag(s@),
{
    match parse_u32(s) {
        None => Err(RowError::BadNumber),
        Some(0u32) => Ok(false),
        Some(1u32) => Ok(true),
        Some(_) => Err(RowError::BadFlag),
    }
}

/// The typed row a calendar record yields, or why it fails.
pub open spec fn spec_calendar_row(h: Seq<Seq<u8>>, r: Seq<Seq<u8>>) -> Result<
    SpecCalendar,
    RowError,
> {
    if r.len() != h.len() {
        Err(RowError::FieldCount)
    } else {
        match (
            col_of(h, ("service_id").spec_bytes()),
            col_of(h, ("monday").spec_bytes()),
            col_of(h, ("tuesday").spec_bytes()),
            col_of(h, ("wednesday").spec_bytes()),
            col_of(h, ("thursday").spec_bytes()),
            col_of(h, ("friday").spec_bytes()),
            col_of(h, ("saturday").spec_bytes()),
            col_of(h, ("sunday").spec_bytes()),
            col_of(h, ("start_date").spec_bytes()),
            col_of(h, ("end_date").spec_bytes()),
        ) {
            (
                Some(ci),
                Some(c1),
                Some(c2),
                Some(c3),
                Some(c4),
                Some(c5),
                Some(c6),
                Some(c7),
                Some(ca),
                Some(cb),
            ) => {
                match (
                    spec_flag(r[c1]),
                    spec_flag(r[c2]),
                    spec_flag(r[c3]),
                    spec_flag(r[c4]),
                    spec_flag(r[c5]),
                    spec_flag(r[c6]),
                    spec_flag(r[c7]),
                ) {
                    (Ok(mo), Ok(tu), Ok(we), Ok(th), Ok(fr), Ok(sa), Ok(su)) => {
                        match (spec_parse_date(r[ca]), spec_parse_date(r[cb])) {
                            (Some(sd), Some(ed)) => Ok(
                                SpecCalendar {
                                    service_id: r[ci],
                                    monday: mo,
                                    tuesday: tu,
                                    wednesday: we,
                                    thursday: th,
                                    friday: fr,
                                    saturday: sa,
                                    sunday: su,
                                    start_date: sd,
                                    end_date: ed,
                                },
                            ),
                            _ => Err(RowError::BadDate),
                        }
                    },
                    (Err(e), _, _, _, _, _, _) => Err(e),
                    (_, Err(e), _, _, _, _, _) => Err(e),
                    (_, _, Err(e), _, _, _, _) => Err(e),
                    (_, _, _, Err(e), _, _, _) => Err(e),
                    (_, _, _, _, Err(e), _, _) => Err(e),
                    (_, _, _, _, _, Err(e), _) => Err(e),
                    (_, _, _, _, _, _, Err(e)) => Err(e),
                }
            },
            _ => Err(RowError::MissingColumn),
        }
    }
}

/// The model of one parsed stops row.
pub open spec fn stop_row_model(r: Result<Stop, RowError>) -> Result<SpecStop, RowError> {
    match r {
        Ok(x) => Ok(x@),
        Err(e) => Err(e),
    }
}

/// The rows of a parsed stops table, as models.
pub open spec fn stop_rows_view(s: Seq<Result<Stop, RowError>>) -> Seq<Result<SpecStop, RowError>> {
    s.map_values(|r: Result<Stop, RowError>| stop_row_model(r))
}

/// The model of one parsed stop_times row.
pub open spec fn stop_time_row_model(r: Result<StopTime, RowError>) -> Result<
    SpecStopTime,
    RowError,
> {
    match r {
        Ok(x) => Ok(x@),
        Err(e) => Err(e),
    }
}

/// The rows of a parsed stop_times table, as models.
pub open spec fn stop_time_rows_view(s: Seq<Result<StopTime, RowError>>) -> Seq<
    Result<SpecStopTime, RowError>,
> {
    s.map_values(|r: Result<StopTime, RowError>| stop_time_row_model(r))
}

/// The model of one parsed trips row.
pub open spec fn trip_row_model(r: Result<Trip, RowError>) -> Result<SpecTrip, RowError> {
    match r {
        Ok(x) => Ok(x@),
        Err(e) => Err(e),
    }
}

/// The rows of a parsed trips table, as models.
pub open spec fn trip_rows_view(s: Seq<Result<Trip, RowError>>) -> Seq<Result<SpecTrip, RowError>> {
    s.map_values(|r: Result<Trip, RowError>| trip_row_model(r))
}

/// The model of one parsed routes row.
pub open spec fn route_row_model(r: Result<Route, RowError>) -> Result<SpecRoute, RowError> {
    match r {
        Ok(x) => Ok(x@),
        Err(e) => Err(e),
    }
}

/// The rows of a parsed routes table, as models.
pub open spec fn route_rows_view(s: Seq<Result<Route, RowError>>) -> Seq<
    Result<SpecRoute, RowError>,
> {
    s.map_values(|r: Result<Route, RowError>| route_row_model(r))
}

/// The model of one parsed calendar row.
pub open spec fn calendar_row_model(r: Result<Calendar, RowError>) -> Result<
    SpecCalendar,
    RowError,
> {
    match r {
        Ok(x) => Ok(x@),
        Err(e) => Err(e),
    }
}

/// The rows of a parsed calendar table, as models.
pub open spec fn calendar_rows_view(s: Seq<Result<Calendar, RowError>>) -> Seq<
    Result<SpecCalendar, RowError>,
> {
    s.map_values(|r: Result<Calendar, RowError>| calendar_row_model(r))
}

/// Reads one calendar record against the header.
pub fn parse_calendar_row(header: &Vec<Vec<u8>>, row: &Vec<Vec<u8>>) -> (r: Result<
    Calendar,
    RowError,
>)
    ensures
        calendar_row_model(r) == spec_calendar_row(fields_view(header@), fields_view(row@)),
{
    let ghost hv = fields_view(header@);
    let ghost rv = fields_view(row@);
    if row.len() != header.len() {
        return Err(RowError::FieldCount);
    }
    let ci = lookup_col(header, &("service_id").as_bytes_vec());
    let c1 = lookup_col(header, &("monday").as_bytes_vec());
    let c2 = lookup_col(header, &("tuesday").as_bytes_vec());
    let c3 = lookup_col(header, &("wednesday").as_bytes_vec());
    let c4 = lookup_col(header, &("thursday").as_bytes_vec());
    let c5 = lookup_col(header, &("friday").as_bytes_vec());
    let c6 = lookup_col(header, &("saturday").as_bytes_vec());
    let c7 = lookup_col(header, &("sunday").as_bytes_vec());
    let ca = lookup_col(header, &("start_date").as_bytes_vec());
    let cb = lookup_col(header, &("end_date").as_bytes_vec());
    if ci.is_none() || c1.is_none() || c2.is_none() || c3.is_none() || c4.is_none() || c5.is_none()
        || c6.is_none() || c7.is_none() || ca.is_none() || cb.is_none() {
        return Err(RowError::MissingColumn);
    }
    let ci = ci.unwrap();
    let c1 = c1.unwrap();
    let c2 = c2.unwrap();
    let c3 = c3.unwrap();
    let c4 = c4.unwrap();
    let c5 = c5.unwrap();
    let c6 = c6.unwrap();
    let c7 = c7.unwrap();
    let ca = ca.unwrap();
    let cb = cb.unwrap();
    proof {
        lemma_find_col_in_range(hv, ("service_id").spec_bytes(), 0);
        lemma_find_col_in_range(hv, ("monday").spec_bytes(), 0);
        lemma_find_col_in_range(hv, ("tuesday").spec_bytes(), 0);
        lemma_find_col_in_range(hv, ("wednesday").spec_bytes(), 0);
        lemma_find_col_in_range(hv, ("thursday").spec_bytes(), 0);
        lemma_find_col_in_range(hv, ("friday").spec_bytes(), 0);
        lemma_find_col_in_range(hv, ("saturday").spec_bytes(), 0);
        lemma_find_col_in_range(hv, ("sunday").spec_bytes(), 0);
        lemma_find_col_in_range(hv, ("start_date").spec_bytes(), 0);
        lemma_find_col_in_range(hv, ("end_date").spec_bytes(), 0);
        assert(rv[ci as int] == row@[ci as int]@);
        assert(rv[c1 as int] == row@[c1 as int]@);
        assert(rv[c2 as int] == row@[c2 as int]@);
        assert(rv[c3 as int] == row@[c3 as int]@);
        assert(rv[c4 as int] == row@[c4 as int]@);
        assert(rv[c5 as int] == row@[c5 as int]@);
        assert(rv[c6 as int] == row@[c6 as int]@);
        assert(rv[c7 as int] == row@[c7 as int]@);
        assert(rv[ca as int] == row@[ca as int]@);
        assert(rv[cb as int] == row@[cb as int]@);
    }
    let mo = match parse_flag(&row[c1]) {
        Ok(v) => v,
        Err(e) => {
            return Err(e);
        },
    };
    let tu = match parse_flag(&row[c2]) {
        Ok(v) => v,
        Err(e) => {
            return Err(e);
        },
    };
    let we = match parse_flag(&row[c3]) {
        Ok(v) => v,
        Err(e) => {
            return Err(e);
        },
    };
    let th = match parse_flag(&row[c4]) {
        Ok(v) => v,
        Err(e) => {
            return Err(e);
        },
    };
    let fr = match parse_flag(&row[c5]) {
        Ok(v) => v,
        Err(e) => {
            return Err(e);
        },
    };
    let sa = match parse_flag(&row[c6]) {
        Ok(v) => v,
        Err(e) => {
            return Err(e);
        },
    };
    let su = match parse_flag(&row[c7]) {
        Ok(v) => v,
        Err(e) => {
            return Err(e);
        },
    };
    let sd = match parse_date(&row[ca]) {
        Some(v) => v,
        None => {
            return Err(RowError::BadDate);
        },
    };
    let ed = match parse_date(&row[cb]) {
        Some(v) => v,
        None => {
            return Err(RowError::BadDate);
        },
    };
    Ok(
        Calendar {
            service_id: copy_bytes(&row[ci]),
            monday: mo,
            tuesday: tu,
            wednesday: we,
            thursday: th,
            friday: fr,
            saturday: sa,
            sunday: su,
            start_date: sd,
            end_date: ed,
        },
    )
}

/// The stops table a file's bytes yield: one outcome per record after the
/// header.
pub open spec fn spec_parse_stops(data: Seq<u8>) -> Seq<Result<SpecStop, RowError>> {
    let recs = spec_records(data);
    if recs.len() == 0 {
        Seq::empty()
    } else {
        recs.drop_first().map_values(|row: Seq<Seq<u8>>| spec_stop_row(recs[0], row))
    }
}

/// Reads the stops table from a file's bytes.
pub fn parse_stops(data: &Vec<u8>) -> (r: Vec<Result<Stop, RowError>>)
    ensures
        stop_rows_view(r@) == spec_parse_stops(data@),
{
    let recs = split_records(data);
    let mut out: Vec<Result<Stop, RowError>> = Vec::new();
    let ghost rv = records_view(recs@);
    let ghost expected = spec_parse_stops(data@);
    if recs.len() == 0 {
        proof {
            assert(stop_rows_view(out@) =~= expected);
        }
        return out;
    }
    let n = recs.len();
    let mut k: usize = 1;
    while k < n
        invariant
            rv == records_view(recs@),
            rv == spec_records(data@),
            expected == spec_parse_stops(data@),
            n == recs@.len(),
            rv.len() == n,
            n >= 1,
            1 <= k <= n,
            expected.len() == n - 1,
            out@.len() == k - 1,
            forall|j: int| 0 <= j < k - 1 ==> #[trigger] stop_rows_view(out@)[j] == expected[j],
        decreases n - k,
    {
        let row = parse_stop_row(&recs[0], &recs[k]);
        proof {
            assert(rv[0] == fields_view(recs@[0]@));
            assert(rv[k as int] == fields_view(recs@[k as int]@));
            assert(rv.drop_first()[k - 1] == rv[k as int]);
            assert(expected[k - 1] == spec_stop_row(rv[0], rv[k as int]));
        }
        let ghost o0 = out@;
        out.push(row);
        proof {
            assert forall|j: int| 0 <= j < k implies #[trigger] stop_rows_view(out@)[j] == expected[j] by {
                assert(stop_rows_view(out@)[j] == stop_row_model(out@[j]));
                if j < k - 1 {
                    assert(out@[j] == o0[j]);
                    assert(stop_rows_view(o0)[j] == stop_row_model(o0[j]));
                } else {
                    assert(out@[j] == row);
                }
            }
        }
        k += 1;
    }
    proof {
        assert(stop_rows_view(out@) =~= expected);
    }
    out
}

/// The stop_times table a file's bytes yield.
pub open spec fn spec_parse_stop_times(data: Seq<u8>) -> Seq<Result<SpecStopTime, RowError>> {
    let recs = spec_records(data);
    if recs.len() == 0 {
        Seq::empty()
    } else {
        recs.drop_first().map_values(|row: Seq<Seq<u8>>| spec_stop_time_row(recs[0], row))
    }
}

/// Reads the stop_times table from a file's bytes.
pub fn parse_stop_times(data: &Vec<u8>) -> (r: Vec<Result<StopTime, RowError>>)
    ensures
        stop_time_rows_view(r@) == spec_parse_stop_times(data@),
{
    let recs = split_records(data);
    let mut out: Vec<Result<StopTime, RowError>> = Vec::new();
    let ghost rv = records_view(recs@);
    let ghost expected = spec_parse_stop_times(data@);
    if recs.len() == 0 {
        proof {
            assert(stop_time_rows_view(out@) =~= expected);
        }
        return out;
    }
    let n = recs.len();
    let mut k: usize = 1;
    while k < n
        invariant
            rv == records_view(recs@),
            rv == spec_records(data@),
            expected == spec_parse_stop_times(data@),
            n == recs@.len(),
            rv.len() == n,
            n >= 1,
            1 <= k <= n,
            expected.len() == n - 1,
            out@.len() == k - 1,
            forall|j: int|
                0 <= j < k - 1 ==> #[trigger] stop_time_rows_view(out@)[j] == expected[j],
        decreases n - k,
    {
        let row = parse_stop_time_row(&recs[0], &recs[k]);
        proof {
            assert(rv[0] == fields_view(recs@[0]@));
            assert(rv[k as int] == fields_view(recs@[k as int]@));
            assert(rv.drop_first()[k - 1] == rv[k as int]);
            assert(expected[k - 1] == spec_stop_time_row(rv[0], rv[k as int]));
        }
        let ghost o0 = out@;
        out.push(row);
        proof {
            assert forall|j: int| 0 <= j < k implies #[trigger] stop_time_rows_view(out@)[j] == expected[j] by {
                assert(stop_time_rows_view(out@)[j] == stop_time_row_model(out@[j]));
                if j < k - 1 {
                    assert(out@[j] == o0[j]);
                    assert(stop_time_rows_view(o0)[j] == stop_time_row_model(o0[j]));
                } else {
                    assert(out@[j] == row);
                }
            }
        }
        k += 1;
    }
    proof {
        assert(stop_time_rows_view(out@) =~= expected);
    }
    out
}

/// The trips table a file's bytes yield.
pub open spec fn spec_parse_trips(data: Seq<u8>) -> Seq<Result<SpecTrip, RowError>> {
    let recs = spec_records(data);
    if recs.len() == 0 {
        Seq::empty()
    } else {
        recs.drop_first().map_values(|row: Seq<Seq<u8>>| spec_trip_row(recs[0], row))
    }
}

/// Reads the trips table from a file's bytes.
pub fn parse_trips(data: &Vec<u8>) -> (r: Vec<Result<Trip, RowError>>)
    ensures
        trip_rows_view(r@) == spec_parse_trips(data@),
{
    let recs = split_records(data);
    let mut out: Vec<Result<Trip, RowError>> = Vec::new();
    let ghost rv = records_view(recs@);
    let ghost expected = spec_parse_trips(data@);
    if recs.len() == 0 {
        proof {
            assert(trip_rows_view(out@) =~= expected);
        }
        return out;
    }
    let n = recs.len();
    let mut k: usize = 1;
    while k < n
        invariant
            rv == records_view(recs@),
            rv == spec_records(data@),
            expected == spec_parse_trips(data@),
            n == recs@.len(),
            rv.len() == n,
            n >= 1,
            1 <= k <= n,
            expected.len() == n - 1,
            out@.len() == k - 1,
            forall|j: int| 0 <= j < k - 1 ==> #[trigger] trip_rows_view(out@)[j] == expected[j],
        decreases n - k,
    {
        let row = parse_trip_row(&recs[0], &recs[k]);
        proof {
            assert(rv[0] == fields_view(recs@[0]@));
            assert(rv[k as int] == fields_view(recs@[k as int]@));
            assert(rv.drop_first()[k - 1] == rv[k as int]);
            assert(expected[k - 1] == spec_trip_row(rv[0], rv[k as int]));
        }
        let ghost o0 = out@;
        out.push(row);
        proof {
            assert forall|j: int| 0 <= j < k implies #[trigger] trip_rows_view(out@)[j] == expected[j] by {
                assert(trip_rows_view(out@)[j] == trip_row_model(out@[j]));
                if j < k - 1 {
                    assert(out@[j] == o0[j]);
                    assert(trip_rows_view(o0)[j] == trip_row_model(o0[j]));
                } else {
                    assert(out@[j] == row);
                }
            }
        }
        k += 1;
    }
    proof {
        assert(trip_rows_view(out@) =~= expected);
    }
    out
}

/// The routes table a file's bytes yield.
pub open spec fn spec_parse_routes(data: Seq<u8>) -> Seq<Result<SpecRoute, RowError>> {
    let recs = spec_records(data);
    if recs.len() == 0 {
        Seq::empty()
    } else {
        recs.drop_first().map_values(|row: Seq<Seq<u8>>| spec_route_row(recs[0], row))
    }
}

/// Reads the routes table from a file's bytes.
pub fn parse_routes(data: &Vec<u8>) -> (r: Vec<Result<Route, RowError>>)
    ensures
        route_rows_view(r@) == spec_parse_routes(data@),
{
    let recs = split_records(data);
    let mut out: Vec<Result<Route, RowError>> = Vec::new();
    let ghost rv = records_view(recs@);
    let ghost expected = spec_parse_routes(data@);
    if recs.len() == 0 {
        proof {
            assert(route_rows_view(out@) =~= expected);
        }
        return out;
    }
    let n = recs.len();
    let mut k: usize = 1;
    while k < n
        invariant
            rv == records_view(recs@),
            rv == spec_records(data@),
            expected == spec_parse_routes(data@),
            n == recs@.len(),
            rv.len() == n,
            n >= 1,
            1 <= k <= n,
            expected.len() == n - 1,
            out@.len() == k - 1,
            forall|j: int| 0 <= j < k - 1 ==> #[trigger] route_rows_view(out@)[j] == expected[j],
        decreases n - k,
    {
        let row = parse_route_row(&recs[0], &recs[k]);
        proof {
            assert(rv[0] == fields_view(recs@[0]@));
            assert(rv[k as int] == fields_view(recs@[k as int]@));
            assert(rv.drop_first()[k - 1] == rv[k as int]);
            assert(expected[k - 1] == spec_route_row(rv[0], rv[k as int]));
        }
        let ghost o0 = out@;
        out.push(row);
        proof {
            assert forall|j: int| 0 <= j < k implies #[trigger] route_rows_view(out@)[j] == expected[j] by {
                assert(route_rows_view(out@)[j] == route_row_model(out@[j]));
                if j < k - 1 {
                    assert(out@[j] == o0[j]);
                    assert(route_rows_view(o0)[j] == route_row_model(o0[j]));
                } else {
                    assert(out@[j] == row);
                }
            }
        }
        k += 1;
    }
    proof {
        assert(route_rows_view(out@) =~= expected);
    }
    out
}

/// The calendar table a file's bytes yield.
pub open spec fn spec_parse_calendar(data: Seq<u8>) -> Seq<Result<SpecCalendar, RowError>> {
    let recs = spec_records(data);
    if recs.len() == 0 {
        Seq::empty()
    } else {
        recs.drop_first().map_values(|row: Seq<Seq<u8>>| spec_calendar_row(recs[0], row))
    }
}

/// Reads the calendar table from a file's bytes.
pub fn parse_calendar(data: &Vec<u8>) -> (r: Vec<Result<Calendar, RowError>>)
    ensures
        calendar_rows_view(r@) == spec_parse_calendar(data@),
{
    let recs = split_records(data);
    let mut out: Vec<Result<Calendar, RowError>> = Vec::new();
    let ghost rv = records_view(recs@);
    let ghost expected = spec_parse_calendar(data@);
    if recs.len() == 0 {
        proof {
            assert(calendar_rows_view(out@) =~= expected);
        }
        return out;
    }
    let n = recs.len();
    let mut k: usize = 1;
    while k < n
        invariant
            rv == records_view(recs@),
            rv == spec_records(data@),
            expected == spec_parse_calendar(data@),
            n == recs@.len(),
            rv.len() == n,
            n >= 1,
            1 <= k <= n,
            expected.len() == n - 1,
            out@.len() == k - 1,
            forall|j: int|
                0 <= j < k - 1 ==> #[trigger] calendar_rows_view(out@)[j] == expected[j],
        decreases n - k,
    {
        let row = parse_calendar_row(&recs[0], &recs[k]);
        proof {
            assert(rv[0] == fields_view(recs@[0]@));
            assert(rv[k as int] == fields_view(recs@[k as int]@));
            assert(rv.drop_first()[k - 1] == rv[k as int]);
            assert(expected[k - 1] == spec_calendar_row(rv[0], rv[k as int]));
        }
        let ghost o0 = out@;
        out.push(row);
        proof {
            assert forall|j: int| 0 <= j < k implies #[trigger] calendar_rows_view(out@)[j] == expected[j] by {
                assert(calendar_rows_view(out@)[j] == calendar_row_model(out@[j]));
                if j < k - 1 {
                    assert(out@[j] == o0[j]);
                    assert(calendar_rows_view(o0)[j] == calendar_row_model(o0[j]));
                } else {
                    assert(out@[j] == row);
                }
            }
        }
        k += 1;
    }
    proof {
        assert(calendar_rows_view(out@) =~= expected);
    }
    out
}

/// The five parsed tables of a feed, each a sequence of per-row outcomes
/// in file order.
pub struct Feed {
    pub stops: Vec<Result<Stop, RowError>>,
    pub stop_times: Vec<Result<StopTime, RowError>>,
    pub trips: Vec<Result<Trip, RowError>>,
    pub routes: Vec<Result<Route, RowError>>,
    pub calendar: Vec<Result<Calendar, RowError>>,
}

pub struct SpecFeed {
    pub stops: Seq<Result<SpecStop, RowError>>,
    pub stop_times: Seq<Result<SpecStopTime, RowError>>,
    pub trips: Seq<Result<SpecTrip, RowError>>,
    pub routes: Seq<Result<SpecRoute, RowError>>,
    pub calendar: Seq<Result<SpecCalendar, RowError>>,
}

impl View for Feed {
    type V = SpecFeed;

    open spec fn view(&self) -> SpecFeed {
        SpecFeed {
            stops: stop_rows_view(self.stops@),
            stop_times: stop_time_rows_view(self.stop_times@),
            trips: trip_rows_view(self.trips@),
            routes: route_rows_view(self.routes@),
            calendar: calendar_rows_view(self.calendar@),
        }
    }
}

/// The feed that five table files' bytes yield.
pub open spec fn spec_parse_feed(
    stops_data: Seq<u8>,
    stop_times_data: Seq<u8>,
    trips_data: Seq<u8>,
    routes_data: Seq<u8>,
    calendar_data: Seq<u8>,
) -> SpecFeed {
    SpecFeed {
        stops: spec_parse_stops(stops_data),
        stop_times: spec_parse_stop_times(stop_times_data),
        trips: spec_parse_trips(trips_data),
        routes: spec_parse_routes(routes_data),
        calendar: spec_parse_calendar(calendar_data),
    }
}

/// Reads all five tables of a feed from their files' bytes.
pub fn parse_feed(
    stops_data: &Vec<u8>,
    stop_times_data: &Vec<u8>,
    trips_data: &Vec<u8>,
    routes_data: &Vec<u8>,
    calendar_data: &Vec<u8>,
) -> (f: Feed)
    ensures
        f@ == spec_parse_feed(stops_data@, stop_times_data@, trips_data@, routes_data@, calendar_data@),
{
    Feed {
        stops: parse_stops(stops_data),
        stop_times: parse_stop_times(stop_times_data),
        trips: parse_trips(trips_data),
        routes: parse_routes(routes_data),
        calendar: parse_calendar(calendar_data),
    }
}

} // verus!
