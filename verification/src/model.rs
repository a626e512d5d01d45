//! Entity records for the five feed tables, the derived result types, and
//! the reference instant handed in by the caller.
//!
//! Every textual field is a UTF-8 byte string (`Vec<u8>`); coordinates are
//! held in millionths of a degree; clock values are offsets from local
//! midnight that may exceed 24 hours.

use vstd::prelude::*;

verus! {

/// A clock value from a stop_times row: duration since local midnight,
/// split as written in the feed. Minutes and seconds are not required to
/// be below 60, and hours may exceed 24 (next-day service).
#[derive(Clone, Copy, PartialEq, Eq, Structural, Debug)]
pub struct TimeOffset {
    pub hours: u32,
    pub minutes: u32,
    pub seconds: u32,
}

/// No time offset reaches this many seconds: it bounds
/// `TimeOffset::to_seconds` and with it the distance of any departure or
/// arrival instant from midnight.
pub const OFFSET_LIMIT: i64 = 0x1000_0000_0000;

impl TimeOffset {
    /// The offset as a whole number of seconds.
    pub open spec fn to_seconds(self) -> int {
        self.hours * 3600 + self.minutes * 60 + self.seconds
    }

    pub proof fn lemma_to_seconds_bound(self)
        ensures
            0 <= self.to_seconds() < OFFSET_LIMIT,
    {
        assert(self.hours * 3600 <= 0xffff_ffff * 3600);
        assert(self.minutes * 60 <= 0xffff_ffff * 60);
        assert(self.seconds <= 0xffff_ffff);
    }

    /// The offset in seconds, as a machine integer.
    pub fn seconds_total(&self) -> (r: i64)
        ensures
            r == self.to_seconds(),
    {
        proof {
            self.lemma_to_seconds_bound();
        }
        (self.hours as i64) * 3600 + (self.minutes as i64) * 60 + (self.seconds as i64)
    }
}

/// A stop: a named place served by trips. `lat` and `lon` hold the
/// coordinate fields as decimal text, checked against the coordinate
/// grammar when the row was read; the pipeline only carries them through.
#[derive(Clone, Debug)]
pub struct Stop {
    pub id: Vec<u8>,
    pub name: Vec<u8>,
    pub lat: Vec<u8>,
    pub lon: Vec<u8>,
}

pub struct SpecStop {
    pub id: Seq<u8>,
    pub name: Seq<u8>,
    pub lat: Seq<u8>,
    pub lon: Seq<u8>,
}

impl View for Stop {
    type V = SpecStop;

    open spec fn view(&self) -> SpecStop {
        SpecStop { id: self.id@, name: self.name@, lat: self.lat@, lon: self.lon@ }
    }
}

/// A scheduled visit of a trip to a stop.
#[derive(Clone, Debug)]
pub struct StopTime {
    pub trip_id: Vec<u8>,
    pub arrival_time: TimeOffset,
    pub departure_time: TimeOffset,
    pub stop_id: Vec<u8>,
    pub stop_sequence: u64,
}

pub struct SpecStopTime {
    pub trip_id: Seq<u8>,
    pub arrival_time: TimeOffset,
    pub departure_time: TimeOffset,
    pub stop_id: Seq<u8>,
    pub stop_sequence: u64,
}

impl View for StopTime {
    type V = SpecStopTime;

    open spec fn view(&self) -> SpecStopTime {
        SpecStopTime {
            trip_id: self.trip_id@,
            arrival_time: self.arrival_time,
            departure_time: self.departure_time,
            stop_id: self.stop_id@,
            stop_sequence: self.stop_sequence,
        }
    }
}

/// One scheduled run of a route, linking stop times to a route and to an
/// operating calendar.
#[derive(Clone, Debug)]
pub struct Trip {
    pub route_id: Vec<u8>,
    pub service_id: Vec<u8>,
    pub trip_id: Vec<u8>,
}

pub struct SpecTrip {
    pub route_id: Seq<u8>,
    pub service_id: Seq<u8>,
    pub trip_id: Seq<u8>,
}

impl View for Trip {
    type V = SpecTrip;

    open spec fn view(&self) -> SpecTrip {
        SpecTrip { route_id: self.route_id@, service_id: self.service_id@, trip_id: self.trip_id@ }
    }
}

/// The mode of travel a route uses, as encoded by the feed.
#[derive(Clone, Copy, PartialEq, Eq, Structural, Debug)]
pub enum RouteType {
    LightRail,
    Subway,
    Rail,
    Bus,
    Ferry,
    CableCar,
    Gondola,
    Funicular,
}

impl RouteType {
    /// The route type for a feed code, if the code is a known one.
    pub open spec fn spec_from_code(code: u32) -> Option<RouteType> {
        match code {
            0u32 => Some(RouteType::LightRail),
            1u32 => Some(RouteType::Subway),
            2u32 => Some(RouteType::Rail),
            3u32 => Some(RouteType::Bus),
            4u32 => Some(RouteType::Ferry),
            5u32 => Some(RouteType::CableCar),
            6u32 => Some(RouteType::Gondola),
            7u32 => Some(RouteType::Funicular),
            _ => None,
        }
    }

    pub fn from_code(code: u32) -> (r: Option<RouteType>)
        ensures
            r == RouteType::spec_from_code(code),
    {
        match code {
            0u32 => Some(RouteType::LightRail),
            1u32 => Some(RouteType::Subway),
            2u32 => Some(RouteType::Rail),
            3u32 => Some(RouteType::Bus),
            4u32 => Some(RouteType::Ferry),
            5u32 => Some(RouteType::CableCar),
            6u32 => Some(RouteType::Gondola),
            7u32 => Some(RouteType::Funicular),
            _ => None,
        }
    }

    pub open spec fn spec_label(self) -> Seq<char> {
        match self {
            RouteType::LightRail => "Light Rail"@,
            RouteType::Subway => "Subway"@,
            RouteType::Rail => "Rail"@,
            RouteType::Bus => "Bus"@,
            RouteType::Ferry => "Ferry"@,
            RouteType::CableCar => "Cable Car"@,
            RouteType::Gondola => "Gondola"@,
            RouteType::Funicular => "Funicular"@,
        }
    }

    /// A human label for the route type.
    pub fn label(&self) -> (r: &'static str)
        ensures
            r@ == self.spec_label(),
    {
        match self {
            RouteType::LightRail => "Light Rail",
            RouteType::Subway => "Subway",
            RouteType::Rail => "Rail",
            RouteType::Bus => "Bus",
            RouteType::Ferry => "Ferry",
            RouteType::CableCar => "Cable Car",
            RouteType::Gondola => "Gondola",
            RouteType::Funicular => "Funicular",
        }
    }
}

/// A human label for a raw route-type code; codes outside the enumerated
/// set get an explicit unknown label rather than a guess.
pub fn route_code_label(code: u32) -> (r: &'static str)
    ensures
        RouteType::spec_from_code(code) is Some ==> r@ == RouteType::spec_from_code(
            code,
        )->Some_0.spec_label(),
        RouteType::spec_from_code(code) is None ==> r@ == "Unknown"@,
{
    match RouteType::from_code(code) {
        Some(t) => t.label(),
        None => "Unknown",
    }
}

/// A route: display metadata for a line that trips run on.
#[derive(Clone, Debug)]
pub struct Route {
    pub route_id: Vec<u8>,
    pub short_name: Vec<u8>,
    pub long_name: Vec<u8>,
    pub route_type: RouteType,
}

pub struct SpecRoute {
    pub route_id: Seq<u8>,
    pub short_name: Seq<u8>,
    pub long_name: Seq<u8>,
    pub route_type: RouteType,
}

impl View for Route {
    type V = SpecRoute;

    open spec fn view(&self) -> SpecRoute {
        SpecRoute {
            route_id: self.route_id@,
            short_name: self.short_name@,
            long_name: self.long_name@,
            route_type: self.route_type,
        }
    }
}

/// A day of the week, as the reference date falls on it.
#[derive(Clone, Copy, PartialEq, Eq, Structural, Debug)]
pub enum Weekday {
    Monday,
    Tuesday,
    Wednesday,
    Thursday,
    Friday,
    Saturday,
    Sunday,
}

/// A calendar row: a weekly operating pattern for a service id, valid over
/// an inclusive date range. Dates are held as `yyyymmdd` numbers, whose
/// integer order agrees with date order.
#[derive(Clone, Debug)]
pub struct Calendar {
    pub service_id: Vec<u8>,
    pub monday: bool,
    pub tuesday: bool,
    pub wednesday: bool,
    pub thursday: bool,
    pub friday: bool,
    pub saturday: bool,
    pub sunday: bool,
    pub start_date: u32,
    pub end_date: u32,
}

pub struct SpecCalendar {
    pub service_id: Seq<u8>,
    pub monday: bool,
    pub tuesday: bool,
    pub wednesday: bool,
    pub thursday: bool,
    pub friday: bool,
    pub saturday: bool,
    pub sunday: bool,
    pub start_date: u32,
    pub end_date: u32,
}

impl View for Calendar {
    type V = SpecCalendar;

    open spec fn view(&self) -> SpecCalendar {
        SpecCalendar {
            service_id: self.service_id@,
            monday: self.monday,
            tuesday: self.tuesday,
            wednesday: self.wednesday,
            thursday: self.thursday,
            friday: self.friday,
            saturday: self.saturday,
            sunday: self.sunday,
            start_date: self.start_date,
            end_date: self.end_date,
        }
    }
}

impl SpecCalendar {
    /// The weekday flag of this row for the given day.
    pub open spec fn runs_on(self, day: Weekday) -> bool {
        match day {
            Weekday::Monday => self.monday,
            Weekday::Tuesday => self.tuesday,
            Weekday::Wednesday => self.wednesday,
            Weekday::Thursday => self.thursday,
            Weekday::Friday => self.friday,
            Weekday::Saturday => self.saturday,
            Weekday::Sunday => self.sunday,
        }
    }
}

impl Calendar {
    /// Reads the weekday flag for the given day.
    pub fn runs_on(&self, day: Weekday) -> (r: bool)
        ensures
            r == self@.runs_on(day),
    {
        match day {
            Weekday::Monday => self.monday,
            Weekday::Tuesday => self.tuesday,
            Weekday::Wednesday => self.wednesday,
            Weekday::Thursday => self.thursday,
            Weekday::Friday => self.friday,
            Weekday::Saturday => self.saturday,
            Weekday::Sunday => self.sunday,
        }
    }
}

/// The reference instant of a query, reduced to plain values: the instant
/// itself and the local midnight that clock offsets are anchored to, both
/// in seconds on one linear timeline (such as Unix time), together with
/// the reference date as a `yyyymmdd` number and its day of the week.
#[derive(Clone, Copy, PartialEq, Eq, Structural, Debug)]
pub struct Moment {
    pub seconds: i64,
    pub midnight: i64,
    pub date: u32,
    pub weekday: Weekday,
}

impl Moment {
    /// Departure and arrival instants are computed as `midnight` plus a
    /// clock offset; this keeps that sum inside `i64`.
    pub open spec fn wf(self) -> bool {
        self.midnight <= i64::MAX - OFFSET_LIMIT
    }

    /// Tests the bound that the query functions require of the moment.
    pub fn is_wf(&self) -> (r: bool)
        ensures
            r == self.wf(),
    {
        self.midnight <= i64::MAX - OFFSET_LIMIT
    }
}

/// Why a single row of a feed table failed to parse. A bad row is skipped;
/// it never aborts the scan of its table.
#[derive(Clone, Copy, PartialEq, Eq, Structural, Debug)]
pub enum RowError {
    /// The row has a different number of fields than the header.
    FieldCount,
    /// The header lacks a column that the table requires.
    MissingColumn,
    /// A numeric field does not parse as a whole number.
    BadNumber,
    /// A coordinate field does not parse as a decimal number.
    BadCoordinate,
    /// A clock field is not three colon-separated numbers.
    BadTime,
    /// A date field is not a valid `yyyymmdd` date.
    BadDate,
    /// A weekday flag is neither 0 nor 1.
    BadFlag,
    /// A route type code is outside the known set.
    BadRouteType,
}

/// A station, as listed by the station lister: a stop name.
#[derive(Clone, Debug)]
pub struct Station {
    pub name: Vec<u8>,
}

/// One answer of the timetable query: a single-trip connection from an
/// origin candidate to a destination candidate. Instants are seconds on
/// the same timeline as the query's `Moment`; the longitude of the
/// destination stop rides along for presentation.
#[derive(Clone, Debug)]
pub struct Service {
    pub arrival_longitude: Vec<u8>,
    pub departure_time: i64,
    pub arrival_time: i64,
    pub short_name: Vec<u8>,
    pub long_name: Vec<u8>,
}

pub struct SpecService {
    pub arrival_longitude: Seq<u8>,
    pub departure_time: i64,
    pub arrival_time: i64,
    pub short_name: Seq<u8>,
    pub long_name: Seq<u8>,
}

impl View for Service {
    type V = SpecService;

    open spec fn view(&self) -> SpecService {
        SpecService {
            arrival_longitude: self.arrival_longitude@,
            departure_time: self.departure_time,
            arrival_time: self.arrival_time,
            short_name: self.short_name@,
            long_name: self.long_name@,
        }
    }
}

/// The display name of a service: its route's short and long name joined
/// with a separator, omitting an empty part.
pub open spec fn spec_service_name(short: Seq<u8>, long: Seq<u8>) -> Seq<u8> {
    if short.len() == 0 {
        long
    } else if long.len() == 0 {
        short
    } else {
        short + seq![32u8, 45u8, 32u8] + long
    }
}

impl Service {
    /// Joins the route's short and long names with `" - "`, leaving out
    /// whichever part is empty.
    pub fn name(&self) -> (r: Vec<u8>)
        ensures
            r@ == spec_service_name(self.short_name@, self.long_name@),
    {
        if self.short_name.len() == 0 {
            return self.long_name.clone();
        }
        if self.long_name.len() == 0 {
            return self.short_name.clone();
        }
        let mut out = self.short_name.clone();
        out.push(32u8);
        out.push(45u8);
        out.push(32u8);
        let mut i: usize = 0;
        let n = self.long_name.len();
        while i < n
            invariant
                n == self.long_name@.len(),
                i <= n,
                out@ == self.short_name@ + seq![32u8, 45u8, 32u8] + self.long_name@.take(i as int),
            decreases n - i,
        {
            out.push(self.long_name[i]);
            proof {
                assert(self.long_name@.take(i + 1) =~= self.long_name@.take(i as int).push(
                    self.long_name@[i as int],
                ));
                assert(out@ =~= self.short_name@ + seq![32u8, 45u8, 32u8]
                    + self.long_name@.take(i + 1));
            }
            i += 1;
        }
        proof {
            assert(self.long_name@.take(n as int) =~= self.long_name@);
        }
        out
    }
}

} // verus!
