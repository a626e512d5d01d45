//! End-to-end tests of the search pipeline on a small demonstration
//! feed: station listing, the timetable query, and the behaviours the
//! library promises of them.

use timetable::gtfs::{parse_feed, Feed};
use timetable::model::{Moment, Weekday};
use timetable::search::Search;

fn stops_txt() -> &'static str {
    "stop_id,stop_name,stop_desc,stop_lat,stop_lon,zone_id,stop_url,stop_code,location_type,parent_station
FUR_CREEK_RES,Furnace Creek Resort (Demo),,36.425288,-117.133162,,,1234,,
BEATTY_AIRPORT,Nye County Airport (Demo),,36.868446,-116.784582,,,1235,0,BEATTY_AIRPORT_STATION
BEATTY_AIRPORT_STATION,Nye County Airport (Demo),,36.868446,-116.784582,,,1235,1,
BULLFROG,Bullfrog (Demo),,36.88108,-116.81797,,,,,
STAGECOACH,Stagecoach Hotel & Casino (Demo),,36.915682,-116.751677,,,1236,,
NADAV,North Ave / D Ave N (Demo),,36.914893,-116.76821,,,1237,,
NANAA,North Ave / N A Ave (Demo),,36.914944,-116.761472,,,1238,,
DADAN,Doing Ave / D Ave N (Demo),,36.909489,-116.768242,,,,,
EMSI,E Main St / S Irving St (Demo),,36.905697,-116.76218,,,,,
AMV,Amargosa Valley (Demo),,36.641496,-116.40094,,,,,
"
}

fn stop_times_txt() -> &'static str {
    "trip_id,arrival_time,departure_time,stop_id,stop_sequence,stop_headsign,pickup_type,drop_off_type,shape_dist_traveled
STBA,6:00:00,6:00:00,STAGECOACH,0,to airport,1,0,0.212
STBA,6:20:00,6:20:00,BEATTY_AIRPORT,2,,0,0,1.043
CITY1,6:00:00,6:00:00,STAGECOACH,0,,,,
CITY1,6:05:00,6:07:00,NANAA,5,going to nadav,2,3,
CITY1,6:12:00,6:14:00,NADAV,10,,,,
CITY1,6:19:00,6:21:00,DADAN,15,,,,
CITY1,6:26:00,6:28:00,EMSI,20,,,,
CITY2,6:28:00,6:30:00,EMSI,100,,,,
CITY2,6:35:00,6:37:00,DADAN,200,,,,
CITY2,6:42:00,6:44:00,NADAV,300,,,,
CITY2,6:49:00,6:51:00,NANAA,400,,,,
CITY2,6:56:00,6:58:00,STAGECOACH,500,,,,
AB1,8:00:00,8:00:00,BEATTY_AIRPORT,1,,,,
AB1,8:10:00,8:15:00,BULLFROG,2,,,,
AB2,12:05:00,12:05:00,BULLFROG,1,,,,
AB2,12:15:00,12:15:00,BEATTY_AIRPORT,2,,,,
BFC1,8:20:00,8:20:00,BULLFROG,1,,,,
BFC1,9:20:00,9:20:00,FUR_CREEK_RES,2,,,,
BFC2,11:00:00,11:00:00,FUR_CREEK_RES,1,,,,
BFC2,12:00:00,12:00:00,BULLFROG,2,,,,
AAMV1,8:00:00,8:00:00,BEATTY_AIRPORT,1,,,,
AAMV1,9:00:00,9:00:00,AMV,2,,,,
AAMV2,10:00:00,10:00:00,AMV,1,,,,
AAMV2,11:00:00,11:00:00,BEATTY_AIRPORT,2,,,,
AAMV3,13:00:00,13:00:00,BEATTY_AIRPORT,1,,,,
AAMV3,14:00:00,14:00:00,AMV,2,,,,
AAMV4,15:00:00,15:00:00,AMV,1,,,,
AAMV4,16:00:00,16:00:00,BEATTY_AIRPORT,2,,,,
"
}

fn trips_txt() -> &'static str {
    "route_id,service_id,trip_id,trip_headsign,direction_id,block_id,shape_id
AB,FULLW,AB1,to Bullfrog,0,1,
AB,FULLW,AB2,to Airport,1,2,
STBA,FULLW,STBA,Shuttle,,,
CITY,FULLW,CITY1,,0,,
CITY,FULLW,CITY2,,1,,
BFC,FULLW,BFC1,to Furnace Creek Resort,0,1,
BFC,FULLW,BFC2,to Bullfrog,1,2,
AAMV,WE,AAMV1,to Amargosa Valley,0,,
AAMV,WE,AAMV2,to Airport,1,,
AAMV,WE,AAMV3,to Amargosa Valley,0,,
AAMV,WE,AAMV4,to Airport,1,,"
}

fn routes_txt() -> &'static str {
    "route_id,agency_id,route_short_name,route_long_name,route_desc,route_type,route_url,route_color,route_text_color
AB,DTA,,Airport ⇒ Bullfrog,,3,,,
BFC,DTA,,Bullfrog ⇒ Furnace Creek Resort,,3,,,
STBA,DTA,,Stagecoach ⇒ Airport Shuttle,,3,,,
CITY,DTA,Ō,Bar Circle,Route with ĸool unicode shortname,3,,,
AAMV,DTA,,Airport ⇒ Amargosa Valley,,3,,,
"
}

fn calendar_txt() -> &'static str {
    "service_id,monday,tuesday,wednesday,thursday,friday,saturday,sunday,start_date,end_date
FULLW,1,1,1,1,1,1,1,20070101,20251231
WE,0,0,0,0,0,1,1,20070101,20251231
"
}

fn demo_feed() -> Feed {
    parse_feed(
        &stops_txt().as_bytes().to_vec(),
        &stop_times_txt().as_bytes().to_vec(),
        &trips_txt().as_bytes().to_vec(),
        &routes_txt().as_bytes().to_vec(),
        &calendar_txt().as_bytes().to_vec(),
    )
}

/// 2017-12-21 (a Thursday) at the given local clock time, with local
/// midnight pinned to zero on the timeline.
fn on_demo_day(hour: i64, minute: i64) -> Moment {
    Moment { seconds: hour * 3600 + minute * 60, midnight: 0, date: 20171221, weekday: Weekday::Thursday }
}

#[test]
fn test_stations() {
    let search = Search::new(demo_feed());
    let results = search.stations();

    assert_eq!(results.len(), 9);
    for station in results.iter().take(1) {
        assert_eq!(station.name, "Amargosa Valley (Demo)".as_bytes().to_vec());
    }
}

#[test]
fn test_timetable() {
    let time = on_demo_day(7, 30);
    let search = Search::new(demo_feed());
    let results = search.timetable(
        &"airport".as_bytes().to_vec(),
        &"bullfrog".as_bytes().to_vec(),
        &time,
    );

    assert_eq!(results.len(), 1);
    for service in results.iter() {
        assert_eq!(service.departure_time, 8 * 3600);
        assert_eq!(service.arrival_time, 8 * 3600 + 10 * 60);
        assert_eq!(service.name(), "Airport ⇒ Bullfrog".as_bytes().to_vec());
    }
}

#[test]
fn test_timetable_fuzzy() {
    let time = on_demo_day(7, 30);
    let search = Search::new(demo_feed());
    assert_eq!(
        search
            .timetable(&"AIRPORT".as_bytes().to_vec(), &"Bullfrog".as_bytes().to_vec(), &time)
            .len(),
        1
    );
}

#[test]
fn stations_sorted_and_distinct() {
    let search = Search::new(demo_feed());
    let results = search.stations();
    let expected: Vec<&str> = vec![
        "Amargosa Valley (Demo)",
        "Bullfrog (Demo)",
        "Doing Ave / D Ave N (Demo)",
        "E Main St / S Irving St (Demo)",
        "Furnace Creek Resort (Demo)",
        "North Ave / D Ave N (Demo)",
        "North Ave / N A Ave (Demo)",
        "Nye County Airport (Demo)",
        "Stagecoach Hotel & Casino (Demo)",
    ];
    assert_eq!(results.len(), expected.len());
    for (station, name) in results.iter().zip(expected.iter()) {
        assert_eq!(station.name, name.as_bytes().to_vec());
    }
}

#[test]
fn results_sorted_by_departure() {
    // Stagecoach serves both city loop trips and the airport shuttle.
    let time = on_demo_day(5, 0);
    let search = Search::new(demo_feed());
    let results = search.timetable(
        &"stagecoach".as_bytes().to_vec(),
        &"ave".as_bytes().to_vec(),
        &time,
    );
    assert!(results.len() > 1);
    for pair in results.windows(2) {
        assert!(pair[0].departure_time <= pair[1].departure_time);
    }
    for service in results.iter() {
        assert!(service.departure_time > time.seconds);
        assert!(service.arrival_time > service.departure_time);
    }
}

#[test]
fn same_query_twice_is_identical() {
    let search = Search::new(demo_feed());
    let time = on_demo_day(7, 30);
    let from = "airport".as_bytes().to_vec();
    let to = "bullfrog".as_bytes().to_vec();
    let first = search.timetable(&from, &to, &time);
    let second = search.timetable(&from, &to, &time);
    assert_eq!(first.len(), second.len());
    for (a, b) in first.iter().zip(second.iter()) {
        assert_eq!(a.departure_time, b.departure_time);
        assert_eq!(a.arrival_time, b.arrival_time);
        assert_eq!(a.short_name, b.short_name);
        assert_eq!(a.long_name, b.long_name);
        assert_eq!(a.arrival_longitude, b.arrival_longitude);
    }
}

#[test]
fn query_case_does_not_matter() {
    let search = Search::new(demo_feed());
    let time = on_demo_day(7, 30);
    let lower = search.timetable(
        &"airport".as_bytes().to_vec(),
        &"bullfrog".as_bytes().to_vec(),
        &time,
    );
    let upper = search.timetable(
        &"AIRPORT".as_bytes().to_vec(),
        &"BULLFROG".as_bytes().to_vec(),
        &time,
    );
    let mixed = search.timetable(
        &"AirPort".as_bytes().to_vec(),
        &"BullFrog".as_bytes().to_vec(),
        &time,
    );
    assert!(!lower.is_empty());
    assert_eq!(lower.len(), upper.len());
    assert_eq!(lower.len(), mixed.len());
    for (a, b) in lower.iter().zip(upper.iter()) {
        assert_eq!(a.departure_time, b.departure_time);
        assert_eq!(a.long_name, b.long_name);
    }
    for (a, b) in lower.iter().zip(mixed.iter()) {
        assert_eq!(a.departure_time, b.departure_time);
        assert_eq!(a.long_name, b.long_name);
    }
}

#[test]
fn reference_after_last_departure_is_empty() {
    let search = Search::new(demo_feed());
    let time = on_demo_day(23, 0);
    let results = search.timetable(
        &"airport".as_bytes().to_vec(),
        &"bullfrog".as_bytes().to_vec(),
        &time,
    );
    assert_eq!(results.len(), 0);
}

#[test]
fn hyphens_are_ignored_in_matching() {
    let search = Search::new(demo_feed());
    let time = on_demo_day(7, 30);
    let results = search.timetable(
        &"air-port".as_bytes().to_vec(),
        &"bull-frog".as_bytes().to_vec(),
        &time,
    );
    assert_eq!(results.len(), 1);
}

#[test]
fn name_matching_both_fragments_is_departure_only() {
    // "Alpha Beta Plaza" contains both fragments, so it may only ever be
    // a departure candidate; the plain "Beta" stop receives the arrival.
    let stops = "stop_id,stop_name,stop_lat,stop_lon\n\
                 AB,Alpha Beta Plaza,1.0,2.0\n\
                 B,Beta Terminal,3.0,4.0\n";
    let stop_times = "trip_id,arrival_time,departure_time,stop_id,stop_sequence\n\
                      T1,08:00:00,08:00:00,AB,1\n\
                      T1,08:30:00,08:30:00,B,2\n";
    let trips = "route_id,service_id,trip_id\nR1,S1,T1\n";
    let routes = "route_id,route_short_name,route_long_name,route_type\nR1,,Alpha ⇒ Beta,3\n";
    let calendar = "service_id,monday,tuesday,wednesday,thursday,friday,saturday,sunday,start_date,end_date\n\
                    S1,1,1,1,1,1,1,1,20070101,20251231\n";
    let feed = parse_feed(
        &stops.as_bytes().to_vec(),
        &stop_times.as_bytes().to_vec(),
        &trips.as_bytes().to_vec(),
        &routes.as_bytes().to_vec(),
        &calendar.as_bytes().to_vec(),
    );
    let search = Search::new(feed);
    let time = on_demo_day(7, 0);

    // Origin fragment matching the double-match stop: one connection.
    let results = search.timetable(&"alpha".as_bytes().to_vec(), &"beta".as_bytes().to_vec(), &time);
    assert_eq!(results.len(), 1);
    assert_eq!(results[0].departure_time, 8 * 3600);
    assert_eq!(results[0].arrival_time, 8 * 3600 + 30 * 60);

    // With "beta" as the origin, both stops become departure candidates
    // (origin priority), so nothing can arrive anywhere.
    let results = search.timetable(&"beta".as_bytes().to_vec(), &"alpha".as_bytes().to_vec(), &time);
    assert_eq!(results.len(), 0);
}

#[test]
fn calendar_filter_fails_open_without_matching_rows() {
    // A feed whose calendar has no row for the trip's service: the
    // service-activity filter is skipped and the connection is kept.
    let stops = "stop_id,stop_name,stop_lat,stop_lon\nA,Origin,1.0,2.0\nB,Target,3.0,4.0\n";
    let stop_times = "trip_id,arrival_time,departure_time,stop_id,stop_sequence\n\
                      T1,09:00:00,09:00:00,A,1\n\
                      T1,09:45:00,09:45:00,B,2\n";
    let trips = "route_id,service_id,trip_id\nR1,ABSENT,T1\n";
    let routes = "route_id,route_short_name,route_long_name,route_type\nR1,X,Origin Target,3\n";
    let calendar = "service_id,monday,tuesday,wednesday,thursday,friday,saturday,sunday,start_date,end_date\n";
    let feed = parse_feed(
        &stops.as_bytes().to_vec(),
        &stop_times.as_bytes().to_vec(),
        &trips.as_bytes().to_vec(),
        &routes.as_bytes().to_vec(),
        &calendar.as_bytes().to_vec(),
    );
    let search = Search::new(feed);
    let time = on_demo_day(8, 0);
    let results = search.timetable(&"origin".as_bytes().to_vec(), &"target".as_bytes().to_vec(), &time);
    assert_eq!(results.len(), 1);
}

#[test]
fn weekday_flag_excludes_service() {
    // The demonstration feed's AAMV service runs on weekends only; the
    // reference date is a Thursday, so the Amargosa trips are excluded.
    let search = Search::new(demo_feed());
    let time = on_demo_day(7, 0);
    let results = search.timetable(
        &"airport".as_bytes().to_vec(),
        &"amargosa".as_bytes().to_vec(),
        &time,
    );
    assert_eq!(results.len(), 0);
}

#[test]
fn return_legs_are_rejected() {
    // AB2 runs Bullfrog -> Airport; querying airport -> bullfrog at noon
    // must not surface its reversed stops.
    let search = Search::new(demo_feed());
    let time = on_demo_day(11, 0);
    let results = search.timetable(
        &"airport".as_bytes().to_vec(),
        &"bullfrog".as_bytes().to_vec(),
        &time,
    );
    assert_eq!(results.len(), 0);
}

#[test]
fn longitude_of_destination_is_carried() {
    let search = Search::new(demo_feed());
    let time = on_demo_day(7, 30);
    let results = search.timetable(
        &"airport".as_bytes().to_vec(),
        &"bullfrog".as_bytes().to_vec(),
        &time,
    );
    assert_eq!(results.len(), 1);
    assert_eq!(results[0].arrival_longitude, "-116.81797".as_bytes().to_vec());
}

#[test]
fn zero_matches_is_no_error() {
    let search = Search::new(demo_feed());
    let time = on_demo_day(7, 30);
    let results = search.timetable(
        &"nowhere".as_bytes().to_vec(),
        &"bullfrog".as_bytes().to_vec(),
        &time,
    );
    assert_eq!(results.len(), 0);
}

#[test]
fn empty_origin_claims_every_stop() {
    // The empty fragment is contained in every name, so every stop
    // becomes a departure candidate and nothing is left to arrive at.
    let search = Search::new(demo_feed());
    let time = on_demo_day(7, 30);
    let results = search.timetable(&Vec::new(), &"bullfrog".as_bytes().to_vec(), &time);
    assert_eq!(results.len(), 0);
}

#[test]
fn stations_skip_bad_rows() {
    let stops = "stop_id,stop_name,stop_lat,stop_lon\n\
                 A,Alpha,1.0,2.0\n\
                 B,Broken,bad,2.0\n\
                 C,Gamma,3.0,4.0\n";
    let empty_sts = "trip_id,arrival_time,departure_time,stop_id,stop_sequence\n";
    let empty_trips = "route_id,service_id,trip_id\n";
    let empty_routes = "route_id,route_short_name,route_long_name,route_type\n";
    let empty_cal = "service_id,monday,tuesday,wednesday,thursday,friday,saturday,sunday,start_date,end_date\n";
    let feed = parse_feed(
        &stops.as_bytes().to_vec(),
        &empty_sts.as_bytes().to_vec(),
        &empty_trips.as_bytes().to_vec(),
        &empty_routes.as_bytes().to_vec(),
        &empty_cal.as_bytes().to_vec(),
    );
    let search = Search::new(feed);
    let results = search.stations();
    assert_eq!(results.len(), 2);
    assert_eq!(results[0].name, "Alpha".as_bytes().to_vec());
    assert_eq!(results[1].name, "Gamma".as_bytes().to_vec());
}
