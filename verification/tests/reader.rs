//! Tests of the tabular reader: record splitting, field parsers, and the
//! per-row failure kinds that a bad record yields.

use timetable::gtfs::{parse_calendar, parse_routes, parse_stop_times, parse_stops, parse_trips};
use timetable::model::{RowError, TimeOffset};
use timetable::parse::{parse_date, parse_time, parse_u32, parse_u64};

fn bytes(s: &str) -> Vec<u8> {
    s.as_bytes().to_vec()
}

#[test]
fn time_fields_parse() {
    assert_eq!(parse_time(&bytes("08:00:00")), Some(TimeOffset { hours: 8, minutes: 0, seconds: 0 }));
    assert_eq!(parse_time(&bytes("6:20:00")), Some(TimeOffset { hours: 6, minutes: 20, seconds: 0 }));
    // Services past midnight keep their over-24h clock value.
    assert_eq!(parse_time(&bytes("25:30:10")), Some(TimeOffset { hours: 25, minutes: 30, seconds: 10 }));
    assert_eq!(parse_time(&bytes(" 07:05:59  ")), Some(TimeOffset { hours: 7, minutes: 5, seconds: 59 }));
    // A fourth part is ignored, as a split-and-take-three reader does.
    assert_eq!(parse_time(&bytes("1:2:3:4")), Some(TimeOffset { hours: 1, minutes: 2, seconds: 3 }));
    assert_eq!(parse_time(&bytes("")), None);
    assert_eq!(parse_time(&bytes("08:00")), None);
    assert_eq!(parse_time(&bytes(":00:00")), None);
    assert_eq!(parse_time(&bytes("ab:00:00")), None);
    assert_eq!(parse_time(&bytes("08::00")), None);
    assert_eq!(parse_time(&bytes("08: 00:00")), None);
}

#[test]
fn date_fields_parse() {
    assert_eq!(parse_date(&bytes("20171221")), Some(20171221));
    assert_eq!(parse_date(&bytes("20070101")), Some(20070101));
    // Leap-year handling.
    assert_eq!(parse_date(&bytes("20200229")), Some(20200229));
    assert_eq!(parse_date(&bytes("21000229")), None);
    assert_eq!(parse_date(&bytes("20000229")), Some(20000229));
    assert_eq!(parse_date(&bytes("20170230")), None);
    assert_eq!(parse_date(&bytes("20171301")), None);
    assert_eq!(parse_date(&bytes("20171200")), None);
    assert_eq!(parse_date(&bytes("2017121")), None);
    assert_eq!(parse_date(&bytes("2017-12-21")), None);
}

#[test]
fn numbers_parse() {
    assert_eq!(parse_u32(&bytes("0")), Some(0));
    assert_eq!(parse_u32(&bytes("007")), Some(7));
    assert_eq!(parse_u32(&bytes("+12")), Some(12));
    assert_eq!(parse_u32(&bytes("4294967295")), Some(u32::MAX));
    assert_eq!(parse_u32(&bytes("4294967296")), None);
    assert_eq!(parse_u32(&bytes("")), None);
    assert_eq!(parse_u32(&bytes("-1")), None);
    assert_eq!(parse_u32(&bytes("1 ")), None);
    assert_eq!(parse_u64(&bytes("18446744073709551615")), Some(u64::MAX));
    assert_eq!(parse_u64(&bytes("18446744073709551616")), None);
    assert_eq!(parse_u64(&bytes("99999999999999999999999")), None);
}

#[test]
fn stops_rows_and_errors() {
    let data = "stop_id,stop_name,stop_lat,stop_lon\n\
                A,Alpha,36.5,-116.75\n\
                B,Beta,x,-116.75\n\
                C,Gamma,1.5\n\
                D,Delta,+2.,.5\n";
    let rows = parse_stops(&bytes(data));
    assert_eq!(rows.len(), 4);
    let a = rows[0].as_ref().unwrap();
    assert_eq!(a.id, bytes("A"));
    assert_eq!(a.name, bytes("Alpha"));
    assert_eq!(a.lat, bytes("36.5"));
    assert_eq!(a.lon, bytes("-116.75"));
    assert!(matches!(rows[1], Err(RowError::BadCoordinate)));
    assert!(matches!(rows[2], Err(RowError::FieldCount)));
    assert!(rows[3].is_ok());
}

#[test]
fn missing_column_fails_every_row() {
    let data = "stop_id,stop_lat,stop_lon\nA,1.0,2.0\nB,3.0,4.0\n";
    let rows = parse_stops(&bytes(data));
    assert_eq!(rows.len(), 2);
    assert!(matches!(rows[0], Err(RowError::MissingColumn)));
    assert!(matches!(rows[1], Err(RowError::MissingColumn)));
}

#[test]
fn quoted_fields_are_read() {
    let data = "stop_id,stop_name,stop_lat,stop_lon\n\
                A,\"Main St, North\",1.0,2.0\n\
                B,\"He said \"\"hi\"\"\",1.0,2.0\n";
    let rows = parse_stops(&bytes(data));
    assert_eq!(rows.len(), 2);
    assert_eq!(rows[0].as_ref().unwrap().name, bytes("Main St, North"));
    assert_eq!(rows[1].as_ref().unwrap().name, bytes("He said \"hi\""));
}

#[test]
fn byte_order_mark_and_crlf_are_tolerated() {
    let mut data = vec![0xef, 0xbb, 0xbf];
    data.extend_from_slice(b"stop_id,stop_name,stop_lat,stop_lon\r\nA,Alpha,1.0,2.0\r\n\r\n");
    let rows = parse_stops(&data);
    assert_eq!(rows.len(), 1);
    assert_eq!(rows[0].as_ref().unwrap().name, bytes("Alpha"));
}

#[test]
fn empty_table_has_no_rows() {
    assert_eq!(parse_stops(&bytes("")).len(), 0);
    assert_eq!(parse_stops(&bytes("stop_id,stop_name,stop_lat,stop_lon\n")).len(), 0);
}

#[test]
fn stop_time_rows_and_errors() {
    let data = "trip_id,arrival_time,departure_time,stop_id,stop_sequence\n\
                T1,08:00:00,08:01:00,A,1\n\
                T1,bad,08:01:00,A,2\n\
                T1,08:00:00,08:01:00,A,x\n";
    let rows = parse_stop_times(&bytes(data));
    assert_eq!(rows.len(), 3);
    let ok = rows[0].as_ref().unwrap();
    assert_eq!(ok.trip_id, bytes("T1"));
    assert_eq!(ok.departure_time, TimeOffset { hours: 8, minutes: 1, seconds: 0 });
    assert_eq!(ok.stop_sequence, 1);
    assert!(matches!(rows[1], Err(RowError::BadTime)));
    assert!(matches!(rows[2], Err(RowError::BadNumber)));
}

#[test]
fn trip_rows_need_their_columns() {
    let data = "route_id,service_id,trip_id,trip_headsign\nR1,S1,T1,somewhere\n";
    let rows = parse_trips(&bytes(data));
    assert_eq!(rows.len(), 1);
    let t = rows[0].as_ref().unwrap();
    assert_eq!(t.route_id, bytes("R1"));
    assert_eq!(t.service_id, bytes("S1"));
    assert_eq!(t.trip_id, bytes("T1"));
}

#[test]
fn route_rows_and_errors() {
    let data = "route_id,route_short_name,route_long_name,route_type\n\
                R1,10,Cross Town,3\n\
                R2,,Sky Line,6\n\
                R3,,Nowhere,9\n\
                R4,,Nowhere,x\n";
    let rows = parse_routes(&bytes(data));
    assert_eq!(rows.len(), 4);
    let r = rows[0].as_ref().unwrap();
    assert_eq!(r.short_name, bytes("10"));
    assert_eq!(r.long_name, bytes("Cross Town"));
    assert_eq!(r.route_type, timetable::model::RouteType::Bus);
    assert_eq!(rows[1].as_ref().unwrap().route_type, timetable::model::RouteType::Gondola);
    assert!(matches!(rows[2], Err(RowError::BadRouteType)));
    assert!(matches!(rows[3], Err(RowError::BadNumber)));
}

#[test]
fn calendar_rows_and_errors() {
    let data = "service_id,monday,tuesday,wednesday,thursday,friday,saturday,sunday,start_date,end_date\n\
                S1,1,1,1,1,1,0,0,20070101,20251231\n\
                S2,2,1,1,1,1,0,0,20070101,20251231\n\
                S3,1,1,1,1,1,0,0,20070132,20251231\n\
                S4,x,1,1,1,1,0,0,20070101,20251231\n";
    let rows = parse_calendar(&bytes(data));
    assert_eq!(rows.len(), 4);
    let c = rows[0].as_ref().unwrap();
    assert_eq!(c.service_id, bytes("S1"));
    assert!(c.monday && c.friday && !c.saturday);
    assert_eq!(c.start_date, 20070101);
    assert_eq!(c.end_date, 20251231);
    assert!(matches!(rows[1], Err(RowError::BadFlag)));
    assert!(matches!(rows[2], Err(RowError::BadDate)));
    assert!(matches!(rows[3], Err(RowError::BadNumber)));
}

#[test]
fn feed_handle_keeps_its_path() {
    let gtfs = timetable::gtfs::GTFS::from_path(String::from("examples/data/good_feed"));
    assert_eq!(gtfs.path, "examples/data/good_feed");
}

#[test]
fn record_splitting_handles_the_edges() {
    let split = |s: &str| timetable::csv::split_records(&s.as_bytes().to_vec());

    let recs = split("a,b\nc,d\n");
    assert_eq!(recs.len(), 2);
    assert_eq!(recs[0], vec![b"a".to_vec(), b"b".to_vec()]);
    assert_eq!(recs[1], vec![b"c".to_vec(), b"d".to_vec()]);

    // A final record needs no terminator; a trailing comma is an empty field.
    let recs = split("a,b\nc,");
    assert_eq!(recs[1], vec![b"c".to_vec(), b"".to_vec()]);

    // Blank lines are skipped.
    let recs = split("a\n\n\nb\n");
    assert_eq!(recs.len(), 2);

    // Quoted fields keep newlines and separators.
    let recs = split("\"x\ny,z\",w\n");
    assert_eq!(recs.len(), 1);
    assert_eq!(recs[0], vec![b"x\ny,z".to_vec(), b"w".to_vec()]);

    // An unterminated quote runs to the end of the input.
    let recs = split("a,\"bc");
    assert_eq!(recs.len(), 1);
    assert_eq!(recs[0], vec![b"a".to_vec(), b"bc".to_vec()]);
}
