//! Tests of the presentation-facing pieces: service naming and the
//! route-type labels.

use timetable::model::{route_code_label, RouteType, Service};

fn service(short: &str, long: &str) -> Service {
    Service {
        arrival_longitude: "0.0".as_bytes().to_vec(),
        departure_time: 0,
        arrival_time: 60,
        short_name: short.as_bytes().to_vec(),
        long_name: long.as_bytes().to_vec(),
    }
}

#[test]
fn name_joins_both_parts() {
    assert_eq!(service("10", "Cross Town").name(), "10 - Cross Town".as_bytes().to_vec());
}

#[test]
fn name_omits_an_empty_part() {
    assert_eq!(service("", "Airport ⇒ Bullfrog").name(), "Airport ⇒ Bullfrog".as_bytes().to_vec());
    assert_eq!(service("42", "").name(), "42".as_bytes().to_vec());
    assert_eq!(service("", "").name(), Vec::<u8>::new());
}

#[test]
fn route_types_have_labels() {
    assert_eq!(RouteType::from_code(3), Some(RouteType::Bus));
    assert_eq!(RouteType::from_code(8), None);
    assert_eq!(RouteType::Bus.label(), "Bus");
    assert_eq!(RouteType::LightRail.label(), "Light Rail");
    assert_eq!(RouteType::CableCar.label(), "Cable Car");
    assert_eq!(route_code_label(0), "Light Rail");
    assert_eq!(route_code_label(7), "Funicular");
    assert_eq!(route_code_label(12), "Unknown");
}
