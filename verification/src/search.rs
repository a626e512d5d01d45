//! The search engine: a six-stage join/filter pipeline that narrows the
//! five feed tables down to the services connecting a fuzzy origin to a
//! fuzzy destination after a reference instant.
//!
//! Each stage scans one table once and is specified by a spec function
//! over the models of its rows; `spec_timetable` composes the stages,
//! and `Search::timetable` is proved to compute exactly that.

use vstd::prelude::*;

use crate::dict::StrMap;
use crate::dict::StrSet;
use crate::gtfs::Feed;
use crate::model::Moment;
use crate::model::RowError;
use crate::model::Service;
use crate::model::SpecCalendar;
use crate::model::SpecRoute;
use crate::model::SpecService;
use crate::model::SpecStop;
use crate::model::SpecStopTime;
use crate::model::SpecTrip;
use crate::model::Station;
use crate::model::Stop;
use crate::model::StopTime;
use crate::model::Trip;
use crate::parse::copy_bytes;
use crate::text::contains_bytes;
use crate::text::contains_sub;
use crate::text::lex_lt;
use crate::text::normalize;
use crate::text::normalize_name;

verus! {

/// The role a matched stop plays in the query.
#[derive(Clone, Copy, PartialEq, Eq, Structural, Debug)]
pub enum Step {
    Departure,
    Arrival,
}

impl View for Step {
    type V = Step;

    open spec fn view(&self) -> Step {
        *self
    }
}

/// The role a stop's normalized name earns against the two query
/// fragments: origin containment wins over destination containment, so a
/// name holding both is a departure candidate only.
pub open spec fn stop_role(norm_name: Seq<u8>, origin: Seq<u8>, dest: Seq<u8>) -> Option<Step> {
    if contains_sub(norm_name, origin) {
        Some(Step::Departure)
    } else if contains_sub(norm_name, dest) {
        Some(Step::Arrival)
    } else {
        None
    }
}

/// The role map of the stops table: each readable stop whose normalized
/// name matches a query fragment is bound to its role, a later row with
/// the same stop id overriding an earlier one.
pub open spec fn spec_roles(
    rows: Seq<Result<SpecStop, RowError>>,
    origin: Seq<u8>,
    dest: Seq<u8>,
) -> Map<Seq<u8>, Step>
    decreases rows.len(),
{
    if rows.len() == 0 {
        Map::empty()
    } else {
        let m = spec_roles(rows.drop_last(), origin, dest);
        match rows.last() {
            Ok(s) => match stop_role(normalize(s.name), origin, dest) {
                Some(step) => m.insert(s.id, step),
                None => m,
            },
            Err(_) => m,
        }
    }
}

/// The matched stops themselves, kept for the destination longitude.
pub open spec fn spec_matched_stops(
    rows: Seq<Result<SpecStop, RowError>>,
    origin: Seq<u8>,
    dest: Seq<u8>,
) -> Map<Seq<u8>, SpecStop>
    decreases rows.len(),
{
    if rows.len() == 0 {
        Map::empty()
    } else {
        let m = spec_matched_stops(rows.drop_last(), origin, dest);
        match rows.last() {
            Ok(s) => match stop_role(normalize(s.name), origin, dest) {
                Some(_) => m.insert(s.id, s),
                None => m,
            },
            Err(_) => m,
        }
    }
}

/// The readable stop_times rows whose stop plays the given role.
pub open spec fn spec_step_rows(
    rows: Seq<Result<SpecStopTime, RowError>>,
    roles: Map<Seq<u8>, Step>,
    step: Step,
) -> Seq<SpecStopTime>
    decreases rows.len(),
{
    if rows.len() == 0 {
        Seq::empty()
    } else {
        let p = spec_step_rows(rows.drop_last(), roles, step);
        match rows.last() {
            Ok(st) => if roles.contains_key(st.stop_id) && roles[st.stop_id] == step {
                p.push(st)
            } else {
                p
            },
            Err(_) => p,
        }
    }
}

/// The departure map: for every candidate-departure stop visit whose
/// instant (midnight plus the row's departure offset) lies strictly
/// after the reference instant, the trip is bound to that instant; when a
/// trip visits several candidate stops, the last row in file order wins.
pub open spec fn spec_departures(deps: Seq<SpecStopTime>, at: Moment) -> Map<Seq<u8>, i64>
    decreases deps.len(),
{
    if deps.len() == 0 {
        Map::empty()
    } else {
        let m = spec_departures(deps.drop_last(), at);
        let st = deps.last();
        if at.midnight + st.departure_time.to_seconds() > at.seconds {
            m.insert(st.trip_id, (at.midnight + st.departure_time.to_seconds()) as i64)
        } else {
            m
        }
    }
}

/// The trips whose id earned a departure instant, keyed by trip id.
pub open spec fn spec_retained_trips(
    rows: Seq<Result<SpecTrip, RowError>>,
    deps: Map<Seq<u8>, i64>,
) -> Map<Seq<u8>, SpecTrip>
    decreases rows.len(),
{
    if rows.len() == 0 {
        Map::empty()
    } else {
        let m = spec_retained_trips(rows.drop_last(), deps);
        match rows.last() {
            Ok(t) => if deps.contains_key(t.trip_id) {
                m.insert(t.trip_id, t)
            } else {
                m
            },
            Err(_) => m,
        }
    }
}

/// The route ids of the retained trips.
pub open spec fn spec_route_ids(rows: Seq<Result<SpecTrip, RowError>>, deps: Map<Seq<u8>, i64>)
    -> Set<Seq<u8>>
    decreases rows.len(),
{
    if rows.len() == 0 {
        Set::empty()
    } else {
        let s = spec_route_ids(rows.drop_last(), deps);
        match rows.last() {
            Ok(t) => if deps.contains_key(t.trip_id) {
                s.insert(t.route_id)
            } else {
                s
            },
            Err(_) => s,
        }
    }
}

/// The service ids of the retained trips.
pub open spec fn spec_service_ids(rows: Seq<Result<SpecTrip, RowError>>, deps: Map<Seq<u8>, i64>)
    -> Set<Seq<u8>>
    decreases rows.len(),
{
    if rows.len() == 0 {
        Set::empty()
    } else {
        let s = spec_service_ids(rows.drop_last(), deps);
        match rows.last() {
            Ok(t) => if deps.contains_key(t.trip_id) {
                s.insert(t.service_id)
            } else {
                s
            },
            Err(_) => s,
        }
    }
}

/// The routes whose id a retained trip names, keyed by route id.
pub open spec fn spec_retained_routes(
    rows: Seq<Result<SpecRoute, RowError>>,
    route_ids: Set<Seq<u8>>,
) -> Map<Seq<u8>, SpecRoute>
    decreases rows.len(),
{
    if rows.len() == 0 {
        Map::empty()
    } else {
        let m = spec_retained_routes(rows.drop_last(), route_ids);
        match rows.last() {
            Ok(r) => if route_ids.contains(r.route_id) {
                m.insert(r.route_id, r)
            } else {
                m
            },
            Err(_) => m,
        }
    }
}

/// The retained services that run on the reference date: the weekday
/// flag holds and the date lies in the row's inclusive range.
pub open spec fn spec_running_services(
    rows: Seq<Result<SpecCalendar, RowError>>,
    service_ids: Set<Seq<u8>>,
    at: Moment,
) -> Set<Seq<u8>>
    decreases rows.len(),
{
    if rows.len() == 0 {
        Set::empty()
    } else {
        let s = spec_running_services(rows.drop_last(), service_ids, at);
        match rows.last() {
            Ok(c) => if service_ids.contains(c.service_id) && c.runs_on(at.weekday)
                && c.start_date <= at.date && at.date <= c.end_date {
                s.insert(c.service_id)
            } else {
                s
            },
            Err(_) => s,
        }
    }
}

/// The final join over the candidate-arrival rows, in file order: a row
/// joins when its trip earned a departure, the arrival instant strictly
/// follows it (a same-trip direction check), the trip was retained, the
/// calendar filter admits the trip's service — trips are excluded on
/// calendar grounds only when some retained service is running at all —
/// and the trip's route resolves.
pub open spec fn spec_joined(
    arrivals: Seq<SpecStopTime>,
    deps: Map<Seq<u8>, i64>,
    trips: Map<Seq<u8>, SpecTrip>,
    routes: Map<Seq<u8>, SpecRoute>,
    running: Set<Seq<u8>>,
    stops: Map<Seq<u8>, SpecStop>,
    at: Moment,
) -> Seq<SpecService>
    decreases arrivals.len(),
{
    if arrivals.len() == 0 {
        Seq::empty()
    } else {
        let p = spec_joined(arrivals.drop_last(), deps, trips, routes, running, stops, at);
        let st = arrivals.last();
        if deps.contains_key(st.trip_id) {
            let dep_t = deps[st.trip_id];
            if at.midnight + st.arrival_time.to_seconds() > dep_t {
                if trips.contains_key(st.trip_id) {
                    let trip = trips[st.trip_id];
                    if running == Set::<Seq<u8>>::empty() || running.contains(trip.service_id) {
                        if routes.contains_key(trip.route_id) {
                            let route = routes[trip.route_id];
                            p.push(
                                SpecService {
                                    arrival_longitude: stops[st.stop_id].lon,
                                    departure_time: dep_t,
                                    arrival_time: (at.midnight + st.arrival_time.to_seconds()) as i64,
                                    short_name: route.short_name,
                                    long_name: route.long_name,
                                },
                            )
                        } else {
                            p
                        }
                    } else {
                        p
                    }
                } else {
                    p
                }
            } else {
                p
            }
        } else {
            p
        }
    }
}

/// Where a service belongs in a run already ordered by departure: after
/// every earlier service that departs no later, so equal departures keep
/// their order.
pub open spec fn insert_by_departure(s: Seq<SpecService>, x: SpecService) -> Seq<SpecService>
    decreases s.len(),
{
    if s.len() == 0 {
        seq![x]
    } else if s.last().departure_time <= x.departure_time {
        s.push(x)
    } else {
        insert_by_departure(s.drop_last(), x).push(s.last())
    }
}

/// The stable ascending sort of the joined services by departure instant.
pub open spec fn sort_by_departure(s: Seq<SpecService>) -> Seq<SpecService>
    decreases s.len(),
{
    if s.len() == 0 {
        s
    } else {
        insert_by_departure(sort_by_departure(s.drop_last()), s.last())
    }
}

/// Non-decreasing by departure instant.
pub open spec fn sorted_by_departure(s: Seq<SpecService>) -> bool {
    forall|i: int, j: int|
        0 <= i < j < s.len() ==> #[trigger] s[i].departure_time <= #[trigger] s[j].departure_time
}

/// Inserting at the scanned position computes `insert_by_departure`.
proof fn lemma_insert_at(s: Seq<SpecService>, x: SpecService, j: int)
    requires
        0 <= j <= s.len(),
        forall|l: int| j <= l < s.len() ==> (#[trigger] s[l]).departure_time > x.departure_time,
        j > 0 ==> s[j - 1].departure_time <= x.departure_time,
    ensures
        insert_by_departure(s, x) == s.subrange(0, j) + seq![x] + s.subrange(j, s.len() as int),
    decreases s.len(),
{
    if j == s.len() {
        assert(insert_by_departure(s, x) =~= s.subrange(0, j) + seq![x] + s.subrange(
            j,
            s.len() as int,
        ));
    } else {
        assert(s.last().departure_time > x.departure_time);
        if j > 0 {
            assert(s.drop_last()[j - 1] == s[j - 1]);
        }
        lemma_insert_at(s.drop_last(), x, j);
        assert(insert_by_departure(s, x) =~= s.subrange(0, j) + seq![x] + s.subrange(
            j,
            s.len() as int,
        )) by {
            assert(insert_by_departure(s, x) == insert_by_departure(s.drop_last(), x).push(
                s.last(),
            ));
            assert(insert_by_departure(s.drop_last(), x) == s.drop_last().subrange(0, j) + seq![x]
                + s.drop_last().subrange(j, s.len() - 1));
            assert(s.drop_last().subrange(0, j) =~= s.subrange(0, j));
            assert(s.drop_last().subrange(j, s.len() - 1) =~= s.subrange(j, s.len() - 1));
        }
    }
}

/// Insertion keeps the run ordered.
proof fn lemma_insert_sorted(s: Seq<SpecService>, x: SpecService)
    requires
        sorted_by_departure(s),
    ensures
        sorted_by_departure(insert_by_departure(s, x)),
        insert_by_departure(s, x).len() == s.len() + 1,
    decreases s.len(),
{
    if s.len() == 0 {
    } else if s.last().departure_time <= x.departure_time {
        let out = s.push(x);
        assert forall|i: int, j: int| 0 <= i < j < out.len() implies (#[trigger] out[i]).departure_time
            <= (#[trigger] out[j]).departure_time by {
            if j < s.len() {
            } else {
                if i < s.len() - 1 {
                    assert(s[i].departure_time <= s[s.len() - 1].departure_time);
                }
            }
        }
    } else {
        assert(sorted_by_departure(s.drop_last())) by {
            assert forall|i: int, j: int| 0 <= i < j < s.len() - 1 implies (#[trigger] s.drop_last()[i]).departure_time
                <= (#[trigger] s.drop_last()[j]).departure_time by {
                assert(s[i].departure_time <= s[j].departure_time);
            }
        }
        lemma_insert_sorted(s.drop_last(), x);
        let inner = insert_by_departure(s.drop_last(), x);
        let out = inner.push(s.last());
        // every element of the inner run is at most the old last element
        assert forall|l: int| 0 <= l < inner.len() implies (#[trigger] inner[l]).departure_time
            <= s.last().departure_time by {
            lemma_insert_members(s.drop_last(), x, l);
            if inner[l] == x {
            } else {
                let m = choose|m: int|
                    0 <= m < s.len() - 1 && (#[trigger] s.drop_last()[m]) == inner[l];
                assert(s[m].departure_time <= s[s.len() - 1].departure_time);
            }
        }
        assert forall|i: int, j: int| 0 <= i < j < out.len() implies (#[trigger] out[i]).departure_time
            <= (#[trigger] out[j]).departure_time by {
            if j < inner.len() {
            }
        }
    }
}

/// Insertion grows the run by one.
proof fn lemma_insert_len(s: Seq<SpecService>, x: SpecService)
    ensures
        insert_by_departure(s, x).len() == s.len() + 1,
    decreases s.len(),
{
    if s.len() > 0 && s.last().departure_time > x.departure_time {
        lemma_insert_len(s.drop_last(), x);
    }
}

/// Each element of an insertion's result is the new element or one of
/// the old ones.
proof fn lemma_insert_members(s: Seq<SpecService>, x: SpecService, l: int)
    requires
        0 <= l < insert_by_departure(s, x).len(),
    ensures
        insert_by_departure(s, x).len() == s.len() + 1,
        insert_by_departure(s, x)[l] == x || exists|m: int|
            0 <= m < s.len() && (#[trigger] s[m]) == insert_by_departure(s, x)[l],
    decreases s.len(),
{
    lemma_insert_len(s, x);
    if s.len() == 0 {
    } else if s.last().departure_time <= x.departure_time {
        if l < s.len() {
            assert(s[l] == insert_by_departure(s, x)[l]);
        }
    } else {
        let inner = insert_by_departure(s.drop_last(), x);
        if l < inner.len() {
            lemma_insert_members(s.drop_last(), x, l);
            if inner[l] != x {
                let m = choose|m: int|
                    0 <= m < s.len() - 1 && (#[trigger] s.drop_last()[m]) == inner[l];
                assert(s[m] == inner[l]);
            }
        } else {
            assert(insert_by_departure(s, x)[l] == s[s.len() - 1]);
        }
    }
}

/// The sorted run is ordered.
pub proof fn lemma_sort_sorted(s: Seq<SpecService>)
    ensures
        sorted_by_departure(sort_by_departure(s)),
        sort_by_departure(s).len() == s.len(),
    decreases s.len(),
{
    if s.len() > 0 {
        lemma_sort_sorted(s.drop_last());
        lemma_insert_sorted(sort_by_departure(s.drop_last()), s.last());
    }
}

/// Each element of the sorted run is one of the unsorted run's elements.
pub proof fn lemma_sort_members(s: Seq<SpecService>, l: int)
    requires
        0 <= l < sort_by_departure(s).len(),
    ensures
        exists|m: int| 0 <= m < s.len() && (#[trigger] s[m]) == sort_by_departure(s)[l],
    decreases s.len(),
{
    if s.len() > 0 {
        let inner = sort_by_departure(s.drop_last());
        lemma_sort_sorted(s.drop_last());
        lemma_insert_members(inner, s.last(), l);
        if insert_by_departure(inner, s.last())[l] == s.last() {
            assert(s[s.len() - 1] == sort_by_departure(s)[l]);
        } else {
            let m = choose|m: int|
                0 <= m < inner.len() && (#[trigger] inner[m]) == insert_by_departure(
                    inner,
                    s.last(),
                )[l];
            lemma_sort_members(s.drop_last(), m);
            let m2 = choose|m2: int|
                0 <= m2 < s.len() - 1 && (#[trigger] s.drop_last()[m2]) == inner[m];
            assert(s[m2] == sort_by_departure(s)[l]);
        }
    }
}

/// Every departure instant in the map lies strictly after the reference
/// instant.
pub proof fn lemma_departures_after(sts: Seq<SpecStopTime>, at: Moment)
    requires
        at.wf(),
    ensures
        forall|k: Seq<u8>|
            #[trigger] spec_departures(sts, at).contains_key(k) ==> spec_departures(sts, at)[k]
                > at.seconds,
    decreases sts.len(),
{
    if sts.len() > 0 {
        lemma_departures_after(sts.drop_last(), at);
        sts.last().departure_time.lemma_to_seconds_bound();
        let m0 = spec_departures(sts.drop_last(), at);
        let m = spec_departures(sts, at);
        let st = sts.last();
        let t = at.midnight + st.departure_time.to_seconds();
        assert forall|k: Seq<u8>| #[trigger] m.contains_key(k) implies m[k] > at.seconds by {
            if t > at.seconds && k == st.trip_id {
                assert(m[k] == t as i64);
            } else {
                assert(m0.contains_key(k) && m[k] == m0[k]);
            }
        }
    }
}

/// Every joined service departs after the reference instant and arrives
/// strictly after its own departure.
pub proof fn lemma_joined_props(
    arrivals: Seq<SpecStopTime>,
    deps: Map<Seq<u8>, i64>,
    trips: Map<Seq<u8>, SpecTrip>,
    routes: Map<Seq<u8>, SpecRoute>,
    running: Set<Seq<u8>>,
    stops: Map<Seq<u8>, SpecStop>,
    at: Moment,
)
    requires
        at.wf(),
        forall|k: Seq<u8>| #[trigger] deps.contains_key(k) ==> deps[k] > at.seconds,
    ensures
        forall|l: int|
            0 <= l < spec_joined(arrivals, deps, trips, routes, running, stops, at).len() ==> {
                let s = #[trigger] spec_joined(arrivals, deps, trips, routes, running, stops, at)[l];
                s.departure_time > at.seconds && s.arrival_time > s.departure_time
            },
    decreases arrivals.len(),
{
    if arrivals.len() > 0 {
        lemma_joined_props(arrivals.drop_last(), deps, trips, routes, running, stops, at);
        arrivals.last().arrival_time.lemma_to_seconds_bound();
        let p = spec_joined(arrivals.drop_last(), deps, trips, routes, running, stops, at);
        let whole = spec_joined(arrivals, deps, trips, routes, running, stops, at);
        assert forall|l: int| 0 <= l < whole.len() implies {
            let s = #[trigger] whole[l];
            s.departure_time > at.seconds && s.arrival_time > s.departure_time
        } by {
            if l < p.len() {
                assert(whole[l] == p[l]);
            }
        }
    }
}

/// Every candidate row of a partition has its role in the role map.
pub proof fn lemma_step_rows_have_role(
    rows: Seq<Result<SpecStopTime, RowError>>,
    roles: Map<Seq<u8>, Step>,
    step: Step,
)
    ensures
        forall|l: int|
            0 <= l < spec_step_rows(rows, roles, step).len() ==> roles.contains_key(
                (#[trigger] spec_step_rows(rows, roles, step)[l]).stop_id,
            ),
    decreases rows.len(),
{
    if rows.len() > 0 {
        lemma_step_rows_have_role(rows.drop_last(), roles, step);
        let p = spec_step_rows(rows.drop_last(), roles, step);
        let whole = spec_step_rows(rows, roles, step);
        assert forall|l: int| 0 <= l < whole.len() implies roles.contains_key(
            (#[trigger] whole[l]).stop_id,
        ) by {
            if l < p.len() {
                assert(whole[l] == p[l]);
            }
        }
    }
}

/// The role map and the matched-stop map bind exactly the same stop ids.
pub proof fn lemma_roles_matched_domains(
    rows: Seq<Result<SpecStop, RowError>>,
    origin: Seq<u8>,
    dest: Seq<u8>,
)
    ensures
        spec_roles(rows, origin, dest).dom() =~= spec_matched_stops(rows, origin, dest).dom(),
    decreases rows.len(),
{
    if rows.len() > 0 {
        lemma_roles_matched_domains(rows.drop_last(), origin, dest);
    }
}

/// The whole query: what `timetable` returns on a feed, two query
/// fragments and a reference instant.
pub open spec fn spec_timetable(
    feed: crate::gtfs::SpecFeed,
    from: Seq<u8>,
    to: Seq<u8>,
    at: Moment,
) -> Seq<SpecService> {
    let origin = normalize(from);
    let dest = normalize(to);
    let roles = spec_roles(feed.stops, origin, dest);
    let stops = spec_matched_stops(feed.stops, origin, dest);
    let dep_rows = spec_step_rows(feed.stop_times, roles, Step::Departure);
    let arr_rows = spec_step_rows(feed.stop_times, roles, Step::Arrival);
    let deps = spec_departures(dep_rows, at);
    let trips = spec_retained_trips(feed.trips, deps);
    let route_ids = spec_route_ids(feed.trips, deps);
    let service_ids = spec_service_ids(feed.trips, deps);
    let routes = spec_retained_routes(feed.routes, route_ids);
    let running = spec_running_services(feed.calendar, service_ids, at);
    sort_by_departure(spec_joined(arr_rows, deps, trips, routes, running, stops, at))
}

/// The names of the stops that parsed, as a set.
pub open spec fn spec_station_names(rows: Seq<Result<SpecStop, RowError>>) -> Set<Seq<u8>>
    decreases rows.len(),
{
    if rows.len() == 0 {
        Set::empty()
    } else {
        let s = spec_station_names(rows.drop_last());
        match rows.last() {
            Ok(stop) => s.insert(stop.name),
            Err(_) => s,
        }
    }
}

/// The models of a sequence of stop_times rows.
pub open spec fn stop_times_view(s: Seq<StopTime>) -> Seq<SpecStopTime> {
    s.map_values(|st: StopTime| st@)
}

/// The models of a sequence of services.
pub open spec fn services_view(s: Seq<Service>) -> Seq<SpecService> {
    s.map_values(|x: Service| x@)
}

/// The models of a sequence of stations.
pub open spec fn station_names(s: Seq<Station>) -> Seq<Seq<u8>> {
    s.map_values(|x: Station| x.name@)
}

/// The timetable search: the feed's tables plus nothing else; every
/// query owns its own intermediate state, so two runs of one query agree.
pub struct Search {
    pub feed: Feed,
}

impl Search {
    /// Wraps a parsed feed for querying.
    pub fn new(feed: Feed) -> (r: Search)
        ensures
            r.feed == feed,
    {
        Search { feed }
    }

    /// Resolves the two query fragments against the stops table: scans
    /// every stop once, normalizes its name as the fragments are
    /// normalized, and records a role for each match, origin first.
    fn search_stops(&self, from: &Vec<u8>, to: &Vec<u8>) -> (r: (StrMap<Step>, StrMap<Stop>))
        ensures
            r.0@ == spec_roles(self.feed@.stops, normalize(from@), normalize(to@)),
            r.1@ == spec_matched_stops(self.feed@.stops, normalize(from@), normalize(to@)),
    {
        let origin = normalize_name(from);
        let destination = normalize_name(to);
        let ghost rows = self.feed@.stops;
        let mut roles: StrMap<Step> = StrMap::new();
        let mut stops: StrMap<Stop> = StrMap::new();
        let n = self.feed.stops.len();
        let mut i: usize = 0;
        proof {
            assert(rows.take(0) =~= Seq::<Result<SpecStop, RowError>>::empty());
        }
        while i < n
            invariant
                rows == self.feed@.stops,
                rows == crate::gtfs::stop_rows_view(self.feed.stops@),
                n == self.feed.stops@.len(),
                rows.len() == n,
                i <= n,
                origin@ == normalize(from@),
                destination@ == normalize(to@),
                roles@ == spec_roles(rows.take(i as int), origin@, destination@),
                stops@ == spec_matched_stops(rows.take(i as int), origin@, destination@),
            decreases n - i,
        {
            proof {
                assert(rows.take(i + 1).drop_last() =~= rows.take(i as int));
                assert(rows.take(i + 1).last() == rows[i as int]);
                assert(rows[i as int] == crate::gtfs::stop_row_model(self.feed.stops@[i as int]));
            }
            match &self.feed.stops[i] {
                Ok(stop) => {
                    let norm = normalize_name(&stop.name);
                    if contains_bytes(&norm, &origin) {
                        let copy = Stop {
                            id: copy_bytes(&stop.id),
                            name: copy_bytes(&stop.name),
                            lat: copy_bytes(&stop.lat),
                            lon: copy_bytes(&stop.lon),
                        };
                        proof {
                            assert(copy@ == stop@);
                        }
                        roles.insert(copy_bytes(&stop.id), Step::Departure);
                        stops.insert(copy_bytes(&stop.id), copy);
                    } else if contains_bytes(&norm, &destination) {
                        let copy = Stop {
                            id: copy_bytes(&stop.id),
                            name: copy_bytes(&stop.name),
                            lat: copy_bytes(&stop.lat),
                            lon: copy_bytes(&stop.lon),
                        };
                        proof {
                            assert(copy@ == stop@);
                        }
                        roles.insert(copy_bytes(&stop.id), Step::Arrival);
                        stops.insert(copy_bytes(&stop.id), copy);
                    }
                },
                Err(_) => {},
            }
            i += 1;
        }
        proof {
            assert(rows.take(n as int) =~= rows);
        }
        (roles, stops)
    }

    /// Partitions the stop_times table by the role of each row's stop;
    /// rows at unmatched stops are discarded.
    fn search_stop_times(&self, roles: &StrMap<Step>) -> (r: (Vec<StopTime>, Vec<StopTime>))
        ensures
            stop_times_view(r.0@) == spec_step_rows(self.feed@.stop_times, roles@, Step::Departure),
            stop_times_view(r.1@) == spec_step_rows(self.feed@.stop_times, roles@, Step::Arrival),
    {
        let ghost rows = self.feed@.stop_times;
        let mut departures: Vec<StopTime> = Vec::new();
        let mut arrivals: Vec<StopTime> = Vec::new();
        let n = self.feed.stop_times.len();
        let mut i: usize = 0;
        proof {
            assert(rows.take(0) =~= Seq::<Result<SpecStopTime, RowError>>::empty());
            assert(stop_times_view(departures@) =~= Seq::<SpecStopTime>::empty());
            assert(stop_times_view(arrivals@) =~= Seq::<SpecStopTime>::empty());
        }
        while i < n
            invariant
                rows == self.feed@.stop_times,
                rows == crate::gtfs::stop_time_rows_view(self.feed.stop_times@),
                n == self.feed.stop_times@.len(),
                rows.len() == n,
                i <= n,
                stop_times_view(departures@) == spec_step_rows(
                    rows.take(i as int),
                    roles@,
                    Step::Departure,
                ),
                stop_times_view(arrivals@) == spec_step_rows(
                    rows.take(i as int),
                    roles@,
                    Step::Arrival,
                ),
            decreases n - i,
        {
            proof {
                assert(rows.take(i + 1).drop_last() =~= rows.take(i as int));
                assert(rows.take(i + 1).last() == rows[i as int]);
                assert(rows[i as int] == crate::gtfs::stop_time_row_model(
                    self.feed.stop_times@[i as int],
                ));
            }
            match &self.feed.stop_times[i] {
                Ok(st) => {
                    let copy = StopTime {
                        trip_id: copy_bytes(&st.trip_id),
                        arrival_time: st.arrival_time,
                        departure_time: st.departure_time,
                        stop_id: copy_bytes(&st.stop_id),
                        stop_sequence: st.stop_sequence,
                    };
                    proof {
                        assert(copy@ == st@);
                    }
                    match roles.get(&st.stop_id) {
                        Some(step) => match step {
                            Step::Departure => {
                                let ghost d0 = departures@;
                                departures.push(copy);
                                proof {
                                    assert(stop_times_view(departures@) =~= stop_times_view(
                                        d0,
                                    ).push(st@));
                                }
                            },
                            Step::Arrival => {
                                let ghost a0 = arrivals@;
                                arrivals.push(copy);
                                proof {
                                    assert(stop_times_view(arrivals@) =~= stop_times_view(a0).push(
                                        st@,
                                    ));
                                }
                            },
                        },
                        None => {},
                    }
                },
                Err(_) => {},
            }
            i += 1;
        }
        proof {
            assert(rows.take(n as int) =~= rows);
        }
        (departures, arrivals)
    }

    /// Extracts qualifying departures: anchors each candidate-departure
    /// offset to the reference date's midnight and keeps those strictly
    /// after the reference instant, the last row per trip winning.
    fn search_departures(&self, dep_rows: &Vec<StopTime>, at: &Moment) -> (r: StrMap<i64>)
        requires
            at.wf(),
        ensures
            r@ == spec_departures(stop_times_view(dep_rows@), *at),
    {
        let ghost sts = stop_times_view(dep_rows@);
        let mut trips: StrMap<i64> = StrMap::new();
        let n = dep_rows.len();
        let mut i: usize = 0;
        proof {
            assert(sts.take(0) =~= Seq::<SpecStopTime>::empty());
        }
        while i < n
            invariant
                at.wf(),
                sts == stop_times_view(dep_rows@),
                n == dep_rows@.len(),
                sts.len() == n,
                i <= n,
                trips@ == spec_departures(sts.take(i as int), *at),
            decreases n - i,
        {
            proof {
                assert(sts.take(i + 1).drop_last() =~= sts.take(i as int));
                assert(sts.take(i + 1).last() == sts[i as int]);
                assert(sts[i as int] == dep_rows@[i as int]@);
            }
            let st = &dep_rows[i];
            proof {
                st.departure_time.lemma_to_seconds_bound();
            }
            let departure = at.midnight + st.departure_time.seconds_total();
            if departure > at.seconds {
                trips.insert(copy_bytes(&st.trip_id), departure);
            }
            i += 1;
        }
        proof {
            assert(sts.take(n as int) =~= sts);
        }
        trips
    }

    /// Resolves trips: keeps each readable trip whose id earned a
    /// departure, and collects its route id and service id to prune the
    /// next two tables.
    fn search_trips(&self, deps: &StrMap<i64>) -> (r: (StrMap<Trip>, StrSet, StrSet))
        ensures
            r.0@ == spec_retained_trips(self.feed@.trips, deps@),
            r.1@ == spec_route_ids(self.feed@.trips, deps@),
            r.2@ == spec_service_ids(self.feed@.trips, deps@),
    {
        let ghost rows = self.feed@.trips;
        let mut trips: StrMap<Trip> = StrMap::new();
        let mut route_ids: StrSet = StrSet::new();
        let mut service_ids: StrSet = StrSet::new();
        let n = self.feed.trips.len();
        let mut i: usize = 0;
        proof {
            assert(rows.take(0) =~= Seq::<Result<SpecTrip, RowError>>::empty());
        }
        while i < n
            invariant
                rows == self.feed@.trips,
                rows == crate::gtfs::trip_rows_view(self.feed.trips@),
                n == self.feed.trips@.len(),
                rows.len() == n,
                i <= n,
                trips@ == spec_retained_trips(rows.take(i as int), deps@),
                route_ids@ == spec_route_ids(rows.take(i as int), deps@),
                service_ids@ == spec_service_ids(rows.take(i as int), deps@),
            decreases n - i,
        {
            proof {
                assert(rows.take(i + 1).drop_last() =~= rows.take(i as int));
                assert(rows.take(i + 1).last() == rows[i as int]);
                assert(rows[i as int] == crate::gtfs::trip_row_model(self.feed.trips@[i as int]));
            }
            match &self.feed.trips[i] {
                Ok(t) => {
                    if deps.contains(&t.trip_id) {
                        let copy = crate::model::Trip {
                            route_id: copy_bytes(&t.route_id),
                            service_id: copy_bytes(&t.service_id),
                            trip_id: copy_bytes(&t.trip_id),
                        };
                        proof {
                            assert(copy@ == t@);
                        }
                        service_ids.insert(copy_bytes(&t.service_id));
                        route_ids.insert(copy_bytes(&t.route_id));
                        trips.insert(copy_bytes(&t.trip_id), copy);
                    }
                },
                Err(_) => {},
            }
            i += 1;
        }
        proof {
            assert(rows.take(n as int) =~= rows);
        }
        (trips, route_ids, service_ids)
    }

    /// Resolves routes: keeps each readable route whose id a retained
    /// trip names.
    fn search_routes(&self, route_ids: &StrSet) -> (r: StrMap<crate::model::Route>)
        ensures
            r@ == spec_retained_routes(self.feed@.routes, route_ids@),
    {
        let ghost rows = self.feed@.routes;
        let mut routes: StrMap<crate::model::Route> = StrMap::new();
        let n = self.feed.routes.len();
        let mut i: usize = 0;
        proof {
            assert(rows.take(0) =~= Seq::<Result<SpecRoute, RowError>>::empty());
        }
        while i < n
            invariant
                rows == self.feed@.routes,
                rows == crate::gtfs::route_rows_view(self.feed.routes@),
                n == self.feed.routes@.len(),
                rows.len() == n,
                i <= n,
                routes@ == spec_retained_routes(rows.take(i as int), route_ids@),
            decreases n - i,
        {
            proof {
                assert(rows.take(i + 1).drop_last() =~= rows.take(i as int));
                assert(rows.take(i + 1).last() == rows[i as int]);
                assert(rows[i as int] == crate::gtfs::route_row_model(self.feed.routes@[i as int]));
            }
            match &self.feed.routes[i] {
                Ok(route) => {
                    if route_ids.contains(&route.route_id) {
                        let copy = crate::model::Route {
                            route_id: copy_bytes(&route.route_id),
                            short_name: copy_bytes(&route.short_name),
                            long_name: copy_bytes(&route.long_name),
                            route_type: route.route_type,
                        };
                        proof {
                            assert(copy@ == route@);
                        }
                        routes.insert(copy_bytes(&route.route_id), copy);
                    }
                },
                Err(_) => {},
            }
            i += 1;
        }
        proof {
            assert(rows.take(n as int) =~= rows);
        }
        routes
    }

    /// Resolves the calendar: collects each retained service whose row
    /// flags the reference date's weekday and whose inclusive date range
    /// holds the reference date.
    fn search_calendar(&self, service_ids: &StrSet, at: &Moment) -> (r: StrSet)
        ensures
            r@ == spec_running_services(self.feed@.calendar, service_ids@, *at),
    {
        let ghost rows = self.feed@.calendar;
        let mut services: StrSet = StrSet::new();
        let n = self.feed.calendar.len();
        let mut i: usize = 0;
        proof {
            assert(rows.take(0) =~= Seq::<Result<SpecCalendar, RowError>>::empty());
        }
        while i < n
            invariant
                rows == self.feed@.calendar,
                rows == crate::gtfs::calendar_rows_view(self.feed.calendar@),
                n == self.feed.calendar@.len(),
                rows.len() == n,
                i <= n,
                services@ == spec_running_services(rows.take(i as int), service_ids@, *at),
            decreases n - i,
        {
            proof {
                assert(rows.take(i + 1).drop_last() =~= rows.take(i as int));
                assert(rows.take(i + 1).last() == rows[i as int]);
                assert(rows[i as int] == crate::gtfs::calendar_row_model(
                    self.feed.calendar@[i as int],
                ));
            }
            match &self.feed.calendar[i] {
                Ok(entry) => {
                    if service_ids.contains(&entry.service_id) {
                        let is_running = entry.runs_on(at.weekday);
                        if is_running && entry.start_date <= at.date && at.date <= entry.end_date {
                            services.insert(copy_bytes(&entry.service_id));
                        }
                    }
                },
                Err(_) => {},
            }
            i += 1;
        }
        proof {
            assert(rows.take(n as int) =~= rows);
        }
        services
    }

    /// The final join: walks the candidate-arrival rows in file order,
    /// emits a service for each row that survives every check of
    /// `spec_joined`, and returns them stably sorted by departure
    /// instant, ties keeping emission order.
    fn search_services(
        &self,
        arrivals: &Vec<StopTime>,
        deps: &StrMap<i64>,
        trips: &StrMap<Trip>,
        routes: &StrMap<crate::model::Route>,
        running: &StrSet,
        stops: &StrMap<Stop>,
        at: &Moment,
    ) -> (r: Vec<Service>)
        requires
            at.wf(),
            forall|i: int|
                0 <= i < arrivals@.len() ==> stops@.contains_key(
                    (#[trigger] arrivals@[i])@.stop_id,
                ),
        ensures
            services_view(r@) == sort_by_departure(
                spec_joined(
                    stop_times_view(arrivals@),
                    deps@,
                    trips@,
                    routes@,
                    running@,
                    stops@,
                    *at,
                ),
            ),
    {
        let ghost sts = stop_times_view(arrivals@);
        let mut results: Vec<Service> = Vec::new();
        let n = arrivals.len();
        let mut i: usize = 0;
        proof {
            assert(sts.take(0) =~= Seq::<SpecStopTime>::empty());
            assert(services_view(results@) =~= Seq::<SpecService>::empty());
        }
        while i < n
            invariant
                at.wf(),
                sts == stop_times_view(arrivals@),
                n == arrivals@.len(),
                sts.len() == n,
                i <= n,
                forall|l: int|
                    0 <= l < arrivals@.len() ==> stops@.contains_key(
                        (#[trigger] arrivals@[l])@.stop_id,
                    ),
                services_view(results@) == spec_joined(
                    sts.take(i as int),
                    deps@,
                    trips@,
                    routes@,
                    running@,
                    stops@,
                    *at,
                ),
            decreases n - i,
        {
            proof {
                assert(sts.take(i + 1).drop_last() =~= sts.take(i as int));
                assert(sts.take(i + 1).last() == sts[i as int]);
                assert(sts[i as int] == arrivals@[i as int]@);
            }
            let st = &arrivals[i];
            if let Some(dep_ref) = deps.get(&st.trip_id) {
                let dep_t = *dep_ref;
                proof {
                    st.arrival_time.lemma_to_seconds_bound();
                }
                let arr_t = at.midnight + st.arrival_time.seconds_total();
                if arr_t > dep_t {
                    if let Some(trip) = trips.get(&st.trip_id) {
                        if running.is_empty() || running.contains(&trip.service_id) {
                            if let Some(route) = routes.get(&trip.route_id) {
                                let stop = match stops.get(&st.stop_id) {
                                    Some(stop) => stop,
                                    None => vstd::pervasive::unreached(),
                                };
                                let service = Service {
                                    arrival_longitude: copy_bytes(&stop.lon),
                                    departure_time: dep_t,
                                    arrival_time: arr_t,
                                    short_name: copy_bytes(&route.short_name),
                                    long_name: copy_bytes(&route.long_name),
                                };
                                let ghost r0 = results@;
                                proof {
                                    assert(service@ == SpecService {
                                        arrival_longitude: stops@[sts[i as int].stop_id].lon,
                                        departure_time: deps@[sts[i as int].trip_id],
                                        arrival_time: (at.midnight
                                            + sts[i as int].arrival_time.to_seconds()) as i64,
                                        short_name: routes@[trips@[sts[i as int].trip_id].route_id].short_name,
                                        long_name: routes@[trips@[sts[i as int].trip_id].route_id].long_name,
                                    });
                                }
                                results.push(service);
                                proof {
                                    assert(services_view(results@) =~= services_view(r0).push(
                                        service@,
                                    ));
                                }
                            }
                        }
                    }
                }
            }
            i += 1;
        }
        proof {
            assert(sts.take(n as int) =~= sts);
        }
        let ghost base = services_view(results@);
        let mut sorted: Vec<Service> = Vec::new();
        let m = results.len();
        let mut k: usize = 0;
        proof {
            assert(base.take(0) =~= Seq::<SpecService>::empty());
            assert(services_view(sorted@) =~= Seq::<SpecService>::empty());
        }
        while k < m
            invariant
                base == services_view(results@),
                m == results@.len(),
                base.len() == m,
                k <= m,
                services_view(sorted@) == sort_by_departure(base.take(k as int)),
            decreases m - k,
        {
            proof {
                assert(base.take(k + 1).drop_last() =~= base.take(k as int));
                assert(base.take(k + 1).last() == base[k as int]);
                assert(base[k as int] == results@[k as int]@);
            }
            let x = copy_service(&results[k]);
            let ghost sv = services_view(sorted@);
            let mut j: usize = sorted.len();
            while j > 0 && sorted[j - 1].departure_time > x.departure_time
                invariant
                    sv == services_view(sorted@),
                    j <= sorted@.len(),
                    sv.len() == sorted@.len(),
                    forall|l: int|
                        j <= l < sv.len() ==> (#[trigger] sv[l]).departure_time
                            > x@.departure_time,
                decreases j,
            {
                proof {
                    assert(sv[j - 1] == sorted@[j - 1]@);
                }
                j -= 1;
            }
            proof {
                if j > 0 {
                    assert(sv[j - 1] == sorted@[j - 1]@);
                }
                lemma_insert_at(sv, x@, j as int);
            }
            let ghost s0 = sorted@;
            sorted.insert(j, x);
            proof {
                assert(services_view(sorted@) =~= insert_by_departure(services_view(s0), x@)) by {
                    assert(sorted@ == s0.insert(j as int, x));
                    s0.insert_ensures(j as int, x);
                    assert(insert_by_departure(services_view(s0), x@) == services_view(
                        s0,
                    ).subrange(0, j as int) + seq![x@] + services_view(s0).subrange(
                        j as int,
                        services_view(s0).len() as int,
                    ));
                }
            }
            k += 1;
        }
        proof {
            assert(base.take(m as int) =~= base);
        }
        sorted
    }

    /// Answers the query: the services connecting a stop matching `from`
    /// to a stop matching `to` with a departure strictly after `at`,
    /// sorted ascending by departure instant. The result is a pure
    /// function of the feed and the arguments; matching zero stops is no
    /// error and yields the empty sequence.
    pub fn timetable(&self, from: &Vec<u8>, to: &Vec<u8>, at: &Moment) -> (r: Vec<Service>)
        requires
            at.wf(),
        ensures
            services_view(r@) == spec_timetable(self.feed@, from@, to@, *at),
            sorted_by_departure(services_view(r@)),
            forall|l: int|
                0 <= l < r@.len() ==> (#[trigger] r@[l])@.departure_time > at.seconds
                    && r@[l]@.arrival_time > r@[l]@.departure_time,
    {
        let (roles, stops) = self.search_stops(from, to);
        let (dep_rows, arr_rows) = self.search_stop_times(&roles);
        let deps = self.search_departures(&dep_rows, at);
        let (trips, route_ids, service_ids) = self.search_trips(&deps);
        let routes = self.search_routes(&route_ids);
        let running = self.search_calendar(&service_ids, at);
        proof {
            lemma_step_rows_have_role(self.feed@.stop_times, roles@, Step::Arrival);
            lemma_roles_matched_domains(self.feed@.stops, normalize(from@), normalize(to@));
            assert forall|i: int| 0 <= i < arr_rows@.len() implies stops@.contains_key(
                (#[trigger] arr_rows@[i])@.stop_id,
            ) by {
                assert(stop_times_view(arr_rows@)[i] == arr_rows@[i]@);
                assert(roles@.contains_key(stop_times_view(arr_rows@)[i].stop_id));
            }
        }
        let results = self.search_services(&arr_rows, &deps, &trips, &routes, &running, &stops, at);
        proof {
            let joined = spec_joined(
                stop_times_view(arr_rows@),
                deps@,
                trips@,
                routes@,
                running@,
                stops@,
                *at,
            );
            lemma_sort_sorted(joined);
            lemma_departures_after(stop_times_view(dep_rows@), *at);
            lemma_joined_props(
                stop_times_view(arr_rows@),
                deps@,
                trips@,
                routes@,
                running@,
                stops@,
                *at,
            );
            assert forall|l: int| 0 <= l < results@.len() implies ((#[trigger] results@[l])@.departure_time
                > at.seconds && results@[l]@.arrival_time > results@[l]@.departure_time) by {
                assert(services_view(results@)[l] == results@[l]@);
                lemma_sort_members(joined, l);
                let m = choose|m: int|
                    0 <= m < joined.len() && (#[trigger] joined[m]) == sort_by_departure(joined)[l];
                assert(joined[m].departure_time > at.seconds && joined[m].arrival_time
                    > joined[m].departure_time);
            }
        }
        results
    }

    /// Lists the distinct station names of the feed, strictly ascending:
    /// the names of the stops that parsed, sorted, duplicates removed.
    pub fn stations(&self) -> (r: Vec<Station>)
        ensures
            forall|i: int, j: int|
                0 <= i < j < r@.len() ==> lex_lt(
                    #[trigger] station_names(r@)[i],
                    #[trigger] station_names(r@)[j],
                ),
            forall|i: int, j: int|
                0 <= i < j < r@.len() ==> #[trigger] station_names(r@)[i]
                    != #[trigger] station_names(r@)[j],
            station_names(r@).to_set() == spec_station_names(self.feed@.stops),
    {
        let ghost rows = self.feed@.stops;
        let mut out: Vec<Station> = Vec::new();
        let n = self.feed.stops.len();
        let mut i: usize = 0;
        proof {
            assert(rows.take(0) =~= Seq::<Result<SpecStop, RowError>>::empty());
            assert(station_names(out@).to_set() =~= spec_station_names(rows.take(0)));
        }
        while i < n
            invariant
                rows == self.feed@.stops,
                rows == crate::gtfs::stop_rows_view(self.feed.stops@),
                n == self.feed.stops@.len(),
                rows.len() == n,
                i <= n,
                forall|a: int, b: int|
                    0 <= a < b < out@.len() ==> lex_lt(
                        #[trigger] station_names(out@)[a],
                        #[trigger] station_names(out@)[b],
                    ),
                station_names(out@).to_set() == spec_station_names(rows.take(i as int)),
            decreases n - i,
        {
            proof {
                assert(rows.take(i + 1).drop_last() =~= rows.take(i as int));
                assert(rows.take(i + 1).last() == rows[i as int]);
                assert(rows[i as int] == crate::gtfs::stop_row_model(self.feed.stops@[i as int]));
            }
            match &self.feed.stops[i] {
                Ok(stop) => {
                    let name = copy_bytes(&stop.name);
                    let ghost names0 = station_names(out@);
                    let mut j: usize = 0;
                    let mut found = false;
                    loop
                        invariant
                            names0 == station_names(out@),
                            j <= out@.len(),
                            names0.len() == out@.len(),
                            name@ == stop@.name,
                            !found ==> forall|l: int|
                                0 <= l < j ==> lex_lt(#[trigger] names0[l], name@),
                            found ==> j < out@.len() && names0[j as int] == name@,
                        ensures
                            names0 == station_names(out@),
                            j <= out@.len(),
                            name@ == stop@.name,
                            found ==> j < out@.len() && names0[j as int] == name@,
                            !found ==> forall|l: int|
                                0 <= l < j ==> lex_lt(#[trigger] names0[l], name@),
                            !found && j < out@.len() ==> lex_lt(name@, names0[j as int]),
                        decreases out@.len() - j + (if found {
                            0int
                        } else {
                            1int
                        }),
                    {
                        if found || j >= out.len() {
                            break ;
                        }
                        proof {
                            assert(names0[j as int] == out@[j as int].name@);
                        }
                        match crate::text::lex_cmp(&out[j].name, &name) {
                            crate::text::ByteOrder::Less => {
                                j += 1;
                            },
                            crate::text::ByteOrder::Equal => {
                                found = true;
                            },
                            crate::text::ByteOrder::Greater => {
                                proof {
                                    assert(lex_lt(name@, names0[j as int]));
                                }
                                break ;
                            },
                        }
                    }
                    if found {
                        proof {
                            assert(names0.contains(name@)) by {
                                assert(names0[j as int] == name@);
                            }
                            assert(station_names(out@).to_set() =~= spec_station_names(
                                rows.take(i + 1),
                            ));
                        }
                    } else {
                        proof {
                            if j < out@.len() {
                                assert(lex_lt(name@, names0[j as int]));
                            }
                        }
                        let ghost o0 = out@;
                        out.insert(j, Station { name });
                        proof {
                            o0.insert_ensures(j as int, Station { name: out@[j as int].name });
                            let names1 = station_names(out@);
                            assert(names1.len() == names0.len() + 1);
                            assert(forall|l: int|
                                0 <= l < j ==> #[trigger] names1[l] == names0[l]);
                            assert(names1[j as int] == stop@.name);
                            assert(forall|l: int|
                                j < l < names1.len() ==> #[trigger] names1[l] == names0[l - 1]);
                            // strict order is kept around the insertion point
                            assert forall|a: int, b: int| 0 <= a < b < names1.len() implies lex_lt(
                                #[trigger] names1[a],
                                #[trigger] names1[b],
                            ) by {
                                if a < j && b < j {
                                } else if a < j && b == j {
                                    assert(lex_lt(names0[a], stop@.name));
                                } else if a < j && b > j {
                                    assert(lex_lt(names0[a], names0[b - 1])) by {
                                        if a < b - 1 {
                                        } else {
                                            assert(lex_lt(names0[a], stop@.name));
                                        }
                                    }
                                } else if a == j {
                                    assert(lex_lt(stop@.name, names0[j as int]));
                                    if b - 1 > j {
                                        crate::text::lemma_lex_lt_transitive(
                                            stop@.name,
                                            names0[j as int],
                                            names0[b - 1],
                                        );
                                    }
                                } else {
                                }
                            }
                            // the name set grows by exactly this name
                            assert forall|x: Seq<u8>| names1.contains(x) <==> (names0.contains(x)
                                || x == stop@.name) by {
                                if names1.contains(x) {
                                    let idx = choose|idx: int|
                                        0 <= idx < names1.len() && names1[idx] == x;
                                    if idx < j {
                                        assert(names0[idx] == x);
                                    } else if idx == j {
                                    } else {
                                        assert(names0[idx - 1] == x);
                                    }
                                }
                                if names0.contains(x) {
                                    let idx = choose|idx: int|
                                        0 <= idx < names0.len() && names0[idx] == x;
                                    if idx < j {
                                        assert(names1[idx] == x);
                                    } else {
                                        assert(names1[idx + 1] == x);
                                    }
                                }
                                if x == stop@.name {
                                    assert(names1[j as int] == x);
                                }
                            }
                            assert(station_names(out@).to_set() =~= spec_station_names(
                                rows.take(i + 1),
                            ));
                        }
                    }
                },
                Err(_) => {
                    proof {
                        assert(station_names(out@).to_set() =~= spec_station_names(
                            rows.take(i + 1),
                        ));
                    }
                },
            }
            i += 1;
        }
        proof {
            assert(rows.take(n as int) =~= rows);
            lemma_strictly_ascending_distinct(station_names(out@));
        }
        out
    }
}

/// A strictly ascending name sequence holds no name twice: what
/// `stations` returns is duplicate-free.
pub proof fn lemma_strictly_ascending_distinct(names: Seq<Seq<u8>>)
    requires
        forall|i: int, j: int| 0 <= i < j < names.len() ==> lex_lt(#[trigger] names[i], #[trigger] names[j]),
    ensures
        forall|i: int, j: int| 0 <= i < j < names.len() ==> #[trigger] names[i] != #[trigger] names[j],
{
    assert forall|i: int, j: int| 0 <= i < j < names.len() implies #[trigger] names[i]
        != #[trigger] names[j] by {
        crate::text::lemma_lex_lt_irreflexive(names[i]);
    }
}

/// Running the same query twice against an unchanged feed yields
/// identical results: the answer is a function of the feed, the two
/// fragments and the reference instant alone.
pub proof fn lemma_timetable_idempotent(
    feed: crate::gtfs::SpecFeed,
    from: Seq<u8>,
    to: Seq<u8>,
    at: Moment,
    r1: Seq<SpecService>,
    r2: Seq<SpecService>,
)
    requires
        r1 == spec_timetable(feed, from, to, at),
        r2 == spec_timetable(feed, from, to, at),
    ensures
        r1 == r2,
{
}

/// A run of candidate departures that all lie at or before the reference
/// instant yields an empty departure map.
proof fn lemma_departures_none(sts: Seq<SpecStopTime>, at: Moment)
    requires
        forall|l: int|
            0 <= l < sts.len() ==> at.midnight + (#[trigger] sts[l]).departure_time.to_seconds()
                <= at.seconds,
    ensures
        spec_departures(sts, at) == Map::<Seq<u8>, i64>::empty(),
    decreases sts.len(),
{
    if sts.len() > 0 {
        assert forall|l: int| 0 <= l < sts.len() - 1 implies at.midnight + (#[trigger] sts.drop_last()[l]).departure_time.to_seconds()
            <= at.seconds by {
            assert(sts.drop_last()[l] == sts[l]);
        }
        lemma_departures_none(sts.drop_last(), at);
        assert(sts[sts.len() - 1] == sts.last());
    }
}

/// Without a departure map, the join yields nothing.
proof fn lemma_joined_no_deps(
    arrivals: Seq<SpecStopTime>,
    trips: Map<Seq<u8>, SpecTrip>,
    routes: Map<Seq<u8>, SpecRoute>,
    running: Set<Seq<u8>>,
    stops: Map<Seq<u8>, SpecStop>,
    at: Moment,
)
    ensures
        spec_joined(arrivals, Map::empty(), trips, routes, running, stops, at) == Seq::<
            SpecService,
        >::empty(),
    decreases arrivals.len(),
{
    if arrivals.len() > 0 {
        lemma_joined_no_deps(arrivals.drop_last(), trips, routes, running, stops, at);
    }
}

/// A reference instant at or after every scheduled departure on the
/// matching stops yields an empty result sequence, and no error.
pub proof fn lemma_late_reference_empty(
    feed: crate::gtfs::SpecFeed,
    from: Seq<u8>,
    to: Seq<u8>,
    at: Moment,
)
    requires
        ({
            let roles = spec_roles(feed.stops, normalize(from), normalize(to));
            let dep_rows = spec_step_rows(feed.stop_times, roles, Step::Departure);
            forall|l: int|
                0 <= l < dep_rows.len() ==> at.midnight + (#[trigger] dep_rows[l]).departure_time.to_seconds()
                    <= at.seconds
        }),
    ensures
        spec_timetable(feed, from, to, at) == Seq::<SpecService>::empty(),
{
    let roles = spec_roles(feed.stops, normalize(from), normalize(to));
    let dep_rows = spec_step_rows(feed.stop_times, roles, Step::Departure);
    lemma_departures_none(dep_rows, at);
    let arr_rows = spec_step_rows(feed.stop_times, roles, Step::Arrival);
    let stops = spec_matched_stops(feed.stops, normalize(from), normalize(to));
    let trips = spec_retained_trips(feed.trips, Map::empty());
    let route_ids = spec_route_ids(feed.trips, Map::empty());
    let service_ids = spec_service_ids(feed.trips, Map::empty());
    let routes = spec_retained_routes(feed.routes, route_ids);
    let running = spec_running_services(feed.calendar, service_ids, at);
    lemma_joined_no_deps(arr_rows, trips, routes, running, stops, at);
}

/// Origin priority: a stop whose normalized name contains both the
/// origin and the destination fragment is a departure candidate only,
/// never an arrival candidate.
pub proof fn lemma_origin_priority(norm_name: Seq<u8>, origin: Seq<u8>, dest: Seq<u8>)
    requires
        contains_sub(norm_name, origin),
    ensures
        stop_role(norm_name, origin, dest) == Some(Step::Departure),
{
}

/// Copies a service record.
fn copy_service(s: &Service) -> (r: Service)
    ensures
        r@ == s@,
{
    Service {
        arrival_longitude: copy_bytes(&s.arrival_longitude),
        departure_time: s.departure_time,
        arrival_time: s.arrival_time,
        short_name: copy_bytes(&s.short_name),
        long_name: copy_bytes(&s.long_name),
    }
}

} // verus!
