//! Culling of the connections: only those in service on the travel date
//! and inside the time window take part in the search.

use std::collections::HashMap;
use vstd::prelude::*;
use vstd::std_specs::iter::IteratorSpec;

use crate::structs::{
    service_key, spec_service_key, Connection, Date, ServiceExceptionType, Timetable,
};

verus! {

broadcast use vstd::std_specs::hash::group_hash_axioms;

/// The service of `c` is added on `date`.
pub open spec fn in_service(
    c: Connection,
    services: Map<u128, ServiceExceptionType>,
    date: Date,
) -> bool {
    &&& services.contains_key(spec_service_key(c.service_id, date))
    &&& services[spec_service_key(c.service_id, date)] == ServiceExceptionType::ServiceAdded
}

/// `c` departs no earlier than `min_time`, arrives no later than
/// `max_time` and runs on `date`.
pub open spec fn keeps_connection(
    c: Connection,
    min_time: u32,
    max_time: u32,
    services: Map<u128, ServiceExceptionType>,
    date: Date,
) -> bool {
    &&& c.departure_time >= min_time
    &&& c.arrival_time <= max_time
    &&& in_service(c, services, date)
}

/// The connections of `cs` that culling keeps, in their order.
pub open spec fn kept_connections(
    cs: Seq<Connection>,
    min_time: u32,
    max_time: u32,
    services: Map<u128, ServiceExceptionType>,
    date: Date,
) -> Seq<Connection> {
    cs.filter(|c: Connection| keeps_connection(c, min_time, max_time, services, date))
}

/// `culled` holds, under each stop, exactly the connections of `connections`
/// that culling keeps, and holds no stop whose connections are all dropped.
pub open spec fn is_culling_of(
    culled: Map<u32, Vec<Connection>>,
    connections: Map<u32, Vec<Connection>>,
    min_time: u32,
    max_time: u32,
    services: Map<u128, ServiceExceptionType>,
    date: Date,
) -> bool {
    &&& forall|s: u32| #[trigger]
        culled.contains_key(s) <==> connections.contains_key(s) && kept_connections(
            connections[s]@,
            min_time,
            max_time,
            services,
            date,
        ).len() > 0
    &&& forall|s: u32| #[trigger]
        culled.contains_key(s) ==> culled[s]@ == kept_connections(
            connections[s]@,
            min_time,
            max_time,
            services,
            date,
        )
}

/// Whether the service of `c` is added on `date`.
fn connection_in_service(c: &Connection, timetable: &Timetable, date: Date) -> (b: bool)
    ensures
        b == in_service(*c, timetable.services@, date),
{
    match timetable.services.get(&service_key(c.service_id, date)) {
        Some(value) => *value == ServiceExceptionType::ServiceAdded,
        None => false,
    }
}

/// The connections of `cs` that depart no earlier than `min_time`, arrive
/// no later than `max_time` and are in service on `date`.
fn cull_list(
    cs: &Vec<Connection>,
    min_time: u32,
    max_time: u32,
    timetable: &Timetable,
    date: Date,
) -> (kept: Vec<Connection>)
    ensures
        kept@ == kept_connections(cs@, min_time, max_time, timetable.services@, date),
{
    let ghost pred = |c: Connection| keeps_connection(c, min_time, max_time, timetable.services@, date);
    let mut kept: Vec<Connection> = Vec::new();
    let n = cs.len();
    for i in 0..n
        invariant
            n == cs@.len(),
            pred == (|c: Connection| keeps_connection(c, min_time, max_time, timetable.services@, date)),
            kept@ == cs@.take(i as int).filter(pred),
    {
        let c = cs[i];
        proof {
            assert(cs@.take(i + 1).drop_last() =~= cs@.take(i as int));
            reveal_with_fuel(Seq::<_>::filter, 1);
        }
        // if departure_time already passed, or arrival_time is too late, skip it;
        // if the connection is not in service on the date, skip it
        if c.departure_time >= min_time && c.arrival_time <= max_time && connection_in_service(
            &c,
            timetable,
            date,
        ) {
            kept.push(c);
        }
    }
    proof {
        assert(cs@.take(n as int) =~= cs@);
    }
    kept
}

/// returns a connections hash map with any entries that depart before
/// `min_time`, arrive after `max_time`, or are not in service on `date` culled
pub fn get_culled_connections(
    min_time: u32,
    max_time: u32,
    connections_map: &HashMap<u32, Vec<Connection>>,
    timetable: &Timetable,
    date: Date,
) -> (culled: HashMap<u32, Vec<Connection>>)
    ensures
        is_culling_of(culled@, connections_map@, min_time, max_time, timetable.services@, date),
{
    let mut culled_connections_map: HashMap<u32, Vec<Connection>> = HashMap::new();
    let ghost m = connections_map@;
    let ghost entries = vstd::std_specs::hash::spec_hash_map_iter(connections_map).remaining();
    for pair in it: connections_map.iter()
        invariant
            m == connections_map@,
            it.seq() == entries,
            entries == vstd::std_specs::hash::spec_hash_map_iter(connections_map).remaining(),
            forall|s: u32| #[trigger]
                culled_connections_map@.contains_key(s) <==> (exists|k: int|
                    0 <= k < it.index() && *entries[k].0 == s) && kept_connections(
                    m[s]@,
                    min_time,
                    max_time,
                    timetable.services@,
                    date,
                ).len() > 0,
            forall|s: u32| #[trigger]
                culled_connections_map@.contains_key(s) ==> m.contains_key(s)
                    && culled_connections_map@[s]@ == kept_connections(
                    m[s]@,
                    min_time,
                    max_time,
                    timetable.services@,
                    date,
                ),
    {
        let (from_stop_id, connections) = pair;
        let kept = cull_list(connections, min_time, max_time, timetable, date);
        if kept.len() > 0 {
            culled_connections_map.insert(*from_stop_id, kept);
        }
    }
    culled_connections_map
}

/// Culling keeps exactly the rides that can still be taken: every kept
/// connection departs no earlier than `min_time`, arrives no later than
/// `max_time` and runs on `date`; and every connection of a stop that does
/// all three is kept under that stop.
pub proof fn culling_keeps_exactly_usable_rides(
    culled: Map<u32, Vec<Connection>>,
    connections: Map<u32, Vec<Connection>>,
    min_time: u32,
    max_time: u32,
    services: Map<u128, ServiceExceptionType>,
    date: Date,
    s: u32,
)
    requires
        is_culling_of(culled, connections, min_time, max_time, services, date),
    ensures
        culled.contains_key(s) ==> forall|i: int| 0 <= i < culled[s]@.len() ==> {
            let c = #[trigger] culled[s]@[i];
            &&& c.departure_time >= min_time
            &&& c.arrival_time <= max_time
            &&& services.contains_key(spec_service_key(c.service_id, date))
            &&& services[spec_service_key(c.service_id, date)] == ServiceExceptionType::ServiceAdded
        },
        connections.contains_key(s) ==> forall|j: int| 0 <= j < connections[s]@.len() ==> {
            let c = #[trigger] connections[s]@[j];
            (c.departure_time >= min_time && c.arrival_time <= max_time && services.contains_key(
                spec_service_key(c.service_id, date),
            ) && services[spec_service_key(c.service_id, date)] == ServiceExceptionType::ServiceAdded)
                ==> culled.contains_key(s) && culled[s]@.contains(c)
        },
{
    let pred = |c: Connection| keeps_connection(c, min_time, max_time, services, date);
    if culled.contains_key(s) {
        assert forall|i: int| 0 <= i < culled[s]@.len() implies {
            let c = #[trigger] culled[s]@[i];
            &&& c.departure_time >= min_time
            &&& c.arrival_time <= max_time
            &&& services.contains_key(spec_service_key(c.service_id, date))
            &&& services[spec_service_key(c.service_id, date)] == ServiceExceptionType::ServiceAdded
        } by {
            assert(culled[s]@ == connections[s]@.filter(pred));
            connections[s]@.lemma_filter_pred(pred, i);
        }
    }
    if connections.contains_key(s) {
        assert forall|j: int| 0 <= j < connections[s]@.len() implies {
            let c = #[trigger] connections[s]@[j];
            (c.departure_time >= min_time && c.arrival_time <= max_time && services.contains_key(
                spec_service_key(c.service_id, date),
            ) && services[spec_service_key(c.service_id, date)] == ServiceExceptionType::ServiceAdded)
                ==> culled.contains_key(s) && culled[s]@.contains(c)
        } by {
            let c = connections[s]@[j];
            if pred(c) {
                connections[s]@.lemma_filter_contains(pred, j);
                assert(kept_connections(connections[s]@, min_time, max_time, services, date).contains(c));
                assert(kept_connections(connections[s]@, min_time, max_time, services, date).len() > 0);
            }
        }
    }
}

} // verus!
