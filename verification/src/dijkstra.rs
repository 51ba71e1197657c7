//! The earliest-arrival search from a departure: culls the timetable to the
//! travel date and departure time, then runs the search from the stops in
//! walking range.

use std::collections::HashMap;
use vstd::prelude::*;

use crate::culling::{get_culled_connections, is_culling_of, keeps_connection, kept_connections};
use crate::search::{earliest_arrivals, network_of, rides_to, TransitNetwork};
use crate::structs::{Connection, Date, Timetable};

verus! {

broadcast use vstd::std_specs::hash::group_hash_axioms;

/// The starting points of a departure at `depart_time`: each stop in walking
/// range, reached after walking for the given number of seconds.
pub open spec fn departure_seeds(depart_time: u32, walks: Seq<(u32, u32)>) -> Seq<(u32, u32)> {
    walks.map_values(|w: (u32, u32)| (w.0, (depart_time + w.1) as u32))
}

/// The network of a departure at `depart_time` on `date`: a connection may
/// be ridden when it departs no earlier than `depart_time` and its service
/// runs on `date`.
pub open spec fn departure_network(
    timetable: Timetable,
    depart_time: u32,
    date: Date,
    walks: Seq<(u32, u32)>,
) -> TransitNetwork {
    TransitNetwork {
        seeds: departure_seeds(depart_time, walks),
        connections: timetable.connections@,
        usable: |c: Connection|
            keeps_connection(c, depart_time, u32::MAX, timetable.services@, date),
        transfers: timetable.transfers@,
    }
}

/// Two networks with the same starting points and the same legs reach the
/// same points.
pub proof fn lemma_same_legs_same_reach(net1: TransitNetwork, net2: TransitNetwork)
    requires
        net1.seeds == net2.seeds,
        forall|a: (u32, int), b: (u32, int)| #[trigger] net1.step(a, b) <==> net2.step(a, b),
    ensures
        forall|s: u32, t: int|
            #![trigger net1.reaches(s, t)]
            #![trigger net2.reaches(s, t)]
            net1.reaches(s, t) <==> net2.reaches(s, t),
{
    assert forall|s: u32, t: int| #[trigger] net1.reaches(s, t) implies net2.reaches(s, t) by {
        let j = choose|j: Seq<(u32, int)>| #[trigger] net1.is_journey(j) && j.last() == (s, t);
        assert forall|i: int| 0 <= i < j.len() - 1 implies #[trigger] net2.step(j[i], j[i + 1]) by {
            assert(net1.step(j[i], j[i + 1]));
        }
        assert(net2.is_journey(j));
    }
    assert forall|s: u32, t: int| #[trigger] net2.reaches(s, t) implies net1.reaches(s, t) by {
        let j = choose|j: Seq<(u32, int)>| #[trigger] net2.is_journey(j) && j.last() == (s, t);
        assert forall|i: int| 0 <= i < j.len() - 1 implies #[trigger] net1.step(j[i], j[i + 1]) by {
            assert(net2.step(j[i], j[i + 1]));
        }
        assert(net1.is_journey(j));
    }
}

/// Riding the culled connections is riding the usable ones.
proof fn lemma_culled_legs(
    culled: Map<u32, Vec<Connection>>,
    timetable: Timetable,
    depart_time: u32,
    date: Date,
    walks: Seq<(u32, u32)>,
)
    requires
        is_culling_of(
            culled,
            timetable.connections@,
            depart_time,
            u32::MAX,
            timetable.services@,
            date,
        ),
    ensures
        forall|a: (u32, int), b: (u32, int)| #[trigger]
            network_of(departure_seeds(depart_time, walks), culled, timetable.transfers@).step(a, b)
                <==> departure_network(timetable, depart_time, date, walks).step(a, b),
{
    broadcast use vstd::seq_lib::group_filter_ensures;

    let net1 = network_of(departure_seeds(depart_time, walks), culled, timetable.transfers@);
    let net2 = departure_network(timetable, depart_time, date, walks);
    let conns = timetable.connections@;
    let keep = |c: Connection| keeps_connection(c, depart_time, u32::MAX, timetable.services@, date);
    assert forall|a: (u32, int), b: (u32, int)| #[trigger] net1.step(a, b) <==> net2.step(a, b) by {
        let ride1 = net1.connections.contains_key(a.0) && exists|i: int|
            0 <= i < net1.connections[a.0]@.len() && (net1.usable)(net1.connections[a.0]@[i])
                && #[trigger] rides_to(net1.connections[a.0]@[i], a.1, b);
        let ride2 = net2.connections.contains_key(a.0) && exists|i: int|
            0 <= i < net2.connections[a.0]@.len() && (net2.usable)(net2.connections[a.0]@[i])
                && #[trigger] rides_to(net2.connections[a.0]@[i], a.1, b);
        if ride1 {
            let i = choose|i: int|
                0 <= i < net1.connections[a.0]@.len() && (net1.usable)(net1.connections[a.0]@[i])
                    && #[trigger] rides_to(net1.connections[a.0]@[i], a.1, b);
            let c = culled[a.0]@[i];
            assert(culled[a.0]@ == conns[a.0]@.filter(keep));
            assert(conns[a.0]@.filter(keep).contains(c));
            assert(keep(c));
            conns[a.0]@.lemma_filter_contains_rev(keep, c);
            let k = choose|k: int| 0 <= k < conns[a.0]@.len() && conns[a.0]@[k] == c;
            assert(rides_to(net2.connections[a.0]@[k], a.1, b));
        }
        if ride2 {
            let i = choose|i: int|
                0 <= i < net2.connections[a.0]@.len() && (net2.usable)(net2.connections[a.0]@[i])
                    && #[trigger] rides_to(net2.connections[a.0]@[i], a.1, b);
            let c = conns[a.0]@[i];
            conns[a.0]@.lemma_filter_contains(keep, i);
            assert(conns[a.0]@.filter(keep).contains(c));
            assert(kept_connections(conns[a.0]@, depart_time, u32::MAX, timetable.services@, date)
                == conns[a.0]@.filter(keep));
            assert(culled.contains_key(a.0));
            let k = choose|k: int| 0 <= k < culled[a.0]@.len() && culled[a.0]@[k] == c;
            assert(rides_to(net1.connections[a.0]@[k], a.1, b));
        }
    }
}

/// Every connection of the timetable arrives no earlier than it departs.
pub open spec fn rides_forward(timetable: Timetable) -> bool {
    forall|s: u32, i: int|
        #![trigger timetable.connections@[s]@[i]]
        timetable.connections@.contains_key(s) && 0 <= i < timetable.connections@[s]@.len()
            ==> timetable.connections@[s]@[i].departure_time <= timetable.connections@[s]@[i].arrival_time
}

proof fn lemma_journey_after_departure(
    timetable: Timetable,
    depart_time: u32,
    date: Date,
    walks: Seq<(u32, u32)>,
    j: Seq<(u32, int)>,
)
    requires
        rides_forward(timetable),
        forall|i: int| 0 <= i < walks.len() ==> depart_time + (#[trigger] walks[i]).1 <= u32::MAX,
        departure_network(timetable, depart_time, date, walks).is_journey(j),
    ensures
        j.last().1 >= depart_time,
    decreases j.len(),
{
    let net = departure_network(timetable, depart_time, date, walks);
    if j.len() == 1 {
        let k = choose|k: int|
            0 <= k < net.seeds.len() && #[trigger] net.seeds[k].0 == j[0].0 && net.seeds[k].1 == j[0].1;
        assert(net.seeds[k] == (walks[k].0, (depart_time + walks[k].1) as u32));
    } else {
        let prev = j.drop_last();
        assert forall|i: int| 0 <= i < prev.len() - 1 implies #[trigger] net.step(prev[i], prev[i + 1]) by {
            assert(net.step(j[i], j[i + 1]));
        }
        lemma_journey_after_departure(timetable, depart_time, date, walks, prev);
        let n = j.len() - 2;
        assert(net.step(j[n], j[n + 1]));
        let a = j[n];
        let b = j.last();
        assert(a == prev.last());
        if net.connections.contains_key(a.0) && exists|i: int|
            0 <= i < net.connections[a.0]@.len() && (net.usable)(net.connections[a.0]@[i])
                && #[trigger] rides_to(net.connections[a.0]@[i], a.1, b) {
            let i = choose|i: int|
                0 <= i < net.connections[a.0]@.len() && (net.usable)(net.connections[a.0]@[i])
                    && #[trigger] rides_to(net.connections[a.0]@[i], a.1, b);
            assert(timetable.connections@[a.0]@[i].departure_time <= timetable.connections@[a.0]@[i].arrival_time);
        }
    }
}

/// No arrival comes before the departure: when every connection arrives no
/// earlier than it departs, the earliest arrivals of a departure at
/// `depart_time` are all at or after `depart_time`.
pub proof fn arrivals_not_before_departure(
    timetable: Timetable,
    depart_time: u32,
    date: Date,
    walks: Seq<(u32, u32)>,
    arrival_times: Map<u32, u32>,
)
    requires
        rides_forward(timetable),
        forall|i: int| 0 <= i < walks.len() ==> depart_time + (#[trigger] walks[i]).1 <= u32::MAX,
        departure_network(timetable, depart_time, date, walks).earliest(arrival_times),
    ensures
        forall|s: u32| #[trigger] arrival_times.contains_key(s) ==> arrival_times[s] >= depart_time,
{
    let net = departure_network(timetable, depart_time, date, walks);
    assert forall|s: u32| #[trigger] arrival_times.contains_key(s) implies arrival_times[s] >= depart_time by {
        assert(net.reaches(s, arrival_times[s] as int));
        let j = choose|j: Seq<(u32, int)>| #[trigger] net.is_journey(j) && j.last() == (s, arrival_times[s] as int);
        lemma_journey_after_departure(timetable, depart_time, date, walks, j);
    }
}

/// runs the dijkstra algorithm with each stop as a node, with "connections"
/// and "transfers" as the edges, for a departure at `depart_time` (seconds
/// since midnight) on `date` from a position within walking range of the
/// stops in `walks` (stop id, seconds of walking).
///
/// returns HashMap<to_stop_id: u32, arrival_time: u32> (arrival time in
/// seconds since midnight): every stop that a journey reaches, with the
/// earliest arrival of such a journey.
pub fn initialize_dijkstra(
    timetable: &Timetable,
    depart_time: u32,
    date: Date,
    walks: &Vec<(u32, u32)>,
) -> (arrival_times: HashMap<u32, u32>)
    requires
        forall|i: int| 0 <= i < walks@.len() ==> depart_time + (#[trigger] walks@[i]).1 <= u32::MAX,
        forall|i: int, k: int|
            0 <= i < walks@.len() && 0 <= k < walks@.len() && (#[trigger] walks@[i]).0
                == (#[trigger] walks@[k]).0 ==> walks@[i].1 == walks@[k].1,
    ensures
        departure_network(*timetable, depart_time, date, walks@).earliest(arrival_times@),
{
    // get culled connections list, removing any entries that occured before
    // the depart instant (max time not used, so set to u32::MAX)
    let culled_connections = get_culled_connections(
        depart_time,
        u32::MAX,
        &timetable.connections,
        timetable,
        date,
    );

    // the starting points: the walking time to each stop in range
    let mut seeds: Vec<(u32, u32)> = Vec::new();
    let n = walks.len();
    for i in 0..n
        invariant
            n == walks@.len(),
            forall|i: int| 0 <= i < walks@.len() ==> depart_time + (#[trigger] walks@[i]).1 <= u32::MAX,
            seeds@ == departure_seeds(depart_time, walks@.take(i as int)),
    {
        let (stop_id, walk) = walks[i];
        seeds.push((stop_id, depart_time + walk));
        proof {
            assert(walks@.take(i + 1) =~= walks@.take(i as int).push(walks@[i as int]));
            assert(departure_seeds(depart_time, walks@.take(i + 1)) =~= departure_seeds(
                depart_time,
                walks@.take(i as int),
            ).push((stop_id, (depart_time + walk) as u32)));
        }
    }
    proof {
        assert(walks@.take(n as int) =~= walks@);
    }
    let ghost net1 = network_of(seeds@, culled_connections@, timetable.transfers@);
    let ghost net2 = departure_network(*timetable, depart_time, date, walks@);
    proof {
        assert(net1.seeds_consistent()) by {
            assert forall|i: int, k: int|
                0 <= i < net1.seeds.len() && 0 <= k < net1.seeds.len() && #[trigger] net1.seeds[i].0
                    == #[trigger] net1.seeds[k].0 implies net1.seeds[i].1 == net1.seeds[k].1 by {
                assert(walks@[i].0 == walks@[k].0);
            }
        }
    }
    let arrival_times = earliest_arrivals(&seeds, &culled_connections, &timetable.transfers);
    proof {
        lemma_culled_legs(culled_connections@, *timetable, depart_time, date, walks@);
        lemma_same_legs_same_reach(net1, net2);
    }
    arrival_times
}

} // verus!
