//! Building the connections of the timetable from its trips: the visits of
//! each trip are put in departure order, and each pair of consecutive
//! visits becomes a connection.

use std::collections::HashMap;
use vstd::prelude::*;
use vstd::std_specs::iter::IteratorSpec;

use crate::structs::{Connection, StopTime, Trip};

verus! {

broadcast use vstd::std_specs::hash::group_hash_axioms;

/// Visits with departure time `d`.
pub open spec fn departing_at(d: u32) -> spec_fn(StopTime) -> bool {
    |x: StopTime| x.departure_time == d
}

/// The visits of `s` are in nondecreasing order of departure.
pub open spec fn sorted_by_departure(s: Seq<StopTime>) -> bool {
    forall|i: int, j: int| 0 <= i <= j < s.len() ==> s[i].departure_time <= s[j].departure_time
}

/// `a` and `b` hold the same visits, and visits with equal departure times
/// come in the same order in both.
pub open spec fn same_order_per_departure(a: Seq<StopTime>, b: Seq<StopTime>) -> bool {
    forall|d: u32| #[trigger] a.filter(departing_at(d)) == b.filter(departing_at(d))
}

/// Puts the visits in departure order, keeping visits with equal departure
/// times in their order (a stable sort).
pub fn sort_stop_times(stop_times: &mut Vec<StopTime>)
    ensures
        sorted_by_departure(final(stop_times)@),
        same_order_per_departure(final(stop_times)@, old(stop_times)@),
{
    broadcast use vstd::seq_lib::group_seq_lib_default;

    let ghost input = stop_times@;
    let mut sorted: Vec<StopTime> = Vec::new();
    let n = stop_times.len();
    for i in 0..n
        invariant
            n == stop_times@.len(),
            input == stop_times@,
            sorted_by_departure(sorted@),
            forall|d: u32| #[trigger]
                sorted@.filter(departing_at(d)) == input.take(i as int).filter(departing_at(d)),
    {
        let x = stop_times[i];
        // the place after every visit that departs no later than x
        let mut p: usize = 0;
        while p < sorted.len() && sorted[p].departure_time <= x.departure_time
            invariant
                p <= sorted@.len(),
                forall|k: int| 0 <= k < p ==> sorted@[k].departure_time <= x.departure_time,
            decreases sorted@.len() - p,
        {
            p = p + 1;
        }
        let ghost before = sorted@;
        sorted.insert(p, x);
        proof {
            let pre = before.take(p as int);
            let post = before.skip(p as int);
            assert(before =~= pre + post);
            assert(sorted@ =~= pre + (seq![x] + post));
            assert(input.take(i + 1) =~= input.take(i as int).push(x));
            assert forall|k: int| 0 <= k < post.len() implies post[k].departure_time > x.departure_time by {
                assert(before[p as int].departure_time > x.departure_time);
                assert(post[k] == before[p + k]);
            }
            assert forall|d: u32| #[trigger]
                sorted@.filter(departing_at(d)) == input.take(i + 1).filter(departing_at(d)) by {
                let f = departing_at(d);
                Seq::filter_distributes_over_add(pre, post, f);
                Seq::filter_distributes_over_add(pre, seq![x] + post, f);
                Seq::filter_distributes_over_add(seq![x], post, f);
                input.take(i as int).lemma_filter_push(x, f);
                Seq::<StopTime>::empty().lemma_filter_push(x, f);
                assert(seq![x] =~= Seq::<StopTime>::empty().push(x));
                reveal(Seq::filter);
                assert(Seq::<StopTime>::empty().filter(f) =~= Seq::<StopTime>::empty());
                if x.departure_time == d {
                    assert(post.filter(f) =~= Seq::<StopTime>::empty()) by {
                        if post.filter(f).len() > 0 {
                            post.lemma_filter_pred(f, 0);
                            let e = post.filter(f)[0];
                            post.lemma_filter_contains_rev(f, e);
                        }
                    }
                    assert(pre.filter(f).push(x) =~= pre.filter(f) + seq![x]);
                } else {
                    assert(seq![x].filter(f) =~= Seq::<StopTime>::empty());
                }
                assert(sorted@.filter(f) == input.take(i + 1).filter(f));
            }
            assert forall|a: int, b: int| 0 <= a <= b < sorted@.len() implies sorted@[a].departure_time
                <= sorted@[b].departure_time by {
                if a < p && b > p {
                    assert(sorted@[b] == before[b - 1]);
                    assert(sorted@[a] == before[a]);
                } else if a < p && b == p {
                } else if a == p && b > p {
                    assert(sorted@[b] == post[b - p - 1]);
                } else if a > p {
                    assert(sorted@[a] == before[a - 1]);
                    assert(sorted@[b] == before[b - 1]);
                } else if b < p {
                }
            }
        }
    }
    proof {
        assert(input.take(n as int) =~= input);
    }
    *stop_times = sorted;
}

/// The connection that a trip of service `service_id` forms between its
/// consecutive visits `a` and `b`.
pub open spec fn leg(service_id: u32, a: StopTime, b: StopTime) -> Connection {
    Connection {
        to_stop_id: b.stop_id,
        service_id,
        arrival_time: b.arrival_time,
        departure_time: a.departure_time,
    }
}

/// The connections that the visits `st` of a trip of service `service_id`
/// form and that leave stop `s`, in visit order.
pub open spec fn legs_from(service_id: u32, st: Seq<StopTime>, s: u32) -> Seq<Connection>
    decreases st.len(),
{
    if st.len() < 2 {
        Seq::empty()
    } else {
        legs_from(service_id, st.drop_last(), s) + if st[st.len() - 2].stop_id == s {
            seq![leg(service_id, st[st.len() - 2], st[st.len() - 1])]
        } else {
            Seq::<Connection>::empty()
        }
    }
}

/// The connections leaving stop `s` that the trips `order` of `trips` form,
/// trip after trip.
pub open spec fn trips_legs_from(trips: Map<u32, Trip>, order: Seq<u32>, s: u32) -> Seq<Connection>
    decreases order.len(),
{
    if order.len() == 0 {
        Seq::empty()
    } else {
        trips_legs_from(trips, order.drop_last(), s) + legs_from(
            trips[order.last()].service_id,
            trips[order.last()].stop_times@,
            s,
        )
    }
}

/// The connections stored under `s`, or none.
pub open spec fn list_of(m: Map<u32, Vec<Connection>>, s: u32) -> Seq<Connection> {
    if m.contains_key(s) {
        m[s]@
    } else {
        Seq::empty()
    }
}

/// `m` stores under each stop exactly the connections `expected` gives it,
/// and stores nothing under a stop that none leaves.
pub open spec fn stores_legs(m: Map<u32, Vec<Connection>>, expected: spec_fn(u32) -> Seq<Connection>) -> bool {
    &&& forall|s: u32| #[trigger] list_of(m, s) == expected(s)
    &&& forall|s: u32| #[trigger] m.contains_key(s) ==> m[s]@.len() > 0
}

proof fn lemma_trips_legs_frame(t1: Map<u32, Trip>, t2: Map<u32, Trip>, order: Seq<u32>, s: u32)
    requires
        forall|k: u32| #[trigger] order.contains(k) ==> t1.contains_key(k) && t2.contains_key(k) && t1[k] == t2[k],
    ensures
        trips_legs_from(t1, order, s) == trips_legs_from(t2, order, s),
    decreases order.len(),
{
    if order.len() > 0 {
        assert(order.contains(order.last()));
        assert forall|k: u32| #[trigger] order.drop_last().contains(k) implies t1.contains_key(k) && t2.contains_key(k)
            && t1[k] == t2[k] by {
            let i = choose|i: int| 0 <= i < order.drop_last().len() && order.drop_last()[i] == k;
            assert(order[i] == k);
            assert(order.contains(k));
        }
        lemma_trips_legs_frame(t1, t2, order.drop_last(), s);
    }
}

/// Appends connection `c` to the list stored under `from`.
fn push_connection(connections: &mut HashMap<u32, Vec<Connection>>, from: u32, c: Connection)
    ensures
        forall|s: u32| s != from ==> #[trigger] list_of(final(connections)@, s) == list_of(old(connections)@, s),
        list_of(final(connections)@, from) == list_of(old(connections)@, from).push(c),
        final(connections)@.dom() == old(connections)@.dom().insert(from),
        forall|s: u32| s != from && #[trigger] final(connections)@.contains_key(s) ==> final(connections)@[s] == old(connections)@[s],
{
    let mut list = match connections.remove(&from) {
        Some(l) => l,
        None => Vec::new(),
    };
    list.push(c);
    connections.insert(from, list);
    proof {
        assert(final(connections)@.dom() =~= old(connections)@.dom().insert(from));
    }
}

/// Appends, stop by stop, the connections that the visits `st` of a trip of
/// service `service_id` form.
fn add_trip_legs(
    connections: &mut HashMap<u32, Vec<Connection>>,
    service_id: u32,
    st: &Vec<StopTime>,
    base: Ghost<spec_fn(u32) -> Seq<Connection>>,
)
    requires
        st@.len() > 0,
        stores_legs(old(connections)@, base@),
    ensures
        stores_legs(final(connections)@, |s: u32| base@(s) + legs_from(service_id, st@, s)),
{
    let n = st.len();
    // skipping last index since we are looking at pairs of stops
    for i in 0..n - 1
        invariant
            n == st@.len(),
            n > 0,
            stores_legs(connections@, |s: u32| base@(s) + legs_from(service_id, st@.take(i + 1), s)),
    {
        let from_stop_id = st[i].stop_id;
        let c = Connection {
            to_stop_id: st[i + 1].stop_id,
            service_id,
            arrival_time: st[i + 1].arrival_time,
            departure_time: st[i].departure_time,
        };
        let ghost before = connections@;
        push_connection(connections, from_stop_id, c);
        proof {
            let t1 = st@.take(i + 1);
            let t2 = st@.take(i + 2);
            assert(t2.drop_last() =~= t1);
            assert(t2[t2.len() - 2] == st@[i as int]);
            assert(t2[t2.len() - 1] == st@[i + 1]);
            assert forall|s: u32| #[trigger]
                list_of(connections@, s) == base@(s) + legs_from(service_id, t2, s) by {
                if s == from_stop_id {
                    assert(legs_from(service_id, t2, s) =~= legs_from(service_id, t1, s).push(c));
                    assert(base@(s) + legs_from(service_id, t1, s).push(c) =~= (base@(s) + legs_from(service_id, t1, s)).push(c));
                } else {
                    assert(legs_from(service_id, t2, s) =~= legs_from(service_id, t1, s));
                }
            }
            assert forall|s: u32| #[trigger] connections@.contains_key(s) implies connections@[s]@.len() > 0 by {
                if s == from_stop_id {
                    assert(list_of(connections@, s).len() > 0);
                } else {
                    assert(before.contains_key(s));
                }
            }
        }
    }
    proof {
        assert(st@.take(n as int) =~= st@);
    }
}

/// The ids of the trips in `trips`, in the order the map is walked.
fn trip_ids(trips: &HashMap<u32, Trip>) -> (ids: Vec<u32>)
    ensures
        ids@.no_duplicates(),
        forall|k: u32| ids@.contains(k) <==> trips@.contains_key(k),
{
    let mut ids: Vec<u32> = Vec::new();
    let ghost keys = vstd::std_specs::hash::spec_keys_iter(trips).remaining();
    for id in it: trips.keys()
        invariant
            it.seq() == keys,
            keys == vstd::std_specs::hash::spec_keys_iter(trips).remaining(),
            ids@.len() == it.index(),
            forall|k: int| 0 <= k < it.index() ==> ids@[k] == *keys[k],
    {
        ids.push(*id);
    }
    proof {
        assert(ids@ =~= keys.unref());
        assert forall|k: u32| ids@.contains(k) <==> trips@.contains_key(k) by {
            assert(keys.unref().to_set() == trips@.dom());
            if ids@.contains(k) {
                assert(keys.unref().to_set().contains(k));
            }
            if trips@.contains_key(k) {
                assert(keys.unref().to_set().contains(k));
            }
        }
        assert(ids@.no_duplicates()) by {
            assert forall|a: int, b: int| 0 <= a < ids@.len() && 0 <= b < ids@.len() && a != b implies ids@[a] != ids@[b] by {
                assert(keys[a] != keys[b]);
            }
        }
    }
    ids
}

/// Puts the visits of every trip in departure order and returns the
/// connections they form: under each stop, the connections leaving it, trip
/// after trip (in the order the trip map is walked) and in visit order
/// within a trip.
pub fn build_connections(trips: &mut HashMap<u32, Trip>) -> (connections: HashMap<u32, Vec<Connection>>)
    requires
        forall|k: u32| #[trigger] old(trips)@.contains_key(k) ==> old(trips)@[k].stop_times@.len() > 0,
    ensures
        final(trips)@.dom() == old(trips)@.dom(),
        forall|k: u32| #[trigger] final(trips)@.contains_key(k) ==> {
            &&& final(trips)@[k].route_id == old(trips)@[k].route_id
            &&& final(trips)@[k].service_id == old(trips)@[k].service_id
            &&& sorted_by_departure(final(trips)@[k].stop_times@)
            &&& same_order_per_departure(final(trips)@[k].stop_times@, old(trips)@[k].stop_times@)
        },
        exists|order: Seq<u32>| {
            &&& order.no_duplicates()
            &&& forall|k: u32| order.contains(k) <==> old(trips)@.contains_key(k)
            &&& stores_legs(connections@, |s: u32| trips_legs_from(final(trips)@, order, s))
        },
{
    let ghost orig = trips@;
    let ids = trip_ids(trips);
    let mut pending: HashMap<u32, Trip> = HashMap::new();
    std::mem::swap(&mut pending, trips);
    let mut connections: HashMap<u32, Vec<Connection>> = HashMap::new();
    proof {
        assert(stores_legs(connections@, |s: u32| trips_legs_from(trips@, ids@.take(0), s))) by {
            assert forall|s: u32| #[trigger] list_of(connections@, s) == trips_legs_from(trips@, ids@.take(0), s) by {
                assert(ids@.take(0).len() == 0);
            }
        }
    }
    let n = ids.len();
    for i in 0..n
        invariant
            n == ids@.len(),
            ids@.no_duplicates(),
            forall|k: u32| ids@.contains(k) <==> orig.contains_key(k),
            forall|k: u32| #[trigger] orig.contains_key(k) ==> orig[k].stop_times@.len() > 0,
            forall|k: u32| #[trigger] pending@.contains_key(k) <==> orig.contains_key(k) && !ids@.take(i as int).contains(k),
            forall|k: u32| #[trigger] pending@.contains_key(k) ==> pending@[k] == orig[k],
            forall|k: u32| #[trigger] trips@.contains_key(k) <==> ids@.take(i as int).contains(k),
            forall|k: u32| #[trigger] trips@.contains_key(k) ==> {
                &&& orig.contains_key(k)
                &&& trips@[k].route_id == orig[k].route_id
                &&& trips@[k].service_id == orig[k].service_id
                &&& sorted_by_departure(trips@[k].stop_times@)
                &&& same_order_per_departure(trips@[k].stop_times@, orig[k].stop_times@)
            },
            stores_legs(connections@, |s: u32| trips_legs_from(trips@, ids@.take(i as int), s)),
    {
        let id = ids[i];
        proof {
            assert(ids@.contains(id));
            assert(!ids@.take(i as int).contains(id)) by {
                if ids@.take(i as int).contains(id) {
                    let j = choose|j: int| 0 <= j < i && ids@.take(i as int)[j] == id;
                    assert(ids@[j] == ids@[i as int]);
                }
            }
        }
        let mut trip = match pending.remove(&id) {
            Some(t) => t,
            None => {
                // every id is pending until its turn
                proof {
                    assert(false);
                }
                Trip { route_id: 0, service_id: 0, stop_times: Vec::new() }
            },
        };
        // sort stop times to be in order
        sort_stop_times(&mut trip.stop_times);
        proof {
            assert(trip.stop_times@.len() > 0) by {
                let f = departing_at(orig[id].stop_times@[0].departure_time);
                orig[id].stop_times@.lemma_filter_contains(f, 0);
                if trip.stop_times@.len() == 0 {
                    assert(trip.stop_times@.filter(f) =~= Seq::<StopTime>::empty()) by {
                        reveal(Seq::filter);
                    }
                }
            }
        }
        let ghost base = |s: u32| trips_legs_from(trips@, ids@.take(i as int), s);
        add_trip_legs(&mut connections, trip.service_id, &trip.stop_times, Ghost(base));
        let ghost trips_before = trips@;
        let ghost done_trip = trip;
        trips.insert(id, trip);
        proof {
            let t1 = ids@.take(i as int);
            let t2 = ids@.take(i + 1);
            assert(t2.drop_last() =~= t1);
            assert(t2.last() == id);
            assert forall|k: u32| #[trigger] t1.contains(k) implies trips_before.contains_key(k)
                && trips@.contains_key(k) && trips_before[k] == trips@[k] by {
                if k == id {
                    assert(false);
                }
            }
            assert forall|s: u32| #[trigger] list_of(connections@, s) == trips_legs_from(trips@, t2, s) by {
                lemma_trips_legs_frame(trips_before, trips@, t1, s);
            }
            assert forall|k: u32| #[trigger] trips@.contains_key(k) <==> t2.contains(k) by {
                if t2.contains(k) && k != id {
                    let j = choose|j: int| 0 <= j < t2.len() && t2[j] == k;
                    assert(t1[j] == k);
                }
                if t1.contains(k) {
                    let j = choose|j: int| 0 <= j < t1.len() && t1[j] == k;
                    assert(t2[j] == k);
                }
            }
            assert forall|k: u32| #[trigger] pending@.contains_key(k) <==> orig.contains_key(k) && !t2.contains(k) by {
                if t2.contains(k) && k != id {
                    let j = choose|j: int| 0 <= j < t2.len() && t2[j] == k;
                    assert(t1[j] == k);
                }
                if t1.contains(k) {
                    let j = choose|j: int| 0 <= j < t1.len() && t1[j] == k;
                    assert(t2[j] == k);
                }
            }
        }
    }
    proof {
        assert(ids@.take(n as int) =~= ids@);
        assert(trips@.dom() =~= orig.dom());
    }
    connections
}

} // verus!
