//! The earliest-arrival search: a label-correcting Dijkstra run with each
//! stop as a node and the connections and transfers as the edges.

use std::collections::HashMap;
use vstd::prelude::*;
use vstd::multiset::Multiset;

use crate::min_queue::{MinQueue, pair_le};
use crate::structs::{Connection, Transfer};

verus! {

broadcast use vstd::std_specs::hash::group_hash_axioms;

/// Riding connection `c` from a stop reached at time `t` brings the
/// traveller to `b`.
pub open spec fn rides_to(c: Connection, t: int, b: (u32, int)) -> bool {
    &&& c.departure_time >= t
    &&& b.0 == c.to_stop_id
    &&& b.1 == c.arrival_time
}

/// Taking transfer `x` from a stop reached at time `t` brings the traveller
/// to `b`.
pub open spec fn walks_to(x: Transfer, t: int, b: (u32, int)) -> bool {
    &&& b.0 == x.to_stop_id
    &&& b.1 == t + x.min_transfer_time
}

/// The graph the search runs on: where the traveller can start (stop and
/// arrival time), the connections leaving each stop (of which those that
/// `usable` admits may be ridden) and the transfers leaving each stop.
pub struct TransitNetwork {
    pub seeds: Seq<(u32, u32)>,
    pub connections: Map<u32, Vec<Connection>>,
    pub usable: spec_fn(Connection) -> bool,
    pub transfers: Map<u32, Vec<Transfer>>,
}

impl TransitNetwork {
    /// One leg of a journey: from stop `a.0` at time `a.1` to stop `b.0` at
    /// time `b.1`, by one usable connection or one transfer, arriving before
    /// the end of the `u32` clock.
    pub open spec fn step(self, a: (u32, int), b: (u32, int)) -> bool {
        &&& b.1 < u32::MAX
        &&& {
            ||| (self.connections.contains_key(a.0) && exists|i: int|
                0 <= i < self.connections[a.0]@.len() && (self.usable)(
                    self.connections[a.0]@[i],
                ) && #[trigger] rides_to(self.connections[a.0]@[i], a.1, b))
            ||| (self.transfers.contains_key(a.0) && exists|i: int|
                0 <= i < self.transfers[a.0]@.len() && #[trigger] walks_to(
                    self.transfers[a.0]@[i],
                    a.1,
                    b,
                ))
        }
    }

    /// `p` is one of the starting points.
    pub open spec fn is_seed(self, p: (u32, int)) -> bool {
        exists|k: int|
            0 <= k < self.seeds.len() && #[trigger] self.seeds[k].0 == p.0 && self.seeds[k].1 == p.1
    }

    /// `j` lists the stops and times of a journey: it begins at a starting
    /// point and each entry follows from the one before by one leg.
    pub open spec fn is_journey(self, j: Seq<(u32, int)>) -> bool {
        &&& j.len() > 0
        &&& self.is_seed(j[0])
        &&& forall|i: int| 0 <= i < j.len() - 1 ==> #[trigger] self.step(j[i], j[i + 1])
    }

    /// Some journey ends at stop `s` at time `t`.
    pub open spec fn reaches(self, s: u32, t: int) -> bool {
        exists|j: Seq<(u32, int)>| #[trigger] self.is_journey(j) && j.last() == (s, t)
    }

    /// `arr` holds exactly the reachable stops, each with its earliest
    /// arrival time.
    pub open spec fn earliest(self, arr: Map<u32, u32>) -> bool {
        &&& forall|s: u32| #[trigger] arr.contains_key(s) ==> self.reaches(s, arr[s] as int)
        &&& forall|s: u32, t: int|
            #[trigger] self.reaches(s, t) ==> arr.contains_key(s) && arr[s] <= t
    }

    /// Every leg out of stop `x`, when reached at `arr[x]`, ends no earlier
    /// than what `arr` already records for its end.
    pub open spec fn settled(self, arr: Map<u32, u32>, x: u32) -> bool {
        forall|b: (u32, int)| #[trigger]
            self.step((x, arr[x] as int), b) ==> arr.contains_key(b.0) && arr[b.0] <= b.1
    }

    /// The starting points never disagree on the time at a stop.
    pub open spec fn seeds_consistent(self) -> bool {
        forall|i: int, k: int|
            0 <= i < self.seeds.len() && 0 <= k < self.seeds.len() && #[trigger] self.seeds[i].0
                == #[trigger] self.seeds[k].0 ==> self.seeds[i].1 == self.seeds[k].1
    }
}

/// Extending a journey by one leg gives a journey.
pub proof fn lemma_journey_extend(net: TransitNetwork, j: Seq<(u32, int)>, b: (u32, int))
    requires
        net.is_journey(j),
        net.step(j.last(), b),
    ensures
        net.is_journey(j.push(b)),
        net.reaches(b.0, b.1),
{
    let j2 = j.push(b);
    assert forall|i: int| 0 <= i < j2.len() - 1 implies #[trigger] net.step(j2[i], j2[i + 1]) by {
        if i < j.len() - 1 {
            assert(j2[i] == j[i] && j2[i + 1] == j[i + 1]);
        } else {
            assert(j2[i] == j.last() && j2[i + 1] == b);
        }
    }
    assert(j2[0] == j[0]);
    assert(net.is_journey(j2) && j2.last() == (b.0, b.1));
}

/// A leg out of a reachable point reaches its end.
pub proof fn lemma_reaches_step(net: TransitNetwork, a: (u32, int), b: (u32, int))
    requires
        net.reaches(a.0, a.1),
        net.step(a, b),
    ensures
        net.reaches(b.0, b.1),
{
    let j = choose|j: Seq<(u32, int)>| #[trigger] net.is_journey(j) && j.last() == (a.0, a.1);
    lemma_journey_extend(net, j, b);
}

/// Every starting point is reached.
pub proof fn lemma_reaches_seed(net: TransitNetwork, k: int)
    requires
        0 <= k < net.seeds.len(),
    ensures
        net.reaches(net.seeds[k].0, net.seeds[k].1 as int),
{
    let p = (net.seeds[k].0, net.seeds[k].1 as int);
    let j = seq![p];
    assert(net.is_seed(j[0]));
    assert(net.is_journey(j) && j.last() == p);
}

/// When every recorded stop is settled and every starting point is
/// recorded no later than its time, every journey ends no earlier than
/// what is recorded for its last stop.
pub proof fn lemma_settled_bounds_journeys(
    net: TransitNetwork,
    arr: Map<u32, u32>,
    j: Seq<(u32, int)>,
)
    requires
        net.is_journey(j),
        forall|x: u32| #[trigger] arr.contains_key(x) ==> net.settled(arr, x),
        forall|k: int|
            0 <= k < net.seeds.len() ==> arr.contains_key(#[trigger] net.seeds[k].0) && arr[net.seeds[k].0]
                <= net.seeds[k].1,
    ensures
        arr.contains_key(j.last().0) && arr[j.last().0] <= j.last().1,
    decreases j.len(),
{
    if j.len() == 1 {
        let k = choose|k: int|
            0 <= k < net.seeds.len() && #[trigger] net.seeds[k].0 == j[0].0 && net.seeds[k].1 == j[0].1;
        assert(arr.contains_key(net.seeds[k].0));
    } else {
        let j1 = j.drop_last();
        assert forall|i: int| 0 <= i < j1.len() - 1 implies #[trigger] net.step(j1[i], j1[i + 1]) by {
            assert(net.step(j[i], j[i + 1]));
        }
        assert(net.is_journey(j1));
        lemma_settled_bounds_journeys(net, arr, j1);
        let a = j1.last();
        let b = j.last();
        let n2 = j.len() - 2;
        assert(net.step(j[n2], j[n2 + 1]));
        assert(a == j[n2] && b == j[n2 + 1]);
        // Leaving `a.0` at its recorded time instead of at `a.1` (no later)
        // keeps every connection and makes every transfer end no later.
        let a2 = (a.0, arr[a.0] as int);
        assert(net.settled(arr, a.0));
        if net.connections.contains_key(a.0) && exists|i: int|
            0 <= i < net.connections[a.0]@.len() && (net.usable)(net.connections[a.0]@[i])
                && #[trigger] rides_to(net.connections[a.0]@[i], a.1, b) {
            let i = choose|i: int|
                0 <= i < net.connections[a.0]@.len() && (net.usable)(net.connections[a.0]@[i])
                    && #[trigger] rides_to(net.connections[a.0]@[i], a.1, b);
            assert(rides_to(net.connections[a.0]@[i], a2.1, b));
            assert(net.step(a2, b));
        } else {
            let i = choose|i: int|
                0 <= i < net.transfers[a.0]@.len() && #[trigger] walks_to(
                    net.transfers[a.0]@[i],
                    a.1,
                    b,
                );
            let x = net.transfers[a.0]@[i];
            let b2 = (x.to_stop_id, a2.1 + x.min_transfer_time);
            assert(walks_to(x, a2.1, b2));
            assert(net.step(a2, b2));
        }
    }
}

/// Builds the network whose connections may all be ridden.
pub open spec fn network_of(
    seeds: Seq<(u32, u32)>,
    connections: Map<u32, Vec<Connection>>,
    transfers: Map<u32, Vec<Transfer>>,
) -> TransitNetwork {
    TransitNetwork { seeds, connections, usable: |c: Connection| true, transfers }
}

/// Sum of the values that `m` records for `keys`.
pub open spec fn total(keys: Seq<u32>, m: Map<u32, u32>) -> int
    decreases keys.len(),
{
    if keys.len() == 0 {
        0
    } else {
        total(keys.drop_last(), m) + m[keys.last()]
    }
}

proof fn lemma_total_mono(keys: Seq<u32>, m1: Map<u32, u32>, m2: Map<u32, u32>)
    requires
        forall|i: int| 0 <= i < keys.len() ==> m2[#[trigger] keys[i]] <= m1[keys[i]],
    ensures
        0 <= total(keys, m2) <= total(keys, m1),
        (exists|i: int| 0 <= i < keys.len() && m2[#[trigger] keys[i]] < m1[keys[i]]) ==> total(
            keys,
            m2,
        ) < total(keys, m1),
        (forall|i: int| 0 <= i < keys.len() ==> m2[#[trigger] keys[i]] == m1[keys[i]]) ==> total(
            keys,
            m2,
        ) == total(keys, m1),
    decreases keys.len(),
{
    if keys.len() > 0 {
        let k = keys.drop_last();
        assert forall|i: int| 0 <= i < k.len() implies m2[#[trigger] k[i]] <= m1[k[i]] by {
            assert(k[i] == keys[i]);
        }
        lemma_total_mono(k, m1, m2);
        let n = keys.len() - 1;
        assert(m2[keys[n]] <= m1[keys[n]]);
        if exists|i: int| 0 <= i < keys.len() && m2[#[trigger] keys[i]] < m1[keys[i]] {
            let i = choose|i: int| 0 <= i < keys.len() && m2[#[trigger] keys[i]] < m1[keys[i]];
            if i < n {
                assert(k[i] == keys[i]);
            }
        }
        if forall|i: int| 0 <= i < keys.len() ==> m2[#[trigger] keys[i]] == m1[keys[i]] {
            assert forall|i: int| 0 <= i < k.len() implies m2[#[trigger] k[i]] == m1[k[i]] by {
                assert(k[i] == keys[i]);
            }
            assert(m2[keys[n]] == m1[keys[n]]);
        }
    }
}

proof fn lemma_keys_bound(keys: Seq<u32>)
    requires
        keys.no_duplicates(),
    ensures
        keys.len() <= 0x1_0000_0000,
{
    keys.unique_seq_to_set();
    let below = Set::<u32>::range(0, u32::MAX);
    <u32 as vstd::set_lib::FiniteRange>::range_properties(0, u32::MAX);
    let all = below.insert(u32::MAX);
    assert(keys.to_set().subset_of(all));
    vstd::set_lib::lemma_len_subset(keys.to_set(), all);
}

/// `settled` survives records that only grow and only get earlier, as long
/// as the record of the stop itself stays.
proof fn lemma_settled_mono(net: TransitNetwork, arr: Map<u32, u32>, arr2: Map<u32, u32>, x: u32)
    requires
        net.settled(arr, x),
        arr.contains_key(x),
        arr2.contains_key(x),
        arr2[x] == arr[x],
        forall|y: u32| arr.contains_key(y) ==> arr2.contains_key(y) && arr2[y] <= arr[y],
    ensures
        net.settled(arr2, x),
{
    assert forall|b: (u32, int)| #[trigger]
        net.step((x, arr2[x] as int), b) implies arr2.contains_key(b.0) && arr2[b.0] <= b.1 by {
        assert(net.step((x, arr[x] as int), b));
    }
}

/// What the search keeps true between relaxations: `keys` lists the
/// recorded stops without repetition, every record is reachable, every
/// queued pair is no earlier than the record of its stop, and every
/// recorded stop is settled, queued with its record, or is the stop being
/// expanded (`current`) with its record unchanged.
#[verifier::opaque]
pub open spec fn search_invariant(
    net: TransitNetwork,
    arr: Map<u32, u32>,
    queue: Multiset<(u32, u32)>,
    keys: Seq<u32>,
    current: Option<(u32, u32)>,
) -> bool {
    &&& keys.no_duplicates()
    &&& forall|x: u32| keys.contains(x) <==> #[trigger] arr.contains_key(x)
    &&& forall|x: u32| #[trigger] arr.contains_key(x) ==> net.reaches(x, arr[x] as int)
    &&& forall|e: (u32, u32)|
        #[trigger] queue.count(e) > 0 ==> arr.contains_key(e.1) && arr[e.1] <= e.0
    &&& forall|x: u32| #[trigger]
        arr.contains_key(x) ==> net.settled(arr, x) || queue.count((arr[x], x)) > 0 || current
            == Some((x, arr[x]))
}

/// Every starting point is recorded no later than its time.
pub open spec fn seeds_recorded(net: TransitNetwork, arr: Map<u32, u32>) -> bool {
    forall|k: int|
        0 <= k < net.seeds.len() ==> arr.contains_key(#[trigger] net.seeds[k].0) && arr[net.seeds[k].0]
            <= net.seeds[k].1
}

/// `arr2` records every stop that `arr` records, no later.
pub open spec fn records_improve(arr: Map<u32, u32>, arr2: Map<u32, u32>) -> bool {
    forall|y: u32| #[trigger] arr.contains_key(y) ==> arr2.contains_key(y) && arr2[y] <= arr[y]
}

/// Between the start of an expansion (`keys0`, `arr0`, queue length
/// `qlen0`) and now, records only grew and got earlier, and the queue is
/// one shorter unless some record changed.
pub open spec fn search_progress(
    keys0: Seq<u32>,
    arr0: Map<u32, u32>,
    qlen0: nat,
    keys: Seq<u32>,
    arr: Map<u32, u32>,
    qlen: nat,
) -> bool {
    &&& keys0.len() <= keys.len()
    &&& keys.subrange(0, keys0.len() as int) == keys0
    &&& forall|x: u32| keys0.contains(x) <==> arr0.contains_key(x)
    &&& records_improve(arr0, arr)
    &&& (qlen + 1 == qlen0 || keys.len() > keys0.len() || exists|y: u32|
        arr0.contains_key(y) && arr[y] < arr0[y])
}

/// Every usable connection out of `s` that leaves no earlier than `t` and
/// arrives before the end of the clock arrives no earlier than the record
/// of its destination.
pub open spec fn connections_relaxed(net: TransitNetwork, arr: Map<u32, u32>, s: u32, t: u32) -> bool {
    net.connections.contains_key(s) ==> forall|m: int|
        0 <= m < net.connections[s]@.len() && (#[trigger] net.connections[s]@[m]).departure_time >= t
            && net.connections[s]@[m].arrival_time < u32::MAX ==> arr.contains_key(
            net.connections[s]@[m].to_stop_id,
        ) && arr[net.connections[s]@[m].to_stop_id] <= net.connections[s]@[m].arrival_time
}

/// Every transfer out of `s` taken at `t` that ends before the end of the
/// clock ends no earlier than the record of its destination.
pub open spec fn transfers_relaxed(net: TransitNetwork, arr: Map<u32, u32>, s: u32, t: u32) -> bool {
    net.transfers.contains_key(s) ==> forall|m: int|
        0 <= m < net.transfers[s]@.len() && t + (#[trigger] net.transfers[s]@[m]).min_transfer_time
            < u32::MAX ==> arr.contains_key(net.transfers[s]@[m].to_stop_id)
            && arr[net.transfers[s]@[m].to_stop_id] <= t + net.transfers[s]@[m].min_transfer_time
}

proof fn lemma_relaxed_mono(net: TransitNetwork, arr: Map<u32, u32>, arr2: Map<u32, u32>, s: u32, t: u32)
    requires
        records_improve(arr, arr2),
    ensures
        connections_relaxed(net, arr, s, t) ==> connections_relaxed(net, arr2, s, t),
        transfers_relaxed(net, arr, s, t) ==> transfers_relaxed(net, arr2, s, t),
{
}

/// Once both kinds of legs out of `s` are relaxed at its record `t`, `s`
/// is settled.
proof fn lemma_expansion_settles(net: TransitNetwork, arr: Map<u32, u32>, s: u32, t: u32)
    requires
        connections_relaxed(net, arr, s, t),
        transfers_relaxed(net, arr, s, t),
        arr.contains_key(s),
        arr[s] == t,
    ensures
        net.settled(arr, s),
{
    assert forall|b: (u32, int)| #[trigger]
        net.step((s, arr[s] as int), b) implies arr.contains_key(b.0) && arr[b.0] <= b.1 by {
        if net.connections.contains_key(s) && exists|i: int|
            0 <= i < net.connections[s]@.len() && (net.usable)(net.connections[s]@[i])
                && #[trigger] rides_to(net.connections[s]@[i], t as int, b) {
            let i = choose|i: int|
                0 <= i < net.connections[s]@.len() && (net.usable)(net.connections[s]@[i])
                    && #[trigger] rides_to(net.connections[s]@[i], t as int, b);
            assert(net.connections[s]@[i].departure_time >= t);
        } else {
            let i = choose|i: int|
                0 <= i < net.transfers[s]@.len() && #[trigger] walks_to(
                    net.transfers[s]@[i],
                    t as int,
                    b,
                );
            assert(net.transfers[s]@[i].min_transfer_time + t < u32::MAX);
        }
    }
}

proof fn lemma_progress_after_record(
    keys0: Seq<u32>,
    arr0: Map<u32, u32>,
    qlen0: nat,
    keys: Seq<u32>,
    arr: Map<u32, u32>,
    qlen: nat,
    keys2: Seq<u32>,
    arr2: Map<u32, u32>,
    qlen2: nat,
    v: u32,
    a: u32,
)
    requires
        search_progress(keys0, arr0, qlen0, keys, arr, qlen),
        forall|x: u32| keys.contains(x) <==> arr.contains_key(x),
        arr.contains_key(v) ==> a < arr[v],
        arr2 == arr.insert(v, a),
        keys2 == (if arr.contains_key(v) {
            keys
        } else {
            keys.push(v)
        }),
    ensures
        search_progress(keys0, arr0, qlen0, keys2, arr2, qlen2),
        records_improve(arr, arr2),
        keys2.len() > keys0.len() || exists|y: u32| arr0.contains_key(y) && arr2[y] < arr0[y],
{
    assert(keys2.subrange(0, keys0.len() as int) =~= keys0) by {
        assert(keys.subrange(0, keys0.len() as int) == keys0);
    }
    if arr0.contains_key(v) {
        assert(arr2[v] < arr0[v]);
    } else if arr.contains_key(v) {
        if keys0.len() == keys.len() {
            assert(keys =~= keys0) by {
                assert(keys.subrange(0, keys0.len() as int) == keys0);
            }
            assert(keys.contains(v));
        }
    }
    if exists|y: u32| arr0.contains_key(y) && arr[y] < arr0[y] {
        let y = choose|y: u32| arr0.contains_key(y) && arr[y] < arr0[y];
        assert(arr2[y] <= arr[y]);
    }
}

/// At the end of an expansion the measure of the search loop went down:
/// more stops are recorded, or (with the same stops) some record got
/// earlier, or (with the same records) the queue is one shorter.
proof fn lemma_progress_measure(
    keys0: Seq<u32>,
    arr0: Map<u32, u32>,
    qlen0: nat,
    keys: Seq<u32>,
    arr: Map<u32, u32>,
    qlen: nat,
)
    requires
        search_progress(keys0, arr0, qlen0, keys, arr, qlen),
        keys.no_duplicates(),
    ensures
        keys.len() <= 0x1_0000_0000,
        keys.len() > keys0.len() || (keys.len() == keys0.len() && 0 <= total(keys, arr) < total(
            keys0,
            arr0,
        )) || (keys.len() == keys0.len() && total(keys, arr) == total(keys0, arr0) && qlen + 1
            == qlen0),
{
    lemma_keys_bound(keys);
    if keys.len() == keys0.len() {
        assert(keys =~= keys0) by {
            assert(keys.subrange(0, keys0.len() as int) == keys0);
        }
        assert forall|i: int| 0 <= i < keys.len() implies arr[#[trigger] keys[i]] <= arr0[keys[i]] by {
            assert(keys0.contains(keys[i]));
        }
        if exists|y: u32| arr0.contains_key(y) && arr[y] < arr0[y] {
            let y = choose|y: u32| arr0.contains_key(y) && arr[y] < arr0[y];
            assert(keys0.contains(y));
            let i = choose|i: int| 0 <= i < keys0.len() && keys0[i] == y;
            assert(arr[keys[i]] < arr0[keys[i]]);
        } else {
            assert forall|i: int| 0 <= i < keys.len() implies arr[#[trigger] keys[i]] == arr0[keys[i]] by {
                assert(keys0.contains(keys[i]));
            }
        }
        lemma_total_mono(keys, arr0, arr);
    }
}

/// Records `v` as reached at `a` (earlier than any record it has) and
/// queues it, keeping the search invariant.
fn record_arrival(
    arrival_times: &mut HashMap<u32, u32>,
    queue: &mut MinQueue,
    keys: Ghost<Seq<u32>>,
    net: Ghost<TransitNetwork>,
    current: Ghost<Option<(u32, u32)>>,
    v: u32,
    a: u32,
) -> (new_keys: Ghost<Seq<u32>>)
    requires
        search_invariant(net@, old(arrival_times)@, old(queue).view(), keys@, current@),
        net@.reaches(v, a as int),
        old(arrival_times)@.contains_key(v) ==> a < old(arrival_times)@[v],
    ensures
        search_invariant(net@, final(arrival_times)@, final(queue).view(), new_keys@, current@),
        final(arrival_times)@ == old(arrival_times)@.insert(v, a),
        final(queue).view() == old(queue).view().insert((a, v)),
        new_keys@ == (if old(arrival_times)@.contains_key(v) {
            keys@
        } else {
            keys@.push(v)
        }),
{
    proof {
        reveal(search_invariant);
    }
    let ghost arr = arrival_times@;
    let ghost q = queue.view();
    let _ = arrival_times.insert(v, a);
    queue.push((a, v));
    let ghost keys2 = if arr.contains_key(v) {
        keys@
    } else {
        keys@.push(v)
    };
    proof {
        let arr2 = arrival_times@;
        let q2 = queue.view();
        let net = net@;
        assert forall|x: u32| keys2.contains(x) <==> #[trigger] arr2.contains_key(x) by {
            if !arr.contains_key(v) && x != v {
                if keys2.contains(x) {
                    let i = choose|i: int| 0 <= i < keys2.len() && keys2[i] == x;
                    assert(keys@[i] == x);
                }
                if keys@.contains(x) {
                    let i = choose|i: int| 0 <= i < keys@.len() && keys@[i] == x;
                    assert(keys2[i] == x);
                }
            }
            if !arr.contains_key(v) && x == v {
                assert(keys2[keys2.len() - 1] == v);
            }
        }
        if !arr.contains_key(v) {
            assert(!keys@.contains(v));
            assert(keys2.no_duplicates()) by {
                assert forall|i: int, j: int|
                    0 <= i < keys2.len() && 0 <= j < keys2.len() && i != j implies keys2[i]
                    != keys2[j] by {
                    if i < keys@.len() && j < keys@.len() {
                    } else if i < keys@.len() {
                        assert(keys@.contains(keys2[i]));
                    } else {
                        assert(keys@.contains(keys2[j]));
                    }
                }
            }
        }
        assert(records_improve(arr, arr2));
        assert forall|x: u32| #[trigger]
            arr2.contains_key(x) implies net.settled(arr2, x) || q2.count((arr2[x], x)) > 0
            || current@ == Some((x, arr2[x])) by {
            if x != v {
                if net.settled(arr, x) {
                    lemma_settled_mono(net, arr, arr2, x);
                }
            }
        }
        assert forall|e: (u32, u32)| #[trigger] q2.count(e) > 0 implies arr2.contains_key(e.1)
            && arr2[e.1] <= e.0 by {
            if e != (a, v) {
                assert(q.count(e) > 0);
            }
        }
    }
    Ghost(keys2)
}

/// Records every starting point and queues it.
fn record_seeds(seeds: &Vec<(u32, u32)>, net: Ghost<TransitNetwork>) -> (res: (
    HashMap<u32, u32>,
    MinQueue,
    Ghost<Seq<u32>>,
))
    requires
        net@.seeds == seeds@,
        net@.seeds_consistent(),
    ensures
        search_invariant(net@, res.0@, res.1.view(), res.2@, None),
        seeds_recorded(net@, res.0@),
{
    let mut arrival_times: HashMap<u32, u32> = HashMap::new();
    let mut queue = MinQueue::new();
    let ghost mut keys: Seq<u32> = Seq::empty();
    proof {
        reveal(search_invariant);
    }
    let n_seeds = seeds.len();
    for k in 0..n_seeds
        invariant
            n_seeds == seeds@.len(),
            net@.seeds == seeds@,
            net@.seeds_consistent(),
            search_invariant(net@, arrival_times@, queue.view(), keys, None),
            forall|m: int|
                0 <= m < k ==> arrival_times@.contains_key(#[trigger] seeds@[m].0)
                    && arrival_times@[seeds@[m].0] == seeds@[m].1,
            forall|x: u32| #[trigger]
                arrival_times@.contains_key(x) ==> exists|m: int|
                    0 <= m < k && #[trigger] seeds@[m].0 == x,
    {
        let (s, t) = seeds[k];
        let ghost arr = arrival_times@;
        let ghost q = queue.view();
        proof {
            reveal(search_invariant);
            lemma_reaches_seed(net@, k as int);
        }
        if arrival_times.contains_key(&s) {
            // an equal record is already there
            proof {
                let m = choose|m: int| 0 <= m < k && #[trigger] seeds@[m].0 == s;
                assert(seeds@[m].1 == seeds@[k as int].1);
            }
        } else {
            let new_keys = record_arrival(
                &mut arrival_times,
                &mut queue,
                Ghost(keys),
                net,
                Ghost(None),
                s,
                t,
            );
            proof {
                keys = new_keys@;
                assert forall|x: u32| #[trigger]
                    arrival_times@.contains_key(x) implies exists|m: int|
                    0 <= m < k + 1 && #[trigger] seeds@[m].0 == x by {
                    if x == s {
                        assert(seeds@[k as int].0 == x);
                    }
                }
            }
        }
        proof {
            assert forall|m: int|
                0 <= m < k + 1 implies arrival_times@.contains_key(#[trigger] seeds@[m].0)
                && arrival_times@[seeds@[m].0] == seeds@[m].1 by {
                if seeds@[m].0 == s {
                    assert(seeds@[m].1 == seeds@[k as int].1);
                }
            }
        }
    }
    (arrival_times, queue, Ghost(keys))
}

/// The state of one expansion of stop `s`, reached at `t`, that started
/// from records `arr0` (listed by `keys0`) and a queue of `qlen0` pairs.
pub open spec fn expansion_state(
    net: TransitNetwork,
    arr: Map<u32, u32>,
    queue: Multiset<(u32, u32)>,
    keys: Seq<u32>,
    s: u32,
    t: u32,
    keys0: Seq<u32>,
    arr0: Map<u32, u32>,
    qlen0: nat,
) -> bool {
    &&& net.reaches(s, t as int)
    &&& search_invariant(net, arr, queue, keys, Some((s, t)))
    &&& search_progress(keys0, arr0, qlen0, keys, arr, queue.len())
}

/// Relaxes every connection out of `s` (reached at `t`).
fn relax_connections(
    conns: &Vec<Connection>,
    arrival_times: &mut HashMap<u32, u32>,
    queue: &mut MinQueue,
    keys: Ghost<Seq<u32>>,
    net: Ghost<TransitNetwork>,
    s: u32,
    t: u32,
    keys0: Ghost<Seq<u32>>,
    arr0: Ghost<Map<u32, u32>>,
    qlen0: Ghost<nat>,
) -> (new_keys: Ghost<Seq<u32>>)
    requires
        net@.connections.contains_key(s),
        net@.connections[s] == *conns,
        forall|i: int| 0 <= i < conns@.len() ==> (net@.usable)(#[trigger] conns@[i]),
        expansion_state(net@, old(arrival_times)@, old(queue).view(), keys@, s, t, keys0@, arr0@, qlen0@),
    ensures
        expansion_state(net@, final(arrival_times)@, final(queue).view(), new_keys@, s, t, keys0@, arr0@, qlen0@),
        records_improve(old(arrival_times)@, final(arrival_times)@),
        connections_relaxed(net@, final(arrival_times)@, s, t),
{
    let ghost mut keys = keys@;
    let ghost arr_in = arrival_times@;
    let n = conns.len();
    for i in 0..n
        invariant
            n == conns@.len(),
            net@.connections.contains_key(s),
            net@.connections[s] == *conns,
            forall|i: int| 0 <= i < conns@.len() ==> (net@.usable)(#[trigger] conns@[i]),
            expansion_state(net@, arrival_times@, queue.view(), keys, s, t, keys0@, arr0@, qlen0@),
            records_improve(arr_in, arrival_times@),
            forall|m: int|
                0 <= m < i && (#[trigger] conns@[m]).departure_time >= t && conns@[m].arrival_time
                    < u32::MAX ==> arrival_times@.contains_key(conns@[m].to_stop_id)
                    && arrival_times@[conns@[m].to_stop_id] <= conns@[m].arrival_time,
    {
        let c = conns[i];
        // if departure_time already passed, skip it
        if c.departure_time >= t {
            // if a faster path is found, record it and queue the stop
            let better = match arrival_times.get(&c.to_stop_id) {
                Some(old) => c.arrival_time < *old,
                None => c.arrival_time < u32::MAX,
            };
            if better {
                let ghost arr_before = arrival_times@;
                let ghost qlen_before = queue.view().len();
                proof {
                    lemma_search_keys(net@, arr_before, queue.view(), keys, Some((s, t)));
                    let b = (c.to_stop_id, c.arrival_time as int);
                    assert(c == conns@[i as int]);
                    assert((net@.usable)(conns@[i as int]));
                    assert(arr_before.contains_key(c.to_stop_id) ==> c.arrival_time < arr_before[c.to_stop_id]);
                    assert(c.arrival_time < u32::MAX);
                    let a = (s, t as int);
                    let nt = net@;
                    assert(rides_to(nt.connections[a.0]@[i as int], a.1, b));
                    assert((nt.usable)(nt.connections[a.0]@[i as int]));
                    assert(b.1 < u32::MAX);
                    assert(nt.step(a, b));
                    lemma_reaches_step(net@, (s, t as int), b);
                }
                let new_keys = record_arrival(
                    arrival_times,
                    queue,
                    Ghost(keys),
                    net,
                    Ghost(Some((s, t))),
                    c.to_stop_id,
                    c.arrival_time,
                );
                proof {
                    lemma_progress_after_record(
                        keys0@,
                        arr0@,
                        qlen0@,
                        keys,
                        arr_before,
                        qlen_before,
                        new_keys@,
                        arrival_times@,
                        queue.view().len(),
                        c.to_stop_id,
                        c.arrival_time,
                    );
                    keys = new_keys@;
                }
            }
        }
    }
    Ghost(keys)
}

/// Relaxes every transfer out of `s` (reached at `t`).
fn relax_transfers(
    trs: &Vec<Transfer>,
    arrival_times: &mut HashMap<u32, u32>,
    queue: &mut MinQueue,
    keys: Ghost<Seq<u32>>,
    net: Ghost<TransitNetwork>,
    s: u32,
    t: u32,
    keys0: Ghost<Seq<u32>>,
    arr0: Ghost<Map<u32, u32>>,
    qlen0: Ghost<nat>,
) -> (new_keys: Ghost<Seq<u32>>)
    requires
        net@.transfers.contains_key(s),
        net@.transfers[s] == *trs,
        expansion_state(net@, old(arrival_times)@, old(queue).view(), keys@, s, t, keys0@, arr0@, qlen0@),
    ensures
        expansion_state(net@, final(arrival_times)@, final(queue).view(), new_keys@, s, t, keys0@, arr0@, qlen0@),
        records_improve(old(arrival_times)@, final(arrival_times)@),
        transfers_relaxed(net@, final(arrival_times)@, s, t),
{
    let ghost mut keys = keys@;
    let ghost arr_in = arrival_times@;
    let n = trs.len();
    for i in 0..n
        invariant
            n == trs@.len(),
            net@.transfers.contains_key(s),
            net@.transfers[s] == *trs,
            expansion_state(net@, arrival_times@, queue.view(), keys, s, t, keys0@, arr0@, qlen0@),
            records_improve(arr_in, arrival_times@),
            forall|m: int|
                0 <= m < i && t + (#[trigger] trs@[m]).min_transfer_time < u32::MAX
                    ==> arrival_times@.contains_key(trs@[m].to_stop_id)
                    && arrival_times@[trs@[m].to_stop_id] <= t + trs@[m].min_transfer_time,
    {
        let x = trs[i];
        // a transfer that would end past the end of the clock leads nowhere
        if let Some(candidate) = t.checked_add(x.min_transfer_time) {
            // if a faster path is found, record it and queue the stop
            let better = match arrival_times.get(&x.to_stop_id) {
                Some(old) => candidate < *old,
                None => candidate < u32::MAX,
            };
            if better {
                let ghost arr_before = arrival_times@;
                let ghost qlen_before = queue.view().len();
                proof {
                    lemma_search_keys(net@, arr_before, queue.view(), keys, Some((s, t)));
                    let b = (x.to_stop_id, candidate as int);
                    assert(x == trs@[i as int]);
                    assert(arr_before.contains_key(x.to_stop_id) ==> candidate < arr_before[x.to_stop_id]);
                    assert(candidate < u32::MAX);
                    let a = (s, t as int);
                    let nt = net@;
                    assert(walks_to(nt.transfers[a.0]@[i as int], a.1, b));
                    assert(b.1 < u32::MAX);
                    assert(nt.step(a, b));
                    lemma_reaches_step(net@, (s, t as int), b);
                }
                let new_keys = record_arrival(
                    arrival_times,
                    queue,
                    Ghost(keys),
                    net,
                    Ghost(Some((s, t))),
                    x.to_stop_id,
                    candidate,
                );
                proof {
                    lemma_progress_after_record(
                        keys0@,
                        arr0@,
                        qlen0@,
                        keys,
                        arr_before,
                        qlen_before,
                        new_keys@,
                        arrival_times@,
                        queue.view().len(),
                        x.to_stop_id,
                        candidate,
                    );
                    keys = new_keys@;
                }
            }
        }
    }
    Ghost(keys)
}

/// The listing part of the search invariant.
proof fn lemma_search_keys(
    net: TransitNetwork,
    arr: Map<u32, u32>,
    queue: Multiset<(u32, u32)>,
    keys: Seq<u32>,
    current: Option<(u32, u32)>,
)
    requires
        search_invariant(net, arr, queue, keys, current),
    ensures
        keys.no_duplicates(),
        forall|x: u32| keys.contains(x) <==> #[trigger] arr.contains_key(x),
{
    reveal(search_invariant);
}

/// A popped pair is no earlier than the record of its stop.
proof fn lemma_popped_bound(
    net: TransitNetwork,
    arr: Map<u32, u32>,
    q: Multiset<(u32, u32)>,
    q1: Multiset<(u32, u32)>,
    keys: Seq<u32>,
    t: u32,
    s: u32,
)
    requires
        search_invariant(net, arr, q, keys, None),
        q.count((t, s)) > 0,
        q1 == q.remove((t, s)),
    ensures
        arr.contains_key(s),
        arr[s] <= t,
{
    reveal(search_invariant);
}

/// Dropping a pair that is later than the record of its stop keeps the
/// invariant.
proof fn lemma_pop_stale(
    net: TransitNetwork,
    arr: Map<u32, u32>,
    q: Multiset<(u32, u32)>,
    q1: Multiset<(u32, u32)>,
    keys: Seq<u32>,
    t: u32,
    s: u32,
)
    requires
        search_invariant(net, arr, q, keys, None),
        q.count((t, s)) > 0,
        q1 == q.remove((t, s)),
        arr.contains_key(s),
        t > arr[s],
    ensures
        search_invariant(net, arr, q1, keys, None),
{
    reveal(search_invariant);
    assert forall|x: u32| #[trigger]
        arr.contains_key(x) implies net.settled(arr, x) || q1.count((arr[x], x)) > 0 || None::<
        (u32, u32),
    > == Some((x, arr[x])) by {
        if (arr[x], x) == (t, s) {
        }
    }
}

/// Popping the pair that is the record of its stop starts its expansion.
proof fn lemma_pop_current(
    net: TransitNetwork,
    arr: Map<u32, u32>,
    q: Multiset<(u32, u32)>,
    q1: Multiset<(u32, u32)>,
    keys: Seq<u32>,
    t: u32,
    s: u32,
)
    requires
        search_invariant(net, arr, q, keys, None),
        q.count((t, s)) > 0,
        q1 == q.remove((t, s)),
        arr.contains_key(s),
        t == arr[s],
    ensures
        search_invariant(net, arr, q1, keys, Some((s, t))),
        net.reaches(s, t as int),
{
    reveal(search_invariant);
    assert forall|x: u32| #[trigger]
        arr.contains_key(x) implies net.settled(arr, x) || q1.count((arr[x], x)) > 0 || Some((s, t))
        == Some((x, arr[x])) by {
    }
}

/// Once both kinds of legs out of the expanded stop are relaxed, the
/// expansion is over.
proof fn lemma_finish_expansion(
    net: TransitNetwork,
    arr: Map<u32, u32>,
    q: Multiset<(u32, u32)>,
    keys: Seq<u32>,
    s: u32,
    t: u32,
)
    requires
        search_invariant(net, arr, q, keys, Some((s, t))),
        connections_relaxed(net, arr, s, t),
        transfers_relaxed(net, arr, s, t),
    ensures
        search_invariant(net, arr, q, keys, None),
{
    reveal(search_invariant);
    if arr.contains_key(s) && arr[s] == t {
        lemma_expansion_settles(net, arr, s, t);
    }
    assert forall|x: u32| #[trigger]
        arr.contains_key(x) implies net.settled(arr, x) || q.count((arr[x], x)) > 0 || None::<
        (u32, u32),
    > == Some((x, arr[x])) by {
    }
}

/// With the queue empty, the records are exactly the earliest arrivals.
proof fn lemma_search_done(
    net: TransitNetwork,
    arr: Map<u32, u32>,
    q: Multiset<(u32, u32)>,
    keys: Seq<u32>,
)
    requires
        search_invariant(net, arr, q, keys, None),
        seeds_recorded(net, arr),
        q.len() == 0,
    ensures
        net.earliest(arr),
{
    reveal(search_invariant);
    assert forall|x: u32| #[trigger] arr.contains_key(x) implies net.settled(arr, x) by {
        assert(q.count((arr[x], x)) == 0);
    }
    assert forall|x: u32, tt: int| #[trigger] net.reaches(x, tt) implies arr.contains_key(x)
        && arr[x] <= tt by {
        let j = choose|j: Seq<(u32, int)>| #[trigger] net.is_journey(j) && j.last() == (x, tt);
        lemma_settled_bounds_journeys(net, arr, j);
    }
}

/// Runs the search: returns, for every stop that some journey reaches, the
/// earliest time at which a journey reaches it.
///
/// `seeds` are the starting points (stop id, arrival time); `connections`
/// and `transfers` hold, under the id of the stop they leave, the
/// connections and transfers that may be taken.
pub fn earliest_arrivals(
    seeds: &Vec<(u32, u32)>,
    connections: &HashMap<u32, Vec<Connection>>,
    transfers: &HashMap<u32, Vec<Transfer>>,
) -> (arrival_times: HashMap<u32, u32>)
    requires
        network_of(seeds@, connections@, transfers@).seeds_consistent(),
    ensures
        network_of(seeds@, connections@, transfers@).earliest(arrival_times@),
{
    let ghost net = network_of(seeds@, connections@, transfers@);
    let (mut arrival_times, mut queue, keys_init) = record_seeds(seeds, Ghost(net));
    let ghost mut keys = keys_init@;

    // process the queue until all reachable stops are settled
    while !queue.is_empty()
        invariant
            net == network_of(seeds@, connections@, transfers@),
            search_invariant(net, arrival_times@, queue.view(), keys, None),
            seeds_recorded(net, arrival_times@),
        decreases 0x1_0000_0000 - keys.len(), total(keys, arrival_times@), queue.view().len(),
    {
        proof {
            lemma_search_keys(net, arrival_times@, queue.view(), keys, None);
            lemma_keys_bound(keys);
        }
        let ghost keys0 = keys;
        let ghost arr0 = arrival_times@;
        let ghost qlen0 = queue.view().len();
        let ghost queue_before_pop = queue.view();
        let (t, s) = match queue.pop() {
            Some(p) => p,
            None => {
                return arrival_times;
            },
        };
        let ghost q1 = queue.view();
        proof {
            lemma_popped_bound(net, arr0, queue_before_pop, q1, keys, t, s);
        }
        let current = match arrival_times.get(&s) {
            Some(a) => *a,
            None => {
                return arrival_times;
            },
        };
        // if this is not the latest record of the stop, skip it
        if t > current {
            proof {
                lemma_pop_stale(net, arr0, queue_before_pop, q1, keys, t, s);
                lemma_total_mono(keys, arr0, arr0);
            }
            continue;
        }
        proof {
            lemma_pop_current(net, arr0, queue_before_pop, q1, keys, t, s);
            assert(keys.subrange(0, keys0.len() as int) =~= keys0);
            lemma_search_keys(net, arr0, q1, keys, Some((s, t)));
        }
        // explore all trip connections of the current stop
        let ghost arr1 = arrival_times@;
        if let Some(conns) = connections.get(&s) {
            let new_keys = relax_connections(
                conns,
                &mut arrival_times,
                &mut queue,
                Ghost(keys),
                Ghost(net),
                s,
                t,
                Ghost(keys0),
                Ghost(arr0),
                Ghost(qlen0),
            );
            proof {
                keys = new_keys@;
            }
        }
        // explore all transfers of the current stop
        let ghost arr2 = arrival_times@;
        if let Some(trs) = transfers.get(&s) {
            let new_keys = relax_transfers(
                trs,
                &mut arrival_times,
                &mut queue,
                Ghost(keys),
                Ghost(net),
                s,
                t,
                Ghost(keys0),
                Ghost(arr0),
                Ghost(qlen0),
            );
            proof {
                keys = new_keys@;
            }
        }
        proof {
            let arr = arrival_times@;
            lemma_relaxed_mono(net, arr2, arr, s, t);
            lemma_finish_expansion(net, arr, queue.view(), keys, s, t);
            lemma_search_keys(net, arr, queue.view(), keys, None);
            assert(seeds_recorded(net, arr)) by {
                assert(records_improve(arr0, arr));
            }
            lemma_progress_measure(keys0, arr0, qlen0, keys, arr, queue.view().len());
        }
    }
    proof {
        lemma_search_done(net, arrival_times@, queue.view(), keys);
    }
    arrival_times
}

} // verus!
