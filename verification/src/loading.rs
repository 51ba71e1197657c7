//! The record-level steps of loading a feed into the timetable: attaching
//! each visit to its trip, and collecting the transfers away from each stop
//! (the feed's own and the walks to nearby stops).

use std::collections::HashMap;
use vstd::prelude::*;

use crate::structs::{StopTime, Transfer, Trip};

verus! {

broadcast use vstd::std_specs::hash::group_hash_axioms;

/// Why a record could not be taken into the timetable.
#[derive(Clone, Copy, Debug, PartialEq, Eq, Structural)]
pub enum LoadError {
    /// A visit names a trip that the trips file does not hold.
    UnknownTrip,
}

/// Appends `stop_time` to the visits of trip `trip_id`; fails, changing
/// nothing, when there is no such trip.
pub fn add_stop_time(trips: &mut HashMap<u32, Trip>, trip_id: u32, stop_time: StopTime) -> (r: Result<(), LoadError>)
    ensures
        r is Ok <==> old(trips)@.contains_key(trip_id),
        r is Err ==> r == Err::<(), LoadError>(LoadError::UnknownTrip) && final(trips)@ == old(trips)@,
        r is Ok ==> {
            &&& final(trips)@.dom() == old(trips)@.dom()
            &&& forall|k: u32| #[trigger] old(trips)@.contains_key(k) && k != trip_id ==> final(trips)@[k] == old(trips)@[k]
            &&& final(trips)@[trip_id].route_id == old(trips)@[trip_id].route_id
            &&& final(trips)@[trip_id].service_id == old(trips)@[trip_id].service_id
            &&& final(trips)@[trip_id].stop_times@ == old(trips)@[trip_id].stop_times@.push(stop_time)
        },
{
    match trips.remove(&trip_id) {
        Some(mut trip) => {
            trip.stop_times.push(stop_time);
            trips.insert(trip_id, trip);
            proof {
                assert(final(trips)@.dom() =~= old(trips)@.dom());
            }
            Ok(())
        },
        None => {
            proof {
                assert(final(trips)@ =~= old(trips)@);
            }
            Err(LoadError::UnknownTrip)
        },
    }
}

/// The transfers stored under stop `s` (none when it has no entry).
pub open spec fn transfers_from(m: Map<u32, Vec<Transfer>>, s: u32) -> Seq<Transfer> {
    if m.contains_key(s) {
        m[s]@
    } else {
        Seq::empty()
    }
}

/// Appends `transfer` to the transfers away from `from_stop_id`.
pub fn add_transfer(transfers: &mut HashMap<u32, Vec<Transfer>>, from_stop_id: u32, transfer: Transfer)
    ensures
        final(transfers)@.dom() == old(transfers)@.dom().insert(from_stop_id),
        transfers_from(final(transfers)@, from_stop_id) == transfers_from(old(transfers)@, from_stop_id).push(transfer),
        forall|s: u32| #[trigger] old(transfers)@.contains_key(s) && s != from_stop_id ==> final(transfers)@[s] == old(transfers)@[s],
{
    let mut list = match transfers.remove(&from_stop_id) {
        Some(l) => l,
        None => Vec::new(),
    };
    list.push(transfer);
    transfers.insert(from_stop_id, list);
    proof {
        assert(final(transfers)@.dom() =~= old(transfers)@.dom().insert(from_stop_id));
    }
}

/// The walking transfers from stop `from` to the candidate stops `walks`
/// (each a stop id with its walking time in seconds), in order, leaving out
/// the walk from the stop to itself.
pub open spec fn walk_transfers(from: u32, walks: Seq<(u32, u32)>) -> Seq<Transfer>
    decreases walks.len(),
{
    if walks.len() == 0 {
        Seq::empty()
    } else {
        let w = walks.last();
        let before = walk_transfers(from, walks.drop_last());
        if w.0 == from {
            before
        } else {
            before.push(Transfer { to_stop_id: w.0, min_transfer_time: w.1 })
        }
    }
}

/// Adds the walking transfers from `from_stop_id` to the nearby stops
/// `walks` (each a stop id with its walking time in seconds), skipping the
/// stop itself.
pub fn add_walk_transfers(transfers: &mut HashMap<u32, Vec<Transfer>>, from_stop_id: u32, walks: &Vec<(u32, u32)>)
    ensures
        transfers_from(final(transfers)@, from_stop_id) == transfers_from(old(transfers)@, from_stop_id)
            + walk_transfers(from_stop_id, walks@),
        final(transfers)@.contains_key(from_stop_id) <==> old(transfers)@.contains_key(from_stop_id)
            || walk_transfers(from_stop_id, walks@).len() > 0,
        forall|s: u32| s != from_stop_id ==> #[trigger] final(transfers)@.contains_key(s) == old(transfers)@.contains_key(s),
        forall|s: u32| #[trigger] old(transfers)@.contains_key(s) && s != from_stop_id ==> final(transfers)@[s] == old(transfers)@[s],
{
    let n = walks.len();
    for i in 0..n
        invariant
            n == walks@.len(),
            transfers_from(transfers@, from_stop_id) == transfers_from(old(transfers)@, from_stop_id)
                + walk_transfers(from_stop_id, walks@.take(i as int)),
            transfers@.contains_key(from_stop_id) <==> old(transfers)@.contains_key(from_stop_id)
                || walk_transfers(from_stop_id, walks@.take(i as int)).len() > 0,
            forall|s: u32| s != from_stop_id ==> #[trigger] transfers@.contains_key(s) == old(transfers)@.contains_key(s),
            forall|s: u32| #[trigger] old(transfers)@.contains_key(s) && s != from_stop_id ==> transfers@[s] == old(transfers)@[s],
    {
        let (to_stop_id, walk_time) = walks[i];
        proof {
            assert(walks@.take(i + 1).drop_last() =~= walks@.take(i as int));
        }
        if to_stop_id != from_stop_id {
            let ghost before = transfers@;
            add_transfer(transfers, from_stop_id, Transfer { to_stop_id, min_transfer_time: walk_time });
            proof {
                assert forall|s: u32| #[trigger] old(transfers)@.contains_key(s) && s != from_stop_id
                    implies transfers@[s] == old(transfers)@[s] by {
                    assert(before.contains_key(s));
                }
            }
        }
    }
    proof {
        assert(walks@.take(n as int) =~= walks@);
    }
}

/// The walking transfers from `from` are the walks to other stops, in
/// order, each with its own walking time: exactly the walks whose stop
/// differs from `from`, turned into transfers.
pub proof fn walk_transfers_are_walks_elsewhere(from: u32, walks: Seq<(u32, u32)>)
    ensures
        walk_transfers(from, walks) == walks.filter(|w: (u32, u32)| w.0 != from).map_values(
            |w: (u32, u32)| Transfer { to_stop_id: w.0, min_transfer_time: w.1 },
        ),
        forall|i: int|
            0 <= i < walk_transfers(from, walks).len() ==> (#[trigger] walk_transfers(from, walks)[i]).to_stop_id
                != from,
        forall|j: int|
            0 <= j < walks.len() && (#[trigger] walks[j]).0 != from ==> walk_transfers(from, walks).contains(
                Transfer { to_stop_id: walks[j].0, min_transfer_time: walks[j].1 },
            ),
    decreases walks.len(),
{
    let f = |w: (u32, u32)| w.0 != from;
    let g = |w: (u32, u32)| Transfer { to_stop_id: w.0, min_transfer_time: w.1 };
    if walks.len() == 0 {
        reveal_with_fuel(Seq::<(u32, u32)>::filter, 1);
        assert(walks.filter(f).map_values(g) =~= Seq::<Transfer>::empty());
    } else {
        let prev = walks.drop_last();
        let w = walks.last();
        walk_transfers_are_walks_elsewhere(from, prev);
        reveal_with_fuel(Seq::<(u32, u32)>::filter, 1);
        assert(walks.filter(f) == if f(w) {
            prev.filter(f).push(w)
        } else {
            prev.filter(f)
        });
        if f(w) {
            assert(prev.filter(f).push(w).map_values(g) =~= prev.filter(f).map_values(g).push(g(w)));
        }
    }
    let wt = walk_transfers(from, walks);
    let filtered = walks.filter(f);
    assert forall|i: int| 0 <= i < wt.len() implies (#[trigger] wt[i]).to_stop_id != from by {
        walks.lemma_filter_pred(f, i);
        assert(wt[i] == g(filtered[i]));
    }
    assert forall|j: int| 0 <= j < walks.len() && (#[trigger] walks[j]).0 != from implies wt.contains(
        Transfer { to_stop_id: walks[j].0, min_transfer_time: walks[j].1 },
    ) by {
        walks.lemma_filter_contains(f, j);
        let k = choose|k: int| 0 <= k < filtered.len() && filtered[k] == walks[j];
        assert(wt[k] == g(filtered[k]));
    }
}

} // verus!
