//! The heuristic precache: a per-destination table of remaining-cost
//! estimates, one entry per stop, built by running the search engine from
//! every stop and reused to strengthen the A* heuristic.

use vstd::prelude::*;

use crate::model::{has_stop, ConnectionTable, StopId, StopTable};
use crate::pathing::{
    coords_spec, cost_sum, key_of, path_ok_v, pos_wf, walk_cost_spec, HowGet, Position,
    SearchConfig, TransitSearchProblem,
};
use crate::time::TimeCost;

verus! {

/// Mapping from stop identifier to a remaining-cost estimate toward the
/// fixed destination.
#[derive(PartialEq, Clone, Debug)]
pub struct RouteCache {
    pub entries: Vec<(StopId, TimeCost)>,
}

/// The first cached cost for the given identifier, if any.
pub open spec fn cache_lookup(es: Seq<(StopId, TimeCost)>, id: u32) -> Option<TimeCost>
    decreases es.len(),
{
    if es.len() == 0 {
        None
    } else if es[0].0.0 == id {
        Some(es[0].1)
    } else {
        cache_lookup(es.drop_first(), id)
    }
}

/// Whether the cache holds an entry for the given identifier.
pub open spec fn has_entry(es: Seq<(StopId, TimeCost)>, id: u32) -> bool {
    exists|k: int| 0 <= k < es.len() && (#[trigger] es[k]).0.0 == id
}

pub proof fn lemma_cache_lookup_found(es: Seq<(StopId, TimeCost)>, id: u32)
    ensures
        cache_lookup(es, id) is Some <==> has_entry(es, id),
        cache_lookup(es, id) matches Some(c) ==> exists|k: int|
            0 <= k < es.len() && #[trigger] es[k] == (StopId(id), c),
    decreases es.len(),
{
    if es.len() > 0 {
        lemma_cache_lookup_found(es.drop_first(), id);
        if es[0].0.0 != id {
            if has_entry(es, id) {
                let k = choose|k: int| 0 <= k < es.len() && (#[trigger] es[k]).0.0 == id;
                assert(es.drop_first()[k - 1] == es[k]);
            }
            if has_entry(es.drop_first(), id) {
                let k = choose|k: int|
                    0 <= k < es.drop_first().len() && (#[trigger] es.drop_first()[k]).0.0 == id;
                assert(es[k + 1] == es.drop_first()[k]);
            }
            if cache_lookup(es, id) is Some {
                let c = cache_lookup(es, id)->Some_0;
                let k = choose|k: int|
                    0 <= k < es.drop_first().len() && #[trigger] es.drop_first()[k] == (
                    StopId(id),
                    c,
                );
                assert(es[k + 1] == (StopId(id), c));
            }
        }
    }
}

/// At most one entry per stop identifier.
pub open spec fn entries_unique(es: Seq<(StopId, TimeCost)>) -> bool {
    forall|i: int, j: int|
        0 <= i < j < es.len() ==> (#[trigger] es[i]).0.0 != (#[trigger] es[j]).0.0
}

impl RouteCache {
    /// Well-formed: at most one entry per stop identifier.
    pub open spec fn wf(self) -> bool {
        entries_unique(self.entries@)
    }

    /// An empty cache.
    pub fn new() -> (r: RouteCache)
        ensures
            r.wf(),
            r.entries@.len() == 0,
    {
        RouteCache { entries: Vec::new() }
    }

    /// The number of cached stops.
    pub fn len(&self) -> (r: usize)
        ensures
            r == self.entries@.len(),
    {
        self.entries.len()
    }

    /// Looks an estimate up by stop identifier.
    pub fn get(&self, id: StopId) -> (r: Option<TimeCost>)
        ensures
            r == cache_lookup(self.entries@, id.0),
    {
        proof {
            lemma_cache_lookup_found(self.entries@, id.0);
            assert(self.entries@.skip(0) =~= self.entries@);
        }
        let n = self.entries.len();
        for k in 0..n
            invariant
                n == self.entries@.len(),
                cache_lookup(self.entries@, id.0) == cache_lookup(
                    self.entries@.skip(k as int),
                    id.0,
                ),
        {
            proof {
                assert(self.entries@.skip(k as int)[0] == self.entries@[k as int]);
                assert(self.entries@.skip(k as int).drop_first() =~= self.entries@.skip(
                    k as int + 1,
                ));
            }
            if self.entries[k].0.0 == id.0 {
                return Some(self.entries[k].1);
            }
        }
        proof {
            assert(self.entries@.skip(n as int).len() == 0);
        }
        None
    }

    /// Adds an estimate. Returns `false`, changing nothing, when the
    /// identifier is already present.
    pub fn insert(&mut self, id: StopId, cost: TimeCost) -> (r: bool)
        requires
            old(self).wf(),
        ensures
            final(self).wf(),
            r == !has_entry(old(self).entries@, id.0),
            r ==> final(self).entries@ == old(self).entries@.push((id, cost)),
            !r ==> final(self).entries@ == old(self).entries@,
    {
        proof {
            lemma_cache_lookup_found(self.entries@, id.0);
        }
        if self.get(id).is_some() {
            false
        } else {
            self.entries.push((id, cost));
            true
        }
    }
}

/// Builds the precache for a destination: one search per stop, each against
/// an empty precache, recording the found total cost under the stop's
/// identifier.
///
/// Every recorded cost is the combined cost of a structurally valid path
/// from that stop to the destination, and every stop within direct walking
/// range of the destination is recorded. A stop from which the search finds
/// no path is left out; the heuristic then falls back to its estimate.
#[verifier::loop_isolation(false)]
#[verifier::rlimit(30)]
pub fn build_cache(
    stops: &StopTable,
    connections: &ConnectionTable,
    config: &SearchConfig,
    destination: Position,
) -> (r: RouteCache)
    requires
        stops.wf(),
        connections.pairs_unique(),
        connections.targets_in(*stops),
        config.wf(),
        pos_wf(destination, *stops),
    ensures
        r.wf(),
        forall|k: int|
            0 <= k < r.entries@.len() ==> has_stop(stops.stops@, (#[trigger] r.entries@[k]).0.0),
        forall|k: int|
            #![trigger r.entries@[k]]
            0 <= k < r.entries@.len() ==> exists|steps: Seq<(Position, TimeCost)>|
                {
                    &&& #[trigger] path_ok_v(
                        *stops,
                        *connections,
                        *config,
                        destination,
                        Position::BusStop(r.entries@[k].0, HowGet::Walk),
                        steps,
                    )
                    &&& steps.len() >= 1
                    &&& key_of(steps.last().0) == key_of(destination)
                    &&& cost_sum(steps) == r.entries@[k].1
                },
        forall|i: int|
            0 <= i < stops.stops@.len() && walk_cost_spec(
                coords_spec(Position::BusStop((#[trigger] stops.stops@[i]).stop_id, HowGet::Walk),
                    *stops,
                ),
                coords_spec(destination, *stops),
                *config,
            ).walk_time <= config.max_walk_time ==> has_entry(
                r.entries@,
                stops.stops@[i].stop_id.0,
            ),
{
    let mut cache = RouteCache::new();
    let prob = TransitSearchProblem {
        stops,
        connections,
        end: destination,
        precache: RouteCache::new(),
        config: *config,
    };
    let n = stops.len();
    for i in 0..n
        invariant
            n == stops.stops@.len(),
            cache.wf(),
            forall|k: int|
                0 <= k < cache.entries@.len() ==> exists|j: int|
                    0 <= j < i && (#[trigger] cache.entries@[k]).0 == stops.stops@[j].stop_id,
            forall|k: int|
                #![trigger cache.entries@[k]]
                0 <= k < cache.entries@.len() ==> exists|steps: Seq<(Position, TimeCost)>|
                    {
                        &&& #[trigger] path_ok_v(
                            *stops,
                            *connections,
                            *config,
                            destination,
                            Position::BusStop(cache.entries@[k].0, HowGet::Walk),
                            steps,
                        )
                        &&& steps.len() >= 1
                        &&& key_of(steps.last().0) == key_of(destination)
                        &&& cost_sum(steps) == cache.entries@[k].1
                    },
            forall|j: int|
                0 <= j < i && walk_cost_spec(
                    coords_spec(
                        Position::BusStop((#[trigger] stops.stops@[j]).stop_id, HowGet::Walk),
                        *stops,
                    ),
                    coords_spec(destination, *stops),
                    *config,
                ).walk_time <= config.max_walk_time ==> has_entry(
                    cache.entries@,
                    stops.stops@[j].stop_id.0,
                ),
    {
        let id = stops.stops[i].stop_id;
        let start = Position::BusStop(id, HowGet::Walk);
        let ghost prev = cache.entries@;
        match prob.search(start) {
            Some(route) => {
                proof {
                    assert forall|k: int|
                        0 <= k < cache.entries@.len() implies (#[trigger] cache.entries@[k]).0.0
                        != id.0 by {
                        let j = choose|j: int|
                            0 <= j < i && (#[trigger] cache.entries@[k]).0 == stops.stops@[j].stop_id;
                    }
                    crate::model::lemma_stop_lookup_found(stops.stops@, id.0);
                }
                let fresh = cache.insert(id, route.total);
                proof {
                    assert(fresh);
                    assert(cache.entries@ == prev.push((id, route.total)));
                    assert(cache.entries@[cache.entries@.len() - 1] == (id, route.total));
                    assert(path_ok_v(
                        *stops,
                        *connections,
                        *config,
                        destination,
                        start,
                        route.steps@,
                    ));
                }
            },
            None => {
            },
        }
        proof {
            assert forall|j: int|
                0 <= j < i + 1 && walk_cost_spec(
                    coords_spec(
                        Position::BusStop((#[trigger] stops.stops@[j]).stop_id, HowGet::Walk),
                        *stops,
                    ),
                    coords_spec(destination, *stops),
                    *config,
                ).walk_time <= config.max_walk_time implies has_entry(
                cache.entries@,
                stops.stops@[j].stop_id.0,
            ) by {
                if j < i {
                    let k = choose|k: int|
                        0 <= k < prev.len() && (#[trigger] prev[k]).0.0 == stops.stops@[j].stop_id.0;
                    assert(cache.entries@[k].0.0 == stops.stops@[j].stop_id.0);
                }
            }
        }
    }
    cache
}

} // verus!
