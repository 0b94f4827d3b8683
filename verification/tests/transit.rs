use heat_transit::codec::{decode_cache, encode_cache};
use heat_transit::geom::travel_time;
use heat_transit::model::{
    build_routes, parse_time, parse_time_checked, Connection, ConnectionTable, Stop, StopId,
    StopTable, TripStopRecord,
};
use heat_transit::pathing::{
    walking_time, HowGet, Position, SearchConfig, TransitSearchProblem,
};
use heat_transit::precache::{build_cache, RouteCache};
use heat_transit::time::TimeCost;

fn stop(id: u32, x: i64, y: i64) -> Stop {
    Stop {
        stop_id: StopId(id),
        stop_x: x,
        stop_y: y,
        name: format!("stop {}", id),
    }
}

fn table(stops: Vec<Stop>) -> StopTable {
    let mut t = StopTable::new();
    for s in stops {
        assert!(t.insert(s));
    }
    t
}

fn connections(edges: Vec<(u32, u32, u64)>) -> ConnectionTable {
    let mut t = ConnectionTable::new();
    for (f, to, secs) in edges {
        t.edges.push(heat_transit::model::ConnEdge {
            from: StopId(f),
            to: StopId(to),
            conn: Connection {
                time: secs,
                trip_id: 7,
            },
        });
    }
    t
}

#[test]
fn cost_constructors_and_total() {
    let w = TimeCost::of_walking(100);
    assert_eq!(w.walk_time, 100);
    assert_eq!(w.bus_time, 0);
    assert_eq!(w.transfers, 0);
    let b = TimeCost::of_bus(300);
    assert_eq!(b.bus_time, 300);
    assert_eq!(b.transfers, 1);
    let t = TimeCost::of_waiting(450);
    assert_eq!(t.wait_time, 450);
    let all = TimeCost::with_all(5);
    assert_eq!(all.total(), 15);
    assert!(TimeCost::zero().is_zero());
    assert!(!b.is_zero());
}

#[test]
fn cost_plus_total_adds() {
    let a = TimeCost {
        walk_time: 10,
        bus_time: 20,
        wait_time: 30,
        transfers: 1,
    };
    let b = TimeCost {
        walk_time: 1,
        bus_time: 2,
        wait_time: 3,
        transfers: 2,
    };
    let s = a.plus(b);
    assert_eq!(s.total(), a.total() + b.total());
    assert_eq!(s.walk_time, 11);
    assert_eq!(s.bus_time, 22);
    assert_eq!(s.wait_time, 33);
    assert_eq!(s.transfers, 3);
}

#[test]
fn cost_plus_commutative_and_associative() {
    let a = TimeCost {
        walk_time: 7,
        bus_time: 11,
        wait_time: 13,
        transfers: 1,
    };
    let b = TimeCost {
        walk_time: 2,
        bus_time: 3,
        wait_time: 5,
        transfers: 0,
    };
    let c = TimeCost::of_waiting(9);
    assert_eq!(a.plus(b), b.plus(a));
    assert_eq!(a.plus(b).plus(c), a.plus(b.plus(c)));
    assert_eq!(a.plus(TimeCost::zero()), a);
}

#[test]
fn cost_plus_saturates_like_an_infinity() {
    let a = TimeCost {
        walk_time: u64::MAX - 1,
        bus_time: 0,
        wait_time: 0,
        transfers: 0,
    };
    let b = TimeCost::of_walking(100);
    assert_eq!(a.plus(b).walk_time, u64::MAX);
}

#[test]
fn cost_ordering_by_total_only() {
    let a = TimeCost {
        walk_time: 100,
        bus_time: 0,
        wait_time: 0,
        transfers: 0,
    };
    let b = TimeCost {
        walk_time: 0,
        bus_time: 40,
        wait_time: 60,
        transfers: 3,
    };
    // equal totals with different splits compare as equal
    assert!(!a.lt_total(&b));
    assert!(!b.lt_total(&a));
    let c = TimeCost::of_bus(101);
    assert!(a.lt_total(&c));
}

#[test]
fn travel_time_exact() {
    // 3-4-5 triangle: distance 5000 mm at 1000 mm/s is 5 s
    assert_eq!(travel_time((0, 0), (3000, 4000), 1000), 5);
    // rounding down
    assert_eq!(travel_time((0, 0), (100_000, 0), 1400), 71);
    assert_eq!(travel_time((5, 5), (5, 5), 1400), 0);
}

#[test]
fn walking_time_is_pure_walk() {
    let cfg = SearchConfig::standard();
    let w = walking_time((0, 0), (140_000, 0), &cfg);
    assert_eq!(w.walk_time, 100);
    assert_eq!(w.bus_time, 0);
    assert_eq!(w.wait_time, 0);
    assert_eq!(w.transfers, 0);
}

#[test]
fn parse_time_exact() {
    assert_eq!(parse_time("01:02:03"), 3723);
    assert_eq!(parse_time("00:00:00"), 0);
    // schedule times past midnight are plain hour counts
    assert_eq!(parse_time("25:00:00"), 90000);
    assert_eq!(parse_time("007:00:09"), 25209);
}

#[test]
fn parse_time_checked_rejects_malformed() {
    assert_eq!(parse_time_checked("1:2"), None);
    assert_eq!(parse_time_checked(""), None);
    assert_eq!(parse_time_checked("aa:bb:cc"), None);
    assert_eq!(parse_time_checked("12:34"), None);
    assert_eq!(parse_time_checked("12:34:56:78"), None);
    assert_eq!(parse_time_checked(":34:56"), None);
    assert_eq!(parse_time_checked("12::56"), None);
    assert_eq!(parse_time_checked("12:34:"), None);
    assert_eq!(parse_time_checked("12:34:56"), Some(45296));
}

#[test]
fn position_identity_ignores_boarding_tag() {
    let a = Position::BusStop(StopId(4), HowGet::Walk);
    let b = Position::BusStop(StopId(4), HowGet::Bus);
    let c = Position::BusStop(StopId(5), HowGet::Walk);
    assert!(a == b);
    assert!(a != c);
    assert!(Position::PlanarPoint(1, 2) == Position::PlanarPoint(1, 2));
    assert!(Position::PlanarPoint(1, 2) != Position::PlanarPoint(2, 1));
    assert!(a != Position::PlanarPoint(1, 2));
}

#[test]
fn stop_table_rejects_duplicate_ids() {
    let mut t = StopTable::new();
    assert!(t.insert(stop(1, 0, 0)));
    assert!(t.insert(stop(2, 5, 5)));
    assert!(!t.insert(stop(1, 9, 9)));
    assert_eq!(t.len(), 2);
    assert_eq!(t.get(StopId(2)).unwrap().stop_x, 5);
    assert!(t.get(StopId(3)).is_none());
}

#[test]
fn build_routes_takes_minimum_observed_time() {
    // one trip visits stops 1, 2; a second trip rides the same pair faster
    let records = vec![
        TripStopRecord {
            trip_id: 10,
            stop_id: 1,
            stop_sequence: 1,
            arrival_s: 1000,
        },
        TripStopRecord {
            trip_id: 10,
            stop_id: 2,
            stop_sequence: 2,
            arrival_s: 1400,
        },
        TripStopRecord {
            trip_id: 11,
            stop_id: 1,
            stop_sequence: 1,
            arrival_s: 5000,
        },
        TripStopRecord {
            trip_id: 11,
            stop_id: 2,
            stop_sequence: 2,
            arrival_s: 5300,
        },
    ];
    let tbl = build_routes(&records);
    assert_eq!(tbl.len(), 1);
    let k = tbl.find_pair(StopId(1), StopId(2)).unwrap();
    assert_eq!(tbl.edges[k].conn.time, 300);
    assert_eq!(tbl.edges[k].conn.trip_id, 11);
    assert!(tbl.find_pair(StopId(2), StopId(1)).is_none());
}

#[test]
fn build_routes_needs_increasing_sequence_and_time() {
    // same trip, but the later stop arrives earlier (time skips midnight):
    // no edge either way
    let records = vec![
        TripStopRecord {
            trip_id: 3,
            stop_id: 1,
            stop_sequence: 1,
            arrival_s: 86000,
        },
        TripStopRecord {
            trip_id: 3,
            stop_id: 2,
            stop_sequence: 2,
            arrival_s: 120,
        },
    ];
    let tbl = build_routes(&records);
    assert_eq!(tbl.len(), 0);
}

#[test]
fn cache_round_trip() {
    let mut cache = RouteCache::new();
    assert!(cache.insert(StopId(1), TimeCost::of_walking(120)));
    assert!(cache.insert(
        StopId(900),
        TimeCost {
            walk_time: 1,
            bus_time: 2,
            wait_time: 3,
            transfers: 4,
        }
    ));
    assert!(!cache.insert(StopId(1), TimeCost::zero()));
    let text = encode_cache(&cache);
    let back = decode_cache(&text).unwrap();
    assert_eq!(back, cache);
    assert_eq!(back.get(StopId(900)).unwrap().wait_time, 3);
}

#[test]
fn decode_rejects_damaged_text() {
    let mut cache = RouteCache::new();
    assert!(cache.insert(StopId(1), TimeCost::of_walking(120)));
    let good = encode_cache(&cache);
    assert_eq!(good.len(), 85);

    // wrong length
    let mut short = good.clone();
    short.pop();
    assert!(decode_cache(&short).is_none());

    // a digit replaced by a letter
    let mut bad_digit = good.clone();
    bad_digit[0] = 'x';
    assert!(decode_cache(&bad_digit).is_none());

    // a separator replaced
    let mut bad_sep = good.clone();
    bad_sep[10] = '_';
    assert!(decode_cache(&bad_sep).is_none());

    // two entries with the same identifier
    let mut doubled = good.clone();
    doubled.extend(good.iter().cloned());
    assert!(decode_cache(&doubled).is_none());

    // empty text is the encoding of the empty cache
    let empty: Vec<char> = Vec::new();
    assert_eq!(decode_cache(&empty).unwrap().len(), 0);
}

fn small_world() -> (StopTable, ConnectionTable, SearchConfig) {
    // three stops on a line, 10 km apart (coordinates in millimeters)
    let stops = table(vec![
        stop(1, 0, 0),
        stop(2, 10_000_000, 0),
        stop(3, 20_000_000, 0),
    ]);
    let conns = connections(vec![(1, 2, 300), (2, 3, 300)]);
    (stops, conns, SearchConfig::standard())
}

#[test]
fn query_at_goal_is_zero_cost_zero_hops() {
    let (stops, conns, cfg) = small_world();
    let prob = TransitSearchProblem {
        stops: &stops,
        connections: &conns,
        end: Position::PlanarPoint(500, 600),
        precache: RouteCache::new(),
        config: cfg,
    };
    let route = prob.search(Position::PlanarPoint(500, 600)).unwrap();
    assert_eq!(route.steps.len(), 1);
    assert!(route.total.is_zero());
    assert_eq!(route.total.transfers, 0);
}

#[test]
fn far_query_finds_no_path() {
    let (stops, conns, cfg) = small_world();
    // 1000 km away from every stop and from the goal
    let prob = TransitSearchProblem {
        stops: &stops,
        connections: &conns,
        end: Position::PlanarPoint(0, 100_000),
        precache: RouteCache::new(),
        config: cfg,
    };
    assert!(prob
        .search(Position::PlanarPoint(999_000_000, 999_000_000))
        .is_none());
}

#[test]
fn two_bus_legs_beat_walking() {
    let (stops, conns, cfg) = small_world();
    // goal exactly at stop 3's location; start 100 m west of stop 1
    let prob = TransitSearchProblem {
        stops: &stops,
        connections: &conns,
        end: Position::PlanarPoint(20_000_000, 0),
        precache: RouteCache::new(),
        config: cfg,
    };
    let route = prob.search(Position::PlanarPoint(-100_000, 0)).unwrap();
    assert_eq!(route.total.transfers, 2);
    assert_eq!(route.total.bus_time, 600);
    assert_eq!(route.total.wait_time, 900);
    assert_eq!(route.total.walk_time, 71);
    // walking straight there would blow the walking cap, and even without
    // the cap would cost 20.1 km / 1.4 m/s, far more than the bus route
    assert!(route.total.total() < 20_100_000 / 1400);
    // the ride is query -> stop 1 -> stop 2 -> stop 3 -> goal
    assert_eq!(route.steps.len(), 5);
    assert!(route.steps[1].0 == Position::BusStop(StopId(1), HowGet::Walk));
    assert!(route.steps[2].0 == Position::BusStop(StopId(2), HowGet::Bus));
    assert!(route.steps[3].0 == Position::BusStop(StopId(3), HowGet::Bus));
}

#[test]
fn empty_connections_reduce_to_walking() {
    let (stops, _, cfg) = small_world();
    let conns = ConnectionTable::new();
    let prob = TransitSearchProblem {
        stops: &stops,
        connections: &conns,
        end: Position::PlanarPoint(100_000, 0),
        precache: RouteCache::new(),
        config: cfg,
    };
    let route = prob.search(Position::PlanarPoint(-100_000, 0)).unwrap();
    // exactly the walking computation: 200 m at 1.4 m/s, rounded down
    assert_eq!(route.total.walk_time, 142);
    assert_eq!(route.total.bus_time, 0);
    assert_eq!(route.total.wait_time, 0);
    assert_eq!(route.total.transfers, 0);
}

/// Every simple path from `cur` to the goal, by the engine's own expansion
/// rule; returns the cheapest total.
fn cheapest_by_enumeration(
    prob: &TransitSearchProblem,
    cur: Position,
    acc: TimeCost,
    seen: &mut Vec<Position>,
) -> Option<u64> {
    if prob.is_end(&cur) {
        return Some(acc.total());
    }
    let mut best: Option<u64> = None;
    for (next, cost) in prob.neighbors(&cur, &acc) {
        if seen.iter().any(|p| *p == next) {
            continue;
        }
        seen.push(next);
        if let Some(t) = cheapest_by_enumeration(prob, next, acc.plus(cost), seen) {
            best = Some(match best {
                Some(b) if b <= t => b,
                _ => t,
            });
        }
        seen.pop();
    }
    best
}

#[test]
fn engine_matches_exhaustive_enumeration() {
    let (stops, conns, cfg) = small_world();
    let starts = vec![
        Position::PlanarPoint(-100_000, 0),
        Position::PlanarPoint(10_050_000, 0),
        Position::BusStop(StopId(1), HowGet::Walk),
        Position::BusStop(StopId(2), HowGet::Walk),
    ];
    for start in starts {
        let prob = TransitSearchProblem {
            stops: &stops,
            connections: &conns,
            end: Position::PlanarPoint(20_000_000, 0),
            precache: RouteCache::new(),
            config: cfg,
        };
        let mut seen = vec![start];
        let best = cheapest_by_enumeration(&prob, start, TimeCost::zero(), &mut seen);
        let route = prob.search(start);
        match (best, route) {
            (Some(b), Some(r)) => assert_eq!(r.total.total(), b),
            (None, None) => {}
            (b, r) => panic!("enumeration {:?} vs engine {:?}", b, r.map(|r| r.total)),
        }
    }
}

#[test]
fn precache_build_is_idempotent_and_reused() {
    let (stops, conns, cfg) = small_world();
    let destination = Position::PlanarPoint(20_000_000, 0);
    let first = build_cache(&stops, &conns, &cfg, destination);
    let second = build_cache(&stops, &conns, &cfg, destination);
    assert_eq!(first, second);
    // every stop can ride to the destination, so every stop is cached
    assert_eq!(first.len(), 3);
    // stop 3 is at the destination
    assert!(first.get(StopId(3)).unwrap().is_zero());
    // stop 1 rides two legs
    let c1 = first.get(StopId(1)).unwrap();
    assert_eq!(c1.bus_time, 600);
    assert_eq!(c1.transfers, 2);

    // the heuristic answers from the cache where it has the stop
    let prob = TransitSearchProblem {
        stops: &stops,
        connections: &conns,
        end: destination,
        precache: first,
        config: cfg,
    };
    let h = prob.heuristic(&Position::BusStop(StopId(1), HowGet::Walk));
    assert_eq!(h, c1);
}

#[test]
fn heuristic_falls_back_to_driving_estimate() {
    let (stops, conns, cfg) = small_world();
    let prob = TransitSearchProblem {
        stops: &stops,
        connections: &conns,
        end: Position::PlanarPoint(0, 0),
        precache: RouteCache::new(),
        config: cfg,
    };
    // 17.8 km at 17.8 m/s is 1000 s, in the riding dimension
    let h = prob.heuristic(&Position::PlanarPoint(17_800_000, 0));
    assert_eq!(h.bus_time, 1000);
    assert_eq!(h.walk_time, 0);
    assert_eq!(h.transfers, 1);
}
