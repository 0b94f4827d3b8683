//! The generalized A* search engine: search nodes (`Position`), the search
//! configuration, walking and driving edge costs, neighbor generation, and
//! the search itself. All traversal state is local to a call; the stop set,
//! connection table and precache are only ever read.

use vstd::prelude::*;

use crate::geom::{coords_in_range, travel_time, travel_time_spec};
use crate::model::{has_stop, stop_lookup, ConnEdge, ConnectionTable, Stop, StopId, StopTable};
use crate::precache::{cache_lookup, RouteCache};
use crate::time::TimeCost;

verus! {

/// How a stop was reached; carried for path reconstruction and display only,
/// never for node identity.
#[derive(Clone, Copy, Debug)]
pub enum HowGet {
    Walk,
    Bus,
}

/// A search node: a physical stop tagged with how it was reached, or an
/// arbitrary query location already in the planar millimeter frame.
/// Geographic coordinates are projected into the planar frame by the caller
/// before a search.
///
/// Two `BusStop` values with the same identifier are the same node whatever
/// their boarding tag; equality deliberately projects the tag away.
#[derive(Clone, Copy, Debug)]
pub enum Position {
    BusStop(StopId, HowGet),
    PlanarPoint(i64, i64),
}

/// The identity of a search node: the stop identifier for stops (the
/// boarding tag is projected away), the coordinates for planar points.
#[derive(PartialEq, Eq, Structural, Clone, Copy, Debug)]
pub enum PosKey {
    Stop(u32),
    Point(i64, i64),
}

/// The node identity of a position.
pub open spec fn key_of(p: Position) -> PosKey {
    match p {
        Position::BusStop(id, _) => PosKey::Stop(id.0),
        Position::PlanarPoint(x, y) => PosKey::Point(x, y),
    }
}

impl PartialEq for Position {
    fn eq(&self, other: &Position) -> (r: bool) {
        match (self, other) {
            (Position::BusStop(a, _), Position::BusStop(b, _)) => a.0 == b.0,
            (Position::PlanarPoint(x1, y1), Position::PlanarPoint(x2, y2)) => x1 == x2 && y1
                == y2,
            _ => false,
        }
    }
}

impl vstd::std_specs::cmp::PartialEqSpecImpl for Position {
    open spec fn obeys_eq_spec() -> bool {
        true
    }

    open spec fn eq_spec(&self, other: &Position) -> bool {
        key_of(*self) == key_of(*other)
    }
}

/// Recognized search parameters: walking and driving-heuristic speeds in
/// millimeters per second, the fixed boarding wait and the walking cap in
/// seconds.
#[derive(PartialEq, Eq, Structural, Clone, Copy, Debug)]
pub struct SearchConfig {
    pub walk_speed: u64,
    pub drive_speed: u64,
    pub bus_wait: u64,
    pub max_walk_time: u64,
}

impl SearchConfig {
    /// Well-formed: speeds are nonzero.
    pub open spec fn wf(self) -> bool {
        self.walk_speed >= 1 && self.drive_speed >= 1
    }

    /// The production parameters: 1.4 m/s walking, 17.8 m/s driving,
    /// a 7.5 minute boarding wait, a 20 minute walking cap.
    pub fn standard() -> (r: SearchConfig)
        ensures
            r == (SearchConfig {
                walk_speed: 1400u64,
                drive_speed: 17800u64,
                bus_wait: 450u64,
                max_walk_time: 1200u64,
            }),
            r.wf(),
    {
        SearchConfig { walk_speed: 1400, drive_speed: 17800, bus_wait: 450, max_walk_time: 1200 }
    }
}

/// A position the search can place: a known stop, or an in-range planar point.
pub open spec fn pos_wf(p: Position, stops: StopTable) -> bool {
    match p {
        Position::BusStop(id, _) => has_stop(stops.stops@, id.0),
        Position::PlanarPoint(x, y) => coords_in_range((x, y)),
    }
}

/// The planar location of a position, resolving stops through the stop set.
pub open spec fn coords_spec(p: Position, stops: StopTable) -> (i64, i64) {
    match p {
        Position::PlanarPoint(x, y) => (x, y),
        Position::BusStop(id, _) => match stop_lookup(stops.stops@, id.0) {
            Some(st) => (st.stop_x, st.stop_y),
            None => (0, 0),
        },
    }
}

/// A placeable position resolves to in-range coordinates.
pub proof fn lemma_pos_coords_range(p: Position, stops: StopTable)
    requires
        stops.wf(),
        pos_wf(p, stops),
    ensures
        coords_in_range(coords_spec(p, stops)),
{
    match p {
        Position::BusStop(id, _) => {
            crate::model::lemma_stop_lookup_found(stops.stops@, id.0);
            let st = stop_lookup(stops.stops@, id.0)->Some_0;
            let k = choose|k: int|
                0 <= k < stops.stops@.len() && #[trigger] stops.stops@[k] == st;
        },
        Position::PlanarPoint(..) => {},
    }
}

impl Position {
    /// The planar location, resolving stops through the stop set.
    pub fn get_coords(&self, stops: &StopTable) -> (r: (i64, i64))
        requires
            pos_wf(*self, *stops),
        ensures
            r == coords_spec(*self, *stops),
    {
        match self {
            Position::PlanarPoint(x, y) => (*x, *y),
            Position::BusStop(id, _) => {
                let st = stops.get(*id);
                match st {
                    Some(st) => (st.stop_x, st.stop_y),
                    None => (0, 0),
                }
            },
        }
    }
}

/// The cost of walking between two planar points: straight-line time at
/// walking speed, in the walking dimension alone.
pub open spec fn walk_cost_spec(s: (i64, i64), e: (i64, i64), config: SearchConfig) -> TimeCost {
    TimeCost {
        walk_time: travel_time_spec(s, e, config.walk_speed) as u64,
        bus_time: 0,
        wait_time: 0,
        transfers: 0,
    }
}

/// The straight-line driving estimate between two planar points, in the
/// bus dimension (it stands for riding, so it counts one boarding).
pub open spec fn drive_cost_spec(s: (i64, i64), e: (i64, i64), config: SearchConfig) -> TimeCost {
    TimeCost {
        walk_time: 0,
        bus_time: travel_time_spec(s, e, config.drive_speed) as u64,
        wait_time: 0,
        transfers: 1,
    }
}

/// The cost of riding a scheduled connection: its scheduled time plus the
/// fixed boarding wait, counting one boarding.
pub open spec fn bus_cost_spec(time: u64, config: SearchConfig) -> TimeCost {
    TimeCost { walk_time: 0, bus_time: time, wait_time: config.bus_wait, transfers: 1 }
}

/// The walking edge to one stop, kept only while its walking time does not
/// exceed the cap.
pub open spec fn stop_edge_one(cur_c: (i64, i64), st: Stop, config: SearchConfig) -> Seq<
    (Position, TimeCost),
> {
    let w = walk_cost_spec(cur_c, st.coords_spec(), config);
    if w.walk_time <= config.max_walk_time {
        seq![(Position::BusStop(st.stop_id, HowGet::Walk), w)]
    } else {
        Seq::empty()
    }
}

/// The walking edges to a sequence of stops, in stop-table order.
pub open spec fn stop_edges(cur_c: (i64, i64), ss: Seq<Stop>, config: SearchConfig) -> Seq<
    (Position, TimeCost),
>
    decreases ss.len(),
{
    if ss.len() == 0 {
        Seq::empty()
    } else {
        stop_edges(cur_c, ss.drop_last(), config) + stop_edge_one(cur_c, ss.last(), config)
    }
}

/// The riding edge of one table entry, when it leaves the given stop.
pub open spec fn conn_edge_one(from: u32, e: ConnEdge, config: SearchConfig) -> Seq<
    (Position, TimeCost),
> {
    if e.from.0 == from {
        seq![(Position::BusStop(e.to, HowGet::Bus), bus_cost_spec(e.conn.time, config))]
    } else {
        Seq::empty()
    }
}

/// The riding edges out of a stop, in connection-table order.
pub open spec fn conn_edges(from: u32, es: Seq<ConnEdge>, config: SearchConfig) -> Seq<
    (Position, TimeCost),
>
    decreases es.len(),
{
    if es.len() == 0 {
        Seq::empty()
    } else {
        conn_edges(from, es.drop_last(), config) + conn_edge_one(from, es.last(), config)
    }
}

/// The walking edge to the destination, kept only while its walking time
/// does not exceed the cap.
pub open spec fn goal_edge_v(
    stops: StopTable,
    config: SearchConfig,
    end: Position,
    cur_c: (i64, i64),
) -> Seq<(Position, TimeCost)> {
    let w = walk_cost_spec(cur_c, coords_spec(end, stops), config);
    if w.walk_time <= config.max_walk_time {
        seq![(end, w)]
    } else {
        Seq::empty()
    }
}

/// The edges offered from a node with accumulated cost `cost`: nothing once
/// the accumulated walking time exceeds the cap; otherwise a walk to the
/// destination, a walk to every stop in range, and, from a stop, one ride
/// per scheduled connection out of it.
pub open spec fn neighbors_spec_v(
    stops: StopTable,
    connections: ConnectionTable,
    config: SearchConfig,
    end: Position,
    cur: Position,
    cost: TimeCost,
) -> Seq<(Position, TimeCost)> {
    if cost.walk_time > config.max_walk_time {
        Seq::empty()
    } else {
        let cur_c = coords_spec(cur, stops);
        goal_edge_v(stops, config, end, cur_c) + stop_edges(cur_c, stops.stops@, config) + (
        match cur {
            Position::BusStop(id, _) => conn_edges(id.0, connections.edges@, config),
            _ => Seq::empty(),
        })
    }
}

/// A structurally valid path from `start` toward `end`: it begins at `start`
/// with zero incremental cost, and each later step is an edge the expansion
/// rule offers from its predecessor at the cost accumulated there.
pub open spec fn path_ok_v(
    stops: StopTable,
    connections: ConnectionTable,
    config: SearchConfig,
    end: Position,
    start: Position,
    steps: Seq<(Position, TimeCost)>,
) -> bool
    decreases steps.len(),
{
    if steps.len() == 0 {
        false
    } else if steps.len() == 1 {
        steps[0] == (start, TimeCost::zero_spec())
    } else {
        path_ok_v(stops, connections, config, end, start, steps.drop_last())
            && neighbors_spec_v(
            stops,
            connections,
            config,
            end,
            steps[steps.len() - 2].0,
            cost_sum(steps.drop_last()),
        ).contains(steps.last())
    }
}

/// Walking cost between two in-range planar points.
pub fn walking_time(s: (i64, i64), e: (i64, i64), config: &SearchConfig) -> (r: TimeCost)
    requires
        coords_in_range(s),
        coords_in_range(e),
        config.wf(),
    ensures
        r == walk_cost_spec(s, e, *config),
{
    TimeCost::of_walking(travel_time(s, e, config.walk_speed))
}

/// Driving estimate between two in-range planar points.
fn driving_time(s: (i64, i64), e: (i64, i64), config: &SearchConfig) -> (r: TimeCost)
    requires
        coords_in_range(s),
        coords_in_range(e),
        config.wf(),
    ensures
        r == drive_cost_spec(s, e, *config),
{
    TimeCost::of_bus(travel_time(s, e, config.drive_speed))
}

/// A search problem: the shared read-only transit data, the fixed
/// destination, the heuristic precache and the search parameters.
pub struct TransitSearchProblem<'a> {
    pub stops: &'a StopTable,
    pub connections: &'a ConnectionTable,
    pub end: Position,
    pub precache: RouteCache,
    pub config: SearchConfig,
}

impl<'a> TransitSearchProblem<'a> {
    /// Well-formed: sound tables, placeable destination, nonzero speeds.
    pub open spec fn wf(self) -> bool {
        &&& self.stops.wf()
        &&& self.connections.pairs_unique()
        &&& self.connections.targets_in(*self.stops)
        &&& self.config.wf()
        &&& pos_wf(self.end, *self.stops)
        &&& self.precache.wf()
    }

    /// Whether a node is the destination (by node identity).
    pub fn is_end(&self, a: &Position) -> (r: bool)
        ensures
            r == (key_of(*a) == key_of(self.end)),
    {
        a == &self.end
    }

    /// The heuristic estimate from a node to the destination: the cached
    /// exact remaining cost where the precache has the stop, otherwise the
    /// straight-line driving estimate.
    pub open spec fn heuristic_spec(self, p: Position) -> TimeCost {
        match p {
            Position::BusStop(id, _) if cache_lookup(self.precache.entries@, id.0) is Some => {
                cache_lookup(self.precache.entries@, id.0)->Some_0
            },
            _ => {
                drive_cost_spec(
                    coords_spec(self.end, *self.stops),
                    coords_spec(p, *self.stops),
                    self.config,
                )
            },
        }
    }

    /// The walking edge to the destination, kept only while its walking
    /// time does not exceed the cap.
    pub open spec fn goal_edge(self, cur_c: (i64, i64)) -> Seq<(Position, TimeCost)> {
        goal_edge_v(*self.stops, self.config, self.end, cur_c)
    }

    /// The edges offered from a node that has accumulated cost `cost`:
    /// nothing once the accumulated walking time exceeds the cap; otherwise
    /// a walk to the destination, a walk to every stop in range, and, from a
    /// stop, one ride per scheduled connection out of it.
    pub open spec fn neighbors_spec(self, cur: Position, cost: TimeCost) -> Seq<
        (Position, TimeCost),
    > {
        neighbors_spec_v(*self.stops, *self.connections, self.config, self.end, cur, cost)
    }

    /// Neighbor expansion, exactly the edges of `neighbors_spec`.
    pub fn neighbors(&self, cur: &Position, cost: &TimeCost) -> (r: Vec<(Position, TimeCost)>)
        requires
            self.wf(),
            pos_wf(*cur, *self.stops),
        ensures
            r@ == self.neighbors_spec(*cur, *cost),
    {
        let mut out: Vec<(Position, TimeCost)> = Vec::new();
        if cost.walk_time > self.config.max_walk_time {
            return out;
        }
        proof {
            lemma_pos_coords_range(*cur, *self.stops);
            lemma_pos_coords_range(self.end, *self.stops);
        }
        let cur_c = cur.get_coords(self.stops);
        let end_c = self.end.get_coords(self.stops);
        let w = walking_time(cur_c, end_c, &self.config);
        if w.walk_time <= self.config.max_walk_time {
            out.push((self.end, w));
        }
        let ghost head = self.goal_edge(cur_c);
        assert(out@ =~= head);
        let n = self.stops.len();
        for k in 0..n
            invariant
                self.wf(),
                n == self.stops.stops@.len(),
                coords_in_range(cur_c),
                out@ == head + stop_edges(cur_c, self.stops.stops@.take(k as int), self.config),
        {
            let st = &self.stops.stops[k];
            let wi = walking_time(cur_c, st.coords(), &self.config);
            if wi.walk_time <= self.config.max_walk_time {
                out.push((Position::BusStop(st.stop_id, HowGet::Walk), wi));
            }
            proof {
                let pre = self.stops.stops@.take(k as int);
                let post = self.stops.stops@.take(k as int + 1);
                assert(post.drop_last() =~= pre);
                assert(post.last() == self.stops.stops@[k as int]);
                assert(out@ =~= head + stop_edges(cur_c, post, self.config));
            }
        }
        proof {
            assert(self.stops.stops@.take(n as int) =~= self.stops.stops@);
        }
        if let Position::BusStop(id, _) = cur {
            let ghost mid = out@;
            let m = self.connections.len();
            for k in 0..m
                invariant
                    self.wf(),
                    m == self.connections.edges@.len(),
                    out@ == mid + conn_edges(id.0, self.connections.edges@.take(k as int),
                        self.config,
                    ),
            {
                let e = &self.connections.edges[k];
                if e.from.0 == id.0 {
                    let c = TimeCost::of_bus(e.conn.time).plus(
                        TimeCost::of_waiting(self.config.bus_wait),
                    );
                    proof {
                        assert(c == bus_cost_spec(e.conn.time, self.config));
                    }
                    out.push((Position::BusStop(e.to, HowGet::Bus), c));
                }
                proof {
                    let pre = self.connections.edges@.take(k as int);
                    let post = self.connections.edges@.take(k as int + 1);
                    assert(post.drop_last() =~= pre);
                    assert(post.last() == self.connections.edges@[k as int]);
                    assert(out@ =~= mid + conn_edges(id.0, post, self.config));
                }
            }
            proof {
                assert(self.connections.edges@.take(m as int) =~= self.connections.edges@);
                assert(out@ =~= self.neighbors_spec(*cur, *cost));
            }
        } else {
            proof {
                assert(out@ =~= self.neighbors_spec(*cur, *cost));
            }
        }
        out
    }

    /// Heuristic estimate from a node to the destination.
    pub fn heuristic(&self, p: &Position) -> (r: TimeCost)
        requires
            self.wf(),
            pos_wf(*p, *self.stops),
        ensures
            r == self.heuristic_spec(*p),
    {
        if let Position::BusStop(id, _) = p {
            if let Some(r) = self.precache.get(*id) {
                return r;
            }
        }
        proof {
            lemma_pos_coords_range(*p, *self.stops);
            lemma_pos_coords_range(self.end, *self.stops);
        }
        let pc = p.get_coords(self.stops);
        let g = self.end.get_coords(self.stops);
        driving_time(g, pc, &self.config)
    }
}

/// Law: with an empty connection table, every valid path is pure walking —
/// its combined cost carries no riding time, no waiting time and no
/// boardings, so a query's result reduces to the walking computation.
pub proof fn lemma_empty_connections_walk_only(
    stops: StopTable,
    connections: ConnectionTable,
    config: SearchConfig,
    end: Position,
    start: Position,
    steps: Seq<(Position, TimeCost)>,
)
    requires
        connections.edges@.len() == 0,
        path_ok_v(stops, connections, config, end, start, steps),
    ensures
        cost_sum(steps).bus_time == 0,
        cost_sum(steps).wait_time == 0,
        cost_sum(steps).transfers == 0,
    decreases steps.len(),
{
    if steps.len() == 1 {
        assert(steps.drop_last() =~= Seq::<(Position, TimeCost)>::empty());
        assert(cost_sum(steps.drop_last()) == TimeCost::zero_spec());
        assert(steps.last() == steps[0]);
        assert(cost_sum(steps) == TimeCost::zero_spec().spec_plus(TimeCost::zero_spec()));
    } else {
        lemma_empty_connections_walk_only(stops, connections, config, end, start,
            steps.drop_last(),
        );
        let cur = steps[steps.len() - 2].0;
        let g = cost_sum(steps.drop_last());
        let ns = neighbors_spec_v(stops, connections, config, end, cur, g);
        let last = steps.last();
        let idx = choose|idx: int| 0 <= idx < ns.len() && ns[idx] == last;
        let cur_c = coords_spec(cur, stops);
        let goal = goal_edge_v(stops, config, end, cur_c);
        let se = stop_edges(cur_c, stops.stops@, config);
        lemma_stop_edges_pos(cur_c, stops.stops@, config);
        if cur is BusStop {
            assert(conn_edges(cur->BusStop_0.0, connections.edges@, config)
                =~= Seq::<(Position, TimeCost)>::empty());
        }
        if idx < goal.len() {
            assert(last == goal[0]);
        } else {
            assert(last == se[idx - goal.len()]);
        }
        assert(last.1.bus_time == 0 && last.1.wait_time == 0 && last.1.transfers == 0);
    }
}

/// A found route: the ordered steps, each a node and the incremental cost of
/// the edge that reached it, and their combined total.
#[derive(Debug)]
pub struct Route {
    pub steps: Vec<(Position, TimeCost)>,
    pub total: TimeCost,
}

/// The combined cost of a path's incremental steps.
pub open spec fn cost_sum(steps: Seq<(Position, TimeCost)>) -> TimeCost
    decreases steps.len(),
{
    if steps.len() == 0 {
        TimeCost::zero_spec()
    } else {
        cost_sum(steps.drop_last()).spec_plus(steps.last().1)
    }
}

/// One search node: its position, accumulated cost, queue priority, whether
/// it is still on the frontier, and the path that reached it.
struct NodeRec {
    pos: Position,
    g: TimeCost,
    f: u64,
    open: bool,
    steps: Vec<(Position, TimeCost)>,
}

/// An owned copy of a path.
fn copy_steps(v: &Vec<(Position, TimeCost)>) -> (r: Vec<(Position, TimeCost)>)
    ensures
        r@ == v@,
{
    let mut r: Vec<(Position, TimeCost)> = Vec::new();
    let n = v.len();
    for i in 0..n
        invariant
            n == v@.len(),
            r@ == v@.take(i as int),
    {
        r.push(v[i]);
        proof {
            assert(v@.take(i as int + 1).drop_last() =~= v@.take(i as int));
            assert(r@ =~= v@.take(i as int + 1));
        }
    }
    proof {
        assert(v@.take(n as int) =~= v@);
    }
    r
}

/// Elements of `stop_edges` are walking edges to members of the stop sequence.
proof fn lemma_stop_edges_pos(cur_c: (i64, i64), ss: Seq<Stop>, config: SearchConfig)
    ensures
        forall|k: int|
            0 <= k < stop_edges(cur_c, ss, config).len() ==> exists|i: int|
                0 <= i < ss.len() && #[trigger] stop_edges(cur_c, ss, config)[k] == (
                Position::BusStop(ss[i].stop_id, HowGet::Walk),
                walk_cost_spec(cur_c, ss[i].coords_spec(), config),
                ),
    decreases ss.len(),
{
    if ss.len() > 0 {
        lemma_stop_edges_pos(cur_c, ss.drop_last(), config);
        let whole = stop_edges(cur_c, ss, config);
        let pre = stop_edges(cur_c, ss.drop_last(), config);
        assert forall|k: int| 0 <= k < whole.len() implies exists|i: int|
            0 <= i < ss.len() && #[trigger] whole[k] == (
            Position::BusStop(ss[i].stop_id, HowGet::Walk),
            walk_cost_spec(cur_c, ss[i].coords_spec(), config),
            ) by {
            if k < pre.len() {
                assert(whole[k] == pre[k]);
                let i = choose|i: int|
                    0 <= i < ss.drop_last().len() && #[trigger] pre[k] == (
                    Position::BusStop(ss.drop_last()[i].stop_id, HowGet::Walk),
                    walk_cost_spec(cur_c, ss.drop_last()[i].coords_spec(), config),
                    );
                assert(ss[i] == ss.drop_last()[i]);
            } else {
                let i = ss.len() - 1;
                assert(ss.last() == ss[i]);
            }
        }
    }
}

/// Elements of `conn_edges` are riding edges of table entries leaving `from`.
proof fn lemma_conn_edges_pos(from: u32, es: Seq<ConnEdge>, config: SearchConfig)
    ensures
        forall|k: int|
            0 <= k < conn_edges(from, es, config).len() ==> exists|i: int|
                0 <= i < es.len() && es[i].from.0 == from && #[trigger] conn_edges(
                    from,
                    es,
                    config,
                )[k] == (
                Position::BusStop(es[i].to, HowGet::Bus),
                bus_cost_spec(es[i].conn.time, config),
                ),
    decreases es.len(),
{
    if es.len() > 0 {
        lemma_conn_edges_pos(from, es.drop_last(), config);
        let whole = conn_edges(from, es, config);
        let pre = conn_edges(from, es.drop_last(), config);
        assert forall|k: int| 0 <= k < whole.len() implies exists|i: int|
            0 <= i < es.len() && es[i].from.0 == from && #[trigger] whole[k] == (
            Position::BusStop(es[i].to, HowGet::Bus),
            bus_cost_spec(es[i].conn.time, config),
            ) by {
            if k < pre.len() {
                assert(whole[k] == pre[k]);
                let i = choose|i: int|
                    0 <= i < es.drop_last().len() && es.drop_last()[i].from.0 == from
                        && #[trigger] pre[k] == (
                    Position::BusStop(es.drop_last()[i].to, HowGet::Bus),
                    bus_cost_spec(es.drop_last()[i].conn.time, config),
                    );
                assert(es[i] == es.drop_last()[i]);
            } else {
                let i = es.len() - 1;
                assert(es.last() == es[i]);
            }
        }
    }
}

/// When every stop is beyond the walking cap, no walking edge survives.
proof fn lemma_stop_edges_all_far(cur_c: (i64, i64), ss: Seq<Stop>, config: SearchConfig)
    requires
        forall|i: int|
            0 <= i < ss.len() ==> walk_cost_spec(
                cur_c,
                (#[trigger] ss[i]).coords_spec(),
                config,
            ).walk_time > config.max_walk_time,
    ensures
        stop_edges(cur_c, ss, config) == Seq::<(Position, TimeCost)>::empty(),
    decreases ss.len(),
{
    if ss.len() > 0 {
        assert(ss.last() == ss[ss.len() - 1]);
        assert forall|i: int| 0 <= i < ss.drop_last().len() implies walk_cost_spec(
            cur_c,
            (#[trigger] ss.drop_last()[i]).coords_spec(),
            config,
        ).walk_time > config.max_walk_time by {
            assert(ss.drop_last()[i] == ss[i]);
        }
        lemma_stop_edges_all_far(cur_c, ss.drop_last(), config);
        assert(stop_edges(cur_c, ss, config) =~= Seq::<(Position, TimeCost)>::empty());
    }
}

impl<'a> TransitSearchProblem<'a> {
    /// The node identities a search from `start` can ever place on its
    /// frontier: the start, the destination, and the stops.
    pub open spec fn allowed_keys(self, start: Position) -> Set<PosKey> {
        self.stops.stops@.map_values(|st: Stop| PosKey::Stop(st.stop_id.0)).to_set().insert(
            key_of(start),
        ).insert(key_of(self.end))
    }

    /// A structurally valid path from `start`: it begins at `start` with zero
    /// incremental cost, and each later step is an edge the expansion rule
    /// offers from its predecessor at the cost accumulated there.
    pub open spec fn path_ok(self, start: Position, steps: Seq<(Position, TimeCost)>) -> bool {
        path_ok_v(*self.stops, *self.connections, self.config, self.end, start, steps)
    }

    /// A well-formed frontier record for a search from `start`.
    spec fn node_wf(self, start: Position, n: NodeRec) -> bool {
        &&& self.path_ok(start, n.steps@)
        &&& n.steps@.len() >= 1
        &&& n.steps@.last().0 == n.pos
        &&& cost_sum(n.steps@) == n.g
        &&& pos_wf(n.pos, *self.stops)
    }

    /// A query point beyond the walking cap from the destination and from
    /// every stop: nothing can be reached from it.
    pub open spec fn far_query(self, start: Position) -> bool {
        &&& start is PlanarPoint
        &&& walk_cost_spec(
            coords_spec(start, *self.stops),
            coords_spec(self.end, *self.stops),
            self.config,
        ).walk_time > self.config.max_walk_time
        &&& forall|i: int|
            0 <= i < self.stops.stops@.len() ==> walk_cost_spec(
                coords_spec(start, *self.stops),
                (#[trigger] self.stops.stops@[i]).coords_spec(),
                self.config,
            ).walk_time > self.config.max_walk_time
    }

    /// Every edge the expansion rule offers leads to a placeable position
    /// whose identity the search from `start` may hold.
    proof fn lemma_neighbors_allowed(self, start: Position, cur: Position, cost: TimeCost)
        requires
            self.wf(),
        ensures
            forall|k: int|
                0 <= k < self.neighbors_spec(cur, cost).len() ==> pos_wf(
                    (#[trigger] self.neighbors_spec(cur, cost)[k]).0,
                    *self.stops,
                ) && self.allowed_keys(start).contains(
                    key_of(self.neighbors_spec(cur, cost)[k].0),
                ),
    {
        broadcast use vstd::set::group_set_axioms;

        let ns = self.neighbors_spec(cur, cost);
        if cost.walk_time <= self.config.max_walk_time {
            let cur_c = coords_spec(cur, *self.stops);
            let keyseq = self.stops.stops@.map_values(|st: Stop| PosKey::Stop(st.stop_id.0));
            let goal = self.goal_edge(cur_c);
            let se = stop_edges(cur_c, self.stops.stops@, self.config);
            let ce = match cur {
                Position::BusStop(id, _) => conn_edges(id.0, self.connections.edges@, self.config),
                _ => Seq::<(Position, TimeCost)>::empty(),
            };
            lemma_stop_edges_pos(cur_c, self.stops.stops@, self.config);
            if cur is BusStop {
                lemma_conn_edges_pos(cur->BusStop_0.0, self.connections.edges@, self.config);
            }
            assert forall|k: int| 0 <= k < ns.len() implies pos_wf((#[trigger] ns[k]).0,
                *self.stops,
            ) && self.allowed_keys(start).contains(key_of(ns[k].0)) by {
                if k < goal.len() {
                    assert(ns[k] == goal[0]);
                } else if k < goal.len() + se.len() {
                    assert(ns[k] == se[k - goal.len()]);
                    let i = choose|i: int|
                        0 <= i < self.stops.stops@.len() && #[trigger] se[k - goal.len()] == (
                        Position::BusStop(self.stops.stops@[i].stop_id, HowGet::Walk),
                        walk_cost_spec(cur_c, self.stops.stops@[i].coords_spec(), self.config),
                        );
                    assert(keyseq[i] == PosKey::Stop(self.stops.stops@[i].stop_id.0));
                    assert(keyseq.contains(key_of(ns[k].0)));
                } else {
                    assert(ns[k] == ce[k - goal.len() - se.len()]);
                    let i = choose|i: int|
                        0 <= i < self.connections.edges@.len()
                            && self.connections.edges@[i].from.0 == cur->BusStop_0.0
                            && #[trigger] ce[k - goal.len() - se.len()] == (
                        Position::BusStop(self.connections.edges@[i].to, HowGet::Bus),
                        bus_cost_spec(self.connections.edges@[i].conn.time, self.config),
                        );
                    let to = self.connections.edges@[i].to.0;
                    assert(has_stop(self.stops.stops@, to));
                    let j = choose|j: int|
                        0 <= j < self.stops.stops@.len() && (#[trigger] self.stops.stops@[j]).stop_id.0
                            == to;
                    assert(keyseq[j] == PosKey::Stop(to));
                    assert(keyseq.contains(key_of(ns[k].0)));
                }
            }
        }
    }

    /// Folds one popped node's neighbor edges into the frontier: a fresh
    /// identity is pushed with its path, a cheaper path relaxes a record
    /// that is still open, and settled records are left alone.
    #[verifier::loop_isolation(false)]
    #[verifier::rlimit(100)]
    fn expand_frontier(
        &self,
        nodes: &mut Vec<NodeRec>,
        ns: &Vec<(Position, TimeCost)>,
        cur_pos: Position,
        cur_g: TimeCost,
        cur_steps: &Vec<(Position, TimeCost)>,
        Ghost(start): Ghost<Position>,
        Ghost(allowed): Ghost<Set<PosKey>>,
        Ghost(closed): Ghost<Set<PosKey>>,
    )
        requires
            self.wf(),
            allowed == self.allowed_keys(start),
            ns@ == self.neighbors_spec(cur_pos, cur_g),
            self.path_ok(start, cur_steps@),
            cur_steps@.len() >= 1,
            cur_steps@.last().0 == cur_pos,
            cost_sum(cur_steps@) == cur_g,
            old(nodes)@.len() >= 1,
            forall|i: int|
                0 <= i < old(nodes)@.len() ==> self.node_wf(start, #[trigger] old(nodes)@[i]),
            forall|i: int, j: int|
                0 <= i < j < old(nodes)@.len() ==> key_of((#[trigger] old(nodes)@[i]).pos)
                    != key_of((#[trigger] old(nodes)@[j]).pos),
            forall|i: int|
                0 <= i < old(nodes)@.len() ==> allowed.contains(
                    key_of((#[trigger] old(nodes)@[i]).pos),
                ),
            forall|i: int|
                0 <= i < old(nodes)@.len() && key_of((#[trigger] old(nodes)@[i]).pos) == key_of(
                    self.end,
                ) ==> old(nodes)@[i].open,
            forall|i: int|
                0 <= i < old(nodes)@.len() && (#[trigger] old(nodes)@[i]).open ==> !closed.contains(
                    key_of(old(nodes)@[i].pos),
                ),
            forall|kk: PosKey| #[trigger]
                closed.contains(kk) ==> exists|i: int|
                    0 <= i < old(nodes)@.len() && key_of((#[trigger] old(nodes)@[i]).pos) == kk,
        ensures
            final(nodes)@.len() >= old(nodes)@.len(),
            forall|i: int|
                0 <= i < final(nodes)@.len() ==> self.node_wf(start, #[trigger] final(nodes)@[i]),
            forall|i: int, j: int|
                0 <= i < j < final(nodes)@.len() ==> key_of((#[trigger] final(nodes)@[i]).pos)
                    != key_of((#[trigger] final(nodes)@[j]).pos),
            forall|i: int|
                0 <= i < final(nodes)@.len() ==> allowed.contains(
                    key_of((#[trigger] final(nodes)@[i]).pos),
                ),
            forall|i: int|
                0 <= i < final(nodes)@.len() && key_of((#[trigger] final(nodes)@[i]).pos) == key_of(
                    self.end,
                ) ==> final(nodes)@[i].open,
            forall|i: int|
                0 <= i < final(nodes)@.len() && (#[trigger] final(nodes)@[i]).open
                    ==> !closed.contains(key_of(final(nodes)@[i].pos)),
            forall|kk: PosKey| #[trigger]
                closed.contains(kk) ==> exists|i: int|
                    0 <= i < final(nodes)@.len() && key_of((#[trigger] final(nodes)@[i]).pos) == kk,
            forall|i: int|
                0 <= i < old(nodes)@.len() ==> key_of((#[trigger] final(nodes)@[i]).pos) == key_of(
                    old(nodes)@[i].pos,
                ),
            forall|mm: int| #![trigger ns@[mm]]
                0 <= mm < ns@.len() ==> exists|i: int|
                    0 <= i < final(nodes)@.len() && key_of((#[trigger] final(nodes)@[i]).pos)
                        == key_of(ns@[mm].0),
            ns@.len() == 0 ==> final(nodes)@ == old(nodes)@,
    {
        proof {
            self.lemma_neighbors_allowed(start, cur_pos, cur_g);
        }
        let ghost old_nodes = old(nodes)@;
        let m = ns.len();
        for k in 0..m
            invariant
                m == ns@.len(),
                nodes@.len() >= 1,
                forall|i: int| 0 <= i < nodes@.len() ==> self.node_wf(start, #[trigger] nodes@[i]),
                forall|i: int, j: int|
                    0 <= i < j < nodes@.len() ==> key_of((#[trigger] nodes@[i]).pos) != key_of(
                        (#[trigger] nodes@[j]).pos,
                    ),
                forall|i: int|
                    0 <= i < nodes@.len() ==> allowed.contains(
                        key_of((#[trigger] nodes@[i]).pos),
                    ),
                forall|i: int|
                    0 <= i < nodes@.len() && key_of((#[trigger] nodes@[i]).pos) == key_of(self.end)
                        ==> nodes@[i].open,
                forall|i: int|
                    0 <= i < nodes@.len() && (#[trigger] nodes@[i]).open ==> !closed.contains(
                        key_of(nodes@[i].pos),
                    ),
                forall|kk: PosKey| #[trigger]
                    closed.contains(kk) ==> exists|i: int|
                        0 <= i < nodes@.len() && key_of((#[trigger] nodes@[i]).pos) == kk,
                forall|mm: int| #![trigger ns@[mm]]
                    0 <= mm < k ==> exists|i: int|
                        0 <= i < nodes@.len() && key_of((#[trigger] nodes@[i]).pos) == key_of(
                            ns@[mm].0,
                        ),
                nodes@.len() >= old_nodes.len(),
                forall|i: int|
                    0 <= i < old_nodes.len() ==> key_of((#[trigger] nodes@[i]).pos) == key_of(
                        old_nodes[i].pos,
                    ),
                ns@.len() == 0 ==> nodes@ == old_nodes,
        {
            let (npos, ecost) = ns[k];
            let ghost prev_nodes = nodes@;
            let new_g = cur_g.plus(ecost);
            let ghost new_steps_view = cur_steps@.push((npos, ecost));
            proof {
                assert(new_steps_view.drop_last() =~= cur_steps@);
                assert(self.path_ok(start, new_steps_view));
                assert(cost_sum(new_steps_view) == new_g);
            }

            let nn = nodes.len();
            let mut at: usize = 0;
            let mut hit: bool = false;
            for j in 0..nn
                invariant
                    nn == nodes@.len(),
                    hit ==> at < nn && key_of(nodes@[at as int].pos) == key_of(npos),
                    !hit ==> forall|mm: int|
                        0 <= mm < j ==> key_of((#[trigger] nodes@[mm]).pos) != key_of(npos),
            {
                if nodes[j].pos == npos {
                    at = j;
                    hit = true;
                    break;
                }
            }
            if !hit {
                let h = self.heuristic(&npos);
                let fv = new_g.plus(h).total();
                let mut s2 = copy_steps(cur_steps);
                s2.push((npos, ecost));
                nodes.push(NodeRec { pos: npos, g: new_g, f: fv, open: true, steps: s2 });
            } else {
                if nodes[at].open && new_g.lt_total(&nodes[at].g) {
                    let h = self.heuristic(&npos);
                    let fv = new_g.plus(h).total();
                    let mut s2 = copy_steps(cur_steps);
                    s2.push((npos, ecost));
                    let ghost before = nodes@;
                    let _ = nodes.remove(at);
                    nodes.insert(
                        at,
                        NodeRec { pos: npos, g: new_g, f: fv, open: true, steps: s2 },
                    );
                    proof {
                        assert(nodes@ =~= before.update(
                            at as int,
                            NodeRec {
                                pos: npos,
                                g: new_g,
                                f: fv,
                                open: true,
                                steps: nodes@[at as int].steps,
                            },
                        ));
                    }
                }
            }
            proof {
                assert(nodes@.len() >= prev_nodes.len());
                assert forall|i: int| 0 <= i < prev_nodes.len() implies key_of(
                    (#[trigger] nodes@[i]).pos,
                ) == key_of(prev_nodes[i].pos) by {}
                assert forall|kk: PosKey| #[trigger]
                    closed.contains(kk) implies exists|i: int|
                    0 <= i < nodes@.len() && key_of((#[trigger] nodes@[i]).pos) == kk by {
                    let i = choose|i: int|
                        0 <= i < prev_nodes.len() && key_of((#[trigger] prev_nodes[i]).pos) == kk;
                    assert(key_of(nodes@[i].pos) == kk);
                }
                assert forall|mm: int| #![trigger ns@[mm]]
                    0 <= mm < k + 1 implies exists|i: int|
                    0 <= i < nodes@.len() && key_of((#[trigger] nodes@[i]).pos) == key_of(
                        ns@[mm].0,
                    ) by {
                    if mm < k {
                        let i = choose|i: int|
                            0 <= i < prev_nodes.len() && key_of((#[trigger] prev_nodes[i]).pos)
                                == key_of(ns@[mm].0);
                        assert(key_of(nodes@[i].pos) == key_of(ns@[mm].0));
                    } else {
                        assert(ns@[mm] == (npos, ecost));
                        if hit {
                            assert(key_of(nodes@[at as int].pos) == key_of(npos));
                        } else {
                            assert(key_of(nodes@[nodes@.len() - 1].pos) == key_of(npos));
                        }
                    }
                }
            }
        }
    }

    /// Minimum-cost search from `start` toward the fixed destination.
    ///
    /// A `Some` result is a structurally valid path: it begins at `start`
    /// with zero cost, each step is an edge offered by the expansion rule,
    /// it ends at the destination, and the reported total is the combined
    /// step cost. A query already at the destination yields the zero-cost,
    /// zero-hop path. `None` is returned only when the destination was not
    /// reached; it implies the direct walk to the destination exceeds the
    /// walking cap, and it is certain for a far query point.
    #[verifier::loop_isolation(false)]
    #[verifier::rlimit(100)]
    pub fn search(&self, start: Position) -> (r: Option<Route>)
        requires
            self.wf(),
            pos_wf(start, *self.stops),
        ensures
            match r {
                Some(route) => {
                    &&& self.path_ok(start, route.steps@)
                    &&& route.steps@.len() >= 1
                    &&& key_of(route.steps@.last().0) == key_of(self.end)
                    &&& route.total == cost_sum(route.steps@)
                },
                None => {
                    &&& key_of(start) != key_of(self.end)
                    &&& walk_cost_spec(
                        coords_spec(start, *self.stops),
                        coords_spec(self.end, *self.stops),
                        self.config,
                    ).walk_time > self.config.max_walk_time
                },
            },
            key_of(start) == key_of(self.end) ==> (r matches Some(route) && route.steps@ == seq![
                (start, TimeCost::zero_spec()),
            ] && route.total == TimeCost::zero_spec()),
            self.far_query(start) ==> r is None,
    {
        broadcast use vstd::set::group_set_axioms, vstd::seq_lib::seq_to_set_is_finite;

        if self.is_end(&start) {
            let steps = vec![(start, TimeCost::zero())];
            proof {
                assert(steps@ =~= seq![(start, TimeCost::zero_spec())]);
                assert(steps@.drop_last() =~= Seq::<(Position, TimeCost)>::empty());
                assert(cost_sum(steps@.drop_last()) == TimeCost::zero_spec());
                assert(cost_sum(steps@) == TimeCost::zero_spec());
                assert(self.path_ok(start, steps@));
                if self.far_query(start) {
                    assert(coords_spec(start, *self.stops) == coords_spec(self.end, *self.stops));
                    crate::geom::lemma_travel_time_zero(
                        coords_spec(start, *self.stops),
                        self.config.walk_speed,
                    );
                    assert(false);
                }
            }
            return Some(Route { steps, total: TimeCost::zero() });
        }
        let ghost allowed = self.allowed_keys(start);
        let ghost mut closed: Set<PosKey> = Set::empty();

        let h0 = self.heuristic(&start);
        let g0 = TimeCost::zero();
        let mut init_steps = Vec::new();
        init_steps.push((start, g0));
        let f0 = g0.plus(h0).total();
        let mut nodes: Vec<NodeRec> = Vec::new();
        nodes.push(NodeRec { pos: start, g: g0, f: f0, open: true, steps: init_steps });
        let ghost init_steps_view = seq![(start, TimeCost::zero_spec())];
        proof {
            assert(nodes@[0].steps@ =~= init_steps_view);
            assert(init_steps_view.drop_last() =~= Seq::<(Position, TimeCost)>::empty());
            assert(cost_sum(init_steps_view.drop_last()) == TimeCost::zero_spec());
            assert(cost_sum(init_steps_view) == TimeCost::zero_spec());
            assert(self.path_ok(start, init_steps_view));
            assert(self.node_wf(start, nodes@[0]));
        }

        loop
            invariant
                nodes@.len() >= 1,
                forall|i: int| 0 <= i < nodes@.len() ==> self.node_wf(start, #[trigger] nodes@[i]),
                forall|i: int, j: int|
                    0 <= i < j < nodes@.len() ==> key_of((#[trigger] nodes@[i]).pos) != key_of(
                        (#[trigger] nodes@[j]).pos,
                    ),
                forall|i: int|
                    0 <= i < nodes@.len() ==> allowed.contains(
                        key_of((#[trigger] nodes@[i]).pos),
                    ),
                forall|i: int|
                    0 <= i < nodes@.len() && key_of((#[trigger] nodes@[i]).pos) == key_of(self.end)
                        ==> nodes@[i].open,
                forall|i: int|
                    0 <= i < nodes@.len() && (#[trigger] nodes@[i]).open ==> !closed.contains(
                        key_of(nodes@[i].pos),
                    ),
                forall|k: PosKey| #[trigger]
                    closed.contains(k) ==> exists|i: int|
                        0 <= i < nodes@.len() && key_of((#[trigger] nodes@[i]).pos) == k,
                closed.finite(),
                closed.subset_of(allowed),
                closed.is_empty() ==> (nodes@.len() == 1 && nodes@[0].pos == start && nodes@[0].g
                    == TimeCost::zero_spec() && nodes@[0].steps@ == init_steps_view
                    && nodes@[0].open),
                !closed.is_empty() ==> closed.contains(key_of(start)),
                closed.contains(key_of(start)) && walk_cost_spec(
                    coords_spec(start, *self.stops),
                    coords_spec(self.end, *self.stops),
                    self.config,
                ).walk_time <= self.config.max_walk_time ==> exists|i: int|
                    0 <= i < nodes@.len() && key_of((#[trigger] nodes@[i]).pos) == key_of(
                        self.end,
                    ),
                self.far_query(start) ==> (nodes@.len() == 1 && nodes@[0].pos == start
                    && nodes@[0].g == TimeCost::zero_spec()),
            decreases allowed.len() - closed.len(),
        {
            proof {
                vstd::set_lib::lemma_len_subset(closed, allowed);
            }
            let n = nodes.len();
            let mut best: usize = 0;
            let mut found: bool = false;
            for j in 0..n
                invariant
                    found ==> best < n && nodes@[best as int].open,
                    !found ==> forall|m: int| 0 <= m < j ==> !(#[trigger] nodes@[m]).open,
            {
                if nodes[j].open && (!found || nodes[j].f < nodes[best].f) {
                    best = j;
                    found = true;
                }
            }
            if !found {
                proof {
                    assert(!nodes@[0].open);
                    assert(!closed.is_empty());
                    if walk_cost_spec(
                        coords_spec(start, *self.stops),
                        coords_spec(self.end, *self.stops),
                        self.config,
                    ).walk_time <= self.config.max_walk_time {
                        let i = choose|i: int|
                            0 <= i < nodes@.len() && key_of((#[trigger] nodes@[i]).pos) == key_of(
                                self.end,
                            );
                        assert(nodes@[i].open);
                    }
                }
                return None;
            }

            let cur_pos = nodes[best].pos;
            let cur_g = nodes[best].g;
            let cur_steps = copy_steps(&nodes[best].steps);
            let ghost old_nodes = nodes@;
            let ghost closed_before = closed;
            let mut rec = nodes.remove(best);
            rec.open = false;
            nodes.insert(best, rec);
            proof {
                assert(nodes@ =~= old_nodes.update(
                    best as int,
                    NodeRec {
                        open: false,
                        pos: old_nodes[best as int].pos,
                        g: old_nodes[best as int].g,
                        f: old_nodes[best as int].f,
                        steps: old_nodes[best as int].steps,
                    },
                ));
                closed = closed.insert(key_of(cur_pos));
                assert forall|i: int|
                    0 <= i < nodes@.len() && (#[trigger] nodes@[i]).open implies !closed.contains(
                    key_of(nodes@[i].pos),
                ) by {
                    assert(old_nodes[i].open && i != best);
                }
                assert forall|i: int| 0 <= i < nodes@.len() implies self.node_wf(
                    start,
                    #[trigger] nodes@[i],
                ) by {
                    assert(self.node_wf(start, old_nodes[i]));
                }
                assert forall|kk: PosKey| #[trigger]
                    closed.contains(kk) implies exists|i: int|
                    0 <= i < nodes@.len() && key_of((#[trigger] nodes@[i]).pos) == kk by {
                    if kk == key_of(cur_pos) {
                        assert(key_of(nodes@[best as int].pos) == kk);
                    } else {
                        let i = choose|i: int|
                            0 <= i < old_nodes.len() && key_of((#[trigger] old_nodes[i]).pos)
                                == kk;
                        assert(key_of(nodes@[i].pos) == kk);
                    }
                }
            }

            if self.is_end(&cur_pos) {
                proof {
                    assert(self.node_wf(start, old_nodes[best as int]));
                    if self.far_query(start) {
                        assert(cur_pos == start);
                        assert(false);
                    }
                }
                return Some(Route { steps: cur_steps, total: cur_g });
            }

            let ns = self.neighbors(&cur_pos, &cur_g);
            proof {
                self.lemma_neighbors_allowed(start, cur_pos, cur_g);
                if self.far_query(start) {
                    assert(cur_pos == start && cur_g == TimeCost::zero_spec());
                    lemma_stop_edges_all_far(
                        coords_spec(start, *self.stops),
                        self.stops.stops@,
                        self.config,
                    );
                    assert(ns@ =~= Seq::<(Position, TimeCost)>::empty());
                }
            }
            let ghost nodes_mid = nodes@;
            proof {
                assert forall|i: int|
                    0 <= i < nodes@.len() && key_of((#[trigger] nodes@[i]).pos) == key_of(
                        self.end,
                    ) implies nodes@[i].open by {
                    if i == best as int {
                        assert(key_of(nodes@[i].pos) == key_of(cur_pos));
                        assert(false);
                    } else {
                        assert(old_nodes[i].open);
                    }
                }
            }
            self.expand_frontier(
                &mut nodes,
                &ns,
                cur_pos,
                cur_g,
                &cur_steps,
                Ghost(start),
                Ghost(allowed),
                Ghost(closed),
            );
            proof {
                assert(old_nodes[best as int].open);
                assert(!closed_before.contains(key_of(cur_pos)));
                assert(closed.len() == closed_before.len() + 1);
                vstd::set_lib::lemma_len_subset(closed, allowed);
                if self.far_query(start) {
                    assert(ns@.len() == 0);
                    assert(nodes@ == nodes_mid);
                    assert(nodes@.len() == 1 && nodes@[0].pos == start && nodes@[0].g
                        == TimeCost::zero_spec());
                }
                if closed.contains(key_of(start)) && walk_cost_spec(
                    coords_spec(start, *self.stops),
                    coords_spec(self.end, *self.stops),
                    self.config,
                ).walk_time <= self.config.max_walk_time {
                    if closed_before.contains(key_of(start)) {
                        let i = choose|i: int|
                            0 <= i < old_nodes.len() && key_of((#[trigger] old_nodes[i]).pos)
                                == key_of(self.end);
                        assert(key_of(nodes@[i].pos) == key_of(self.end));
                    } else {
                        assert(key_of(cur_pos) == key_of(start));
                        assert(closed_before.is_empty());
                        assert(cur_pos == start && cur_g == TimeCost::zero_spec());
                        let cur_c = coords_spec(start, *self.stops);
                        let goal = self.goal_edge(cur_c);
                        assert(goal.len() == 1 && goal[0].0 == self.end);
                        assert(ns@[0] == goal[0]);
                        assert(exists|i: int|
                            0 <= i < nodes@.len() && key_of((#[trigger] nodes@[i]).pos) == key_of(
                                ns@[0].0,
                            ));
                    }
                }
            }
        }
    }
}

} // verus!
