//! The transit data model: stop identifiers, stops with planar millimeter
//! coordinates, scheduled connections, and the two read-only tables the
//! search engine consumes. Tables are plain vectors with uniqueness
//! invariants, so their contents and iteration order are fully determined.

use vstd::prelude::*;

use crate::geom::coords_in_range;

verus! {

/// Opaque identifier of a physical transit stop.
#[derive(PartialEq, Eq, Structural, Clone, Copy, Debug, Hash)]
pub struct StopId(pub u32);

/// A physical stop, located in the local planar frame (millimeters).
#[derive(Clone, Debug)]
pub struct Stop {
    pub stop_id: StopId,
    pub stop_x: i64,
    pub stop_y: i64,
    pub name: String,
}

impl Stop {
    /// The stop's planar location.
    pub open spec fn coords_spec(self) -> (i64, i64) {
        (self.stop_x, self.stop_y)
    }

    /// The stop's planar location.
    pub fn coords(&self) -> (r: (i64, i64))
        ensures
            r == self.coords_spec(),
    {
        (self.stop_x, self.stop_y)
    }
}

/// A directed scheduled edge between two stops: the fastest observed
/// scheduled travel time in seconds, and the trip it was observed on
/// (informational).
#[derive(PartialEq, Eq, Structural, Clone, Copy, Debug)]
pub struct Connection {
    pub time: u64,
    pub trip_id: u32,
}

/// The read-only stop set, keyed by stop identifier.
#[derive(Clone, Debug)]
pub struct StopTable {
    pub stops: Vec<Stop>,
}

/// The first stop with the given identifier, if any.
pub open spec fn stop_lookup(ss: Seq<Stop>, id: u32) -> Option<Stop>
    decreases ss.len(),
{
    if ss.len() == 0 {
        None
    } else if ss[0].stop_id.0 == id {
        Some(ss[0])
    } else {
        stop_lookup(ss.drop_first(), id)
    }
}

/// Whether some stop in the sequence carries the given identifier.
pub open spec fn has_stop(ss: Seq<Stop>, id: u32) -> bool {
    exists|k: int| 0 <= k < ss.len() && (#[trigger] ss[k]).stop_id.0 == id
}

pub proof fn lemma_stop_lookup_found(ss: Seq<Stop>, id: u32)
    ensures
        stop_lookup(ss, id) is Some <==> has_stop(ss, id),
        stop_lookup(ss, id) matches Some(st) ==> st.stop_id.0 == id && exists|k: int|
            0 <= k < ss.len() && #[trigger] ss[k] == st,
    decreases ss.len(),
{
    if ss.len() > 0 {
        lemma_stop_lookup_found(ss.drop_first(), id);
        if ss[0].stop_id.0 != id {
            if has_stop(ss, id) {
                let k = choose|k: int| 0 <= k < ss.len() && (#[trigger] ss[k]).stop_id.0 == id;
                assert(ss.drop_first()[k - 1] == ss[k]);
            }
            if has_stop(ss.drop_first(), id) {
                let k = choose|k: int|
                    0 <= k < ss.drop_first().len() && (#[trigger] ss.drop_first()[k]).stop_id.0
                        == id;
                assert(ss[k + 1] == ss.drop_first()[k]);
            }
            if stop_lookup(ss, id) is Some {
                let st = stop_lookup(ss, id)->Some_0;
                let k = choose|k: int|
                    0 <= k < ss.drop_first().len() && #[trigger] ss.drop_first()[k] == st;
                assert(ss[k + 1] == st);
            }
        }
    }
}

impl StopTable {
    /// Well-formed: identifiers are unique and every coordinate is in range.
    pub open spec fn wf(self) -> bool {
        &&& forall|i: int, j: int|
            0 <= i < j < self.stops@.len() ==> (#[trigger] self.stops@[i]).stop_id.0 != (
            #[trigger] self.stops@[j]).stop_id.0
        &&& forall|i: int|
            0 <= i < self.stops@.len() ==> coords_in_range(
                (#[trigger] self.stops@[i]).coords_spec(),
            )
    }

    /// An empty stop set.
    pub fn new() -> (r: StopTable)
        ensures
            r.wf(),
            r.stops@.len() == 0,
    {
        StopTable { stops: Vec::new() }
    }

    /// The number of stops.
    pub fn len(&self) -> (r: usize)
        ensures
            r == self.stops@.len(),
    {
        self.stops.len()
    }

    /// Adds a stop. Returns `false`, changing nothing, when the identifier
    /// is already present.
    pub fn insert(&mut self, stop: Stop) -> (r: bool)
        requires
            old(self).wf(),
            coords_in_range(stop.coords_spec()),
        ensures
            final(self).wf(),
            r == !has_stop(old(self).stops@, stop.stop_id.0),
            r ==> final(self).stops@ == old(self).stops@.push(stop),
            !r ==> final(self).stops@ == old(self).stops@,
    {
        if self.get(stop.stop_id).is_some() {
            false
        } else {
            self.stops.push(stop);
            true
        }
    }

    /// Looks a stop up by identifier.
    pub fn get(&self, id: StopId) -> (r: Option<&Stop>)
        ensures
            match r {
                Some(st) => stop_lookup(self.stops@, id.0) == Some(*st),
                None => !has_stop(self.stops@, id.0),
            },
            r is Some <==> has_stop(self.stops@, id.0),
    {
        proof {
            lemma_stop_lookup_found(self.stops@, id.0);
            assert(self.stops@.skip(0) =~= self.stops@);
        }
        let n = self.stops.len();
        for k in 0..n
            invariant
                n == self.stops@.len(),
                stop_lookup(self.stops@, id.0) == stop_lookup(self.stops@.skip(k as int), id.0),
                forall|m: int| 0 <= m < k ==> (#[trigger] self.stops@[m]).stop_id.0 != id.0,
        {
            proof {
                assert(self.stops@.skip(k as int)[0] == self.stops@[k as int]);
                assert(self.stops@.skip(k as int).drop_first() =~= self.stops@.skip(k as int + 1));
            }
            if self.stops[k].stop_id.0 == id.0 {
                return Some(&self.stops[k]);
            }
        }
        proof {
            assert(self.stops@.skip(n as int).len() == 0);
        }
        None
    }
}

/// A decimal digit.
pub open spec fn is_digit_char(c: char) -> bool {
    48 <= c as u32 <= 57
}

/// The number a sequence of decimal digits denotes.
pub open spec fn digits_val(s: Seq<char>) -> int
    decreases s.len(),
{
    if s.len() == 0 {
        0
    } else {
        digits_val(s.drop_last()) * 10 + (s.last() as u32 - 48)
    }
}

/// Every character is a decimal digit.
pub open spec fn all_digits(s: Seq<char>) -> bool {
    forall|i: int| 0 <= i < s.len() ==> is_digit_char(#[trigger] s[i])
}

/// `i` and `j` cut the text into three nonempty all-digit groups separated
/// by colons: hours, minutes, seconds.
pub open spec fn time_split_at(s: Seq<char>, i: int, j: int) -> bool {
    &&& 1 <= i
    &&& i + 1 < j
    &&& j + 1 < s.len()
    &&& s[i] == ':'
    &&& s[j] == ':'
    &&& all_digits(s.subrange(0, i))
    &&& all_digits(s.subrange(i + 1, j))
    &&& all_digits(s.subrange(j + 1, s.len() as int))
}

/// A schedule time of the form `hours:minutes:seconds`, each group a
/// nonempty run of decimal digits.
pub open spec fn is_time_format(s: Seq<char>) -> bool {
    exists|i: int, j: int| time_split_at(s, i, j)
}

/// The seconds-since-midnight value of a split.
pub open spec fn time_value_at(s: Seq<char>, i: int, j: int) -> int {
    digits_val(s.subrange(0, i)) * 3600 + digits_val(s.subrange(i + 1, j)) * 60 + digits_val(
        s.subrange(j + 1, s.len() as int),
    )
}

/// The seconds-since-midnight value of a well-formed schedule time.
pub open spec fn time_value(s: Seq<char>) -> int {
    let (i, j) = choose|i: int, j: int| time_split_at(s, i, j);
    time_value_at(s, i, j)
}

/// A well-formed time splits at exactly one pair of colon positions.
pub proof fn lemma_time_split_unique(s: Seq<char>, i1: int, j1: int, i2: int, j2: int)
    requires
        time_split_at(s, i1, j1),
        time_split_at(s, i2, j2),
    ensures
        i1 == i2 && j1 == j2,
{
    if i1 < i2 {
        assert(s.subrange(0, i2)[i1] == s[i1]);
    }
    if i2 < i1 {
        assert(s.subrange(0, i1)[i2] == s[i2]);
    }
    if j1 < j2 {
        assert(s.subrange(i2 + 1, j2)[j1 - i2 - 1] == s[j1]);
    }
    if j2 < j1 {
        assert(s.subrange(i1 + 1, j1)[j2 - i1 - 1] == s[j2]);
    }
}

/// Pins `time_value` once a split is known.
pub proof fn lemma_time_value_at(s: Seq<char>, i: int, j: int)
    requires
        time_split_at(s, i, j),
    ensures
        time_value(s) == time_value_at(s, i, j),
{
    let (ci, cj) = choose|ci: int, cj: int| time_split_at(s, ci, cj);
    lemma_time_split_unique(s, ci, cj, i, j);
}

/// Digit runs denote non-negative numbers.
pub proof fn lemma_digits_val_nonneg(s: Seq<char>)
    requires
        all_digits(s),
    ensures
        digits_val(s) >= 0,
    decreases s.len(),
{
    if s.len() > 0 {
        assert(is_digit_char(s[s.len() - 1]));
        assert(all_digits(s.drop_last())) by {
            assert(forall|i: int|
                0 <= i < s.drop_last().len() ==> #[trigger] s.drop_last()[i] == s[i]);
        }
        lemma_digits_val_nonneg(s.drop_last());
    }
}

/// A prefix of a digit run denotes at most the whole run's number.
pub proof fn lemma_digits_val_prefix(s: Seq<char>, k: int)
    requires
        all_digits(s),
        0 <= k <= s.len(),
    ensures
        digits_val(s.take(k)) <= digits_val(s),
    decreases s.len() - k,
{
    if k < s.len() {
        lemma_digits_val_prefix(s, k + 1);
        assert(s.take(k + 1).drop_last() =~= s.take(k));
        assert(s.take(k + 1).last() == s[k]);
        assert(is_digit_char(s[k]));
        assert(all_digits(s.take(k))) by {
            assert(forall|i: int| 0 <= i < k ==> #[trigger] s.take(k)[i] == s[i]);
        }
        lemma_digits_val_nonneg(s.take(k));
        assert(digits_val(s.take(k + 1)) == digits_val(s.take(k)) * 10 + (s[k] as u32 - 48));
        assert(digits_val(s.take(k)) <= digits_val(s.take(k)) * 10) by (nonlinear_arith)
            requires digits_val(s.take(k)) >= 0;
    } else {
        assert(s.take(k) =~= s);
    }
}

/// The first colon at or after `from`, if any.
#[verifier::loop_isolation(false)]
fn find_colon(s: &str, from: usize) -> (r: Option<usize>)
    requires
        from <= s@.len(),
    ensures
        match r {
            Some(p) => from <= p < s@.len() && s@[p as int] == ':' && forall|m: int|
                from <= m < p ==> s@[m] != ':',
            None => forall|m: int| from <= m < s@.len() ==> s@[m] != ':',
        },
{
    let n = s.unicode_len();
    let mut k = from;
    while k < n
        invariant
            from <= k <= n,
            n == s@.len(),
            forall|m: int| from <= m < k ==> s@[m] != ':',
        decreases n - k,
    {
        if s.get_char(k) == ':' {
            return Some(k);
        }
        k += 1;
    }
    None
}

/// Whether `s` holds only decimal digits between `a` and `b`.
#[verifier::loop_isolation(false)]
fn all_digits_range(s: &str, a: usize, b: usize) -> (r: bool)
    requires
        a <= b <= s@.len(),
    ensures
        r == all_digits(s@.subrange(a as int, b as int)),
{
    let ghost group = s@.subrange(a as int, b as int);
    let mut k = a;
    while k < b
        invariant
            a <= k <= b,
            forall|m: int| 0 <= m < k - a ==> is_digit_char(#[trigger] group[m]),
        decreases b - k,
    {
        let c = s.get_char(k);
        let v = c as u32;
        proof {
            assert(group[k - a] == s@[k as int]);
        }
        if v < 48 || v > 57 {
            return false;
        }
        k += 1;
    }
    true
}

/// The number a digit group denotes, or `None` when it exceeds the 64-bit
/// range.
#[verifier::loop_isolation(false)]
fn parse_digits(s: &str, a: usize, b: usize) -> (r: Option<u64>)
    requires
        a <= b <= s@.len(),
        all_digits(s@.subrange(a as int, b as int)),
    ensures
        match r {
            Some(v) => v == digits_val(s@.subrange(a as int, b as int)),
            None => digits_val(s@.subrange(a as int, b as int)) > u64::MAX,
        },
{
    let ghost group = s@.subrange(a as int, b as int);
    let mut acc: u64 = 0;
    let mut k = a;
    while k < b
        invariant
            a <= k <= b,
            acc == digits_val(group.take(k - a)),
        decreases b - k,
    {
        let c = s.get_char(k);
        proof {
            assert(group[k - a] == s@[k as int]);
            assert(is_digit_char(group[k - a]));
            assert(group.take(k - a + 1).drop_last() =~= group.take(k - a));
            assert(group.take(k - a + 1).last() == group[k - a]);
        }
        let d: u64 = (c as u32 - 48) as u64;
        let wide: u128 = acc as u128 * 10 + d as u128;
        proof {
            assert(acc as int * 10 + d <= u64::MAX as int * 10 + 9) by (nonlinear_arith)
                requires acc <= u64::MAX, d <= 9;
            assert(digits_val(group.take(k - a + 1)) == acc * 10 + d);
        }
        if wide > u64::MAX as u128 {
            proof {
                lemma_digits_val_prefix(group, k - a + 1);
            }
            return None;
        }
        acc = wide as u64;
        k += 1;
    }
    proof {
        assert(group.take(b - a) =~= group);
    }
    Some(acc)
}

/// Parses an `hours:minutes:seconds` schedule time into seconds since
/// midnight. Returns `None` exactly when the text is not in that form or
/// its value does not fit the 64-bit range.
#[verifier::loop_isolation(false)]
pub fn parse_time_checked(time: &str) -> (r: Option<u64>)
    ensures
        match r {
            Some(v) => is_time_format(time@) && time_value(time@) == v,
            None => !(is_time_format(time@) && time_value(time@) <= u64::MAX),
        },
{
    let s = time;
    let n = s.unicode_len();
    let i = match find_colon(s, 0) {
        Some(i) => i,
        None => {
            proof {
                if is_time_format(s@) {
                    let (i2, j2) = choose|i2: int, j2: int| time_split_at(s@, i2, j2);
                }
            }
            return None;
        },
    };
    proof {
        if is_time_format(s@) {
            let (i2, j2) = choose|i2: int, j2: int| time_split_at(s@, i2, j2);
            if i2 < i {
                assert(s@[i2] == ':');
            }
            if i < i2 {
                assert(s@.subrange(0, i2)[i as int] == s@[i as int]);
            }
            assert(i2 == i);
        }
    }
    if i == 0 {
        return None;
    }
    if !all_digits_range(s, 0, i) {
        return None;
    }
    let j = match find_colon(s, i + 1) {
        Some(j) => j,
        None => {
            proof {
                if is_time_format(s@) {
                    let (i2, j2) = choose|i2: int, j2: int| time_split_at(s@, i2, j2);
                }
            }
            return None;
        },
    };
    proof {
        if is_time_format(s@) {
            let (i2, j2) = choose|i2: int, j2: int| time_split_at(s@, i2, j2);
            if j2 < j {
                assert(s@[j2] == ':');
            }
            if j < j2 {
                assert(s@.subrange(i2 + 1, j2)[j - i2 - 1] == s@[j as int]);
            }
            assert(j2 == j);
        }
    }
    if j == i + 1 {
        return None;
    }
    if !all_digits_range(s, i + 1, j) {
        return None;
    }
    if j + 1 >= n {
        return None;
    }
    if !all_digits_range(s, j + 1, n) {
        return None;
    }
    proof {
        assert(time_split_at(s@, i as int, j as int));
        lemma_time_value_at(s@, i as int, j as int);
        lemma_digits_val_nonneg(s@.subrange(0, i as int));
        lemma_digits_val_nonneg(s@.subrange(i as int + 1, j as int));
        lemma_digits_val_nonneg(s@.subrange(j as int + 1, s@.len() as int));
    }
    let hours = match parse_digits(s, 0, i) {
        Some(v) => v,
        None => {
            proof {
                let h = digits_val(s@.subrange(0, i as int));
                let m = digits_val(s@.subrange(i as int + 1, j as int));
                let sec = digits_val(s@.subrange(j as int + 1, s@.len() as int));
                assert(h <= h * 3600) by (nonlinear_arith)
                    requires h >= 0;
                assert(m * 60 >= 0) by (nonlinear_arith)
                    requires m >= 0;
            }
            return None;
        },
    };
    let minutes = match parse_digits(s, i + 1, j) {
        Some(v) => v,
        None => {
            proof {
                let h = digits_val(s@.subrange(0, i as int));
                let m = digits_val(s@.subrange(i as int + 1, j as int));
                assert(h * 3600 >= 0) by (nonlinear_arith)
                    requires h >= 0;
                assert(m <= m * 60) by (nonlinear_arith)
                    requires m >= 0;
            }
            return None;
        },
    };
    let seconds = match parse_digits(s, j + 1, n) {
        Some(v) => v,
        None => {
            proof {
                let h = digits_val(s@.subrange(0, i as int));
                let m = digits_val(s@.subrange(i as int + 1, j as int));
                assert(h * 3600 >= 0) by (nonlinear_arith)
                    requires h >= 0;
                assert(m * 60 >= 0) by (nonlinear_arith)
                    requires m >= 0;
            }
            return None;
        },
    };
    let wide: u128 = hours as u128 * 3600 + minutes as u128 * 60 + seconds as u128;
    proof {
        assert(hours as int * 3600 + minutes as int * 60 + seconds as int <= u64::MAX as int * 3600
            + u64::MAX as int * 60 + u64::MAX as int) by (nonlinear_arith)
            requires hours <= u64::MAX, minutes <= u64::MAX, seconds <= u64::MAX;
    }
    if wide > u64::MAX as u128 {
        return None;
    }
    Some(wide as u64)
}

/// Parses a well-formed `hours:minutes:seconds` schedule time into seconds
/// since midnight.
pub fn parse_time(time: &str) -> (r: u64)
    requires
        is_time_format(time@),
        time_value(time@) <= u64::MAX,
    ensures
        r == time_value(time@),
{
    match parse_time_checked(time) {
        Some(v) => v,
        None => {
            proof {
                lemma_digits_val_nonneg(Seq::empty());
                assert(false);
            }
            0
        },
    }
}

/// One directed entry of the connection table.
#[derive(PartialEq, Eq, Structural, Clone, Copy, Debug)]
pub struct ConnEdge {
    pub from: StopId,
    pub to: StopId,
    pub conn: Connection,
}

/// The read-only scheduled-connection table: directed edges keyed by the
/// ordered stop pair.
#[derive(Clone, Debug)]
pub struct ConnectionTable {
    pub edges: Vec<ConnEdge>,
}

/// Whether the edge sequence holds an entry for the ordered pair.
pub open spec fn has_pair(es: Seq<ConnEdge>, from: u32, to: u32) -> bool {
    exists|k: int|
        0 <= k < es.len() && (#[trigger] es[k]).from.0 == from && es[k].to.0 == to
}

impl ConnectionTable {
    /// Well-formed: at most one entry per ordered stop pair.
    pub open spec fn pairs_unique(self) -> bool {
        forall|i: int, j: int|
            0 <= i < j < self.edges@.len() ==> !((#[trigger] self.edges@[i]).from.0 == (
            #[trigger] self.edges@[j]).from.0 && self.edges@[i].to.0 == self.edges@[j].to.0)
    }

    /// Well-formed with respect to a stop set: every edge target is a known
    /// stop, so a search can always place the stop it rides to.
    pub open spec fn targets_in(self, stops: StopTable) -> bool {
        forall|i: int|
            0 <= i < self.edges@.len() ==> has_stop(stops.stops@, (#[trigger] self.edges@[i]).to.0)
    }

    /// An empty connection table.
    pub fn new() -> (r: ConnectionTable)
        ensures
            r.pairs_unique(),
            r.edges@.len() == 0,
    {
        ConnectionTable { edges: Vec::new() }
    }

    /// The number of directed entries.
    pub fn len(&self) -> (r: usize)
        ensures
            r == self.edges@.len(),
    {
        self.edges.len()
    }

    /// The index of the entry for the ordered pair, if any.
    pub fn find_pair(&self, from: StopId, to: StopId) -> (r: Option<usize>)
        ensures
            match r {
                Some(k) => 0 <= k < self.edges@.len() && self.edges@[k as int].from.0 == from.0
                    && self.edges@[k as int].to.0 == to.0,
                None => !has_pair(self.edges@, from.0, to.0),
            },
    {
        let n = self.edges.len();
        for k in 0..n
            invariant
                n == self.edges@.len(),
                forall|m: int|
                    0 <= m < k ==> !((#[trigger] self.edges@[m]).from.0 == from.0
                        && self.edges@[m].to.0 == to.0),
        {
            if self.edges[k].from.0 == from.0 && self.edges[k].to.0 == to.0 {
                return Some(k);
            }
        }
        None
    }
}

/// One observed stop visit of a trip: the trip, the stop visited, the
/// position of the visit along the trip, and the arrival time in seconds
/// since midnight.
#[derive(PartialEq, Eq, Structural, Clone, Copy, Debug)]
pub struct TripStopRecord {
    pub trip_id: u32,
    pub stop_id: u32,
    pub stop_sequence: u32,
    pub arrival_s: u64,
}

/// Visits `i` and `j` witness a scheduled ride from `f` to `t`: the same
/// trip reaches `t` after `f`, in stop order and in time.
pub open spec fn connects(rs: Seq<TripStopRecord>, i: int, j: int, f: u32, t: u32) -> bool {
    &&& 0 <= i < rs.len()
    &&& 0 <= j < rs.len()
    &&& rs[i].trip_id == rs[j].trip_id
    &&& rs[i].stop_id == f
    &&& rs[j].stop_id == t
    &&& rs[i].stop_sequence < rs[j].stop_sequence
    &&& rs[i].arrival_s < rs[j].arrival_s
}

/// The visit pair `(a, b)` comes before `(i, j)` in the double scan.
pub open spec fn before_pair(i: int, j: int, a: int, b: int) -> bool {
    a < i || (a == i && b < j)
}

/// Derives the scheduled-connection table from trip stop visits: one entry
/// per ordered stop pair some trip rides between, carrying the minimum
/// observed travel time across all witnessing visit pairs, and the trip of
/// one minimal witness.
/// Entry `k` of the table is witnessed by an already-scanned visit pair,
/// carrying exactly that pair's travel time and trip.
pub open spec fn edge_witnessed(
    rs: Seq<TripStopRecord>,
    es: Seq<ConnEdge>,
    i: int,
    j: int,
    k: int,
) -> bool {
    exists|a: int, b: int|
        {
            &&& before_pair(i, j, a, b)
            &&& #[trigger] connects(rs, a, b, es[k].from.0, es[k].to.0)
            &&& es[k].conn.time == rs[b].arrival_s - rs[a].arrival_s
            &&& es[k].conn.trip_id == rs[a].trip_id
        }
}

/// Soundness of a partially built table, with visit pairs before `(i, j)`
/// scanned: every entry is witnessed and minimal among the scanned
/// witnesses of its stop pair, and every scanned riding pair has an entry.
pub open spec fn routes_inv(rs: Seq<TripStopRecord>, es: Seq<ConnEdge>, i: int, j: int) -> bool {
    &&& forall|k: int| 0 <= k < es.len() ==> #[trigger] edge_witnessed(rs, es, i, j, k)
    &&& forall|k: int, a: int, b: int|
        0 <= k < es.len() && before_pair(i, j, a, b) && #[trigger] connects(
            rs,
            a,
            b,
            es[k].from.0,
            es[k].to.0,
        ) ==> es[k].conn.time <= rs[b].arrival_s - rs[a].arrival_s
    &&& forall|a: int, b: int|
        before_pair(i, j, a, b) && #[trigger] connects(rs, a, b, rs[a].stop_id, rs[b].stop_id)
            ==> has_pair(es, rs[a].stop_id, rs[b].stop_id)
}

/// A witnessed entry stays witnessed one scan step later.
proof fn lemma_witness_mono(rs: Seq<TripStopRecord>, es: Seq<ConnEdge>, i: int, j: int, k: int)
    requires
        edge_witnessed(rs, es, i, j, k),
    ensures
        edge_witnessed(rs, es, i, j + 1, k),
{
    let (a, b) = choose|a: int, b: int|
        {
            &&& before_pair(i, j, a, b)
            &&& #[trigger] connects(rs, a, b, es[k].from.0, es[k].to.0)
            &&& es[k].conn.time == rs[b].arrival_s - rs[a].arrival_s
            &&& es[k].conn.trip_id == rs[a].trip_id
        };
    assert(before_pair(i, j + 1, a, b));
}

/// A witnessed entry is witnessed under any equal sequence position.
proof fn lemma_witness_same_entry(
    rs: Seq<TripStopRecord>,
    es1: Seq<ConnEdge>,
    es2: Seq<ConnEdge>,
    i: int,
    j: int,
    k: int,
)
    requires
        0 <= k < es1.len(),
        0 <= k < es2.len(),
        es1[k] == es2[k],
        edge_witnessed(rs, es1, i, j, k),
    ensures
        edge_witnessed(rs, es2, i, j, k),
{
    let (a, b) = choose|a: int, b: int|
        {
            &&& before_pair(i, j, a, b)
            &&& #[trigger] connects(rs, a, b, es1[k].from.0, es1[k].to.0)
            &&& es1[k].conn.time == rs[b].arrival_s - rs[a].arrival_s
            &&& es1[k].conn.trip_id == rs[a].trip_id
        };
    assert(connects(rs, a, b, es2[k].from.0, es2[k].to.0));
}

/// The visit pair `(i, j)` witnesses its own edge wherever that edge stands.
proof fn lemma_witness_self(rs: Seq<TripStopRecord>, es: Seq<ConnEdge>, i: int, j: int, k: int)
    requires
        connects(rs, i, j, rs[i].stop_id, rs[j].stop_id),
        0 <= k < es.len(),
        es[k] == edge_of(rs, i, j),
    ensures
        edge_witnessed(rs, es, i, j + 1, k),
{
    assert(before_pair(i, j + 1, i, j));
    assert(connects(rs, i, j, es[k].from.0, es[k].to.0));
}

/// The edge a witnessing visit pair contributes.
pub open spec fn edge_of(rs: Seq<TripStopRecord>, i: int, j: int) -> ConnEdge {
    ConnEdge {
        from: StopId(rs[i].stop_id),
        to: StopId(rs[j].stop_id),
        conn: Connection {
            time: (rs[j].arrival_s - rs[i].arrival_s) as u64,
            trip_id: rs[i].trip_id,
        },
    }
}

/// A visit pair that rides nowhere extends the scan without change.
proof fn lemma_step_unchanged(rs: Seq<TripStopRecord>, es: Seq<ConnEdge>, i: int, j: int)
    requires
        0 <= i < rs.len(),
        0 <= j < rs.len(),
        routes_inv(rs, es, i, j),
        !connects(rs, i, j, rs[i].stop_id, rs[j].stop_id),
    ensures
        routes_inv(rs, es, i, j + 1),
{
    assert forall|k: int| 0 <= k < es.len() implies #[trigger] edge_witnessed(
        rs,
        es,
        i,
        j + 1,
        k,
    ) by {
        assert(edge_witnessed(rs, es, i, j, k));
        lemma_witness_mono(rs, es, i, j, k);
    }
}

/// A visit pair whose stop pair already has an entry at most as slow
/// extends the scan without change.
proof fn lemma_step_existing(rs: Seq<TripStopRecord>, es: Seq<ConnEdge>, i: int, j: int, k0: int)
    requires
        routes_inv(rs, es, i, j),
        connects(rs, i, j, rs[i].stop_id, rs[j].stop_id),
        0 <= k0 < es.len(),
        es[k0].from.0 == rs[i].stop_id,
        es[k0].to.0 == rs[j].stop_id,
        es[k0].conn.time <= rs[j].arrival_s - rs[i].arrival_s,
        forall|a: int, b: int|
            0 <= a < b < es.len() ==> !((#[trigger] es[a]).from.0 == (#[trigger] es[b]).from.0
                && es[a].to.0 == es[b].to.0),
    ensures
        routes_inv(rs, es, i, j + 1),
{
    assert forall|k: int| 0 <= k < es.len() implies #[trigger] edge_witnessed(
        rs,
        es,
        i,
        j + 1,
        k,
    ) by {
        assert(edge_witnessed(rs, es, i, j, k));
        lemma_witness_mono(rs, es, i, j, k);
    }
    assert forall|k: int, a: int, b: int|
        0 <= k < es.len() && before_pair(i, j + 1, a, b) && #[trigger] connects(
            rs,
            a,
            b,
            es[k].from.0,
            es[k].to.0,
        ) implies es[k].conn.time <= rs[b].arrival_s - rs[a].arrival_s by {
        if !before_pair(i, j, a, b) {
            assert(a == i && b == j);
            assert(es[k].from.0 == rs[i].stop_id && es[k].to.0 == rs[j].stop_id);
            if k != k0 {
                assert(false);
            }
        }
    }
}

/// A visit pair whose stop pair is new pushes its edge.
proof fn lemma_step_push(
    rs: Seq<TripStopRecord>,
    prev: Seq<ConnEdge>,
    es: Seq<ConnEdge>,
    i: int,
    j: int,
)
    requires
        routes_inv(rs, prev, i, j),
        connects(rs, i, j, rs[i].stop_id, rs[j].stop_id),
        !has_pair(prev, rs[i].stop_id, rs[j].stop_id),
        es == prev.push(edge_of(rs, i, j)),
    ensures
        routes_inv(rs, es, i, j + 1),
{
    let newe = edge_of(rs, i, j);
    assert forall|k: int| 0 <= k < es.len() implies #[trigger] edge_witnessed(
        rs,
        es,
        i,
        j + 1,
        k,
    ) by {
        if k < prev.len() {
            assert(edge_witnessed(rs, prev, i, j, k));
            lemma_witness_mono(rs, prev, i, j, k);
            assert(es[k] == prev[k]);
            lemma_witness_same_entry(rs, prev, es, i, j + 1, k);
        } else {
            assert(es[k] == newe);
            lemma_witness_self(rs, es, i, j, k);
        }
    }
    assert forall|k: int, a: int, b: int|
        0 <= k < es.len() && before_pair(i, j + 1, a, b) && #[trigger] connects(
            rs,
            a,
            b,
            es[k].from.0,
            es[k].to.0,
        ) implies es[k].conn.time <= rs[b].arrival_s - rs[a].arrival_s by {
        if k < prev.len() {
            assert(es[k] == prev[k]);
            if !before_pair(i, j, a, b) {
                assert(a == i && b == j);
                assert(prev[k].from.0 == rs[i].stop_id && prev[k].to.0 == rs[j].stop_id);
                assert(false);
            }
        } else {
            assert(es[k] == newe);
            if before_pair(i, j, a, b) {
                assert(rs[a].stop_id == newe.from.0 && rs[b].stop_id == newe.to.0);
                assert(has_pair(prev, rs[a].stop_id, rs[b].stop_id));
                assert(false);
            }
            assert(a == i && b == j);
        }
    }
    assert forall|a: int, b: int|
        before_pair(i, j + 1, a, b) && #[trigger] connects(rs, a, b, rs[a].stop_id, rs[b].stop_id)
            implies has_pair(es, rs[a].stop_id, rs[b].stop_id) by {
        if before_pair(i, j, a, b) {
            let k = choose|k: int|
                0 <= k < prev.len() && (#[trigger] prev[k]).from.0 == rs[a].stop_id
                    && prev[k].to.0 == rs[b].stop_id;
            assert((#[trigger] es[k]).from.0 == rs[a].stop_id && es[k].to.0 == rs[b].stop_id);
        } else {
            assert(a == i && b == j);
            assert((#[trigger] es[es.len() - 1]).from.0 == rs[a].stop_id && es[es.len()
                - 1].to.0 == rs[b].stop_id);
        }
    }
}

/// A visit pair faster than the existing entry of its stop pair relaxes it.
proof fn lemma_step_update(
    rs: Seq<TripStopRecord>,
    prev: Seq<ConnEdge>,
    es: Seq<ConnEdge>,
    i: int,
    j: int,
    k0: int,
)
    requires
        routes_inv(rs, prev, i, j),
        connects(rs, i, j, rs[i].stop_id, rs[j].stop_id),
        0 <= k0 < prev.len(),
        prev[k0].from.0 == rs[i].stop_id,
        prev[k0].to.0 == rs[j].stop_id,
        rs[j].arrival_s - rs[i].arrival_s < prev[k0].conn.time,
        es == prev.update(k0, edge_of(rs, i, j)),
        forall|a: int, b: int|
            0 <= a < b < prev.len() ==> !((#[trigger] prev[a]).from.0 == (#[trigger] prev[b]).from.0
                && prev[a].to.0 == prev[b].to.0),
    ensures
        routes_inv(rs, es, i, j + 1),
{
    let newe = edge_of(rs, i, j);
    assert forall|k: int| 0 <= k < es.len() implies #[trigger] edge_witnessed(
        rs,
        es,
        i,
        j + 1,
        k,
    ) by {
        if k != k0 {
            assert(edge_witnessed(rs, prev, i, j, k));
            lemma_witness_mono(rs, prev, i, j, k);
            assert(es[k] == prev[k]);
            lemma_witness_same_entry(rs, prev, es, i, j + 1, k);
        } else {
            assert(es[k] == newe);
            lemma_witness_self(rs, es, i, j, k);
        }
    }
    assert forall|k: int, a: int, b: int|
        0 <= k < es.len() && before_pair(i, j + 1, a, b) && #[trigger] connects(
            rs,
            a,
            b,
            es[k].from.0,
            es[k].to.0,
        ) implies es[k].conn.time <= rs[b].arrival_s - rs[a].arrival_s by {
        if k != k0 {
            assert(es[k] == prev[k]);
            if !before_pair(i, j, a, b) {
                assert(a == i && b == j);
                assert(prev[k].from.0 == rs[i].stop_id && prev[k].to.0 == rs[j].stop_id);
                assert(false);
            }
        } else {
            assert(es[k] == newe);
            if before_pair(i, j, a, b) {
                assert(connects(rs, a, b, prev[k0].from.0, prev[k0].to.0));
                assert(prev[k0].conn.time <= rs[b].arrival_s - rs[a].arrival_s);
            } else {
                assert(a == i && b == j);
            }
        }
    }
    assert forall|a: int, b: int|
        before_pair(i, j + 1, a, b) && #[trigger] connects(rs, a, b, rs[a].stop_id, rs[b].stop_id)
            implies has_pair(es, rs[a].stop_id, rs[b].stop_id) by {
        if before_pair(i, j, a, b) {
            let k = choose|k: int|
                0 <= k < prev.len() && (#[trigger] prev[k]).from.0 == rs[a].stop_id
                    && prev[k].to.0 == rs[b].stop_id;
            if k == k0 {
                assert((#[trigger] es[k0]).from.0 == rs[a].stop_id && es[k0].to.0
                    == rs[b].stop_id);
            } else {
                assert((#[trigger] es[k]).from.0 == rs[a].stop_id && es[k].to.0 == rs[b].stop_id);
            }
        } else {
            assert(a == i && b == j);
            assert((#[trigger] es[k0]).from.0 == rs[a].stop_id && es[k0].to.0 == rs[b].stop_id);
        }
    }
}

/// Folds the visit pairs `(i, 0) .. (i, n)` into the table.
#[verifier::loop_isolation(false)]
#[verifier::rlimit(100)]
fn scan_row(records: &Vec<TripStopRecord>, i: usize, tbl: &mut ConnectionTable)
    requires
        i < records@.len(),
        old(tbl).pairs_unique(),
        routes_inv(records@, old(tbl).edges@, i as int, 0),
    ensures
        final(tbl).pairs_unique(),
        routes_inv(records@, final(tbl).edges@, i as int + 1, 0),
{
    let n = records.len();
    let ri = records[i];
    for j in 0..n
        invariant
            tbl.pairs_unique(),
            routes_inv(records@, tbl.edges@, i as int, j as int),
        decreases n - j,
    {
        let rj = records[j];
        let ghost prev = tbl.edges@;
        if ri.trip_id == rj.trip_id && ri.stop_sequence < rj.stop_sequence && ri.arrival_s
            < rj.arrival_s {
            let time = rj.arrival_s - ri.arrival_s;
            let from = StopId(ri.stop_id);
            let to = StopId(rj.stop_id);
            proof {
                assert(connects(records@, i as int, j as int, from.0, to.0));
            }
            match tbl.find_pair(from, to) {
                None => {
                    tbl.edges.push(
                        ConnEdge { from, to, conn: Connection { time, trip_id: ri.trip_id } },
                    );
                    proof {
                        assert(tbl.edges@ == prev.push(edge_of(records@, i as int, j as int)));
                        assert forall|a: int, b: int|
                            0 <= a < b < tbl.edges@.len() implies !((#[trigger] tbl.edges@[a]).from.0
                            == (#[trigger] tbl.edges@[b]).from.0 && tbl.edges@[a].to.0
                            == tbl.edges@[b].to.0) by {
                            if b == tbl.edges@.len() - 1 {
                                if tbl.edges@[a].from.0 == from.0 && tbl.edges@[a].to.0 == to.0 {
                                    assert((#[trigger] prev[a]).from.0 == from.0 && prev[a].to.0
                                        == to.0);
                                }
                            }
                        }
                        lemma_step_push(records@, prev, tbl.edges@, i as int, j as int);
                    }
                },
                Some(k) => {
                    if time < tbl.edges[k].conn.time {
                        let _ = tbl.edges.remove(k);
                        tbl.edges.insert(
                            k,
                            ConnEdge { from, to, conn: Connection { time, trip_id: ri.trip_id } },
                        );
                        proof {
                            assert(tbl.edges@ =~= prev.update(
                                k as int,
                                edge_of(records@, i as int, j as int),
                            ));
                            assert forall|a: int, b: int|
                                0 <= a < b < tbl.edges@.len() implies !((
                                #[trigger] tbl.edges@[a]).from.0 == (
                                #[trigger] tbl.edges@[b]).from.0 && tbl.edges@[a].to.0
                                == tbl.edges@[b].to.0) by {
                                assert(tbl.edges@[a].from.0 == prev[a].from.0 && tbl.edges@[a].to.0
                                    == prev[a].to.0);
                                assert(tbl.edges@[b].from.0 == prev[b].from.0 && tbl.edges@[b].to.0
                                    == prev[b].to.0);
                            }
                            lemma_step_update(
                                records@,
                                prev,
                                tbl.edges@,
                                i as int,
                                j as int,
                                k as int,
                            );
                        }
                    } else {
                        proof {
                            lemma_step_existing(
                                records@,
                                tbl.edges@,
                                i as int,
                                j as int,
                                k as int,
                            );
                        }
                    }
                },
            }
        } else {
            proof {
                lemma_step_unchanged(records@, tbl.edges@, i as int, j as int);
            }
        }
    }
    proof {
        assert forall|k: int| 0 <= k < tbl.edges@.len() implies #[trigger] edge_witnessed(
            records@,
            tbl.edges@,
            i as int + 1,
            0,
            k,
        ) by {
            assert(edge_witnessed(records@, tbl.edges@, i as int, n as int, k));
            let (a, b) = choose|a: int, b: int|
                {
                    &&& before_pair(i as int, n as int, a, b)
                    &&& #[trigger] connects(
                        records@,
                        a,
                        b,
                        tbl.edges@[k].from.0,
                        tbl.edges@[k].to.0,
                    )
                    &&& tbl.edges@[k].conn.time == records@[b].arrival_s - records@[a].arrival_s
                    &&& tbl.edges@[k].conn.trip_id == records@[a].trip_id
                };
            assert(before_pair(i as int + 1, 0, a, b));
        }
        assert forall|k: int, a: int, b: int|
            0 <= k < tbl.edges@.len() && before_pair(i as int + 1, 0, a, b) && #[trigger] connects(
                records@,
                a,
                b,
                tbl.edges@[k].from.0,
                tbl.edges@[k].to.0,
            ) implies tbl.edges@[k].conn.time <= records@[b].arrival_s - records@[a].arrival_s by {
            assert(before_pair(i as int, n as int, a, b));
        }
        assert forall|a: int, b: int|
            before_pair(i as int + 1, 0, a, b) && #[trigger] connects(
                records@,
                a,
                b,
                records@[a].stop_id,
                records@[b].stop_id,
            ) implies has_pair(tbl.edges@, records@[a].stop_id, records@[b].stop_id) by {
            assert(before_pair(i as int, n as int, a, b));
        }
    }
}

/// Derives the scheduled-connection table from trip stop visits: one entry
/// per ordered stop pair some trip rides between, carrying the minimum
/// observed travel time across all witnessing visit pairs, and the trip of
/// one minimal witness.
#[verifier::loop_isolation(false)]
pub fn build_routes(records: &Vec<TripStopRecord>) -> (tbl: ConnectionTable)
    ensures
        tbl.pairs_unique(),
        forall|k: int|
            0 <= k < tbl.edges@.len() ==> #[trigger] edge_witnessed(
                records@,
                tbl.edges@,
                records@.len() as int,
                0,
                k,
            ),
        forall|k: int, a: int, b: int|
            0 <= k < tbl.edges@.len() && #[trigger] connects(
                records@,
                a,
                b,
                tbl.edges@[k].from.0,
                tbl.edges@[k].to.0,
            ) ==> tbl.edges@[k].conn.time <= records@[b].arrival_s - records@[a].arrival_s,
        forall|a: int, b: int|
            #[trigger] connects(records@, a, b, records@[a].stop_id, records@[b].stop_id)
                ==> has_pair(tbl.edges@, records@[a].stop_id, records@[b].stop_id),
{
    let n = records.len();
    let mut tbl = ConnectionTable::new();
    for i in 0..n
        invariant
            tbl.pairs_unique(),
            routes_inv(records@, tbl.edges@, i as int, 0),
    {
        scan_row(records, i, &mut tbl);
    }
    proof {
        assert forall|k: int, a: int, b: int|
            0 <= k < tbl.edges@.len() && #[trigger] connects(
                records@,
                a,
                b,
                tbl.edges@[k].from.0,
                tbl.edges@[k].to.0,
            ) implies tbl.edges@[k].conn.time <= records@[b].arrival_s - records@[a].arrival_s by {
            assert(before_pair(n as int, 0, a, b));
        }
        assert forall|a: int, b: int| #[trigger]
            connects(records@, a, b, records@[a].stop_id, records@[b].stop_id) implies has_pair(
            tbl.edges@,
            records@[a].stop_id,
            records@[b].stop_id,
        ) by {
            assert(before_pair(n as int, 0, a, b));
        }
    }
    tbl
}

} // verus!
