//! Corridors: the segments that share one coordinate line, and the greedy
//! assignment of non-overlapping tracks to them.
use vstd::prelude::*;
use vstd::seq_lib::*;
use vstd::set_lib::*;
use crate::chain::Movement;
use crate::fixed::{Fixed, ONE};
use crate::small::{
    flag_items, pair_items, pair_list_get, pair_list_insert, pair_list_len, pair_list_new,
    pair_list_push, pair_list_set, track_flags_clear, track_flags_get, track_flags_grow,
    track_flags_len, track_flags_new, track_flags_set, PairList,
};

verus! {

/// Minimum gap between adjacent tracks, in raw fixed-point units.
pub const MIN_WIRE_SPACING: i64 = 2 * ONE;

/// One segment projected onto the line of its corridor.
#[derive(Clone, Copy, Debug, PartialEq, Eq, Structural, Hash)]
pub struct VertexPair {
    /// Lower end of the segment's extent along the line.
    pub start_inclusive: Fixed,
    /// Upper end of the segment's extent along the line.
    pub end_inclusive: Fixed,
    /// Position of the segment's net in the circuit.
    pub net: usize,
    /// Index of the segment's first vertex in its net's chain.
    pub index: usize,
    /// How freely the segment may be displaced.
    pub movement: Movement,
    /// The assigned track, once tracks are assigned.
    pub track: usize,
}

/// A segment of a net, as reported by diagnostics.
#[derive(Clone, Copy, Debug, PartialEq, Eq, Structural, Hash)]
pub struct SegmentRef {
    pub net: usize,
    pub index: usize,
}

/// All segments that lie on one coordinate line.
pub struct Corridor {
    /// The shared coordinate (a `y` for horizontal, an `x` for vertical).
    pub coordinate: Fixed,
    /// Locked pairs first, then restricted ones, then free ones.
    pub pairs: PairList,
    /// Length of the locked prefix of `pairs`.
    pub locked_pairs: usize,
    /// Number of distinct tracks in use, once tracks are assigned.
    pub track_count: usize,
}

/// A corridor as a mathematical value.
pub struct CorridorView {
    pub coordinate: Fixed,
    pub pairs: Seq<VertexPair>,
    pub locked_pairs: int,
}

impl View for Corridor {
    type V = CorridorView;

    open spec fn view(&self) -> CorridorView {
        CorridorView {
            coordinate: self.coordinate,
            pairs: pair_items(self.pairs),
            locked_pairs: self.locked_pairs as int,
        }
    }
}

/// The pair's extent lies within the accepted coordinate range.
pub open spec fn pair_in_range(p: VertexPair) -> bool {
    p.start_inclusive.in_range() && p.end_inclusive.in_range()
}

/// Two extents come closer than the minimum spacing.
pub open spec fn overlaps_spec(p: VertexPair, q: VertexPair) -> bool {
    !(p.start_inclusive.val() - MIN_WIRE_SPACING > q.end_inclusive.val()
        || p.end_inclusive.val() + MIN_WIRE_SPACING < q.start_inclusive.val())
}

/// The pair list is ordered locked, then restricted, then free, and the
/// locked pairs are exactly the first `locked` ones.
pub open spec fn pairs_ordered(ps: Seq<VertexPair>, locked: int) -> bool {
    &&& 0 <= locked <= ps.len()
    &&& forall|i: int| 0 <= i < ps.len() ==> (i < locked <==> #[trigger] ps[i].movement
        == Movement::Locked)
    &&& forall|i: int, j: int|
        locked <= i < j < ps.len() && #[trigger] ps[j].movement == Movement::Restricted
            ==> #[trigger] ps[i].movement == Movement::Restricted
}

/// Where a pair of class `m` goes in a list whose locked prefix has length
/// `locked`.
pub open spec fn insert_pair_spec(ps: Seq<VertexPair>, locked: int, p: VertexPair, m: Movement) -> Seq<VertexPair> {
    match m {
        Movement::Free => ps.push(p),
        _ => ps.insert(locked, p),
    }
}

/// The locked prefix after inserting a pair of class `m`.
pub open spec fn insert_locked_spec(locked: int, m: Movement) -> int {
    if m == Movement::Locked { locked + 1 } else { locked }
}

/// Inserting a pair by its class keeps the list ordered, and adds nothing
/// but that pair.
pub proof fn lemma_insert_keeps_order(ps: Seq<VertexPair>, locked: int, p: VertexPair)
    requires
        pairs_ordered(ps, locked),
    ensures
        pairs_ordered(insert_pair_spec(ps, locked, p, p.movement), insert_locked_spec(locked, p.movement)),
        insert_pair_spec(ps, locked, p, p.movement).len() == ps.len() + 1,
        forall|k: int|
            0 <= k < ps.len() + 1 ==> #[trigger] insert_pair_spec(ps, locked, p, p.movement)[k] == p
                || ps.contains(insert_pair_spec(ps, locked, p, p.movement)[k]),
{
    let movement = p.movement;
    let nps = insert_pair_spec(ps, locked, p, movement);
    let nl = insert_locked_spec(locked, movement);
    assert forall|i: int| 0 <= i < nps.len() implies (i < nl <==> #[trigger] nps[i].movement
        == Movement::Locked) by {
        if movement != Movement::Free {
            if i < locked {
                assert(nps[i] == ps[i]);
            } else if i > locked {
                assert(nps[i] == ps[i - 1]);
            }
        } else if i < ps.len() {
            assert(nps[i] == ps[i]);
        }
    }
    assert forall|i: int, j: int|
        nl <= i < j < nps.len() && #[trigger] nps[j].movement == Movement::Restricted
            implies #[trigger] nps[i].movement == Movement::Restricted by {
        if movement == Movement::Free {
            assert(nps[i] == ps[i]);
            assert(nps[j] == ps[j]);
        } else if movement == Movement::Restricted {
            if i > locked {
                assert(nps[i] == ps[i - 1]);
                assert(nps[j] == ps[j - 1]);
            }
        } else {
            assert(nps[i] == ps[i - 1]);
            assert(nps[j] == ps[j - 1]);
        }
    }
    assert forall|k: int| 0 <= k < ps.len() + 1 implies #[trigger] nps[k] == p || ps.contains(nps[k]) by {
        if movement != Movement::Free {
            if k < locked {
                assert(nps[k] == ps[k]);
            } else if k > locked {
                assert(nps[k] == ps[k - 1]);
            }
        } else if k < ps.len() {
            assert(nps[k] == ps[k]);
        }
    }
}

/// The tracks in use by the pairs before `i` whose extents overlap pair `i`.
pub open spec fn used_tracks(ps: Seq<VertexPair>, ts: Seq<int>, i: int) -> Set<int> {
    Set::new(|t: int| exists|j: int| 0 <= j < i && overlaps_spec(ps[j], ps[i]) && ts[j] == t)
}

/// `t` is the smallest non-negative integer not in `s`.
pub open spec fn is_lowest_free(s: Set<int>, t: int) -> bool {
    &&& 0 <= t
    &&& !s.contains(t)
    &&& forall|u: int| 0 <= u < t ==> s.contains(u)
}

/// The smallest non-negative integer not in `s`.
pub open spec fn lowest_free(s: Set<int>) -> int {
    choose|t: int| is_lowest_free(s, t)
}

/// Greedy colouring: the tracks of the first `n` pairs. A locked pair takes
/// track 0; any other pair takes the lowest track that no earlier pair with
/// an overlapping extent holds.
pub open spec fn tracks_upto(ps: Seq<VertexPair>, locked: int, n: int) -> Seq<int>
    decreases n,
{
    if n <= 0 {
        Seq::empty()
    } else {
        let ts = tracks_upto(ps, locked, n - 1);
        ts.push(if n - 1 < locked { 0 } else { lowest_free(used_tracks(ps, ts, n - 1)) })
    }
}

/// The track of every pair of the list.
pub open spec fn tracks_of(ps: Seq<VertexPair>, locked: int) -> Seq<int> {
    tracks_upto(ps, locked, ps.len() as int)
}

/// Track 0 stays on the line; further tracks fan out alternately above and
/// below it: 1 to +1, 2 to -1, 3 to +2, 4 to -2, ...
pub open spec fn track_offset_spec(t: int) -> int {
    if t % 2 == 0 { -(t / 2) } else { t / 2 + 1 }
}

/// The locked pairs, in order, whose extent overlaps that of an earlier
/// locked pair: overlaps that no track can resolve.
pub open spec fn locked_conflicts_upto(ps: Seq<VertexPair>, n: int) -> Seq<SegmentRef>
    decreases n,
{
    if n <= 0 {
        Seq::empty()
    } else {
        let rest = locked_conflicts_upto(ps, n - 1);
        if exists|j: int| 0 <= j < n - 1 && overlaps_spec(ps[n - 1], #[trigger] ps[j]) {
            rest.push(SegmentRef { net: ps[n - 1].net, index: ps[n - 1].index })
        } else {
            rest
        }
    }
}

/// `tracks_upto` gives one track per pair.
pub proof fn lemma_tracks_upto_len(ps: Seq<VertexPair>, locked: int, n: int)
    requires
        0 <= n,
    ensures
        tracks_upto(ps, locked, n).len() == n,
    decreases n,
{
    if n > 0 {
        lemma_tracks_upto_len(ps, locked, n - 1);
    }
}

/// `tracks_upto` for a shorter prefix is a prefix of it for a longer one.
pub proof fn lemma_tracks_upto_prefix(ps: Seq<VertexPair>, locked: int, m: int, n: int)
    requires
        0 <= m <= n,
    ensures
        tracks_upto(ps, locked, n).len() == n,
        forall|i: int| 0 <= i < m ==> tracks_upto(ps, locked, n)[i] == #[trigger] tracks_upto(ps, locked, m)[i],
    decreases n,
{
    lemma_tracks_upto_len(ps, locked, n);
    lemma_tracks_upto_len(ps, locked, m);
    if m < n {
        lemma_tracks_upto_prefix(ps, locked, m, n - 1);
    }
}

/// The lowest free integer is the only one with that property.
pub proof fn lemma_lowest_free_unique(s: Set<int>, t: int)
    requires
        is_lowest_free(s, t),
    ensures
        lowest_free(s) == t,
{
    let u = lowest_free(s);
    assert(is_lowest_free(s, u));
    if u < t {
        assert(s.contains(u));
    } else if t < u {
        assert(s.contains(t));
    }
}

proof fn lemma_lowest_below(s: Set<int>, t0: int)
    requires
        0 <= t0,
        !s.contains(t0),
    ensures
        is_lowest_free(s, lowest_free(s)),
        lowest_free(s) <= t0,
    decreases t0,
{
    if forall|u: int| 0 <= u < t0 ==> s.contains(u) {
        assert(is_lowest_free(s, t0));
        lemma_lowest_free_unique(s, t0);
    } else {
        let u = choose|u: int| 0 <= u < t0 && !s.contains(u);
        lemma_lowest_below(s, u);
    }
}

/// The tracks held by `i` earlier pairs leave a track at most `i` free, so
/// the lowest free track exists and is at most `i`.
pub proof fn lemma_lowest_free_exists(ps: Seq<VertexPair>, ts: Seq<int>, i: int)
    requires
        0 <= i <= ts.len(),
    ensures
        is_lowest_free(used_tracks(ps, ts, i), lowest_free(used_tracks(ps, ts, i))),
        lowest_free(used_tracks(ps, ts, i)) <= i,
{
    let s = used_tracks(ps, ts, i);
    let held = ts.take(i).to_set();
    let range = set_int_range(0, i + 1);
    assert(s.subset_of(held)) by {
        assert forall|t: int| s.contains(t) implies held.contains(t) by {
            let j = choose|j: int| 0 <= j < i && overlaps_spec(ps[j], ps[i]) && ts[j] == t;
            assert(ts.take(i)[j] == t);
        }
    }
    ts.take(i).lemma_cardinality_of_set();
    lemma_int_range(0, i + 1);
    if forall|t: int| 0 <= t <= i ==> s.contains(t) {
        assert(range.subset_of(held));
        lemma_len_subset(range, held);
        assert(false);
    }
    let t0 = choose|t: int| 0 <= t <= i && !s.contains(t);
    lemma_lowest_below(s, t0);
}

/// Every track is non-negative and at most the pair's position.
pub proof fn lemma_tracks_bounded(ps: Seq<VertexPair>, locked: int, n: int)
    requires
        0 <= n,
    ensures
        tracks_upto(ps, locked, n).len() == n,
        forall|i: int| 0 <= i < n ==> 0 <= #[trigger] tracks_upto(ps, locked, n)[i] <= i,
    decreases n,
{
    lemma_tracks_upto_len(ps, locked, n);
    if n > 0 {
        lemma_tracks_bounded(ps, locked, n - 1);
        let ts = tracks_upto(ps, locked, n - 1);
        if n - 1 >= locked {
            lemma_lowest_free_exists(ps, ts, n - 1);
        }
    }
}

impl VertexPair {
    /// Whether the two extents come closer than the minimum spacing.
    pub fn overlaps(&self, other: &VertexPair) -> (r: bool)
        requires
            pair_in_range(*self),
            pair_in_range(*other),
        ensures
            r == overlaps_spec(*self, *other),
    {
        !((self.start_inclusive.raw - MIN_WIRE_SPACING > other.end_inclusive.raw)
            || (self.end_inclusive.raw + MIN_WIRE_SPACING < other.start_inclusive.raw))
    }
}

/// Offset of a track from the corridor's line, in units of the spacing.
pub fn track_offset(track: usize) -> (r: i64)
    requires
        track < i64::MAX,
    ensures
        r == track_offset_spec(track as int),
{
    if track % 2 == 0 {
        -((track / 2) as i64)
    } else {
        (track / 2 + 1) as i64
    }
}

impl Corridor {
    /// The corridor's invariant: pairs ordered by class, extents in range.
    pub open spec fn wf(&self) -> bool {
        &&& pairs_ordered(pair_items(self.pairs), self.locked_pairs as int)
        &&& forall|i: int| 0 <= i < pair_items(self.pairs).len() ==> pair_in_range(#[trigger] pair_items(self.pairs)[i])
    }

    /// The tracks that greedy colouring gives this corridor's pairs.
    pub open spec fn tracks(&self) -> Seq<int> {
        tracks_of(pair_items(self.pairs), self.locked_pairs as int)
    }

    /// Number of pairs in the corridor.
    pub fn len(&self) -> (r: usize)
        ensures
            r == pair_items(self.pairs).len(),
    {
        pair_list_len(&self.pairs)
    }

    /// The pair at position `i` of the list.
    pub fn pair(&self, i: usize) -> (r: VertexPair)
        requires
            i < pair_items(self.pairs).len(),
        ensures
            r == pair_items(self.pairs)[i as int],
    {
        pair_list_get(&self.pairs, i)
    }

    /// An empty corridor on the line `coordinate`.
    pub fn new(coordinate: Fixed) -> (r: Corridor)
        ensures
            r.coordinate == coordinate,
            pair_items(r.pairs).len() == 0,
            r.locked_pairs == 0,
            r.track_count == 0,
            r.wf(),
    {
        Corridor { coordinate, pairs: pair_list_new(), locked_pairs: 0, track_count: 0 }
    }

    /// Adds the extent `[start_inclusive, end_inclusive]` of segment `index`
    /// of net `net`: a locked pair goes to the end of the locked prefix, a
    /// restricted one right after it, a free one at the end.
    pub fn insert(
        &mut self,
        start_inclusive: Fixed,
        end_inclusive: Fixed,
        net: usize,
        index: usize,
        movement: Movement,
    )
        requires
            old(self).wf(),
            pair_items(old(self).pairs).len() < usize::MAX,
            start_inclusive.in_range(),
            end_inclusive.in_range(),
        ensures
            final(self).wf(),
            final(self).coordinate == old(self).coordinate,
            final(self).track_count == old(self).track_count,
            pair_items(final(self).pairs) == insert_pair_spec(
                pair_items(old(self).pairs),
                old(self).locked_pairs as int,
                (VertexPair { start_inclusive, end_inclusive, net, index, movement, track: 0 }),
                movement,
            ),
            final(self).locked_pairs == insert_locked_spec(old(self).locked_pairs as int, movement),
    {
        let pair = VertexPair { start_inclusive, end_inclusive, net, index, movement, track: 0 };
        let ghost ps = pair_items(self.pairs);
        let ghost locked = self.locked_pairs as int;
        match movement {
            Movement::Free => {
                pair_list_push(&mut self.pairs, pair);
            },
            Movement::Restricted => {
                // Restricted pairs come first among the movable ones, so that
                // they are displaced as little as possible.
                pair_list_insert(&mut self.pairs, self.locked_pairs, pair);
            },
            Movement::Locked => {
                pair_list_insert(&mut self.pairs, self.locked_pairs, pair);
                self.locked_pairs += 1;
            },
        }
        proof {
            lemma_insert_keeps_order(ps, locked, pair);
            let nps = pair_items(self.pairs);
            assert forall|i: int| 0 <= i < nps.len() implies pair_in_range(#[trigger] nps[i]) by {
                if nps[i] != pair {
                    let j = choose|j: int| 0 <= j < ps.len() && ps[j] == nps[i];
                }
            }
        }
    }
}


/// The pairs `ps` with the tracks `ts` written into them.
pub open spec fn with_tracks(ps: Seq<VertexPair>, ts: Seq<int>) -> Seq<VertexPair> {
    Seq::new(ps.len(), |i: int| VertexPair { track: ts[i] as usize, ..ps[i] })
}

impl Corridor {
    /// Greedy interval colouring. Locked pairs all take track 0, and those
    /// whose extent overlaps an earlier locked pair are returned, as they
    /// cannot be separated. Every other pair, in list order, takes the lowest
    /// track that no earlier pair with an overlapping extent holds.
    pub fn assign_tracks(&mut self) -> (conflicts: Vec<SegmentRef>)
        requires
            old(self).wf(),
        ensures
            final(self).wf(),
            final(self).coordinate == old(self).coordinate,
            final(self).locked_pairs == old(self).locked_pairs,
            pair_items(final(self).pairs) == with_tracks(pair_items(old(self).pairs), old(self).tracks()),
            forall|i: int| 0 <= i < pair_items(old(self).pairs).len() ==> #[trigger] old(self).tracks()[i] < final(self).track_count,
            pair_items(old(self).pairs).len() == 0 ==> final(self).track_count == 0,
            pair_items(old(self).pairs).len() > 0 ==> exists|i: int|
                0 <= i < pair_items(old(self).pairs).len() && #[trigger] old(self).tracks()[i] + 1 == final(self).track_count,
            conflicts@ == locked_conflicts_upto(pair_items(old(self).pairs), old(self).locked_pairs as int),
            forall|i: int, j: int|
                0 <= i < j < pair_items(final(self).pairs).len() && final(self).locked_pairs <= j
                    && overlaps_spec(pair_items(final(self).pairs)[j], pair_items(final(self).pairs)[i])
                    ==> #[trigger] pair_items(final(self).pairs)[i].track != #[trigger] pair_items(final(self).pairs)[j].track,
    {
        let ghost ps = pair_items(self.pairs);
        let ghost locked = self.locked_pairs as int;
        let ghost ts = tracks_of(ps, locked);
        let n = pair_list_len(&self.pairs);
        proof {
            lemma_tracks_bounded(ps, locked, n as int);
        }
        let mut conflicts: Vec<SegmentRef> = Vec::new();
        let mut used_flags = track_flags_new();
        self.track_count = 0;
        let mut i: usize = 0;
        while i < self.locked_pairs
            invariant
                self.wf(),
                n == ps.len() == pair_items(self.pairs).len(),
                locked == self.locked_pairs,
                ts == tracks_of(ps, locked),
                ts.len() == n,
                i <= locked,
                forall|k: int| 0 <= k < n ==> pair_in_range(#[trigger] ps[k]),
                forall|j: int| 0 <= j < n ==> 0 <= #[trigger] ts[j] <= j,
                forall|j: int| 0 <= j < i ==> pair_items(self.pairs)[j] == (VertexPair { track: ts[j] as usize, ..ps[j] }),
                forall|j: int| i <= j < n ==> pair_items(self.pairs)[j] == ps[j],
                forall|j: int| 0 <= j < i ==> ts[j] < self.track_count,
                i == 0 ==> self.track_count == 0,
                i > 0 ==> self.track_count == 1,
                conflicts@ == locked_conflicts_upto(ps, i as int),
                self.coordinate == old(self).coordinate,
                ps == pair_items(old(self).pairs),
                locked == old(self).locked_pairs,
            decreases locked - i,
        {
            let current = pair_list_get(&self.pairs, i);
            let mut clash = false;
            let mut j: usize = 0;
            while j < i
                invariant
                    self.wf(),
                    n == ps.len() == pair_items(self.pairs).len(),
                    i < locked <= n,
                    j <= i,
                    current == ps[i as int],
                    forall|k: int| 0 <= k < n ==> pair_in_range(#[trigger] ps[k]),
                    forall|k: int| 0 <= k < i ==> pair_items(self.pairs)[k] == (VertexPair { track: ts[k] as usize, ..ps[k] }),
                    clash <==> exists|k: int| 0 <= k < j && overlaps_spec(ps[i as int], #[trigger] ps[k]),
                decreases i - j,
            {
                if current.overlaps(&pair_list_get(&self.pairs, j)) {
                    clash = true;
                }
                proof {
                    assert(pair_items(self.pairs)[j as int].start_inclusive == ps[j as int].start_inclusive);
                    assert(pair_items(self.pairs)[j as int].end_inclusive == ps[j as int].end_inclusive);
                }
                j += 1;
            }
            if clash {
                conflicts.push(SegmentRef { net: current.net, index: current.index });
            }
            proof {
                lemma_tracks_upto_prefix(ps, locked, i + 1, n as int);
                lemma_tracks_upto_len(ps, locked, i as int);
                assert(tracks_upto(ps, locked, i as int + 1)[i as int] == 0);
                assert(ts[i as int] == 0);
            }
            pair_list_set(&mut self.pairs, i, VertexPair { track: 0, ..current });
            self.track_count = 1;
            i += 1;
        }
        proof {
            if locked > 0 {
                assert(ts[0] + 1 == self.track_count);
            }
        }
        let mut i: usize = self.locked_pairs;
        while i < n
            invariant
                self.wf(),
                n == ps.len() == pair_items(self.pairs).len(),
                locked == self.locked_pairs,
                ts == tracks_of(ps, locked),
                ts.len() == n,
                locked <= i <= n,
                forall|k: int| 0 <= k < n ==> pair_in_range(#[trigger] ps[k]),
                forall|j: int| 0 <= j < n ==> 0 <= #[trigger] ts[j] <= j,
                forall|j: int| 0 <= j < i ==> pair_items(self.pairs)[j] == (VertexPair { track: ts[j] as usize, ..ps[j] }),
                forall|j: int| i <= j < n ==> pair_items(self.pairs)[j] == ps[j],
                forall|j: int| 0 <= j < i ==> #[trigger] ts[j] < self.track_count,
                i == 0 ==> self.track_count == 0,
                i > 0 ==> exists|j: int| 0 <= j < i && #[trigger] ts[j] + 1 == self.track_count,
                conflicts@ == locked_conflicts_upto(ps, locked),
                self.coordinate == old(self).coordinate,
                ps == pair_items(old(self).pairs),
                locked == old(self).locked_pairs,
            decreases n - i,
        {
            let current = pair_list_get(&self.pairs, i);
            let ghost prefix = tracks_upto(ps, locked, i as int);
            proof {
                lemma_tracks_upto_prefix(ps, locked, i as int, n as int);
                lemma_tracks_upto_prefix(ps, locked, i as int + 1, n as int);
                lemma_tracks_upto_len(ps, locked, i as int);
                lemma_lowest_free_exists(ps, prefix, i as int);
                assert(ts[i as int] == tracks_upto(ps, locked, i as int + 1)[i as int]);
            }
            let ghost used = used_tracks(ps, prefix, i as int);
            track_flags_clear(&mut used_flags);
            let mut j: usize = 0;
            while j < i
                invariant
                    self.wf(),
                    n == ps.len() == pair_items(self.pairs).len(),
                    locked <= i < n,
                    j <= i,
                    current == ps[i as int],
                    forall|k: int| 0 <= k < n ==> pair_in_range(#[trigger] ps[k]),
                    prefix.len() == i,
                    forall|k: int| 0 <= k < i ==> prefix[k] == ts[k],
                    forall|k: int| 0 <= k < n ==> 0 <= #[trigger] ts[k] <= k,
                    forall|k: int| 0 <= k < i ==> pair_items(self.pairs)[k] == (VertexPair { track: ts[k] as usize, ..ps[k] }),
                    flag_items(used_flags).len() <= i,
                    forall|t: int| 0 <= t < flag_items(used_flags).len() ==> (#[trigger] flag_items(used_flags)[t] <==> exists|k: int|
                        0 <= k < j && overlaps_spec(ps[k], ps[i as int]) && prefix[k] == t),
                    forall|k: int| 0 <= k < j && overlaps_spec(ps[k], ps[i as int]) ==> #[trigger] prefix[k] < flag_items(used_flags).len(),
                decreases i - j,
            {
                let other = pair_list_get(&self.pairs, j);
                proof {
                    assert(other.start_inclusive == ps[j as int].start_inclusive);
                    assert(other.end_inclusive == ps[j as int].end_inclusive);
                }
                let ghost before = flag_items(used_flags);
                if other.overlaps(&current) {
                    if track_flags_len(&used_flags) <= other.track {
                        track_flags_grow(&mut used_flags, other.track + 1);
                    }
                    track_flags_set(&mut used_flags, other.track);
                }
                proof {
                    let fl = flag_items(used_flags);
                    assert forall|t: int| 0 <= t < fl.len() implies (#[trigger] fl[t] <==> exists|k: int|
                        0 <= k < j + 1 && overlaps_spec(ps[k], ps[i as int]) && prefix[k] == t) by {
                        if overlaps_spec(ps[j as int], ps[i as int]) && prefix[j as int] == t {
                            assert(fl[t]);
                        }
                        if t >= before.len() && fl[t] {
                            assert(t == other.track);
                        }
                        if t < before.len() && before[t] {
                            let k = choose|k: int| 0 <= k < j && overlaps_spec(ps[k], ps[i as int]) && prefix[k] == t;
                        }
                    }
                }
                j += 1;
            }
            let len = track_flags_len(&used_flags);
            let mut t: usize = 0;
            while t < len && track_flags_get(&used_flags, t)
                invariant
                    len == flag_items(used_flags).len(),
                    0 <= t <= len,
                    len <= i,
                    forall|u: int| 0 <= u < t ==> used.contains(u),
                    forall|u: int| 0 <= u < len ==> (flag_items(used_flags)[u] <==> used.contains(u)),
                    forall|u: int| used.contains(u) ==> u < len,
                decreases len - t,
            {
                t += 1;
            }
            proof {
                assert(is_lowest_free(used, t as int));
                lemma_lowest_free_unique(used, t as int);
            }
            pair_list_set(&mut self.pairs, i, VertexPair { track: t, ..current });
            if self.track_count < t + 1 {
                self.track_count = t + 1;
            }
            i += 1;
        }
        proof {
            assert(pair_items(self.pairs) =~= with_tracks(ps, ts));
            assert(ts == old(self).tracks());
            if n > 0 {
                let j = choose|j: int| 0 <= j < n && #[trigger] ts[j] + 1 == self.track_count;
                assert(old(self).tracks()[j] + 1 == self.track_count);
            }
            let fp = pair_items(self.pairs);
            assert forall|i: int, j: int|
                0 <= i < j < fp.len() && self.locked_pairs <= j && overlaps_spec(fp[j], fp[i])
                    implies #[trigger] fp[i].track != #[trigger] fp[j].track by {
                lemma_overlaps_symmetric(fp[j], fp[i]);
                lemma_overlapping_pairs_separated(ps, locked, i, j);
            }
        }
        conflicts
    }
}

/// Overlap of extents is symmetric.
pub proof fn lemma_overlaps_symmetric(p: VertexPair, q: VertexPair)
    ensures
        overlaps_spec(p, q) == overlaps_spec(q, p),
{
}

/// Distinct tracks have distinct offsets.
pub proof fn lemma_track_offset_injective(t: int, u: int)
    requires
        0 <= t,
        0 <= u,
        t != u,
    ensures
        track_offset_spec(t) != track_offset_spec(u),
{
}

/// Separation within a corridor: two pairs whose extents come closer than
/// the minimum spacing, and which are not both locked, are given different
/// tracks, and therefore different offsets from the corridor's line.
pub proof fn lemma_overlapping_pairs_separated(ps: Seq<VertexPair>, locked: int, i: int, j: int)
    requires
        0 <= locked <= ps.len(),
        0 <= i < ps.len(),
        0 <= j < ps.len(),
        i != j,
        !(i < locked && j < locked),
        overlaps_spec(ps[i], ps[j]),
    ensures
        tracks_of(ps, locked)[i] != tracks_of(ps, locked)[j],
        track_offset_spec(tracks_of(ps, locked)[i]) != track_offset_spec(tracks_of(ps, locked)[j]),
{
    let n = ps.len() as int;
    let ts = tracks_of(ps, locked);
    let (a, b) = if i < j { (i, j) } else { (j, i) };
    lemma_overlaps_symmetric(ps[i], ps[j]);
    lemma_tracks_bounded(ps, locked, n);
    lemma_tracks_upto_prefix(ps, locked, b, n);
    lemma_tracks_upto_prefix(ps, locked, b + 1, n);
    lemma_tracks_upto_len(ps, locked, b);
    let prefix = tracks_upto(ps, locked, b);
    let used = used_tracks(ps, prefix, b);
    lemma_lowest_free_exists(ps, prefix, b);
    assert(ts[b] == tracks_upto(ps, locked, b + 1)[b]);
    assert(ts[b] == lowest_free(used));
    assert(prefix[a] == ts[a]);
    assert(used.contains(ts[a]));
    lemma_track_offset_injective(ts[i], ts[j]);
}

/// Tracks depend on the extents of the pairs and their order alone: two
/// lists with the same extents in the same order, and the same locked
/// prefix, get the same tracks, whatever nets and segments they name.
pub proof fn lemma_tracks_depend_on_extents(ps: Seq<VertexPair>, qs: Seq<VertexPair>, locked: int, n: int)
    requires
        ps.len() == qs.len(),
        0 <= n <= ps.len(),
        forall|i: int| 0 <= i < ps.len() ==> (#[trigger] ps[i]).start_inclusive == qs[i].start_inclusive
            && ps[i].end_inclusive == qs[i].end_inclusive,
    ensures
        tracks_upto(ps, locked, n) == tracks_upto(qs, locked, n),
    decreases n,
{
    if n > 0 {
        lemma_tracks_depend_on_extents(ps, qs, locked, n - 1);
        let ts = tracks_upto(ps, locked, n - 1);
        assert(used_tracks(ps, ts, n - 1) =~= used_tracks(qs, ts, n - 1)) by {
            assert forall|j: int| 0 <= j < n - 1 implies overlaps_spec(#[trigger] ps[j], ps[n - 1]) == overlaps_spec(qs[j], qs[n - 1]) by {
                assert(ps[j].start_inclusive == qs[j].start_inclusive);
                assert(ps[n - 1].start_inclusive == qs[n - 1].start_inclusive);
            }
        }
    }
}

} // verus!
