//! The separation pass over all nets of a circuit.
use vstd::prelude::*;
use crate::chain::{
    chain_wf, check_chain, classify, classify_spec, is_wire_start, positions_of, shape_of, shape_wf,
    Movement, Vertex, VertexShape,
};
use crate::corridor::{
    insert_locked_spec, insert_pair_spec, is_lowest_free, lemma_insert_keeps_order,
    lemma_lowest_free_unique, lemma_tracks_bounded, lemma_tracks_upto_len, lemma_tracks_upto_prefix,
    locked_conflicts_upto, overlaps_spec, pair_in_range, pairs_ordered, track_offset,
    track_offset_spec, tracks_of, tracks_upto, used_tracks, with_tracks, Corridor, CorridorView,
    SegmentRef, VertexPair, MIN_WIRE_SPACING,
};
use crate::fixed::{Fixed, Point, COORD_LIMIT};
use crate::small::pair_items;
use crate::propagate::{
    abs_int, along, extent_from, find_min_max, lemma_extent_in_range,
    lemma_propagate_keeps_anchors, lemma_propagate_len, lemma_propagate_within, max_int, min_int,
    move_junctions, positions_in_range, positions_within, propagate,
};

verus! {

/// Largest number of vertices, over all nets, that one pass accepts.
pub const MAX_VERTICES: usize = 0x100_0000;

/// Bound on the magnitude of every raw coordinate after a pass.
pub const SEPARATED_LIMIT: i64 = 0x400_0000_0000;

/// A net: an identifier and its wire skeleton.
#[derive(Clone, Debug)]
pub struct Net {
    pub id: u64,
    pub vertices: Vec<Vertex>,
}

/// Number of vertices in the first `n` nets.
pub open spec fn total_vertices(nets: Seq<Net>, n: int) -> int
    decreases n,
{
    if n <= 0 {
        0
    } else {
        total_vertices(nets, n - 1) + nets[n - 1].vertices@.len()
    }
}

/// What a pass needs of its input: well-formed chains, coordinates in
/// range, and a total size for which every displaced coordinate stays in
/// range.
pub open spec fn layout_ok(nets: Seq<Net>) -> bool {
    &&& forall|i: int| 0 <= i < nets.len() ==> chain_wf(#[trigger] nets[i].vertices@)
    &&& forall|i: int| 0 <= i < nets.len() ==> positions_in_range(positions_of(#[trigger] nets[i].vertices@))
    &&& total_vertices(nets, nets.len() as int) <= MAX_VERTICES
    &&& nets.len() <= usize::MAX
}

/// Number of segments of a chain.
pub open spec fn segment_count(vs: Seq<Vertex>) -> int {
    if vs.len() == 0 { 0 } else { vs.len() - 1 }
}

/// The pair for segment `i` of net `net`: its extent along the line,
/// widened through corner junctions at both ends.
pub open spec fn segment_pair(vs: Seq<Vertex>, net: int, i: int, horizontal: bool, m: Movement) -> VertexPair {
    let sh = shape_of(vs);
    let pos = positions_of(vs);
    let a = along(pos[i], horizontal).val();
    let b = along(pos[i + 1], horizontal).val();
    let r1 = extent_from(sh, pos, i, horizontal, 0, min_int(a, b), max_int(a, b));
    let r2 = extent_from(sh, pos, i + 1, horizontal, 0, r1.0, r1.1);
    VertexPair {
        start_inclusive: Fixed { raw: r2.0 as i64 },
        end_inclusive: Fixed { raw: r2.1 as i64 },
        net: net as usize,
        index: i as usize,
        movement: m,
        track: 0,
    }
}

/// The corridor `c` with pair `p` inserted by its class.
pub open spec fn insert_view(c: CorridorView, p: VertexPair) -> CorridorView {
    CorridorView {
        coordinate: c.coordinate,
        pairs: insert_pair_spec(c.pairs, c.locked_pairs, p, p.movement),
        locked_pairs: insert_locked_spec(c.locked_pairs, p.movement),
    }
}

/// The corridors after adding `p` to the one on line `key`, or to a new
/// corridor appended for it.
pub open spec fn add_pair_spec(cs: Seq<CorridorView>, key: Fixed, p: VertexPair) -> Seq<CorridorView> {
    if exists|i: int| 0 <= i < cs.len() && (#[trigger] cs[i]).coordinate == key {
        let i = choose|i: int| 0 <= i < cs.len() && (#[trigger] cs[i]).coordinate == key;
        cs.update(i, insert_view(cs[i], p))
    } else {
        cs.push(insert_view(CorridorView { coordinate: key, pairs: Seq::empty(), locked_pairs: 0 }, p))
    }
}

/// Horizontal and vertical corridors.
pub type CorridorViews = (Seq<CorridorView>, Seq<CorridorView>);

/// Adds segment `i` of net `net` to the corridor of its line, if it takes
/// part in separation and is horizontal or vertical.
pub open spec fn add_segment(cs: CorridorViews, vs: Seq<Vertex>, net: int, i: int) -> CorridorViews {
    let a = vs[i];
    let b = vs[i + 1];
    match classify_spec(a.kind, b.kind) {
        None => cs,
        Some(m) => {
            if a.position.y == b.position.y {
                (add_pair_spec(cs.0, a.position.y, segment_pair(vs, net, i, true, m)), cs.1)
            } else if a.position.x == b.position.x {
                (cs.0, add_pair_spec(cs.1, a.position.x, segment_pair(vs, net, i, false, m)))
            } else {
                cs
            }
        },
    }
}

/// Adds the first `n` segments of net `net`.
pub open spec fn collect_net(cs: CorridorViews, vs: Seq<Vertex>, net: int, n: int) -> CorridorViews
    decreases n,
{
    if n <= 0 {
        cs
    } else {
        add_segment(collect_net(cs, vs, net, n - 1), vs, net, n - 1)
    }
}

/// The corridors of the first `n` nets.
pub open spec fn collect_upto(nets: Seq<Net>, n: int) -> CorridorViews
    decreases n,
{
    if n <= 0 {
        (Seq::empty(), Seq::empty())
    } else {
        collect_net(
            collect_upto(nets, n - 1),
            nets[n - 1].vertices@,
            n - 1,
            segment_count(nets[n - 1].vertices@),
        )
    }
}

/// The corridors of a circuit, in the order in which their line first
/// occurs.
pub open spec fn corridors_of(nets: Seq<Net>) -> CorridorViews {
    collect_upto(nets, nets.len() as int)
}

/// `p` names a segment of `nets` and carries its classification.
pub open spec fn pair_valid(p: VertexPair, nets: Seq<Net>) -> bool {
    &&& p.net < nets.len()
    &&& p.index + 1 < nets[p.net as int].vertices@.len()
    &&& pair_in_range(p)
    &&& p.track == 0
    &&& classify_spec(
        nets[p.net as int].vertices@[p.index as int].kind,
        nets[p.net as int].vertices@[p.index + 1].kind,
    ) == Some(p.movement)
}

/// Corridor lists as collection builds them: distinct lines in range, pairs
/// ordered by class, valid, and at most `bound` per corridor.
pub open spec fn corridors_valid(cs: Seq<CorridorView>, nets: Seq<Net>, bound: int) -> bool {
    &&& forall|i: int, j: int|
        0 <= i < j < cs.len() ==> (#[trigger] cs[i]).coordinate != (#[trigger] cs[j]).coordinate
    &&& forall|i: int|
        0 <= i < cs.len() ==> {
            &&& (#[trigger] cs[i]).coordinate.in_range()
            &&& pairs_ordered(cs[i].pairs, cs[i].locked_pairs)
            &&& cs[i].pairs.len() <= bound
            &&& forall|k: int| 0 <= k < cs[i].pairs.len() ==> pair_valid(#[trigger] cs[i].pairs[k], nets)
        }
}

/// The views of a list of corridors.
pub open spec fn views(cs: Seq<Corridor>) -> Seq<CorridorView> {
    cs.map_values(|c: Corridor| c@)
}

proof fn lemma_total_vertices_monotone(nets: Seq<Net>, m: int, n: int)
    requires
        0 <= m <= n <= nets.len(),
    ensures
        total_vertices(nets, m) <= total_vertices(nets, n),
    decreases n - m,
{
    if m < n {
        lemma_total_vertices_monotone(nets, m, n - 1);
    }
}

proof fn lemma_net_within_total(nets: Seq<Net>, net: int, n: int)
    requires
        0 <= net < n <= nets.len(),
    ensures
        0 <= total_vertices(nets, net),
        total_vertices(nets, net) + nets[net].vertices@.len() <= total_vertices(nets, n),
    decreases n,
{
    lemma_total_vertices_monotone(nets, 0, net);
    if net + 1 < n {
        lemma_net_within_total(nets, net, n - 1);
    }
}

proof fn lemma_valid_weaken(cs: Seq<CorridorView>, nets: Seq<Net>, b1: int, b2: int)
    requires
        corridors_valid(cs, nets, b1),
        b1 <= b2,
    ensures
        corridors_valid(cs, nets, b2),
{
}

proof fn lemma_add_pair_valid(cs: Seq<CorridorView>, nets: Seq<Net>, bound: int, key: Fixed, p: VertexPair)
    requires
        corridors_valid(cs, nets, bound),
        pair_valid(p, nets),
        key.in_range(),
        0 <= bound,
    ensures
        corridors_valid(add_pair_spec(cs, key, p), nets, bound + 1),
{
    let ncs = add_pair_spec(cs, key, p);
    if exists|i: int| 0 <= i < cs.len() && (#[trigger] cs[i]).coordinate == key {
        let i = choose|i: int| 0 <= i < cs.len() && (#[trigger] cs[i]).coordinate == key;
        lemma_insert_keeps_order(cs[i].pairs, cs[i].locked_pairs, p);
        assert forall|i2: int| 0 <= i2 < ncs.len() implies {
            &&& (#[trigger] ncs[i2]).coordinate.in_range()
            &&& pairs_ordered(ncs[i2].pairs, ncs[i2].locked_pairs)
            &&& ncs[i2].pairs.len() <= bound + 1
            &&& forall|k: int| 0 <= k < ncs[i2].pairs.len() ==> pair_valid(#[trigger] ncs[i2].pairs[k], nets)
        } by {
            if i2 == i {
                assert forall|k: int| 0 <= k < ncs[i2].pairs.len() implies pair_valid(#[trigger] ncs[i2].pairs[k], nets) by {
                    if ncs[i2].pairs[k] != p {
                        let j = choose|j: int| 0 <= j < cs[i].pairs.len() && cs[i].pairs[j] == ncs[i2].pairs[k];
                    }
                }
            }
        }
    } else {
        let empty = CorridorView { coordinate: key, pairs: Seq::<VertexPair>::empty(), locked_pairs: 0 };
        lemma_insert_keeps_order(empty.pairs, 0, p);
        let nc = insert_view(empty, p);
        assert(ncs[cs.len() as int] == nc);
        assert forall|k: int| 0 <= k < nc.pairs.len() implies pair_valid(#[trigger] nc.pairs[k], nets) by {
            if nc.pairs[k] != p {
                assert(!empty.pairs.contains(nc.pairs[k]));
            }
        }
        assert forall|i2: int, j2: int|
            0 <= i2 < j2 < ncs.len() implies (#[trigger] ncs[i2]).coordinate != (#[trigger] ncs[j2]).coordinate by {
            if j2 == cs.len() {
                assert(cs[i2].coordinate != key);
            }
        }
    }
}

proof fn lemma_segment_pair_valid(nets: Seq<Net>, net: int, i: int, horizontal: bool, m: Movement)
    requires
        layout_ok(nets),
        0 <= net < nets.len(),
        0 <= i < segment_count(nets[net].vertices@),
        classify_spec(nets[net].vertices@[i].kind, nets[net].vertices@[i + 1].kind) == Some(m),
    ensures
        pair_valid(segment_pair(nets[net].vertices@, net, i, horizontal, m), nets),
{
    let vs = nets[net].vertices@;
    let sh = shape_of(vs);
    let pos = positions_of(vs);
    lemma_net_within_total(nets, net, nets.len() as int);
    assert(positions_in_range(pos));
    assert(pos[i].x.in_range() && pos[i].y.in_range());
    assert(pos[i + 1].x.in_range() && pos[i + 1].y.in_range());
    let a = along(pos[i], horizontal).val();
    let b = along(pos[i + 1], horizontal).val();
    lemma_extent_in_range(sh, pos, i, horizontal, 0, min_int(a, b), max_int(a, b));
    let r1 = extent_from(sh, pos, i, horizontal, 0, min_int(a, b), max_int(a, b));
    lemma_extent_in_range(sh, pos, i + 1, horizontal, 0, r1.0, r1.1);
}

/// Adding the segments of one net keeps a corridor list valid.
proof fn lemma_collect_net_valid(cs: CorridorViews, nets: Seq<Net>, net: int, n: int, bound: int)
    requires
        layout_ok(nets),
        0 <= net < nets.len(),
        0 <= n <= segment_count(nets[net].vertices@),
        0 <= bound,
        corridors_valid(cs.0, nets, bound),
        corridors_valid(cs.1, nets, bound),
    ensures
        corridors_valid(collect_net(cs, nets[net].vertices@, net, n).0, nets, bound + n),
        corridors_valid(collect_net(cs, nets[net].vertices@, net, n).1, nets, bound + n),
    decreases n,
{
    if n > 0 {
        let vs = nets[net].vertices@;
        lemma_collect_net_valid(cs, nets, net, n - 1, bound);
        let prev = collect_net(cs, vs, net, n - 1);
        let i = n - 1;
        let a = vs[i];
        let b = vs[i + 1];
        assert(positions_in_range(positions_of(vs)));
        assert(positions_of(vs)[i] == a.position);
        match classify_spec(a.kind, b.kind) {
            None => {},
            Some(m) => {
                if a.position.y == b.position.y {
                    lemma_segment_pair_valid(nets, net, i, true, m);
                    lemma_add_pair_valid(prev.0, nets, bound + n - 1, a.position.y, segment_pair(vs, net, i, true, m));
                } else if a.position.x == b.position.x {
                    lemma_segment_pair_valid(nets, net, i, false, m);
                    lemma_add_pair_valid(prev.1, nets, bound + n - 1, a.position.x, segment_pair(vs, net, i, false, m));
                }
            },
        }
    }
}

/// The corridors of the first `n` nets form a valid corridor list: distinct
/// lines, and in each corridor the locked pairs first, then the restricted
/// ones, then the free ones, every pair naming a segment of its class.
pub proof fn lemma_collect_valid(nets: Seq<Net>, n: int)
    requires
        layout_ok(nets),
        0 <= n <= nets.len(),
    ensures
        corridors_valid(collect_upto(nets, n).0, nets, total_vertices(nets, n)),
        corridors_valid(collect_upto(nets, n).1, nets, total_vertices(nets, n)),
    decreases n,
{
    if n > 0 {
        lemma_collect_valid(nets, n - 1);
        lemma_net_within_total(nets, n - 1, n);
        let seg = segment_count(nets[n - 1].vertices@);
        lemma_collect_net_valid(collect_upto(nets, n - 1), nets, n - 1, seg, total_vertices(nets, n - 1));
        let r = collect_upto(nets, n);
        lemma_valid_weaken(r.0, nets, total_vertices(nets, n - 1) + seg, total_vertices(nets, n));
        lemma_valid_weaken(r.1, nets, total_vertices(nets, n - 1) + seg, total_vertices(nets, n));
    }
}

/// Adds `pair` to the corridor on line `key`, appending a new corridor if
/// there is none yet.
fn add_pair(cs: &mut Vec<Corridor>, key: Fixed, pair: VertexPair, Ghost(nets): Ghost<Seq<Net>>, Ghost(bound): Ghost<int>)
    requires
        corridors_valid(views(old(cs)@), nets, bound),
        0 <= bound < MAX_VERTICES,
        pair_valid(pair, nets),
        key.in_range(),
    ensures
        views(final(cs)@) == add_pair_spec(views(old(cs)@), key, pair),
{
    let ghost vs = views(cs@);
    let n = cs.len();
    let mut i: usize = 0;
    while i < n
        invariant
            n == cs@.len(),
            i <= n,
            vs == views(cs@),
            cs@ == old(cs)@,
            corridors_valid(vs, nets, bound),
            0 <= bound < MAX_VERTICES,
            pair_valid(pair, nets),
            key.in_range(),
            forall|j: int| 0 <= j < i ==> (#[trigger] vs[j]).coordinate != key,
        decreases n - i,
    {
        if cs[i].coordinate == key {
            proof {
                assert(vs[i as int].coordinate == key);
                let c = choose|j: int| 0 <= j < vs.len() && (#[trigger] vs[j]).coordinate == key;
                if c != i {
                    assert(vs[c].coordinate != vs[i as int].coordinate);
                }
                assert(vs[i as int].pairs.len() <= bound);
                assert(vs[i as int] == cs@[i as int]@);
                assert(pair_items(cs@[i as int].pairs).len() <= bound);
                assert(pair == (VertexPair { track: 0, ..pair }));
            }
            cs[i].insert(pair.start_inclusive, pair.end_inclusive, pair.net, pair.index, pair.movement);
            proof {
                assert(cs@[i as int]@ == insert_view(vs[i as int], pair));
                assert(views(cs@) =~= add_pair_spec(vs, key, pair));
            }
            return;
        }
        i += 1;
    }
    let mut c = Corridor::new(key);
    proof {
        assert(pair_items(c.pairs) =~= Seq::<VertexPair>::empty());
    }
    c.insert(pair.start_inclusive, pair.end_inclusive, pair.net, pair.index, pair.movement);
    proof {
        assert(pair == (VertexPair { track: 0, ..pair }));
        assert(c@ == insert_view(CorridorView { coordinate: key, pairs: Seq::empty(), locked_pairs: 0 }, pair));
    }
    cs.push(c);
    proof {
        assert(views(cs@) =~= add_pair_spec(vs, key, pair));
    }
}

/// Builds the horizontal and the vertical corridors of all nets.
fn collect_corridors(nets: &Vec<Net>) -> (r: (Vec<Corridor>, Vec<Corridor>))
    requires
        layout_ok(nets@),
    ensures
        views(r.0@) == corridors_of(nets@).0,
        views(r.1@) == corridors_of(nets@).1,
{
    let mut horizontal: Vec<Corridor> = Vec::new();
    let mut vertical: Vec<Corridor> = Vec::new();
    let count = nets.len();
    let mut ni: usize = 0;
    proof {
        assert(views(horizontal@) =~= collect_upto(nets@, 0).0);
        assert(views(vertical@) =~= collect_upto(nets@, 0).1);
    }
    while ni < count
        invariant
            count == nets@.len(),
            layout_ok(nets@),
            ni <= count,
            (views(horizontal@), views(vertical@)) == collect_upto(nets@, ni as int),
        decreases count - ni,
    {
        let vs = &nets[ni].vertices;
        let ghost start = collect_upto(nets@, ni as int);
        proof {
            lemma_collect_valid(nets@, ni as int);
            lemma_net_within_total(nets@, ni as int, count as int);
            assert(chain_wf(nets@[ni as int].vertices@));
            assert(positions_in_range(positions_of(nets@[ni as int].vertices@)));
        }
        let segments: usize = if vs.len() == 0 { 0 } else { vs.len() - 1 };
        let mut i: usize = 0;
        while i < segments
            invariant
                count == nets@.len(),
                layout_ok(nets@),
                ni < count,
                *vs == nets@[ni as int].vertices,
                chain_wf(vs@),
                positions_in_range(positions_of(vs@)),
                segments == segment_count(vs@),
                0 <= total_vertices(nets@, ni as int),
                total_vertices(nets@, ni as int) + vs@.len() <= total_vertices(nets@, count as int),
                total_vertices(nets@, count as int) <= MAX_VERTICES,
                corridors_valid(start.0, nets@, total_vertices(nets@, ni as int)),
                corridors_valid(start.1, nets@, total_vertices(nets@, ni as int)),
                i <= segments,
                (views(horizontal@), views(vertical@)) == collect_net(start, vs@, ni as int, i as int),
            decreases segments - i,
        {
            let ghost bound = total_vertices(nets@, ni as int) + i;
            proof {
                lemma_collect_net_valid(start, nets@, ni as int, i as int, total_vertices(nets@, ni as int));
            }
            let a = &vs[i];
            let b = &vs[i + 1];
            proof {
                assert(positions_of(vs@)[i as int] == a.position);
                assert(positions_of(vs@)[i + 1] == b.position);
            }
            match classify(a.kind, b.kind) {
                None => {},
                Some(movement) => {
                    if a.position.y == b.position.y {
                        let mut min = a.position.x.min(b.position.x);
                        let mut max = a.position.x.max(b.position.x);
                        find_min_max(vs, i, true, &mut min, &mut max);
                        find_min_max(vs, i + 1, true, &mut min, &mut max);
                        let pair = VertexPair {
                            start_inclusive: min,
                            end_inclusive: max,
                            net: ni,
                            index: i,
                            movement,
                            track: 0,
                        };
                        proof {
                            lemma_segment_pair_valid(nets@, ni as int, i as int, true, movement);
                            assert(pair == segment_pair(vs@, ni as int, i as int, true, movement));
                        }
                        add_pair(&mut horizontal, a.position.y, pair, Ghost(nets@), Ghost(bound));
                    } else if a.position.x == b.position.x {
                        let mut min = a.position.y.min(b.position.y);
                        let mut max = a.position.y.max(b.position.y);
                        find_min_max(vs, i, false, &mut min, &mut max);
                        find_min_max(vs, i + 1, false, &mut min, &mut max);
                        let pair = VertexPair {
                            start_inclusive: min,
                            end_inclusive: max,
                            net: ni,
                            index: i,
                            movement,
                            track: 0,
                        };
                        proof {
                            lemma_segment_pair_valid(nets@, ni as int, i as int, false, movement);
                            assert(pair == segment_pair(vs@, ni as int, i as int, false, movement));
                        }
                        add_pair(&mut vertical, a.position.x, pair, Ghost(nets@), Ghost(bound));
                    }
                },
            }
            i += 1;
        }
        ni += 1;
    }
    (horizontal, vertical)
}

/// The kind and junctions of every vertex of every net.
pub open spec fn nets_shapes(nets: Seq<Net>) -> Seq<Seq<VertexShape>> {
    nets.map_values(|n: Net| shape_of(n.vertices@))
}

/// The position of every vertex of every net.
pub open spec fn nets_positions(nets: Seq<Net>) -> Seq<Seq<Point>> {
    nets.map_values(|n: Net| positions_of(n.vertices@))
}

/// `p` with its coordinate across a line (`y` for horizontal) set to `c`.
pub open spec fn set_across(p: Point, horizontal: bool, c: Fixed) -> Point {
    if horizontal {
        Point { y: c, ..p }
    } else {
        Point { x: c, ..p }
    }
}

/// The line of track `t` of the corridor on line `key`.
pub open spec fn track_line(key: Fixed, t: int) -> Fixed {
    Fixed { raw: (key.val() + track_offset_spec(t) * MIN_WIRE_SPACING) as i64 }
}

/// Positions after placing segment `p` on track `t` of the corridor on line
/// `key`: unless the track's offset is zero, both of its vertices move onto
/// the track's line and the move is carried on through their junctions.
pub open spec fn apply_pair(
    shs: Seq<Seq<VertexShape>>,
    pos: Seq<Seq<Point>>,
    key: Fixed,
    horizontal: bool,
    p: VertexPair,
    t: int,
) -> Seq<Seq<Point>> {
    if track_offset_spec(t) == 0 {
        pos
    } else {
        let c = track_line(key, t);
        let k = p.index as int;
        let n = p.net as int;
        let vp = pos[n];
        let moved = vp.update(k, set_across(vp[k], horizontal, c)).update(
            k + 1,
            set_across(vp[k + 1], horizontal, c),
        );
        pos.update(n, propagate(shs[n], moved, k))
    }
}

/// Positions after placing the first `n` pairs of corridor `c` on their tracks.
pub open spec fn apply_pairs(
    shs: Seq<Seq<VertexShape>>,
    pos: Seq<Seq<Point>>,
    c: CorridorView,
    horizontal: bool,
    n: int,
) -> Seq<Seq<Point>>
    decreases n,
{
    if n <= 0 {
        pos
    } else {
        apply_pair(
            shs,
            apply_pairs(shs, pos, c, horizontal, n - 1),
            c.coordinate,
            horizontal,
            c.pairs[n - 1],
            tracks_of(c.pairs, c.locked_pairs)[n - 1],
        )
    }
}

/// Positions after resolving the first `n` corridors of `cs`, in order.
pub open spec fn apply_corridors(
    shs: Seq<Seq<VertexShape>>,
    pos: Seq<Seq<Point>>,
    cs: Seq<CorridorView>,
    horizontal: bool,
    n: int,
) -> Seq<Seq<Point>>
    decreases n,
{
    if n <= 0 {
        pos
    } else {
        apply_pairs(
            shs,
            apply_corridors(shs, pos, cs, horizontal, n - 1),
            cs[n - 1],
            horizontal,
            cs[n - 1].pairs.len() as int,
        )
    }
}

/// The positions of all vertices after a separation pass: horizontal
/// corridors are resolved first, then vertical ones, each in the order in
/// which its line first occurs.
pub open spec fn separated_positions(nets: Seq<Net>) -> Seq<Seq<Point>> {
    let cs = corridors_of(nets);
    let shs = nets_shapes(nets);
    let after_horizontal = apply_corridors(shs, nets_positions(nets), cs.0, true, cs.0.len() as int);
    apply_corridors(shs, after_horizontal, cs.1, false, cs.1.len() as int)
}

/// The unresolvable overlaps of the first `n` corridors, in order.
pub open spec fn conflicts_upto(cs: Seq<CorridorView>, n: int) -> Seq<SegmentRef>
    decreases n,
{
    if n <= 0 {
        Seq::empty()
    } else {
        conflicts_upto(cs, n - 1) + locked_conflicts_upto(cs[n - 1].pairs, cs[n - 1].locked_pairs)
    }
}

/// The locked segments of a pass that overlap an earlier locked segment of
/// their corridor: horizontal corridors first, then vertical ones.
pub open spec fn separation_conflicts(nets: Seq<Net>) -> Seq<SegmentRef> {
    let cs = corridors_of(nets);
    conflicts_upto(cs.0, cs.0.len() as int) + conflicts_upto(cs.1, cs.1.len() as int)
}

/// Moves segment `(k, k + 1)` onto the line `c` and carries the move on
/// through its junctions.
fn shift_segment(vs: &mut Vec<Vertex>, k: usize, horizontal: bool, c: Fixed)
    requires
        chain_wf(old(vs)@),
        k + 1 < old(vs)@.len(),
    ensures
        shape_of(final(vs)@) == shape_of(old(vs)@),
        positions_of(final(vs)@) == propagate(
            shape_of(old(vs)@),
            positions_of(old(vs)@).update(k as int, set_across(old(vs)@[k as int].position, horizontal, c)).update(
                k + 1,
                set_across(old(vs)@[k + 1].position, horizontal, c),
            ),
            k as int,
        ),
{
    let ghost sh = shape_of(vs@);
    let ghost pos = positions_of(vs@);
    let _len = vs.len();
    if horizontal {
        vs[k].position.y = c;
        vs[k + 1].position.y = c;
    } else {
        vs[k].position.x = c;
        vs[k + 1].position.x = c;
    }
    proof {
        assert(shape_of(vs@) =~= sh);
        assert(positions_of(vs@) =~= pos.update(k as int, set_across(pos[k as int], horizontal, c)).update(
            k + 1,
            set_across(pos[k + 1], horizontal, c),
        ));
    }
    move_junctions(vs, k);
}

/// Assigns tracks in each corridor of `cs` and moves the segments onto them,
/// corridor by corridor; appends the unresolvable overlaps to `conflicts`.
fn resolve_corridors(
    nets: &mut Vec<Net>,
    cs: Vec<Corridor>,
    horizontal: bool,
    conflicts: &mut Vec<SegmentRef>,
    Ghost(orig): Ghost<Seq<Net>>,
)
    requires
        layout_ok(orig),
        old(nets)@.len() == orig.len(),
        nets_shapes(old(nets)@) == nets_shapes(orig),
        forall|i: int| 0 <= i < orig.len() ==> (#[trigger] old(nets)@[i]).vertices@.len() == orig[i].vertices@.len(),
        corridors_valid(views(cs@), orig, total_vertices(orig, orig.len() as int)),
    ensures
        final(nets)@.len() == orig.len(),
        nets_shapes(final(nets)@) == nets_shapes(orig),
        forall|i: int| 0 <= i < orig.len() ==> (#[trigger] final(nets)@[i]).id == old(nets)@[i].id,
        forall|i: int| 0 <= i < orig.len() ==> (#[trigger] final(nets)@[i]).vertices@.len() == orig[i].vertices@.len(),
        nets_positions(final(nets)@) == apply_corridors(
            nets_shapes(orig),
            nets_positions(old(nets)@),
            views(cs@),
            horizontal,
            cs@.len() as int,
        ),
        final(conflicts)@ == old(conflicts)@ + conflicts_upto(views(cs@), cs@.len() as int),
{
    let ghost shs = nets_shapes(orig);
    let ghost start = nets_positions(nets@);
    let ghost cvs = views(cs@);
    let ghost old_conflicts = conflicts@;
    let ghost old_nets = nets@;
    let mut cs = cs;
    let count = cs.len();
    let mut ci: usize = 0;
    while ci < count
        invariant
            layout_ok(orig),
            count == cs@.len() == cvs.len(),
            ci <= count,
            forall|j: int| ci <= j < count ==> (#[trigger] cs@[j])@ == cvs[j],
            corridors_valid(cvs, orig, total_vertices(orig, orig.len() as int)),
            nets@.len() == orig.len(),
            nets_shapes(nets@) == shs,
            shs == nets_shapes(orig),
            forall|i: int| 0 <= i < orig.len() ==> (#[trigger] nets@[i]).id == old_nets[i].id,
            forall|i: int| 0 <= i < orig.len() ==> (#[trigger] nets@[i]).vertices@.len() == orig[i].vertices@.len(),
            nets_positions(nets@) == apply_corridors(shs, start, cvs, horizontal, ci as int),
            conflicts@ == old_conflicts + conflicts_upto(cvs, ci as int),
        decreases count - ci,
    {
        let ghost cv = cvs[ci as int];
        let ghost before = nets_positions(nets@);
        let ghost ts = tracks_of(cv.pairs, cv.locked_pairs);
        proof {
            assert(cs@[ci as int]@ == cv);
            assert(cv.coordinate.in_range());
            assert(cv.pairs.len() <= MAX_VERTICES) by {
                assert(cv.pairs.len() <= total_vertices(orig, orig.len() as int));
            }
            lemma_tracks_bounded(cv.pairs, cv.locked_pairs, cv.pairs.len() as int);
            assert forall|k: int| 0 <= k < cv.pairs.len() implies pair_in_range(#[trigger] cv.pairs[k]) by {
                assert(pair_valid(cv.pairs[k], orig));
            }
        }
        let mut found = cs[ci].assign_tracks();
        let corridor = &cs[ci];
        let key = corridor.coordinate;
        let n = corridor.len();
        let mut pi: usize = 0;
        while pi < n
            invariant
                layout_ok(orig),
                n == cv.pairs.len(),
                cv.pairs.len() <= MAX_VERTICES,
                pi <= n,
                key == cv.coordinate,
                key.in_range(),
                pair_items(corridor.pairs) == with_tracks(cv.pairs, ts),
                ts == tracks_of(cv.pairs, cv.locked_pairs),
                ts.len() == n,
                forall|k: int| 0 <= k < n ==> 0 <= #[trigger] ts[k] <= k,
                forall|k: int| 0 <= k < n ==> pair_valid(#[trigger] cv.pairs[k], orig),
                nets@.len() == orig.len(),
                nets_shapes(nets@) == shs,
                shs == nets_shapes(orig),
                forall|i: int| 0 <= i < orig.len() ==> (#[trigger] nets@[i]).id == old_nets[i].id,
                forall|i: int| 0 <= i < orig.len() ==> (#[trigger] nets@[i]).vertices@.len() == orig[i].vertices@.len(),
                nets_positions(nets@) == apply_pairs(shs, before, cv, horizontal, pi as int),
            decreases n - pi,
        {
            let pair = corridor.pair(pi);
            proof {
                assert(pair_valid(cv.pairs[pi as int], orig));
                assert(pair.track as int == ts[pi as int]);
            }
            let offset = track_offset(pair.track);
            if offset != 0 {
                let line = Fixed { raw: key.raw + offset * MIN_WIRE_SPACING };
                let ni = pair.net;
                let ghost pos = nets_positions(nets@);
                let ghost nets_before = nets@;
                proof {
                    assert(chain_wf(orig[ni as int].vertices@));
                    assert(shs[ni as int] == shape_of(nets@[ni as int].vertices@));
                    assert(chain_wf(nets@[ni as int].vertices@));
                    assert(pos[ni as int] == positions_of(nets@[ni as int].vertices@));
                }
                shift_segment(&mut nets[ni].vertices, pair.index, horizontal, line);
                proof {
                    assert(line == track_line(key, ts[pi as int]));
                    assert(nets@[ni as int].id == nets_before[ni as int].id);
                    assert(nets_shapes(nets@) =~= shs);
                    assert(nets_positions(nets@) =~= apply_pair(shs, pos, key, horizontal, cv.pairs[pi as int], ts[pi as int]));
                }
            }
            pi += 1;
        }
        conflicts.append(&mut found);
        ci += 1;
    }
}

/// Every position of every net lies within `[-limit, limit]`.
pub open spec fn all_within(pos: Seq<Seq<Point>>, limit: int) -> bool {
    forall|n: int| 0 <= n < pos.len() ==> positions_within(#[trigger] pos[n], limit)
}

proof fn lemma_apply_pairs_within(
    nets: Seq<Net>,
    pos: Seq<Seq<Point>>,
    c: CorridorView,
    horizontal: bool,
    n: int,
)
    requires
        layout_ok(nets),
        all_within(pos, SEPARATED_LIMIT as int),
        sized_like(pos, nets_shapes(nets)),
        c.coordinate.in_range(),
        c.pairs.len() <= MAX_VERTICES,
        forall|k: int| 0 <= k < c.pairs.len() ==> pair_valid(#[trigger] c.pairs[k], nets),
        0 <= n <= c.pairs.len(),
    ensures
        all_within(apply_pairs(nets_shapes(nets), pos, c, horizontal, n), SEPARATED_LIMIT as int),
        sized_like(apply_pairs(nets_shapes(nets), pos, c, horizontal, n), nets_shapes(nets)),
    decreases n,
{
    let shs = nets_shapes(nets);
    if n > 0 {
        lemma_apply_pairs_within(nets, pos, c, horizontal, n - 1);
        let prev = apply_pairs(shs, pos, c, horizontal, n - 1);
        let p = c.pairs[n - 1];
        let t = tracks_of(c.pairs, c.locked_pairs)[n - 1];
        lemma_tracks_bounded(c.pairs, c.locked_pairs, c.pairs.len() as int);
        assert(pair_valid(p, nets));
        if track_offset_spec(t) != 0 {
            let k = p.index as int;
            let ni = p.net as int;
            let cl = track_line(c.coordinate, t);
            assert(abs_int(track_offset_spec(t)) <= MAX_VERTICES);
            assert(abs_int(track_offset_spec(t) * MIN_WIRE_SPACING) <= MAX_VERTICES * MIN_WIRE_SPACING) by (nonlinear_arith)
                requires
                    abs_int(track_offset_spec(t)) <= MAX_VERTICES,
                    MIN_WIRE_SPACING > 0,
            ;
            assert(abs_int(cl.val()) <= SEPARATED_LIMIT);
            let vp = prev[ni];
            let moved = vp.update(k, set_across(vp[k], horizontal, cl)).update(k + 1, set_across(vp[k + 1], horizontal, cl));
            assert(positions_within(vp, SEPARATED_LIMIT as int));
            assert(positions_within(moved, SEPARATED_LIMIT as int)) by {
                assert forall|i: int| 0 <= i < moved.len() implies abs_int((#[trigger] moved[i]).x.val()) <= SEPARATED_LIMIT
                    && abs_int(moved[i].y.val()) <= SEPARATED_LIMIT by {
                    assert(abs_int(vp[i].x.val()) <= SEPARATED_LIMIT && abs_int(vp[i].y.val()) <= SEPARATED_LIMIT);
                }
            }
            lemma_propagate_within(shs[ni], moved, k, 0, 0, SEPARATED_LIMIT as int);
            lemma_propagate_len(shs[ni], moved, k, 0, 0);
            let r = prev.update(ni, propagate(shs[ni], moved, k));
            assert(r == apply_pairs(shs, pos, c, horizontal, n));
            assert forall|i: int| 0 <= i < r.len() implies positions_within(#[trigger] r[i], SEPARATED_LIMIT as int) by {
                if i != ni {
                    assert(r[i] == prev[i]);
                }
            }
            assert forall|i: int| 0 <= i < r.len() implies (#[trigger] r[i]).len() == shs[i].len() by {
                if i != ni {
                    assert(r[i] == prev[i]);
                }
            }
        }
    }
}

proof fn lemma_apply_corridors_within(
    nets: Seq<Net>,
    pos: Seq<Seq<Point>>,
    cs: Seq<CorridorView>,
    horizontal: bool,
    n: int,
)
    requires
        layout_ok(nets),
        all_within(pos, SEPARATED_LIMIT as int),
        sized_like(pos, nets_shapes(nets)),
        corridors_valid(cs, nets, total_vertices(nets, nets.len() as int)),
        0 <= n <= cs.len(),
    ensures
        all_within(apply_corridors(nets_shapes(nets), pos, cs, horizontal, n), SEPARATED_LIMIT as int),
        sized_like(apply_corridors(nets_shapes(nets), pos, cs, horizontal, n), nets_shapes(nets)),
    decreases n,
{
    if n > 0 {
        lemma_apply_corridors_within(nets, pos, cs, horizontal, n - 1);
        let prev = apply_corridors(nets_shapes(nets), pos, cs, horizontal, n - 1);
        assert(cs[n - 1].coordinate.in_range());
        lemma_total_vertices_monotone(nets, 0, nets.len() as int);
        lemma_apply_pairs_within(nets, prev, cs[n - 1], horizontal, cs[n - 1].pairs.len() as int);
    }
}

/// Every coordinate after a pass lies within `SEPARATED_LIMIT`: a segment
/// moves at most one track per segment of the layout away from its line.
pub proof fn lemma_separated_within(nets: Seq<Net>)
    requires
        layout_ok(nets),
    ensures
        all_within(separated_positions(nets), SEPARATED_LIMIT as int),
{
    let shs = nets_shapes(nets);
    let start = nets_positions(nets);
    let cs = corridors_of(nets);
    lemma_collect_valid(nets, nets.len() as int);
    assert forall|n: int| 0 <= n < start.len() implies positions_within(#[trigger] start[n], SEPARATED_LIMIT as int) by {
        assert(positions_in_range(positions_of(nets[n].vertices@)));
        assert forall|i: int| 0 <= i < start[n].len() implies abs_int((#[trigger] start[n][i]).x.val()) <= SEPARATED_LIMIT
            && abs_int(start[n][i].y.val()) <= SEPARATED_LIMIT by {
            assert(start[n][i].x.in_range() && start[n][i].y.in_range());
        }
    }
    assert(sized_like(start, shs));
    lemma_apply_corridors_within(nets, start, cs.0, true, cs.0.len() as int);
    let after = apply_corridors(shs, start, cs.0, true, cs.0.len() as int);
    lemma_apply_corridors_within(nets, after, cs.1, false, cs.1.len() as int);
}

/// Separates overlapping parallel segments: every horizontal or vertical
/// segment that takes part is put in the corridor of its line, each corridor
/// gets greedy track assignment, and each segment whose track has a non-zero
/// offset is moved onto its track's line, the move being carried on through
/// its junctions. Returns the locked segments that overlap an earlier locked
/// segment of their corridor, which no track can separate.
pub fn separate_wires(nets: &mut Vec<Net>) -> (conflicts: Vec<SegmentRef>)
    requires
        layout_ok(old(nets)@),
    ensures
        final(nets)@.len() == old(nets)@.len(),
        forall|i: int| 0 <= i < old(nets)@.len() ==> (#[trigger] final(nets)@[i]).id == old(nets)@[i].id,
        nets_shapes(final(nets)@) == nets_shapes(old(nets)@),
        nets_positions(final(nets)@) == separated_positions(old(nets)@),
        all_within(nets_positions(final(nets)@), SEPARATED_LIMIT as int),
        conflicts@ == separation_conflicts(old(nets)@),
{
    let ghost orig = nets@;
    proof {
        lemma_separated_within(orig);
    }
    let (horizontal, vertical) = collect_corridors(nets);
    proof {
        lemma_collect_valid(orig, orig.len() as int);
    }
    let mut conflicts: Vec<SegmentRef> = Vec::new();
    resolve_corridors(nets, horizontal, true, &mut conflicts, Ghost(orig));
    resolve_corridors(nets, vertical, false, &mut conflicts, Ghost(orig));
    proof {
        assert(conflicts@ =~= separation_conflicts(orig));
    }
    conflicts
}

/// Whether [`separate_wires`] accepts `nets`: every chain well formed, every
/// coordinate within the accepted range, and not too many vertices.
pub fn layout_within_limits(nets: &Vec<Net>) -> (r: bool)
    ensures
        r == layout_ok(nets@),
{
    let count = nets.len();
    let mut total: usize = 0;
    let mut i: usize = 0;
    while i < count
        invariant
            count == nets@.len(),
            i <= count,
            total as int == total_vertices(nets@, i as int),
            total <= MAX_VERTICES,
            forall|j: int| 0 <= j < i ==> chain_wf(#[trigger] nets@[j].vertices@),
            forall|j: int| 0 <= j < i ==> positions_in_range(positions_of(#[trigger] nets@[j].vertices@)),
        decreases count - i,
    {
        let vs = &nets[i].vertices;
        if vs.len() > MAX_VERTICES - total {
            proof {
                lemma_total_vertices_monotone(nets@, i as int + 1, count as int);
            }
            return false;
        }
        total = total + vs.len();
        match check_chain(vs) {
            Err(_) => {
                return false;
            },
            Ok(()) => {},
        }
        let n = vs.len();
        let mut k: usize = 0;
        while k < n
            invariant
                n == vs@.len(),
                k <= n,
                i < count,
                count == nets@.len(),
                *vs == nets@[i as int].vertices,
                forall|m: int| 0 <= m < k ==> (#[trigger] positions_of(vs@)[m]).x.in_range()
                    && positions_of(vs@)[m].y.in_range(),
            decreases n - k,
        {
            let p = vs[k].position;
            if p.x.raw < -COORD_LIMIT || p.x.raw > COORD_LIMIT || p.y.raw < -COORD_LIMIT || p.y.raw > COORD_LIMIT {
                proof {
                    assert(positions_of(vs@)[k as int] == p);
                    assert(*vs == nets@[i as int].vertices);
                    assert(!positions_in_range(positions_of(nets@[i as int].vertices@)));
                }
                return false;
            }
            k += 1;
        }
        i += 1;
    }
    true
}

/// Positions shaped like the chains: one per vertex of each net.
pub open spec fn sized_like(pos: Seq<Seq<Point>>, shs: Seq<Seq<VertexShape>>) -> bool {
    &&& pos.len() == shs.len()
    &&& forall|i: int| 0 <= i < pos.len() ==> (#[trigger] pos[i]).len() == shs[i].len()
}

/// Vertex `w` of net `n` is anchored to a port.
pub open spec fn is_anchor(nets: Seq<Net>, n: int, w: int) -> bool {
    &&& 0 <= n < nets.len()
    &&& 0 <= w < nets[n].vertices@.len()
    &&& is_wire_start(nets[n].vertices@[w].kind)
}

proof fn lemma_locked_track_zero(ps: Seq<VertexPair>, locked: int, i: int)
    requires
        0 <= i < locked <= ps.len(),
    ensures
        tracks_of(ps, locked)[i] == 0,
{
    lemma_tracks_upto_prefix(ps, locked, i + 1, ps.len() as int);
    lemma_tracks_upto_len(ps, locked, i);
    assert(tracks_upto(ps, locked, i + 1)[i] == 0);
}

proof fn lemma_apply_pairs_keeps_anchors(
    nets: Seq<Net>,
    pos: Seq<Seq<Point>>,
    c: CorridorView,
    horizontal: bool,
    n: int,
    wn: int,
    w: int,
)
    requires
        layout_ok(nets),
        sized_like(pos, nets_shapes(nets)),
        pairs_ordered(c.pairs, c.locked_pairs),
        forall|k: int| 0 <= k < c.pairs.len() ==> pair_valid(#[trigger] c.pairs[k], nets),
        0 <= n <= c.pairs.len(),
        is_anchor(nets, wn, w),
    ensures
        sized_like(apply_pairs(nets_shapes(nets), pos, c, horizontal, n), nets_shapes(nets)),
        apply_pairs(nets_shapes(nets), pos, c, horizontal, n)[wn][w] == pos[wn][w],
    decreases n,
{
    let shs = nets_shapes(nets);
    if n > 0 {
        lemma_apply_pairs_keeps_anchors(nets, pos, c, horizontal, n - 1, wn, w);
        let prev = apply_pairs(shs, pos, c, horizontal, n - 1);
        let p = c.pairs[n - 1];
        let t = tracks_of(c.pairs, c.locked_pairs)[n - 1];
        assert(pair_valid(p, nets));
        if track_offset_spec(t) != 0 {
            if n - 1 < c.locked_pairs {
                lemma_locked_track_zero(c.pairs, c.locked_pairs, n - 1);
            }
            let k = p.index as int;
            let ni = p.net as int;
            let cl = track_line(c.coordinate, t);
            let vp = prev[ni];
            let moved = vp.update(k, set_across(vp[k], horizontal, cl)).update(k + 1, set_across(vp[k + 1], horizontal, cl));
            assert(chain_wf(nets[ni].vertices@));
            assert(shape_wf(shs[ni]));
            lemma_propagate_len(shs[ni], moved, k, 0, 0);
            let r = prev.update(ni, propagate(shs[ni], moved, k));
            assert(r == apply_pairs(shs, pos, c, horizontal, n));
            assert forall|i: int| 0 <= i < r.len() implies (#[trigger] r[i]).len() == shs[i].len() by {
                if i != ni {
                    assert(r[i] == prev[i]);
                }
            }
            if ni == wn {
                assert(shs[wn][w].0 == nets[wn].vertices@[w].kind);
                assert(w != k && w != k + 1);
                lemma_propagate_keeps_anchors(shs[ni], moved, k, 0, 0, w);
            }
        }
    }
}

proof fn lemma_apply_corridors_keeps_anchors(
    nets: Seq<Net>,
    pos: Seq<Seq<Point>>,
    cs: Seq<CorridorView>,
    horizontal: bool,
    n: int,
    wn: int,
    w: int,
)
    requires
        layout_ok(nets),
        sized_like(pos, nets_shapes(nets)),
        corridors_valid(cs, nets, total_vertices(nets, nets.len() as int)),
        0 <= n <= cs.len(),
        is_anchor(nets, wn, w),
    ensures
        sized_like(apply_corridors(nets_shapes(nets), pos, cs, horizontal, n), nets_shapes(nets)),
        apply_corridors(nets_shapes(nets), pos, cs, horizontal, n)[wn][w] == pos[wn][w],
    decreases n,
{
    if n > 0 {
        lemma_apply_corridors_keeps_anchors(nets, pos, cs, horizontal, n - 1, wn, w);
        let prev = apply_corridors(nets_shapes(nets), pos, cs, horizontal, n - 1);
        let c = cs[n - 1];
        assert(pairs_ordered(c.pairs, c.locked_pairs));
        lemma_apply_pairs_keeps_anchors(nets, prev, c, horizontal, c.pairs.len() as int, wn, w);
    }
}

/// Anchored vertices stay: a vertex anchored to a port has the same position
/// after a pass as before it.
pub proof fn lemma_anchors_stay(nets: Seq<Net>, n: int, w: int)
    requires
        layout_ok(nets),
        is_anchor(nets, n, w),
    ensures
        separated_positions(nets)[n][w] == nets_positions(nets)[n][w],
{
    let shs = nets_shapes(nets);
    let start = nets_positions(nets);
    let cs = corridors_of(nets);
    lemma_collect_valid(nets, nets.len() as int);
    assert(sized_like(start, shs));
    lemma_apply_corridors_keeps_anchors(nets, start, cs.0, true, cs.0.len() as int, n, w);
    let after = apply_corridors(shs, start, cs.0, true, cs.0.len() as int);
    lemma_apply_corridors_keeps_anchors(nets, after, cs.1, false, cs.1.len() as int, n, w);
}

/// No movable pair of the corridor comes closer than the minimum spacing to
/// an earlier pair.
pub open spec fn corridor_settled(c: CorridorView) -> bool {
    forall|i: int, j: int|
        0 <= j < i < c.pairs.len() && c.locked_pairs <= i ==> !overlaps_spec(
            #[trigger] c.pairs[j],
            #[trigger] c.pairs[i],
        )
}

/// Every corridor of the layout is settled, so that a pass gives every
/// segment track 0.
pub open spec fn is_separated(nets: Seq<Net>) -> bool {
    let cs = corridors_of(nets);
    &&& forall|i: int| 0 <= i < cs.0.len() ==> corridor_settled(#[trigger] cs.0[i])
    &&& forall|i: int| 0 <= i < cs.1.len() ==> corridor_settled(#[trigger] cs.1[i])
}

proof fn lemma_settled_tracks_zero(c: CorridorView, n: int)
    requires
        corridor_settled(c),
        0 <= n <= c.pairs.len(),
    ensures
        tracks_upto(c.pairs, c.locked_pairs, n).len() == n,
        forall|i: int| 0 <= i < n ==> #[trigger] tracks_upto(c.pairs, c.locked_pairs, n)[i] == 0,
    decreases n,
{
    lemma_tracks_upto_len(c.pairs, c.locked_pairs, n);
    if n > 0 {
        lemma_settled_tracks_zero(c, n - 1);
        let ts = tracks_upto(c.pairs, c.locked_pairs, n - 1);
        if n - 1 >= c.locked_pairs {
            let used = used_tracks(c.pairs, ts, n - 1);
            assert(used =~= Set::<int>::empty()) by {
                assert forall|t: int| !used.contains(t) by {
                    if used.contains(t) {
                        let j = choose|j: int| 0 <= j < n - 1 && overlaps_spec(c.pairs[j], c.pairs[n - 1]) && ts[j] == t;
                        assert(!overlaps_spec(c.pairs[j], c.pairs[n - 1]));
                    }
                }
            }
            assert(is_lowest_free(used, 0));
            lemma_lowest_free_unique(used, 0);
        }
    }
}

proof fn lemma_apply_pairs_identity(
    shs: Seq<Seq<VertexShape>>,
    pos: Seq<Seq<Point>>,
    c: CorridorView,
    horizontal: bool,
    n: int,
)
    requires
        corridor_settled(c),
        0 <= n <= c.pairs.len(),
    ensures
        apply_pairs(shs, pos, c, horizontal, n) == pos,
    decreases n,
{
    if n > 0 {
        lemma_apply_pairs_identity(shs, pos, c, horizontal, n - 1);
        lemma_settled_tracks_zero(c, c.pairs.len() as int);
        assert(tracks_of(c.pairs, c.locked_pairs)[n - 1] == 0);
    }
}

proof fn lemma_apply_corridors_identity(
    shs: Seq<Seq<VertexShape>>,
    pos: Seq<Seq<Point>>,
    cs: Seq<CorridorView>,
    horizontal: bool,
    n: int,
)
    requires
        forall|i: int| 0 <= i < cs.len() ==> corridor_settled(#[trigger] cs[i]),
        0 <= n <= cs.len(),
    ensures
        apply_corridors(shs, pos, cs, horizontal, n) == pos,
    decreases n,
{
    if n > 0 {
        lemma_apply_corridors_identity(shs, pos, cs, horizontal, n - 1);
        lemma_apply_pairs_identity(shs, pos, cs[n - 1], horizontal, cs[n - 1].pairs.len() as int);
    }
}

/// A separated layout is a fixed point: a pass over it moves nothing.
pub proof fn lemma_separated_is_fixed_point(nets: Seq<Net>)
    requires
        is_separated(nets),
    ensures
        separated_positions(nets) == nets_positions(nets),
{
    let cs = corridors_of(nets);
    let shs = nets_shapes(nets);
    lemma_apply_corridors_identity(shs, nets_positions(nets), cs.0, true, cs.0.len() as int);
    lemma_apply_corridors_identity(shs, nets_positions(nets), cs.1, false, cs.1.len() as int);
}

/// Idempotence: when the layout that a pass produces is separated, a second
/// pass over it changes no position.
pub proof fn lemma_second_pass_changes_nothing(nets: Seq<Net>, after: Seq<Net>)
    requires
        nets_shapes(after) == nets_shapes(nets),
        nets_positions(after) == separated_positions(nets),
        is_separated(after),
    ensures
        separated_positions(after) == separated_positions(nets),
{
    lemma_separated_is_fixed_point(after);
}

} // verus!
