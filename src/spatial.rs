//! Bounding boxes of wire geometry, and the spatial index that answers
//! overlap queries over them.
use vstd::prelude::*;
use crate::chain::{positions_of, Vertex, VertexKind};
use crate::propagate::{abs_int, positions_within};
use crate::fixed::{Fixed, Point, ONE};
use crate::tree::{aabb_overlaps, has_leaf_of, tree_entries, tree_insert, tree_new, tree_query, tree_remove, Tree};
use bvh_arena::volumes::Aabb;
use bvh_arena::VolumeHandle;
use std::collections::HashMap;

verus! {

/// Half-thickness of a wire's box across the wire, in raw fixed-point units.
pub const WIRE_BBOX_THICKNESS: i64 = 4 * ONE;

/// Largest magnitude of a raw coordinate from which wire boxes are built.
pub const BOX_COORD_LIMIT: i64 = 0x1000_0000_0000_0000;

/// An axis-aligned box from `min` to `max`.
#[derive(Clone, Copy, Debug, PartialEq, Eq, Structural, Hash)]
pub struct BoundingBox {
    pub min: Point,
    pub max: Point,
}

/// The box centred on `(cx, cy)` with half-sizes `hw` and `hh`.
pub open spec fn centered_box(cx: int, cy: int, hw: int, hh: int) -> BoundingBox {
    BoundingBox {
        min: Point { x: Fixed { raw: (cx - hw) as i64 }, y: Fixed { raw: (cy - hh) as i64 } },
        max: Point { x: Fixed { raw: (cx + hw) as i64 }, y: Fixed { raw: (cy + hh) as i64 } },
    }
}

/// The box of the straight wire from `p1` to `p2`: centred on its midpoint
/// (rounded down), as long as the wire, and `WIRE_BBOX_THICKNESS` to each
/// side of it.
pub open spec fn wire_box_spec(p1: Point, p2: Point) -> BoundingBox {
    let cx = (p1.x.val() + p2.x.val()) / 2;
    let cy = (p1.y.val() + p2.y.val()) / 2;
    if p1.x == p2.x {
        centered_box(cx, cy, WIRE_BBOX_THICKNESS as int, abs_int(p2.y.val() - p1.y.val()) / 2)
    } else {
        centered_box(cx, cy, abs_int(p2.x.val() - p1.x.val()) / 2, WIRE_BBOX_THICKNESS as int)
    }
}

impl BoundingBox {
    /// The box centred on `center` reaching `half_width` and `half_height`
    /// to each side.
    pub fn from_center_half_size(center: Point, half_width: Fixed, half_height: Fixed) -> (r: BoundingBox)
        requires
            abs_int(center.x.val()) <= BOX_COORD_LIMIT,
            abs_int(center.y.val()) <= BOX_COORD_LIMIT,
            0 <= half_width.val() <= BOX_COORD_LIMIT,
            0 <= half_height.val() <= BOX_COORD_LIMIT,
        ensures
            r == centered_box(center.x.val(), center.y.val(), half_width.val(), half_height.val()),
    {
        BoundingBox {
            min: Point { x: center.x.sub(half_width), y: center.y.sub(half_height) },
            max: Point { x: center.x.add(half_width), y: center.y.add(half_height) },
        }
    }
}

/// The box of the straight wire from `p1` to `p2`.
pub fn wire_bounding_box(p1: Point, p2: Point) -> (r: BoundingBox)
    requires
        abs_int(p1.x.val()) <= BOX_COORD_LIMIT,
        abs_int(p1.y.val()) <= BOX_COORD_LIMIT,
        abs_int(p2.x.val()) <= BOX_COORD_LIMIT,
        abs_int(p2.y.val()) <= BOX_COORD_LIMIT,
    ensures
        r == wire_box_spec(p1, p2),
{
    let center = Point { x: p1.x.add(p2.x).half(), y: p1.y.add(p2.y).half() };
    let thickness = Fixed::from_raw(WIRE_BBOX_THICKNESS);
    if p1.x == p2.x {
        let half_extent = p2.y.sub(p1.y).abs().half();
        BoundingBox::from_center_half_size(center, thickness, half_extent)
    } else {
        let half_extent = p2.x.sub(p1.x).abs().half();
        BoundingBox::from_center_half_size(center, half_extent, thickness)
    }
}

/// Whether the segment from a vertex of kind `from` to one of kind `to` is
/// drawn. A segment into a placeholder from a wire start or another
/// placeholder, or from a placeholder into a wire end, has no visual
/// presence.
pub open spec fn drawn_spec(from: VertexKind, to: VertexKind) -> bool {
    !(to is Dummy && (from is WireStart || from is Dummy)) && !(from is Dummy && to is WireEnd)
}

/// Whether the segment from a vertex of kind `from` to one of kind `to` is
/// drawn.
pub fn drawn(from: VertexKind, to: VertexKind) -> (r: bool)
    ensures
        r == drawn_spec(from, to),
{
    match (from, to) {
        (VertexKind::WireStart { .. }, VertexKind::Dummy) => false,
        (VertexKind::Dummy, VertexKind::Dummy) => false,
        (VertexKind::Dummy, VertexKind::WireEnd { .. }) => false,
        _ => true,
    }
}

/// The boxes of the first `n` vertices of a chain, and the start (position
/// and kind) of the segment that is open after them. A wire start opens a
/// run; an interior vertex or placeholder closes the segment from the open
/// point and opens the next; a wire end closes the segment and the run. A
/// closed segment gets a box when it is drawn.
pub open spec fn net_boxes_upto(vs: Seq<Vertex>, n: int) -> (Seq<BoundingBox>, Option<(Point, VertexKind)>)
    decreases n,
{
    if n <= 0 {
        (Seq::empty(), None)
    } else {
        let (boxes, open) = net_boxes_upto(vs, n - 1);
        let p = vs[n - 1].position;
        let k = vs[n - 1].kind;
        let closed = match open {
            Some((q, qk)) => if drawn_spec(qk, k) { boxes.push(wire_box_spec(q, p)) } else { boxes },
            None => boxes,
        };
        match k {
            VertexKind::WireStart { .. } => (boxes, Some((p, k))),
            VertexKind::WireEnd { .. } => (closed, None),
            _ => (closed, Some((p, k))),
        }
    }
}

/// One box per drawn straight segment of each wire run of the chain.
pub open spec fn net_boxes(vs: Seq<Vertex>) -> Seq<BoundingBox> {
    net_boxes_upto(vs, vs.len() as int).0
}

/// The boxes of every drawn straight segment of every wire run of a net.
pub fn net_bounding_boxes(vertices: &Vec<Vertex>) -> (r: Vec<BoundingBox>)
    requires
        positions_within(positions_of(vertices@), BOX_COORD_LIMIT as int),
    ensures
        r@ == net_boxes(vertices@),
{
    let mut boxes: Vec<BoundingBox> = Vec::new();
    let mut open: Option<(Point, VertexKind)> = None;
    let n = vertices.len();
    let mut i: usize = 0;
    while i < n
        invariant
            n == vertices@.len(),
            i <= n,
            positions_within(positions_of(vertices@), BOX_COORD_LIMIT as int),
            (boxes@, open) == net_boxes_upto(vertices@, i as int),
            open matches Some((q, _)) ==> abs_int(q.x.val()) <= BOX_COORD_LIMIT && abs_int(q.y.val()) <= BOX_COORD_LIMIT,
        decreases n - i,
    {
        let vertex = &vertices[i];
        let p = vertex.position;
        let kind = vertex.kind;
        proof {
            assert(positions_of(vertices@)[i as int] == p);
        }
        let starts = matches!(kind, VertexKind::WireStart { .. });
        if !starts {
            if let Some((q, qk)) = open {
                if drawn(qk, kind) {
                    boxes.push(wire_bounding_box(q, p));
                }
            }
        }
        match kind {
            VertexKind::WireEnd { .. } => {
                open = None;
            },
            _ => {
                open = Some((p, kind));
            },
        }
        i += 1;
    }
    boxes
}

/// Number of boxes of `bs` that overlap `volume`.
pub open spec fn count_overlapping(bs: Seq<Aabb<2>>, volume: Aabb<2>) -> nat
    decreases bs.len(),
{
    if bs.len() == 0 {
        0
    } else {
        count_overlapping(bs.drop_last(), volume) + if aabb_overlaps(bs.last(), volume) {
            1nat
        } else {
            0nat
        }
    }
}

proof fn lemma_overlap_count(
    l: Seq<VolumeHandle>,
    e: Map<VolumeHandle, (u64, Aabb<2>)>,
    volume: Aabb<2>,
    n: int,
)
    requires
        l.no_duplicates(),
        0 <= n <= l.len(),
    ensures
        Set::new(|h: VolumeHandle| l.take(n).contains(h) && aabb_overlaps(e[h].1, volume)).finite(),
        Set::new(|h: VolumeHandle| l.take(n).contains(h) && aabb_overlaps(e[h].1, volume)).len()
            == count_overlapping(l.take(n).map_values(|h: VolumeHandle| e[h].1), volume),
    decreases n,
{
    let s = Set::new(|h: VolumeHandle| l.take(n).contains(h) && aabb_overlaps(e[h].1, volume));
    let bs = l.take(n).map_values(|h: VolumeHandle| e[h].1);
    if n == 0 {
        assert(s =~= Set::empty());
    } else {
        lemma_overlap_count(l, e, volume, n - 1);
        let prev = Set::new(|h: VolumeHandle| l.take(n - 1).contains(h) && aabb_overlaps(e[h].1, volume));
        let h = l[n - 1];
        assert(bs.drop_last() =~= l.take(n - 1).map_values(|h: VolumeHandle| e[h].1));
        assert(bs.last() == e[h].1);
        assert(!l.take(n - 1).contains(h)) by {
            if l.take(n - 1).contains(h) {
                let j = choose|j: int| 0 <= j < n - 1 && #[trigger] l.take(n - 1)[j] == h;
                assert(l[j] == l[n - 1]);
            }
        }
        assert forall|h2: VolumeHandle| l.take(n).contains(h2) <==> (l.take(n - 1).contains(h2) || h2 == h) by {
            if l.take(n).contains(h2) {
                let j = choose|j: int| 0 <= j < n && #[trigger] l.take(n)[j] == h2;
                if j < n - 1 {
                    assert(l.take(n - 1)[j] == h2);
                }
            }
            if l.take(n - 1).contains(h2) {
                let j = choose|j: int| 0 <= j < n - 1 && #[trigger] l.take(n - 1)[j] == h2;
                assert(l.take(n)[j] == h2);
            }
            if h2 == h {
                assert(l.take(n)[n - 1] == h2);
            }
        }
        if aabb_overlaps(e[h].1, volume) {
            assert(s =~= prev.insert(h));
        } else {
            assert(s =~= prev);
        }
    }
}

/// A set of boxes per entity, in a bounding-volume hierarchy, answering
/// which entities have a box that overlaps a given one.
pub struct SpatialIndex {
    index: Tree,
    handles: HashMap<u64, Vec<VolumeHandle>>,
}

impl SpatialIndex {
    /// Each entity's handles name distinct leaves of its own, and every leaf
    /// is listed under its entity.
    pub closed spec fn wf(&self) -> bool {
        let e = tree_entries(self.index);
        let hs = self.handles@;
        &&& forall|k: u64, i: int|
            hs.contains_key(k) && 0 <= i < hs[k]@.len() ==> e.contains_key(#[trigger] hs[k]@[i]) && e[hs[k]@[i]].0 == k
        &&& forall|k: u64| hs.contains_key(k) ==> (#[trigger] hs[k])@.no_duplicates()
        &&& forall|h: VolumeHandle| e.contains_key(h) ==> hs.contains_key((#[trigger] e[h]).0) && hs[e[h].0]@.contains(h)
    }

    /// The boxes registered for each entity.
    pub closed spec fn boxes(&self) -> Map<u64, Seq<Aabb<2>>> {
        let e = tree_entries(self.index);
        let hs = self.handles@;
        Map::new(|k: u64| hs.contains_key(k), |k: u64| hs[k]@.map_values(|h: VolumeHandle| e[h].1))
    }

    /// An empty index.
    pub fn new() -> (r: SpatialIndex)
        ensures
            r.wf(),
            r.boxes() == Map::<u64, Seq<Aabb<2>>>::empty(),
    {
        let r = SpatialIndex { index: tree_new(), handles: HashMap::new() };
        proof {
            assert(r.boxes() =~= Map::<u64, Seq<Aabb<2>>>::empty());
        }
        r
    }

    /// Retracts every box of `entity`; nothing happens if it has none.
    pub fn remove(&mut self, entity: u64)
        requires
            old(self).wf(),
        ensures
            final(self).wf(),
            final(self).boxes() == old(self).boxes().remove(entity),
    {
        broadcast use vstd::std_specs::hash::group_hash_axioms;
        let ghost e0 = tree_entries(self.index);
        let ghost hs0 = self.handles@;
        match self.handles.remove(&entity) {
            None => {
                proof {
                    assert(self.boxes() =~= old(self).boxes().remove(entity));
                }
            },
            Some(hs) => {
                let n = hs.len();
                let mut i: usize = 0;
                while i < n
                    invariant
                        n == hs@.len(),
                        i <= n,
                        hs0.contains_key(entity),
                        hs@ == hs0[entity]@,
                        hs@.no_duplicates(),
                        self.handles@ == hs0.remove(entity),
                        forall|j: int| 0 <= j < n ==> e0.contains_key(#[trigger] hs@[j]) && e0[hs@[j]].0 == entity,
                        forall|h: VolumeHandle| #[trigger] tree_entries(self.index).contains_key(h) <==> (e0.contains_key(h)
                            && !hs@.take(i as int).contains(h)),
                        forall|h: VolumeHandle| tree_entries(self.index).contains_key(h) ==> #[trigger] tree_entries(self.index)[h] == e0[h],
                    decreases n - i,
                {
                    let h = hs[i];
                    proof {
                        assert(!hs@.take(i as int).contains(h)) by {
                            if hs@.take(i as int).contains(h) {
                                let j = choose|j: int| 0 <= j < i && #[trigger] hs@.take(i as int)[j] == h;
                                assert(hs@[j] == hs@[i as int]);
                            }
                        }
                        assert forall|h2: VolumeHandle| hs@.take(i + 1).contains(h2) <==> (hs@.take(i as int).contains(h2) || h2 == h) by {
                            if hs@.take(i + 1).contains(h2) {
                                let j = choose|j: int| 0 <= j < i + 1 && #[trigger] hs@.take(i + 1)[j] == h2;
                                if j < i {
                                    assert(hs@.take(i as int)[j] == h2);
                                }
                            }
                            if hs@.take(i as int).contains(h2) {
                                let j = choose|j: int| 0 <= j < i && #[trigger] hs@.take(i as int)[j] == h2;
                                assert(hs@.take(i + 1)[j] == h2);
                            }
                            if h2 == h {
                                assert(hs@.take(i + 1)[i as int] == h2);
                            }
                        }
                    }
                    tree_remove(&mut self.index, h);
                    i += 1;
                }
                proof {
                    assert(hs@.take(n as int) =~= hs@);
                    let e = tree_entries(self.index);
                    let hsm = self.handles@;
                    assert forall|k: u64, j: int|
                        hsm.contains_key(k) && 0 <= j < hsm[k]@.len() implies e.contains_key(#[trigger] hsm[k]@[j]) && e[hsm[k]@[j]].0 == k by {
                        let h = hsm[k]@[j];
                        assert(hs0[k]@[j] == h);
                        if hs@.contains(h) {
                            let m = choose|m: int| 0 <= m < n && #[trigger] hs@[m] == h;
                            assert(e0[hs@[m]].0 == entity);
                        }
                    }
                    assert forall|h: VolumeHandle| e.contains_key(h) implies hsm.contains_key((#[trigger] e[h]).0) && hsm[e[h].0]@.contains(h) by {
                        assert(e0.contains_key(h));
                        if e0[h].0 == entity {
                            assert(hs0[entity]@.contains(h));
                        }
                    }
                    assert(self.boxes() =~= old(self).boxes().remove(entity)) by {
                        assert forall|k: u64| #[trigger] self.boxes().contains_key(k) implies self.boxes()[k] =~= old(self).boxes()[k] by {
                            let l = hsm[k]@;
                            assert forall|j: int| 0 <= j < l.len() implies e[l[j]].1 == e0[l[j]].1 by {
                                let h = l[j];
                                assert(hs0[k]@[j] == h);
                                if hs@.contains(h) {
                                    let m = choose|m: int| 0 <= m < n && #[trigger] hs@[m] == h;
                                    assert(e0[hs@[m]].0 == entity);
                                }
                            }
                        }
                    }
                }
            },
        }
    }

    /// Replaces the boxes of `entity` with exactly `bounds`.
    pub fn update_all(&mut self, entity: u64, bounds: Vec<Aabb<2>>)
        requires
            old(self).wf(),
        ensures
            final(self).wf(),
            final(self).boxes() == old(self).boxes().insert(entity, bounds@),
    {
        broadcast use vstd::std_specs::hash::group_hash_axioms;
        self.remove(entity);
        let ghost s1 = *self;
        let ghost e1 = tree_entries(self.index);
        let ghost hs1 = self.handles@;
        proof {
            assert(!s1.boxes().contains_key(entity));
            assert(!hs1.contains_key(entity));
        }
        let mut hs: Vec<VolumeHandle> = Vec::new();
        let n = bounds.len();
        let mut i: usize = 0;
        while i < n
            invariant
                n == bounds@.len(),
                i <= n,
                self.handles@ == hs1,
                !hs1.contains_key(entity),
                hs@.len() == i,
                hs@.no_duplicates(),
                forall|j: int| 0 <= j < i ==> !e1.contains_key(#[trigger] hs@[j]),
                forall|h: VolumeHandle| #[trigger] tree_entries(self.index).contains_key(h) <==> (e1.contains_key(h) || hs@.contains(h)),
                forall|h: VolumeHandle| e1.contains_key(h) ==> #[trigger] tree_entries(self.index)[h] == e1[h],
                forall|j: int| 0 <= j < i ==> tree_entries(self.index)[#[trigger] hs@[j]] == (entity, bounds@[j]),
            decreases n - i,
        {
            let b = bounds[i];
            let ghost before = tree_entries(self.index);
            let ghost hs_before = hs@;
            let h = tree_insert(&mut self.index, entity, b);
            proof {
                assert(!hs@.contains(h));
                assert(!e1.contains_key(h));
            }
            hs.push(h);
            proof {
                assert forall|h2: VolumeHandle| hs@.contains(h2) <==> (hs_before.contains(h2) || h2 == h) by {
                    if hs@.contains(h2) {
                        let j = choose|j: int| 0 <= j < i + 1 && #[trigger] hs@[j] == h2;
                        if j < i {
                            assert(hs_before[j] == h2);
                        }
                    }
                    if hs_before.contains(h2) {
                        let j = choose|j: int| 0 <= j < i && #[trigger] hs_before[j] == h2;
                        assert(hs@[j] == h2);
                    }
                    if h2 == h {
                        assert(hs@[i as int] == h2);
                    }
                }
                assert forall|j: int| 0 <= j < i + 1 implies tree_entries(self.index)[#[trigger] hs@[j]] == (entity, bounds@[j]) by {
                    if j < i {
                        assert(hs@[j] == hs_before[j]);
                        assert(hs_before.contains(hs_before[j]));
                    }
                }
            }
            i += 1;
        }
        self.handles.insert(entity, hs);
        proof {
            let e = tree_entries(self.index);
            let hsm = self.handles@;
            assert(s1.wf());
            assert forall|k: u64, j: int|
                hsm.contains_key(k) && 0 <= j < hsm[k]@.len() implies e.contains_key(#[trigger] hsm[k]@[j]) && e[hsm[k]@[j]].0 == k by {
                if k != entity {
                    assert(hs1[k]@[j] == hsm[k]@[j]);
                    assert(e1.contains_key(hs1[k]@[j]));
                } else {
                    assert(hs@.contains(hs@[j]));
                }
            }
            assert forall|h: VolumeHandle| e.contains_key(h) implies hsm.contains_key((#[trigger] e[h]).0) && hsm[e[h].0]@.contains(h) by {
                if hs@.contains(h) {
                    let j = choose|j: int| 0 <= j < n && #[trigger] hs@[j] == h;
                    assert(e[hs@[j]].0 == entity);
                } else {
                    assert(e1.contains_key(h));
                    assert(hs1.contains_key(e1[h].0));
                }
            }
            let target = old(self).boxes().insert(entity, bounds@);
            assert forall|k: u64| #[trigger] self.boxes().contains_key(k) <==> target.contains_key(k) by {
                if k != entity {
                    assert(s1.boxes().contains_key(k) <==> old(self).boxes().contains_key(k));
                }
            }
            assert forall|k: u64| #[trigger] self.boxes().contains_key(k) implies self.boxes()[k] =~= target[k] by {
                if k != entity {
                    let l = hsm[k]@;
                    assert(l == hs1[k]@);
                    assert(s1.boxes()[k] == old(self).boxes()[k]);
                    assert forall|j: int| 0 <= j < l.len() implies e[l[j]].1 == e1[l[j]].1 by {
                        assert(e1.contains_key(hs1[k]@[j]));
                    }
                    assert(self.boxes()[k] =~= s1.boxes()[k]);
                } else {
                    assert(hsm[entity]@ == hs@);
                    assert(self.boxes()[k] =~= bounds@);
                }
            }
            assert(self.boxes() =~= target);
        }
    }

    /// Replaces the boxes of `entity` with the single box `bounds`.
    pub fn update(&mut self, entity: u64, bounds: Aabb<2>)
        requires
            old(self).wf(),
        ensures
            final(self).wf(),
            final(self).boxes() == old(self).boxes().insert(entity, seq![bounds]),
    {
        let v = vec![bounds];
        proof {
            assert(v@ =~= seq![bounds]);
        }
        self.update_all(entity, v);
    }

    /// The entities with a box that overlaps `bounds`: each entity as many
    /// times as it has boxes that overlap, in no particular order.
    pub fn query(&self, bounds: &Aabb<2>) -> (r: Vec<u64>)
        requires
            self.wf(),
        ensures
            forall|i: int|
                0 <= i < r@.len() ==> self.boxes().contains_key(#[trigger] r@[i]) && self.boxes()[r@[i]].len() > 0,
            forall|k: u64|
                #[trigger] r@.to_multiset().count(k) == if self.boxes().contains_key(k) {
                    count_overlapping(self.boxes()[k], *bounds)
                } else {
                    0
                },
    {
        let r = tree_query(&self.index, bounds);
        proof {
            let e = tree_entries(self.index);
            let hs = self.handles@;
            assert forall|k: u64| #[trigger] r@.to_multiset().count(k) == if self.boxes().contains_key(k) {
                count_overlapping(self.boxes()[k], *bounds)
            } else {
                0
            } by {
                let found = Set::new(
                    |h: VolumeHandle| e.contains_key(h) && e[h].0 == k && aabb_overlaps(e[h].1, *bounds),
                );
                if hs.contains_key(k) {
                    let l = hs[k]@;
                    lemma_overlap_count(l, e, *bounds, l.len() as int);
                    assert(l.take(l.len() as int) =~= l);
                    assert(found =~= Set::new(|h: VolumeHandle| l.take(l.len() as int).contains(h) && aabb_overlaps(e[h].1, *bounds))) by {
                        assert forall|h: VolumeHandle| found.contains(h) implies l.contains(h) by {
                            assert(hs[e[h].0]@.contains(h));
                        }
                        assert forall|h: VolumeHandle| l.contains(h) implies e.contains_key(h) && e[h].0 == k by {
                            let j = choose|j: int| 0 <= j < l.len() && #[trigger] l[j] == h;
                            assert(e.contains_key(hs[k]@[j]));
                        }
                    }
                    assert(self.boxes()[k] == l.map_values(|h: VolumeHandle| e[h].1));
                } else {
                    assert(found =~= Set::empty()) by {
                        assert forall|h: VolumeHandle| !found.contains(h) by {
                            if found.contains(h) {
                                assert(hs.contains_key(e[h].0));
                            }
                        }
                    }
                }
            }
            assert forall|i: int| 0 <= i < r@.len() implies self.boxes().contains_key(#[trigger] r@[i]) && self.boxes()[r@[i]].len() > 0 by {
                assert(has_leaf_of(e, r@[i]));
                let h = choose|h: VolumeHandle| e.contains_key(h) && (#[trigger] e[h]).0 == r@[i];
                assert(self.handles@[e[h].0]@.contains(h));
            }
        }
        r
    }
}

/// Once an entity is removed from the index, a query reports it no more:
/// for any result that meets the query's contract after the removal, the
/// entity occurs in it zero times.
pub proof fn lemma_removed_entity_unreported(
    before: Map<u64, Seq<Aabb<2>>>,
    after: Map<u64, Seq<Aabb<2>>>,
    entity: u64,
    volume: Aabb<2>,
    reported: Seq<u64>,
)
    requires
        after == before.remove(entity),
        forall|k: u64|
            #[trigger] reported.to_multiset().count(k) == if after.contains_key(k) {
                count_overlapping(after[k], volume)
            } else {
                0
            },
    ensures
        reported.to_multiset().count(entity) == 0,
        !reported.contains(entity),
{
    reported.to_multiset_ensures();
    assert(reported.to_multiset().count(entity) == 0);
}

} // verus!
