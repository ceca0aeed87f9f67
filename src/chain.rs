//! The vertex chain of a net: ordered vertices with roles and junction links.
use vstd::prelude::*;
use crate::fixed::Point;

verus! {

/// How a junction ties two vertices together.
#[derive(Clone, Copy, Debug, PartialEq, Eq, Structural, Hash)]
pub enum JunctionKind {
    /// The linked vertex continues the same straight run.
    LineSegment,
    /// The linked vertex meets the run at a right angle.
    Corner,
}

/// A link from a vertex to a later vertex of the same chain.
#[derive(Clone, Copy, Debug, PartialEq, Eq, Structural, Hash)]
pub struct Junction {
    pub vertex_index: u32,
    pub kind: JunctionKind,
}

/// The role of a vertex in its chain.
#[derive(Clone, Copy, Debug, PartialEq, Eq, Structural, Hash)]
pub enum VertexKind {
    /// An interior bend, free to move with its segment.
    Normal,
    /// Touches a fixed anchor (a symbol port), identified by `anchor`.
    WireStart { anchor: u64 },
    /// Ends a wire run; it may itself be a junction into another run.
    WireEnd { junction_kind: Option<JunctionKind> },
    /// A placeholder without a visual segment.
    Dummy,
}

/// One point of a net's wire skeleton.
#[derive(Clone, Debug)]
pub struct Vertex {
    pub position: Point,
    pub kind: VertexKind,
    pub connected_junctions: Vec<Junction>,
}

/// How freely a segment may be displaced.
#[derive(Clone, Copy, Debug, PartialEq, Eq, Structural, Hash)]
pub enum Movement {
    Free,
    Restricted,
    Locked,
}

pub open spec fn is_wire_start(k: VertexKind) -> bool {
    k is WireStart
}

/// What the layout passes never change of a vertex: its kind and junctions.
pub type VertexShape = (VertexKind, Seq<Junction>);

/// The kind and junctions of every vertex.
pub open spec fn shape_of(vs: Seq<Vertex>) -> Seq<VertexShape> {
    vs.map_values(|v: Vertex| (v.kind, v.connected_junctions@))
}

/// The position of every vertex.
pub open spec fn positions_of(vs: Seq<Vertex>) -> Seq<Point> {
    vs.map_values(|v: Vertex| v.position)
}

/// Smallest distance, in positions, from a vertex to the target of one of
/// its junctions: a line-segment target lies beyond the vertex's own segment,
/// a corner target's predecessor does too.
pub open spec fn min_junction_gap(kind: JunctionKind) -> int {
    match kind {
        JunctionKind::LineSegment => 2,
        JunctionKind::Corner => 3,
    }
}

/// The junction `jn` of vertex `k` points far enough along the chain, to a
/// vertex that is not anchored.
pub open spec fn junction_ok(sh: Seq<VertexShape>, k: int, jn: Junction) -> bool {
    &&& k + min_junction_gap(jn.kind) <= jn.vertex_index
    &&& jn.vertex_index < sh.len()
    &&& !is_wire_start(sh[jn.vertex_index as int].0)
}

/// Every junction of every vertex satisfies [`junction_ok`].
pub open spec fn shape_wf(sh: Seq<VertexShape>) -> bool {
    forall|k: int, m: int|
        0 <= k < sh.len() && 0 <= m < sh[k].1.len() ==> junction_ok(sh, k, #[trigger] sh[k].1[m])
}

/// The chain's junctions all point to later, unanchored vertices.
pub open spec fn chain_wf(vs: Seq<Vertex>) -> bool {
    shape_wf(shape_of(vs))
}

/// Classification of the segment from a vertex of kind `a` to one of kind
/// `b`; `None` when the segment takes no part in separation.
pub open spec fn classify_spec(a: VertexKind, b: VertexKind) -> Option<Movement> {
    if a is WireEnd {
        None
    } else if b == (VertexKind::WireEnd { junction_kind: Some(JunctionKind::Corner) }) {
        None
    } else if (a is WireStart && b is Dummy) || (a is Dummy && b is Dummy) || (a is Dummy
        && b is WireEnd) {
        None
    } else if a is WireStart || b is WireStart {
        Some(Movement::Locked)
    } else if b == (VertexKind::WireEnd { junction_kind: None }) {
        Some(Movement::Locked)
    } else if a is Dummy || b is Dummy {
        Some(Movement::Restricted)
    } else {
        Some(Movement::Free)
    }
}

/// Classifies the segment from a vertex of kind `a` to one of kind `b`.
pub fn classify(a: VertexKind, b: VertexKind) -> (r: Option<Movement>)
    ensures
        r == classify_spec(a, b),
{
    match (a, b) {
        (VertexKind::WireEnd { .. }, _) => None,
        // A corner end is drawn as part of the segment it joins.
        (_, VertexKind::WireEnd { junction_kind: Some(JunctionKind::Corner) }) => None,
        (VertexKind::WireStart { .. }, VertexKind::Dummy) => None,
        (VertexKind::Dummy, VertexKind::Dummy) => None,
        (VertexKind::Dummy, VertexKind::WireEnd { .. }) => None,
        (VertexKind::WireStart { .. }, _) => Some(Movement::Locked),
        (_, VertexKind::WireStart { .. }) => Some(Movement::Locked),
        (_, VertexKind::WireEnd { junction_kind: None }) => Some(Movement::Locked),
        (VertexKind::Dummy, _) | (_, VertexKind::Dummy) => Some(Movement::Restricted),
        _ => Some(Movement::Free),
    }
}

/// Why a vertex chain was refused.
#[derive(Clone, Copy, Debug, PartialEq, Eq, Structural, Hash)]
pub enum ChainError {
    /// The junction `junction` of vertex `vertex` does not point far enough
    /// along the chain, or points to an anchored vertex.
    BadJunction { vertex: usize, junction: usize },
    /// The chain has more vertices than a `u32` index can address.
    TooLong,
}

/// Checks that every junction of `vs` points to a later wire end.
pub fn check_chain(vs: &Vec<Vertex>) -> (r: Result<(), ChainError>)
    ensures
        r is Ok <==> (chain_wf(vs@) && vs@.len() <= u32::MAX),
        r == Err::<(), ChainError>(ChainError::TooLong) <==> vs@.len() > u32::MAX,
{
    if vs.len() > u32::MAX as usize {
        return Err(ChainError::TooLong);
    }
    let n = vs.len();
    let mut k: usize = 0;
    while k < n
        invariant
            n == vs@.len(),
            n <= u32::MAX,
            k <= n,
            forall|k2: int, m: int|
                0 <= k2 < k && 0 <= m < shape_of(vs@)[k2].1.len() ==> junction_ok(
                    shape_of(vs@),
                    k2,
                    #[trigger] shape_of(vs@)[k2].1[m],
                ),
        decreases n - k,
    {
        let js = &vs[k].connected_junctions;
        let mut m: usize = 0;
        while m < js.len()
            invariant
                n == vs@.len(),
                n <= u32::MAX,
                k < n,
                js@ == vs@[k as int].connected_junctions@,
                m <= js@.len(),
                forall|k2: int, m2: int|
                    0 <= k2 < k && 0 <= m2 < shape_of(vs@)[k2].1.len() ==> junction_ok(
                        shape_of(vs@),
                        k2,
                        #[trigger] shape_of(vs@)[k2].1[m2],
                    ),
                forall|m2: int| 0 <= m2 < m ==> junction_ok(shape_of(vs@), k as int, #[trigger] js@[m2]),
            decreases js@.len() - m,
        {
            let jn = js[m];
            let gap: usize = match jn.kind {
                JunctionKind::LineSegment => 2,
                JunctionKind::Corner => 3,
            };
            let target = jn.vertex_index as usize;
            if target < k || target - k < gap || target >= n || matches!(vs[target].kind, VertexKind::WireStart { .. }) {
                proof {
                    assert(shape_of(vs@)[k as int].1[m as int] == jn);
                    assert(!junction_ok(shape_of(vs@), k as int, jn));
                }
                return Err(ChainError::BadJunction { vertex: k, junction: m });
            }
            m += 1;
        }
        assert(shape_of(vs@)[k as int].1 == js@);
        k += 1;
    }
    Ok(())
}

} // verus!
