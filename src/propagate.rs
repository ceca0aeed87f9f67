//! Following junctions: the true extent of a run through corner junctions,
//! and carrying a segment's displacement on to the vertices linked to it.
use vstd::prelude::*;
use crate::chain::{
    chain_wf, is_wire_start, junction_ok, positions_of, shape_of, shape_wf, JunctionKind, Junction,
    Vertex, VertexKind, VertexShape,
};
use crate::fixed::{Fixed, Point};

verus! {

/// The coordinate along a line: `x` on a horizontal line, `y` on a vertical one.
pub open spec fn along(p: Point, horizontal: bool) -> Fixed {
    if horizontal { p.x } else { p.y }
}

/// The coordinate across a line: `y` on a horizontal line, `x` on a vertical one.
pub open spec fn across(p: Point, horizontal: bool) -> Fixed {
    if horizontal { p.y } else { p.x }
}

pub open spec fn min_int(a: int, b: int) -> int {
    if a <= b { a } else { b }
}

pub open spec fn max_int(a: int, b: int) -> int {
    if a >= b { a } else { b }
}

/// The extent `(lo, hi)` along the line through vertex `k`, widened by every
/// vertex reached through corner junctions (from junction `m` of `k` on)
/// whose predecessor lies on the same line, recursively.
pub open spec fn extent_from(
    sh: Seq<VertexShape>,
    pos: Seq<Point>,
    k: int,
    horizontal: bool,
    m: int,
    lo: int,
    hi: int,
) -> (int, int)
    decreases sh.len() - k, sh[k].1.len() - m,
{
    if !(0 <= k < sh.len() && 0 <= m < sh[k].1.len() && pos.len() == sh.len()) {
        (lo, hi)
    } else {
        let jn = sh[k].1[m];
        let j = jn.vertex_index as int;
        if jn.kind == JunctionKind::Corner && junction_ok(sh, k, jn) && across(pos[j - 1], horizontal)
            == across(pos[k], horizontal) {
            let c = along(pos[j - 1], horizontal).val();
            let r = extent_from(sh, pos, j - 1, horizontal, 0, min_int(lo, c), max_int(hi, c));
            extent_from(sh, pos, k, horizontal, m + 1, r.0, r.1)
        } else {
            extent_from(sh, pos, k, horizontal, m + 1, lo, hi)
        }
    }
}

pub open spec fn abs_int(a: int) -> int {
    if a < 0 { -a } else { a }
}

/// Every coordinate lies within `[-limit, limit]`.
pub open spec fn positions_within(pos: Seq<Point>, limit: int) -> bool {
    forall|i: int| 0 <= i < pos.len() ==> abs_int((#[trigger] pos[i]).x.val()) <= limit && abs_int(pos[i].y.val()) <= limit
}

/// Every coordinate of every position lies in the accepted range.
pub open spec fn positions_in_range(pos: Seq<Point>) -> bool {
    forall|i: int| 0 <= i < pos.len() ==> (#[trigger] pos[i]).x.in_range() && pos[i].y.in_range()
}

/// The widened extent stays within the accepted range.
pub proof fn lemma_extent_in_range(
    sh: Seq<VertexShape>,
    pos: Seq<Point>,
    k: int,
    horizontal: bool,
    m: int,
    lo: int,
    hi: int,
)
    requires
        positions_in_range(pos),
        -crate::fixed::COORD_LIMIT <= lo <= crate::fixed::COORD_LIMIT,
        -crate::fixed::COORD_LIMIT <= hi <= crate::fixed::COORD_LIMIT,
    ensures
        -crate::fixed::COORD_LIMIT <= extent_from(sh, pos, k, horizontal, m, lo, hi).0 <= crate::fixed::COORD_LIMIT,
        -crate::fixed::COORD_LIMIT <= extent_from(sh, pos, k, horizontal, m, lo, hi).1 <= crate::fixed::COORD_LIMIT,
    decreases sh.len() - k, sh[k].1.len() - m,
{
    if 0 <= k < sh.len() && 0 <= m < sh[k].1.len() && pos.len() == sh.len() {
        let jn = sh[k].1[m];
        let j = jn.vertex_index as int;
        if jn.kind == JunctionKind::Corner && junction_ok(sh, k, jn) && across(pos[j - 1], horizontal)
            == across(pos[k], horizontal) {
            let c = along(pos[j - 1], horizontal).val();
            assert(pos[j - 1].x.in_range() && pos[j - 1].y.in_range());
            lemma_extent_in_range(sh, pos, j - 1, horizontal, 0, min_int(lo, c), max_int(hi, c));
            let r = extent_from(sh, pos, j - 1, horizontal, 0, min_int(lo, c), max_int(hi, c));
            lemma_extent_in_range(sh, pos, k, horizontal, m + 1, r.0, r.1);
        } else {
            lemma_extent_in_range(sh, pos, k, horizontal, m + 1, lo, hi);
        }
    }
}

/// Widens `[min, max]` by the runs that corner junctions of vertex `k`
/// continue on the same line (`horizontal` selects the line's direction).
pub fn find_min_max(vs: &Vec<Vertex>, k: usize, horizontal: bool, min: &mut Fixed, max: &mut Fixed)
    requires
        chain_wf(vs@),
        k < vs@.len(),
        positions_in_range(positions_of(vs@)),
        old(min).in_range(),
        old(max).in_range(),
    ensures
        (final(min).val(), final(max).val()) == extent_from(
            shape_of(vs@),
            positions_of(vs@),
            k as int,
            horizontal,
            0,
            old(min).val(),
            old(max).val(),
        ),
        final(min).in_range(),
        final(max).in_range(),
    decreases vs@.len() - k,
{
    let ghost sh = shape_of(vs@);
    let ghost pos = positions_of(vs@);
    let ghost target = extent_from(sh, pos, k as int, horizontal, 0, min.val(), max.val());
    proof {
        lemma_extent_in_range(sh, pos, k as int, horizontal, 0, min.val(), max.val());
    }
    let count = vs[k].connected_junctions.len();
    let mut m: usize = 0;
    while m < count
        invariant
            sh == shape_of(vs@),
            pos == positions_of(vs@),
            shape_wf(sh),
            positions_in_range(pos),
            k < vs@.len(),
            count == sh[k as int].1.len(),
            m <= count,
            min.in_range(),
            max.in_range(),
            extent_from(sh, pos, k as int, horizontal, m as int, min.val(), max.val()) == target,
        decreases count - m,
    {
        let jn = vs[k].connected_junctions[m];
        let j = jn.vertex_index as usize;
        proof {
            assert(sh[k as int].1[m as int] == jn);
            assert(junction_ok(sh, k as int, jn));
        }
        match jn.kind {
            JunctionKind::LineSegment => {},
            JunctionKind::Corner => {
                let prev = vs[j - 1].position;
                let here = vs[k].position;
                let same_line = if horizontal { prev.y == here.y } else { prev.x == here.x };
                if same_line {
                    let c = if horizontal { prev.x } else { prev.y };
                    proof {
                        assert(pos[j - 1] == prev);
                        assert(prev.x.in_range() && prev.y.in_range());
                    }
                    *min = (*min).min(c);
                    *max = (*max).max(c);
                    find_min_max(vs, j - 1, horizontal, min, max);
                }
            },
        }
        m += 1;
    }
}

/// Positions after the first stage of following junction `jn` of the moved
/// vertex `k + side` of segment `(k, k + 1)`. A line-segment junction
/// copies the moved vertex's coordinate across the segment's line to its
/// target. A corner junction moves its target onto the moved vertex and,
/// unless the target's predecessor is anchored, moves that predecessor along
/// the axis it shared with the target before the move.
pub open spec fn junction_step(sh: Seq<VertexShape>, pos: Seq<Point>, k: int, side: int, jn: Junction) -> Seq<Point> {
    let j = jn.vertex_index as int;
    let a = pos[k];
    let b = pos[k + 1];
    match jn.kind {
        JunctionKind::LineSegment => {
            let p = pos[k + side];
            if a.y == b.y {
                pos.update(j, Point { y: p.y, ..pos[j] })
            } else if a.x == b.x {
                pos.update(j, Point { x: p.x, ..pos[j] })
            } else {
                pos
            }
        },
        JunctionKind::Corner => {
            let p = pos[k + side];
            let is_horizontal = pos[j].y == pos[j - 1].y;
            let is_vertical = pos[j].x == pos[j - 1].x;
            let moved = pos.update(j, p);
            if is_wire_start(sh[j - 1].0) {
                moved
            } else if is_horizontal {
                moved.update(j - 1, Point { y: p.y, ..moved[j - 1] })
            } else if is_vertical {
                moved.update(j - 1, Point { x: p.x, ..moved[j - 1] })
            } else {
                moved
            }
        },
    }
}

/// Following `jn` goes on from the segment that ends at its target.
pub open spec fn continues(sh: Seq<VertexShape>, jn: Junction) -> bool {
    jn.kind == JunctionKind::Corner && !is_wire_start(sh[jn.vertex_index - 1].0)
}

/// Positions after following, from junction `m` of vertex `k + side` on,
/// the junctions of the just-moved segment `(k, k + 1)`: those of its first
/// vertex, then those of its second, each recursively through the segment
/// that ends at a corner target.
pub open spec fn propagate_from(sh: Seq<VertexShape>, pos: Seq<Point>, k: int, side: int, m: int) -> Seq<Point>
    decreases sh.len() - k, 1 - side, sh[k + side].1.len() - m,
{
    if !(0 <= k && k + 1 < sh.len() && 0 <= side <= 1 && 0 <= m && pos.len() == sh.len()) {
        pos
    } else if m >= sh[k + side].1.len() {
        if side == 0 {
            propagate_from(sh, pos, k, 1, 0)
        } else {
            pos
        }
    } else {
        let jn = sh[k + side].1[m];
        if !junction_ok(sh, k + side, jn) {
            propagate_from(sh, pos, k, side, m + 1)
        } else {
            let stepped = junction_step(sh, pos, k, side, jn);
            let followed = if continues(sh, jn) {
                propagate_from(sh, stepped, jn.vertex_index - 1, 0, 0)
            } else {
                stepped
            };
            propagate_from(sh, followed, k, side, m + 1)
        }
    }
}

/// Positions after carrying the move of segment `(k, k + 1)` on through its
/// junctions.
pub open spec fn propagate(sh: Seq<VertexShape>, pos: Seq<Point>, k: int) -> Seq<Point> {
    propagate_from(sh, pos, k, 0, 0)
}

/// Carries the move of segment `(k, k + 1)` on to the vertices that its
/// junctions link to. Only vertices after `k + 1` change.
pub fn move_junctions(vs: &mut Vec<Vertex>, k: usize)
    requires
        chain_wf(old(vs)@),
        k + 1 < old(vs)@.len(),
    ensures
        shape_of(final(vs)@) == shape_of(old(vs)@),
        positions_of(final(vs)@) == propagate(shape_of(old(vs)@), positions_of(old(vs)@), k as int),
    decreases old(vs)@.len() - k,
{
    let ghost sh = shape_of(vs@);
    let ghost target = propagate(sh, positions_of(vs@), k as int);
    let len = vs.len();
    let mut side: usize = 0;
    while side < 2
        invariant
            len == vs@.len(),
            sh == shape_of(vs@),
            shape_wf(sh),
            k + 1 < sh.len(),
            vs@.len() == old(vs)@.len() == sh.len(),
            side <= 2,
            side < 2 ==> propagate_from(sh, positions_of(vs@), k as int, side as int, 0) == target,
            side == 2 ==> positions_of(vs@) == target,
        decreases 2 - side,
    {
        let v = k + side;
        let count = vs[v].connected_junctions.len();
        let mut m: usize = 0;
        while m < count
            invariant
                sh == shape_of(vs@),
                shape_wf(sh),
                k + 1 < sh.len(),
                vs@.len() == old(vs)@.len() == sh.len(),
                len == vs@.len(),
                side < 2,
                v == k + side,
                count == sh[v as int].1.len(),
                m <= count,
                propagate_from(sh, positions_of(vs@), k as int, side as int, m as int) == target,
            decreases count - m,
        {
            let jn = vs[v].connected_junctions[m];
            let j = jn.vertex_index as usize;
            let ghost before = positions_of(vs@);
            proof {
                assert(sh[v as int].1[m as int] == jn);
                assert(junction_ok(sh, v as int, jn));
            }
            match jn.kind {
                JunctionKind::LineSegment => {
                    let a = vs[k].position;
                    let b = vs[k + 1].position;
                    let p = vs[v].position;
                    if a.y == b.y {
                        vs[j].position.y = p.y;
                    } else if a.x == b.x {
                        vs[j].position.x = p.x;
                    }
                    proof {
                        assert(positions_of(vs@) =~= junction_step(sh, before, k as int, side as int, jn));
                        assert(shape_of(vs@) =~= sh);
                    }
                },
                JunctionKind::Corner => {
                    let p = vs[v].position;
                    let is_horizontal = vs[j].position.y == vs[j - 1].position.y;
                    let is_vertical = vs[j].position.x == vs[j - 1].position.x;
                    vs[j].position = p;
                    if matches!(vs[j - 1].kind, VertexKind::WireStart { .. }) {
                        // The predecessor is anchored to a port and stays; the
                        // wire into the corner is then left diagonal.
                        proof {
                            assert(positions_of(vs@) =~= junction_step(sh, before, k as int, side as int, jn));
                            assert(shape_of(vs@) =~= sh);
                        }
                    } else {
                        if is_horizontal {
                            vs[j - 1].position.y = p.y;
                        } else if is_vertical {
                            vs[j - 1].position.x = p.x;
                        }
                        proof {
                            assert(positions_of(vs@) =~= junction_step(sh, before, k as int, side as int, jn));
                            assert(shape_of(vs@) =~= sh);
                        }
                        move_junctions(vs, j - 1);
                    }
                },
            }
            m += 1;
        }
        side += 1;
    }
}

/// Following junctions keeps the number of positions.
pub proof fn lemma_propagate_len(sh: Seq<VertexShape>, pos: Seq<Point>, k: int, side: int, m: int)
    ensures
        propagate_from(sh, pos, k, side, m).len() == pos.len(),
    decreases sh.len() - k, 1 - side, sh[k + side].1.len() - m,
{
    if 0 <= k && k + 1 < sh.len() && 0 <= side <= 1 && 0 <= m && pos.len() == sh.len() {
        if m >= sh[k + side].1.len() {
            if side == 0 {
                lemma_propagate_len(sh, pos, k, 1, 0);
            }
        } else {
            let jn = sh[k + side].1[m];
            if !junction_ok(sh, k + side, jn) {
                lemma_propagate_len(sh, pos, k, side, m + 1);
            } else {
                let stepped = junction_step(sh, pos, k, side, jn);
                if continues(sh, jn) {
                    lemma_propagate_len(sh, stepped, jn.vertex_index - 1, 0, 0);
                    let followed = propagate_from(sh, stepped, jn.vertex_index - 1, 0, 0);
                    lemma_propagate_len(sh, followed, k, side, m + 1);
                } else {
                    lemma_propagate_len(sh, stepped, k, side, m + 1);
                }
            }
        }
    }
}

/// Following the junctions of segment `(k, k + 1)` leaves every vertex up
/// to `k + 1` where it was.
pub proof fn lemma_propagate_frame(sh: Seq<VertexShape>, pos: Seq<Point>, k: int, side: int, m: int, w: int)
    requires
        0 <= w < k + 2,
        w < pos.len(),
    ensures
        propagate_from(sh, pos, k, side, m)[w] == pos[w],
    decreases sh.len() - k, 1 - side, sh[k + side].1.len() - m,
{
    if 0 <= k && k + 1 < sh.len() && 0 <= side <= 1 && 0 <= m && pos.len() == sh.len() {
        if m >= sh[k + side].1.len() {
            if side == 0 {
                lemma_propagate_frame(sh, pos, k, 1, 0, w);
            }
        } else {
            let jn = sh[k + side].1[m];
            if !junction_ok(sh, k + side, jn) {
                lemma_propagate_frame(sh, pos, k, side, m + 1, w);
            } else {
                let stepped = junction_step(sh, pos, k, side, jn);
                if continues(sh, jn) {
                    lemma_propagate_frame(sh, stepped, jn.vertex_index - 1, 0, 0, w);
                    let followed = propagate_from(sh, stepped, jn.vertex_index - 1, 0, 0);
                    lemma_propagate_len(sh, stepped, jn.vertex_index - 1, 0, 0);
                    lemma_propagate_frame(sh, followed, k, side, m + 1, w);
                } else {
                    lemma_propagate_frame(sh, stepped, k, side, m + 1, w);
                }
            }
        }
    }
}

/// Following junctions never moves a vertex anchored to a port.
pub proof fn lemma_propagate_keeps_anchors(sh: Seq<VertexShape>, pos: Seq<Point>, k: int, side: int, m: int, w: int)
    requires
        shape_wf(sh),
        0 <= w < sh.len(),
        is_wire_start(sh[w].0),
    ensures
        propagate_from(sh, pos, k, side, m)[w] == pos[w],
    decreases sh.len() - k, 1 - side, sh[k + side].1.len() - m,
{
    if 0 <= k && k + 1 < sh.len() && 0 <= side <= 1 && 0 <= m && pos.len() == sh.len() {
        if m >= sh[k + side].1.len() {
            if side == 0 {
                lemma_propagate_keeps_anchors(sh, pos, k, 1, 0, w);
            }
        } else {
            let jn = sh[k + side].1[m];
            if !junction_ok(sh, k + side, jn) {
                lemma_propagate_keeps_anchors(sh, pos, k, side, m + 1, w);
            } else {
                let stepped = junction_step(sh, pos, k, side, jn);
                assert(stepped[w] == pos[w]);
                if continues(sh, jn) {
                    lemma_propagate_keeps_anchors(sh, stepped, jn.vertex_index - 1, 0, 0, w);
                    let followed = propagate_from(sh, stepped, jn.vertex_index - 1, 0, 0);
                    lemma_propagate_keeps_anchors(sh, followed, k, side, m + 1, w);
                } else {
                    lemma_propagate_keeps_anchors(sh, stepped, k, side, m + 1, w);
                }
            }
        }
    }
}

/// Junction continuity. Let segment `(k, k + 1)` have just moved, and follow
/// its junction `jn` (of its first vertex when `side` is 0, of its second
/// when 1), including the recursion through the segment that ends at a
/// corner target. Then a line-segment target shares the coordinate across
/// the segment's line with the moved vertex; a corner target sits on the
/// moved vertex; and unless the corner target's predecessor is anchored, the
/// two stay aligned along the axis they shared before the move.
pub proof fn lemma_junction_continuity(sh: Seq<VertexShape>, pos: Seq<Point>, k: int, side: int, jn: Junction)
    requires
        0 <= k,
        k + 1 < sh.len(),
        0 <= side <= 1,
        pos.len() == sh.len(),
        junction_ok(sh, k + side, jn),
    ensures ({
        let j = jn.vertex_index as int;
        let stepped = junction_step(sh, pos, k, side, jn);
        let r = if continues(sh, jn) { propagate_from(sh, stepped, j - 1, 0, 0) } else { stepped };
        &&& r.len() == pos.len()
        &&& r[k] == pos[k]
        &&& r[k + 1] == pos[k + 1]
        &&& (jn.kind == JunctionKind::LineSegment && pos[k].y == pos[k + 1].y)
            ==> r[j].y == r[k + side].y
        &&& (jn.kind == JunctionKind::LineSegment && pos[k].y != pos[k + 1].y
            && pos[k].x == pos[k + 1].x) ==> r[j].x == r[k + side].x
        &&& jn.kind == JunctionKind::Corner ==> r[j] == pos[k + side]
        &&& (jn.kind == JunctionKind::Corner && !is_wire_start(sh[j - 1].0) && pos[j].y == pos[j - 1].y)
            ==> r[j].y == r[j - 1].y
        &&& (jn.kind == JunctionKind::Corner && !is_wire_start(sh[j - 1].0) && pos[j].y != pos[j - 1].y
            && pos[j].x == pos[j - 1].x) ==> r[j].x == r[j - 1].x
    }),
{
    let j = jn.vertex_index as int;
    let stepped = junction_step(sh, pos, k, side, jn);
    if continues(sh, jn) {
        lemma_propagate_len(sh, stepped, j - 1, 0, 0);
        lemma_propagate_frame(sh, stepped, j - 1, 0, 0, j);
        lemma_propagate_frame(sh, stepped, j - 1, 0, 0, j - 1);
        lemma_propagate_frame(sh, stepped, j - 1, 0, 0, k);
        lemma_propagate_frame(sh, stepped, j - 1, 0, 0, k + 1);
    }
}

/// Following junctions only copies coordinates that are already there, so
/// it keeps every coordinate within any bound that held before.
pub proof fn lemma_propagate_within(sh: Seq<VertexShape>, pos: Seq<Point>, k: int, side: int, m: int, limit: int)
    requires
        positions_within(pos, limit),
    ensures
        positions_within(propagate_from(sh, pos, k, side, m), limit),
    decreases sh.len() - k, 1 - side, sh[k + side].1.len() - m,
{
    if 0 <= k && k + 1 < sh.len() && 0 <= side <= 1 && 0 <= m && pos.len() == sh.len() {
        if m >= sh[k + side].1.len() {
            if side == 0 {
                lemma_propagate_within(sh, pos, k, 1, 0, limit);
            }
        } else {
            let jn = sh[k + side].1[m];
            if !junction_ok(sh, k + side, jn) {
                lemma_propagate_within(sh, pos, k, side, m + 1, limit);
            } else {
                let stepped = junction_step(sh, pos, k, side, jn);
                assert(abs_int(pos[k].x.val()) <= limit && abs_int(pos[k].y.val()) <= limit);
                assert(abs_int(pos[k + 1].x.val()) <= limit && abs_int(pos[k + 1].y.val()) <= limit);
                assert(abs_int(pos[k + side].x.val()) <= limit && abs_int(pos[k + side].y.val()) <= limit);
                let j = jn.vertex_index as int;
                assert(abs_int(pos[j].x.val()) <= limit && abs_int(pos[j].y.val()) <= limit);
                if jn.kind == JunctionKind::Corner {
                    assert(abs_int(pos[j - 1].x.val()) <= limit && abs_int(pos[j - 1].y.val()) <= limit);
                }
                assert(positions_within(stepped, limit));
                if continues(sh, jn) {
                    lemma_propagate_within(sh, stepped, jn.vertex_index - 1, 0, 0, limit);
                    let followed = propagate_from(sh, stepped, jn.vertex_index - 1, 0, 0);
                    lemma_propagate_within(sh, followed, k, side, m + 1, limit);
                } else {
                    lemma_propagate_within(sh, stepped, k, side, m + 1, limit);
                }
            }
        }
    }
}

/// The indices that following the junctions of the moved segment
/// `(k, k + 1)`, from junction `m` of vertex `k + side` on, may write: each
/// junction's target, the unanchored predecessor of a corner target, and
/// what the recursion through that predecessor's segment writes.
pub open spec fn touched(sh: Seq<VertexShape>, k: int, side: int, m: int) -> Set<int>
    decreases sh.len() - k, 1 - side, sh[k + side].1.len() - m,
{
    if !(0 <= k && k + 1 < sh.len() && 0 <= side <= 1 && 0 <= m) {
        Set::empty()
    } else if m >= sh[k + side].1.len() {
        if side == 0 {
            touched(sh, k, 1, 0)
        } else {
            Set::empty()
        }
    } else {
        let jn = sh[k + side].1[m];
        let j = jn.vertex_index as int;
        if !junction_ok(sh, k + side, jn) {
            touched(sh, k, side, m + 1)
        } else {
            let here = if jn.kind == JunctionKind::Corner && !is_wire_start(sh[j - 1].0) {
                set![j, j - 1]
            } else {
                set![j]
            };
            let deeper = if continues(sh, jn) { touched(sh, j - 1, 0, 0) } else { Set::empty() };
            here + deeper + touched(sh, k, side, m + 1)
        }
    }
}

/// Following junctions leaves every index outside `touched` where it was.
pub proof fn lemma_propagate_untouched(sh: Seq<VertexShape>, pos: Seq<Point>, k: int, side: int, m: int, w: int)
    requires
        0 <= w < pos.len(),
        !touched(sh, k, side, m).contains(w),
    ensures
        propagate_from(sh, pos, k, side, m)[w] == pos[w],
    decreases sh.len() - k, 1 - side, sh[k + side].1.len() - m,
{
    if 0 <= k && k + 1 < sh.len() && 0 <= side <= 1 && 0 <= m && pos.len() == sh.len() {
        if m >= sh[k + side].1.len() {
            if side == 0 {
                lemma_propagate_untouched(sh, pos, k, 1, 0, w);
            }
        } else {
            let jn = sh[k + side].1[m];
            let j = jn.vertex_index as int;
            if !junction_ok(sh, k + side, jn) {
                lemma_propagate_untouched(sh, pos, k, side, m + 1, w);
            } else {
                let stepped = junction_step(sh, pos, k, side, jn);
                assert(w != j);
                if jn.kind == JunctionKind::Corner && !is_wire_start(sh[j - 1].0) {
                    assert(w != j - 1);
                }
                assert(stepped[w] == pos[w]);
                if continues(sh, jn) {
                    lemma_propagate_untouched(sh, stepped, j - 1, 0, 0, w);
                    lemma_propagate_len(sh, stepped, j - 1, 0, 0);
                    let followed = propagate_from(sh, stepped, j - 1, 0, 0);
                    lemma_propagate_untouched(sh, followed, k, side, m + 1, w);
                } else {
                    lemma_propagate_untouched(sh, stepped, k, side, m + 1, w);
                }
            }
        }
    }
}

/// Junction continuity to the end of a move. Follow the moved segment
/// `(k, k + 1)` from its junction `m` of vertex `k + side` on, with `pos` the
/// positions when that junction is reached. Unless a later junction of the
/// same move writes the junction's target (or, for a corner, the target's
/// predecessor) again, the final positions keep what following the junction
/// established: a line-segment target shares the moved vertex's coordinate
/// across the segment's line; a corner target sits on the moved vertex and,
/// unless its predecessor is anchored, stays aligned with that predecessor
/// along the axis they shared.
pub proof fn lemma_move_continuity(sh: Seq<VertexShape>, pos: Seq<Point>, k: int, side: int, m: int)
    requires
        0 <= k,
        k + 1 < sh.len(),
        0 <= side <= 1,
        pos.len() == sh.len(),
        0 <= m < sh[k + side].1.len(),
        junction_ok(sh, k + side, sh[k + side].1[m]),
        !touched(sh, k, side, m + 1).contains(sh[k + side].1[m].vertex_index as int),
        sh[k + side].1[m].kind == JunctionKind::Corner ==> !touched(sh, k, side, m + 1).contains(
            sh[k + side].1[m].vertex_index - 1,
        ),
    ensures ({
        let jn = sh[k + side].1[m];
        let j = jn.vertex_index as int;
        let r = propagate_from(sh, pos, k, side, m);
        &&& r[k] == pos[k]
        &&& r[k + 1] == pos[k + 1]
        &&& (jn.kind == JunctionKind::LineSegment && pos[k].y == pos[k + 1].y)
            ==> r[j].y == r[k + side].y
        &&& (jn.kind == JunctionKind::LineSegment && pos[k].y != pos[k + 1].y
            && pos[k].x == pos[k + 1].x) ==> r[j].x == r[k + side].x
        &&& jn.kind == JunctionKind::Corner ==> r[j] == pos[k + side]
        &&& (jn.kind == JunctionKind::Corner && !is_wire_start(sh[j - 1].0) && pos[j].y == pos[j - 1].y)
            ==> r[j].y == r[j - 1].y
        &&& (jn.kind == JunctionKind::Corner && !is_wire_start(sh[j - 1].0) && pos[j].y != pos[j - 1].y
            && pos[j].x == pos[j - 1].x) ==> r[j].x == r[j - 1].x
    }),
{
    let jn = sh[k + side].1[m];
    let j = jn.vertex_index as int;
    let stepped = junction_step(sh, pos, k, side, jn);
    let followed = if continues(sh, jn) { propagate_from(sh, stepped, j - 1, 0, 0) } else { stepped };
    lemma_junction_continuity(sh, pos, k, side, jn);
    assert(propagate_from(sh, pos, k, side, m) == propagate_from(sh, followed, k, side, m + 1));
    lemma_propagate_untouched(sh, followed, k, side, m + 1, j);
    if jn.kind == JunctionKind::Corner {
        lemma_propagate_untouched(sh, followed, k, side, m + 1, j - 1);
    }
    lemma_propagate_frame(sh, followed, k, side, m + 1, k);
    lemma_propagate_frame(sh, followed, k, side, m + 1, k + 1);
}

} // verus!
