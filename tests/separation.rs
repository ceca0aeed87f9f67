use digilogic_layout::chain::{
    check_chain, classify, ChainError, Junction, JunctionKind, Movement, Vertex, VertexKind,
};
use digilogic_layout::corridor::{track_offset, Corridor, SegmentRef, MIN_WIRE_SPACING};
use digilogic_layout::fixed::{Fixed, Point, COORD_LIMIT, ONE};
use digilogic_layout::separate::{layout_within_limits, separate_wires, Net};

fn pt(x: i32, y: i32) -> Point {
    Point { x: Fixed::from_int(x), y: Fixed::from_int(y) }
}

fn vertex(kind: VertexKind, x: i32, y: i32) -> Vertex {
    Vertex { position: pt(x, y), kind, connected_junctions: Vec::new() }
}

fn normal(x: i32, y: i32) -> Vertex {
    vertex(VertexKind::Normal, x, y)
}

fn start(x: i32, y: i32) -> Vertex {
    vertex(VertexKind::WireStart { anchor: 7 }, x, y)
}

fn end(kind: Option<JunctionKind>, x: i32, y: i32) -> Vertex {
    vertex(VertexKind::WireEnd { junction_kind: kind }, x, y)
}

fn net(id: u64, vertices: Vec<Vertex>) -> Net {
    Net { id, vertices }
}

fn spacing_units(n: i64) -> i64 {
    n * MIN_WIRE_SPACING
}

fn run(nets: &mut Vec<Net>) -> Vec<SegmentRef> {
    assert!(layout_within_limits(nets));
    separate_wires(nets)
}

fn ys(nets: &Vec<Net>) -> Vec<Vec<i64>> {
    nets.iter().map(|n| n.vertices.iter().map(|v| v.position.y.raw).collect()).collect()
}

fn positions(nets: &Vec<Net>) -> Vec<Vec<Point>> {
    nets.iter().map(|n| n.vertices.iter().map(|v| v.position).collect()).collect()
}

#[test]
fn three_free_segments_fan_out() {
    let mut nets = vec![
        net(1, vec![normal(0, 0), normal(10, 0)]),
        net(2, vec![normal(5, 0), normal(15, 0)]),
        net(3, vec![normal(20, 0), normal(30, 0)]),
    ];
    let conflicts = run(&mut nets);
    assert!(conflicts.is_empty());
    assert_eq!(ys(&nets), vec![vec![0, 0], vec![spacing_units(1); 2], vec![0, 0]]);
    assert_eq!(nets[1].vertices[0].position.x, Fixed::from_int(5));
}

#[test]
fn locked_segment_keeps_its_line() {
    let mut nets = vec![
        net(1, vec![normal(5, 0), normal(15, 0)]),
        net(2, vec![start(0, 0), normal(10, 0)]),
    ];
    let conflicts = run(&mut nets);
    assert!(conflicts.is_empty());
    assert_eq!(ys(&nets), vec![vec![spacing_units(1); 2], vec![0, 0]]);
}

#[test]
fn overlapping_segments_get_distinct_lines() {
    let mut nets = vec![
        net(1, vec![normal(0, 3), normal(10, 3)]),
        net(2, vec![normal(2, 3), normal(12, 3)]),
        net(3, vec![normal(4, 3), normal(14, 3)]),
        net(4, vec![normal(6, 3), normal(16, 3)]),
    ];
    run(&mut nets);
    let base = 3 * ONE;
    let lines: Vec<i64> = nets.iter().map(|n| n.vertices[0].position.y.raw).collect();
    assert_eq!(
        lines,
        vec![base, base + spacing_units(1), base - spacing_units(1), base + spacing_units(2)]
    );
    for n in &nets {
        assert_eq!(n.vertices[0].position.y, n.vertices[1].position.y);
    }
}

#[test]
fn vertical_corridor_separates_along_x() {
    let mut nets = vec![
        net(1, vec![normal(4, 0), normal(4, 10)]),
        net(2, vec![normal(4, 5), normal(4, 20)]),
    ];
    run(&mut nets);
    assert_eq!(nets[0].vertices[0].position.x.raw, 4 * ONE);
    assert_eq!(nets[1].vertices[0].position.x.raw, 4 * ONE + spacing_units(1));
    assert_eq!(nets[1].vertices[1].position.x.raw, 4 * ONE + spacing_units(1));
    assert_eq!(nets[1].vertices[1].position.y, Fixed::from_int(20));
}

#[test]
fn segments_within_spacing_count_as_overlapping() {
    // A gap of exactly the spacing still overlaps; a wider one does not.
    let mut close = vec![
        net(1, vec![normal(0, 0), normal(10, 0)]),
        net(2, vec![normal(12, 0), normal(20, 0)]),
    ];
    run(&mut close);
    assert_eq!(close[1].vertices[0].position.y.raw, spacing_units(1));
    let mut apart = vec![
        net(1, vec![normal(0, 0), normal(10, 0)]),
        net(2, vec![normal(13, 0), normal(20, 0)]),
    ];
    run(&mut apart);
    assert_eq!(apart[1].vertices[0].position.y.raw, 0);
}

#[test]
fn second_pass_changes_nothing() {
    let mut nets = vec![
        net(1, vec![normal(0, 0), normal(10, 0)]),
        net(2, vec![normal(5, 0), normal(15, 0)]),
        net(3, vec![normal(20, 0), normal(30, 0)]),
        net(4, vec![normal(7, 0), normal(9, 0)]),
    ];
    run(&mut nets);
    let once = positions(&nets);
    run(&mut nets);
    assert_eq!(positions(&nets), once);
}

#[test]
fn repeated_runs_agree() {
    let make = || {
        vec![
            net(1, vec![normal(0, 0), normal(10, 0), normal(10, 8)]),
            net(2, vec![normal(5, 0), normal(15, 0)]),
            net(3, vec![start(2, 0), normal(12, 0)]),
            net(4, vec![normal(10, 2), normal(10, 6)]),
        ]
    };
    let mut a = make();
    let mut b = make();
    let ca = run(&mut a);
    let cb = run(&mut b);
    assert_eq!(positions(&a), positions(&b));
    assert_eq!(ca, cb);
}

#[test]
fn anchored_vertices_never_move() {
    let mut nets = vec![
        net(1, vec![start(0, 0), normal(10, 0), normal(10, 5)]),
        net(2, vec![normal(3, 0), normal(13, 0)]),
        net(3, vec![normal(1, 0), normal(11, 0)]),
    ];
    let before = nets[0].vertices[0].position;
    run(&mut nets);
    run(&mut nets);
    assert_eq!(nets[0].vertices[0].position, before);
}

#[test]
fn locked_overlaps_are_reported() {
    let mut nets = vec![
        net(1, vec![start(0, 0), normal(10, 0)]),
        net(2, vec![start(5, 0), normal(15, 0)]),
    ];
    let conflicts = run(&mut nets);
    assert_eq!(conflicts, vec![SegmentRef { net: 1, index: 0 }]);
    assert_eq!(ys(&nets), vec![vec![0, 0], vec![0, 0]]);
}

#[test]
fn line_segment_junction_follows_the_move() {
    // Net 1: a run 0-1 along y = 0 with a branch 2-3 whose end (3) continues
    // the line; net 2 overlaps and takes track 0 first.
    let mut first = normal(0, 0);
    first.connected_junctions.push(Junction { vertex_index: 3, kind: JunctionKind::LineSegment });
    let mut nets = vec![
        net(2, vec![normal(0, 0), normal(10, 0)]),
        net(
            1,
            vec![first, normal(10, 0), normal(20, 9), end(Some(JunctionKind::LineSegment), 12, 0)],
        ),
    ];
    run(&mut nets);
    let moved = nets[1].vertices[0].position.y;
    assert_eq!(moved.raw, spacing_units(1));
    assert_eq!(nets[1].vertices[3].position.y, moved);
}

#[test]
fn corner_junction_keeps_alignment() {
    // Segment 0-1 moves up; vertex 4 is a corner end tied to vertex 0, and
    // its predecessor 3 shared its y before the move.
    let mut first = normal(0, 0);
    first.connected_junctions.push(Junction { vertex_index: 4, kind: JunctionKind::Corner });
    let mut nets = vec![
        net(2, vec![normal(0, 0), normal(10, 0)]),
        net(
            1,
            vec![
                first,
                normal(10, 0),
                end(None, 10, 40),
                normal(-20, 0),
                end(Some(JunctionKind::Corner), 0, 0),
            ],
        ),
    ];
    run(&mut nets);
    let vs = &nets[1].vertices;
    assert_eq!(vs[0].position.y.raw, spacing_units(1));
    assert_eq!(vs[4].position, vs[0].position);
    assert_eq!(vs[3].position.y, vs[4].position.y);
    assert_eq!(vs[3].position.x, Fixed::from_int(-20));
}

#[test]
fn corner_next_to_anchor_is_left_diagonal() {
    // The corner's predecessor is anchored to a port, so it stays and the
    // wire into the corner becomes diagonal.
    let mut first = normal(0, 0);
    first.connected_junctions.push(Junction { vertex_index: 4, kind: JunctionKind::Corner });
    let mut nets = vec![
        net(2, vec![normal(0, 0), normal(10, 0)]),
        net(
            1,
            vec![
                first,
                normal(10, 0),
                end(None, 10, 40),
                start(-20, 0),
                end(Some(JunctionKind::Corner), 0, 0),
            ],
        ),
    ];
    run(&mut nets);
    let vs = &nets[1].vertices;
    assert_eq!(vs[4].position, vs[0].position);
    assert_eq!(vs[3].position, pt(-20, 0));
    assert_ne!(vs[3].position.y, vs[4].position.y);
}

#[test]
fn corner_runs_widen_the_extent() {
    // Net 1 runs 0-1 on y = 0 from x = 10 to 20; a corner end at 4 ties into
    // vertex 0, and its predecessor 3 lies on the same line at x = 0, so the
    // segment covers [0, 20] and overlaps net 2's [1, 3].
    let mut first = normal(10, 0);
    first.connected_junctions.push(Junction { vertex_index: 4, kind: JunctionKind::Corner });
    let mut nets = vec![
        net(
            1,
            vec![first, normal(20, 0), end(None, 20, 30), normal(0, 0), end(Some(JunctionKind::Corner), 10, 0)],
        ),
        net(2, vec![normal(1, 0), normal(3, 0)]),
    ];
    run(&mut nets);
    assert_eq!(nets[1].vertices[0].position.y.raw, spacing_units(1));
}

#[test]
fn restricted_pairs_come_before_free_ones() {
    let mut corridor = Corridor::new(Fixed::from_int(0));
    corridor.insert(Fixed::from_int(0), Fixed::from_int(1), 0, 0, Movement::Free);
    corridor.insert(Fixed::from_int(0), Fixed::from_int(1), 1, 0, Movement::Restricted);
    corridor.insert(Fixed::from_int(0), Fixed::from_int(1), 2, 0, Movement::Locked);
    corridor.insert(Fixed::from_int(0), Fixed::from_int(1), 3, 0, Movement::Restricted);
    corridor.insert(Fixed::from_int(0), Fixed::from_int(1), 4, 0, Movement::Locked);
    let order: Vec<usize> = (0..corridor.len()).map(|i| corridor.pair(i).net).collect();
    assert_eq!(order, vec![2, 4, 3, 1, 0]);
    assert_eq!(corridor.locked_pairs, 2);
    let conflicts = corridor.assign_tracks();
    assert_eq!(conflicts, vec![SegmentRef { net: 4, index: 0 }]);
    let tracks: Vec<usize> = (0..corridor.len()).map(|i| corridor.pair(i).track).collect();
    assert_eq!(tracks, vec![0, 0, 1, 2, 3]);
    assert_eq!(corridor.track_count, 4);
}

#[test]
fn track_offsets_alternate() {
    let offsets: Vec<i64> = (0..7).map(track_offset).collect();
    assert_eq!(offsets, vec![0, 1, -1, 2, -2, 3, -3]);
}

#[test]
fn classification_follows_endpoint_kinds() {
    let n = VertexKind::Normal;
    let d = VertexKind::Dummy;
    let s = VertexKind::WireStart { anchor: 1 };
    let open_end = VertexKind::WireEnd { junction_kind: None };
    let corner_end = VertexKind::WireEnd { junction_kind: Some(JunctionKind::Corner) };
    let line_end = VertexKind::WireEnd { junction_kind: Some(JunctionKind::LineSegment) };
    assert_eq!(classify(n, n), Some(Movement::Free));
    assert_eq!(classify(s, n), Some(Movement::Locked));
    assert_eq!(classify(n, s), Some(Movement::Locked));
    assert_eq!(classify(n, open_end), Some(Movement::Locked));
    assert_eq!(classify(n, line_end), Some(Movement::Free));
    assert_eq!(classify(n, corner_end), None);
    assert_eq!(classify(open_end, n), None);
    assert_eq!(classify(d, n), Some(Movement::Restricted));
    assert_eq!(classify(n, d), Some(Movement::Restricted));
    assert_eq!(classify(d, d), None);
    assert_eq!(classify(s, d), None);
    assert_eq!(classify(d, line_end), None);
}

#[test]
fn chain_with_early_junction_is_refused() {
    let mut first = normal(0, 0);
    first.connected_junctions.push(Junction { vertex_index: 2, kind: JunctionKind::Corner });
    let vs = vec![first, normal(10, 0), end(Some(JunctionKind::Corner), 10, 5)];
    assert_eq!(check_chain(&vs), Err(ChainError::BadJunction { vertex: 0, junction: 0 }));
    let nets = vec![net(1, vs)];
    assert!(!layout_within_limits(&nets));
}

#[test]
fn junction_to_anchor_is_refused() {
    let mut first = normal(0, 0);
    first.connected_junctions.push(Junction { vertex_index: 2, kind: JunctionKind::LineSegment });
    let vs = vec![first, normal(10, 0), start(20, 0)];
    assert_eq!(check_chain(&vs), Err(ChainError::BadJunction { vertex: 0, junction: 0 }));
    let mut ok_first = normal(0, 0);
    ok_first.connected_junctions.push(Junction { vertex_index: 2, kind: JunctionKind::LineSegment });
    let ok = vec![ok_first, normal(10, 0), end(Some(JunctionKind::LineSegment), 20, 0)];
    assert_eq!(check_chain(&ok), Ok(()));
    let mut to_normal = normal(0, 0);
    to_normal.connected_junctions.push(Junction { vertex_index: 2, kind: JunctionKind::LineSegment });
    assert_eq!(check_chain(&vec![to_normal, normal(10, 0), normal(20, 0)]), Ok(()));
}

#[test]
fn out_of_range_coordinates_are_refused() {
    let far = Vertex {
        position: Point { x: Fixed::from_raw(COORD_LIMIT + 1), y: Fixed::from_int(0) },
        kind: VertexKind::Normal,
        connected_junctions: Vec::new(),
    };
    let nets = vec![net(1, vec![far, normal(0, 0)])];
    assert!(!layout_within_limits(&nets));
    let empty: Vec<Net> = Vec::new();
    assert!(layout_within_limits(&empty));
}

#[test]
fn empty_layout_is_left_alone() {
    let mut nets = vec![net(1, Vec::new()), net(2, vec![normal(1, 1)])];
    let conflicts = run(&mut nets);
    assert!(conflicts.is_empty());
    assert_eq!(nets[1].vertices[0].position, pt(1, 1));
}

#[test]
fn fixed_point_arithmetic() {
    assert_eq!(Fixed::from_int(3).raw, 3 * ONE);
    assert_eq!(Fixed::from_int(3).add(Fixed::from_int(4)), Fixed::from_int(7));
    assert_eq!(Fixed::from_int(3).sub(Fixed::from_int(4)), Fixed::from_int(-1));
    assert_eq!(Fixed::from_int(-5).abs(), Fixed::from_int(5));
    assert_eq!(Fixed::from_raw(-3).half(), Fixed::from_raw(-2));
    assert_eq!(Fixed::from_raw(7).half(), Fixed::from_raw(3));
    assert_eq!(Fixed::from_int(2).min(Fixed::from_int(-2)), Fixed::from_int(-2));
    assert_eq!(Fixed::from_int(2).max(Fixed::from_int(-2)), Fixed::from_int(2));
}

#[test]
fn many_overlapping_segments_all_separate() {
    let mut nets: Vec<Net> = (0..20).map(|i| net(i as u64, vec![normal(i, 0), normal(i + 30, 0)])).collect();
    run(&mut nets);
    let mut lines: Vec<i64> = nets.iter().map(|n| n.vertices[0].position.y.raw).collect();
    assert_eq!(lines[19], spacing_units(10));
    assert_eq!(lines[18], -spacing_units(9));
    lines.sort();
    lines.dedup();
    assert_eq!(lines.len(), 20);
}

#[test]
fn second_vertex_line_segment_junction_follows_the_move() {
    // The junction sits on the second vertex (1) of the moved segment 0-1.
    let mut second = normal(10, 0);
    second.connected_junctions.push(Junction { vertex_index: 3, kind: JunctionKind::LineSegment });
    let mut nets = vec![
        net(2, vec![normal(0, 0), normal(10, 0)]),
        net(
            1,
            vec![normal(0, 0), second, normal(20, 9), end(Some(JunctionKind::LineSegment), 12, 5)],
        ),
    ];
    run(&mut nets);
    let moved = nets[1].vertices[1].position.y;
    assert_eq!(moved.raw, spacing_units(1));
    assert_eq!(nets[1].vertices[3].position.y, moved);
    assert_eq!(nets[1].vertices[3].position.x, Fixed::from_int(12));
}
