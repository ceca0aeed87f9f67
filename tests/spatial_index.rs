use bvh_arena::volumes::Aabb;
use digilogic_layout::chain::{JunctionKind, Vertex, VertexKind};
use digilogic_layout::fixed::{Fixed, Point, ONE};
use digilogic_layout::spatial::{
    net_bounding_boxes, wire_bounding_box, BoundingBox, SpatialIndex, WIRE_BBOX_THICKNESS,
};

fn aabb(x0: f32, y0: f32, x1: f32, y1: f32) -> Aabb<2> {
    Aabb::from_min_max([x0, y0], [x1, y1])
}

fn pt(x: i32, y: i32) -> Point {
    Point { x: Fixed::from_int(x), y: Fixed::from_int(y) }
}

fn vertex(kind: VertexKind, x: i32, y: i32) -> Vertex {
    Vertex { position: pt(x, y), kind, connected_junctions: Vec::new() }
}

fn raw_box(x0: i64, y0: i64, x1: i64, y1: i64) -> BoundingBox {
    BoundingBox {
        min: Point { x: Fixed::from_raw(x0), y: Fixed::from_raw(y0) },
        max: Point { x: Fixed::from_raw(x1), y: Fixed::from_raw(y1) },
    }
}

#[test]
fn removed_entity_is_no_longer_found() {
    let mut index = SpatialIndex::new();
    let e = 42;
    index.update_all(e, vec![aabb(0.0, 0.0, 1.0, 1.0), aabb(10.0, 10.0, 11.0, 11.0)]);
    let hits = index.query(&aabb(0.5, 0.5, 2.0, 2.0));
    assert_eq!(hits, vec![e]);
    index.remove(e);
    let hits = index.query(&aabb(0.5, 0.5, 2.0, 2.0));
    assert!(hits.is_empty());
}

#[test]
fn entity_reported_once_per_overlapping_box() {
    let mut index = SpatialIndex::new();
    index.update_all(1, vec![aabb(0.0, 0.0, 1.0, 1.0), aabb(2.0, 0.0, 3.0, 1.0)]);
    index.update(2, aabb(20.0, 20.0, 21.0, 21.0));
    let mut hits = index.query(&aabb(0.0, 0.0, 3.0, 1.0));
    hits.sort();
    assert_eq!(hits, vec![1, 1]);
    assert_eq!(index.query(&aabb(20.5, 20.5, 30.0, 30.0)), vec![2]);
}

#[test]
fn update_replaces_previous_boxes() {
    let mut index = SpatialIndex::new();
    index.update_all(5, vec![aabb(0.0, 0.0, 1.0, 1.0), aabb(4.0, 4.0, 5.0, 5.0)]);
    index.update(5, aabb(8.0, 8.0, 9.0, 9.0));
    assert!(index.query(&aabb(0.0, 0.0, 5.0, 5.0)).is_empty());
    assert_eq!(index.query(&aabb(8.5, 8.5, 8.6, 8.6)), vec![5]);
    index.update_all(5, Vec::new());
    assert!(index.query(&aabb(0.0, 0.0, 10.0, 10.0)).is_empty());
}

#[test]
fn removing_unknown_entity_is_harmless() {
    let mut index = SpatialIndex::new();
    index.update(1, aabb(0.0, 0.0, 1.0, 1.0));
    index.remove(99);
    assert_eq!(index.query(&aabb(0.0, 0.0, 1.0, 1.0)), vec![1]);
}

#[test]
fn vertical_wire_box() {
    let b = wire_bounding_box(pt(2, 0), pt(2, 10));
    assert_eq!(b, raw_box(2 * ONE - WIRE_BBOX_THICKNESS, 0, 2 * ONE + WIRE_BBOX_THICKNESS, 10 * ONE));
}

#[test]
fn horizontal_wire_box() {
    let b = wire_bounding_box(pt(8, 3), pt(-2, 3));
    assert_eq!(b, raw_box(-2 * ONE, 3 * ONE - WIRE_BBOX_THICKNESS, 8 * ONE, 3 * ONE + WIRE_BBOX_THICKNESS));
}

#[test]
fn boxes_follow_wire_runs() {
    let vs = vec![
        vertex(VertexKind::WireStart { anchor: 1 }, 0, 0),
        vertex(VertexKind::Normal, 10, 0),
        vertex(VertexKind::WireEnd { junction_kind: None }, 10, 6),
        vertex(VertexKind::WireStart { anchor: 2 }, 20, 0),
        vertex(VertexKind::WireEnd { junction_kind: Some(JunctionKind::Corner) }, 20, 4),
    ];
    let boxes = net_bounding_boxes(&vs);
    assert_eq!(
        boxes,
        vec![
            wire_bounding_box(pt(0, 0), pt(10, 0)),
            wire_bounding_box(pt(10, 0), pt(10, 6)),
            wire_bounding_box(pt(20, 0), pt(20, 4)),
        ]
    );
    assert_eq!(boxes[0], raw_box(0, -WIRE_BBOX_THICKNESS, 10 * ONE, WIRE_BBOX_THICKNESS));
    assert!(net_bounding_boxes(&Vec::new()).is_empty());
}

#[test]
fn from_center_half_size_spans_both_sides() {
    let b = BoundingBox::from_center_half_size(pt(1, 1), Fixed::from_int(2), Fixed::from_int(3));
    assert_eq!(b.min, pt(-1, -2));
    assert_eq!(b.max, pt(3, 4));
}

#[test]
fn placeholder_segments_get_no_box() {
    let vs = vec![
        vertex(VertexKind::WireStart { anchor: 1 }, 0, 0),
        vertex(VertexKind::Dummy, 0, 0),
        vertex(VertexKind::Dummy, 0, 0),
        vertex(VertexKind::Normal, 10, 0),
        vertex(VertexKind::Dummy, 10, 5),
        vertex(VertexKind::WireEnd { junction_kind: None }, 10, 5),
    ];
    let boxes = net_bounding_boxes(&vs);
    assert_eq!(
        boxes,
        vec![wire_bounding_box(pt(0, 0), pt(10, 0)), wire_bounding_box(pt(10, 0), pt(10, 5))]
    );
}
