use geofile::bbox::{from_points, order_key, union_of, GeoBBox};
use geofile::node::GeoNode;

fn b(x_min: f32, x_max: f32, y_min: f32, y_max: f32) -> GeoBBox {
    GeoBBox::new(x_min.to_bits(), x_max.to_bits(), y_min.to_bits(), y_max.to_bits())
}

#[test]
fn test_new() {
    let bbox = b(1.0, 2.0, 3.0, 4.0);
    assert_eq!(f32::from_bits(bbox.x_min), 1.0);
    assert_eq!(f32::from_bits(bbox.x_max), 2.0);
    assert_eq!(f32::from_bits(bbox.y_min), 3.0);
    assert_eq!(f32::from_bits(bbox.y_max), 4.0);
}

#[test]
fn test_new_point() {
    let bbox = GeoBBox::new_point(1.0f32.to_bits(), 2.0f32.to_bits());
    assert_eq!(f32::from_bits(bbox.x_min), 1.0);
    assert_eq!(f32::from_bits(bbox.x_max), 1.0);
    assert_eq!(f32::from_bits(bbox.y_min), 2.0);
    assert_eq!(f32::from_bits(bbox.y_max), 2.0);
}

#[test]
fn new_empty_uses_infinities() {
    let bbox = GeoBBox::new_empty();
    assert_eq!(f32::from_bits(bbox.x_min), f32::INFINITY);
    assert_eq!(f32::from_bits(bbox.x_max), f32::NEG_INFINITY);
    assert_eq!(f32::from_bits(bbox.y_min), f32::INFINITY);
    assert_eq!(f32::from_bits(bbox.y_max), f32::NEG_INFINITY);
}

#[test]
fn test_include_point() {
    let mut bbox = GeoBBox::new_empty();
    bbox.include_point(1.0f32.to_bits(), 2.0f32.to_bits());
    assert_eq!(f32::from_bits(bbox.x_min), 1.0);
    assert_eq!(f32::from_bits(bbox.x_max), 1.0);
    assert_eq!(f32::from_bits(bbox.y_min), 2.0);
    assert_eq!(f32::from_bits(bbox.y_max), 2.0);
}

#[test]
fn test_include_bbox() {
    let mut bbox = b(1.0, 2.0, 1.0, 2.0);
    let bbox2 = b(0.0, 3.0, 0.0, 3.0);
    bbox.include_bbox(&bbox2);
    assert_eq!(f32::from_bits(bbox.x_min), 0.0);
    assert_eq!(f32::from_bits(bbox.x_max), 3.0);
    assert_eq!(f32::from_bits(bbox.y_min), 0.0);
    assert_eq!(f32::from_bits(bbox.y_max), 3.0);
}

#[test]
fn test_overlap_bbox() {
    let bbox = b(1.0, 3.0, 1.0, 3.0);
    let bbox2 = b(2.0, 4.0, 2.0, 4.0);
    assert_eq!(bbox.overlap_bbox(&bbox2), true);
}

#[test]
fn overlap_is_inclusive_and_detects_gaps() {
    let a = b(1.0, 2.0, 1.0, 2.0);
    assert!(a.overlap_bbox(&b(2.0, 3.0, 2.0, 3.0)));
    assert!(a.overlap_bbox(&GeoBBox::new_point(2.0f32.to_bits(), 1.5f32.to_bits())));
    assert!(!a.overlap_bbox(&b(2.5, 3.0, 1.0, 2.0)));
    assert!(!a.overlap_bbox(&b(1.0, 2.0, -3.0, 0.5)));
    assert!(b(-5.0, -1.0, -5.0, -1.0).overlap_bbox(&b(-2.0, 0.0, -2.0, 0.0)));
    assert!(!b(-5.0, -3.0, -5.0, -1.0).overlap_bbox(&b(-2.0, 0.0, -2.0, 0.0)));
}

#[test]
fn order_key_follows_float_order() {
    let values = [f32::NEG_INFINITY, -3.5, -1.0, -0.0, 0.0, 1.0e-30, 2.0, 7.25, f32::INFINITY];
    for w in values.windows(2) {
        assert!(order_key(w[0].to_bits()) <= order_key(w[1].to_bits()));
    }
    assert!(order_key((-1.0f32).to_bits()) < order_key(1.0f32.to_bits()));
    assert_eq!(order_key((-0.0f32).to_bits()), order_key(0.0f32.to_bits()));
}

#[test]
fn union_and_points_cover() {
    let u = union_of(&b(1.0, 2.0, 5.0, 6.0), &b(-1.0, 1.5, 5.5, 9.0));
    assert_eq!(u, b(-1.0, 2.0, 5.0, 9.0));
    let pts = vec![(3.0f32.to_bits(), 4.0f32.to_bits()), ((-1.0f32).to_bits(), 8.0f32.to_bits())];
    assert_eq!(from_points(&pts), b(-1.0, 3.0, 4.0, 8.0));
    assert_eq!(from_points(&vec![]), GeoBBox::new_empty());
}

#[test]
fn test_new_leaf() {
    let bbox = b(1.0, 2.0, 3.0, 4.0);
    let leaf = GeoNode::new_leaf(bbox.clone(), 10, 20);
    assert_eq!(leaf.bbox, bbox);
    assert_eq!(leaf.is_leaf, true);
    assert_eq!(leaf.value1, 10);
    assert_eq!(leaf.value2, 20);
    assert_eq!(leaf.next, 0);
}

#[test]
fn test_new_node() {
    let bbox = b(1.0, 2.0, 3.0, 4.0);
    let node = GeoNode::new_node(bbox.clone());
    assert_eq!(node.bbox, bbox);
    assert_eq!(node.is_leaf, false);
    assert_eq!(node.value1, 0);
    assert_eq!(node.value2, 0);
    assert_eq!(node.next, 0);
}
