use cave_diver::bounding_box::BoundingBox;
use cave_diver::camera::Camera;

#[test]
fn test_intersects_is_symmetric() {
    let a = BoundingBox { left: 0, right: 10, top: 0, bottom: 10 };
    let b = BoundingBox { left: 5, right: 15, top: 5, bottom: 15 };
    let c = BoundingBox { left: 20, right: 30, top: 20, bottom: 30 };

    assert!(a.intersects(&b));
    assert!(b.intersects(&a));
    assert!(!a.intersects(&c));
    assert!(!c.intersects(&a));
}

#[test]
fn test_edge_sharing_boxes_do_not_intersect() {
    // Same vertical range, sharing only the edge x == 10.
    let a = BoundingBox { left: 0, right: 10, top: 0, bottom: 10 };
    let b = BoundingBox { left: 10, right: 20, top: 0, bottom: 10 };

    assert!(!a.intersects(&b));
    assert!(!b.intersects(&a));
}

#[test]
fn test_corner_touching_boxes_do_not_intersect() {
    let a = BoundingBox { left: 0, right: 5, top: 0, bottom: 5 };
    let b = BoundingBox { left: 5, right: 9, top: 5, bottom: 9 };

    assert!(!a.intersects(&b));
    assert!(!b.intersects(&a));
}

#[test]
fn test_malformed_box_is_never_validated() {
    // right <= left is never validated; such a box cannot even overlap
    // itself, and fails against anything inside its inverted span.
    let bad = BoundingBox { left: 5, right: 2, top: 0, bottom: 10 };
    let inner = BoundingBox { left: 2, right: 5, top: 0, bottom: 10 };

    assert!(!bad.intersects(&bad));
    assert!(!bad.intersects(&inner));
    assert!(!inner.intersects(&bad));
}

#[test]
fn test_fresh_camera_projects_its_position_to_origin() {
    let cam = Camera::new(7, -3, 10, 8);
    assert_eq!(cam.world_to_screen(7, -3), Some((0, 0)));
}

#[test]
fn test_world_to_screen_inside_viewport() {
    let cam = Camera::new(7, -3, 10, 8);
    assert_eq!(cam.world_to_screen(16, 4), Some((9, 7)));
    assert_eq!(cam.world_to_screen(8, -2), Some((1, 1)));
}

#[test]
fn test_world_to_screen_is_off_screen_outside_viewport() {
    let cam = Camera::new(7, -3, 10, 8);
    // One to the left, and exactly on the right edge (half-open).
    assert_eq!(cam.world_to_screen(6, -3), None);
    assert_eq!(cam.world_to_screen(17, -3), None);
    // One above, and exactly on the bottom edge.
    assert_eq!(cam.world_to_screen(7, -4), None);
    assert_eq!(cam.world_to_screen(7, 5), None);
    // Far away.
    assert_eq!(cam.world_to_screen(1000, 1000), None);
}

#[test]
fn test_is_visible_uses_half_open_intervals() {
    let cam = Camera::new(0, 0, 10, 10);

    assert!(cam.is_visible(9, 9, 1, 1));
    assert!(cam.is_visible(-4, -4, 5, 5));
    // A rectangle that starts exactly at the far edge is not visible.
    assert!(!cam.is_visible(10, 0, 5, 5));
    assert!(!cam.is_visible(0, 10, 5, 5));
    // One that ends exactly at the near edge is not visible either.
    assert!(!cam.is_visible(-5, 0, 5, 5));
}

#[test]
fn test_update_bbox_refreshes_the_cached_footprint() {
    let mut cam = Camera::new(0, 0, 10, 8);
    assert_eq!(cam.camera_view.left, 0);
    assert_eq!(cam.camera_view.right, 10);

    cam.x = 5;
    cam.y = -2;
    cam.update_bbox();

    assert_eq!(cam.camera_view.left, 5);
    assert_eq!(cam.camera_view.right, 15);
    assert_eq!(cam.camera_view.top, -2);
    assert_eq!(cam.camera_view.bottom, 6);
}
