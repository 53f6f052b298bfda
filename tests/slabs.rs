use ray_tracing_weekend::aabb::slab_window;
use ray_tracing_weekend::hittable::{clip_span, root_in_window};

#[test]
fn slab_window_intersects_all_axes() {
    let slabs = [(0, 10), (2, 8), (4, 12)];
    assert_eq!(slab_window(-100, 100, slabs), Some((4, 8)));
    assert_eq!(slab_window(5, 100, slabs), Some((5, 8)));
    assert_eq!(slab_window(-100, 6, slabs), Some((4, 6)));
}

#[test]
fn slab_window_orders_crossings() {
    // A ray going the negative way crosses the far plane first.
    let slabs = [(10, 0), (8, 2), (12, 4)];
    assert_eq!(slab_window(-100, 100, slabs), Some((4, 8)));
}

#[test]
fn slab_window_empty_when_slabs_disjoint() {
    assert_eq!(slab_window(-100, 100, [(0, 3), (5, 9), (0, 9)]), None);
    // Touching windows are empty too.
    assert_eq!(slab_window(-100, 100, [(0, 5), (5, 9), (0, 9)]), None);
    // The query window alone can close it.
    assert_eq!(slab_window(20, 100, [(0, 10), (0, 10), (0, 10)]), None);
    assert_eq!(slab_window(3, 3, [(0, 10), (0, 10), (0, 10)]), None);
}

#[test]
fn slab_window_through_center_hits() {
    // A box around the origin, a ray through its center: every slab holds t = 50.
    let slabs = [(40, 60), (45, 55), (30, 70)];
    let w = slab_window(i32::MIN, i32::MAX, slabs).unwrap();
    assert!(w.0 < 50 && 50 < w.1);
    assert_eq!(w, (45, 55));
}

#[test]
fn slab_window_narrowing_order_does_not_matter() {
    let a = (3, 9);
    let b = (1, 7);
    let c = (5, 20);
    let expected = slab_window(0, 100, [a, b, c]);
    assert_eq!(expected, Some((5, 7)));
    assert_eq!(slab_window(0, 100, [c, a, b]), expected);
    assert_eq!(slab_window(0, 100, [b, c, a]), expected);
}

#[test]
fn root_in_window_prefers_near_root() {
    assert_eq!(root_in_window(0, 100, 10, 20), Some(10));
    assert_eq!(root_in_window(15, 100, 10, 20), Some(20));
    assert_eq!(root_in_window(10, 100, 10, 20), Some(20));
    assert_eq!(root_in_window(0, 20, 30, 40), None);
    assert_eq!(root_in_window(0, 20, -5, 20), None);
    assert_eq!(root_in_window(-10, 0, -5, 3), Some(-5));
}

#[test]
fn clip_span_cuts_to_window_and_origin() {
    assert_eq!(clip_span(-100, 100, 10, 20), Some((10, 20)));
    assert_eq!(clip_span(12, 100, 10, 20), Some((12, 20)));
    assert_eq!(clip_span(-100, 15, 10, 20), Some((10, 15)));
    assert_eq!(clip_span(-100, 100, -10, 20), Some((0, 20)));
    assert_eq!(clip_span(-100, 100, -10, -5), Some((0, -5)));
    assert_eq!(clip_span(30, 100, 10, 20), None);
    assert_eq!(clip_span(-100, 100, 20, 20), None);
}
