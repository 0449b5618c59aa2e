use papirs_core::diff::rect_diff;
use papirs_core::geom::{bounding_rect_of, expand_rect, seg_meets_box_wide, Coord, Line, Rect};

fn c(x: i32, y: i32) -> Coord {
    Coord { x, y }
}

#[test]
fn rect_new_normalizes() {
    let r = Rect::new(c(10, -5), c(-3, 7));
    assert_eq!(r.min, c(-3, -5));
    assert_eq!(r.max, c(10, 7));
}

#[test]
fn rect_meets_and_contains() {
    let a = Rect::new(c(0, 0), c(10, 10));
    let b = Rect::new(c(10, 10), c(20, 20));
    let d = Rect::new(c(11, 11), c(20, 20));
    let inner = Rect::new(c(2, 2), c(8, 8));
    assert!(a.meets(&b));
    assert!(!a.meets(&d));
    assert!(a.contains(&inner));
    assert!(!inner.contains(&a));
    assert!(a.contains(&a));
}

#[test]
fn expand_rect_grows_every_side() {
    let r = expand_rect(Rect::new(c(0, 0), c(10, 20)), 5);
    assert_eq!(r.min, c(-5, -5));
    assert_eq!(r.max, c(15, 25));
}

#[test]
fn bounding_rect_of_points() {
    let pts = vec![c(3, 7), c(-2, 9), c(5, -1)];
    let r = bounding_rect_of(&pts);
    assert_eq!(r.min, c(-2, -1));
    assert_eq!(r.max, c(5, 9));
}

#[test]
fn segment_meets_box_exactly() {
    // crossing the box
    assert!(seg_meets_box_wide(c(-10, 5), c(20, 5), 0, 0, 10, 10));
    // touching a corner
    assert!(seg_meets_box_wide(c(-5, -5), c(0, 0), 0, 0, 10, 10));
    // bounding boxes overlap but the segment passes outside the box corner
    assert!(!seg_meets_box_wide(c(0, 12), c(12, 24), 0, 0, 10, 10));
    // fully inside
    assert!(seg_meets_box_wide(c(2, 2), c(3, 3), 0, 0, 10, 10));
    // a single point outside
    assert!(!seg_meets_box_wide(c(11, 11), c(11, 11), 0, 0, 10, 10));
    // a single point on the boundary
    assert!(seg_meets_box_wide(c(10, 10), c(10, 10), 0, 0, 10, 10));
}

#[test]
fn line_meets_rect() {
    let r = Rect::new(c(0, 0), c(10, 10));
    assert!(Line { start: c(-1, 5), end: c(11, 5) }.meets_rect(&r));
    assert!(!Line { start: c(0, 12), end: c(12, 24) }.meets_rect(&r));
}

#[test]
fn rect_diff_shrink_on_x() {
    // selection drag from (0,0) to (100,100) and then to (50,100): one
    // removed slab over x in [50,100], y in [0,100], and nothing added
    let d = rect_diff(c(0, 0), c(100, 100), c(50, 100));
    assert_eq!(d.removed.len(), 1);
    assert_eq!(d.added.len(), 0);
    assert_eq!(d.removed[0].min, c(50, 0));
    assert_eq!(d.removed[0].max, c(100, 100));
}

#[test]
fn rect_diff_grow_on_both_axes() {
    let d = rect_diff(c(0, 0), c(100, 100), c(150, 150));
    assert_eq!(d.removed.len(), 0);
    assert_eq!(d.added.len(), 2);
    // the X slab spans the old Y extent; the Y slab spans the full new X extent
    assert_eq!(d.added[0].min, c(100, 0));
    assert_eq!(d.added[0].max, c(150, 100));
    assert_eq!(d.added[1].min, c(0, 100));
    assert_eq!(d.added[1].max, c(150, 150));
}

#[test]
fn rect_diff_degenerate_flip() {
    // the new diagonal flipped past the origin: whole rectangles swap
    let d = rect_diff(c(0, 0), c(100, 100), c(-40, 60));
    assert_eq!(d.removed.len(), 1);
    assert_eq!(d.added.len(), 1);
    assert_eq!(d.removed[0].min, c(0, 0));
    assert_eq!(d.removed[0].max, c(100, 100));
    assert_eq!(d.added[0].min, c(-40, 0));
    assert_eq!(d.added[0].max, c(0, 60));
}

#[test]
fn rect_diff_mixed_axes() {
    // X grows, Y shrinks
    let d = rect_diff(c(0, 0), c(100, 100), c(150, 60));
    assert_eq!(d.added.len(), 1);
    assert_eq!(d.removed.len(), 1);
    assert_eq!(d.added[0].min, c(100, 0));
    assert_eq!(d.added[0].max, c(150, 60));
    assert_eq!(d.removed[0].min, c(0, 60));
    assert_eq!(d.removed[0].max, c(100, 100));
}

#[test]
fn rect_diff_negative_orientation() {
    // dragging up-left of the origin
    let d = rect_diff(c(0, 0), c(-100, -100), c(-50, -100));
    assert_eq!(d.removed.len(), 1);
    assert_eq!(d.added.len(), 0);
    assert_eq!(d.removed[0].min, c(-100, -100));
    assert_eq!(d.removed[0].max, c(-50, 0));
}
