//! Integer-grid geometry: points, axis-aligned rectangles, line segments,
//! and the exact segment–rectangle intersection test used by the tile index.

use vstd::prelude::*;

verus! {

/// A 2D point or translation on the integer canvas.
#[derive(Clone, Copy, PartialEq, Eq, Structural, Hash, Debug)]
pub struct Coord {
    pub x: i32,
    pub y: i32,
}

/// An axis-aligned rectangle given by its inclusive min and max corners.
#[derive(Clone, Copy, PartialEq, Eq, Structural, Debug)]
pub struct Rect {
    pub min: Coord,
    pub max: Coord,
}

/// A line segment between two points.
#[derive(Clone, Copy, PartialEq, Eq, Structural, Debug)]
pub struct Line {
    pub start: Coord,
    pub end: Coord,
}

impl Coord {
    pub fn new(x: i32, y: i32) -> (r: Coord)
        ensures
            r == (Coord { x, y }),
    {
        Coord { x, y }
    }
}

impl Rect {
    /// The corners are ordered: `min` is coordinate-wise at most `max`.
    pub open spec fn wf(self) -> bool {
        self.min.x <= self.max.x && self.min.y <= self.max.y
    }

    /// Whether this rectangle covers the point `(px, py)` (boundary included).
    pub open spec fn covers(self, px: int, py: int) -> bool {
        &&& self.min.x <= px <= self.max.x
        &&& self.min.y <= py <= self.max.y
    }

    /// Whether `(px, py)`, a point at half-unit resolution (each unit of `px`
    /// is half a canvas unit), lies strictly inside this rectangle.
    pub open spec fn half_point_inside(self, px: int, py: int) -> bool {
        &&& 2 * self.min.x < px < 2 * self.max.x
        &&& 2 * self.min.y < py < 2 * self.max.y
    }

    /// Whether `(px, py)` at half-unit resolution is covered (boundary included).
    pub open spec fn half_point_covered(self, px: int, py: int) -> bool {
        &&& 2 * self.min.x <= px <= 2 * self.max.x
        &&& 2 * self.min.y <= py <= 2 * self.max.y
    }

    /// Whether two rectangles share at least one point (boundaries included).
    pub open spec fn spec_meets(self, other: Rect) -> bool {
        &&& self.min.x <= other.max.x && other.min.x <= self.max.x
        &&& self.min.y <= other.max.y && other.min.y <= self.max.y
    }

    /// Whether `other` lies entirely within this rectangle (boundaries included).
    pub open spec fn spec_contains(self, other: Rect) -> bool {
        &&& self.min.x <= other.min.x && other.max.x <= self.max.x
        &&& self.min.y <= other.min.y && other.max.y <= self.max.y
    }

    /// The rectangle spanned by two opposite corners, in any orientation.
    pub fn new(c1: Coord, c2: Coord) -> (r: Rect)
        ensures
            r == Rect::spec_new(c1, c2),
            r.wf(),
    {
        Rect {
            min: Coord { x: if c1.x <= c2.x { c1.x } else { c2.x }, y: if c1.y <= c2.y { c1.y } else { c2.y } },
            max: Coord { x: if c1.x <= c2.x { c2.x } else { c1.x }, y: if c1.y <= c2.y { c2.y } else { c1.y } },
        }
    }

    /// The normalized rectangle spanned by two opposite corners.
    pub open spec fn spec_new(c1: Coord, c2: Coord) -> Rect {
        Rect {
            min: Coord { x: if c1.x <= c2.x { c1.x } else { c2.x }, y: if c1.y <= c2.y { c1.y } else { c2.y } },
            max: Coord { x: if c1.x <= c2.x { c2.x } else { c1.x }, y: if c1.y <= c2.y { c2.y } else { c1.y } },
        }
    }

    /// Whether two rectangles share at least one point (boundaries included).
    pub fn meets(&self, other: &Rect) -> (r: bool)
        ensures
            r == self.spec_meets(*other),
    {
        self.min.x <= other.max.x && other.min.x <= self.max.x && self.min.y <= other.max.y
            && other.min.y <= self.max.y
    }

    /// Whether `other` lies entirely within this rectangle (boundaries included).
    pub fn contains(&self, other: &Rect) -> (r: bool)
        ensures
            r == self.spec_contains(*other),
    {
        self.min.x <= other.min.x && other.max.x <= self.max.x && self.min.y <= other.min.y
            && other.max.y <= self.max.y
    }
}

/// A rectangle grown by `delta` on every side.
pub fn expand_rect(rect: Rect, delta: i32) -> (r: Rect)
    requires
        i32::MIN <= rect.min.x - delta <= i32::MAX,
        i32::MIN <= rect.min.y - delta <= i32::MAX,
        i32::MIN <= rect.max.x + delta <= i32::MAX,
        i32::MIN <= rect.max.y + delta <= i32::MAX,
    ensures
        r == spec_expand_rect(rect, delta as int),
{
    Rect {
        min: Coord { x: rect.min.x - delta, y: rect.min.y - delta },
        max: Coord { x: rect.max.x + delta, y: rect.max.y + delta },
    }
}

/// The rectangle `rect` grown by `delta` on every side.
pub open spec fn spec_expand_rect(rect: Rect, delta: int) -> Rect {
    Rect {
        min: Coord { x: (rect.min.x - delta) as i32, y: (rect.min.y - delta) as i32 },
        max: Coord { x: (rect.max.x + delta) as i32, y: (rect.max.y + delta) as i32 },
    }
}


/// The smaller of two integers.
pub open spec fn lo(a: int, b: int) -> int {
    if a <= b {
        a
    } else {
        b
    }
}

/// The larger of two integers.
pub open spec fn hi(a: int, b: int) -> int {
    if a <= b {
        b
    } else {
        a
    }
}

/// Twice the signed area of the triangle `a`, `b`, `(px, py)`: positive when
/// `(px, py)` lies to the left of the directed line from `a` to `b`.
pub open spec fn cross(a: Coord, b: Coord, px: int, py: int) -> int {
    (b.x - a.x) * (py - a.y) - (b.y - a.y) * (px - a.x)
}

/// Whether the closed segment from `a` to `b` shares a point of the real plane
/// with the closed box `[x0, x1] × [y0, y1]`. By the separating-axis theorem
/// for the segment and the box, the two convex sets are disjoint exactly when
/// one of the box's axes separates them (the bounding intervals do not
/// overlap) or the segment's own line does (all four box corners lie strictly
/// on one side of it).
pub open spec fn seg_meets_box(a: Coord, b: Coord, x0: int, y0: int, x1: int, y1: int) -> bool {
    &&& lo(a.x as int, b.x as int) <= x1 && x0 <= hi(a.x as int, b.x as int)
    &&& lo(a.y as int, b.y as int) <= y1 && y0 <= hi(a.y as int, b.y as int)
    &&& !(cross(a, b, x0, y0) > 0 && cross(a, b, x1, y0) > 0 && cross(a, b, x0, y1) > 0 && cross(
        a,
        b,
        x1,
        y1,
    ) > 0)
    &&& !(cross(a, b, x0, y0) < 0 && cross(a, b, x1, y0) < 0 && cross(a, b, x0, y1) < 0 && cross(
        a,
        b,
        x1,
        y1,
    ) < 0)
}

/// Bounds the product of two moderately sized factors, so that the cross
/// products of the intersection test visibly fit their integer type.
proof fn lemma_mul_bound(x: int, y: int)
    requires
        -0x4_0000_0000 <= x <= 0x4_0000_0000,
        -0x2_0000_0000_0000 <= y <= 0x2_0000_0000_0000,
    ensures
        -0x8_0000_0000_0000_0000_0000 <= x * y <= 0x8_0000_0000_0000_0000_0000,
{
    assert(-0x8_0000_0000_0000_0000_0000 <= x * y <= 0x8_0000_0000_0000_0000_0000)
        by (nonlinear_arith)
        requires
            -0x4_0000_0000 <= x <= 0x4_0000_0000,
            -0x2_0000_0000_0000 <= y <= 0x2_0000_0000_0000,
    ;
}

/// Exact segment–box intersection test; box bounds may exceed the coordinate
/// range (tile boxes do, at the canvas edge).
pub fn seg_meets_box_wide(a: Coord, b: Coord, x0: i64, y0: i64, x1: i64, y1: i64) -> (r: bool)
    requires
        -0x1_0000_0000_0000i64 <= x0 <= 0x1_0000_0000_0000i64,
        -0x1_0000_0000_0000i64 <= y0 <= 0x1_0000_0000_0000i64,
        -0x1_0000_0000_0000i64 <= x1 <= 0x1_0000_0000_0000i64,
        -0x1_0000_0000_0000i64 <= y1 <= 0x1_0000_0000_0000i64,
    ensures
        r == seg_meets_box(a, b, x0 as int, y0 as int, x1 as int, y1 as int),
{
    let sminx: i64 = if a.x <= b.x {
        a.x as i64
    } else {
        b.x as i64
    };
    let smaxx: i64 = if a.x <= b.x {
        b.x as i64
    } else {
        a.x as i64
    };
    let sminy: i64 = if a.y <= b.y {
        a.y as i64
    } else {
        b.y as i64
    };
    let smaxy: i64 = if a.y <= b.y {
        b.y as i64
    } else {
        a.y as i64
    };
    if !(sminx <= x1 && x0 <= smaxx && sminy <= y1 && y0 <= smaxy) {
        return false;
    }
    let dx: i128 = b.x as i128 - a.x as i128;
    let dy: i128 = b.y as i128 - a.y as i128;
    let fx0: i128 = x0 as i128 - a.x as i128;
    let fx1: i128 = x1 as i128 - a.x as i128;
    let fy0: i128 = y0 as i128 - a.y as i128;
    let fy1: i128 = y1 as i128 - a.y as i128;
    proof {
        lemma_mul_bound(dx as int, fy0 as int);
        lemma_mul_bound(dx as int, fy1 as int);
        lemma_mul_bound(dy as int, fx0 as int);
        lemma_mul_bound(dy as int, fx1 as int);
    }
    let c00: i128 = dx * fy0 - dy * fx0;
    let c10: i128 = dx * fy0 - dy * fx1;
    let c01: i128 = dx * fy1 - dy * fx0;
    let c11: i128 = dx * fy1 - dy * fx1;
    let all_pos = c00 > 0 && c10 > 0 && c01 > 0 && c11 > 0;
    let all_neg = c00 < 0 && c10 < 0 && c01 < 0 && c11 < 0;
    !all_pos && !all_neg
}

impl Line {
    pub fn new(start: Coord, end: Coord) -> (r: Line)
        ensures
            r == (Line { start, end }),
    {
        Line { start, end }
    }

    /// Whether this segment shares a point with the rectangle.
    pub open spec fn spec_meets_rect(self, r: Rect) -> bool {
        seg_meets_box(
            self.start,
            self.end,
            r.min.x as int,
            r.min.y as int,
            r.max.x as int,
            r.max.y as int,
        )
    }

    /// Exact segment–rectangle intersection test.
    pub fn meets_rect(&self, r: &Rect) -> (b: bool)
        ensures
            b == self.spec_meets_rect(*r),
    {
        seg_meets_box_wide(
            self.start,
            self.end,
            r.min.x as i64,
            r.min.y as i64,
            r.max.x as i64,
            r.max.y as i64,
        )
    }
}

/// The tight bounding rectangle of a non-empty point sequence.
pub open spec fn bb_of(ps: Seq<Coord>) -> Rect
    recommends
        ps.len() >= 1,
    decreases ps.len(),
{
    if ps.len() <= 1 {
        Rect { min: ps[0], max: ps[0] }
    } else {
        let r = bb_of(ps.drop_last());
        let p = ps.last();
        Rect {
            min: Coord {
                x: lo(r.min.x as int, p.x as int) as i32,
                y: lo(r.min.y as int, p.y as int) as i32,
            },
            max: Coord {
                x: hi(r.max.x as int, p.x as int) as i32,
                y: hi(r.max.y as int, p.y as int) as i32,
            },
        }
    }
}

/// The bounding rectangle covers every point of the sequence, is ordered, and
/// each of its four bounds is attained by some point.
pub proof fn lemma_bb_of(ps: Seq<Coord>)
    requires
        ps.len() >= 1,
    ensures
        bb_of(ps).wf(),
        forall|i: int|
            0 <= i < ps.len() ==> #[trigger] bb_of(ps).covers(ps[i].x as int, ps[i].y as int),
        exists|i: int| 0 <= i < ps.len() && #[trigger] ps[i].x == bb_of(ps).min.x,
        exists|i: int| 0 <= i < ps.len() && #[trigger] ps[i].x == bb_of(ps).max.x,
        exists|i: int| 0 <= i < ps.len() && #[trigger] ps[i].y == bb_of(ps).min.y,
        exists|i: int| 0 <= i < ps.len() && #[trigger] ps[i].y == bb_of(ps).max.y,
    decreases ps.len(),
{
    if ps.len() > 1 {
        let sub = ps.drop_last();
        lemma_bb_of(sub);
        assert forall|i: int| 0 <= i < ps.len() implies #[trigger] bb_of(ps).covers(
            ps[i].x as int,
            ps[i].y as int,
        ) by {
            if i < ps.len() - 1 {
                assert(sub[i] == ps[i]);
                assert(bb_of(sub).covers(ps[i].x as int, ps[i].y as int));
            }
        }
        let last = ps.len() - 1;
        if bb_of(ps).min.x == ps[last].x {
            assert(0 <= last < ps.len() && ps[last].x == bb_of(ps).min.x);
        } else {
            let i = choose|i: int| 0 <= i < sub.len() && #[trigger] sub[i].x == bb_of(sub).min.x;
            assert(ps[i] == sub[i]);
            assert(0 <= i < ps.len() && ps[i].x == bb_of(ps).min.x);
        }
        if bb_of(ps).max.x == ps[last].x {
            assert(0 <= last < ps.len() && ps[last].x == bb_of(ps).max.x);
        } else {
            let i = choose|i: int| 0 <= i < sub.len() && #[trigger] sub[i].x == bb_of(sub).max.x;
            assert(ps[i] == sub[i]);
            assert(0 <= i < ps.len() && ps[i].x == bb_of(ps).max.x);
        }
        if bb_of(ps).min.y == ps[last].y {
            assert(0 <= last < ps.len() && ps[last].y == bb_of(ps).min.y);
        } else {
            let i = choose|i: int| 0 <= i < sub.len() && #[trigger] sub[i].y == bb_of(sub).min.y;
            assert(ps[i] == sub[i]);
            assert(0 <= i < ps.len() && ps[i].y == bb_of(ps).min.y);
        }
        if bb_of(ps).max.y == ps[last].y {
            assert(0 <= last < ps.len() && ps[last].y == bb_of(ps).max.y);
        } else {
            let i = choose|i: int| 0 <= i < sub.len() && #[trigger] sub[i].y == bb_of(sub).max.y;
            assert(ps[i] == sub[i]);
            assert(0 <= i < ps.len() && ps[i].y == bb_of(ps).max.y);
        }
    }
}

/// The tight bounding rectangle of a non-empty point sequence.
pub fn bounding_rect_of(points: &Vec<Coord>) -> (r: Rect)
    requires
        points.len() >= 1,
    ensures
        r == bb_of(points@),
{
    let mut r = Rect { min: points[0], max: points[0] };
    let mut i: usize = 1;
    while i < points.len()
        invariant
            1 <= i <= points.len(),
            points.len() >= 1,
            r == bb_of(points@.take(i as int)),
        decreases points.len() - i,
    {
        let p = points[i];
        proof {
            assert(points@.take(i as int + 1).drop_last() =~= points@.take(i as int));
            assert(points@.take(i as int + 1).last() == points@[i as int]);
        }
        r = Rect {
            min: Coord {
                x: if r.min.x <= p.x {
                    r.min.x
                } else {
                    p.x
                },
                y: if r.min.y <= p.y {
                    r.min.y
                } else {
                    p.y
                },
            },
            max: Coord {
                x: if r.max.x <= p.x {
                    p.x
                } else {
                    r.max.x
                },
                y: if r.max.y <= p.y {
                    p.y
                } else {
                    r.max.y
                },
            },
        };
        i = i + 1;
    }
    proof {
        assert(points@.take(points@.len() as int) =~= points@);
    }
    r
}


/// A marker that indicates that the wrapped coordinates are the actual
/// screen's ones, not yet translated by the scroll offset.
#[derive(Clone, Copy, PartialEq, Eq, Hash, Debug)]
pub struct OnScreen<T>(pub T);

impl<T> OnScreen<T> {
    /// Applies `f` to the wrapped value, keeping the marker.
    pub fn map<U, F: FnOnce(T) -> U>(self, f: F) -> (r: OnScreen<U>)
        requires
            call_requires(f, (self.0,)),
        ensures
            call_ensures(f, (self.0,), r.0),
    {
        OnScreen(f(self.0))
    }
}

} // verus!
