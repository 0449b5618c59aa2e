//! Incremental rectangle difference.
//!
//! While a selection rectangle is dragged, the old and the new rectangle share
//! the corner `origin` and differ only in the opposite corner. The symmetric
//! difference between them decomposes into at most two "removed" rectangles
//! (in the old one but not the new) and at most two "added" rectangles (in the
//! new one but not the old), so a drag step queries only those slabs instead
//! of rescanning the whole canvas.

use crate::geom::{Coord, Rect};
use vstd::prelude::*;

verus! {

/// The decomposed difference between two rectangles sharing a corner:
/// at most two removed and at most two added rectangles.
#[derive(Debug)]
pub struct RectDiff {
    pub removed: Vec<Rect>,
    pub added: Vec<Rect>,
}

/// On one axis: the new diagonal collapsed onto the origin or flipped past it,
/// relative to the side of the origin on which the old diagonal lies.
pub open spec fn axis_degenerate(o: int, d_old: int, d_new: int) -> bool {
    if d_old >= o {
        d_new <= o
    } else {
        d_new >= o
    }
}

/// The whole difference is degenerate: no partial decomposition applies and
/// the old rectangle is removed whole, the new one added whole.
pub open spec fn diff_degenerate(origin: Coord, old_diag: Coord, new_diag: Coord) -> bool {
    ||| axis_degenerate(origin.x as int, old_diag.x as int, new_diag.x as int)
    ||| axis_degenerate(origin.y as int, old_diag.y as int, new_diag.y as int)
}

/// On one axis: the new diagonal lies strictly between origin and old diagonal.
pub open spec fn axis_shrank(o: int, d_old: int, d_new: int) -> bool {
    if d_old >= o {
        d_new < d_old
    } else {
        d_new > d_old
    }
}

/// On one axis: the new diagonal lies strictly beyond the old diagonal.
pub open spec fn axis_grew(o: int, d_old: int, d_new: int) -> bool {
    if d_old >= o {
        d_new > d_old
    } else {
        d_new < d_old
    }
}

/// Of `d_old` and `d_new` — both on the same side of the origin `o` — the one
/// closer to the origin.
pub open spec fn closer_to(o: int, d_old: int, d_new: int) -> int {
    if d_old >= o {
        if d_old <= d_new {
            d_old
        } else {
            d_new
        }
    } else {
        if d_old >= d_new {
            d_old
        } else {
            d_new
        }
    }
}

/// The removed rectangles: the X slab (full old Y extent) and the Y slab
/// (X extent clipped to the intersection of the old and new X intervals),
/// or the whole old rectangle in the degenerate case.
pub open spec fn diff_removed(origin: Coord, old_diag: Coord, new_diag: Coord) -> (
    Option<Rect>,
    Option<Rect>,
) {
    if diff_degenerate(origin, old_diag, new_diag) {
        (Some(Rect::spec_new(origin, old_diag)), None)
    } else {
        let rx = if axis_shrank(origin.x as int, old_diag.x as int, new_diag.x as int) {
            Some(
                Rect::spec_new(
                    Coord { x: new_diag.x, y: origin.y },
                    Coord { x: old_diag.x, y: old_diag.y },
                ),
            )
        } else {
            None
        };
        let ry = if axis_shrank(origin.y as int, old_diag.y as int, new_diag.y as int) {
            Some(
                Rect::spec_new(
                    Coord { x: origin.x, y: new_diag.y },
                    Coord {
                        x: closer_to(origin.x as int, old_diag.x as int, new_diag.x as int) as i32,
                        y: old_diag.y,
                    },
                ),
            )
        } else {
            None
        };
        (rx, ry)
    }
}

/// The added rectangles: the X slab (old Y extent clipped to the intersection
/// of the old and new Y intervals) and the Y slab (full new X extent),
/// or the whole new rectangle in the degenerate case.
pub open spec fn diff_added(origin: Coord, old_diag: Coord, new_diag: Coord) -> (
    Option<Rect>,
    Option<Rect>,
) {
    if diff_degenerate(origin, old_diag, new_diag) {
        (Some(Rect::spec_new(origin, new_diag)), None)
    } else {
        let ax = if axis_grew(origin.x as int, old_diag.x as int, new_diag.x as int) {
            Some(
                Rect::spec_new(
                    Coord { x: old_diag.x, y: origin.y },
                    Coord {
                        x: new_diag.x,
                        y: closer_to(origin.y as int, old_diag.y as int, new_diag.y as int) as i32,
                    },
                ),
            )
        } else {
            None
        };
        let ay = if axis_grew(origin.y as int, old_diag.y as int, new_diag.y as int) {
            Some(
                Rect::spec_new(
                    Coord { x: origin.x, y: old_diag.y },
                    Coord { x: new_diag.x, y: new_diag.y },
                ),
            )
        } else {
            None
        };
        (ax, ay)
    }
}

/// The sequence a pair of optional rectangles stands for: first, then second.
pub open spec fn pair_seq(p: (Option<Rect>, Option<Rect>)) -> Seq<Rect> {
    match (p.0, p.1) {
        (Some(a), Some(b)) => seq![a, b],
        (Some(a), None) => seq![a],
        (None, Some(b)) => seq![b],
        (None, None) => Seq::empty(),
    }
}

/// Whether some rectangle of the pair covers the half-unit point `(px, py)`.
pub open spec fn pair_covers(p: (Option<Rect>, Option<Rect>), px: int, py: int) -> bool {
    ||| match p.0 {
        Some(r) => r.half_point_covered(px, py),
        None => false,
    }
    ||| match p.1 {
        Some(r) => r.half_point_covered(px, py),
        None => false,
    }
}

/// The difference between the rectangle spanned by `origin` and `old_diag`
/// and the one spanned by `origin` and `new_diag`: the removed rectangles
/// cover exactly what the old rectangle has and the new one lacks, the added
/// ones exactly the converse.
pub fn rect_diff(origin: Coord, old_diag: Coord, new_diag: Coord) -> (r: RectDiff)
    ensures
        r.removed@ == pair_seq(diff_removed(origin, old_diag, new_diag)),
        r.added@ == pair_seq(diff_added(origin, old_diag, new_diag)),
{
    let mut removed: Vec<Rect> = Vec::new();
    let mut added: Vec<Rect> = Vec::new();

    let deg_x: bool = if old_diag.x >= origin.x {
        new_diag.x <= origin.x
    } else {
        new_diag.x >= origin.x
    };
    let deg_y: bool = if old_diag.y >= origin.y {
        new_diag.y <= origin.y
    } else {
        new_diag.y >= origin.y
    };

    if deg_x || deg_y {
        removed.push(Rect::new(origin, old_diag));
        added.push(Rect::new(origin, new_diag));
    } else {
        let closer_x: i32 = if old_diag.x >= origin.x {
            if old_diag.x <= new_diag.x {
                old_diag.x
            } else {
                new_diag.x
            }
        } else {
            if old_diag.x >= new_diag.x {
                old_diag.x
            } else {
                new_diag.x
            }
        };
        let closer_y: i32 = if old_diag.y >= origin.y {
            if old_diag.y <= new_diag.y {
                old_diag.y
            } else {
                new_diag.y
            }
        } else {
            if old_diag.y >= new_diag.y {
                old_diag.y
            } else {
                new_diag.y
            }
        };

        let shrank_x: bool = if old_diag.x >= origin.x {
            new_diag.x < old_diag.x
        } else {
            new_diag.x > old_diag.x
        };
        let grew_x: bool = if old_diag.x >= origin.x {
            new_diag.x > old_diag.x
        } else {
            new_diag.x < old_diag.x
        };
        if shrank_x {
            removed.push(
                Rect::new(
                    Coord { x: new_diag.x, y: origin.y },
                    Coord { x: old_diag.x, y: old_diag.y },
                ),
            );
        } else if grew_x {
            added.push(
                Rect::new(Coord { x: old_diag.x, y: origin.y }, Coord { x: new_diag.x, y: closer_y }),
            );
        }

        let shrank_y: bool = if old_diag.y >= origin.y {
            new_diag.y < old_diag.y
        } else {
            new_diag.y > old_diag.y
        };
        let grew_y: bool = if old_diag.y >= origin.y {
            new_diag.y > old_diag.y
        } else {
            new_diag.y < old_diag.y
        };
        if shrank_y {
            removed.push(
                Rect::new(Coord { x: origin.x, y: new_diag.y }, Coord { x: closer_x, y: old_diag.y }),
            );
        } else if grew_y {
            added.push(
                Rect::new(
                    Coord { x: origin.x, y: old_diag.y },
                    Coord { x: new_diag.x, y: new_diag.y },
                ),
            );
        }
    }

    proof {
        assert(removed@ =~= pair_seq(diff_removed(origin, old_diag, new_diag)));
        assert(added@ =~= pair_seq(diff_added(origin, old_diag, new_diag)));
    }
    RectDiff { removed, added }
}

/// Reconstruction law, removed side: within the old rectangle's interior, the
/// points not covered by any removed rectangle are exactly those interior to
/// the new rectangle as well. Points are taken at half-unit resolution, so the
/// law speaks of every interior point of every rectangle involved.
pub proof fn lemma_diff_removed_reconstructs(
    origin: Coord,
    old_diag: Coord,
    new_diag: Coord,
    px: int,
    py: int,
)
    ensures
        ({
            let old_r = Rect::spec_new(origin, old_diag);
            let new_r = Rect::spec_new(origin, new_diag);
            (old_r.half_point_inside(px, py) && !pair_covers(
                diff_removed(origin, old_diag, new_diag),
                px,
                py,
            )) <==> (old_r.half_point_inside(px, py) && new_r.half_point_inside(px, py))
        }),
{
}

/// Reconstruction law, added side: within the new rectangle's interior, the
/// points not covered by any added rectangle are exactly those interior to the
/// old rectangle as well.
pub proof fn lemma_diff_added_reconstructs(
    origin: Coord,
    old_diag: Coord,
    new_diag: Coord,
    px: int,
    py: int,
)
    ensures
        ({
            let old_r = Rect::spec_new(origin, old_diag);
            let new_r = Rect::spec_new(origin, new_diag);
            (new_r.half_point_inside(px, py) && !pair_covers(
                diff_added(origin, old_diag, new_diag),
                px,
                py,
            )) <==> (new_r.half_point_inside(px, py) && old_r.half_point_inside(px, py))
        }),
{
}

/// Disjointness law: the two removed rectangles never share an interior point,
/// and neither do the two added rectangles.
pub proof fn lemma_diff_disjoint(
    origin: Coord,
    old_diag: Coord,
    new_diag: Coord,
    px: int,
    py: int,
)
    ensures
        ({
            let rp = diff_removed(origin, old_diag, new_diag);
            rp.0 is Some && rp.1 is Some ==> !((rp.0->0).half_point_inside(px, py)
                && (rp.1->0).half_point_inside(px, py))
        }),
        ({
            let ap = diff_added(origin, old_diag, new_diag);
            ap.0 is Some && ap.1 is Some ==> !((ap.0->0).half_point_inside(px, py)
                && (ap.1->0).half_point_inside(px, py))
        }),
{
    let rp = diff_removed(origin, old_diag, new_diag);
    let ap = diff_added(origin, old_diag, new_diag);
    let ox = origin.x as int;
    let oy = origin.y as int;
    let odx = old_diag.x as int;
    let ody = old_diag.y as int;
    let ndx = new_diag.x as int;
    let ndy = new_diag.y as int;
    if !diff_degenerate(origin, old_diag, new_diag) {
        if rp.0 is Some && rp.1 is Some {
            let r0 = rp.0->0;
            let r1 = rp.1->0;
            // both slabs exist only when both axes shrank; they meet at most
            // in the plane through the new diagonal's x coordinate
            assert(axis_shrank(ox, odx, ndx) && axis_shrank(oy, ody, ndy));
            if odx >= ox {
                assert(closer_to(ox, odx, ndx) == ndx);
                assert(r0.min.x as int == ndx);
                assert(r1.max.x as int == ndx);
            } else {
                assert(closer_to(ox, odx, ndx) == ndx);
                assert(r0.max.x as int == ndx);
                assert(r1.min.x as int == ndx);
            }
            assert(!(r0.half_point_inside(px, py) && r1.half_point_inside(px, py)));
        }
        if ap.0 is Some && ap.1 is Some {
            let a0 = ap.0->0;
            let a1 = ap.1->0;
            // both slabs exist only when both axes grew; they meet at most
            // in the plane through the old diagonal's y coordinate
            assert(axis_grew(ox, odx, ndx) && axis_grew(oy, ody, ndy));
            if ody >= oy {
                assert(closer_to(oy, ody, ndy) == ody);
                assert(a0.max.y as int == ody);
                assert(a1.min.y as int == ody);
            } else {
                assert(closer_to(oy, ody, ndy) == ody);
                assert(a0.min.y as int == ody);
                assert(a1.max.y as int == ody);
            }
            assert(!(a0.half_point_inside(px, py) && a1.half_point_inside(px, py)));
        }
    }
}

} // verus!
