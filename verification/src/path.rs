//! Paths drawn on the canvas: identifiers, colors, tools, the point sequence
//! of a path and its cached, padded bounding rectangle.

use crate::geom::{bb_of, expand_rect, spec_expand_rect, Coord, Rect};
use crate::geom::lemma_bb_of;
use vstd::prelude::*;

verus! {

/// A process-unique, randomly generated 128-bit path identifier.
#[derive(Clone, Copy, PartialEq, Eq, Structural, Hash, Debug)]
pub struct PathId(pub u128);

impl PathId {
    /// Generates a unique [`PathId`].
    ///
    /// Relies on `uuid::Uuid::new_v4`, a randomly generated version-4 UUID:
    /// nothing is promised of the value.
    #[verifier::external_body]
    pub fn gen() -> PathId {
        PathId(uuid::Uuid::new_v4().as_u128())
    }

    /// An identifier with the given raw value, for callers that number their
    /// paths themselves.
    pub fn from_raw(raw: u128) -> (r: PathId)
        ensures
            r == PathId(raw),
    {
        PathId(raw)
    }
}

/// A pen color.
#[derive(Clone, Copy, PartialEq, Eq, Structural, Hash, Debug)]
pub enum Color {
    Black,
    Red,
    Orange,
    Green,
    Blue,
    SkyBlue,
}

impl Color {
    /// The color's red, green and blue components.
    pub open spec fn spec_rgb(self) -> (u8, u8, u8) {
        match self {
            Color::Black => (0u8, 0u8, 0u8),
            Color::Red => (255u8, 75u8, 0u8),
            Color::Orange => (246u8, 170u8, 0u8),
            Color::Green => (3u8, 175u8, 122u8),
            Color::Blue => (0u8, 90u8, 255u8),
            Color::SkyBlue => (77u8, 196u8, 255u8),
        }
    }

    /// The color's red, green and blue components.
    pub fn rgb(self) -> (r: (u8, u8, u8))
        ensures
            r == self.spec_rgb(),
    {
        match self {
            Color::Black => (0, 0, 0),
            Color::Red => (255, 75, 0),
            Color::Orange => (246, 170, 0),
            Color::Green => (3, 175, 122),
            Color::Blue => (0, 90, 255),
            Color::SkyBlue => (77, 196, 255),
        }
    }
}

impl Default for Color {
    fn default() -> (r: Self)
        ensures
            r == Color::Black,
    {
        Color::Black
    }
}

/// The active drawing tool.
#[derive(Clone, Copy, PartialEq, Eq, Structural, Hash, Debug)]
pub enum Tool {
    Selector,
    Pen,
    Eraser,
}

impl Default for Tool {
    fn default() -> (r: Self)
        ensures
            r == Tool::Pen,
    {
        Tool::Pen
    }
}

/// A freehand path: a color tag and the ordered points of its polyline.
#[derive(Clone, Debug)]
pub struct Path {
    pub color: Color,
    pub coords: Vec<Coord>,
}

/// A path together with its cached bounding rectangle, expanded by a fixed
/// padding so that thin strokes stay selectable at their boundary.
#[derive(Clone, Debug)]
pub struct RenderablePath {
    path: Path,
    bounding_rect: Rect,
}

/// The fixed padding around a path's tight bounding rectangle.
pub const BOUND_PAD: i32 = 5;

/// The coordinate lies far enough from the integer edge that the padded
/// bounding rectangle around it is still representable.
pub open spec fn coord_in_bounds(c: Coord) -> bool {
    &&& i32::MIN + BOUND_PAD <= c.x <= i32::MAX - BOUND_PAD
    &&& i32::MIN + BOUND_PAD <= c.y <= i32::MAX - BOUND_PAD
}

impl RenderablePath {
    /// The wrapped path.
    pub closed spec fn spec_path(&self) -> Path {
        self.path
    }

    /// The cached padded bounding rectangle.
    pub closed spec fn spec_bounding_rect(&self) -> Rect {
        self.bounding_rect
    }

    /// A valid renderable path: at least one point, every point far enough
    /// from the coordinate edge for the padding, and the cached rectangle is
    /// the padded tight bounding rectangle of the points.
    pub open spec fn wf(&self) -> bool {
        &&& self.spec_path().coords@.len() >= 1
        &&& forall|i: int|
            0 <= i < self.spec_path().coords@.len() ==> coord_in_bounds(
                #[trigger] self.spec_path().coords@[i],
            )
        &&& self.spec_bounding_rect() == spec_expand_rect(
            bb_of(self.spec_path().coords@),
            BOUND_PAD as int,
        )
    }

    /// Creates a new [`RenderablePath`]. Returns [`None`] exactly when the
    /// given path is empty or has a point too close to the coordinate edge
    /// for the padded bounding rectangle to be representable.
    pub fn new(path: Path) -> (r: Option<RenderablePath>)
        ensures
            r is Some <==> path.coords@.len() >= 1 && (forall|i: int|
                0 <= i < path.coords@.len() ==> coord_in_bounds(#[trigger] path.coords@[i])),
            r is Some ==> (r->0).wf() && (r->0).spec_path() == path,
    {
        if path.coords.len() == 0 {
            return None;
        }
        let n = path.coords.len();
        let mut i: usize = 0;
        while i < n
            invariant
                0 <= i <= n,
                n == path.coords@.len(),
                forall|j: int| 0 <= j < i ==> coord_in_bounds(#[trigger] path.coords@[j]),
            decreases n - i,
        {
            let p = path.coords[i];
            if !(i32::MIN + BOUND_PAD <= p.x && p.x <= i32::MAX - BOUND_PAD && i32::MIN + BOUND_PAD
                <= p.y && p.y <= i32::MAX - BOUND_PAD) {
                return None;
            }
            i = i + 1;
        }
        let tight = crate::geom::bounding_rect_of(&path.coords);
        proof {
            lemma_bb_of(path.coords@);
        }
        let bounding_rect = expand_rect(tight, BOUND_PAD);
        Some(RenderablePath { path, bounding_rect })
    }

    /// Moves the path out, leaving an empty point sequence behind.
    pub fn take(&mut self) -> (r: Path)
        ensures
            r == old(self).spec_path(),
            final(self).spec_path().color == old(self).spec_path().color,
            final(self).spec_path().coords@.len() == 0,
            final(self).spec_bounding_rect() == old(self).spec_bounding_rect(),
    {
        let mut coords: Vec<Coord> = Vec::new();
        std::mem::swap(&mut coords, &mut self.path.coords);
        Path { color: self.path.color, coords }
    }

    /// The wrapped path.
    pub fn get(&self) -> (r: &Path)
        ensures
            *r == self.spec_path(),
    {
        &self.path
    }

    /// The cached padded bounding rectangle.
    pub fn bounding_rect(&self) -> (r: &Rect)
        ensures
            *r == self.spec_bounding_rect(),
    {
        &self.bounding_rect
    }
}


/// The mathematical content of a path: its color and its points.
pub ghost struct PathView {
    pub color: Color,
    pub coords: Seq<Coord>,
}

impl PathView {
    /// At least one point, every point in bounds.
    pub open spec fn wf(self) -> bool {
        &&& self.coords.len() >= 1
        &&& forall|i: int| 0 <= i < self.coords.len() ==> coord_in_bounds(#[trigger] self.coords[i])
    }

    /// The padded bounding rectangle of the points.
    pub open spec fn bounding_rect(self) -> Rect {
        spec_expand_rect(bb_of(self.coords), BOUND_PAD as int)
    }

    /// The path translated by `d`: every point moved, the color kept.
    pub open spec fn translated(self, d: Coord) -> PathView {
        PathView {
            color: self.color,
            coords: self.coords.map_values(|c: Coord| spec_translate_coord(c, d)),
        }
    }

    /// Every point stays in bounds when translated by `d`.
    pub open spec fn can_translate(self, d: Coord) -> bool {
        forall|i: int|
            0 <= i < self.coords.len() ==> in_bounds_translated(#[trigger] self.coords[i], d)
    }
}

/// The point moved by the translation `d`, at unbounded precision.
pub open spec fn translate_exact(c: Coord, d: Coord) -> (int, int) {
    (c.x + d.x as int, c.y + d.y as int)
}

/// Whether the point moved by `d` stays within the padded coordinate range.
pub open spec fn in_bounds_translated(c: Coord, d: Coord) -> bool {
    &&& i32::MIN + BOUND_PAD <= c.x + d.x <= i32::MAX - BOUND_PAD
    &&& i32::MIN + BOUND_PAD <= c.y + d.y <= i32::MAX - BOUND_PAD
}

/// The point moved by the translation `d`.
pub open spec fn spec_translate_coord(c: Coord, d: Coord) -> Coord {
    Coord { x: (c.x + d.x) as i32, y: (c.y + d.y) as i32 }
}

impl View for RenderablePath {
    type V = PathView;

    closed spec fn view(&self) -> PathView {
        PathView { color: self.path.color, coords: self.path.coords@ }
    }
}

impl RenderablePath {
    /// The wrapped path's content and the cached rectangle, related: a valid
    /// renderable path's cached rectangle is its view's bounding rectangle.
    pub proof fn lemma_view(&self)
        ensures
            self@.color == self.spec_path().color,
            self@.coords == self.spec_path().coords@,
            self.wf() ==> self@.wf() && self.spec_bounding_rect() == self@.bounding_rect(),
    {
    }

    /// The path translated by `delta`, with its bounding rectangle recomputed.
    pub fn translated(&self, delta: Coord) -> (r: RenderablePath)
        requires
            self.wf(),
            self@.can_translate(delta),
        ensures
            r.wf(),
            r@ == self@.translated(delta),
    {
        let src = &self.path.coords;
        let n = src.len();
        let mut coords: Vec<Coord> = Vec::new();
        let mut i: usize = 0;
        while i < n
            invariant
                i <= n,
                n == src@.len(),
                self@.coords == src@,
                self@.can_translate(delta),
                coords@ == self@.translated(delta).coords.take(i as int),
            decreases n - i,
        {
            let c = src[i];
            proof {
                assert(in_bounds_translated(c, delta));
            }
            coords.push(Coord { x: c.x + delta.x, y: c.y + delta.y });
            proof {
                assert(coords@ =~= self@.translated(delta).coords.take(i as int + 1));
            }
            i = i + 1;
        }
        proof {
            assert(coords@ =~= self@.translated(delta).coords);
        }
        let r = RenderablePath::new(Path { color: self.path.color, coords });
        proof {
            assert(r is Some) by {
                assert(self@.translated(delta).coords.len() == self@.coords.len());
                assert forall|i: int|
                    0 <= i < self@.translated(delta).coords.len() implies coord_in_bounds(
                    #[trigger] self@.translated(delta).coords[i],
                ) by {
                    assert(in_bounds_translated(self@.coords[i], delta));
                }
            }
        }
        r.unwrap()
    }
}

/// Translating by `d` and then by its negation restores the path content.
pub proof fn lemma_translate_round_trip(pv: PathView, d: Coord)
    requires
        pv.wf(),
        pv.can_translate(d),
        d.x != i32::MIN,
        d.y != i32::MIN,
    ensures
        pv.translated(d).wf(),
        pv.translated(d).can_translate(Coord { x: (-d.x) as i32, y: (-d.y) as i32 }),
        pv.translated(d).translated(Coord { x: (-d.x) as i32, y: (-d.y) as i32 }) == pv,
{
    let nd = Coord { x: (-d.x) as i32, y: (-d.y) as i32 };
    let tv = pv.translated(d);
    assert forall|i: int| 0 <= i < tv.coords.len() implies coord_in_bounds(#[trigger] tv.coords[i])
        && in_bounds_translated(tv.coords[i], nd) && spec_translate_coord(tv.coords[i], nd)
        == pv.coords[i] by {
        assert(in_bounds_translated(pv.coords[i], d));
        assert(coord_in_bounds(pv.coords[i]));
    }
    assert(tv.translated(nd).coords =~= pv.coords);
}

} // verus!
