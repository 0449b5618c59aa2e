//! The spatial tile index: a grid of fixed-size square tiles bucketing the
//! line segments of every path, with a reverse map from each path to the
//! tiles it occupies. Queries walk the tiles under a shape's bounding
//! rectangle and filter them by an exact intersection test.

use crate::geom::{cross, seg_meets_box, seg_meets_box_wide, Coord, Line, Rect};
use crate::path::PathId;
use crate::store::{MapKey, VMap, VSet};
use vstd::arithmetic::div_mod::{lemma_fundamental_div_mod, lemma_fundamental_div_mod_converse};
use vstd::prelude::*;

verus! {

/// The side length of a tile, in canvas units.
pub const TILE_LEN: i32 = 128;

/// Integer coordinates of a tile; the tile spans the closed square
/// `[x·TILE_LEN, (x+1)·TILE_LEN] × [y·TILE_LEN, (y+1)·TILE_LEN]`.
#[derive(Clone, Copy, PartialEq, Eq, Structural, Hash, Debug)]
pub struct TileId {
    pub x: i32,
    pub y: i32,
}

impl MapKey for PathId {
    fn key_eq(&self, other: &Self) -> (r: bool)
        ensures
            r == (*self == *other),
    {
        self.0 == other.0
    }
}

impl MapKey for TileId {
    fn key_eq(&self, other: &Self) -> (r: bool)
        ensures
            r == (*self == *other),
    {
        self.x == other.x && self.y == other.y
    }
}

/// The index of the tile span containing a coordinate (floor division).
pub open spec fn tile_coord(c: int) -> int {
    c / (TILE_LEN as int)
}

/// The low X bound of a tile's square.
pub open spec fn tile_x0(t: TileId) -> int {
    t.x * (TILE_LEN as int)
}

/// The low Y bound of a tile's square.
pub open spec fn tile_y0(t: TileId) -> int {
    t.y * (TILE_LEN as int)
}

/// The high X bound of a tile's square.
pub open spec fn tile_x1(t: TileId) -> int {
    t.x * (TILE_LEN as int) + (TILE_LEN as int)
}

/// The high Y bound of a tile's square.
pub open spec fn tile_y1(t: TileId) -> int {
    t.y * (TILE_LEN as int) + (TILE_LEN as int)
}

/// Whether tile `t` lies in the grid walk of rectangle `r`: between the tiles
/// of `r`'s corners on both axes.
pub open spec fn grid_covers(r: Rect, t: TileId) -> bool {
    &&& tile_coord(r.min.x as int) <= t.x <= tile_coord(r.max.x as int)
    &&& tile_coord(r.min.y as int) <= t.y <= tile_coord(r.max.y as int)
}

/// The tight bounding rectangle of a segment.
pub open spec fn seg_bb(l: Line) -> Rect {
    Rect::spec_new(l.start, l.end)
}

/// Whether segment `l` shares a point with tile `t`'s square.
pub open spec fn seg_meets_tile(l: Line, t: TileId) -> bool {
    seg_meets_box(l.start, l.end, tile_x0(t), tile_y0(t), tile_x1(t), tile_y1(t))
}

/// Whether segment `l` is registered on tile `t`: the tile lies in the grid
/// walk of the segment's bounding rectangle and the segment meets its square.
pub open spec fn seg_on_tile(l: Line, t: TileId) -> bool {
    grid_covers(seg_bb(l), t) && seg_meets_tile(l, t)
}

/// The tiles segment `l` is registered on.
pub open spec fn seg_tiles(l: Line) -> Set<TileId> {
    Set::new(|t: TileId| seg_on_tile(l, t))
}

/// The line segments of a polyline, in order.
pub open spec fn segs_of(ps: Seq<Coord>) -> Seq<Line> {
    if ps.len() == 0 {
        Seq::empty()
    } else {
        Seq::new((ps.len() - 1) as nat, |i: int| Line { start: ps[i], end: ps[i + 1] })
    }
}

/// The segments of the first `n` segments of the polyline registered on `t`,
/// in polyline order.
pub open spec fn tile_segs_upto(ps: Seq<Coord>, t: TileId, n: int) -> Seq<Line> {
    segs_of(ps).take(n).filter(|l: Line| seg_on_tile(l, t))
}

/// The segments of the polyline registered on `t`, in polyline order.
pub open spec fn tile_segs(ps: Seq<Coord>, t: TileId) -> Seq<Line> {
    tile_segs_upto(ps, t, segs_of(ps).len() as int)
}

/// The tiles occupied by the first `n` segments of the polyline.
pub open spec fn tiles_upto(ps: Seq<Coord>, n: int) -> Set<TileId> {
    Set::new(|t: TileId| tile_segs_upto(ps, t, n).len() > 0)
}

/// The tiles the polyline occupies.
pub open spec fn path_tiles(ps: Seq<Coord>) -> Set<TileId> {
    tiles_upto(ps, segs_of(ps).len() as int)
}

/// The index of the tile span containing the coordinate.
pub fn tile_floor(c: i32) -> (t: i32)
    ensures
        t as int == tile_coord(c as int),
        -0x100_0000 <= t <= 0xff_ffff,
{
    if c >= 0 {
        let q = (c as u32) / (TILE_LEN as u32);
        proof {
            lemma_fundamental_div_mod(c as int, TILE_LEN as int);
        }
        q as i32
    } else {
        let n: u64 = (-(c as i64)) as u64;
        let q: u64 = (n + (TILE_LEN as u64) - 1) / (TILE_LEN as u64);
        proof {
            let l = TILE_LEN as int;
            lemma_fundamental_div_mod((n + l - 1) as int, l);
            let qq = (n + l - 1) as int / l;
            // -n == (-qq)·l + (l·qq - n), and the remainder lies in [0, l)
            lemma_fundamental_div_mod_converse(-(n as int), l, -qq, l * qq - n);
        }
        (-(q as i64)) as i32
    }
}

/// A duplicate-free sequence stays duplicate-free when a fresh element is
/// appended.
pub proof fn lemma_no_dup_push<A>(s: Seq<A>, x: A)
    requires
        s.no_duplicates(),
        !s.contains(x),
    ensures
        s.push(x).no_duplicates(),
{
    let p = s.push(x);
    assert forall|a: int, b: int| 0 <= a < b < p.len() implies p[a] != p[b] by {
        if b < s.len() {
            assert(s[a] != s[b]);
        } else {
            assert(p[b] == x);
            assert(p[a] == s[a]);
            assert(s.contains(s[a]));
        }
    }
}

/// The tiles in the grid walk of a rectangle: every tile between the tiles of
/// the two corners, each exactly once.
pub fn grid_tiles(r: &Rect) -> (v: Vec<TileId>)
    requires
        r.wf(),
    ensures
        v@.no_duplicates(),
        forall|t: TileId| v@.contains(t) <==> grid_covers(*r, t),
{
    let tx0 = tile_floor(r.min.x);
    let tx1 = tile_floor(r.max.x);
    let ty0 = tile_floor(r.min.y);
    let ty1 = tile_floor(r.max.y);
    proof {
        vstd::arithmetic::div_mod::lemma_div_is_ordered(
            r.min.x as int,
            r.max.x as int,
            TILE_LEN as int,
        );
        vstd::arithmetic::div_mod::lemma_div_is_ordered(
            r.min.y as int,
            r.max.y as int,
            TILE_LEN as int,
        );
    }
    let mut v: Vec<TileId> = Vec::new();
    let mut tx = tx0;
    while tx <= tx1
        invariant
            tx0 <= tx <= tx1 + 1,
            tx0 as int == tile_coord(r.min.x as int),
            tx1 as int == tile_coord(r.max.x as int),
            ty0 as int == tile_coord(r.min.y as int),
            ty1 as int == tile_coord(r.max.y as int),
            ty0 <= ty1,
            tx1 < 0x100_0000,
            -0x100_0000 <= ty0,
            v@.no_duplicates(),
            forall|t: TileId|
                v@.contains(t) <==> (tx0 <= t.x < tx && ty0 <= t.y <= ty1),
        decreases tx1 - tx + 1,
    {
        let mut ty = ty0;
        while ty <= ty1
            invariant
                ty0 <= ty <= ty1 + 1,
                tx0 <= tx <= tx1,
                ty1 < 0x100_0000,
                v@.no_duplicates(),
                forall|t: TileId|
                    v@.contains(t) <==> ((tx0 <= t.x < tx && ty0 <= t.y <= ty1) || (t.x == tx && ty0
                        <= t.y < ty)),
            decreases ty1 - ty + 1,
        {
            let t = TileId { x: tx, y: ty };
            let ghost vpre = v@;
            proof {
                assert(!vpre.contains(t));
                lemma_no_dup_push(vpre, t);
            }
            v.push(t);
            proof {
                assert forall|u: TileId|
                    v@.contains(u) <==> ((tx0 <= u.x < tx && ty0 <= u.y <= ty1) || (u.x == tx && ty0
                        <= u.y < ty + 1)) by {
                    if v@.contains(u) {
                        let j = choose|j: int| 0 <= j < v@.len() && v@[j] == u;
                        if j < vpre.len() {
                            assert(vpre[j] == u);
                            assert(vpre.contains(u));
                        } else {
                            assert(u == t);
                        }
                    }
                    if (tx0 <= u.x < tx && ty0 <= u.y <= ty1) || (u.x == tx && ty0 <= u.y < ty
                        + 1) {
                        if u.x == tx && u.y == ty {
                            assert(v@[vpre.len() as int] == u);
                            assert(v@.contains(u));
                        } else {
                            assert(vpre.contains(u));
                            let j = choose|j: int| 0 <= j < vpre.len() && vpre[j] == u;
                            assert(v@[j] == u);
                            assert(v@.contains(u));
                        }
                    }
                }
            }
            ty = ty + 1;
        }
        tx = tx + 1;
    }
    v
}


/// Appending one element extends the filtered sequence by that element
/// exactly when it matches.
pub proof fn lemma_filter_push<A>(s: Seq<A>, x: A, pred: spec_fn(A) -> bool)
    ensures
        s.push(x).filter(pred) == if pred(x) {
            s.filter(pred).push(x)
        } else {
            s.filter(pred)
        },
{
    reveal(Seq::filter);
    assert(s.push(x).drop_last() =~= s);
    assert(s.push(x).last() == x);
}

/// The tile maps with the whole polyline `ps` registered under `id`: the
/// first `n` segments contribute, each occupied tile gains (or receives) the
/// path's registered segments under `id`.
pub open spec fn items_with_upto(
    items: Map<TileId, Map<PathId, Seq<Line>>>,
    id: PathId,
    ps: Seq<Coord>,
    n: int,
) -> Map<TileId, Map<PathId, Seq<Line>>> {
    Map::new(
        |t: TileId| items.contains_key(t) || tiles_upto(ps, n).contains(t),
        |t: TileId|
            if tiles_upto(ps, n).contains(t) {
                (if items.contains_key(t) {
                    items[t]
                } else {
                    Map::empty()
                }).insert(id, tile_segs_upto(ps, t, n))
            } else {
                items[t]
            },
    )
}

/// The tile maps with the polyline `ps` registered under `id`.
pub open spec fn items_with_path(
    items: Map<TileId, Map<PathId, Seq<Line>>>,
    id: PathId,
    ps: Seq<Coord>,
) -> Map<TileId, Map<PathId, Seq<Line>>> {
    items_with_upto(items, id, ps, segs_of(ps).len() as int)
}

/// The tile maps with one segment `l` registered under `id` on the tiles of
/// `ts`.
pub open spec fn items_add_seg(
    items: Map<TileId, Map<PathId, Seq<Line>>>,
    id: PathId,
    l: Line,
    ts: Set<TileId>,
) -> Map<TileId, Map<PathId, Seq<Line>>> {
    Map::new(
        |t: TileId| items.contains_key(t) || ts.contains(t),
        |t: TileId|
            if ts.contains(t) {
                let m = if items.contains_key(t) {
                    items[t]
                } else {
                    Map::empty()
                };
                let segs = if m.contains_key(id) {
                    m[id]
                } else {
                    Seq::empty()
                };
                m.insert(id, segs.push(l))
            } else {
                items[t]
            },
    )
}

/// The tile maps with `id` dropped from the tiles of `ts`; a tile left with
/// no other path is pruned.
pub open spec fn items_drop_on(
    items: Map<TileId, Map<PathId, Seq<Line>>>,
    id: PathId,
    ts: Set<TileId>,
) -> Map<TileId, Map<PathId, Seq<Line>>> {
    Map::new(
        |t: TileId| items.contains_key(t) && (ts.contains(t) ==> exists|p: PathId|
            p != id && (#[trigger] items[t].contains_key(p))),
        |t: TileId|
            if ts.contains(t) {
                items[t].remove(id)
            } else {
                items[t]
            },
    )
}

/// The tile maps with the path `id` dropped everywhere; tiles left with no
/// other path are pruned.
pub open spec fn items_without_path(
    items: Map<TileId, Map<PathId, Seq<Line>>>,
    id: PathId,
) -> Map<TileId, Map<PathId, Seq<Line>>> {
    items_drop_on(items, id, Set::new(|t: TileId| true))
}

/// No tile map registers the path `id`.
pub open spec fn items_free_of(items: Map<TileId, Map<PathId, Seq<Line>>>, id: PathId) -> bool {
    forall|t: TileId|
        #![trigger items[t].contains_key(id)]
        items.contains_key(t) ==> !items[t].contains_key(id)
}

/// Registering one more segment on its tiles advances the partial
/// registration of the polyline by one segment.
pub proof fn lemma_add_seg_advances(
    items: Map<TileId, Map<PathId, Seq<Line>>>,
    id: PathId,
    ps: Seq<Coord>,
    i: int,
)
    requires
        items_free_of(items, id),
        0 <= i < segs_of(ps).len(),
    ensures
        items_add_seg(items_with_upto(items, id, ps, i), id, segs_of(ps)[i], seg_tiles(segs_of(ps)[i]))
            == items_with_upto(items, id, ps, i + 1),
        tiles_upto(ps, i + 1) == tiles_upto(ps, i).union(seg_tiles(segs_of(ps)[i])),
{
    let l = segs_of(ps)[i];
    let pre = items_with_upto(items, id, ps, i);
    let lhs = items_add_seg(pre, id, l, seg_tiles(l));
    let rhs = items_with_upto(items, id, ps, i + 1);
    assert forall|t: TileId| #[trigger] tile_segs_upto(ps, t, i + 1) == (if seg_on_tile(l, t) {
        tile_segs_upto(ps, t, i).push(l)
    } else {
        tile_segs_upto(ps, t, i)
    }) by {
        assert(segs_of(ps).take(i + 1) =~= segs_of(ps).take(i).push(l));
        lemma_filter_push(segs_of(ps).take(i), l, |m: Line| seg_on_tile(m, t));
    }
    assert forall|t: TileId|
        tiles_upto(ps, i + 1).contains(t) <==> tiles_upto(ps, i).union(
            seg_tiles(l),
        ).contains(t) by {
        assert(tile_segs_upto(ps, t, i + 1) == (if seg_on_tile(l, t) {
            tile_segs_upto(ps, t, i).push(l)
        } else {
            tile_segs_upto(ps, t, i)
        }));
    }
    assert(tiles_upto(ps, i + 1) =~= tiles_upto(ps, i).union(seg_tiles(l)));
    assert forall|t: TileId| #[trigger] lhs.contains_key(t) implies lhs[t] =~= rhs[t] by {
        assert(tile_segs_upto(ps, t, i + 1) == (if seg_on_tile(l, t) {
            tile_segs_upto(ps, t, i).push(l)
        } else {
            tile_segs_upto(ps, t, i)
        }));
        if seg_tiles(l).contains(t) {
            let m = if pre.contains_key(t) {
                pre[t]
            } else {
                Map::empty()
            };
            if tiles_upto(ps, i).contains(t) {
                assert(m == (if items.contains_key(t) {
                    items[t]
                } else {
                    Map::empty()
                }).insert(id, tile_segs_upto(ps, t, i)));
                assert(m[id] == tile_segs_upto(ps, t, i));
            } else {
                assert(tile_segs_upto(ps, t, i).len() == 0);
                assert(tile_segs_upto(ps, t, i) =~= Seq::<Line>::empty());
                if items.contains_key(t) {
                    assert(!items[t].contains_key(id));
                }
                assert(!m.contains_key(id));
            }
        } else {
            if tiles_upto(ps, i).contains(t) {
                assert(lhs[t] == pre[t]);
            }
        }
    }
    assert(lhs =~~= rhs);
}

/// The spatial index: for every occupied tile, the segments of each path
/// registered on it; and for every path, the tiles it occupies.
#[derive(Debug)]
pub struct Tiling {
    tiles: VMap<TileId, VMap<PathId, Vec<Line>>>,
    tile_ids: VMap<PathId, Vec<TileId>>,
}

impl Tiling {
    /// The per-tile registered segments of each path.
    pub closed spec fn items(&self) -> Map<TileId, Map<PathId, Seq<Line>>> {
        self.tiles@.map_values(
            |m: VMap<PathId, Vec<Line>>| m@.map_values(|v: Vec<Line>| v@),
        )
    }

    /// The tiles each path occupies.
    pub closed spec fn tiles_of(&self) -> Map<PathId, Set<TileId>> {
        self.tile_ids@.map_values(|v: Vec<TileId>| v@.to_set())
    }

    /// Structural invariant: distinct keys throughout, no empty tile entry,
    /// and duplicate-free reverse tile lists.
    pub closed spec fn inv(&self) -> bool {
        &&& self.tiles.wf()
        &&& self.tile_ids.wf()
        &&& forall|t: TileId| self.tiles@.contains_key(t) ==> (#[trigger] self.tiles@[t]).wf()
            && self.tiles@[t].pairs().len() > 0
        &&& forall|id: PathId| self.tile_ids@.contains_key(id) ==> (#[trigger] self.tile_ids@[id])@.no_duplicates()
    }

    /// Every occupied tile registers at least one path.
    pub proof fn lemma_inv_items(&self)
        requires
            self.inv(),
        ensures
            forall|t: TileId| self.items().contains_key(t) ==> exists|p: PathId| #[trigger] self.items()[t].contains_key(p),
    {
        assert forall|t: TileId| self.items().contains_key(t) implies exists|p: PathId| #[trigger] self.items()[t].contains_key(p) by {
            let m = self.tiles@[t];
            m.lemma_pairs();
            let p0 = m.pairs()[0].0;
            assert(m@.contains_key(p0));
            assert(self.items()[t].contains_key(p0));
        }
    }

    /// An empty index.
    pub fn new() -> (r: Tiling)
        ensures
            r.inv(),
            r.items() == Map::<TileId, Map<PathId, Seq<Line>>>::empty(),
            r.tiles_of() == Map::<PathId, Set<TileId>>::empty(),
    {
        let r = Tiling { tiles: VMap::new(), tile_ids: VMap::new() };
        proof {
            assert(r.items() =~= Map::<TileId, Map<PathId, Seq<Line>>>::empty());
            assert(r.tiles_of() =~= Map::<PathId, Set<TileId>>::empty());
        }
        r
    }

    /// Drops all entries.
    pub fn clear(&mut self)
        ensures
            final(self).inv(),
            final(self).items() == Map::<TileId, Map<PathId, Seq<Line>>>::empty(),
            final(self).tiles_of() == Map::<PathId, Set<TileId>>::empty(),
    {
        self.tiles.clear();
        self.tile_ids.clear();
        proof {
            assert(final(self).items() =~= Map::<TileId, Map<PathId, Seq<Line>>>::empty());
            assert(final(self).tiles_of() =~= Map::<PathId, Set<TileId>>::empty());
        }
    }
}


/// The tiles among the first `j` candidates on which segment `l` registers.
pub open spec fn matched_tiles(cand: Seq<TileId>, j: int, l: Line) -> Set<TileId> {
    Set::new(|t: TileId| cand.take(j).contains(t) && seg_on_tile(l, t))
}

impl Tiling {
    /// Registers every line segment of the polyline under each tile that lies
    /// in the grid walk of the segment's bounding rectangle and that the
    /// segment exactly meets, and records the union of the occupied tiles for
    /// reverse lookup. The path must not be present yet; a polyline of a
    /// single point occupies no tile.
    #[verifier::rlimit(50)]
    pub fn insert_path(&mut self, id: PathId, coords: &Vec<Coord>)
        requires
            old(self).inv(),
            !old(self).tiles_of().contains_key(id),
            items_free_of(old(self).items(), id),
            coords@.len() >= 1,
        ensures
            final(self).inv(),
            final(self).tiles_of() == old(self).tiles_of().insert(id, path_tiles(coords@)),
            final(self).items() == items_with_path(old(self).items(), id, coords@),
    {
        let ghost items0 = old(self).items();
        let ghost ps = coords@;
        let mut ts: VSet<TileId> = VSet::new();
        let n = coords.len();
        proof {
            broadcast use vstd::seq_lib::group_filter_ensures;

            assert forall|t: TileId| !tiles_upto(ps, 0).contains(t) by {
                assert(segs_of(ps).take(0).len() == 0);
            }
            assert(items_with_upto(items0, id, ps, 0) =~~= items0);
            assert(tiles_upto(ps, 0) =~= Set::<TileId>::empty());
        }
        let mut i: usize = 0;
        while i + 1 < n
            invariant
                i + 1 <= n,
                n == ps.len(),
                1 <= n,
                ps == coords@,
                self.inv(),
                ts.wf(),
                items_free_of(items0, id),
                ts@ == tiles_upto(ps, i as int),
                self.items() == items_with_upto(items0, id, ps, i as int),
                self.tile_ids == old(self).tile_ids,
            decreases n - 1 - i,
        {
            let l = Line { start: coords[i], end: coords[i + 1] };
            proof {
                assert(l == segs_of(ps)[i as int]);
            }
            let ghost pre_items = self.items();
            let ghost ts_pre = ts@;
            let bb = Rect::new(l.start, l.end);
            proof {
                assert(bb == seg_bb(l));
            }
            let cand = grid_tiles(&bb);
            let m = cand.len();
            let mut j: usize = 0;
            proof {
                assert(matched_tiles(cand@, 0, l) =~= Set::<TileId>::empty());
                assert(items_add_seg(pre_items, id, l, matched_tiles(cand@, 0, l)) =~~= pre_items);
                assert(ts@ =~= ts_pre.union(matched_tiles(cand@, 0, l)));
            }
            while j < m
                invariant
                    j <= m,
                    m == cand@.len(),
                    cand@.no_duplicates(),
                    forall|t: TileId| cand@.contains(t) <==> grid_covers(seg_bb(l), t),
                    self.inv(),
                    ts.wf(),
                    items_free_of(items0, id),
                    self.items() == items_add_seg(pre_items, id, l, matched_tiles(
                        cand@,
                        j as int,
                        l,
                    )),
                    ts@ == ts_pre.union(matched_tiles(cand@, j as int, l)),
                    self.tile_ids == old(self).tile_ids,
                decreases m - j,
            {
                let t = cand[j];
                let ghost sj = matched_tiles(cand@, j as int, l);
                let ghost sj1 = matched_tiles(cand@, j as int + 1, l);
                proof {
                    assert(cand@.take(j as int + 1) =~= cand@.take(j as int).push(t));
                    assert(!cand@.take(j as int).contains(t)) by {
                        if cand@.take(j as int).contains(t) {
                            let k = choose|k: int|
                                0 <= k < j as int && (#[trigger] cand@.take(j as int)[k]) == t;
                            assert(cand@[k] == cand@[j as int]);
                        }
                    }
                    assert(!sj.contains(t));
                }
                proof {
                    assert((-0x1_0000_0000_0000 <= (t.x as int) * (TILE_LEN as int) <= 0x1_0000_0000_0000)
                        && (-0x1_0000_0000_0000 <= (t.y as int) * (TILE_LEN as int)
                        <= 0x1_0000_0000_0000)) by (nonlinear_arith)
                        requires
                            -0x8000_0000 <= t.x as int <= 0x8000_0000,
                            -0x8000_0000 <= t.y as int <= 0x8000_0000,
                            TILE_LEN as int == 128,
                    ;
                }
                let bx0 = t.x as i64 * TILE_LEN as i64;
                let by0 = t.y as i64 * TILE_LEN as i64;
                let meets = seg_meets_box_wide(
                    l.start,
                    l.end,
                    bx0,
                    by0,
                    bx0 + TILE_LEN as i64,
                    by0 + TILE_LEN as i64,
                );
                proof {
                    assert(meets == seg_meets_tile(l, t));
                    assert(cand@.contains(t)) by {
                        assert(cand@[j as int] == t);
                    }
                }
                if meets {
                    proof {
                        assert(seg_on_tile(l, t));
                        assert forall|u: TileId| sj1.contains(u) <==> sj.contains(u) || u == t by {
                            if sj1.contains(u) && u != t {
                                assert(cand@.take(j as int + 1).contains(u));
                                let k = choose|k: int|
                                    0 <= k < j as int + 1 && (#[trigger] cand@.take(j as int + 1)[k]) == u;
                                assert(k < j as int);
                                assert(cand@.take(j as int)[k] == u);
                            }
                            if sj.contains(u) {
                                let k = choose|k: int|
                                    0 <= k < j as int && (#[trigger] cand@.take(j as int)[k]) == u;
                                assert(cand@.take(j as int + 1)[k] == u);
                            }
                            if u == t {
                                assert(cand@.take(j as int + 1)[j as int] == t);
                            }
                        }
                        assert(sj1 =~= sj.insert(t));
                    }
                    let ghost tiles_pre = self.tiles@;
                    let ghost base = self.items();
                    let mut inner: VMap<PathId, Vec<Line>> = if self.tiles.contains(&t) {
                        self.tiles.remove(&t)
                    } else {
                        VMap::new()
                    };
                    let ghost inner_pre = inner@;
                    let ghost old_segs: Seq<Line> = if inner_pre.contains_key(id) {
                        inner_pre[id]@
                    } else {
                        Seq::empty()
                    };
                    let ghost mapped_new = inner_pre.map_values(|v: Vec<Line>| v@).insert(
                        id,
                        old_segs.push(l),
                    );
                    if inner.contains(&id) {
                        let mut segs = inner.remove(&id);
                        segs.push(l);
                        let ghost gsegs = segs@;
                        inner.insert(id, segs);
                        proof {
                            assert(gsegs == old_segs.push(l));
                            assert(inner@ =~= inner_pre.remove(id).insert(id, segs));
                            assert forall|p: PathId| #[trigger] inner@.contains_key(p) implies
                                inner@.map_values(|v: Vec<Line>| v@)[p] == mapped_new[p] by {}
                            assert(inner@.map_values(|v: Vec<Line>| v@) =~= mapped_new);
                        }
                    } else {
                        let mut segs: Vec<Line> = Vec::new();
                        segs.push(l);
                        let ghost gsegs = segs@;
                        inner.insert(id, segs);
                        proof {
                            assert(gsegs =~= old_segs.push(l));
                            assert(inner@ =~= inner_pre.insert(id, segs));
                            assert(inner@.map_values(|v: Vec<Line>| v@) =~= mapped_new);
                        }
                    }
                    self.tiles.insert(t, inner);
                    ts.insert(t);
                    proof {
                        assert(self.tiles@ =~= tiles_pre.insert(t, inner));
                        assert(self.items()[t] =~= mapped_new);
                        // the new view agrees with one more registered tile
                        assert(base == items_add_seg(pre_items, id, l, sj));
                        assert forall|u: TileId| #[trigger] self.items().contains_key(u) implies
                            self.items()[u] =~= items_add_seg(pre_items, id, l, sj1)[u] by {
                            if u != t {
                                assert(self.tiles@.contains_key(u) == tiles_pre.contains_key(u));
                                assert(self.tiles@[u] == tiles_pre[u]);
                                assert(self.items().contains_key(u) == base.contains_key(u));
                                assert(self.items()[u] == base[u]);
                                assert(sj1.contains(u) == sj.contains(u));
                                assert(base.contains_key(u));
                                assert(pre_items.contains_key(u) || sj.contains(u));
                                assert(base[u] == items_add_seg(pre_items, id, l, sj)[u]);
                                if sj.contains(u) {
                                    assert(items_add_seg(pre_items, id, l, sj1)[u]
                                        == items_add_seg(pre_items, id, l, sj)[u]);
                                } else {
                                    assert(pre_items.contains_key(u));
                                    assert(items_add_seg(pre_items, id, l, sj)[u] == pre_items[u]);
                                    assert(items_add_seg(pre_items, id, l, sj1)[u]
                                        == pre_items[u]);
                                }
                            } else {
                                let mb = if pre_items.contains_key(t) {
                                    pre_items[t]
                                } else {
                                    Map::<PathId, Seq<Line>>::empty()
                                };
                                let segs_b = if mb.contains_key(id) {
                                    mb[id]
                                } else {
                                    Seq::<Line>::empty()
                                };
                                // the tile is not yet matched, so its current
                                // entry is its pre-segment entry
                                assert(base.contains_key(t) <==> pre_items.contains_key(t));
                                if tiles_pre.contains_key(t) {
                                    assert(inner_pre == tiles_pre[t]@);
                                    assert(base[t] =~= inner_pre.map_values(|v: Vec<Line>| v@));
                                    assert(base[t] == mb);
                                } else {
                                    assert(inner_pre =~= Map::<PathId, Vec<Line>>::empty());
                                    assert(!base.contains_key(t));
                                    assert(inner_pre.map_values(|v: Vec<Line>| v@) =~= mb);
                                }
                                assert(old_segs == segs_b);
                                assert(items_add_seg(pre_items, id, l, sj1)[t] == mb.insert(
                                    id,
                                    segs_b.push(l),
                                ));
                                assert(mapped_new =~= mb.insert(id, segs_b.push(l)));
                            }
                        }
                        assert forall|u: TileId|
                            self.items().contains_key(u) <==> items_add_seg(
                                pre_items,
                                id,
                                l,
                                sj1,
                            ).contains_key(u) by {
                            if u != t {
                                assert(self.tiles@.contains_key(u) == tiles_pre.contains_key(u));
                                assert(self.items().contains_key(u) == base.contains_key(u));
                                assert(base.contains_key(u) == items_add_seg(
                                    pre_items,
                                    id,
                                    l,
                                    sj,
                                ).contains_key(u));
                                assert(sj1.contains(u) == sj.contains(u));
                            } else {
                                assert(self.tiles@.contains_key(t));
                                assert(sj1.contains(t));
                            }
                        }
                        assert(self.items() =~~= items_add_seg(pre_items, id, l, sj1));
                        assert(ts@ =~= ts_pre.union(sj1));
                        // structural invariant at the touched tile
                        assert forall|u: TileId| self.tiles@.contains_key(u) implies (
                        #[trigger] self.tiles@[u]).wf() && self.tiles@[u].pairs().len() > 0 by {
                            if u != t {
                                assert(self.tiles@[u] == tiles_pre[u]);
                            }
                        }
                    }
                } else {
                    proof {
                        assert(!seg_on_tile(l, t));
                        assert forall|u: TileId| sj1.contains(u) <==> sj.contains(u) by {
                            if sj1.contains(u) {
                                assert(cand@.take(j as int + 1).contains(u));
                                assert(u != t || !seg_on_tile(l, u));
                                let k = choose|k: int|
                                    0 <= k < j as int + 1 && (#[trigger] cand@.take(j as int + 1)[k]) == u;
                                assert(k < j as int);
                                assert(cand@.take(j as int)[k] == u);
                            }
                            if sj.contains(u) {
                                let k = choose|k: int|
                                    0 <= k < j as int && (#[trigger] cand@.take(j as int)[k]) == u;
                                assert(cand@.take(j as int + 1)[k] == u);
                            }
                        }
                        assert(sj1 =~= sj);
                    }
                }
                j = j + 1;
            }
            proof {
                // the matched candidates are exactly the tiles the segment
                // registers on
                assert(cand@.take(m as int) =~= cand@);
                assert forall|u: TileId|
                    matched_tiles(cand@, m as int, l).contains(u) <==> seg_tiles(l).contains(
                        u,
                    ) by {}
                assert(matched_tiles(cand@, m as int, l) =~= seg_tiles(l));
                lemma_add_seg_advances(items0, id, ps, i as int);
            }
            i = i + 1;
        }
        proof {
            assert(segs_of(ps).len() == n - 1);
            assert(self.items() == items_with_path(items0, id, ps));
            assert(ts@ == path_tiles(ps));
            ts.lemma_view();
        }
        let ghost ts_seq = ts.seq();
        let ts_vec = ts.take_elems();
        let ghost ids_pre = self.tile_ids@;
        self.tile_ids.insert(id, ts_vec);
        proof {
            assert(self.tile_ids@ =~= ids_pre.insert(id, ts_vec));
            assert(ts_vec@ == ts_seq);
            assert(ts_vec@.to_set() =~= path_tiles(ps));
            assert(final(self).tiles_of() =~= old(self).tiles_of().insert(id, path_tiles(ps)));
            assert forall|p: PathId| self.tile_ids@.contains_key(p) implies (
            #[trigger] self.tile_ids@[p])@.no_duplicates() by {
                if p != id {
                    assert(self.tile_ids@[p] == ids_pre[p]);
                }
            }
        }
    }

    /// Drops the path's entry from every tile it occupies, pruning tiles left
    /// without any path, and drops its reverse-lookup entry. The path must be
    /// present, with the index consistent about it: the recorded tiles are
    /// exactly those whose maps register the path.
    pub fn remove_path(&mut self, id: PathId)
        requires
            old(self).inv(),
            old(self).tiles_of().contains_key(id),
            forall|t: TileId|
                #![trigger old(self).tiles_of()[id].contains(t)]
                old(self).tiles_of()[id].contains(t) ==> old(self).items().contains_key(t) && old(
                    self,
                ).items()[t].contains_key(id),
            forall|t: TileId|
                #![trigger old(self).items()[t].contains_key(id)]
                old(self).items().contains_key(t) && old(self).items()[t].contains_key(id) ==> old(
                    self,
                ).tiles_of()[id].contains(t),
        ensures
            final(self).inv(),
            final(self).tiles_of() == old(self).tiles_of().remove(id),
            final(self).items() == items_without_path(old(self).items(), id),
    {
        let ghost items0 = old(self).items();
        let ghost occupied = old(self).tiles_of()[id];
        proof {
            assert forall|t: TileId|
                #![trigger occupied.contains(t)]
                occupied.contains(t) implies items0.contains_key(t)
                && items0[t].contains_key(id) by {
                assert(old(self).tiles_of()[id].contains(t));
            }
        }
        let ts = self.tile_ids.remove(&id);
        proof {
            assert(ts@.to_set() =~= occupied);
            assert(ts@.no_duplicates());
            assert(self.tiles_of() =~= old(self).tiles_of().remove(id));
            assert(items_drop_on(items0, id, Seq::<TileId>::empty().to_set()) =~~= items0);
            assert(Seq::<TileId>::empty().to_set() == ts@.take(0).to_set()) by {
                assert(ts@.take(0) =~= Seq::<TileId>::empty());
            }
        }
        let ghost ids_now = self.tile_ids;
        let m = ts.len();
        let mut k: usize = 0;
        while k < m
            invariant
                k <= m,
                m == ts@.len(),
                ts@.no_duplicates(),
                ts@.to_set() == occupied,
                occupied == old(self).tiles_of()[id],
                items0 == old(self).items(),
                forall|t: TileId|
                    #![trigger occupied.contains(t)]
                    occupied.contains(t) ==> items0.contains_key(t) && items0[t].contains_key(id),
                self.inv(),
                self.items() == items_drop_on(items0, id, ts@.take(k as int).to_set()),
                self.tile_ids == ids_now,
                self.tiles_of() == old(self).tiles_of().remove(id),
            decreases m - k,
        {
            let t = ts[k];
            let ghost sk = ts@.take(k as int).to_set();
            let ghost sk1 = ts@.take(k as int + 1).to_set();
            proof {
                assert(ts@.take(k as int + 1) =~= ts@.take(k as int).push(t));
                assert forall|u: TileId| sk1.contains(u) <==> sk.contains(u) || u == t by {
                    if sk1.contains(u) && u != t {
                        let x = choose|x: int|
                            0 <= x < k as int + 1 && (#[trigger] ts@.take(k as int + 1)[x]) == u;
                        assert(x < k as int);
                        assert(ts@.take(k as int)[x] == u);
                    }
                    if sk.contains(u) {
                        let x = choose|x: int| 0 <= x < k as int && (#[trigger] ts@.take(k as int)[x]) == u;
                        assert(ts@.take(k as int + 1)[x] == u);
                    }
                    if u == t {
                        assert(ts@.take(k as int + 1)[k as int] == t);
                    }
                }
                assert(sk1 =~= sk.insert(t));
                assert(!sk.contains(t)) by {
                    if sk.contains(t) {
                        let x = choose|x: int| 0 <= x < k as int && (#[trigger] ts@.take(k as int)[x]) == t;
                        assert(ts@[x] == ts@[k as int]);
                    }
                }
                assert(ts@.contains(t)) by {
                    assert(ts@[k as int] == t);
                }
                assert(occupied.contains(t));
                // the tile is still untouched, so it is present and registers the path
                assert(self.items().contains_key(t));
                assert(self.items()[t] == items0[t]);
            }
            let ghost tiles_pre = self.tiles@;
            let mut inner = self.tiles.remove(&t);
            let ghost inner_pre = inner@;
            proof {
                assert(inner_pre == tiles_pre[t]@);
                assert(items0[t] =~= inner_pre.map_values(|v: Vec<Line>| v@));
                assert(inner_pre.contains_key(id));
            }
            let _ = inner.remove(&id);
            let keep = !inner.is_empty();
            proof {
                assert(inner@ == inner_pre.remove(id));
                if keep {
                    inner.lemma_pairs();
                    let p0 = inner.pairs()[0].0;
                    assert(inner@.contains_key(p0));
                    assert(p0 != id);
                    assert(items0[t].contains_key(p0));
                } else {
                    inner.lemma_view();
                    assert(inner.pairs().len() == 0);
                    assert(inner@ =~= Map::<PathId, Vec<Line>>::empty());
                    assert forall|p: PathId| !(p != id
                        && #[trigger] items0[t].contains_key(p)) by {
                        if p != id && items0[t].contains_key(p) {
                            assert(inner_pre.contains_key(p));
                            assert(inner@.contains_key(p));
                        }
                    }
                }
            }
            if keep {
                self.tiles.insert(t, inner);
                proof {
                    assert(self.tiles@ =~= tiles_pre.insert(t, inner));
                }
            } else {
                proof {
                    assert(self.tiles@ =~= tiles_pre.remove(t));
                }
            }
            proof {
                let ghost sk = ts@.take(k as int).to_set();
                let ghost sk1 = ts@.take(k as int + 1).to_set();
                assert forall|u: TileId|
                    self.items().contains_key(u) <==> items_drop_on(
                        items0,
                        id,
                        sk1,
                    ).contains_key(u) by {
                    if u != t {
                        assert(self.tiles@.contains_key(u) == tiles_pre.contains_key(u));
                        assert(tiles_pre.contains_key(u) == items_drop_on(
                            items0,
                            id,
                            sk,
                        ).contains_key(u));
                        assert(sk1.contains(u) == sk.contains(u));
                    } else {
                        assert(items0.contains_key(t));
                        assert(sk1.contains(t));
                        assert(self.tiles@.contains_key(t) == keep);
                    }
                }
                assert forall|u: TileId| #[trigger] self.items().contains_key(u) implies
                    self.items()[u] =~= items_drop_on(items0, id, sk1)[u] by {
                    if u != t {
                        assert(self.tiles@[u] == tiles_pre[u]);
                        assert(self.items()[u] == items_drop_on(items0, id, sk)[u]);
                    } else {
                        assert(keep);
                        assert(self.items()[t] =~= inner@.map_values(|v: Vec<Line>| v@));
                        assert(self.items()[t] =~= items0[t].remove(id));
                    }
                }
                assert(self.items() =~~= items_drop_on(items0, id, sk1));
                assert forall|u: TileId| self.tiles@.contains_key(u) implies (
                #[trigger] self.tiles@[u]).wf() && self.tiles@[u].pairs().len() > 0 by {
                    if u != t {
                        assert(self.tiles@[u] == tiles_pre[u]);
                    }
                }
            }
            k = k + 1;
        }
        proof {
            assert(ts@.take(m as int) =~= ts@);
            old(self).lemma_inv_items();
            assert forall|u: TileId|
                self.items().contains_key(u) <==> items_without_path(items0, id).contains_key(
                    u,
                ) by {
                if items0.contains_key(u) && !occupied.contains(u) {
                    assert(!items0[u].contains_key(id));
                    let p = choose|p: PathId| #[trigger] items0[u].contains_key(p);
                    assert(p != id && items0[u].contains_key(p));
                }
            }
            assert forall|u: TileId| #[trigger] self.items().contains_key(u) implies
                self.items()[u] =~= items_without_path(items0, id)[u] by {
                if !occupied.contains(u) {
                    assert(!items0[u].contains_key(id));
                    assert(items0[u].remove(id) =~= items0[u]);
                }
            }
            assert(self.items() =~~= items_without_path(items0, id));
        }
    }
}



/// A shape that tile queries accept: it exposes a bounding rectangle and an
/// exact intersection test against a tile's square.
pub trait TileQuery {
    /// The bounding rectangle of the shape, normalized.
    spec fn spec_bb(&self) -> Rect;

    /// Whether the shape shares a point with the closed box
    /// `[x0, x1] × [y0, y1]`.
    spec fn spec_meets_box(&self, x0: int, y0: int, x1: int, y1: int) -> bool;

    /// The bounding rectangle of the shape.
    fn bb(&self) -> (r: Rect)
        ensures
            r == self.spec_bb(),
            r.wf(),
    ;

    /// Whether the shape shares a point with tile `t`'s square.
    fn meets_tile(&self, t: TileId) -> (r: bool)
        ensures
            r == self.spec_meets_box(tile_x0(t), tile_y0(t), tile_x1(t), tile_y1(t)),
    ;
}

impl TileQuery for Rect {
    open spec fn spec_bb(&self) -> Rect {
        Rect::spec_new(self.min, self.max)
    }

    open spec fn spec_meets_box(&self, x0: int, y0: int, x1: int, y1: int) -> bool {
        let r = Rect::spec_new(self.min, self.max);
        &&& r.min.x <= x1 && x0 <= r.max.x
        &&& r.min.y <= y1 && y0 <= r.max.y
    }

    fn bb(&self) -> (r: Rect) {
        Rect::new(self.min, self.max)
    }

    fn meets_tile(&self, t: TileId) -> (r: bool) {
        proof {
            lemma_tile_box_bounds(t);
        }
        let b = Rect::new(self.min, self.max);
        let bx0 = t.x as i64 * TILE_LEN as i64;
        let by0 = t.y as i64 * TILE_LEN as i64;
        b.min.x as i64 <= bx0 + TILE_LEN as i64 && bx0 <= b.max.x as i64 && b.min.y as i64 <= by0
            + TILE_LEN as i64 && by0 <= b.max.y as i64
    }
}

impl TileQuery for Line {
    open spec fn spec_bb(&self) -> Rect {
        seg_bb(*self)
    }

    open spec fn spec_meets_box(&self, x0: int, y0: int, x1: int, y1: int) -> bool {
        seg_meets_box(self.start, self.end, x0, y0, x1, y1)
    }

    fn bb(&self) -> (r: Rect) {
        Rect::new(self.start, self.end)
    }

    fn meets_tile(&self, t: TileId) -> (r: bool) {
        proof {
            lemma_tile_box_bounds(t);
        }
        let bx0 = t.x as i64 * TILE_LEN as i64;
        let by0 = t.y as i64 * TILE_LEN as i64;
        seg_meets_box_wide(
            self.start,
            self.end,
            bx0,
            by0,
            bx0 + TILE_LEN as i64,
            by0 + TILE_LEN as i64,
        )
    }
}

/// A tile's square bounds fit comfortably within the wide integer range.
pub proof fn lemma_tile_box_bounds(t: TileId)
    ensures
        -0x1_0000_0000_0000 <= tile_x0(t) <= 0x1_0000_0000_0000,
        -0x1_0000_0000_0000 <= tile_y0(t) <= 0x1_0000_0000_0000,
        -0x1_0000_0000_0000 <= tile_x1(t) <= 0x1_0000_0000_0000,
        -0x1_0000_0000_0000 <= tile_y1(t) <= 0x1_0000_0000_0000,
{
    assert((-0x1_0000_0000_0000 <= (t.x as int) * (TILE_LEN as int) <= 0x1_0000_0000_0000 - 128)
        && (-0x1_0000_0000_0000 <= (t.y as int) * (TILE_LEN as int) <= 0x1_0000_0000_0000 - 128))
        by (nonlinear_arith)
        requires
            -0x8000_0000 <= t.x as int <= 0x8000_0000,
            -0x8000_0000 <= t.y as int <= 0x8000_0000,
            TILE_LEN as int == 128,
    ;
}

/// Whether tile `t` answers a query with shape `g`: the tile lies in the grid
/// walk of the shape's bounding rectangle and the shape meets its square.
pub open spec fn is_query_tile<G: TileQuery>(g: &G, t: TileId) -> bool {
    grid_covers(g.spec_bb(), t) && g.spec_meets_box(tile_x0(t), tile_y0(t), tile_x1(t), tile_y1(t))
}

/// Copies a segment list.
fn copy_lines(v: &Vec<Line>) -> (r: Vec<Line>)
    ensures
        r@ == v@,
{
    let mut r: Vec<Line> = Vec::new();
    let n = v.len();
    let mut i: usize = 0;
    while i < n
        invariant
            i <= n,
            n == v@.len(),
            r@ == v@.take(i as int),
        decreases n - i,
    {
        r.push(v[i]);
        proof {
            assert(r@ =~= v@.take(i as int + 1));
        }
        i = i + 1;
    }
    proof {
        assert(v@.take(n as int) =~= v@);
    }
    r
}

/// A yielded (path, segments) pair is justified: some tile answering the
/// query registers exactly these segments under this path.
pub open spec fn query_pair_ok<G: TileQuery>(
    items: Map<TileId, Map<PathId, Seq<Line>>>,
    g: &G,
    pair: (PathId, Vec<Line>),
) -> bool {
    exists|t: TileId|
        #![trigger is_query_tile(g, t)]
        is_query_tile(g, t) && items.contains_key(t) && items[t].contains_key(pair.0) && pair.1@
            == items[t][pair.0]
}

/// The sequence `ts` names, yield by yield, the tile justifying each pair of
/// `out`: every yield is registered on its named tile, no path is yielded
/// twice for one tile, and every (tile, path) occupancy the query matches is
/// named. So a path registered on `k` matching tiles is yielded exactly `k`
/// times. (Opaque: users reveal it to read the clauses.)
#[verifier::opaque]
pub open spec fn query_yield_tiles<G: TileQuery>(
    items: Map<TileId, Map<PathId, Seq<Line>>>,
    g: &G,
    out: Seq<(PathId, Vec<Line>)>,
    ts: Seq<TileId>,
) -> bool {
    &&& ts.len() == out.len()
    &&& forall|k: int|
        #![trigger ts[k]]
        0 <= k < out.len() ==> is_query_tile(g, ts[k]) && items.contains_key(ts[k])
            && items[ts[k]].contains_key(out[k].0) && out[k].1@ == items[ts[k]][out[k].0]
    &&& forall|k1: int, k2: int|
        #![trigger ts[k1], ts[k2]]
        0 <= k1 < k2 < out.len() && ts[k1] == ts[k2] ==> out[k1].0 != out[k2].0
    &&& forall|t: TileId, id: PathId|
        #![trigger is_query_tile(g, t), items[t].contains_key(id)]
        is_query_tile(g, t) && items.contains_key(t) && items[t].contains_key(id) ==> exists|
            k: int,
        | 0 <= k < out.len() && (#[trigger] ts[k]) == t && out[k].0 == id
}

/// Appends one yield per path registered on tile `t` — its identifier and a
/// copy of its segments there — and names `t` as the justifying tile of each
/// appended yield.
fn emit_tile_entries<G: TileQuery>(
    g: &G,
    t: TileId,
    inner: &VMap<PathId, Vec<Line>>,
    out: &mut Vec<(PathId, Vec<Line>)>,
    gts: Ghost<Seq<TileId>>,
) -> (r: Ghost<Seq<TileId>>)
    requires
        inner.wf(),
        gts@.len() == old(out)@.len(),
    ensures
        final(out)@.len() == old(out)@.len() + inner.pairs().len(),
        r@.len() == final(out)@.len(),
        forall|k: int|
            0 <= k < old(out)@.len() ==> (#[trigger] final(out)@[k]) == old(out)@[k] && r@[k]
                == gts@[k],
        forall|k: int|
            old(out)@.len() <= k < final(out)@.len() ==> (#[trigger] r@[k]) == t
                && final(out)@[k].0 == inner.pairs()[k - old(out)@.len()].0
                && final(out)@[k].1@ == inner.pairs()[k - old(out)@.len()].1@,
{
    let ghost base = out@.len() as int;
    let ghost mut ts = gts@;
    let pairs = inner.entries();
    let m = pairs.len();
    let mut j: usize = 0;
    while j < m
        invariant
            j <= m,
            m == inner.pairs().len(),
            pairs@ == inner.pairs(),
            0 <= base,
            out@.len() == base + j,
            ts.len() == out@.len(),
            forall|k: int|
                0 <= k < base ==> (#[trigger] out@[k]) == old(out)@[k] && ts[k] == gts@[k],
            forall|k: int|
                base <= k < out@.len() ==> (#[trigger] ts[k]) == t && out@[k].0 == inner.pairs()[k
                    - base].0 && out@[k].1@ == inner.pairs()[k - base].1@,
            base == old(out)@.len(),
        decreases m - j,
    {
        let pid = pairs[j].0;
        let segs = copy_lines(&pairs[j].1);
        let ghost out_pre = out@;
        let ghost ts_pre = ts;
        out.push((pid, segs));
        proof {
            ts = ts.push(t);
            assert(out@ =~= out_pre.push((pid, segs)));
            assert forall|k: int| 0 <= k < out_pre.len() implies (#[trigger] out@[k]) == out_pre[k]
                && ts[k] == ts_pre[k] by {}
        }
        j = j + 1;
    }
    Ghost(ts)
}

/// Walking one more candidate extends the walked prefix by exactly that tile.
proof fn lemma_take_step(cand: Seq<TileId>, i: int)
    requires
        0 <= i < cand.len(),
    ensures
        forall|u: TileId| cand.take(i).contains(u) ==> #[trigger] cand.take(i + 1).contains(u),
        cand.take(i + 1).contains(cand[i]),
        forall|u: TileId|
            #[trigger] cand.take(i + 1).contains(u) ==> cand.take(i).contains(u) || u == cand[i],
{
    assert(cand.take(i + 1) =~= cand.take(i).push(cand[i]));
    assert forall|u: TileId| cand.take(i).contains(u) implies #[trigger] cand.take(
        i + 1,
    ).contains(u) by {
        let x = choose|x: int| 0 <= x < i && (#[trigger] cand.take(i)[x]) == u;
        assert(cand.take(i + 1)[x] == u);
    }
    assert(cand.take(i + 1)[i] == cand[i]);
    assert forall|u: TileId| #[trigger] cand.take(i + 1).contains(u) implies cand.take(
        i,
    ).contains(u) || u == cand[i] by {
        let x = choose|x: int| 0 <= x < i + 1 && (#[trigger] cand.take(i + 1)[x]) == u;
        if x < i {
            assert(cand.take(i)[x] == u);
        }
    }
}

/// The walk invariant after `i` candidates: tiles and yields line up, every
/// yield is justified by a walked tile, no walked tile justifies one path
/// twice, and every matched occupancy of a walked tile is yielded.
#[verifier::opaque]
pub open spec fn query_walk_inv<G: TileQuery>(
    items: Map<TileId, Map<PathId, Seq<Line>>>,
    g: &G,
    cand: Seq<TileId>,
    i: int,
    out: Seq<(PathId, Vec<Line>)>,
    gts: Seq<TileId>,
) -> bool {
    &&& gts.len() == out.len()
    &&& forall|k: int|
        #![trigger gts[k]]
        0 <= k < out.len() ==> is_query_tile(g, gts[k]) && items.contains_key(gts[k])
            && items[gts[k]].contains_key(out[k].0) && out[k].1@ == items[gts[k]][out[k].0]
            && cand.take(i).contains(gts[k])
    &&& forall|k1: int, k2: int|
        #![trigger gts[k1], gts[k2]]
        0 <= k1 < k2 < out.len() && gts[k1] == gts[k2] ==> out[k1].0 != out[k2].0
    &&& forall|t: TileId, id: PathId|
        #![trigger is_query_tile(g, t), items[t].contains_key(id)]
        cand.take(i).contains(t) && is_query_tile(g, t) && items.contains_key(t)
            && items[t].contains_key(id) ==> exists|k: int|
            0 <= k < out.len() && (#[trigger] gts[k]) == t && out[k].0 == id
}

/// The walk invariant holds before any candidate is walked.
proof fn lemma_query_start<G: TileQuery>(
    items: Map<TileId, Map<PathId, Seq<Line>>>,
    g: &G,
    cand: Seq<TileId>,
)
    ensures
        query_walk_inv(
            items,
            g,
            cand,
            0,
            Seq::<(PathId, Vec<Line>)>::empty(),
            Seq::<TileId>::empty(),
        ),
{
    reveal(query_walk_inv);
    assert(cand.take(0) =~= Seq::<TileId>::empty());
}

/// A candidate that contributes no yield keeps the walk invariant.
proof fn lemma_query_skip<G: TileQuery>(
    items: Map<TileId, Map<PathId, Seq<Line>>>,
    g: &G,
    cand: Seq<TileId>,
    i: int,
    out: Seq<(PathId, Vec<Line>)>,
    gts: Seq<TileId>,
)
    requires
        0 <= i < cand.len(),
        !(is_query_tile(g, cand[i]) && items.contains_key(cand[i])),
        query_walk_inv(items, g, cand, i, out, gts),
    ensures
        query_walk_inv(items, g, cand, i + 1, out, gts),
{
    reveal(query_walk_inv);
    lemma_take_step(cand, i);
    assert forall|t: TileId, id: PathId|
        cand.take(i + 1).contains(t) && is_query_tile(g, t) && items.contains_key(t) && (
        #[trigger] items[t].contains_key(id)) implies exists|k: int|
        0 <= k < out.len() && (#[trigger] gts[k]) == t && out[k].0 == id by {
        assert(cand.take(i).contains(t));
    }
}

/// A contributing candidate whose entries were appended — one yield per
/// registered path, justified by that tile — extends the walk invariant.
proof fn lemma_query_grow<G: TileQuery>(
    items: Map<TileId, Map<PathId, Seq<Line>>>,
    g: &G,
    cand: Seq<TileId>,
    i: int,
    inner: Map<PathId, Vec<Line>>,
    pairs: Seq<(PathId, Vec<Line>)>,
    out_pre: Seq<(PathId, Vec<Line>)>,
    gts_pre: Seq<TileId>,
    out: Seq<(PathId, Vec<Line>)>,
    gts: Seq<TileId>,
)
    requires
        0 <= i < cand.len(),
        cand.no_duplicates(),
        is_query_tile(g, cand[i]),
        items.contains_key(cand[i]),
        items[cand[i]] == inner.map_values(|v: Vec<Line>| v@),
        forall|p: PathId| inner.contains_key(p) <==> exists|x: int|
            0 <= x < pairs.len() && (#[trigger] pairs[x]).0 == p,
        forall|x: int| 0 <= x < pairs.len() ==> inner.contains_key((#[trigger] pairs[x]).0)
            && inner[pairs[x].0] == pairs[x].1,
        crate::store::distinct_keys(pairs),
        query_walk_inv(items, g, cand, i, out_pre, gts_pre),
        out.len() == out_pre.len() + pairs.len(),
        gts.len() == out.len(),
        forall|k: int|
            #![trigger gts[k]]
            0 <= k < out_pre.len() ==> out[k] == out_pre[k] && gts[k] == gts_pre[k],
        forall|k: int|
            #![trigger gts[k]]
            out_pre.len() <= k < out.len() ==> gts[k] == cand[i] && out[k].0 == pairs[k
                - out_pre.len()].0 && out[k].1@ == pairs[k - out_pre.len()].1@,
    ensures
        query_walk_inv(items, g, cand, i + 1, out, gts),
{
    reveal(query_walk_inv);
    let t = cand[i];
    let base = out_pre.len() as int;
    lemma_take_step(cand, i);
    assert(!cand.take(i).contains(t)) by {
        if cand.take(i).contains(t) {
            let x = choose|x: int| 0 <= x < i && (#[trigger] cand.take(i)[x]) == t;
            assert(cand[x] == cand[i]);
        }
    }
    assert forall|k: int|
        #![trigger gts[k]]
        0 <= k < out.len() implies is_query_tile(g, gts[k]) && items.contains_key(gts[k])
        && items[gts[k]].contains_key(out[k].0) && out[k].1@ == items[gts[k]][out[k].0]
        && cand.take(i + 1).contains(gts[k]) by {
        if k < base {
            assert(gts[k] == gts_pre[k]);
            assert(out[k] == out_pre[k]);
            assert(gts_pre[k] == gts_pre[k]);
            assert(cand.take(i).contains(gts_pre[k]));
        } else {
            let x = k - base;
            assert(gts[k] == t);
            assert(out[k].0 == pairs[x].0);
            assert(inner.contains_key(pairs[x].0));
            assert(inner[pairs[x].0] == pairs[x].1);
            assert(items[t].contains_key(out[k].0));
            assert(items[t][out[k].0] == pairs[x].1@);
        }
    }
    assert forall|k1: int, k2: int|
        #![trigger gts[k1], gts[k2]]
        0 <= k1 < k2 < out.len() && gts[k1] == gts[k2] implies out[k1].0 != out[k2].0 by {
        if k2 < base {
            assert(out[k1] == out_pre[k1] && out[k2] == out_pre[k2]);
            assert(gts[k1] == gts_pre[k1] && gts[k2] == gts_pre[k2]);
        } else if k1 < base {
            assert(gts[k2] == t);
            assert(gts[k1] == gts_pre[k1]);
            assert(out[k1] == out_pre[k1]);
            assert(cand.take(i).contains(gts_pre[k1]));
        } else {
            assert(out[k1].0 == pairs[k1 - base].0);
            assert(out[k2].0 == pairs[k2 - base].0);
        }
    }
    assert forall|u: TileId, id: PathId|
        cand.take(i + 1).contains(u) && is_query_tile(g, u) && items.contains_key(u) && (
        #[trigger] items[u].contains_key(id)) implies exists|k: int|
        0 <= k < out.len() && (#[trigger] gts[k]) == u && out[k].0 == id by {
        if u == t {
            assert(inner.contains_key(id));
            let x = choose|x: int| 0 <= x < pairs.len() && (#[trigger] pairs[x]).0 == id;
            assert(gts[base + x] == t);
            assert(out[base + x].0 == pairs[x].0);
        } else {
            assert(cand.take(i).contains(u));
            assert(exists|k0: int|
                0 <= k0 < out_pre.len() && (#[trigger] gts_pre[k0]) == u && out_pre[k0].0 == id);
            let k0 = choose|k0: int|
                0 <= k0 < out_pre.len() && (#[trigger] gts_pre[k0]) == u && out_pre[k0].0 == id;
            assert(0 <= k0 < out_pre.len());
            assert(gts[k0] == gts_pre[k0]);
            assert(out[k0] == out_pre[k0]);
        }
    }
}

/// Once every candidate tile is walked, the walk invariant says the witness
/// tiles justify every yield, exactly once per occupied matching tile.
proof fn lemma_query_finish<G: TileQuery>(
    items: Map<TileId, Map<PathId, Seq<Line>>>,
    g: &G,
    cand: Seq<TileId>,
    out: Seq<(PathId, Vec<Line>)>,
    gts: Seq<TileId>,
)
    requires
        forall|t: TileId| grid_covers(g.spec_bb(), t) ==> #[trigger] cand.contains(t),
        query_walk_inv(items, g, cand, cand.len() as int, out, gts),
    ensures
        query_yield_tiles(items, g, out, gts),
{
    reveal(query_walk_inv);
    reveal(query_yield_tiles);
    assert(cand.take(cand.len() as int) =~= cand);
    assert forall|t: TileId, id: PathId|
        is_query_tile(g, t) && items.contains_key(t) && (#[trigger] items[t].contains_key(
            id,
        )) implies exists|k: int|
        0 <= k < out.len() && (#[trigger] gts[k]) == t && out[k].0 == id by {
        assert(grid_covers(g.spec_bb(), t));
        assert(cand.contains(t));
    }
    assert(query_yield_tiles(items, g, out, gts));
}

/// Every yield with a witness tile is a justified pair.
proof fn lemma_query_sound<G: TileQuery>(
    items: Map<TileId, Map<PathId, Seq<Line>>>,
    g: &G,
    out: Seq<(PathId, Vec<Line>)>,
    gts: Seq<TileId>,
)
    requires
        query_yield_tiles(items, g, out, gts),
    ensures
        forall|k: int| #![trigger out[k]] 0 <= k < out.len() ==> query_pair_ok(items, g, out[k]),
{
    reveal(query_yield_tiles);
    assert forall|k: int|
        0 <= k < out.len() implies query_pair_ok(items, g, #[trigger] out[k]) by {
        assert(is_query_tile(g, gts[k]) && items.contains_key(gts[k])
            && items[gts[k]].contains_key(out[k].0) && out[k].1@ == items[gts[k]][out[k].0]);
    }
}

/// Every matched occupancy appears among the yields with its segments.
proof fn lemma_query_complete<G: TileQuery>(
    items: Map<TileId, Map<PathId, Seq<Line>>>,
    g: &G,
    out: Seq<(PathId, Vec<Line>)>,
    gts: Seq<TileId>,
)
    requires
        query_yield_tiles(items, g, out, gts),
    ensures
        forall|t: TileId, id: PathId|
            #![trigger is_query_tile(g, t), items[t].contains_key(id)]
            is_query_tile(g, t) && items.contains_key(t) && items[t].contains_key(id) ==> exists|
                k: int,
            | 0 <= k < out.len() && (#[trigger] out[k]).0 == id && out[k].1@ == items[t][id],
{
    reveal(query_yield_tiles);
    assert forall|t: TileId, id: PathId|
        is_query_tile(g, t) && items.contains_key(t) && (#[trigger] items[t].contains_key(
            id,
        )) implies exists|k: int|
        0 <= k < out.len() && (#[trigger] out[k]).0 == id && out[k].1@ == items[t][id] by {
        let k0 = choose|k0: int|
            0 <= k0 < out.len() && (#[trigger] gts[k0]) == t && out[k0].0 == id;
        assert(out[k0].1@ == items[gts[k0]][out[k0].0]);
        assert(out[k0].0 == id && out[k0].1@ == items[t][id]);
    }
}

impl Tiling {
    /// Yields, for every tile in the grid walk of the shape's bounding
    /// rectangle that the shape exactly meets, each path registered on that
    /// tile with its segments there — a path occupying several matching tiles
    /// is yielded exactly once per such tile, as the witness tile sequence of
    /// the last clause states.
    #[verifier::rlimit(100)]
    #[verifier::spinoff_prover]
    pub fn bounding_tile_items<G: TileQuery>(&self, g: &G) -> (r: Vec<(PathId, Vec<Line>)>)
        requires
            self.inv(),
        ensures
            forall|k: int|
                #![trigger r@[k]]
                0 <= k < r@.len() ==> query_pair_ok(self.items(), g, r@[k]),
            forall|t: TileId, id: PathId|
                #![trigger is_query_tile(g, t), self.items()[t].contains_key(id)]
                is_query_tile(g, t) && self.items().contains_key(t)
                    && self.items()[t].contains_key(id) ==> exists|k: int|
                    0 <= k < r@.len() && (#[trigger] r@[k]).0 == id && r@[k].1@
                        == self.items()[t][id],
            exists|ts: Seq<TileId>| #[trigger] query_yield_tiles(self.items(), g, r@, ts),
    {
        let mut out: Vec<(PathId, Vec<Line>)> = Vec::new();
        let mut gts: Ghost<Seq<TileId>> = Ghost(Seq::empty());
        let bbr = g.bb();
        let cand = grid_tiles(&bbr);
        let n = cand.len();
        let mut i: usize = 0;
        proof {
            lemma_query_start(self.items(), g, cand@);
        }
        while i < n
            invariant
                i <= n,
                n == cand@.len(),
                cand@.no_duplicates(),
                forall|t: TileId| grid_covers(g.spec_bb(), t) ==> #[trigger] cand@.contains(t),
                forall|t: TileId| cand@.contains(t) ==> #[trigger] grid_covers(g.spec_bb(), t),
                self.tiles.wf(),
                forall|u: TileId|
                    self.tiles@.contains_key(u) ==> (#[trigger] self.tiles@[u]).wf(),
                gts@.len() == out@.len(),
                query_walk_inv(self.items(), g, cand@, i as int, out@, gts@),
            decreases n - i,
        {
            let t = cand[i];
            proof {
                assert(cand@[i as int] == t);
            }
            let hit = g.meets_tile(t);
            let mut contributed = false;
            if hit {
                let found = self.tiles.get(&t);
                if found.is_some() {
                    let inner: &VMap<PathId, Vec<Line>> = found.unwrap();
                    proof {
                        inner.lemma_pairs();
                        assert(self.items().contains_key(t));
                        assert(self.items()[t] =~= inner@.map_values(|v: Vec<Line>| v@));
                    }
                    proof {
                        assert(cand@.contains(t)) by {
                            assert(cand@[i as int] == t);
                        }
                        assert(is_query_tile(g, t));
                    }
                    let ghost out_pre = out@;
                    let ghost gts_pre = gts@;
                    gts = emit_tile_entries(g, t, inner, &mut out, gts);
                    contributed = true;
                    proof {
                        lemma_query_grow(
                            self.items(),
                            g,
                            cand@,
                            i as int,
                            inner@,
                            inner.pairs(),
                            out_pre,
                            gts_pre,
                            out@,
                            gts@,
                        );
                        assert(gts@.len() == out@.len());
                    }
                }
            }
            if !contributed {
                proof {
                    if hit {
                        assert(!self.items().contains_key(t));
                    }
                    assert(!(is_query_tile(g, t) && self.items().contains_key(t)));
                    lemma_query_skip(self.items(), g, cand@, i as int, out@, gts@);
                }
            }
            i = i + 1;
        }
        proof {
            lemma_query_finish(self.items(), g, cand@, out@, gts@);
            lemma_query_sound(self.items(), g, out@, gts@);
            lemma_query_complete(self.items(), g, out@, gts@);
        }
        out
    }
}

/// Tiling round-trip law: registering a path on tile maps that are free of it
/// and then dropping the path restores the maps exactly — no residual tile or
/// per-tile entry remains.
pub proof fn lemma_tiling_round_trip(
    items: Map<TileId, Map<PathId, Seq<Line>>>,
    id: PathId,
    ps: Seq<Coord>,
)
    requires
        items_free_of(items, id),
        forall|t: TileId| items.contains_key(t) ==> exists|p: PathId| #[trigger] items[t].contains_key(p),
    ensures
        items_without_path(items_with_path(items, id, ps), id) == items,
{
    let w = items_with_path(items, id, ps);
    let res = items_without_path(w, id);
    assert forall|u: TileId| res.contains_key(u) <==> items.contains_key(u) by {
        if items.contains_key(u) {
            let p = choose|p: PathId| #[trigger] items[u].contains_key(p);
            assert(!items[u].contains_key(id));
            assert(p != id);
            if path_tiles(ps).contains(u) {
                assert(w[u].contains_key(p));
            } else {
                assert(w[u] == items[u]);
            }
            assert(w.contains_key(u));
            assert(res.contains_key(u));
        }
        if res.contains_key(u) && !items.contains_key(u) {
            assert(path_tiles(ps).contains(u));
            let p = choose|p: PathId| p != id && #[trigger] w[u].contains_key(p);
            assert(w[u] == Map::<PathId, Seq<Line>>::empty().insert(id, tile_segs(ps, u)));
            assert(false);
        }
    }
    assert forall|u: TileId| #[trigger] res.contains_key(u) implies res[u] =~= items[u] by {
        assert(!items[u].contains_key(id));
        if path_tiles(ps).contains(u) {
            assert(w[u] == items[u].insert(id, tile_segs(ps, u)));
            assert(res[u] =~= items[u].insert(id, tile_segs(ps, u)).remove(id));
        } else {
            assert(w[u] == items[u]);
            assert(res[u] =~= items[u].remove(id));
        }
    }
    assert(res =~~= items);
}

/// The cross product, rewritten as an affine form in the test point.
proof fn lemma_cross_repr(a: Coord, b: Coord, px: int, py: int)
    ensures
        cross(a, b, px, py) == (-((b.y - a.y) as int)) * (px - a.x) + ((b.x - a.x) as int) * (py
            - a.y),
{
    assert((b.x - a.x) * (py - a.y) - (b.y - a.y) * (px - a.x) == (-((b.y - a.y) as int)) * (px
        - a.x) + ((b.x - a.x) as int) * (py - a.y)) by (nonlinear_arith);
}

/// A point of a closed box lies weakly between the box corners with respect
/// to the side of a directed line: if all four corners lie strictly on one
/// side, so does the point.
proof fn lemma_cross_in_box(a: Coord, b: Coord, px: int, py: int, x0: int, y0: int, x1: int, y1: int)
    requires
        x0 <= px <= x1,
        y0 <= py <= y1,
    ensures
        cross(a, b, x0, y0) > 0 && cross(a, b, x1, y0) > 0 && cross(a, b, x0, y1) > 0 && cross(
            a,
            b,
            x1,
            y1,
        ) > 0 ==> cross(a, b, px, py) > 0,
        cross(a, b, x0, y0) < 0 && cross(a, b, x1, y0) < 0 && cross(a, b, x0, y1) < 0 && cross(
            a,
            b,
            x1,
            y1,
        ) < 0 ==> cross(a, b, px, py) < 0,
{
    let beta = -((b.y - a.y) as int);
    let gamma = (b.x - a.x) as int;
    let ax = a.x as int;
    let ay = a.y as int;
    let cpp = cross(a, b, px, py);
    let c00 = cross(a, b, x0, y0);
    let c10 = cross(a, b, x1, y0);
    let c01 = cross(a, b, x0, y1);
    let c11 = cross(a, b, x1, y1);
    lemma_cross_repr(a, b, px, py);
    lemma_cross_repr(a, b, x0, y0);
    lemma_cross_repr(a, b, x1, y0);
    lemma_cross_repr(a, b, x0, y1);
    lemma_cross_repr(a, b, x1, y1);
    if beta >= 0 && gamma >= 0 {
        assert(c00 <= cpp <= c11) by (nonlinear_arith)
            requires
                x0 <= px <= x1,
                y0 <= py <= y1,
                beta >= 0,
                gamma >= 0,
                cpp == beta * (px - ax) + gamma * (py - ay),
                c00 == beta * (x0 - ax) + gamma * (y0 - ay),
                c11 == beta * (x1 - ax) + gamma * (y1 - ay),
        ;
    } else if beta >= 0 && gamma < 0 {
        assert(c01 <= cpp <= c10) by (nonlinear_arith)
            requires
                x0 <= px <= x1,
                y0 <= py <= y1,
                beta >= 0,
                gamma < 0,
                cpp == beta * (px - ax) + gamma * (py - ay),
                c01 == beta * (x0 - ax) + gamma * (y1 - ay),
                c10 == beta * (x1 - ax) + gamma * (y0 - ay),
        ;
    } else if beta < 0 && gamma >= 0 {
        assert(c10 <= cpp <= c01) by (nonlinear_arith)
            requires
                x0 <= px <= x1,
                y0 <= py <= y1,
                beta < 0,
                gamma >= 0,
                cpp == beta * (px - ax) + gamma * (py - ay),
                c10 == beta * (x1 - ax) + gamma * (y0 - ay),
                c01 == beta * (x0 - ax) + gamma * (y1 - ay),
        ;
    } else {
        assert(c11 <= cpp <= c00) by (nonlinear_arith)
            requires
                x0 <= px <= x1,
                y0 <= py <= y1,
                beta < 0,
                gamma < 0,
                cpp == beta * (px - ax) + gamma * (py - ay),
                c11 == beta * (x1 - ax) + gamma * (y1 - ay),
                c00 == beta * (x0 - ax) + gamma * (y0 - ay),
        ;
    }
}

/// A point on a segment that is covered by a closed box witnesses that the
/// segment meets the box, provided the point is one of the segment's
/// endpoints.
proof fn lemma_endpoint_in_box_meets(l: Line, c: Coord, x0: int, y0: int, x1: int, y1: int)
    requires
        c == l.start || c == l.end,
        x0 <= c.x as int <= x1,
        y0 <= c.y as int <= y1,
    ensures
        seg_meets_box(l.start, l.end, x0, y0, x1, y1),
{
    assert(cross(l.start, l.end, c.x as int, c.y as int) == 0) by {
        let cc = cross(l.start, l.end, c.x as int, c.y as int);
        if c == l.start {
            assert(cc == (l.end.x - l.start.x) * (l.start.y - l.start.y) - (l.end.y - l.start.y) * (
            l.start.x - l.start.x));
            assert(cc == 0) by (nonlinear_arith)
                requires
                    cc == (l.end.x - l.start.x) * (l.start.y - l.start.y) - (l.end.y - l.start.y) * (
                    l.start.x - l.start.x),
            ;
        } else {
            assert(cc == (l.end.x - l.start.x) * (l.end.y - l.start.y) - (l.end.y - l.start.y) * (
            l.end.x - l.start.x));
            assert(cc == 0) by (nonlinear_arith)
                requires
                    cc == (l.end.x - l.start.x) * (l.end.y - l.start.y) - (l.end.y - l.start.y) * (
                    l.end.x - l.start.x),
            ;
        }
    }
    lemma_cross_in_box(l.start, l.end, c.x as int, c.y as int, x0, y0, x1, y1);
}

/// The tile whose span contains a coordinate pair.
pub open spec fn tile_at(c: Coord) -> TileId {
    TileId { x: tile_coord(c.x as int) as i32, y: tile_coord(c.y as int) as i32 }
}

/// The tile at a point covers that point.
proof fn lemma_tile_at_covers(c: Coord)
    ensures
        tile_x0(tile_at(c)) <= c.x as int <= tile_x1(tile_at(c)),
        tile_y0(tile_at(c)) <= c.y as int <= tile_y1(tile_at(c)),
{
    let lcl = TILE_LEN as int;
    lemma_fundamental_div_mod(c.x as int, lcl);
    lemma_fundamental_div_mod(c.y as int, lcl);
    vstd::arithmetic::div_mod::lemma_mod_bound(c.x as int, lcl);
    vstd::arithmetic::div_mod::lemma_mod_bound(c.y as int, lcl);
    assert(-0x100_0000 <= tile_coord(c.x as int) <= 0xff_ffff) by {
        vstd::arithmetic::div_mod::lemma_div_is_ordered(-0x8000_0000, c.x as int, lcl);
        vstd::arithmetic::div_mod::lemma_div_is_ordered(c.x as int, 0x7fff_ffff, lcl);
    }
    assert(-0x100_0000 <= tile_coord(c.y as int) <= 0xff_ffff) by {
        vstd::arithmetic::div_mod::lemma_div_is_ordered(-0x8000_0000, c.y as int, lcl);
        vstd::arithmetic::div_mod::lemma_div_is_ordered(c.y as int, 0x7fff_ffff, lcl);
    }
}

/// Query completeness at segment endpoints: when an endpoint of one of the
/// path's stored segments is covered by the query rectangle, some tile
/// answers a rectangle query and registers the path, so the query yields the
/// path. (A segment can also cross the rectangle away from both endpoints;
/// that case goes through the same tile walk but is not proved here.)
pub proof fn lemma_query_completeness_endpoint(
    items: Map<TileId, Map<PathId, Seq<Line>>>,
    id: PathId,
    ps: Seq<Coord>,
    r: Rect,
    i: int,
    c: Coord,
)
    requires
        forall|t: TileId|
            #![trigger path_tiles(ps).contains(t)]
            path_tiles(ps).contains(t) ==> items.contains_key(t) && items[t].contains_key(id),
        0 <= i < segs_of(ps).len(),
        c == segs_of(ps)[i].start || c == segs_of(ps)[i].end,
        r.wf(),
        r.covers(c.x as int, c.y as int),
    ensures
        exists|t: TileId|
            #![trigger is_query_tile(&r, t)]
            is_query_tile(&r, t) && items.contains_key(t) && items[t].contains_key(id),
{
    let l = segs_of(ps)[i];
    let t = tile_at(c);
    let lcl = TILE_LEN as int;
    lemma_tile_at_covers(c);
    // the tile lies in the grid walk of the segment's bounding rectangle
    let bb = seg_bb(l);
    assert(bb.min.x <= c.x <= bb.max.x && bb.min.y <= c.y <= bb.max.y);
    vstd::arithmetic::div_mod::lemma_div_is_ordered(bb.min.x as int, c.x as int, lcl);
    vstd::arithmetic::div_mod::lemma_div_is_ordered(c.x as int, bb.max.x as int, lcl);
    vstd::arithmetic::div_mod::lemma_div_is_ordered(bb.min.y as int, c.y as int, lcl);
    vstd::arithmetic::div_mod::lemma_div_is_ordered(c.y as int, bb.max.y as int, lcl);
    assert(grid_covers(bb, t));
    // the segment meets the tile's square at the endpoint
    lemma_endpoint_in_box_meets(l, c, tile_x0(t), tile_y0(t), tile_x1(t), tile_y1(t));
    assert(seg_on_tile(l, t));
    // so the tile is one of the path's occupied tiles
    assert(path_tiles(ps).contains(t)) by {
        assert(segs_of(ps).take(segs_of(ps).len() as int) =~= segs_of(ps));
        segs_of(ps).lemma_filter_contains(|m: Line| seg_on_tile(m, t), i);
        assert(segs_of(ps).filter(|m: Line| seg_on_tile(m, t)).contains(l));
        assert(tile_segs(ps, t).len() > 0);
    }
    // and it answers the rectangle query
    assert(is_query_tile(&r, t)) by {
        assert(Rect::spec_new(r.min, r.max) == r);
        vstd::arithmetic::div_mod::lemma_div_is_ordered(r.min.x as int, c.x as int, lcl);
        vstd::arithmetic::div_mod::lemma_div_is_ordered(c.x as int, r.max.x as int, lcl);
        vstd::arithmetic::div_mod::lemma_div_is_ordered(r.min.y as int, c.y as int, lcl);
        vstd::arithmetic::div_mod::lemma_div_is_ordered(c.y as int, r.max.y as int, lcl);
        assert(grid_covers(r, t));
    }
    assert(items.contains_key(t) && items[t].contains_key(id));
}

} // verus!
