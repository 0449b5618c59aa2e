//! The document: it owns the paths, the selection and hidden sets, the scroll
//! offset, the tool and the pen color; it keeps the tile index consistent
//! with the paths and records a command on the edit history for every
//! mutation, so that undo and redo replay mutations through the same code
//! path as ordinary edits.

use crate::geom::{bb_of, Coord, Line, Rect};
use crate::history::{History, HistoryView};
use crate::path::{Color, PathId, PathView, RenderablePath, Tool};
use crate::store::{assoc_map, lemma_assoc_contains, lemma_assoc_get, VMap, VSet};
use crate::tiling::{items_with_path, items_without_path, path_tiles, tile_segs, TileId, Tiling};
use vstd::prelude::*;

verus! {

/// A self-invertible record of one document edit: inserting paths inverts to
/// removing them, shifting inverts to shifting back, removing inverts to
/// inserting the captured snapshots.
#[derive(Debug)]
pub enum Command {
    Insert { path_ids: Vec<PathId> },
    Shift { path_ids: Vec<PathId>, delta: Coord },
    Remove { paths: Vec<(PathId, RenderablePath)> },
}

/// The negated translation.
pub open spec fn neg_coord(d: Coord) -> Coord {
    Coord { x: (-d.x) as i32, y: (-d.y) as i32 }
}

/// The identifiers of a sequence of path snapshots, in order.
pub open spec fn snap_ids(snaps: Seq<(PathId, RenderablePath)>) -> Seq<PathId> {
    snaps.map_values(|p: (PathId, RenderablePath)| p.0)
}

/// The snapshots with each path taken at its mathematical content.
pub open spec fn snaps_view(snaps: Seq<(PathId, RenderablePath)>) -> Seq<(PathId, PathView)> {
    snaps.map_values(|p: (PathId, RenderablePath)| (p.0, p.1@))
}

/// Whether rolling back command `c` applies cleanly to the given paths:
/// inserted paths are all present, shifted paths are present and can be
/// shifted back without leaving the coordinate range, removed paths are all
/// absent and their snapshots valid.
pub open spec fn rollback_applicable(pm: Map<PathId, PathView>, c: Command) -> bool {
    match c {
        Command::Insert { path_ids } => {
            &&& path_ids@.no_duplicates()
            &&& forall|k: int|
                0 <= k < path_ids@.len() ==> pm.contains_key(#[trigger] path_ids@[k])
        },
        Command::Shift { path_ids, delta } => {
            &&& path_ids@.no_duplicates()
            &&& delta.x != i32::MIN && delta.y != i32::MIN
            &&& forall|k: int|
                0 <= k < path_ids@.len() ==> pm.contains_key(#[trigger] path_ids@[k]) && pm[path_ids@[k]].wf()
                    && pm[path_ids@[k]].can_translate(neg_coord(delta))
        },
        Command::Remove { paths } => {
            &&& snap_ids(paths@).no_duplicates()
            &&& forall|k: int|
                0 <= k < paths@.len() ==> !pm.contains_key((#[trigger] paths@[k]).0) && paths@[k].1.wf()
        },
    }
}

/// The paths with those named in `ids` dropped.
pub open spec fn removed_views(pm: Map<PathId, PathView>, ids: Seq<PathId>) -> Map<
    PathId,
    PathView,
> {
    Map::new(|id: PathId| pm.contains_key(id) && !ids.contains(id), |id: PathId| pm[id])
}

/// The paths with those named in `ids` translated by `delta`.
pub open spec fn shifted_views(pm: Map<PathId, PathView>, ids: Seq<PathId>, delta: Coord) -> Map<
    PathId,
    PathView,
> {
    Map::new(
        |id: PathId| pm.contains_key(id),
        |id: PathId|
            if ids.contains(id) {
                pm[id].translated(delta)
            } else {
                pm[id]
            },
    )
}

/// The paths with the snapshots added.
pub open spec fn inserted_views(
    pm: Map<PathId, PathView>,
    snaps: Seq<(PathId, RenderablePath)>,
) -> Map<PathId, PathView> {
    pm.union_prefer_right(assoc_map(snaps_view(snaps)))
}

/// The paths after command `c` is rolled back.
pub open spec fn rollback_paths(pm: Map<PathId, PathView>, c: Command) -> Map<PathId, PathView> {
    match c {
        Command::Insert { path_ids } => removed_views(pm, path_ids@),
        Command::Shift { path_ids, delta } => shifted_views(pm, path_ids@, neg_coord(delta)),
        Command::Remove { paths } => inserted_views(pm, paths@),
    }
}

/// The selection (or hidden set) after command `c` is rolled back: rolling
/// back an insertion removes the paths, and with them their membership.
pub open spec fn rollback_marks(sel: Set<PathId>, c: Command) -> Set<PathId> {
    match c {
        Command::Insert { path_ids } => sel.difference(path_ids@.to_set()),
        Command::Shift { path_ids, delta } => sel,
        Command::Remove { paths } => sel,
    }
}

/// Every stacked command applies cleanly to the state left by those above it.
pub open spec fn chain_ok(pm: Map<PathId, PathView>, stack: Seq<Command>) -> bool
    decreases stack.len(),
{
    stack.len() == 0 || {
        &&& rollback_applicable(pm, stack.last())
        &&& chain_ok(rollback_paths(pm, stack.last()), stack.drop_last())
    }
}

/// Whether `inv` is the computed inverse of `c` as applied to the paths `pm`:
/// an insertion inverts to removing the same paths with their snapshots taken
/// from `pm`, a shift to the negated shift, a removal to inserting the same
/// snapshots.
pub open spec fn inverse_cmd_ok(pm: Map<PathId, PathView>, c: Command, inv: Command) -> bool {
    match c {
        Command::Insert { path_ids } => match inv {
            Command::Remove { paths } => {
                &&& snap_ids(paths@) == path_ids@
                &&& forall|k: int|
                    0 <= k < paths@.len() ==> (#[trigger] paths@[k]).1@ == pm[paths@[k].0]
                        && paths@[k].1.wf()
            },
            _ => false,
        },
        Command::Shift { path_ids, delta } => match inv {
            Command::Shift { path_ids: ids2, delta: d2 } => ids2@ == path_ids@ && d2 == neg_coord(
                delta,
            ),
            _ => false,
        },
        Command::Remove { paths } => match inv {
            Command::Insert { path_ids } => path_ids@ == snap_ids(paths@),
            _ => false,
        },
    }
}

/// Round-trip law for the selection and hidden marks: rolling back a command
/// and then its computed inverse leaves a mark set unchanged, provided the
/// set marks none of the paths an insertion command names. (Rolling back an
/// insertion drops the removed paths' marks, and re-inserting the paths does
/// not restore marks, so a set marking one of them would not return.)
pub proof fn lemma_rollback_marks_round_trip(sel: Set<PathId>, c: Command, inv: Command)
    requires
        match c {
            Command::Insert { path_ids } => forall|k: int|
                0 <= k < path_ids@.len() ==> !sel.contains(#[trigger] path_ids@[k]),
            _ => true,
        },
        match inv {
            Command::Insert { path_ids } => forall|k: int|
                0 <= k < path_ids@.len() ==> !sel.contains(#[trigger] path_ids@[k]),
            _ => true,
        },
    ensures
        rollback_marks(rollback_marks(sel, c), inv) == sel,
{
    match c {
        Command::Insert { path_ids } => {
            assert forall|p: PathId| rollback_marks(sel, c).contains(p) <==> sel.contains(p) by {
                if sel.contains(p) && path_ids@.to_set().contains(p) {
                    let k = choose|k: int| 0 <= k < path_ids@.len() && path_ids@[k] == p;
                }
            }
            assert(rollback_marks(sel, c) =~= sel);
        }
        _ => {}
    }
    match inv {
        Command::Insert { path_ids } => {
            assert forall|p: PathId|
                rollback_marks(rollback_marks(sel, c), inv).contains(p) <==> rollback_marks(
                    sel,
                    c,
                ).contains(p) by {
                if rollback_marks(sel, c).contains(p) && path_ids@.to_set().contains(p) {
                    let k = choose|k: int| 0 <= k < path_ids@.len() && path_ids@[k] == p;
                    assert(sel.contains(p));
                }
            }
            assert(rollback_marks(rollback_marks(sel, c), inv) =~= rollback_marks(sel, c));
            assert(rollback_marks(rollback_marks(sel, c), inv) =~= sel);
        }
        _ => {
            assert(rollback_marks(rollback_marks(sel, c), inv) =~= sel);
        }
    }
}

/// Every stored path is valid.
pub open spec fn paths_wf(pm: Map<PathId, PathView>) -> bool {
    forall|id: PathId| pm.contains_key(id) ==> (#[trigger] pm[id]).wf()
}

/// The reverse lookup the tile index must hold for these paths: each path
/// maps to the tiles it occupies.
pub open spec fn derived_tiles_of(pm: Map<PathId, PathView>) -> Map<PathId, Set<TileId>> {
    pm.map_values(|pv: PathView| path_tiles(pv.coords))
}

/// The tile maps the tile index must hold for these paths: every occupied
/// tile maps each path through it to the segments registered there.
pub open spec fn derived_items(pm: Map<PathId, PathView>) -> Map<TileId, Map<PathId, Seq<Line>>> {
    Map::new(
        |t: TileId|
            exists|id: PathId|
                pm.contains_key(id) && #[trigger] path_tiles(pm[id].coords).contains(t),
        |t: TileId|
            Map::new(
                |id: PathId| pm.contains_key(id) && path_tiles(pm[id].coords).contains(t),
                |id: PathId| tile_segs(pm[id].coords, t),
            ),
    )
}

/// Growing the undo or redo stack by the command that undoes the latest
/// mutation keeps the chain applicable.
pub proof fn lemma_chain_grow(
    pm_new: Map<PathId, PathView>,
    stack: Seq<Command>,
    c: Command,
    pm_old: Map<PathId, PathView>,
)
    requires
        chain_ok(pm_old, stack),
        rollback_applicable(pm_new, c),
        rollback_paths(pm_new, c) == pm_old,
    ensures
        chain_ok(pm_new, stack.push(c)),
{
    assert(stack.push(c).drop_last() =~= stack);
    assert(stack.push(c).last() == c);
}

/// Round-trip law of command rollback: rolling back a command and then its
/// computed inverse restores the paths exactly, and the inverse is applicable
/// to the rolled-back state.
pub proof fn lemma_rollback_round_trip(pm: Map<PathId, PathView>, c: Command, inv: Command)
    requires
        paths_wf(pm),
        rollback_applicable(pm, c),
        inverse_cmd_ok(pm, c, inv),
    ensures
        rollback_applicable(rollback_paths(pm, c), inv),
        rollback_paths(rollback_paths(pm, c), inv) == pm,
        paths_wf(rollback_paths(pm, c)),
{
    let mid = rollback_paths(pm, c);
    match c {
        Command::Insert { path_ids } => {
            let snaps = inv->Remove_paths;
            assert(mid == removed_views(pm, path_ids@));
            assert forall|k: int| 0 <= k < snaps@.len() implies !mid.contains_key(
                (#[trigger] snaps@[k]).0,
            ) && snaps@[k].1.wf() by {
                assert(snap_ids(snaps@)[k] == snaps@[k].0);
                assert(path_ids@.contains(path_ids@[k]));
            }
            assert(rollback_applicable(mid, inv));
            let back = inserted_views(mid, snaps@);
            assert forall|id: PathId| back.contains_key(id) <==> pm.contains_key(id) by {
                lemma_assoc_contains(snaps_view(snaps@), id);
                if path_ids@.contains(id) {
                    let k = choose|k: int| 0 <= k < path_ids@.len() && path_ids@[k] == id;
                    assert(snaps_view(snaps@)[k].0 == id);
                    assert(pm.contains_key(id));
                    assert(assoc_map(snaps_view(snaps@)).contains_key(id));
                }
                if assoc_map(snaps_view(snaps@)).contains_key(id) {
                    let k = choose|k: int|
                        0 <= k < snaps_view(snaps@).len() && (#[trigger] snaps_view(snaps@)[k]).0
                            == id;
                    assert(snap_ids(snaps@)[k] == id);
                    assert(path_ids@.contains(id));
                    assert(pm.contains_key(id));
                }
            }
            assert forall|id: PathId| #[trigger] back.contains_key(id) implies back[id] == pm[id] by {
                lemma_assoc_contains(snaps_view(snaps@), id);
                if path_ids@.contains(id) {
                    let k = choose|k: int| 0 <= k < path_ids@.len() && path_ids@[k] == id;
                    assert(snaps_view(snaps@)[k].0 == id);
                    assert(assoc_map(snaps_view(snaps@)).contains_key(id));
                    let j = choose|j: int|
                        0 <= j < snaps_view(snaps@).len() && (#[trigger] snaps_view(snaps@)[j]).0
                            == id;
                    assert(snaps_view(snaps@).map_values(|p: (PathId, PathView)| p.0) =~= snap_ids(
                        snaps@,
                    ));
                    assert forall|a: int, b: int|
                        0 <= a < b < snaps_view(snaps@).len() implies (#[trigger] snaps_view(
                        snaps@,
                    )[a]).0 != (#[trigger] snaps_view(snaps@)[b]).0 by {
                        assert(snap_ids(snaps@)[a] == snaps_view(snaps@)[a].0);
                        assert(snap_ids(snaps@)[b] == snaps_view(snaps@)[b].0);
                    }
                    lemma_assoc_get(snaps_view(snaps@), j);
                    assert(snaps@[j].1@ == pm[snaps@[j].0]);
                    assert(back[id] == pm[id]);
                } else {
                    assert forall|k: int|
                        0 <= k < snaps_view(snaps@).len() implies (#[trigger] snaps_view(snaps@)[
                    k]).0 != id by {
                        assert(snap_ids(snaps@)[k] == snaps_view(snaps@)[k].0);
                        assert(path_ids@.contains(path_ids@[k]));
                        if snaps_view(snaps@)[k].0 == id {
                            assert(path_ids@[k] == id);
                        }
                    }
                    assert(!assoc_map(snaps_view(snaps@)).contains_key(id));
                    assert(back[id] == mid[id]);
                }
            }
            assert(back =~= pm);
        }
        Command::Shift { path_ids, delta } => {
            let nd = neg_coord(delta);
            assert(mid == shifted_views(pm, path_ids@, nd));
            assert(nd.x != i32::MIN && nd.y != i32::MIN) by {
                assert(delta.x != i32::MIN && delta.y != i32::MIN);
            }
            assert(neg_coord(nd) == delta);
            assert forall|k: int| 0 <= k < path_ids@.len() implies mid.contains_key(
                #[trigger] path_ids@[k],
            ) && mid[path_ids@[k]].wf() && mid[path_ids@[k]].can_translate(neg_coord(nd)) by {
                let id = path_ids@[k];
                assert(path_ids@.contains(id));
                crate::path::lemma_translate_round_trip(pm[id], nd);
            }
            assert(rollback_applicable(mid, inv));
            let back = rollback_paths(mid, inv);
            assert forall|id: PathId| #[trigger] back.contains_key(id) implies back[id] == pm[id] by {
                if path_ids@.contains(id) {
                    crate::path::lemma_translate_round_trip(pm[id], nd);
                }
            }
            assert(back =~= pm);
            assert forall|id: PathId| mid.contains_key(id) implies (#[trigger] mid[id]).wf() by {
                if path_ids@.contains(id) {
                    crate::path::lemma_translate_round_trip(pm[id], nd);
                }
            }
        }
        Command::Remove { paths: snaps } => {
            let ids = inv->Insert_path_ids;
            assert(mid == inserted_views(pm, snaps@));
            assert forall|k: int| 0 <= k < ids@.len() implies mid.contains_key(
                #[trigger] ids@[k],
            ) by {
                assert(ids@[k] == snap_ids(snaps@)[k]);
                assert(snaps_view(snaps@)[k].0 == ids@[k]);
                lemma_assoc_contains(snaps_view(snaps@), ids@[k]);
            }
            assert(rollback_applicable(mid, inv));
            let back = removed_views(mid, ids@);
            assert forall|id: PathId| back.contains_key(id) <==> pm.contains_key(id) by {
                lemma_assoc_contains(snaps_view(snaps@), id);
                if pm.contains_key(id) {
                    assert forall|k: int| 0 <= k < snaps@.len() implies (#[trigger] snap_ids(
                        snaps@,
                    )[k]) != id by {
                        assert(!pm.contains_key(snaps@[k].0));
                        assert(snap_ids(snaps@)[k] == snaps@[k].0);
                    }
                    assert(!ids@.contains(id));
                    assert(mid.contains_key(id));
                }
                if back.contains_key(id) && !pm.contains_key(id) {
                    assert(assoc_map(snaps_view(snaps@)).contains_key(id));
                    let k = choose|k: int|
                        0 <= k < snaps_view(snaps@).len() && (#[trigger] snaps_view(snaps@)[k]).0
                            == id;
                    assert(snap_ids(snaps@)[k] == id);
                    assert(ids@.contains(id));
                    assert(false);
                }
            }
            assert forall|id: PathId| #[trigger] back.contains_key(id) implies back[id] == pm[id] by {
                lemma_assoc_contains(snaps_view(snaps@), id);
                if assoc_map(snaps_view(snaps@)).contains_key(id) {
                    let k = choose|k: int|
                        0 <= k < snaps_view(snaps@).len() && (#[trigger] snaps_view(snaps@)[k]).0
                            == id;
                    assert(snap_ids(snaps@)[k] == id);
                    assert(ids@.contains(id));
                    assert(!back.contains_key(id));
                } else {
                    assert(mid[id] == pm[id]);
                }
            }
            assert(back =~= pm);
            assert forall|id: PathId| mid.contains_key(id) implies (#[trigger] mid[id]).wf() by {
                lemma_assoc_contains(snaps_view(snaps@), id);
                if assoc_map(snaps_view(snaps@)).contains_key(id) {
                    let k = choose|k: int|
                        0 <= k < snaps_view(snaps@).len() && (#[trigger] snaps_view(snaps@)[k]).0
                            == id;
                    assert forall|a: int, b: int|
                        0 <= a < b < snaps_view(snaps@).len() implies (#[trigger] snaps_view(
                        snaps@,
                    )[a]).0 != (#[trigger] snaps_view(snaps@)[b]).0 by {
                        assert(snap_ids(snaps@)[a] == snaps_view(snaps@)[a].0);
                        assert(snap_ids(snaps@)[b] == snaps_view(snaps@)[b].0);
                    }
                    lemma_assoc_get(snaps_view(snaps@), k);
                    assert(snaps@[k].1.wf());
                    snaps@[k].1.lemma_view();
                    assert(mid[id] == snaps@[k].1@);
                } else {
                    assert(mid[id] == pm[id]);
                }
            }
        }
    }
}


/// The mathematical contents of a map of stored paths.
pub open spec fn views_of(m: Map<PathId, RenderablePath>) -> Map<PathId, PathView> {
    m.map_values(|rp: RenderablePath| rp@)
}

/// The association map of snapshots, taken at their mathematical contents.
pub proof fn lemma_snaps_assoc(s: Seq<(PathId, RenderablePath)>)
    requires
        crate::store::distinct_keys(s),
    ensures
        views_of(assoc_map(s)) == assoc_map(snaps_view(s)),
{
    let lhs = views_of(assoc_map(s));
    let rhs = assoc_map(snaps_view(s));
    assert forall|a: int, b: int|
        0 <= a < b < snaps_view(s).len() implies (#[trigger] snaps_view(s)[a]).0 != (
    #[trigger] snaps_view(s)[b]).0 by {
        assert(s[a].0 != s[b].0);
    }
    assert forall|id: PathId| lhs.contains_key(id) <==> rhs.contains_key(id) by {
        lemma_assoc_contains(s, id);
        lemma_assoc_contains(snaps_view(s), id);
        if assoc_map(s).contains_key(id) {
            let k = choose|k: int| 0 <= k < s.len() && (#[trigger] s[k]).0 == id;
            assert(snaps_view(s)[k].0 == id);
        }
        if rhs.contains_key(id) {
            let k = choose|k: int|
                0 <= k < snaps_view(s).len() && (#[trigger] snaps_view(s)[k]).0 == id;
            assert(s[k].0 == id);
        }
    }
    assert forall|id: PathId| #[trigger] lhs.contains_key(id) implies lhs[id] == rhs[id] by {
        lemma_assoc_contains(s, id);
        let k = choose|k: int| 0 <= k < s.len() && (#[trigger] s[k]).0 == id;
        lemma_assoc_get(s, k);
        assert(snaps_view(s)[k] == (id, s[k].1@));
        lemma_assoc_get(snaps_view(s), k);
    }
    assert(lhs =~= rhs);
}

/// Registering a fresh path updates the derived tile maps exactly as the tile
/// index's insertion does, and the derived maps are free of the fresh path.
pub proof fn lemma_derived_insert(pm: Map<PathId, PathView>, id: PathId, pv: PathView)
    requires
        !pm.contains_key(id),
    ensures
        derived_items(pm.insert(id, pv)) == items_with_path(derived_items(pm), id, pv.coords),
        derived_tiles_of(pm.insert(id, pv)) == derived_tiles_of(pm).insert(
            id,
            path_tiles(pv.coords),
        ),
        crate::tiling::items_free_of(derived_items(pm), id),
{
    let pm2 = pm.insert(id, pv);
    let lhs = derived_items(pm2);
    let rhs = items_with_path(derived_items(pm), id, pv.coords);
    assert forall|t: TileId|
        #![trigger derived_items(pm)[t].contains_key(id)]
        derived_items(pm).contains_key(t) implies !derived_items(pm)[t].contains_key(id) by {}
    assert forall|t: TileId| lhs.contains_key(t) <==> rhs.contains_key(t) by {
        if lhs.contains_key(t) {
            let w = choose|w: PathId|
                pm2.contains_key(w) && #[trigger] path_tiles(pm2[w].coords).contains(t);
            if w != id {
                assert(pm.contains_key(w) && path_tiles(pm[w].coords).contains(t));
                assert(derived_items(pm).contains_key(t));
            } else {
                assert(path_tiles(pv.coords).contains(t));
            }
        }
        if rhs.contains_key(t) {
            if derived_items(pm).contains_key(t) {
                let w = choose|w: PathId|
                    pm.contains_key(w) && #[trigger] path_tiles(pm[w].coords).contains(t);
                assert(pm2.contains_key(w) && path_tiles(pm2[w].coords).contains(t));
            } else {
                assert(path_tiles(pv.coords).contains(t));
                assert(pm2.contains_key(id) && path_tiles(pm2[id].coords).contains(t));
            }
        }
    }
    assert forall|t: TileId| #[trigger] lhs.contains_key(t) implies lhs[t] =~= rhs[t] by {
        assert forall|p: PathId| lhs[t].contains_key(p) <==> rhs[t].contains_key(p) by {}
        assert forall|p: PathId| #[trigger] lhs[t].contains_key(p) implies lhs[t][p] == rhs[t][p]
            by {}
    }
    assert(lhs =~~= rhs);
    let l2 = derived_tiles_of(pm2);
    let r2 = derived_tiles_of(pm).insert(id, path_tiles(pv.coords));
    assert(l2 =~= r2);
}

/// Dropping a path updates the derived tile maps exactly as the tile index's
/// removal does.
pub proof fn lemma_derived_remove(pm: Map<PathId, PathView>, id: PathId)
    requires
        pm.contains_key(id),
    ensures
        derived_items(pm.remove(id)) == items_without_path(derived_items(pm), id),
        derived_tiles_of(pm.remove(id)) == derived_tiles_of(pm).remove(id),
{
    let pm2 = pm.remove(id);
    let lhs = derived_items(pm2);
    let rhs = items_without_path(derived_items(pm), id);
    assert forall|t: TileId| lhs.contains_key(t) <==> rhs.contains_key(t) by {
        if lhs.contains_key(t) {
            let w = choose|w: PathId|
                pm2.contains_key(w) && #[trigger] path_tiles(pm2[w].coords).contains(t);
            assert(w != id);
            assert(pm.contains_key(w) && path_tiles(pm[w].coords).contains(t));
            assert(derived_items(pm).contains_key(t));
            assert(derived_items(pm)[t].contains_key(w));
        }
        if rhs.contains_key(t) {
            let w = choose|w: PathId| w != id && #[trigger] derived_items(pm)[t].contains_key(w);
            assert(pm2.contains_key(w) && path_tiles(pm2[w].coords).contains(t));
        }
    }
    assert forall|t: TileId| #[trigger] lhs.contains_key(t) implies lhs[t] =~= rhs[t] by {
        assert forall|p: PathId| lhs[t].contains_key(p) <==> rhs[t].contains_key(p) by {}
        assert forall|p: PathId| #[trigger] lhs[t].contains_key(p) implies lhs[t][p] == rhs[t][p]
            by {}
    }
    assert(lhs =~~= rhs);
    assert(derived_tiles_of(pm2) =~= derived_tiles_of(pm).remove(id));
}

/// The derived tile maps are coherent about every stored path: the path's
/// recorded tiles are exactly those whose maps register it.
pub proof fn lemma_derived_coherence(pm: Map<PathId, PathView>, id: PathId)
    requires
        pm.contains_key(id),
    ensures
        forall|t: TileId|
            #![trigger derived_tiles_of(pm)[id].contains(t)]
            derived_tiles_of(pm)[id].contains(t) ==> derived_items(pm).contains_key(t)
                && derived_items(pm)[t].contains_key(id),
        forall|t: TileId|
            #![trigger derived_items(pm)[t].contains_key(id)]
            derived_items(pm).contains_key(t) && derived_items(pm)[t].contains_key(id)
                ==> derived_tiles_of(pm)[id].contains(t),
{
    assert forall|t: TileId|
        #![trigger derived_tiles_of(pm)[id].contains(t)]
        derived_tiles_of(pm)[id].contains(t) implies derived_items(pm).contains_key(t)
        && derived_items(pm)[t].contains_key(id) by {
        assert(path_tiles(pm[id].coords).contains(t));
    }
}

/// The document model: paths, the spatial index kept consistent with them,
/// the edit history with both rollback chains applicable, the selection and
/// hidden sets, and the interaction settings.
#[derive(Debug)]
pub struct Model {
    paths: VMap<PathId, RenderablePath>,
    tiling: Tiling,
    history: History<Command>,
    selected_path_ids: VSet<PathId>,
    hidden_path_ids: VSet<PathId>,
    offset: Coord,
    tool: Tool,
    pen_color: Color,
}

impl Model {
    /// The stored paths, at their mathematical contents.
    pub closed spec fn spec_paths(&self) -> Map<PathId, PathView> {
        views_of(self.paths@)
    }

    /// The stored path entries, oldest insertion first.
    pub closed spec fn spec_paths_entries(&self) -> Seq<(PathId, RenderablePath)> {
        self.paths.pairs()
    }

    /// The selected paths.
    pub closed spec fn spec_selected(&self) -> Set<PathId> {
        self.selected_path_ids@
    }

    /// The selected paths, oldest selection first.
    pub closed spec fn spec_selected_seq(&self) -> Seq<PathId> {
        self.selected_path_ids.seq()
    }

    /// The paths hidden from the main layer during a drag.
    pub closed spec fn spec_hidden(&self) -> Set<PathId> {
        self.hidden_path_ids@
    }

    /// The scroll offset.
    pub closed spec fn spec_offset(&self) -> Coord {
        self.offset
    }

    /// The active tool.
    pub closed spec fn spec_tool(&self) -> Tool {
        self.tool
    }

    /// The active pen color.
    pub closed spec fn spec_pen_color(&self) -> Color {
        self.pen_color
    }

    /// The edit history.
    pub closed spec fn spec_history(&self) -> HistoryView<Command> {
        self.history@
    }

    /// Everything but the history is consistent: stored paths are valid, the
    /// tile index holds exactly the derived maps, and the selection and
    /// hidden sets name stored paths only.
    pub closed spec fn inv_core(&self) -> bool {
        &&& self.paths.wf()
        &&& forall|id: PathId|
            self.paths@.contains_key(id) ==> (#[trigger] self.paths@[id]).wf()
        &&& self.tiling.inv()
        &&& self.tiling.items() == derived_items(self.spec_paths())
        &&& self.tiling.tiles_of() == derived_tiles_of(self.spec_paths())
        &&& self.selected_path_ids.wf()
        &&& forall|id: PathId|
            #[trigger] self.spec_selected().contains(id) ==> self.spec_paths().contains_key(id)
        &&& self.hidden_path_ids.wf()
        &&& forall|id: PathId|
            #[trigger] self.spec_hidden().contains(id) ==> self.spec_paths().contains_key(id)
    }

    /// The document invariant: the core is consistent, no rollback is in
    /// flight, and each command on either history stack applies cleanly to
    /// the state left by the commands above it.
    pub closed spec fn wf(&self) -> bool {
        &&& self.inv_core()
        &&& self.spec_history().is_idle()
        &&& chain_ok(self.spec_paths(), self.spec_history().undo)
        &&& chain_ok(self.spec_paths(), self.spec_history().redo)
    }

    /// Every stored path content is valid.
    pub proof fn lemma_wf_paths(&self)
        requires
            self.inv_core(),
        ensures
            paths_wf(self.spec_paths()),
    {
        assert forall|id: PathId| self.spec_paths().contains_key(id) implies (
        #[trigger] self.spec_paths()[id]).wf() by {
            self.paths@[id].lemma_view();
        }
    }

    /// An empty document.
    pub fn new() -> (r: Model)
        ensures
            r.wf(),
            r.spec_paths() == Map::<PathId, PathView>::empty(),
            r.spec_selected() == Set::<PathId>::empty(),
            r.spec_hidden() == Set::<PathId>::empty(),
            r.spec_offset() == (Coord { x: 0, y: 0 }),
            r.spec_tool() == Tool::Pen,
            r.spec_pen_color() == Color::Black,
            r.spec_history().undo == Seq::<Command>::empty(),
            r.spec_history().redo == Seq::<Command>::empty(),
    {
        let r = Model {
            paths: VMap::new(),
            tiling: Tiling::new(),
            history: History::new(),
            selected_path_ids: VSet::new(),
            hidden_path_ids: VSet::new(),
            offset: Coord { x: 0, y: 0 },
            tool: Tool::Pen,
            pen_color: Color::Black,
        };
        proof {
            assert(r.spec_paths() =~= Map::<PathId, PathView>::empty());
            assert(derived_items(r.spec_paths()) =~~= Map::<
                TileId,
                Map<PathId, Seq<Line>>,
            >::empty());
            assert(derived_tiles_of(r.spec_paths()) =~= Map::<PathId, Set<TileId>>::empty());
        }
        r
    }

    /// A document loaded from persisted state: the given paths with their
    /// identifiers, the given interaction settings, an empty selection and a
    /// fresh history. The tile index is rebuilt from the paths.
    pub fn load(paths: Vec<(PathId, RenderablePath)>, offset: Coord, tool: Tool, pen_color: Color) -> (r: Model)
        requires
            snap_ids(paths@).no_duplicates(),
            forall|k: int| 0 <= k < paths@.len() ==> (#[trigger] paths@[k]).1.wf(),
        ensures
            r.wf(),
            r.spec_paths() == inserted_views(Map::<PathId, PathView>::empty(), paths@),
            r.spec_selected() == Set::<PathId>::empty(),
            r.spec_hidden() == Set::<PathId>::empty(),
            r.spec_offset() == offset,
            r.spec_tool() == tool,
            r.spec_pen_color() == pen_color,
            r.spec_history().undo == Seq::<Command>::empty(),
            r.spec_history().redo == Seq::<Command>::empty(),
    {
        let mut m = Model::new();
        let _ = m.do_insert(paths);
        m.offset = offset;
        m.tool = tool;
        m.pen_color = pen_color;
        proof {
            assert(m.wf());
        }
        m
    }

    /// Reads a stored path.
    pub fn path(&self, id: PathId) -> (r: &RenderablePath)
        requires
            self.inv_core(),
            self.spec_paths().contains_key(id),
        ensures
            r@ == self.spec_paths()[id],
            r.wf(),
    {
        self.paths.get(&id).unwrap()
    }

    /// Whether a path with this identifier is stored.
    pub fn contains_path(&self, id: PathId) -> (r: bool)
        requires
            self.inv_core(),
        ensures
            r == self.spec_paths().contains_key(id),
    {
        self.paths.contains(&id)
    }

    /// The paths hidden from the main layer, oldest first.
    pub closed spec fn spec_hidden_seq(&self) -> Seq<PathId> {
        self.hidden_path_ids.seq()
    }

    /// The identifiers of the hidden paths, oldest first.
    pub fn hidden_paths(&self) -> (r: &Vec<PathId>)
        ensures
            r@ == self.spec_hidden_seq(),
            r@.to_set() == self.spec_hidden(),
    {
        proof {
            self.hidden_path_ids.lemma_view();
            assert(self.spec_hidden_seq().to_set() =~= self.spec_hidden());
        }
        self.hidden_path_ids.elems()
    }

    /// The identifiers of the selected paths, oldest selection first.
    pub fn selected_paths(&self) -> (r: &Vec<PathId>)
        ensures
            r@ == self.spec_selected_seq(),
            r@.to_set() == self.spec_selected(),
    {
        proof {
            self.selected_path_ids.lemma_view();
            assert(self.spec_selected_seq().to_set() =~= self.spec_selected());
        }
        self.selected_path_ids.elems()
    }

    /// The active tool.
    pub fn tool(&self) -> (r: Tool)
        ensures
            r == self.spec_tool(),
    {
        self.tool
    }

    /// The active pen color.
    pub fn pen_color(&self) -> (r: Color)
        ensures
            r == self.spec_pen_color(),
    {
        self.pen_color
    }

    /// The scroll offset.
    pub fn offset(&self) -> (r: Coord)
        ensures
            r == self.spec_offset(),
    {
        self.offset
    }

    /// The commands on the undo stack, oldest first.
    pub fn undo_commands(&self) -> (r: &Vec<Command>)
        ensures
            r@ == self.spec_history().undo,
    {
        self.history.undo_commands()
    }

    /// The commands on the redo stack, oldest first.
    pub fn redo_commands(&self) -> (r: &Vec<Command>)
        ensures
            r@ == self.spec_history().redo,
    {
        self.history.redo_commands()
    }
}


impl Model {
    /// Adds the given paths to the store and the tile index, in order.
    fn do_insert(&mut self, snaps: Vec<(PathId, RenderablePath)>) -> (ids: Vec<PathId>)
        requires
            old(self).inv_core(),
            snap_ids(snaps@).no_duplicates(),
            forall|k: int|
                0 <= k < snaps@.len() ==> !old(self).spec_paths().contains_key(
                    (#[trigger] snaps@[k]).0,
                ) && snaps@[k].1.wf(),
        ensures
            final(self).inv_core(),
            ids@ == snap_ids(snaps@),
            final(self).spec_paths() == inserted_views(old(self).spec_paths(), snaps@),
            final(self).spec_selected() == old(self).spec_selected(),
            final(self).spec_selected_seq() == old(self).spec_selected_seq(),
            final(self).spec_hidden() == old(self).spec_hidden(),
            final(self).spec_history() == old(self).spec_history(),
            final(self).spec_offset() == old(self).spec_offset(),
            final(self).spec_tool() == old(self).spec_tool(),
            final(self).spec_pen_color() == old(self).spec_pen_color(),
    {
        let ghost orig = snaps@;
        let ghost pm0 = self.spec_paths();
        let mut rest = snaps;
        let mut ids: Vec<PathId> = Vec::new();
        proof {
            assert(orig.take(0) =~= Seq::<(PathId, RenderablePath)>::empty());
            assert(snaps_view(orig.take(0)) =~= Seq::<(PathId, PathView)>::empty());
            assert(inserted_views(pm0, orig.take(0)) =~= pm0);
            assert(ids@ =~= snap_ids(orig.take(0)));
            assert(rest@ =~= orig.skip(0));
        }
        while rest.len() > 0
            invariant
                ids@.len() + rest@.len() == orig.len(),
                ids@ == snap_ids(orig.take(ids@.len() as int)),
                rest@ == orig.skip(ids@.len() as int),
                snap_ids(orig).no_duplicates(),
                forall|k: int|
                    0 <= k < orig.len() ==> !pm0.contains_key((#[trigger] orig[k]).0)
                        && orig[k].1.wf(),
                self.inv_core(),
                self.spec_paths() == inserted_views(pm0, orig.take(ids@.len() as int)),
                pm0 == old(self).spec_paths(),
                self.selected_path_ids == old(self).selected_path_ids,
                self.hidden_path_ids == old(self).hidden_path_ids,
                self.history == old(self).history,
                self.offset == old(self).offset,
                self.tool == old(self).tool,
                self.pen_color == old(self).pen_color,
            decreases rest@.len(),
        {
            let ghost n = ids@.len() as int;
            let ghost cur = self.spec_paths();
            let ghost sel0 = self.spec_selected();
            let ghost hid0 = self.spec_hidden();
            let (id, rp) = rest.remove(0);
            proof {
                assert(orig.skip(n)[0] == orig[n]);
                assert((id, rp) == orig[n]);
                assert(rest@ =~= orig.skip(n + 1));
                assert(snap_ids(orig)[n] == id);
                // the identifier is fresh for the current paths
                assert(!cur.contains_key(id)) by {
                    lemma_assoc_contains(snaps_view(orig.take(n)), id);
                    if assoc_map(snaps_view(orig.take(n))).contains_key(id) {
                        let k = choose|k: int|
                            0 <= k < snaps_view(orig.take(n)).len() && (#[trigger] snaps_view(
                                orig.take(n),
                            )[k]).0 == id;
                        assert(snap_ids(orig)[k] == orig[k].0);
                        assert(snap_ids(orig)[k] == snap_ids(orig)[n]);
                    }
                }
                lemma_derived_insert(cur, id, rp@);
                assert(!self.tiling.tiles_of().contains_key(id)) by {
                    assert(!derived_tiles_of(cur).contains_key(id));
                }
                rp.lemma_view();
                assert(rp@.coords.len() >= 1);
            }
            self.tiling.insert_path(id, &rp.get().coords);
            proof {
                assert(self.tiling.items() == items_with_path(derived_items(cur), id, rp@.coords));
                assert(self.tiling.items() == derived_items(cur.insert(id, rp@)));
                assert(self.tiling.tiles_of() == derived_tiles_of(cur.insert(id, rp@)));
            }
            let ghost raw_pre = self.paths@;
            self.paths.insert(id, rp);
            ids.push(id);
            proof {
                assert(self.spec_paths() =~= cur.insert(id, rp@));
                assert forall|p: PathId| self.paths@.contains_key(p) implies (
                #[trigger] self.paths@[p]).wf() by {
                    if p != id {
                        assert(self.paths@[p] == raw_pre[p]);
                    }
                }
                assert forall|p: PathId| #[trigger] self.spec_selected().contains(p) implies
                    self.spec_paths().contains_key(p) by {
                    assert(self.spec_selected() == sel0);
                    assert(sel0.contains(p));
                    assert(cur.contains_key(p));
                }
                assert forall|p: PathId| #[trigger] self.spec_hidden().contains(p) implies
                    self.spec_paths().contains_key(p) by {
                    assert(self.spec_hidden() == hid0);
                    assert(hid0.contains(p));
                    assert(cur.contains_key(p));
                }
                // one more snapshot folded into the inserted views
                assert(snaps_view(orig.take(n + 1)) =~= snaps_view(orig.take(n)).push((id, rp@)));
                crate::store::lemma_assoc_push(snaps_view(orig.take(n)), id, rp@);
                assert(self.spec_paths() =~= inserted_views(pm0, orig.take(n + 1)));
                assert(ids@ =~= snap_ids(orig.take(n + 1)));
            }
        }
        proof {
            assert(orig.take(orig.len() as int) =~= orig);
        }
        ids
    }

    /// Removes the given stored paths from the store, the tile index, the
    /// selection and the hidden set, returning their snapshots in order.
    fn do_remove(&mut self, ids: &Vec<PathId>) -> (snaps: Vec<(PathId, RenderablePath)>)
        requires
            old(self).inv_core(),
            ids@.no_duplicates(),
            forall|k: int|
                0 <= k < ids@.len() ==> old(self).spec_paths().contains_key(#[trigger] ids@[k]),
        ensures
            final(self).inv_core(),
            snap_ids(snaps@) == ids@,
            forall|k: int|
                0 <= k < snaps@.len() ==> (#[trigger] snaps@[k]).1@ == old(self).spec_paths()[snaps@[k].0]
                    && snaps@[k].1.wf(),
            final(self).spec_paths() == removed_views(old(self).spec_paths(), ids@),
            final(self).spec_selected() == old(self).spec_selected().difference(ids@.to_set()),
            final(self).spec_hidden() == old(self).spec_hidden().difference(ids@.to_set()),
            final(self).spec_history() == old(self).spec_history(),
            final(self).spec_offset() == old(self).spec_offset(),
            final(self).spec_tool() == old(self).spec_tool(),
            final(self).spec_pen_color() == old(self).spec_pen_color(),
    {
        let ghost pm0 = self.spec_paths();
        let n = ids.len();
        let mut snaps: Vec<(PathId, RenderablePath)> = Vec::new();
        let mut k: usize = 0;
        proof {
            assert(self.spec_paths() =~= removed_views(pm0, ids@.take(0)));
            assert(self.spec_selected() =~= old(self).spec_selected().difference(
                ids@.take(0).to_set(),
            ));
            assert(self.spec_hidden() =~= old(self).spec_hidden().difference(
                ids@.take(0).to_set(),
            ));
        }
        while k < n
            invariant
                k <= n,
                n == ids@.len(),
                ids@.no_duplicates(),
                forall|j: int| 0 <= j < ids@.len() ==> pm0.contains_key(#[trigger] ids@[j]),
                snaps@.len() == k,
                snap_ids(snaps@) == ids@.take(k as int),
                forall|j: int|
                    0 <= j < snaps@.len() ==> (#[trigger] snaps@[j]).1@ == pm0[snaps@[j].0]
                        && snaps@[j].1.wf(),
                self.inv_core(),
                self.spec_paths() == removed_views(pm0, ids@.take(k as int)),
                pm0 == old(self).spec_paths(),
                self.spec_selected() == old(self).spec_selected().difference(
                    ids@.take(k as int).to_set(),
                ),
                self.spec_hidden() == old(self).spec_hidden().difference(
                    ids@.take(k as int).to_set(),
                ),
                self.history == old(self).history,
                self.offset == old(self).offset,
                self.tool == old(self).tool,
                self.pen_color == old(self).pen_color,
            decreases n - k,
        {
            let id = ids[k];
            let ghost cur = self.spec_paths();
            proof {
                assert(!ids@.take(k as int).contains(id)) by {
                    if ids@.take(k as int).contains(id) {
                        let j = choose|j: int|
                            0 <= j < k as int && (#[trigger] ids@.take(k as int)[j]) == id;
                        assert(ids@[j] == ids@[k as int]);
                    }
                }
                assert(cur.contains_key(id));
                lemma_derived_coherence(cur, id);
                assert forall|t: TileId|
                    #![trigger self.tiling.tiles_of()[id].contains(t)]
                    self.tiling.tiles_of()[id].contains(t) implies self.tiling.items().contains_key(
                    t,
                ) && self.tiling.items()[t].contains_key(id) by {
                    assert(derived_tiles_of(cur)[id].contains(t));
                }
                assert forall|t: TileId|
                    #![trigger self.tiling.items()[t].contains_key(id)]
                    self.tiling.items().contains_key(t) && self.tiling.items()[t].contains_key(
                        id,
                    ) implies self.tiling.tiles_of()[id].contains(t) by {
                    assert(derived_items(cur)[t].contains_key(id));
                }
            }
            self.tiling.remove_path(id);
            let ghost sel_pre = self.selected_path_ids@;
            let ghost hid_pre = self.hidden_path_ids@;
            self.selected_path_ids.remove(&id);
            self.hidden_path_ids.remove(&id);
            let rp = self.paths.remove(&id);
            snaps.push((id, rp));
            proof {
                lemma_derived_remove(cur, id);
                assert(self.spec_paths() =~= cur.remove(id));
                assert(ids@.take(k as int + 1) =~= ids@.take(k as int).push(id));
                assert(self.spec_paths() =~= removed_views(pm0, ids@.take(k as int + 1))) by {
                    assert forall|p: PathId|
                        cur.remove(id).contains_key(p) <==> removed_views(
                            pm0,
                            ids@.take(k as int + 1),
                        ).contains_key(p) by {
                        if p != id && ids@.take(k as int).contains(p) {
                            assert(ids@.take(k as int + 1).contains(p));
                        }
                        if ids@.take(k as int + 1).contains(p) && p != id {
                            let j = choose|j: int|
                                0 <= j < k as int + 1 && (#[trigger] ids@.take(k as int + 1)[j])
                                    == p;
                            assert(j < k as int);
                            assert(ids@.take(k as int)[j] == p);
                        }
                        if p == id {
                            assert(ids@.take(k as int + 1)[k as int] == id);
                        }
                    }
                }
                assert(ids@.take(k as int + 1).to_set() =~= ids@.take(k as int).to_set().insert(
                    id,
                )) by {
                    assert forall|p: PathId|
                        ids@.take(k as int + 1).contains(p) <==> ids@.take(k as int).contains(p)
                            || p == id by {
                        if ids@.take(k as int + 1).contains(p) && p != id {
                            let j = choose|j: int|
                                0 <= j < k as int + 1 && (#[trigger] ids@.take(k as int + 1)[j])
                                    == p;
                            assert(j < k as int);
                            assert(ids@.take(k as int)[j] == p);
                        }
                        if ids@.take(k as int).contains(p) {
                            let j = choose|j: int|
                                0 <= j < k as int && (#[trigger] ids@.take(k as int)[j]) == p;
                            assert(ids@.take(k as int + 1)[j] == p);
                        }
                        if p == id {
                            assert(ids@.take(k as int + 1)[k as int] == id);
                        }
                    }
                }
                assert(self.spec_selected() =~= old(self).spec_selected().difference(
                    ids@.take(k as int + 1).to_set(),
                ));
                assert(self.spec_hidden() =~= old(self).spec_hidden().difference(
                    ids@.take(k as int + 1).to_set(),
                ));
                assert(snap_ids(snaps@) =~= ids@.take(k as int + 1));
                assert(rp@ == cur[id]);
                assert(cur[id] == pm0[id]);
                assert forall|p: PathId| #[trigger] self.spec_selected().contains(p) implies
                    self.spec_paths().contains_key(p) by {
                    assert(sel_pre.contains(p));
                    assert(cur.contains_key(p));
                    assert(p != id);
                }
                assert forall|p: PathId| #[trigger] self.spec_hidden().contains(p) implies
                    self.spec_paths().contains_key(p) by {
                    assert(hid_pre.contains(p));
                    assert(cur.contains_key(p));
                    assert(p != id);
                }
            }
            k = k + 1;
        }
        proof {
            assert(ids@.take(n as int) =~= ids@);
        }
        snaps
    }

    /// Translates the given stored paths by `delta`, re-registering each in
    /// the tile index.
    fn do_shift(&mut self, ids: &Vec<PathId>, delta: Coord)
        requires
            old(self).inv_core(),
            ids@.no_duplicates(),
            forall|k: int|
                0 <= k < ids@.len() ==> old(self).spec_paths().contains_key(#[trigger] ids@[k])
                    && old(self).spec_paths()[ids@[k]].can_translate(delta),
        ensures
            final(self).inv_core(),
            final(self).spec_paths() == shifted_views(old(self).spec_paths(), ids@, delta),
            final(self).spec_selected() == old(self).spec_selected(),
            final(self).spec_selected_seq() == old(self).spec_selected_seq(),
            final(self).spec_hidden() == old(self).spec_hidden(),
            final(self).spec_history() == old(self).spec_history(),
            final(self).spec_offset() == old(self).spec_offset(),
            final(self).spec_tool() == old(self).spec_tool(),
            final(self).spec_pen_color() == old(self).spec_pen_color(),
    {
        let ghost pm0 = self.spec_paths();
        let n = ids.len();
        let mut k: usize = 0;
        proof {
            assert(self.spec_paths() =~= shifted_views(pm0, ids@.take(0), delta));
        }
        while k < n
            invariant
                k <= n,
                n == ids@.len(),
                ids@.no_duplicates(),
                forall|j: int|
                    0 <= j < ids@.len() ==> pm0.contains_key(#[trigger] ids@[j])
                        && pm0[ids@[j]].can_translate(delta),
                self.inv_core(),
                self.spec_paths() == shifted_views(pm0, ids@.take(k as int), delta),
                pm0 == old(self).spec_paths(),
                self.selected_path_ids == old(self).selected_path_ids,
                self.hidden_path_ids == old(self).hidden_path_ids,
                self.history == old(self).history,
                self.offset == old(self).offset,
                self.tool == old(self).tool,
                self.pen_color == old(self).pen_color,
            decreases n - k,
        {
            let id = ids[k];
            let ghost cur = self.spec_paths();
            let ghost sel0 = self.spec_selected();
            let ghost hid0 = self.spec_hidden();
            proof {
                assert(!ids@.take(k as int).contains(id)) by {
                    if ids@.take(k as int).contains(id) {
                        let j = choose|j: int|
                            0 <= j < k as int && (#[trigger] ids@.take(k as int)[j]) == id;
                        assert(ids@[j] == ids@[k as int]);
                    }
                }
                assert(cur.contains_key(id));
                assert(cur[id] == pm0[id]);
            }
            let rp = self.paths.get(&id).unwrap();
            proof {
                assert(rp@ == cur[id]);
            }
            let rp2 = rp.translated(delta);
            proof {
                lemma_derived_coherence(cur, id);
                assert forall|t: TileId|
                    #![trigger self.tiling.tiles_of()[id].contains(t)]
                    self.tiling.tiles_of()[id].contains(t) implies self.tiling.items().contains_key(
                    t,
                ) && self.tiling.items()[t].contains_key(id) by {
                    assert(derived_tiles_of(cur)[id].contains(t));
                }
                assert forall|t: TileId|
                    #![trigger self.tiling.items()[t].contains_key(id)]
                    self.tiling.items().contains_key(t) && self.tiling.items()[t].contains_key(
                        id,
                    ) implies self.tiling.tiles_of()[id].contains(t) by {
                    assert(derived_items(cur)[t].contains_key(id));
                }
            }
            self.tiling.remove_path(id);
            let _old_rp = self.paths.remove(&id);
            proof {
                lemma_derived_remove(cur, id);
                assert(self.spec_paths() =~= cur.remove(id));
                lemma_derived_insert(cur.remove(id), id, rp2@);
                assert(!self.tiling.tiles_of().contains_key(id)) by {
                    assert(!derived_tiles_of(cur.remove(id)).contains_key(id));
                }
                rp2.lemma_view();
                assert(rp2@ == cur[id].translated(delta));
                assert(rp2@.wf());
                assert(rp2@.coords.len() >= 1);
            }
            self.tiling.insert_path(id, &rp2.get().coords);
            proof {
                assert(self.tiling.items() == derived_items(cur.remove(id).insert(id, rp2@)));
                assert(self.tiling.tiles_of() == derived_tiles_of(cur.remove(id).insert(id, rp2@)));
            }
            let ghost raw_pre = self.paths@;
            self.paths.insert(id, rp2);
            proof {
                assert(self.spec_paths() =~= cur.remove(id).insert(id, pm0[id].translated(delta)));
                assert forall|p: PathId| self.paths@.contains_key(p) implies (
                #[trigger] self.paths@[p]).wf() by {
                    if p != id {
                        assert(self.paths@[p] == raw_pre[p]);
                    }
                }
                assert forall|p: PathId| #[trigger] self.spec_selected().contains(p) implies
                    self.spec_paths().contains_key(p) by {
                    assert(self.spec_selected() == sel0);
                    assert(sel0.contains(p));
                    assert(cur.contains_key(p));
                }
                assert forall|p: PathId| #[trigger] self.spec_hidden().contains(p) implies
                    self.spec_paths().contains_key(p) by {
                    assert(self.spec_hidden() == hid0);
                    assert(hid0.contains(p));
                    assert(cur.contains_key(p));
                }
                assert(ids@.take(k as int + 1) =~= ids@.take(k as int).push(id));
                assert(self.spec_paths() =~= shifted_views(pm0, ids@.take(k as int + 1), delta))
                    by {
                    assert forall|p: PathId|
                        shifted_views(pm0, ids@.take(k as int + 1), delta).contains_key(p)
                            <==> self.spec_paths().contains_key(p) by {}
                    assert forall|p: PathId|
                        #[trigger] self.spec_paths().contains_key(p) implies self.spec_paths()[p]
                        == shifted_views(pm0, ids@.take(k as int + 1), delta)[p] by {
                        if p != id {
                            if ids@.take(k as int).contains(p) {
                                assert(ids@.take(k as int + 1).contains(p));
                            }
                            if ids@.take(k as int + 1).contains(p) {
                                let j = choose|j: int|
                                    0 <= j < k as int + 1 && (#[trigger] ids@.take(
                                        k as int + 1,
                                    )[j]) == p;
                                assert(j < k as int);
                                assert(ids@.take(k as int)[j] == p);
                            }
                        } else {
                            assert(ids@.take(k as int + 1).contains(id)) by {
                                assert(ids@.take(k as int + 1)[k as int] == id);
                            }
                        }
                    }
                }
            }
            k = k + 1;
        }
        proof {
            assert(ids@.take(n as int) =~= ids@);
        }
    }
}


/// The command records an insertion of exactly these paths.
pub open spec fn is_insert_cmd(c: Command, ids: Seq<PathId>) -> bool {
    match c {
        Command::Insert { path_ids } => path_ids@ == ids,
        _ => false,
    }
}

/// The command records a shift of exactly these paths by this delta.
pub open spec fn is_shift_cmd(c: Command, ids: Seq<PathId>, delta: Coord) -> bool {
    match c {
        Command::Shift { path_ids, delta: d } => path_ids@ == ids && d == delta,
        _ => false,
    }
}

/// The command records a removal of exactly these paths, with snapshots taken
/// from `pm`.
pub open spec fn is_remove_cmd_of(c: Command, pm: Map<PathId, PathView>, ids: Seq<PathId>) -> bool {
    match c {
        Command::Remove { paths } => {
            &&& snap_ids(paths@) == ids
            &&& forall|k: int|
                0 <= k < paths@.len() ==> (#[trigger] paths@[k]).1@ == pm[paths@[k].0]
                    && paths@[k].1.wf()
        },
        _ => false,
    }
}

impl Model {
    /// Adds the given paths — fresh identifiers, valid contents — to the
    /// document and the tile index, and records the insertion as a fresh edit.
    pub fn insert_paths(&mut self, paths: Vec<(PathId, RenderablePath)>)
        requires
            old(self).wf(),
            snap_ids(paths@).no_duplicates(),
            forall|k: int|
                0 <= k < paths@.len() ==> !old(self).spec_paths().contains_key(
                    (#[trigger] paths@[k]).0,
                ) && paths@[k].1.wf(),
        ensures
            final(self).wf(),
            final(self).spec_paths() == inserted_views(old(self).spec_paths(), paths@),
            final(self).spec_selected() == old(self).spec_selected(),
            final(self).spec_hidden() == old(self).spec_hidden(),
            final(self).spec_offset() == old(self).spec_offset(),
            final(self).spec_tool() == old(self).spec_tool(),
            final(self).spec_pen_color() == old(self).spec_pen_color(),
            final(self).spec_history().is_idle(),
            final(self).spec_history().redo == Seq::<Command>::empty(),
            final(self).spec_history().undo.len() == old(self).spec_history().undo.len() + 1,
            final(self).spec_history().undo.drop_last() == old(self).spec_history().undo,
            is_insert_cmd(final(self).spec_history().undo.last(), snap_ids(paths@)),
    {
        let ghost pm0 = self.spec_paths();
        let ghost args = paths@;
        let ghost c_rm = Command::Remove { paths: paths };
        proof {
            self.lemma_wf_paths();
        }
        let ids = self.do_insert(paths);
        let cmd = Command::Insert { path_ids: ids };
        proof {
            assert(rollback_applicable(pm0, c_rm));
            assert(inverse_cmd_ok(pm0, c_rm, cmd));
            lemma_rollback_round_trip(pm0, c_rm, cmd);
            assert(rollback_paths(pm0, c_rm) == self.spec_paths());
            lemma_chain_grow(self.spec_paths(), self.spec_history().undo, cmd, pm0);
        }
        self.history.push(cmd);
        proof {
            assert(final(self).spec_history().undo.drop_last() =~= old(self).spec_history().undo);
        }
    }

    /// Translates the given stored paths by `delta` and records the shift as
    /// a fresh edit. The delta must be invertible and keep every point of the
    /// named paths within the coordinate range.
    pub fn shift_paths(&mut self, ids: Vec<PathId>, delta: Coord)
        requires
            old(self).wf(),
            ids@.no_duplicates(),
            delta.x != i32::MIN,
            delta.y != i32::MIN,
            forall|k: int|
                0 <= k < ids@.len() ==> old(self).spec_paths().contains_key(#[trigger] ids@[k])
                    && old(self).spec_paths()[ids@[k]].can_translate(delta),
        ensures
            final(self).wf(),
            final(self).spec_paths() == shifted_views(old(self).spec_paths(), ids@, delta),
            final(self).spec_selected() == old(self).spec_selected(),
            final(self).spec_hidden() == old(self).spec_hidden(),
            final(self).spec_offset() == old(self).spec_offset(),
            final(self).spec_tool() == old(self).spec_tool(),
            final(self).spec_pen_color() == old(self).spec_pen_color(),
            final(self).spec_history().is_idle(),
            final(self).spec_history().redo == Seq::<Command>::empty(),
            final(self).spec_history().undo.len() == old(self).spec_history().undo.len() + 1,
            final(self).spec_history().undo.drop_last() == old(self).spec_history().undo,
            is_shift_cmd(final(self).spec_history().undo.last(), ids@, delta),
    {
        let ghost pm0 = self.spec_paths();
        let ghost nd = neg_coord(delta);
        let ghost c_back = Command::Shift { path_ids: ids, delta: nd };
        proof {
            self.lemma_wf_paths();
            assert(neg_coord(nd) == delta);
        }
        self.do_shift(&ids, delta);
        let cmd = Command::Shift { path_ids: ids, delta };
        proof {
            assert(rollback_applicable(pm0, c_back));
            assert(inverse_cmd_ok(pm0, c_back, cmd));
            lemma_rollback_round_trip(pm0, c_back, cmd);
            assert(rollback_paths(pm0, c_back) == self.spec_paths());
            lemma_chain_grow(self.spec_paths(), self.spec_history().undo, cmd, pm0);
        }
        self.history.push(cmd);
        proof {
            assert(final(self).spec_history().undo.drop_last() =~= old(self).spec_history().undo);
        }
    }

    /// Removes the given stored paths — and their selection and hidden
    /// marks — and records the removal, with full snapshots, as a fresh edit.
    pub fn remove_paths(&mut self, ids: Vec<PathId>)
        requires
            old(self).wf(),
            ids@.no_duplicates(),
            forall|k: int|
                0 <= k < ids@.len() ==> old(self).spec_paths().contains_key(#[trigger] ids@[k]),
        ensures
            final(self).wf(),
            final(self).spec_paths() == removed_views(old(self).spec_paths(), ids@),
            final(self).spec_selected() == old(self).spec_selected().difference(ids@.to_set()),
            final(self).spec_hidden() == old(self).spec_hidden().difference(ids@.to_set()),
            final(self).spec_offset() == old(self).spec_offset(),
            final(self).spec_tool() == old(self).spec_tool(),
            final(self).spec_pen_color() == old(self).spec_pen_color(),
            final(self).spec_history().is_idle(),
            final(self).spec_history().redo == Seq::<Command>::empty(),
            final(self).spec_history().undo.len() == old(self).spec_history().undo.len() + 1,
            final(self).spec_history().undo.drop_last() == old(self).spec_history().undo,
            is_remove_cmd_of(
                final(self).spec_history().undo.last(),
                old(self).spec_paths(),
                ids@,
            ),
    {
        let ghost pm0 = self.spec_paths();
        let ghost c_ins = Command::Insert { path_ids: ids };
        proof {
            self.lemma_wf_paths();
        }
        let snaps = self.do_remove(&ids);
        let cmd = Command::Remove { paths: snaps };
        proof {
            assert(rollback_applicable(pm0, c_ins));
            assert(inverse_cmd_ok(pm0, c_ins, cmd));
            lemma_rollback_round_trip(pm0, c_ins, cmd);
            assert(rollback_paths(pm0, c_ins) == self.spec_paths());
            lemma_chain_grow(self.spec_paths(), self.spec_history().undo, cmd, pm0);
        }
        self.history.push(cmd);
        proof {
            assert(final(self).spec_history().undo.drop_last() =~= old(self).spec_history().undo);
        }
    }

    /// Removes every selected path; does nothing when the selection is empty.
    pub fn remove_selected_paths(&mut self)
        requires
            old(self).wf(),
        ensures
            final(self).wf(),
            final(self).spec_paths() == removed_views(
                old(self).spec_paths(),
                old(self).spec_selected_seq(),
            ),
            final(self).spec_selected() == Set::<PathId>::empty(),
            final(self).spec_hidden() == old(self).spec_hidden().difference(
                old(self).spec_selected(),
            ),
            final(self).spec_offset() == old(self).spec_offset(),
            final(self).spec_tool() == old(self).spec_tool(),
            final(self).spec_pen_color() == old(self).spec_pen_color(),
            final(self).spec_history().is_idle(),
            old(self).spec_selected_seq().len() == 0 ==> final(self).spec_history() == old(self).spec_history(),
            old(self).spec_selected_seq().len() > 0 ==> {
                &&& final(self).spec_history().redo == Seq::<Command>::empty()
                &&& final(self).spec_history().undo.len() == old(self).spec_history().undo.len()
                    + 1
                &&& final(self).spec_history().undo.drop_last() == old(self).spec_history().undo
                &&& is_remove_cmd_of(
                    final(self).spec_history().undo.last(),
                    old(self).spec_paths(),
                    old(self).spec_selected_seq(),
                )
            },
    {
        proof {
            self.selected_path_ids.lemma_view();
        }
        if self.selected_path_ids.is_empty() {
            proof {
                assert(self.spec_paths() =~= removed_views(
                    self.spec_paths(),
                    self.spec_selected_seq(),
                ));
                assert(self.spec_selected() =~= Set::<PathId>::empty());
                assert(self.spec_hidden() =~= self.spec_hidden().difference(self.spec_selected()));
            }
            return ;
        }
        let ghost sel_seq = self.spec_selected_seq();
        let ghost sel_set = self.spec_selected();
        let ids = self.selected_path_ids.take_elems();
        proof {
            assert(ids@ == sel_seq);
            // the selection was a subset of the stored paths
            assert forall|k: int| 0 <= k < ids@.len() implies self.spec_paths().contains_key(
                #[trigger] ids@[k],
            ) by {
                assert(sel_set.contains(ids@[k]));
            }
            // emptying the selection keeps the document consistent
            assert(self.spec_paths() == old(self).spec_paths());
            assert(self.spec_history() == old(self).spec_history());
            assert(self.spec_hidden() == old(self).spec_hidden());
            assert(self.wf());
        }
        self.remove_paths(ids);
        proof {
            assert(final(self).spec_selected() =~= Set::<PathId>::empty());
            assert(final(self).spec_hidden() =~= old(self).spec_hidden().difference(sel_set)) by {
                old(self).selected_path_ids.lemma_view();
                assert forall|p: PathId|
                    old(self).spec_hidden().difference(sel_seq.to_set()).contains(p)
                        <==> old(self).spec_hidden().difference(sel_set).contains(p) by {}
            }
        }
    }

    /// Removes every path, emptying the document, and records the removal of
    /// all of them as one fresh edit; does nothing when no path is stored.
    pub fn clear_paths(&mut self)
        requires
            old(self).wf(),
        ensures
            final(self).wf(),
            final(self).spec_paths() == Map::<PathId, PathView>::empty(),
            final(self).spec_selected() == Set::<PathId>::empty(),
            final(self).spec_hidden() == Set::<PathId>::empty(),
            final(self).spec_offset() == old(self).spec_offset(),
            final(self).spec_tool() == old(self).spec_tool(),
            final(self).spec_pen_color() == old(self).spec_pen_color(),
            final(self).spec_history().is_idle(),
            old(self).spec_paths_entries().len() == 0 ==> final(self).spec_history() == old(self).spec_history() && final(self).spec_selected() == old(self).spec_selected()
                && final(self).spec_hidden() == old(self).spec_hidden(),
            old(self).spec_paths_entries().len() > 0 ==> {
                &&& final(self).spec_history().redo == Seq::<Command>::empty()
                &&& final(self).spec_history().undo.len() == old(self).spec_history().undo.len()
                    + 1
                &&& final(self).spec_history().undo.drop_last() == old(self).spec_history().undo
                &&& ({
                    match final(self).spec_history().undo.last() {
                        Command::Remove { paths } => paths@ == old(self).spec_paths_entries(),
                        _ => false,
                    }
                })
            },
    {
        let ghost pm0 = self.spec_paths();
        if self.paths.is_empty() {
            proof {
                self.paths.lemma_pairs();
                assert forall|id: PathId| !self.spec_paths().contains_key(id) by {
                    if self.paths@.contains_key(id) {
                        let i = choose|i: int|
                            0 <= i < self.paths.pairs().len() && (#[trigger] self.paths.pairs()[
                            i]).0 == id;
                    }
                }
                assert(self.spec_paths() =~= Map::<PathId, PathView>::empty());
                assert forall|id: PathId| !self.spec_selected().contains(id) by {}
                assert(self.spec_selected() =~= Set::<PathId>::empty());
                assert(self.spec_hidden() =~= Set::<PathId>::empty());
            }
            return ;
        }
        proof {
            self.lemma_wf_paths();
            self.paths.lemma_pairs();
            self.paths.lemma_view();
        }
        let ghost entries0 = self.paths.pairs();
        let snaps = self.paths.take_entries();
        self.tiling.clear();
        self.selected_path_ids.clear();
        self.hidden_path_ids.clear();
        proof {
            assert(self.spec_paths() =~= Map::<PathId, PathView>::empty());
            assert(derived_items(self.spec_paths()) =~~= Map::<
                TileId,
                Map<PathId, Seq<Line>>,
            >::empty());
            assert(derived_tiles_of(self.spec_paths()) =~= Map::<PathId, Set<TileId>>::empty());
        }
        let cmd = Command::Remove { paths: snaps };
        proof {
            // the snapshots have distinct, now absent identifiers and valid contents
            assert forall|a: int, b: int|
                0 <= a < b < snap_ids(entries0).len() implies snap_ids(entries0)[a] != snap_ids(
                entries0,
            )[b] by {
                assert(entries0[a].0 != entries0[b].0);
            }
            assert forall|k: int| 0 <= k < entries0.len() implies !self.spec_paths().contains_key(
                (#[trigger] entries0[k]).0,
            ) && entries0[k].1.wf() by {
                assert(pm0.contains_key(entries0[k].0));
                assert(old(self).paths@[entries0[k].0].wf());
            }
            assert(rollback_applicable(self.spec_paths(), cmd));
            // inserting the snapshots back restores the old paths
            crate::store::lemma_assoc_finite(entries0);
            lemma_snaps_assoc(entries0);
            assert(assoc_map(entries0) == old(self).paths@);
            assert(rollback_paths(self.spec_paths(), cmd) =~= pm0);
            lemma_chain_grow(self.spec_paths(), self.spec_history().undo, cmd, pm0);
        }
        self.history.push(cmd);
        proof {
            assert(final(self).spec_history().undo.drop_last() =~= old(self).spec_history().undo);
        }
    }

    /// Rolls back one command: removes what it inserted, shifts back what it
    /// shifted, re-inserts what it removed; returns the computed inverse.
    fn rollback(&mut self, c: Command) -> (inv: Command)
        requires
            old(self).inv_core(),
            rollback_applicable(old(self).spec_paths(), c),
        ensures
            final(self).inv_core(),
            final(self).spec_paths() == rollback_paths(old(self).spec_paths(), c),
            inverse_cmd_ok(old(self).spec_paths(), c, inv),
            final(self).spec_selected() == rollback_marks(old(self).spec_selected(), c),
            final(self).spec_hidden() == rollback_marks(old(self).spec_hidden(), c),
            final(self).spec_history() == old(self).spec_history(),
            final(self).spec_offset() == old(self).spec_offset(),
            final(self).spec_tool() == old(self).spec_tool(),
            final(self).spec_pen_color() == old(self).spec_pen_color(),
    {
        match c {
            Command::Insert { path_ids } => {
                let snaps = self.do_remove(&path_ids);
                proof {
                    assert(final(self).spec_selected() =~= rollback_marks(
                        old(self).spec_selected(),
                        c,
                    ));
                    assert(final(self).spec_hidden() =~= rollback_marks(
                        old(self).spec_hidden(),
                        c,
                    ));
                }
                Command::Remove { paths: snaps }
            }
            Command::Shift { path_ids, delta } => {
                let nd = Coord { x: -delta.x, y: -delta.y };
                proof {
                    assert(nd == neg_coord(delta));
                }
                self.do_shift(&path_ids, nd);
                Command::Shift { path_ids, delta: nd }
            }
            Command::Remove { paths } => {
                proof {
                    assert forall|k: int|
                        0 <= k < paths@.len() implies !old(self).spec_paths().contains_key(
                        (#[trigger] paths@[k]).0,
                    ) && paths@[k].1.wf() by {}
                }
                let ids = self.do_insert(paths);
                Command::Insert { path_ids: ids }
            }
        }
    }

    /// Rolls back the most recent edit, if any, moving its inverse to the
    /// redo stack.
    pub fn undo(&mut self)
        requires
            old(self).wf(),
        ensures
            final(self).wf(),
            final(self).spec_offset() == old(self).spec_offset(),
            final(self).spec_tool() == old(self).spec_tool(),
            final(self).spec_pen_color() == old(self).spec_pen_color(),
            old(self).spec_history().undo.len() == 0 ==> final(self).spec_paths() == old(self).spec_paths() && final(self).spec_selected() == old(self).spec_selected() && final(self).spec_hidden() == old(self).spec_hidden() && final(self).spec_history() == old(self).spec_history(),
            old(self).spec_history().undo.len() > 0 ==> ({
                let c = old(self).spec_history().undo.last();
                &&& final(self).spec_paths() == rollback_paths(old(self).spec_paths(), c)
                &&& final(self).spec_selected() == rollback_marks(old(self).spec_selected(), c)
                &&& final(self).spec_hidden() == rollback_marks(old(self).spec_hidden(), c)
                &&& final(self).spec_history().is_idle()
                &&& final(self).spec_history().undo == old(self).spec_history().undo.drop_last()
                &&& final(self).spec_history().redo.len() == old(self).spec_history().redo.len()
                    + 1
                &&& final(self).spec_history().redo.drop_last() == old(self).spec_history().redo
                &&& inverse_cmd_ok(
                    old(self).spec_paths(),
                    c,
                    final(self).spec_history().redo.last(),
                )
            }),
    {
        let ghost pm0 = self.spec_paths();
        proof {
            self.lemma_wf_paths();
        }
        let com = self.history.start_undo();
        match com {
            None => {}
            Some(c) => {
                proof {
                    assert(old(self).spec_history().undo.len() > 0);
                    assert(c == old(self).spec_history().undo.last());
                    assert(chain_ok(pm0, old(self).spec_history().undo));
                    assert(rollback_applicable(pm0, c));
                    assert(self.spec_paths() == pm0);
                    assert(self.spec_selected() == old(self).spec_selected());
                    assert(self.spec_hidden() == old(self).spec_hidden());
                    assert(self.inv_core());
                }
                let inv = self.rollback(c);
                proof {
                    lemma_rollback_round_trip(pm0, c, inv);
                    assert(chain_ok(self.spec_paths(), old(self).spec_history().undo.drop_last()));
                }
                self.history.push(inv);
                proof {
                    lemma_chain_grow(
                        self.spec_paths(),
                        old(self).spec_history().redo,
                        inv,
                        pm0,
                    );
                    assert(self.spec_history().undo == old(self).spec_history().undo.drop_last());
                    assert(self.spec_history().redo == old(self).spec_history().redo.push(inv));
                    assert(chain_ok(self.spec_paths(), self.spec_history().undo));
                    assert(chain_ok(self.spec_paths(), self.spec_history().redo));
                    assert(final(self).spec_history().redo.drop_last() =~= old(self).spec_history().redo);
                }
            }
        }
    }

    /// Re-applies the most recently undone edit, if any, moving its inverse
    /// back to the undo stack.
    pub fn redo(&mut self)
        requires
            old(self).wf(),
        ensures
            final(self).wf(),
            final(self).spec_offset() == old(self).spec_offset(),
            final(self).spec_tool() == old(self).spec_tool(),
            final(self).spec_pen_color() == old(self).spec_pen_color(),
            old(self).spec_history().redo.len() == 0 ==> final(self).spec_paths() == old(self).spec_paths() && final(self).spec_selected() == old(self).spec_selected() && final(self).spec_hidden() == old(self).spec_hidden() && final(self).spec_history() == old(self).spec_history(),
            old(self).spec_history().redo.len() > 0 ==> ({
                let c = old(self).spec_history().redo.last();
                &&& final(self).spec_paths() == rollback_paths(old(self).spec_paths(), c)
                &&& final(self).spec_selected() == rollback_marks(old(self).spec_selected(), c)
                &&& final(self).spec_hidden() == rollback_marks(old(self).spec_hidden(), c)
                &&& final(self).spec_history().is_idle()
                &&& final(self).spec_history().redo == old(self).spec_history().redo.drop_last()
                &&& final(self).spec_history().undo.len() == old(self).spec_history().undo.len()
                    + 1
                &&& final(self).spec_history().undo.drop_last() == old(self).spec_history().undo
                &&& inverse_cmd_ok(
                    old(self).spec_paths(),
                    c,
                    final(self).spec_history().undo.last(),
                )
            }),
    {
        let ghost pm0 = self.spec_paths();
        proof {
            self.lemma_wf_paths();
        }
        let com = self.history.start_redo();
        match com {
            None => {}
            Some(c) => {
                proof {
                    assert(old(self).spec_history().redo.len() > 0);
                    assert(c == old(self).spec_history().redo.last());
                    assert(chain_ok(pm0, old(self).spec_history().redo));
                    assert(rollback_applicable(pm0, c));
                    assert(self.spec_paths() == pm0);
                    assert(self.spec_selected() == old(self).spec_selected());
                    assert(self.spec_hidden() == old(self).spec_hidden());
                    assert(self.inv_core());
                }
                let inv = self.rollback(c);
                proof {
                    lemma_rollback_round_trip(pm0, c, inv);
                    assert(chain_ok(self.spec_paths(), old(self).spec_history().redo.drop_last()));
                }
                self.history.push(inv);
                proof {
                    lemma_chain_grow(
                        self.spec_paths(),
                        old(self).spec_history().undo,
                        inv,
                        pm0,
                    );
                    assert(self.spec_history().redo == old(self).spec_history().redo.drop_last());
                    assert(self.spec_history().undo == old(self).spec_history().undo.push(inv));
                    assert(chain_ok(self.spec_paths(), self.spec_history().redo));
                    assert(chain_ok(self.spec_paths(), self.spec_history().undo));
                    assert(final(self).spec_history().undo.drop_last() =~= old(self).spec_history().undo);
                }
            }
        }
    }
}


/// Whether some segment of the list shares a point with the rectangle.
pub open spec fn seq_any_meets(lines: Seq<Line>, rect: Rect) -> bool {
    exists|j: int| 0 <= j < lines.len() && (#[trigger] lines[j]).spec_meets_rect(rect)
}

/// Whether any segment of the list shares a point with the rectangle.
fn any_meets(lines: &Vec<Line>, rect: &Rect) -> (r: bool)
    ensures
        r == seq_any_meets(lines@, *rect),
{
    let n = lines.len();
    let mut j: usize = 0;
    while j < n
        invariant
            j <= n,
            n == lines@.len(),
            forall|i: int| 0 <= i < j ==> !(#[trigger] lines@[i]).spec_meets_rect(*rect),
        decreases n - j,
    {
        if lines[j].meets_rect(rect) {
            proof {
                assert(lines@[j as int].spec_meets_rect(*rect));
            }
            return true;
        }
        j = j + 1;
    }
    false
}

/// The paths a rectangle query may hit: those with a segment registered on a
/// tile that the rectangle's grid walk answers.
pub open spec fn rect_candidates(pm: Map<PathId, PathView>, rect: Rect) -> Set<PathId> {
    Set::new(
        |id: PathId|
            pm.contains_key(id) && exists|t: TileId|
                #[trigger] crate::tiling::is_query_tile(&rect, t) && path_tiles(
                    pm[id].coords,
                ).contains(t),
    )
}

/// The paths a selection drag step selects: rectangle-query candidates whose
/// whole tight bounding rectangle is contained in the drag rectangle.
pub open spec fn rect_selected(pm: Map<PathId, PathView>, whole: Rect, rect: Rect) -> Set<PathId> {
    Set::new(
        |id: PathId|
            rect_candidates(pm, rect).contains(id) && whole.spec_contains(bb_of(pm[id].coords)),
    )
}

/// The paths an unselection (or erase) step hits: those with a segment,
/// registered on a tile that the rectangle's grid walk answers, that exactly
/// meets the rectangle.
pub open spec fn rect_hit(pm: Map<PathId, PathView>, rect: Rect) -> Set<PathId> {
    Set::new(
        |id: PathId|
            pm.contains_key(id) && exists|t: TileId|
                #[trigger] crate::tiling::is_query_tile(&rect, t) && path_tiles(
                    pm[id].coords,
                ).contains(t) && seq_any_meets(tile_segs(pm[id].coords, t), rect),
    )
}

/// The ids selected among the first `n` yielded query pairs.
pub open spec fn sel_from_hits(
    pm: Map<PathId, PathView>,
    whole: Rect,
    hits: Seq<(PathId, Vec<Line>)>,
    n: int,
) -> Set<PathId> {
    Set::new(
        |id: PathId|
            (exists|k: int| 0 <= k < n && (#[trigger] hits[k]).0 == id) && pm.contains_key(id)
                && whole.spec_contains(bb_of(pm[id].coords)),
    )
}

/// The ids hit among the first `n` yielded query pairs.
pub open spec fn hit_from_hits(rect: Rect, hits: Seq<(PathId, Vec<Line>)>, n: int) -> Set<PathId> {
    Set::new(
        |id: PathId|
            exists|k: int|
                0 <= k < n && (#[trigger] hits[k]).0 == id && seq_any_meets(hits[k].1@, rect),
    )
}

impl Model {
    /// Yields, for every tile under the shape that the shape exactly meets,
    /// each path registered on that tile with its segments there — the same
    /// path may be yielded once per occupied tile.
    pub fn bounding_tile_items<G: crate::tiling::TileQuery>(&self, g: &G) -> (r: Vec<
        (PathId, Vec<Line>),
    >)
        requires
            self.wf(),
        ensures
            forall|k: int|
                #![trigger r@[k]]
                0 <= k < r@.len() ==> crate::tiling::query_pair_ok(
                    derived_items(self.spec_paths()),
                    g,
                    r@[k],
                ),
            forall|t: TileId, id: PathId|
                #![trigger crate::tiling::is_query_tile(g, t), derived_items(self.spec_paths())[t].contains_key(id)]
                crate::tiling::is_query_tile(g, t) && derived_items(
                    self.spec_paths(),
                ).contains_key(t) && derived_items(self.spec_paths())[t].contains_key(id)
                    ==> exists|k: int|
                    0 <= k < r@.len() && (#[trigger] r@[k]).0 == id && r@[k].1@ == derived_items(
                        self.spec_paths(),
                    )[t][id],
            exists|ts: Seq<TileId>| #[trigger] crate::tiling::query_yield_tiles(
                derived_items(self.spec_paths()),
                g,
                r@,
                ts,
            ),
    {
        self.tiling.bounding_tile_items(g)
    }

    /// Selects every path that the added drag region may hit and whose whole
    /// tight bounding rectangle is contained in the drag rectangle.
    #[verifier::rlimit(100)]
    pub fn select_paths_with(&mut self, whole_rect: Rect, rect: Rect)
        requires
            old(self).wf(),
        ensures
            final(self).wf(),
            final(self).spec_selected() == old(self).spec_selected().union(
                rect_selected(old(self).spec_paths(), whole_rect, rect),
            ),
            final(self).spec_paths() == old(self).spec_paths(),
            final(self).spec_hidden() == old(self).spec_hidden(),
            final(self).spec_history() == old(self).spec_history(),
            final(self).spec_offset() == old(self).spec_offset(),
            final(self).spec_tool() == old(self).spec_tool(),
            final(self).spec_pen_color() == old(self).spec_pen_color(),
    {
        let ghost pm0 = self.spec_paths();
        let ghost sel0 = self.spec_selected();
        let hits = self.tiling.bounding_tile_items(&rect);
        let n = hits.len();
        let mut k: usize = 0;
        proof {
            assert(sel0.union(sel_from_hits(pm0, whole_rect, hits@, 0)) =~= sel0);
        }
        while k < n
            invariant
                k <= n,
                n == hits@.len(),
                self.inv_core(),
                self.spec_paths() == pm0,
                pm0 == old(self).spec_paths(),
                sel0 == old(self).spec_selected(),
                self.spec_selected() == sel0.union(sel_from_hits(pm0, whole_rect, hits@, k as int)),
                self.spec_hidden() == old(self).spec_hidden(),
                self.history == old(self).history,
                self.offset == old(self).offset,
                self.tool == old(self).tool,
                self.pen_color == old(self).pen_color,
                self.paths == old(self).paths,
                self.tiling == old(self).tiling,
                forall|j: int|
                    #![trigger hits@[j]]
                    0 <= j < hits@.len() ==> crate::tiling::query_pair_ok(
                        derived_items(pm0),
                        &rect,
                        hits@[j],
                    ),
            decreases n - k,
        {
            let id = hits[k].0;
            let ghost selk = self.spec_selected();
            proof {
                assert(crate::tiling::query_pair_ok(derived_items(pm0), &rect, hits@[k as int]));
                let t = choose|t: TileId|
                    #![trigger crate::tiling::is_query_tile(&rect, t)]
                    crate::tiling::is_query_tile(&rect, t) && derived_items(pm0).contains_key(t)
                        && derived_items(pm0)[t].contains_key(id) && hits@[k as int].1@
                        == derived_items(pm0)[t][id];
                assert(pm0.contains_key(id));
                assert(path_tiles(pm0[id].coords).contains(t));
                assert(rect_candidates(pm0, rect).contains(id));
            }
            let rp = self.paths.get(&id).unwrap();
            proof {
                assert(rp@ == pm0[id]);
                rp.lemma_view();
                assert(rp.spec_path().coords@ == pm0[id].coords);
            }
            let tight = crate::geom::bounding_rect_of(&rp.get().coords);
            proof {
                assert(tight == bb_of(pm0[id].coords));
            }
            let contained = whole_rect.contains(&tight);
            if contained {
                self.selected_path_ids.insert(id);
            }
            proof {
                assert forall|p: PathId|
                    sel_from_hits(pm0, whole_rect, hits@, k as int + 1).contains(p)
                        <==> sel_from_hits(pm0, whole_rect, hits@, k as int).contains(p) || (p
                        == id && contained) by {
                    if sel_from_hits(pm0, whole_rect, hits@, k as int + 1).contains(p) {
                        let j = choose|j: int|
                            0 <= j < k as int + 1 && (#[trigger] hits@[j]).0 == p;
                        if j < k as int {
                            assert(sel_from_hits(pm0, whole_rect, hits@, k as int).contains(p));
                        } else {
                            assert(p == id);
                        }
                    }
                    if sel_from_hits(pm0, whole_rect, hits@, k as int).contains(p) {
                        assert(sel_from_hits(pm0, whole_rect, hits@, k as int + 1).contains(p));
                    }
                    if p == id && contained {
                        assert(hits@[k as int].0 == id);
                        assert(sel_from_hits(pm0, whole_rect, hits@, k as int + 1).contains(p));
                    }
                }
                if contained {
                    assert(self.spec_selected() =~= sel0.union(
                        sel_from_hits(pm0, whole_rect, hits@, k as int + 1),
                    ));
                } else {
                    assert(self.spec_selected() =~= sel0.union(
                        sel_from_hits(pm0, whole_rect, hits@, k as int + 1),
                    ));
                }
            }
            k = k + 1;
        }
        proof {
            // the selected hits are exactly the contained candidates
            assert forall|p: PathId|
                sel_from_hits(pm0, whole_rect, hits@, n as int).contains(p) <==> rect_selected(
                    pm0,
                    whole_rect,
                    rect,
                ).contains(p) by {
                if sel_from_hits(pm0, whole_rect, hits@, n as int).contains(p) {
                    let j = choose|j: int| 0 <= j < n as int && (#[trigger] hits@[j]).0 == p;
                    assert(crate::tiling::query_pair_ok(derived_items(pm0), &rect, hits@[j]));
                    let t = choose|t: TileId|
                        #![trigger crate::tiling::is_query_tile(&rect, t)]
                        crate::tiling::is_query_tile(&rect, t) && derived_items(
                            pm0,
                        ).contains_key(t) && derived_items(pm0)[t].contains_key(p) && hits@[j].1@
                            == derived_items(pm0)[t][p];
                    assert(path_tiles(pm0[p].coords).contains(t));
                    assert(rect_candidates(pm0, rect).contains(p));
                }
                if rect_selected(pm0, whole_rect, rect).contains(p) {
                    let t = choose|t: TileId|
                        #[trigger] crate::tiling::is_query_tile(&rect, t) && path_tiles(
                            pm0[p].coords,
                        ).contains(t);
                    assert(derived_items(pm0).contains_key(t));
                    assert(derived_items(pm0)[t].contains_key(p));
                    let k0 = choose|k0: int|
                        0 <= k0 < hits@.len() && (#[trigger] hits@[k0]).0 == p && hits@[k0].1@
                            == derived_items(pm0)[t][p];
                    assert(sel_from_hits(pm0, whole_rect, hits@, n as int).contains(p));
                }
            }
            assert(self.spec_selected() =~= sel0.union(rect_selected(pm0, whole_rect, rect)));
            assert forall|p: PathId| #[trigger] self.spec_selected().contains(p) implies
                self.spec_paths().contains_key(p) by {
                if sel0.contains(p) {
                    assert(pm0.contains_key(p));
                }
            }
        }
    }

    /// Unselects every path with a stored segment, registered on a tile under
    /// the removed drag region, that exactly meets that region.
    #[verifier::rlimit(100)]
    pub fn unselect_paths_with(&mut self, rect: Rect)
        requires
            old(self).wf(),
        ensures
            final(self).wf(),
            final(self).spec_selected() == old(self).spec_selected().difference(
                rect_hit(old(self).spec_paths(), rect),
            ),
            final(self).spec_paths() == old(self).spec_paths(),
            final(self).spec_hidden() == old(self).spec_hidden(),
            final(self).spec_history() == old(self).spec_history(),
            final(self).spec_offset() == old(self).spec_offset(),
            final(self).spec_tool() == old(self).spec_tool(),
            final(self).spec_pen_color() == old(self).spec_pen_color(),
    {
        let ghost pm0 = self.spec_paths();
        let ghost sel0 = self.spec_selected();
        let hits = self.tiling.bounding_tile_items(&rect);
        let n = hits.len();
        let mut k: usize = 0;
        proof {
            assert(sel0.difference(hit_from_hits(rect, hits@, 0)) =~= sel0);
        }
        while k < n
            invariant
                k <= n,
                n == hits@.len(),
                self.inv_core(),
                self.spec_paths() == pm0,
                pm0 == old(self).spec_paths(),
                sel0 == old(self).spec_selected(),
                self.spec_selected() == sel0.difference(hit_from_hits(rect, hits@, k as int)),
                self.spec_hidden() == old(self).spec_hidden(),
                self.history == old(self).history,
                self.offset == old(self).offset,
                self.tool == old(self).tool,
                self.pen_color == old(self).pen_color,
                self.paths == old(self).paths,
                self.tiling == old(self).tiling,
                forall|j: int|
                    #![trigger hits@[j]]
                    0 <= j < hits@.len() ==> crate::tiling::query_pair_ok(
                        derived_items(pm0),
                        &rect,
                        hits@[j],
                    ),
            decreases n - k,
        {
            let id = hits[k].0;
            let hit = any_meets(&hits[k].1, &rect);
            if hit {
                self.selected_path_ids.remove(&id);
            }
            proof {
                assert forall|p: PathId|
                    hit_from_hits(rect, hits@, k as int + 1).contains(p) <==> hit_from_hits(
                        rect,
                        hits@,
                        k as int,
                    ).contains(p) || (p == id && hit) by {
                    if hit_from_hits(rect, hits@, k as int + 1).contains(p) {
                        let j = choose|j: int|
                            0 <= j < k as int + 1 && (#[trigger] hits@[j]).0 == p && seq_any_meets(
                                hits@[j].1@,
                                rect,
                            );
                        if j < k as int {
                            assert(hit_from_hits(rect, hits@, k as int).contains(p));
                        } else {
                            assert(p == id && hit);
                        }
                    }
                    if hit_from_hits(rect, hits@, k as int).contains(p) {
                        let j = choose|j: int|
                            0 <= j < k as int && (#[trigger] hits@[j]).0 == p && seq_any_meets(
                                hits@[j].1@,
                                rect,
                            );
                        assert(hit_from_hits(rect, hits@, k as int + 1).contains(p));
                    }
                    if p == id && hit {
                        assert(hits@[k as int].0 == id && seq_any_meets(hits@[k as int].1@, rect));
                        assert(hit_from_hits(rect, hits@, k as int + 1).contains(p));
                    }
                }
                assert(self.spec_selected() =~= sel0.difference(
                    hit_from_hits(rect, hits@, k as int + 1),
                ));
            }
            k = k + 1;
        }
        proof {
            assert forall|p: PathId|
                hit_from_hits(rect, hits@, n as int).contains(p) <==> rect_hit(pm0, rect).contains(
                    p,
                ) by {
                if hit_from_hits(rect, hits@, n as int).contains(p) {
                    let j = choose|j: int|
                        0 <= j < n as int && (#[trigger] hits@[j]).0 == p && seq_any_meets(
                            hits@[j].1@,
                            rect,
                        );
                    assert(crate::tiling::query_pair_ok(derived_items(pm0), &rect, hits@[j]));
                    let t = choose|t: TileId|
                        #![trigger crate::tiling::is_query_tile(&rect, t)]
                        crate::tiling::is_query_tile(&rect, t) && derived_items(
                            pm0,
                        ).contains_key(t) && derived_items(pm0)[t].contains_key(p) && hits@[j].1@
                            == derived_items(pm0)[t][p];
                    assert(path_tiles(pm0[p].coords).contains(t));
                    assert(derived_items(pm0)[t][p] == tile_segs(pm0[p].coords, t));
                    assert(rect_hit(pm0, rect).contains(p));
                }
                if rect_hit(pm0, rect).contains(p) {
                    let t = choose|t: TileId|
                        #[trigger] crate::tiling::is_query_tile(&rect, t) && path_tiles(
                            pm0[p].coords,
                        ).contains(t) && seq_any_meets(tile_segs(pm0[p].coords, t), rect);
                    assert(derived_items(pm0).contains_key(t));
                    assert(derived_items(pm0)[t].contains_key(p));
                    let k0 = choose|k0: int|
                        0 <= k0 < hits@.len() && (#[trigger] hits@[k0]).0 == p && hits@[k0].1@
                            == derived_items(pm0)[t][p];
                    assert(seq_any_meets(hits@[k0].1@, rect));
                    assert(hit_from_hits(rect, hits@, n as int).contains(p));
                }
            }
            assert(self.spec_selected() =~= sel0.difference(rect_hit(pm0, rect)));
            assert forall|p: PathId| #[trigger] self.spec_selected().contains(p) implies
                self.spec_paths().contains_key(p) by {
                assert(sel0.contains(p));
            }
        }
    }

    /// Clears the selection.
    pub fn unselect_all_paths(&mut self)
        requires
            old(self).wf(),
        ensures
            final(self).wf(),
            final(self).spec_selected() == Set::<PathId>::empty(),
            final(self).spec_paths() == old(self).spec_paths(),
            final(self).spec_hidden() == old(self).spec_hidden(),
            final(self).spec_history() == old(self).spec_history(),
            final(self).spec_offset() == old(self).spec_offset(),
            final(self).spec_tool() == old(self).spec_tool(),
            final(self).spec_pen_color() == old(self).spec_pen_color(),
    {
        self.selected_path_ids.clear();
        proof {
            assert(self.spec_paths() == old(self).spec_paths());
            assert(self.spec_history() == old(self).spec_history());
            assert(self.spec_hidden() == old(self).spec_hidden());
            assert forall|p: PathId| #[trigger] self.spec_hidden().contains(p) implies
                self.spec_paths().contains_key(p) by {
                assert(old(self).spec_hidden().contains(p));
            }
            assert(self.wf());
        }
    }

    /// Marks a stored path as hidden from the main layer.
    pub fn hide_path(&mut self, id: PathId)
        requires
            old(self).wf(),
            old(self).spec_paths().contains_key(id),
        ensures
            final(self).wf(),
            final(self).spec_hidden() == old(self).spec_hidden().insert(id),
            final(self).spec_paths() == old(self).spec_paths(),
            final(self).spec_selected() == old(self).spec_selected(),
            final(self).spec_history() == old(self).spec_history(),
            final(self).spec_offset() == old(self).spec_offset(),
            final(self).spec_tool() == old(self).spec_tool(),
            final(self).spec_pen_color() == old(self).spec_pen_color(),
    {
        self.hidden_path_ids.insert(id);
        proof {
            assert(self.spec_paths() == old(self).spec_paths());
            assert(self.spec_history() == old(self).spec_history());
            assert forall|p: PathId| #[trigger] self.spec_hidden().contains(p) implies
                self.spec_paths().contains_key(p) by {
                if p != id {
                    assert(old(self).spec_hidden().contains(p));
                }
            }
            assert forall|p: PathId| #[trigger] self.spec_selected().contains(p) implies
                self.spec_paths().contains_key(p) by {
                assert(old(self).spec_selected().contains(p));
            }
            assert(self.wf());
        }
    }

    /// Unmarks a stored path as hidden.
    pub fn unhide_path(&mut self, id: PathId)
        requires
            old(self).wf(),
            old(self).spec_paths().contains_key(id),
        ensures
            final(self).wf(),
            final(self).spec_hidden() == old(self).spec_hidden().remove(id),
            final(self).spec_paths() == old(self).spec_paths(),
            final(self).spec_selected() == old(self).spec_selected(),
            final(self).spec_history() == old(self).spec_history(),
            final(self).spec_offset() == old(self).spec_offset(),
            final(self).spec_tool() == old(self).spec_tool(),
            final(self).spec_pen_color() == old(self).spec_pen_color(),
    {
        self.hidden_path_ids.remove(&id);
        proof {
            assert(self.spec_paths() == old(self).spec_paths());
            assert(self.spec_history() == old(self).spec_history());
            assert forall|p: PathId| #[trigger] self.spec_hidden().contains(p) implies
                self.spec_paths().contains_key(p) by {
                assert(old(self).spec_hidden().contains(p));
            }
            assert forall|p: PathId| #[trigger] self.spec_selected().contains(p) implies
                self.spec_paths().contains_key(p) by {
                assert(old(self).spec_selected().contains(p));
            }
            assert(self.wf());
        }
    }

    /// The canvas coordinate under a screen coordinate.
    pub fn coord_at(&self, coord: crate::geom::OnScreen<Coord>) -> (r: Coord)
        requires
            i32::MIN <= coord.0.x - self.spec_offset().x <= i32::MAX,
            i32::MIN <= coord.0.y - self.spec_offset().y <= i32::MAX,
        ensures
            r == (Coord {
                x: (coord.0.x - self.spec_offset().x) as i32,
                y: (coord.0.y - self.spec_offset().y) as i32,
            }),
    {
        Coord { x: coord.0.x - self.offset.x, y: coord.0.y - self.offset.y }
    }

    /// The canvas translation corresponding to a screen translation.
    pub fn delta_of(&self, delta: crate::geom::OnScreen<Coord>) -> (r: Coord)
        ensures
            r == delta.0,
    {
        delta.0
    }

    /// Moves the scroll offset by `delta`.
    pub fn scroll(&mut self, delta: Coord)
        requires
            old(self).wf(),
            i32::MIN <= old(self).spec_offset().x + delta.x <= i32::MAX,
            i32::MIN <= old(self).spec_offset().y + delta.y <= i32::MAX,
        ensures
            final(self).wf(),
            final(self).spec_offset() == (Coord {
                x: (old(self).spec_offset().x + delta.x) as i32,
                y: (old(self).spec_offset().y + delta.y) as i32,
            }),
            final(self).spec_paths() == old(self).spec_paths(),
            final(self).spec_selected() == old(self).spec_selected(),
            final(self).spec_hidden() == old(self).spec_hidden(),
            final(self).spec_history() == old(self).spec_history(),
            final(self).spec_tool() == old(self).spec_tool(),
            final(self).spec_pen_color() == old(self).spec_pen_color(),
    {
        self.offset = Coord { x: self.offset.x + delta.x, y: self.offset.y + delta.y };
        proof {
            assert(self.spec_paths() == old(self).spec_paths());
            assert(self.spec_history() == old(self).spec_history());
            assert(self.spec_selected() == old(self).spec_selected());
            assert(self.spec_hidden() == old(self).spec_hidden());
            assert(self.wf());
        }
    }

    /// Selects the active tool; leaving the selector clears the selection.
    pub fn set_tool(&mut self, tool: Tool)
        requires
            old(self).wf(),
        ensures
            final(self).wf(),
            final(self).spec_tool() == tool,
            final(self).spec_selected() == if tool != Tool::Selector {
                Set::<PathId>::empty()
            } else {
                old(self).spec_selected()
            },
            final(self).spec_paths() == old(self).spec_paths(),
            final(self).spec_hidden() == old(self).spec_hidden(),
            final(self).spec_history() == old(self).spec_history(),
            final(self).spec_offset() == old(self).spec_offset(),
            final(self).spec_pen_color() == old(self).spec_pen_color(),
    {
        self.tool = tool;
        let is_selector = match tool {
            Tool::Selector => true,
            _ => false,
        };
        if !is_selector {
            self.selected_path_ids.clear();
        }
        proof {
            assert(self.spec_paths() == old(self).spec_paths());
            assert(self.spec_history() == old(self).spec_history());
            assert(self.spec_hidden() == old(self).spec_hidden());
            if is_selector {
                assert(self.spec_selected() == old(self).spec_selected());
            }
            assert(self.wf());
        }
    }

    /// Selects the active pen color.
    pub fn set_pen_color(&mut self, color: Color)
        requires
            old(self).wf(),
        ensures
            final(self).wf(),
            final(self).spec_pen_color() == color,
            final(self).spec_paths() == old(self).spec_paths(),
            final(self).spec_selected() == old(self).spec_selected(),
            final(self).spec_hidden() == old(self).spec_hidden(),
            final(self).spec_history() == old(self).spec_history(),
            final(self).spec_offset() == old(self).spec_offset(),
            final(self).spec_tool() == old(self).spec_tool(),
    {
        self.pen_color = color;
        proof {
            assert(self.spec_paths() == old(self).spec_paths());
            assert(self.spec_history() == old(self).spec_history());
            assert(self.spec_selected() == old(self).spec_selected());
            assert(self.spec_hidden() == old(self).spec_hidden());
            assert(self.wf());
        }
    }
}


/// Query completeness at segment endpoints, at the document level: when an
/// endpoint of one of a stored path's segments is covered by a query
/// rectangle, some tile answers the rectangle query and registers the path —
/// so, by the query's completeness, `bounding_tile_items` yields that path.
/// (A segment can also cross the rectangle away from both endpoints; that
/// case goes through the same tile walk but is not proved here.)
pub proof fn lemma_query_completeness_endpoint(
    m: &Model,
    id: PathId,
    r: Rect,
    i: int,
    endpoint: Coord,
)
    requires
        m.spec_paths().contains_key(id),
        0 <= i < crate::tiling::segs_of(m.spec_paths()[id].coords).len(),
        endpoint == crate::tiling::segs_of(m.spec_paths()[id].coords)[i].start || endpoint
            == crate::tiling::segs_of(m.spec_paths()[id].coords)[i].end,
        r.wf(),
        r.covers(endpoint.x as int, endpoint.y as int),
    ensures
        exists|t: TileId|
            #![trigger crate::tiling::is_query_tile(&r, t)]
            crate::tiling::is_query_tile(&r, t) && derived_items(
                m.spec_paths(),
            ).contains_key(t) && derived_items(m.spec_paths())[t].contains_key(id),
{
    let pm = m.spec_paths();
    let ps = pm[id].coords;
    assert forall|t: TileId|
        #![trigger path_tiles(ps).contains(t)]
        path_tiles(ps).contains(t) implies derived_items(pm).contains_key(t) && derived_items(
        pm,
    )[t].contains_key(id) by {}
    crate::tiling::lemma_query_completeness_endpoint(derived_items(pm), id, ps, r, i, endpoint);
}

} // verus!
