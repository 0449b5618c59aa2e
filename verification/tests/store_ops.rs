use papirs_core::geom::OnScreen;
use papirs_core::path::PathId;
use papirs_core::store::{VMap, VSet};
use papirs_core::tiling::TileId;

#[test]
fn vmap_insert_get_remove() {
    let a = PathId::from_raw(1);
    let b = PathId::from_raw(2);
    let mut m: VMap<PathId, u32> = VMap::new();
    assert!(m.is_empty());
    m.insert(a, 10);
    m.insert(b, 20);
    assert_eq!(m.len(), 2);
    assert!(m.contains(&a));
    assert_eq!(m.get(&a), Some(&10));
    assert_eq!(m.get(&PathId::from_raw(3)), None);
    let v = m.remove(&a);
    assert_eq!(v, 10);
    assert!(!m.contains(&a));
    let entries = m.take_entries();
    assert_eq!(entries.as_slice(), [(b, 20)]);
    assert!(m.is_empty());
}

#[test]
fn vmap_keeps_insertion_order() {
    let mut m: VMap<TileId, i32> = VMap::new();
    m.insert(TileId { x: 1, y: 0 }, 1);
    m.insert(TileId { x: 0, y: 1 }, 2);
    let entries = m.entries();
    assert_eq!(entries[0], (TileId { x: 1, y: 0 }, 1));
    assert_eq!(entries[1], (TileId { x: 0, y: 1 }, 2));
}

#[test]
fn vset_deduplicates() {
    let a = PathId::from_raw(4);
    let b = PathId::from_raw(5);
    let mut s: VSet<PathId> = VSet::new();
    assert!(s.insert(a));
    assert!(s.insert(b));
    assert!(!s.insert(a));
    assert_eq!(s.len(), 2);
    assert!(s.contains(&a));
    assert!(s.remove(&a));
    assert!(!s.remove(&a));
    assert_eq!(s.elems().as_slice(), [b]);
    s.clear();
    assert!(s.is_empty());
}

#[test]
fn on_screen_map_applies_function() {
    let v = OnScreen(3u32);
    let w = v.map(|x| x + 1);
    assert_eq!(w.0, 4);
}
