use papirs_core::geom::{Coord, Line, OnScreen, Rect};
use papirs_core::history::History;
use papirs_core::model::{Command, Model};
use papirs_core::path::{Color, Path, PathId, RenderablePath, Tool};
use papirs_core::tiling::Tiling;

fn c(x: i32, y: i32) -> Coord {
    Coord { x, y }
}

fn rp(color: Color, coords: Vec<Coord>) -> RenderablePath {
    RenderablePath::new(Path { color, coords }).unwrap()
}

#[test]
fn renderable_path_rejects_empty() {
    assert!(RenderablePath::new(Path { color: Color::Black, coords: vec![] }).is_none());
    assert!(RenderablePath::new(Path { color: Color::Black, coords: vec![c(1, 2)] }).is_some());
}

#[test]
fn renderable_path_caches_padded_bounding_rect() {
    let p = rp(Color::Red, vec![c(0, 0), c(10, 20)]);
    assert_eq!(p.bounding_rect().min, c(-5, -5));
    assert_eq!(p.bounding_rect().max, c(15, 25));
    assert_eq!(p.get().color, Color::Red);
}

#[test]
fn renderable_path_take_leaves_empty() {
    let mut p = rp(Color::Blue, vec![c(1, 1), c(2, 2)]);
    let taken = p.take();
    assert_eq!(taken.coords.as_slice(), &[c(1, 1), c(2, 2)]);
    assert_eq!(p.get().coords.len(), 0);
}

#[test]
fn color_rgb_values() {
    assert_eq!(Color::Black.rgb(), (0, 0, 0));
    assert_eq!(Color::Red.rgb(), (255, 75, 0));
    assert_eq!(Color::Orange.rgb(), (246, 170, 0));
    assert_eq!(Color::Green.rgb(), (3, 175, 122));
    assert_eq!(Color::Blue.rgb(), (0, 90, 255));
    assert_eq!(Color::SkyBlue.rgb(), (77, 196, 255));
    assert_eq!(Color::default(), Color::Black);
    assert_eq!(Tool::default(), Tool::Pen);
}

#[test]
fn path_id_generation() {
    let a = PathId::gen();
    let b = PathId::gen();
    assert_ne!(a, b);
    assert_eq!(PathId::from_raw(7), PathId(7));
}

#[test]
fn insert_undo_redo_round_trip() {
    // insert path A at [(0,0),(10,0)]; undoing removes it, pushing the
    // inverse onto the redo stack; redoing restores it and the stacks match
    // the pre-undo content
    let id = PathId::from_raw(1);
    let mut m = Model::new();
    m.insert_paths(vec![(id, rp(Color::Black, vec![c(0, 0), c(10, 0)]))]);
    assert!(m.contains_path(id));
    assert_eq!(m.undo_commands().len(), 1);
    assert!(matches!(&m.undo_commands()[0], Command::Insert { path_ids } if path_ids.as_slice() == [id]));
    assert_eq!(m.redo_commands().len(), 0);

    m.undo();
    assert!(!m.contains_path(id));
    assert_eq!(m.undo_commands().len(), 0);
    assert_eq!(m.redo_commands().len(), 1);
    assert!(matches!(&m.redo_commands()[0], Command::Remove { paths }
        if paths.len() == 1 && paths[0].0 == id));

    m.redo();
    assert!(m.contains_path(id));
    assert_eq!(m.path(id).get().coords.as_slice(), &[c(0, 0), c(10, 0)]);
    assert_eq!(m.undo_commands().len(), 1);
    assert!(matches!(&m.undo_commands()[0], Command::Insert { path_ids } if path_ids.as_slice() == [id]));
    assert_eq!(m.redo_commands().len(), 0);
}

#[test]
fn history_hands_back_the_insert_command() {
    // the edit-log view of the same scenario: the insert command is popped,
    // its inverse pushed while undoing lands on the redo stack
    let id = PathId::from_raw(2);
    let mut h: History<Command> = History::new();
    h.push(Command::Insert { path_ids: vec![id] });
    let popped = h.start_undo().unwrap();
    match &popped {
        Command::Insert { path_ids } => assert_eq!(path_ids.as_slice(), [id]),
        _ => panic!("expected the insert command back"),
    }
    h.push(Command::Remove { paths: vec![(id, rp(Color::Black, vec![c(0, 0), c(10, 0)]))] });
    assert!(h.idle());
    assert_eq!(h.undo_commands().len(), 0);
    assert_eq!(h.redo_commands().len(), 1);
    assert!(matches!(&h.redo_commands()[0], Command::Remove { paths } if paths[0].0 == id));
}

#[test]
fn fresh_edit_discards_redo_branch() {
    let a = PathId::from_raw(1);
    let b = PathId::from_raw(2);
    let mut m = Model::new();
    m.insert_paths(vec![(a, rp(Color::Black, vec![c(0, 0), c(5, 5)]))]);
    m.undo();
    assert_eq!(m.redo_commands().len(), 1);
    m.insert_paths(vec![(b, rp(Color::Red, vec![c(9, 9), c(12, 12)]))]);
    assert_eq!(m.redo_commands().len(), 0);
    assert_eq!(m.undo_commands().len(), 1);
    m.redo(); // nothing to redo
    assert!(m.contains_path(b));
    assert!(!m.contains_path(a));
}

#[test]
fn shift_moves_points_and_undo_restores() {
    let id = PathId::from_raw(3);
    let mut m = Model::new();
    m.insert_paths(vec![(id, rp(Color::Green, vec![c(0, 0), c(10, 0)]))]);
    m.shift_paths(vec![id], c(7, -2));
    assert_eq!(m.path(id).get().coords.as_slice(), &[c(7, -2), c(17, -2)]);
    assert_eq!(m.path(id).bounding_rect().min, c(2, -7));
    assert_eq!(m.path(id).bounding_rect().max, c(22, 3));
    m.undo();
    assert_eq!(m.path(id).get().coords.as_slice(), &[c(0, 0), c(10, 0)]);
    m.redo();
    assert_eq!(m.path(id).get().coords.as_slice(), &[c(7, -2), c(17, -2)]);
}

#[test]
fn remove_captures_snapshots_and_undo_restores() {
    let id = PathId::from_raw(4);
    let mut m = Model::new();
    m.insert_paths(vec![(id, rp(Color::Blue, vec![c(1, 2), c(3, 4)]))]);
    m.remove_paths(vec![id]);
    assert!(!m.contains_path(id));
    assert!(matches!(&m.undo_commands()[1], Command::Remove { paths }
        if paths.len() == 1 && paths[0].0 == id));
    m.undo();
    assert!(m.contains_path(id));
    assert_eq!(m.path(id).get().coords.as_slice(), &[c(1, 2), c(3, 4)]);
    assert_eq!(m.path(id).get().color, Color::Blue);
}

#[test]
fn marquee_selection_is_strict_containment() {
    // the tight bounding rectangle of the path is [0,0]..[10,0]
    let id = PathId::from_raw(5);
    let mut m = Model::new();
    m.insert_paths(vec![(id, rp(Color::Black, vec![c(0, 0), c(10, 0)]))]);
    // a rectangle that intersects the path but does not contain its whole
    // tight box selects nothing
    m.select_paths_with(Rect::new(c(2, -20), c(20, 20)), Rect::new(c(2, -20), c(20, 20)));
    assert_eq!(m.selected_paths().len(), 0);
    // a rectangle containing the tight box with a unit to spare selects the
    // path, even though it does not reach the padded cached rectangle
    m.select_paths_with(Rect::new(c(-1, -1), c(11, 1)), Rect::new(c(-1, -1), c(11, 1)));
    assert_eq!(m.selected_paths().as_slice(), [id]);
}

#[test]
fn unselection_is_lenient_intersection() {
    let id = PathId::from_raw(6);
    let mut m = Model::new();
    m.insert_paths(vec![(id, rp(Color::Black, vec![c(0, 0), c(10, 0)]))]);
    m.select_paths_with(Rect::new(c(-20, -20), c(20, 20)), Rect::new(c(-20, -20), c(20, 20)));
    assert_eq!(m.selected_paths().len(), 1);
    // a small rectangle that merely touches one segment unselects the path
    m.unselect_paths_with(Rect::new(c(2, -1), c(4, 1)));
    assert_eq!(m.selected_paths().len(), 0);
    // selecting again and unselecting with a rectangle that misses every
    // segment keeps the selection
    m.select_paths_with(Rect::new(c(-20, -20), c(20, 20)), Rect::new(c(-20, -20), c(20, 20)));
    m.unselect_paths_with(Rect::new(c(2, 2), c(4, 4)));
    assert_eq!(m.selected_paths().len(), 1);
    m.unselect_all_paths();
    assert_eq!(m.selected_paths().len(), 0);
}

#[test]
fn remove_selected_clears_marks() {
    let a = PathId::from_raw(7);
    let b = PathId::from_raw(8);
    let mut m = Model::new();
    m.insert_paths(vec![
        (a, rp(Color::Black, vec![c(0, 0), c(10, 0)])),
        (b, rp(Color::Red, vec![c(1000, 1000), c(1010, 1000)])),
    ]);
    m.select_paths_with(Rect::new(c(-20, -20), c(20, 20)), Rect::new(c(-20, -20), c(20, 20)));
    assert_eq!(m.selected_paths().as_slice(), [a]);
    m.hide_path(a);
    assert_eq!(m.hidden_paths().as_slice(), [a]);
    m.remove_selected_paths();
    assert!(!m.contains_path(a));
    assert!(m.contains_path(b));
    assert_eq!(m.selected_paths().len(), 0);
    assert_eq!(m.hidden_paths().len(), 0);
    // the removal went on the history as one edit
    m.undo();
    assert!(m.contains_path(a));
}

#[test]
fn clear_paths_empties_document_and_is_one_edit() {
    let a = PathId::from_raw(9);
    let b = PathId::from_raw(10);
    let mut m = Model::new();
    m.insert_paths(vec![
        (a, rp(Color::Black, vec![c(0, 0), c(10, 0)])),
        (b, rp(Color::Red, vec![c(5, 5), c(6, 6)])),
    ]);
    m.clear_paths();
    assert!(!m.contains_path(a));
    assert!(!m.contains_path(b));
    m.undo();
    assert!(m.contains_path(a));
    assert!(m.contains_path(b));
    assert_eq!(m.path(b).get().coords.as_slice(), &[c(5, 5), c(6, 6)]);
}

#[test]
fn hide_and_unhide() {
    let id = PathId::from_raw(11);
    let mut m = Model::new();
    m.insert_paths(vec![(id, rp(Color::Black, vec![c(0, 0), c(1, 1)]))]);
    m.hide_path(id);
    assert_eq!(m.hidden_paths().as_slice(), [id]);
    m.unhide_path(id);
    assert_eq!(m.hidden_paths().len(), 0);
}

#[test]
fn tiling_round_trip_leaves_no_residue() {
    // inserting a path and removing it returns the index to its pre-insert
    // state: a query over everything finds nothing
    let id = PathId::from_raw(12);
    let mut t = Tiling::new();
    let coords = vec![c(0, 0), c(250, 260)];
    t.insert_path(id, &coords);
    let everything = Rect::new(c(-1000, -1000), c(1000, 1000));
    assert!(t.bounding_tile_items(&everything).len() > 0);
    t.remove_path(id);
    assert_eq!(t.bounding_tile_items(&everything).len(), 0);
}

#[test]
fn query_yields_once_per_affected_tile_with_exact_filtering() {
    // the segment (0,0)-(250,260) occupies tiles (0,0), (0,1), (1,1) and
    // (1,2); its bounding-box grid walk also covers tiles like (1,0), which
    // the exact segment test excludes
    let id = PathId::from_raw(13);
    let mut m = Model::new();
    m.insert_paths(vec![(id, rp(Color::Black, vec![c(0, 0), c(250, 260)]))]);

    // an eraser stroke through the bottom tile row finds the path exactly
    // once: only tile (0,0) both answers the query and holds the path
    let eraser = Line { start: c(-10, 60), end: c(300, 60) };
    let hits = m.bounding_tile_items(&eraser);
    assert_eq!(hits.iter().filter(|h| h.0 == id).count(), 1);
    assert_eq!(hits[0].1.as_slice(), [Line { start: c(0, 0), end: c(250, 260) }]);

    // a query over everything yields the path once per occupied tile
    let all = Rect::new(c(-10, -10), c(300, 300));
    let hits_all = m.bounding_tile_items(&all);
    assert_eq!(hits_all.iter().filter(|h| h.0 == id).count(), 4);

    // a query inside the false-positive tile finds nothing
    let corner = Rect::new(c(140, 20), c(250, 100));
    assert_eq!(m.bounding_tile_items(&corner).len(), 0);
}

#[test]
fn scroll_and_coordinate_translation() {
    let mut m = Model::new();
    assert_eq!(m.offset(), c(0, 0));
    m.scroll(c(10, 20));
    assert_eq!(m.offset(), c(10, 20));
    assert_eq!(m.coord_at(OnScreen(c(15, 25))), c(5, 5));
    assert_eq!(m.delta_of(OnScreen(c(3, 4))), c(3, 4));
}

#[test]
fn switching_away_from_selector_unselects() {
    let id = PathId::from_raw(14);
    let mut m = Model::new();
    m.insert_paths(vec![(id, rp(Color::Black, vec![c(0, 0), c(10, 0)]))]);
    m.set_tool(Tool::Selector);
    m.select_paths_with(Rect::new(c(-20, -20), c(20, 20)), Rect::new(c(-20, -20), c(20, 20)));
    assert_eq!(m.selected_paths().len(), 1);
    m.set_tool(Tool::Eraser);
    assert_eq!(m.tool(), Tool::Eraser);
    assert_eq!(m.selected_paths().len(), 0);
    m.set_pen_color(Color::SkyBlue);
    assert_eq!(m.pen_color(), Color::SkyBlue);
}

#[test]
fn load_rebuilds_index_without_history() {
    let a = PathId::from_raw(20);
    let b = PathId::from_raw(21);
    let m = Model::load(
        vec![
            (a, rp(Color::Black, vec![c(0, 0), c(10, 0)])),
            (b, rp(Color::Red, vec![c(500, 500), c(510, 510)])),
        ],
        c(3, 4),
        Tool::Selector,
        Color::Green,
    );
    assert!(m.contains_path(a));
    assert!(m.contains_path(b));
    assert_eq!(m.offset(), c(3, 4));
    assert_eq!(m.tool(), Tool::Selector);
    assert_eq!(m.pen_color(), Color::Green);
    assert_eq!(m.undo_commands().len(), 0);
    assert_eq!(m.redo_commands().len(), 0);
    // the rebuilt index answers queries
    let hits = m.bounding_tile_items(&Rect::new(c(-5, -5), c(15, 5)));
    assert!(hits.iter().any(|h| h.0 == a));
    assert!(!hits.iter().any(|h| h.0 == b));
}
