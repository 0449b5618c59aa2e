//! Core engine of a whiteboard: integer-grid geometry, a tile-based spatial
//! index for freehand paths, an incremental selection-rectangle difference,
//! and a command-based undo/redo history with exact state-machine semantics.

pub mod diff;
pub mod geom;
pub mod history;
pub mod model;
pub mod path;
pub mod recorder;
pub mod store;
pub mod tiling;
