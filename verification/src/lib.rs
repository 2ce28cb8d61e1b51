//! A dockable panel workbench model: tabbed panel groups (tiles) arranged
//! in a binary tree of resizable splits, with docking, splitting,
//! reconciliation against a panel registry, and validation of persisted
//! layouts.
//!
//! Panel ids identify content; tile and split ids identify layout
//! positions. Split ratios are the first child's share in millionths.
pub mod closing;
pub mod ids;
pub mod interaction;
pub mod laws;
pub mod layout;
pub mod model;
pub mod ops;
pub mod prelude;
pub mod strings;
pub mod tree;
pub mod validate;
pub mod wf;

pub use ids::{PanelId, SplitId, TileId};
pub use layout::{CloseOutcome, PanelLayout};
pub use model::{
    DockZone, LayoutError, LayoutNode, PanelPlacement, SplitAxis, Tile, HALF_RATIO,
    LAYOUT_VERSION, MAX_SPLIT_RATIO, MIN_SPLIT_RATIO, RATIO_SCALE,
};
pub use strings::WorkbenchStrings;
