//! Everything a host typically needs.
pub use crate::ids::{PanelId, SplitId, TileId};
pub use crate::layout::PanelLayout;
pub use crate::model::{DockZone, LayoutError, LayoutNode, PanelPlacement, SplitAxis, Tile};
