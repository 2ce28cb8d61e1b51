//! The layout tree: tiles (tab groups) at the leaves, splits at the
//! branches, and the mathematical model that every contract speaks of.
use vstd::prelude::*;

use crate::ids::{PanelId, SplitId, TileId};

verus! {

/// One whole share of a split, in millionths: a ratio of `RATIO_SCALE`
/// gives the first child all of the space.
pub const RATIO_SCALE: i64 = 1_000_000;
/// The smallest share a split's first child may have (one tenth).
pub const MIN_SPLIT_RATIO: i64 = 100_000;
/// The largest share a split's first child may have (nine tenths).
pub const MAX_SPLIT_RATIO: i64 = 900_000;
/// An even split.
pub const HALF_RATIO: i64 = 500_000;
/// The only persisted format version this crate reads and writes.
pub const LAYOUT_VERSION: u8 = 1;

#[derive(Clone, Copy, Debug, Eq, PartialEq, Structural)]
pub enum SplitAxis {
    /// Children sit left and right of one another.
    Horizontal,
    /// Children sit above and below one another.
    Vertical,
}

#[derive(Clone, Copy, Debug, Eq, PartialEq, Structural)]
pub enum DockZone {
    Center,
    Left,
    Right,
    Top,
    Bottom,
}

/// The axis of the split that docking into `zone` creates; none for the
/// center, which attaches as a tab instead.
pub open spec fn zone_axis(zone: DockZone) -> Option<SplitAxis> {
    match zone {
        DockZone::Center => None,
        DockZone::Left | DockZone::Right => Some(SplitAxis::Horizontal),
        DockZone::Top | DockZone::Bottom => Some(SplitAxis::Vertical),
    }
}

/// Whether the docked content goes before (left of, above) the target.
pub open spec fn zone_before(zone: DockZone) -> bool {
    zone == DockZone::Left || zone == DockZone::Top
}

impl DockZone {
    pub fn axis(self) -> (r: Option<SplitAxis>)
        ensures
            r == zone_axis(self),
    {
        match self {
            DockZone::Center => None,
            DockZone::Left | DockZone::Right => Some(SplitAxis::Horizontal),
            DockZone::Top | DockZone::Bottom => Some(SplitAxis::Vertical),
        }
    }

    pub fn before(self) -> (r: bool)
        ensures
            r == zone_before(self),
    {
        matches!(self, DockZone::Left | DockZone::Top)
    }
}

/// Why a persisted or hand-built layout was rejected.
#[derive(Clone, Debug, Eq, PartialEq)]
#[non_exhaustive]
pub enum LayoutError {
    /// The persisted value is not a layout at all: malformed JSON or the
    /// wrong shape.
    Malformed,
    /// The value was written by a different format version. This is the
    /// migration hook: the raw string is still the caller's, to convert and
    /// decode again.
    Version { found: u8 },
    /// The tree violates an invariant; the message names the first violation
    /// found.
    Invalid(String),
}

/// The model of one tab group.
#[verifier::ext_equal]
pub struct TileModel {
    pub id: Seq<char>,
    pub panels: Seq<Seq<char>>,
    pub active: Option<Seq<char>>,
    pub preserve: bool,
}

/// The model of a layout tree; ratios are the first child's share in
/// millionths.
#[verifier::ext_equal]
pub enum NodeModel {
    Leaf(TileModel),
    Branch {
        id: Seq<char>,
        axis: SplitAxis,
        ratio: int,
        first: Box<NodeModel>,
        second: Box<NodeModel>,
    },
}

/// The model of one registered panel's placement.
pub struct PlacementModel {
    pub panel: Seq<char>,
    pub home: Seq<char>,
    pub zone: DockZone,
}

pub open spec fn panel_texts(panels: Seq<PanelId>) -> Seq<Seq<char>> {
    panels.map_values(|p: PanelId| p@)
}

pub open spec fn tile_texts(tiles: Seq<TileId>) -> Seq<Seq<char>> {
    tiles.map_values(|t: TileId| t@)
}

pub open spec fn split_texts(splits: Seq<SplitId>) -> Seq<Seq<char>> {
    splits.map_values(|s: SplitId| s@)
}

pub open spec fn opt_text(p: Option<PanelId>) -> Option<Seq<char>> {
    match p {
        Some(p) => Some(p@),
        None => None,
    }
}

pub open spec fn opt_tile_text(t: Option<TileId>) -> Option<Seq<char>> {
    match t {
        Some(t) => Some(t@),
        None => None,
    }
}

/// One tab group. Only an explicit operator-created split leaves one empty
/// on purpose; `preserve_when_empty` marks it.
#[derive(Clone, Debug, PartialEq)]
pub struct Tile {
    pub id: TileId,
    pub panels: Vec<PanelId>,
    pub active: Option<PanelId>,
    pub preserve_when_empty: bool,
}

impl Tile {
    pub open spec fn model(&self) -> TileModel {
        TileModel {
            id: self.id@,
            panels: panel_texts(self.panels@),
            active: opt_text(self.active),
            preserve: self.preserve_when_empty,
        }
    }

    /// A tile holding `panels`, the first of them active.
    pub fn new(id: TileId, panels: Vec<PanelId>) -> (r: Tile)
        ensures
            r.model() == new_tile_model(id@, panel_texts(panels@)),
    {
        let active = if panels.len() > 0 {
            Some(panels[0].duplicate())
        } else {
            None
        };
        Tile { id, panels, active, preserve_when_empty: false }
    }

    /// An empty tile that survives reconciliation: a drop target the
    /// operator asked for.
    pub fn empty(id: TileId) -> (r: Tile)
        ensures
            r.model() == empty_tile_model(id@),
    {
        let mut tile = Tile::new(id, Vec::new());
        tile.preserve_when_empty = true;
        assert(panel_texts(tile.panels@) =~= Seq::<Seq<char>>::empty());
        tile
    }

    /// A copy with the same model.
    pub fn duplicate(&self) -> (r: Tile)
        ensures
            r.model() == self.model(),
    {
        let mut panels: Vec<PanelId> = Vec::new();
        let mut i: usize = 0;
        while i < self.panels.len()
            invariant
                i <= self.panels.len(),
                panel_texts(panels@) == panel_texts(self.panels@.take(i as int)),
            decreases self.panels.len() - i,
        {
            let d = self.panels[i].duplicate();
            proof {
                lemma_panel_texts_push(panels@, d);
                lemma_panel_texts_push(self.panels@.take(i as int), self.panels@[i as int]);
                assert(self.panels@.take(i + 1) =~= self.panels@.take(i as int).push(
                    self.panels@[i as int],
                ));
            }
            panels.push(d);
            i += 1;
        }
        assert(self.panels@.take(i as int) =~= self.panels@);
        let active = match &self.active {
            Some(a) => Some(a.duplicate()),
            None => None,
        };
        Tile {
            id: self.id.duplicate(),
            panels,
            active,
            preserve_when_empty: self.preserve_when_empty,
        }
    }
}

/// A tile holding `panels`, the first of them active, not preserved.
pub open spec fn new_tile_model(id: Seq<char>, panels: Seq<Seq<char>>) -> TileModel {
    TileModel {
        id,
        panels,
        active: if panels.len() > 0 { Some(panels[0]) } else { None },
        preserve: false,
    }
}

/// An empty tile marked to survive reconciliation.
pub open spec fn empty_tile_model(id: Seq<char>) -> TileModel {
    TileModel { id, panels: Seq::empty(), active: None, preserve: true }
}

/// A ratio forced into `MIN_SPLIT_RATIO..=MAX_SPLIT_RATIO`.
pub open spec fn clamp_ratio_spec(ratio: int) -> int {
    if ratio < MIN_SPLIT_RATIO {
        MIN_SPLIT_RATIO as int
    } else if ratio > MAX_SPLIT_RATIO {
        MAX_SPLIT_RATIO as int
    } else {
        ratio
    }
}

pub fn clamp_ratio(ratio: i64) -> (r: i64)
    ensures
        r == clamp_ratio_spec(ratio as int),
{
    if ratio < MIN_SPLIT_RATIO {
        MIN_SPLIT_RATIO
    } else if ratio > MAX_SPLIT_RATIO {
        MAX_SPLIT_RATIO
    } else {
        ratio
    }
}

/// The recursive tiling tree. Ratios describe the first child's share, in
/// millionths.
#[derive(Debug, PartialEq)]
pub enum LayoutNode {
    Tile(Tile),
    Split {
        id: SplitId,
        axis: SplitAxis,
        ratio: i64,
        first: Box<LayoutNode>,
        second: Box<LayoutNode>,
    },
}

impl LayoutNode {
    pub open spec fn model(self) -> NodeModel
        decreases self,
    {
        match self {
            LayoutNode::Tile(t) => NodeModel::Leaf(t.model()),
            LayoutNode::Split { id, axis, ratio, first, second } => NodeModel::Branch {
                id: id@,
                axis,
                ratio: ratio as int,
                first: Box::new((*first).model()),
                second: Box::new((*second).model()),
            },
        }
    }

    /// A leaf holding `panels`, the first of them active.
    pub fn tile(id: TileId, panels: Vec<PanelId>) -> (r: LayoutNode)
        ensures
            r.model() == NodeModel::Leaf(new_tile_model(id@, panel_texts(panels@))),
    {
        LayoutNode::Tile(Tile::new(id, panels))
    }

    /// An empty leaf that survives reconciliation.
    pub fn empty_tile(id: TileId) -> (r: LayoutNode)
        ensures
            r.model() == NodeModel::Leaf(empty_tile_model(id@)),
    {
        LayoutNode::Tile(Tile::empty(id))
    }

    /// A branch; the ratio is clamped into range.
    pub fn split(id: SplitId, axis: SplitAxis, ratio: i64, first: LayoutNode, second: LayoutNode) -> (r:
        LayoutNode)
        ensures
            r.model() == (NodeModel::Branch {
                id: id@,
                axis,
                ratio: clamp_ratio_spec(ratio as int),
                first: Box::new(first.model()),
                second: Box::new(second.model()),
            }),
    {
        LayoutNode::Split {
            id,
            axis,
            ratio: clamp_ratio(ratio),
            first: Box::new(first),
            second: Box::new(second),
        }
    }

    /// A copy with the same model.
    pub fn duplicate(&self) -> (r: LayoutNode)
        ensures
            r.model() == self.model(),
        decreases self,
    {
        match self {
            LayoutNode::Tile(t) => LayoutNode::Tile(t.duplicate()),
            LayoutNode::Split { id, axis, ratio, first, second } => {
                let f = (**first).duplicate();
                let s = (**second).duplicate();
                LayoutNode::Split {
                    id: id.duplicate(),
                    axis: *axis,
                    ratio: *ratio,
                    first: Box::new(f),
                    second: Box::new(s),
                }
            },
        }
    }
}

impl Clone for LayoutNode {
    fn clone(&self) -> (r: Self)
        ensures
            r.model() == self.model(),
    {
        self.duplicate()
    }
}

/// Where a dynamically registered panel should appear if persistence has not
/// seen it before.
#[derive(Clone, Debug, Eq, PartialEq)]
pub struct PanelPlacement {
    pub panel: PanelId,
    pub home: TileId,
    pub zone: DockZone,
}

impl PanelPlacement {
    pub open spec fn model(&self) -> PlacementModel {
        PlacementModel { panel: self.panel@, home: self.home@, zone: self.zone }
    }

    pub fn new(panel: PanelId, home: TileId) -> (r: PanelPlacement)
        ensures
            r.panel@ == panel@,
            r.home@ == home@,
            r.zone == DockZone::Center,
    {
        PanelPlacement { panel, home, zone: DockZone::Center }
    }

    /// Choose how a newly registered panel joins an occupied home tile.
    pub fn with_zone(self, zone: DockZone) -> (r: PanelPlacement)
        ensures
            r.panel@ == self.panel@,
            r.home@ == self.home@,
            r.zone == zone,
    {
        PanelPlacement { zone, ..self }
    }
}

/// Appending an id appends its text.
pub proof fn lemma_panel_texts_push(s: Seq<PanelId>, x: PanelId)
    ensures
        panel_texts(s.push(x)) == panel_texts(s).push(x@),
{
    assert(panel_texts(s.push(x)) =~= panel_texts(s).push(x@));
}

pub open spec fn placement_models(placements: Seq<PanelPlacement>) -> Seq<PlacementModel> {
    placements.map_values(|p: PanelPlacement| p.model())
}

} // verus!
