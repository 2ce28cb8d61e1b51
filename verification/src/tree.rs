//! Operations on the layout tree: lookups, attaching and activating panels,
//! removing panels and tiles, edge splits, pruning and reconciliation.
//! Each operation is stated over `NodeModel` by a spec function of the same
//! name, and the executable version is proved to compute it.
use vstd::prelude::*;

use crate::model::{
    clamp_ratio_spec, zone_axis, zone_before, DockZone, NodeModel, PlacementModel, SplitAxis,
    TileModel, HALF_RATIO,
};

verus! {

// ---------------------------------------------------------------------
// Sets and lists of identities
// ---------------------------------------------------------------------
/// The ids of every tile, in first-child order.
pub open spec fn tile_ids(n: NodeModel) -> Seq<Seq<char>>
    decreases n,
{
    match n {
        NodeModel::Leaf(t) => seq![t.id],
        NodeModel::Branch { first, second, .. } => tile_ids(*first) + tile_ids(*second),
    }
}

/// The ids of every split, parent before children, first child first.
pub open spec fn split_ids(n: NodeModel) -> Seq<Seq<char>>
    decreases n,
{
    match n {
        NodeModel::Leaf(_) => Seq::empty(),
        NodeModel::Branch { id, first, second, .. } => seq![id] + split_ids(*first) + split_ids(
            *second,
        ),
    }
}

/// The ids of every tile, as a set.
pub open spec fn tile_set(n: NodeModel) -> Set<Seq<char>>
    decreases n,
{
    match n {
        NodeModel::Leaf(t) => set![t.id],
        NodeModel::Branch { first, second, .. } => tile_set(*first) + tile_set(*second),
    }
}

/// The ids of every split, as a set.
pub open spec fn split_set(n: NodeModel) -> Set<Seq<char>>
    decreases n,
{
    match n {
        NodeModel::Leaf(_) => Set::empty(),
        NodeModel::Branch { id, first, second, .. } => set![id] + split_set(*first) + split_set(
            *second,
        ),
    }
}

/// Every panel that some tile holds.
pub open spec fn panel_set(n: NodeModel) -> Set<Seq<char>>
    decreases n,
{
    match n {
        NodeModel::Leaf(t) => t.panels.to_set(),
        NodeModel::Branch { first, second, .. } => panel_set(*first) + panel_set(*second),
    }
}

/// The panels the placements register, in order.
pub open spec fn placement_panels(pls: Seq<PlacementModel>) -> Seq<Seq<char>> {
    pls.map_values(|p: PlacementModel| p.panel)
}

/// The homes the placements name, in order.
pub open spec fn placement_homes(pls: Seq<PlacementModel>) -> Seq<Seq<char>> {
    pls.map_values(|p: PlacementModel| p.home)
}

// ---------------------------------------------------------------------
// Lookups
// ---------------------------------------------------------------------
/// The first tile (in first-child order) with this id.
pub open spec fn find_tile(n: NodeModel, id: Seq<char>) -> Option<TileModel>
    decreases n,
{
    match n {
        NodeModel::Leaf(t) => if t.id == id {
            Some(t)
        } else {
            None
        },
        NodeModel::Branch { first, second, .. } => match find_tile(*first, id) {
            Some(t) => Some(t),
            None => find_tile(*second, id),
        },
    }
}

/// The axis and ratio of the first split (parent before children) with
/// this id.
pub open spec fn find_split(n: NodeModel, id: Seq<char>) -> Option<(SplitAxis, int)>
    decreases n,
{
    match n {
        NodeModel::Leaf(_) => None,
        NodeModel::Branch { id: sid, axis, ratio, first, second } => if sid == id {
            Some((axis, ratio))
        } else {
            match find_split(*first, id) {
                Some(found) => Some(found),
                None => find_split(*second, id),
            }
        },
    }
}

/// The id of the first tile that holds the panel.
pub open spec fn find_panel_tile(n: NodeModel, panel: Seq<char>) -> Option<Seq<char>>
    decreases n,
{
    match n {
        NodeModel::Leaf(t) => if t.panels.contains(panel) {
            Some(t.id)
        } else {
            None
        },
        NodeModel::Branch { first, second, .. } => match find_panel_tile(*first, panel) {
            Some(found) => Some(found),
            None => find_panel_tile(*second, panel),
        },
    }
}

/// The id of the leftmost, topmost tile.
pub open spec fn first_tile_id(n: NodeModel) -> Seq<char>
    decreases n,
{
    match n {
        NodeModel::Leaf(t) => t.id,
        NodeModel::Branch { first, .. } => first_tile_id(*first),
    }
}

// ---------------------------------------------------------------------
// Transformations
// ---------------------------------------------------------------------
/// Attach a panel to the first tile with this id, as its active tab.
pub open spec fn attach(n: NodeModel, id: Seq<char>, panel: Seq<char>) -> (NodeModel, bool)
    decreases n,
{
    match n {
        NodeModel::Leaf(t) => if t.id == id {
            (
                NodeModel::Leaf(
                    TileModel {
                        panels: if t.panels.contains(panel) {
                            t.panels
                        } else {
                            t.panels.push(panel)
                        },
                        active: Some(panel),
                        ..t
                    },
                ),
                true,
            )
        } else {
            (n, false)
        },
        NodeModel::Branch { id: sid, axis, ratio, first, second } => {
            let (f, done) = attach(*first, id, panel);
            if done {
                (NodeModel::Branch { id: sid, axis, ratio, first: Box::new(f), second }, true)
            } else {
                let (s, done2) = attach(*second, id, panel);
                (
                    NodeModel::Branch { id: sid, axis, ratio, first: Box::new(f), second: Box::new(s) },
                    done2,
                )
            }
        },
    }
}

/// Bring a panel to the front of the first tile that holds it; the flag
/// says whether the active tab changed.
pub open spec fn activate(n: NodeModel, panel: Seq<char>) -> (NodeModel, bool)
    decreases n,
{
    match n {
        NodeModel::Leaf(t) => if t.panels.contains(panel) {
            (NodeModel::Leaf(TileModel { active: Some(panel), ..t }), t.active != Some(panel))
        } else {
            (n, false)
        },
        NodeModel::Branch { id, axis, ratio, first, second } => {
            let (f, changed) = activate(*first, panel);
            if changed {
                (NodeModel::Branch { id, axis, ratio, first: Box::new(f), second }, true)
            } else {
                let (s, changed2) = activate(*second, panel);
                (
                    NodeModel::Branch { id, axis, ratio, first: Box::new(f), second: Box::new(s) },
                    changed2,
                )
            }
        },
    }
}

/// The panels without any occurrence of `panel`, in order.
pub open spec fn without(panels: Seq<Seq<char>>, panel: Seq<char>) -> Seq<Seq<char>>
    decreases panels.len(),
{
    if panels.len() == 0 {
        panels
    } else {
        let rest = without(panels.drop_last(), panel);
        if panels.last() == panel {
            rest
        } else {
            rest.push(panels.last())
        }
    }
}

/// Keep the active tab if the tile still holds it; otherwise the first tab.
pub open spec fn repair_active(panels: Seq<Seq<char>>, active: Option<Seq<char>>) -> Option<
    Seq<char>,
> {
    match active {
        Some(a) if panels.contains(a) => Some(a),
        _ => if panels.len() > 0 {
            Some(panels[0])
        } else {
            None
        },
    }
}

/// Put two optional subtrees back together: both survive as a branch, a
/// lone survivor takes the branch's place.
pub open spec fn rejoin(
    id: Seq<char>,
    axis: SplitAxis,
    ratio: int,
    first: Option<NodeModel>,
    second: Option<NodeModel>,
) -> Option<NodeModel> {
    match (first, second) {
        (Some(f), Some(s)) => Some(
            NodeModel::Branch { id, axis, ratio, first: Box::new(f), second: Box::new(s) },
        ),
        (Some(f), None) => Some(f),
        (None, Some(s)) => Some(s),
        (None, None) => None,
    }
}

/// Remove a panel everywhere; tiles it leaves empty disappear and their
/// branches collapse. A tile that was empty already (a drop target) stays.
pub open spec fn remove_panel(n: NodeModel, panel: Seq<char>) -> Option<NodeModel>
    decreases n,
{
    match n {
        NodeModel::Leaf(t) => {
            let panels = without(t.panels, panel);
            if t.panels.len() == 0 {
                Some(n)
            } else if panels.len() == 0 {
                None
            } else {
                Some(
                    NodeModel::Leaf(
                        TileModel { panels, active: repair_active(panels, t.active), ..t },
                    ),
                )
            }
        },
        NodeModel::Branch { id, axis, ratio, first, second } => rejoin(
            id,
            axis,
            ratio,
            remove_panel(*first, panel),
            remove_panel(*second, panel),
        ),
    }
}

/// Remove every tile with this id; branches left with one child collapse.
pub open spec fn remove_tile(n: NodeModel, target: Seq<char>) -> Option<NodeModel>
    decreases n,
{
    match n {
        NodeModel::Leaf(t) => if t.id != target {
            Some(n)
        } else {
            None
        },
        NodeModel::Branch { id, axis, ratio, first, second } => rejoin(
            id,
            axis,
            ratio,
            remove_tile(*first, target),
            remove_tile(*second, target),
        ),
    }
}

/// Replace the first tile with id `target` by an even split between it and
/// `tile`, on the zone's side.
pub open spec fn insert_split(
    n: NodeModel,
    target: Seq<char>,
    split_id: Seq<char>,
    tile: TileModel,
    zone: DockZone,
) -> (NodeModel, bool)
    decreases n,
{
    match n {
        NodeModel::Leaf(existing) => if existing.id == target {
            match zone_axis(zone) {
                None => (n, false),
                Some(axis) => {
                    let new = NodeModel::Leaf(tile);
                    let (first, second) = if zone_before(zone) {
                        (new, n)
                    } else {
                        (n, new)
                    };
                    (
                        NodeModel::Branch {
                            id: split_id,
                            axis,
                            ratio: HALF_RATIO as int,
                            first: Box::new(first),
                            second: Box::new(second),
                        },
                        true,
                    )
                },
            }
        } else {
            (n, false)
        },
        NodeModel::Branch { id, axis, ratio, first, second } => {
            let (f, done) = insert_split(*first, target, split_id, tile, zone);
            if done {
                (NodeModel::Branch { id, axis, ratio, first: Box::new(f), second }, true)
            } else {
                let (s, done2) = insert_split(*second, target, split_id, tile, zone);
                (
                    NodeModel::Branch { id, axis, ratio, first: Box::new(f), second: Box::new(s) },
                    done2,
                )
            }
        },
    }
}

/// The first position of `x` in `s`.
pub open spec fn first_index(s: Seq<Seq<char>>, x: Seq<char>) -> Option<int>
    decreases s.len(),
{
    if s.len() == 0 {
        None
    } else if s[0] == x {
        Some(0)
    } else {
        match first_index(s.drop_first(), x) {
            Some(i) => Some(i + 1),
            None => None,
        }
    }
}

/// `first_index` finds the position scanned left to right.
pub proof fn lemma_first_index(s: Seq<Seq<char>>, x: Seq<char>, i: int)
    requires
        0 <= i <= s.len(),
        forall|j: int| 0 <= j < i ==> s[j] != x,
    ensures
        i < s.len() && s[i] == x ==> first_index(s, x) == Some(i),
        i == s.len() ==> first_index(s, x) is None,
    decreases i,
{
    if s.len() > 0 && i > 0 {
        lemma_first_index(s.drop_first(), x, i - 1);
    }
}

/// A list that holds `x` has a first position of it.
pub proof fn lemma_first_index_found(s: Seq<Seq<char>>, x: Seq<char>)
    requires
        s.contains(x),
    ensures
        first_index(s, x) matches Some(i) && 0 <= i < s.len() && s[i] == x,
    decreases s.len(),
{
    if s[0] != x {
        let k = choose|k: int| 0 <= k < s.len() && s[k] == x;
        assert(s.drop_first()[k - 1] == x);
        lemma_first_index_found(s.drop_first(), x);
    }
}

/// The tab that takes a closed tab's place in its row: the one after it,
/// or the one before when it was the last.
pub open spec fn successor(panels: Seq<Seq<char>>, panel: Seq<char>) -> Option<Seq<char>> {
    let rest = without(panels, panel);
    match first_index(panels, panel) {
        Some(i) => if i < rest.len() {
            Some(rest[i])
        } else if rest.len() > 0 {
            Some(rest.last())
        } else {
            None
        },
        None => None,
    }
}

/// A tile without the panel; its successor comes to the front when the
/// panel was the active tab.
pub open spec fn close_tile(t: TileModel, panel: Seq<char>) -> TileModel {
    TileModel {
        panels: without(t.panels, panel),
        active: if t.active == Some(panel) {
            successor(t.panels, panel)
        } else {
            t.active
        },
        ..t
    }
}

/// Close a panel: drop it from the first tile that holds it (the tile
/// stays, even emptied, for reconciliation to judge); when it was the
/// active tab, its successor becomes active. Also says which tile that
/// was and whether the panel was its active tab.
pub open spec fn close(n: NodeModel, panel: Seq<char>) -> (NodeModel, Option<(Seq<char>, bool)>)
    decreases n,
{
    match n {
        NodeModel::Leaf(t) => if t.panels.contains(panel) {
            (NodeModel::Leaf(close_tile(t, panel)), Some((t.id, t.active == Some(panel))))
        } else {
            (n, None)
        },
        NodeModel::Branch { id, axis, ratio, first, second } => {
            let (f, out) = close(*first, panel);
            if out is Some {
                (NodeModel::Branch { id, axis, ratio, first: Box::new(f), second }, out)
            } else {
                let (s, out2) = close(*second, panel);
                (
                    NodeModel::Branch { id, axis, ratio, first: Box::new(f), second: Box::new(s) },
                    out2,
                )
            }
        },
    }
}

/// The id of the rightmost, bottommost tile.
pub open spec fn last_tile_id(n: NodeModel) -> Seq<char>
    decreases n,
{
    match n {
        NodeModel::Leaf(t) => t.id,
        NodeModel::Branch { second, .. } => last_tile_id(*second),
    }
}

/// Whether the node is the tile with this id.
pub open spec fn is_tile(n: NodeModel, id: Seq<char>) -> bool {
    n matches NodeModel::Leaf(t) && t.id == id
}

/// The tile that inherits a tile's space when it goes and its split
/// collapses: the nearest tile of its sibling, which is the sibling's
/// first tile when the sibling follows it and its last when it precedes.
pub open spec fn heir(n: NodeModel, closed: Seq<char>) -> Option<Seq<char>>
    decreases n,
{
    match n {
        NodeModel::Leaf(_) => None,
        NodeModel::Branch { first, second, .. } => if is_tile(*first, closed) {
            Some(first_tile_id(*second))
        } else if is_tile(*second, closed) {
            Some(last_tile_id(*first))
        } else {
            match heir(*first, closed) {
                Some(h) => Some(h),
                None => heir(*second, closed),
            }
        },
    }
}

/// The tile to focus after closing a panel of tile `closed`: that tile
/// while the new tree still has it, else its heir in the old tree, if the
/// new tree has that.
pub open spec fn focus_after_close(previous: NodeModel, closed: Seq<char>, next: NodeModel) -> Option<
    TileModel,
> {
    match find_tile(next, closed) {
        Some(t) => Some(t),
        None => match heir(previous, closed) {
            Some(h) => find_tile(next, h),
            None => None,
        },
    }
}

/// Drop tiles that hold nothing, were not made empty on purpose and are no
/// registered home.
pub open spec fn prune(n: NodeModel, protected: Set<Seq<char>>) -> Option<NodeModel>
    decreases n,
{
    match n {
        NodeModel::Leaf(t) => if t.panels.len() > 0 || t.preserve || protected.contains(t.id) {
            Some(n)
        } else {
            None
        },
        NodeModel::Branch { id, axis, ratio, first, second } => rejoin(
            id,
            axis,
            ratio,
            prune(*first, protected),
            prune(*second, protected),
        ),
    }
}

/// Keep the panels that are available and not yet seen, in order; the
/// seen list grows by those kept.
pub open spec fn retain_new(panels: Seq<Seq<char>>, available: Set<Seq<char>>, seen: Seq<
    Seq<char>,
>) -> (Seq<Seq<char>>, Seq<Seq<char>>)
    decreases panels.len(),
{
    if panels.len() == 0 {
        (panels, seen)
    } else {
        let (kept, seen2) = retain_new(panels.drop_last(), available, seen);
        let p = panels.last();
        if available.contains(p) && !seen2.contains(p) {
            (kept.push(p), seen2.push(p))
        } else {
            (kept, seen2)
        }
    }
}

/// Remove unavailable and repeated panels, repair active tabs and clamp
/// ratios, visiting tiles in first-child order.
pub open spec fn reconcile_node(n: NodeModel, available: Set<Seq<char>>, seen: Seq<Seq<char>>) -> (
    NodeModel,
    Seq<Seq<char>>,
)
    decreases n,
{
    match n {
        NodeModel::Leaf(t) => {
            let (kept, seen2) = retain_new(t.panels, available, seen);
            (
                NodeModel::Leaf(
                    TileModel { panels: kept, active: repair_active(kept, t.active), ..t },
                ),
                seen2,
            )
        },
        NodeModel::Branch { id, axis, ratio, first, second } => {
            let (f, seen1) = reconcile_node(*first, available, seen);
            let (s, seen2) = reconcile_node(*second, available, seen1);
            (
                NodeModel::Branch {
                    id,
                    axis,
                    ratio: clamp_ratio_spec(ratio),
                    first: Box::new(f),
                    second: Box::new(s),
                },
                seen2,
            )
        },
    }
}

/// Set the ratio of the first split (parent before children) with this id.
pub open spec fn set_ratio(n: NodeModel, id: Seq<char>, ratio: int) -> (NodeModel, bool)
    decreases n,
{
    match n {
        NodeModel::Leaf(_) => (n, false),
        NodeModel::Branch { id: sid, axis, ratio: old_ratio, first, second } => if sid == id {
            (NodeModel::Branch { id: sid, axis, ratio, first, second }, true)
        } else {
            let (f, done) = set_ratio(*first, id, ratio);
            if done {
                (
                    NodeModel::Branch { id: sid, axis, ratio: old_ratio, first: Box::new(f), second },
                    true,
                )
            } else {
                let (s, done2) = set_ratio(*second, id, ratio);
                (
                    NodeModel::Branch {
                        id: sid,
                        axis,
                        ratio: old_ratio,
                        first: Box::new(f),
                        second: Box::new(s),
                    },
                    done2,
                )
            }
        },
    }
}

} // verus!
