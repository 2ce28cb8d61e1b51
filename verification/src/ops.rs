//! Executable tree operations, each proved to compute the spec function of
//! the same name in `tree`.
use vstd::prelude::*;

use crate::ids::{PanelId, SplitId, TileId};
use crate::model::{
    clamp_ratio, lemma_panel_texts_push, opt_text, panel_texts, placement_models, split_texts,
    tile_texts, DockZone, LayoutNode, NodeModel, PanelPlacement, SplitAxis, Tile,
    HALF_RATIO,
};
use crate::tree::{
    activate, attach, close, find_panel_tile, first_index, heir, is_tile, last_tile_id,
    lemma_first_index, successor, find_split, find_tile, first_tile_id, insert_split,
    placement_homes, placement_panels, prune, reconcile_node, rejoin, remove_panel, remove_tile,
    repair_active, retain_new, set_ratio, split_ids, tile_ids, without,
};

verus! {

/// Appending a tile id appends its text.
pub proof fn lemma_tile_texts_push(s: Seq<TileId>, x: TileId)
    ensures
        tile_texts(s.push(x)) == tile_texts(s).push(x@),
{
    assert(tile_texts(s.push(x)) =~= tile_texts(s).push(x@));
}

/// Appending a split id appends its text.
pub proof fn lemma_split_texts_push(s: Seq<SplitId>, x: SplitId)
    ensures
        split_texts(s.push(x)) == split_texts(s).push(x@),
{
    assert(split_texts(s.push(x)) =~= split_texts(s).push(x@));
}

/// Whether the list holds the panel.
pub fn panels_contain(panels: &Vec<PanelId>, panel: &PanelId) -> (r: bool)
    ensures
        r == panel_texts(panels@).contains(panel@),
{
    let mut i: usize = 0;
    while i < panels.len()
        invariant
            i <= panels.len(),
            forall|j: int| 0 <= j < i ==> panel_texts(panels@)[j] != panel@,
        decreases panels.len() - i,
    {
        if panels[i].same(panel) {
            assert(panel_texts(panels@)[i as int] == panel@);
            return true;
        }
        i += 1;
    }
    false
}

/// Whether some placement registers the panel.
pub fn placements_have_panel(placements: &[PanelPlacement], panel: &PanelId) -> (r: bool)
    ensures
        r == placement_panels(placement_models(placements@)).contains(panel@),
{
    let ghost ps = placement_panels(placement_models(placements@));
    let mut i: usize = 0;
    while i < placements.len()
        invariant
            i <= placements.len(),
            ps == placement_panels(placement_models(placements@)),
            ps.len() == placements.len(),
            forall|j: int| 0 <= j < i ==> ps[j] != panel@,
        decreases placements.len() - i,
    {
        if placements[i].panel.same(panel) {
            assert(ps[i as int] == panel@);
            return true;
        }
        i += 1;
    }
    false
}

/// Whether some placement names the tile as its home.
pub fn placements_have_home(placements: &[PanelPlacement], tile: &TileId) -> (r: bool)
    ensures
        r == placement_homes(placement_models(placements@)).contains(tile@),
{
    let ghost hs = placement_homes(placement_models(placements@));
    let mut i: usize = 0;
    while i < placements.len()
        invariant
            i <= placements.len(),
            hs == placement_homes(placement_models(placements@)),
            hs.len() == placements.len(),
            forall|j: int| 0 <= j < i ==> hs[j] != tile@,
        decreases placements.len() - i,
    {
        if placements[i].home.same(tile) {
            assert(hs[i as int] == tile@);
            return true;
        }
        i += 1;
    }
    false
}

/// The first tile with this id.
pub fn find_tile_ref<'a>(node: &'a LayoutNode, id: &TileId) -> (r: Option<&'a Tile>)
    ensures
        match r {
            Some(t) => find_tile(node.model(), id@) == Some(t.model()),
            None => find_tile(node.model(), id@) is None,
        },
    decreases node,
{
    match node {
        LayoutNode::Tile(t) => if t.id.same(id) {
            Some(t)
        } else {
            None
        },
        LayoutNode::Split { first, second, .. } => match find_tile_ref(&**first, id) {
            Some(t) => Some(t),
            None => find_tile_ref(&**second, id),
        },
    }
}

/// Whether some tile has this id.
pub fn contains_tile(node: &LayoutNode, id: &TileId) -> (r: bool)
    ensures
        r == find_tile(node.model(), id@) is Some,
{
    find_tile_ref(node, id).is_some()
}

/// The id of the leftmost, topmost tile.
pub fn first_tile_ref(node: &LayoutNode) -> (r: &TileId)
    ensures
        r@ == first_tile_id(node.model()),
    decreases node,
{
    match node {
        LayoutNode::Tile(t) => &t.id,
        LayoutNode::Split { first, .. } => first_tile_ref(&**first),
    }
}

/// The id of the first tile that holds the panel.
pub fn find_panel_tile_ref<'a>(node: &'a LayoutNode, panel: &PanelId) -> (r: Option<&'a TileId>)
    ensures
        match r {
            Some(t) => find_panel_tile(node.model(), panel@) == Some(t@),
            None => find_panel_tile(node.model(), panel@) is None,
        },
    decreases node,
{
    match node {
        LayoutNode::Tile(t) => if panels_contain(&t.panels, panel) {
            Some(&t.id)
        } else {
            None
        },
        LayoutNode::Split { first, second, .. } => match find_panel_tile_ref(&**first, panel) {
            Some(t) => Some(t),
            None => find_panel_tile_ref(&**second, panel),
        },
    }
}

/// The axis and ratio of the first split with this id.
pub fn find_split_of(node: &LayoutNode, id: &SplitId) -> (r: Option<(SplitAxis, i64)>)
    ensures
        match r {
            Some((axis, ratio)) => find_split(node.model(), id@) == Some((axis, ratio as int)),
            None => find_split(node.model(), id@) is None,
        },
    decreases node,
{
    match node {
        LayoutNode::Tile(_) => None,
        LayoutNode::Split { id: sid, axis, ratio, first, second } => if sid.same(id) {
            Some((*axis, *ratio))
        } else {
            match find_split_of(&**first, id) {
                Some(found) => Some(found),
                None => find_split_of(&**second, id),
            }
        },
    }
}

/// Attach a panel to the first tile with this id, as its active tab.
pub fn attach_to_tile(node: LayoutNode, id: &TileId, panel: &PanelId) -> (r: (LayoutNode, bool))
    ensures
        (r.0.model(), r.1) == attach(node.model(), id@, panel@),
    decreases node,
{
    match node {
        LayoutNode::Tile(tile) => {
            let mut tile = tile;
            if tile.id.same(id) {
                let ghost old_tile = tile.model();
                if !panels_contain(&tile.panels, panel) {
                    let d = panel.duplicate();
                    proof {
                        lemma_panel_texts_push(tile.panels@, d);
                    }
                    tile.panels.push(d);
                }
                tile.active = Some(panel.duplicate());
                let r = LayoutNode::Tile(tile);
                proof {
                    let expected = attach(node.model(), id@, panel@);
                    assert(r.model() =~= expected.0);
                }
                (r, true)
            } else {
                (LayoutNode::Tile(tile), false)
            }
        },
        LayoutNode::Split { id: sid, axis, ratio, first, second } => {
            let (f, done) = attach_to_tile(*first, id, panel);
            if done {
                (LayoutNode::Split { id: sid, axis, ratio, first: Box::new(f), second }, true)
            } else {
                let (s, done2) = attach_to_tile(*second, id, panel);
                (
                    LayoutNode::Split {
                        id: sid,
                        axis,
                        ratio,
                        first: Box::new(f),
                        second: Box::new(s),
                    },
                    done2,
                )
            }
        },
    }
}

/// Bring a panel to the front of the first tile that holds it.
pub fn activate_panel(node: LayoutNode, panel: &PanelId) -> (r: (LayoutNode, bool))
    ensures
        (r.0.model(), r.1) == activate(node.model(), panel@),
    decreases node,
{
    match node {
        LayoutNode::Tile(tile) => {
            let mut tile = tile;
            if panels_contain(&tile.panels, panel) {
                let changed = match &tile.active {
                    Some(a) => !a.same(panel),
                    None => true,
                };
                tile.active = Some(panel.duplicate());
                let r = LayoutNode::Tile(tile);
                proof {
                    let expected = activate(node.model(), panel@);
                    assert(r.model() =~= expected.0);
                }
                (r, changed)
            } else {
                (LayoutNode::Tile(tile), false)
            }
        },
        LayoutNode::Split { id, axis, ratio, first, second } => {
            let (f, changed) = activate_panel(*first, panel);
            if changed {
                (LayoutNode::Split { id, axis, ratio, first: Box::new(f), second }, true)
            } else {
                let (s, changed2) = activate_panel(*second, panel);
                (
                    LayoutNode::Split { id, axis, ratio, first: Box::new(f), second: Box::new(s) },
                    changed2,
                )
            }
        },
    }
}

/// The panels without any occurrence of `panel`.
pub fn panels_without(panels: &Vec<PanelId>, panel: &PanelId) -> (r: Vec<PanelId>)
    ensures
        panel_texts(r@) == without(panel_texts(panels@), panel@),
{
    let mut kept: Vec<PanelId> = Vec::new();
    let mut i: usize = 0;
    while i < panels.len()
        invariant
            i <= panels.len(),
            panel_texts(kept@) == without(panel_texts(panels@).take(i as int), panel@),
        decreases panels.len() - i,
    {
        let ghost prefix = panel_texts(panels@).take(i + 1);
        assert(prefix.drop_last() =~= panel_texts(panels@).take(i as int));
        assert(prefix.last() == panels@[i as int]@);
        if !panels[i].same(panel) {
            let d = panels[i].duplicate();
            proof {
                lemma_panel_texts_push(kept@, d);
            }
            kept.push(d);
        }
        i += 1;
    }
    assert(panel_texts(panels@).take(i as int) =~= panel_texts(panels@));
    kept
}

/// Keep the active tab if the list still holds it; otherwise the first.
pub fn repair_active_of(panels: &Vec<PanelId>, active: Option<PanelId>) -> (r: Option<PanelId>)
    ensures
        opt_text(r) == repair_active(panel_texts(panels@), opt_text(active)),
{
    match active {
        Some(a) => {
            if panels_contain(panels, &a) {
                return Some(a);
            }
        },
        None => {},
    }
    if panels.len() > 0 {
        Some(panels[0].duplicate())
    } else {
        None
    }
}

/// The first position of the panel in the list.
fn panel_position(panels: &Vec<PanelId>, panel: &PanelId) -> (r: Option<usize>)
    ensures
        match r {
            Some(i) => first_index(panel_texts(panels@), panel@) == Some(i as int) && i
                < panels.len(),
            None => first_index(panel_texts(panels@), panel@) is None,
        },
{
    let mut i: usize = 0;
    while i < panels.len()
        invariant
            i <= panels.len(),
            forall|j: int| 0 <= j < i ==> panel_texts(panels@)[j] != panel@,
        decreases panels.len() - i,
    {
        if panels[i].same(panel) {
            proof {
                lemma_first_index(panel_texts(panels@), panel@, i as int);
            }
            return Some(i);
        }
        i += 1;
    }
    proof {
        lemma_first_index(panel_texts(panels@), panel@, i as int);
    }
    None
}

/// The tab that takes a closed tab's place: the one after it, or the one
/// before when it was the last.
pub fn successor_of(panels: &Vec<PanelId>, panel: &PanelId) -> (r: Option<PanelId>)
    ensures
        opt_text(r) == successor(panel_texts(panels@), panel@),
{
    let rest = panels_without(panels, panel);
    match panel_position(panels, panel) {
        Some(i) => if i < rest.len() {
            Some(rest[i].duplicate())
        } else if rest.len() > 0 {
            Some(rest[rest.len() - 1].duplicate())
        } else {
            None
        },
        None => None,
    }
}

/// Close a panel in the first tile that holds it; says which tile that was
/// and whether the panel was its active tab.
pub fn close_panel_in(node: LayoutNode, panel: &PanelId) -> (r: (LayoutNode, Option<(TileId, bool)>))
    ensures
        r.0.model() == close(node.model(), panel@).0,
        match r.1 {
            Some((t, a)) => close(node.model(), panel@).1 == Some((t@, a)),
            None => close(node.model(), panel@).1 is None,
        },
    decreases node,
{
    match node {
        LayoutNode::Tile(tile) => {
            if panels_contain(&tile.panels, panel) {
                let was_active = match &tile.active {
                    Some(a) => a.same(panel),
                    None => false,
                };
                let panels = panels_without(&tile.panels, panel);
                let active = if was_active {
                    successor_of(&tile.panels, panel)
                } else {
                    tile.active
                };
                let id = tile.id.duplicate();
                let r = LayoutNode::Tile(
                    Tile {
                        id: tile.id,
                        panels,
                        active,
                        preserve_when_empty: tile.preserve_when_empty,
                    },
                );
                proof {
                    let expected = close(node.model(), panel@);
                    assert(r.model() =~= expected.0);
                }
                (r, Some((id, was_active)))
            } else {
                (LayoutNode::Tile(tile), None)
            }
        },
        LayoutNode::Split { id, axis, ratio, first, second } => {
            let (f, out) = close_panel_in(*first, panel);
            if out.is_some() {
                (LayoutNode::Split { id, axis, ratio, first: Box::new(f), second }, out)
            } else {
                let (s, out2) = close_panel_in(*second, panel);
                (
                    LayoutNode::Split { id, axis, ratio, first: Box::new(f), second: Box::new(s) },
                    out2,
                )
            }
        },
    }
}

/// The id of the rightmost, bottommost tile.
pub fn last_tile_ref(node: &LayoutNode) -> (r: &TileId)
    ensures
        r@ == last_tile_id(node.model()),
    decreases node,
{
    match node {
        LayoutNode::Tile(t) => &t.id,
        LayoutNode::Split { second, .. } => last_tile_ref(&**second),
    }
}

/// Whether the node is the tile with this id.
fn is_tile_node(node: &LayoutNode, id: &TileId) -> (r: bool)
    ensures
        r == is_tile(node.model(), id@),
{
    match node {
        LayoutNode::Tile(t) => t.id.same(id),
        LayoutNode::Split { .. } => false,
    }
}

/// The tile that inherits a tile's space when it goes.
pub fn heir_of<'a>(node: &'a LayoutNode, closed: &TileId) -> (r: Option<&'a TileId>)
    ensures
        match r {
            Some(t) => heir(node.model(), closed@) == Some(t@),
            None => heir(node.model(), closed@) is None,
        },
    decreases node,
{
    match node {
        LayoutNode::Tile(_) => None,
        LayoutNode::Split { first, second, .. } => if is_tile_node(&**first, closed) {
            Some(first_tile_ref(&**second))
        } else if is_tile_node(&**second, closed) {
            Some(last_tile_ref(&**first))
        } else {
            match heir_of(&**first, closed) {
                Some(h) => Some(h),
                None => heir_of(&**second, closed),
            }
        },
    }
}

/// Whether two panel lists hold the same panels in the same order.
pub fn same_panels(a: &Vec<PanelId>, b: &Vec<PanelId>) -> (r: bool)
    ensures
        r == (panel_texts(a@) == panel_texts(b@)),
{
    if a.len() != b.len() {
        assert(panel_texts(a@).len() != panel_texts(b@).len());
        return false;
    }
    let mut i: usize = 0;
    while i < a.len()
        invariant
            i <= a.len(),
            a.len() == b.len(),
            forall|j: int| 0 <= j < i ==> panel_texts(a@)[j] == panel_texts(b@)[j],
        decreases a.len() - i,
    {
        if !a[i].same(&b[i]) {
            assert(panel_texts(a@)[i as int] != panel_texts(b@)[i as int]);
            return false;
        }
        i += 1;
    }
    assert(panel_texts(a@) =~= panel_texts(b@));
    true
}

/// Whether two tiles have the same model.
pub fn same_tile(a: &Tile, b: &Tile) -> (r: bool)
    ensures
        r == (a.model() == b.model()),
{
    if !a.id.same(&b.id) || !same_panels(&a.panels, &b.panels)
        || a.preserve_when_empty != b.preserve_when_empty {
        return false;
    }
    match (&a.active, &b.active) {
        (Some(x), Some(y)) => x.same(y),
        (None, None) => true,
        _ => false,
    }
}

/// Whether two trees have the same model.
pub fn same_tree(a: &LayoutNode, b: &LayoutNode) -> (r: bool)
    ensures
        r == (a.model() == b.model()),
    decreases a,
{
    match (a, b) {
        (LayoutNode::Tile(x), LayoutNode::Tile(y)) => same_tile(x, y),
        (
            LayoutNode::Split { id: i1, axis: x1, ratio: r1, first: f1, second: s1 },
            LayoutNode::Split { id: i2, axis: x2, ratio: r2, first: f2, second: s2 },
        ) => {
            let same_axis = match (x1, x2) {
                (SplitAxis::Horizontal, SplitAxis::Horizontal) => true,
                (SplitAxis::Vertical, SplitAxis::Vertical) => true,
                _ => false,
            };
            i1.same(i2) && same_axis && *r1 == *r2 && same_tree(&**f1, &**f2) && same_tree(
                &**s1,
                &**s2,
            )
        },
        _ => false,
    }
}

/// Put two optional subtrees back together.
pub fn rejoin_nodes(
    id: SplitId,
    axis: SplitAxis,
    ratio: i64,
    first: Option<LayoutNode>,
    second: Option<LayoutNode>,
) -> (r: Option<LayoutNode>)
    ensures
        match r {
            Some(n) => rejoin(
                id@,
                axis,
                ratio as int,
                match first {
                    Some(f) => Some(f.model()),
                    None => None,
                },
                match second {
                    Some(s) => Some(s.model()),
                    None => None,
                },
            ) == Some(n.model()),
            None => rejoin(
                id@,
                axis,
                ratio as int,
                match first {
                    Some(f) => Some(f.model()),
                    None => None,
                },
                match second {
                    Some(s) => Some(s.model()),
                    None => None,
                },
            ) is None,
        },
{
    match (first, second) {
        (Some(f), Some(s)) => Some(
            LayoutNode::Split { id, axis, ratio, first: Box::new(f), second: Box::new(s) },
        ),
        (Some(f), None) => Some(f),
        (None, Some(s)) => Some(s),
        (None, None) => None,
    }
}

pub open spec fn opt_model(n: Option<LayoutNode>) -> Option<NodeModel> {
    match n {
        Some(n) => Some(n.model()),
        None => None,
    }
}

/// Remove a panel everywhere, collapsing what it empties; tiles that were
/// empty already stay.
pub fn remove_panel_from(node: LayoutNode, panel: &PanelId) -> (r: Option<LayoutNode>)
    ensures
        opt_model(r) == remove_panel(node.model(), panel@),
    decreases node,
{
    match node {
        LayoutNode::Tile(tile) => {
            if tile.panels.len() == 0 {
                return Some(LayoutNode::Tile(tile));
            }
            let kept = panels_without(&tile.panels, panel);
            if kept.len() == 0 {
                None
            } else {
                let active = repair_active_of(&kept, tile.active);
                let t = Tile { id: tile.id, panels: kept, active, preserve_when_empty: tile.preserve_when_empty };
                let r = LayoutNode::Tile(t);
                proof {
                    let expected = remove_panel(node.model(), panel@);
                    assert(Some(r.model()) =~= expected);
                }
                Some(r)
            }
        },
        LayoutNode::Split { id, axis, ratio, first, second } => {
            let f = remove_panel_from(*first, panel);
            let s = remove_panel_from(*second, panel);
            rejoin_nodes(id, axis, ratio, f, s)
        },
    }
}

/// Remove every tile with this id, collapsing what it empties.
pub fn remove_tile_from(node: LayoutNode, target: &TileId) -> (r: Option<LayoutNode>)
    ensures
        opt_model(r) == remove_tile(node.model(), target@),
    decreases node,
{
    match node {
        LayoutNode::Tile(tile) => if !tile.id.same(target) {
            Some(LayoutNode::Tile(tile))
        } else {
            None
        },
        LayoutNode::Split { id, axis, ratio, first, second } => {
            let f = remove_tile_from(*first, target);
            let s = remove_tile_from(*second, target);
            rejoin_nodes(id, axis, ratio, f, s)
        },
    }
}

/// Replace the first tile with id `target` by an even split between it and
/// a copy of `tile`.
pub fn insert_split_at(
    node: LayoutNode,
    target: &TileId,
    split_id: &SplitId,
    tile: &Tile,
    zone: DockZone,
) -> (r: (LayoutNode, bool))
    ensures
        (r.0.model(), r.1) == insert_split(node.model(), target@, split_id@, tile.model(), zone),
    decreases node,
{
    match node {
        LayoutNode::Tile(existing) => {
            if existing.id.same(target) {
                match zone.axis() {
                    None => (LayoutNode::Tile(existing), false),
                    Some(axis) => {
                        let old = LayoutNode::Tile(existing);
                        let new = LayoutNode::Tile(tile.duplicate());
                        let r = if zone.before() {
                            LayoutNode::split(split_id.duplicate(), axis, HALF_RATIO, new, old)
                        } else {
                            LayoutNode::split(split_id.duplicate(), axis, HALF_RATIO, old, new)
                        };
                        proof {
                            let expected = insert_split(
                                node.model(),
                                target@,
                                split_id@,
                                tile.model(),
                                zone,
                            );
                            assert(r.model() =~= expected.0);
                        }
                        (r, true)
                    },
                }
            } else {
                (LayoutNode::Tile(existing), false)
            }
        },
        LayoutNode::Split { id, axis, ratio, first, second } => {
            let (f, done) = insert_split_at(*first, target, split_id, tile, zone);
            if done {
                (LayoutNode::Split { id, axis, ratio, first: Box::new(f), second }, true)
            } else {
                let (s, done2) = insert_split_at(*second, target, split_id, tile, zone);
                (
                    LayoutNode::Split { id, axis, ratio, first: Box::new(f), second: Box::new(s) },
                    done2,
                )
            }
        },
    }
}

/// Drop tiles that hold nothing, were not made empty on purpose and are no
/// registered home.
pub fn prune_unclaimed(node: LayoutNode, placements: &[PanelPlacement]) -> (r: Option<LayoutNode>)
    ensures
        opt_model(r) == prune(
            node.model(),
            placement_homes(placement_models(placements@)).to_set(),
        ),
    decreases node,
{
    match node {
        LayoutNode::Tile(tile) => {
            if tile.panels.len() > 0 || tile.preserve_when_empty || placements_have_home(
                placements,
                &tile.id,
            ) {
                Some(LayoutNode::Tile(tile))
            } else {
                None
            }
        },
        LayoutNode::Split { id, axis, ratio, first, second } => {
            let f = prune_unclaimed(*first, placements);
            let s = prune_unclaimed(*second, placements);
            rejoin_nodes(id, axis, ratio, f, s)
        },
    }
}

/// Remove unavailable and repeated panels, repair active tabs and clamp
/// ratios; `seen` collects the panels kept.
pub fn reconcile_tree(node: LayoutNode, placements: &[PanelPlacement], seen: &mut Vec<PanelId>) -> (r:
    LayoutNode)
    ensures
        (r.model(), panel_texts(final(seen)@)) == reconcile_node(
            node.model(),
            placement_panels(placement_models(placements@)).to_set(),
            panel_texts(old(seen)@),
        ),
    decreases node,
{
    let ghost available = placement_panels(placement_models(placements@)).to_set();
    match node {
        LayoutNode::Tile(tile) => {
            let ghost panels = panel_texts(tile.panels@);
            let mut kept: Vec<PanelId> = Vec::new();
            let mut i: usize = 0;
            while i < tile.panels.len()
                invariant
                    i <= tile.panels.len(),
                    panels == panel_texts(tile.panels@),
                    available == placement_panels(placement_models(placements@)).to_set(),
                    (panel_texts(kept@), panel_texts(seen@)) == retain_new(
                        panels.take(i as int),
                        available,
                        panel_texts(old(seen)@),
                    ),
                decreases tile.panels.len() - i,
            {
                let ghost prefix = panels.take(i + 1);
                assert(prefix.drop_last() =~= panels.take(i as int));
                assert(prefix.last() == tile.panels@[i as int]@);
                let p = &tile.panels[i];
                if placements_have_panel(placements, p) && !panels_contain(seen, p) {
                    let d1 = p.duplicate();
                    let d2 = p.duplicate();
                    proof {
                        lemma_panel_texts_push(kept@, d1);
                        lemma_panel_texts_push(seen@, d2);
                    }
                    kept.push(d1);
                    seen.push(d2);
                }
                i += 1;
            }
            assert(panels.take(i as int) =~= panels);
            let active = repair_active_of(&kept, tile.active);
            let t = Tile { id: tile.id, panels: kept, active, preserve_when_empty: tile.preserve_when_empty };
            let r = LayoutNode::Tile(t);
            proof {
                let expected = reconcile_node(node.model(), available, panel_texts(old(seen)@));
                assert(r.model() =~= expected.0);
            }
            r
        },
        LayoutNode::Split { id, axis, ratio, first, second } => {
            let f = reconcile_tree(*first, placements, seen);
            let s = reconcile_tree(*second, placements, seen);
            LayoutNode::Split {
                id,
                axis,
                ratio: clamp_ratio(ratio),
                first: Box::new(f),
                second: Box::new(s),
            }
        },
    }
}

/// Append every tile id, in first-child order.
pub fn collect_tile_ids(node: &LayoutNode, ids: &mut Vec<TileId>)
    ensures
        tile_texts(final(ids)@) == tile_texts(old(ids)@) + tile_ids(node.model()),
    decreases node,
{
    match node {
        LayoutNode::Tile(t) => {
            let d = t.id.duplicate();
            proof {
                lemma_tile_texts_push(ids@, d);
            }
            ids.push(d);
            assert(tile_texts(old(ids)@).push(t.id@) =~= tile_texts(old(ids)@) + tile_ids(
                node.model(),
            ));
        },
        LayoutNode::Split { first, second, .. } => {
            collect_tile_ids(&**first, ids);
            collect_tile_ids(&**second, ids);
            assert(tile_ids(node.model()) == tile_ids((**first).model()) + tile_ids(
                (**second).model(),
            ));
            assert(tile_texts(final(ids)@) =~= tile_texts(old(ids)@) + tile_ids(node.model()));
        },
    }
}

/// Append every split id, parent before children.
pub fn collect_split_ids(node: &LayoutNode, ids: &mut Vec<SplitId>)
    ensures
        split_texts(final(ids)@) == split_texts(old(ids)@) + split_ids(node.model()),
    decreases node,
{
    match node {
        LayoutNode::Tile(_) => {
            assert(split_texts(old(ids)@) =~= split_texts(old(ids)@) + split_ids(node.model()));
        },
        LayoutNode::Split { id, first, second, .. } => {
            let d = id.duplicate();
            proof {
                lemma_split_texts_push(ids@, d);
            }
            ids.push(d);
            collect_split_ids(&**first, ids);
            collect_split_ids(&**second, ids);
            assert(split_texts(final(ids)@) =~= split_texts(old(ids)@) + split_ids(node.model()));
        },
    }
}

/// Set the ratio of the first split with this id.
pub fn set_split_ratio_in(node: LayoutNode, id: &SplitId, ratio: i64) -> (r: (LayoutNode, bool))
    ensures
        (r.0.model(), r.1) == set_ratio(node.model(), id@, ratio as int),
    decreases node,
{
    match node {
        LayoutNode::Tile(t) => (LayoutNode::Tile(t), false),
        LayoutNode::Split { id: sid, axis, ratio: old_ratio, first, second } => {
            if sid.same(id) {
                (LayoutNode::Split { id: sid, axis, ratio, first, second }, true)
            } else {
                let (f, done) = set_split_ratio_in(*first, id, ratio);
                if done {
                    (
                        LayoutNode::Split { id: sid, axis, ratio: old_ratio, first: Box::new(f), second },
                        true,
                    )
                } else {
                    let (s, done2) = set_split_ratio_in(*second, id, ratio);
                    (
                        LayoutNode::Split {
                            id: sid,
                            axis,
                            ratio: old_ratio,
                            first: Box::new(f),
                            second: Box::new(s),
                        },
                        done2,
                    )
                }
            }
        },
    }
}

} // verus!
