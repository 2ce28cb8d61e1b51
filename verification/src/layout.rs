//! The complete layout: the tree plus the format version and the counter
//! that names generated tiles and splits. Every mutation is stated over the
//! model by a spec function in this file.
use vstd::prelude::*;

use crate::ids::{decimal, decimal_text, PanelId, SplitId, TileId};
use crate::model::{
    clamp_ratio_spec, empty_tile_model, lemma_panel_texts_push, new_tile_model, panel_texts,
    placement_models, split_texts, tile_texts, DockZone, LayoutNode, NodeModel, PanelPlacement,
    PlacementModel, SplitAxis, Tile, LAYOUT_VERSION, RATIO_SCALE,
};
use crate::ops::{
    activate_panel, attach_to_tile, close_panel_in, heir_of, collect_split_ids, collect_tile_ids, contains_tile,
    find_panel_tile_ref, find_split_of, find_tile_ref, first_tile_ref, insert_split_at,
    panels_contain, prune_unclaimed, reconcile_tree, remove_panel_from, remove_tile_from,
    set_split_ratio_in,
};
use crate::tree::{
    activate, attach, close, focus_after_close, find_panel_tile, find_split, find_tile, first_tile_id, insert_split,
    first_index, lemma_first_index, placement_panels, placement_homes, prune, reconcile_node,
    remove_panel, remove_tile, set_ratio, split_ids, tile_ids,
};

verus! {

/// 2^64: generated ids are numbered with wrapping 64-bit arithmetic.
pub open spec fn id_space() -> nat {
    0x1_0000_0000_0000_0000
}

/// The counter value `d` steps after `next`, wrapping at 2^64.
pub open spec fn wrap_counter(next: nat, d: nat) -> nat {
    (next + d) % id_space()
}

/// A generated id: a prefix and a decimal number.
pub open spec fn id_name(prefix: Seq<char>, k: nat) -> Seq<char> {
    prefix + decimal(k)
}

/// `d` is the number of taken names the counter steps over before it
/// reaches a free one.
pub open spec fn is_gap(taken: Seq<Seq<char>>, prefix: Seq<char>, next: nat, d: nat) -> bool {
    &&& !taken.contains(id_name(prefix, wrap_counter(next, d)))
    &&& forall|e: nat| e < d ==> taken.contains(#[trigger] id_name(prefix, wrap_counter(next, e)))
}

/// The first free generated id from the counter `next` on, and the counter
/// after it.
pub open spec fn allocate(taken: Seq<Seq<char>>, prefix: Seq<char>, next: nat) -> (Seq<char>, nat) {
    let d = choose|d: nat| is_gap(taken, prefix, next, d);
    (id_name(prefix, wrap_counter(next, d)), wrap_counter(next, d + 1))
}

/// A fresh tile id for the tree.
pub open spec fn allocate_tile(root: NodeModel, next: nat) -> (Seq<char>, nat) {
    allocate(tile_ids(root), "tile-"@, next)
}

/// A fresh split id for the tree.
pub open spec fn allocate_split(root: NodeModel, next: nat) -> (Seq<char>, nat) {
    allocate(split_ids(root), "split-"@, next)
}

/// The tile a late arrival joins: its home if the tree has one, else the
/// first tile.
pub open spec fn arrival_target(root: NodeModel, home: Seq<char>) -> Seq<char> {
    if find_tile(root, home) is Some {
        home
    } else {
        first_tile_id(root)
    }
}

/// Whether the tile exists and holds no panel.
pub open spec fn tile_is_empty(root: NodeModel, id: Seq<char>) -> bool {
    match find_tile(root, id) {
        Some(t) => t.panels.len() == 0,
        None => false,
    }
}

/// Attach every placement from index `i` on that is not yet seen.
pub open spec fn place_all(
    root: NodeModel,
    next: nat,
    seen: Seq<Seq<char>>,
    pls: Seq<PlacementModel>,
    i: nat,
) -> (NodeModel, nat)
    decreases pls.len() - i,
{
    if i >= pls.len() {
        (root, next)
    } else {
        let pl = pls[i as int];
        if seen.contains(pl.panel) {
            place_all(root, next, seen, pls, i + 1)
        } else {
            let target = arrival_target(root, pl.home);
            if pl.zone == DockZone::Center || tile_is_empty(root, target) {
                let (r, done) = attach(root, target, pl.panel);
                place_all(r, next, if done { seen.push(pl.panel) } else { seen }, pls, i + 1)
            } else {
                let (tid, n1) = allocate_tile(root, next);
                let (sid, n2) = allocate_split(root, n1);
                let (r, done) = insert_split(
                    root,
                    target,
                    sid,
                    new_tile_model(tid, seq![pl.panel]),
                    pl.zone,
                );
                place_all(r, n2, if done { seen.push(pl.panel) } else { seen }, pls, i + 1)
            }
        }
    }
}

/// Reconciliation against a registry: prune, repair, then place arrivals.
pub open spec fn reconcile_layout(root: NodeModel, next: nat, pls: Seq<PlacementModel>) -> (
    NodeModel,
    nat,
) {
    let (r1, seen) = reconcile_node(root, placement_panels(pls).to_set(), Seq::empty());
    let r2 = match prune(r1, placement_homes(pls).to_set()) {
        Some(n) => n,
        None => NodeModel::Leaf(empty_tile_model(first_tile_id(root))),
    };
    place_all(r2, next, seen, pls, 0)
}

/// Docking a panel: into a tile's center as a tab, or at an edge as a new
/// split around the tile. The flag says whether it was done.
pub open spec fn dock(root: NodeModel, next: nat, panel: Seq<char>, target: Seq<char>, zone: DockZone) -> (
    NodeModel,
    nat,
    bool,
) {
    match find_panel_tile(root, panel) {
        None => (root, next, false),
        Some(source) => if find_tile(root, target) is None {
            (root, next, false)
        } else if source == target && zone == DockZone::Center {
            let (r, changed) = activate(root, panel);
            (r, next, changed)
        } else if source == target && (match find_tile(root, source) {
            Some(t) => t.panels.len() == 1,
            None => false,
        }) {
            (root, next, false)
        } else {
            match remove_panel(root, panel) {
                None => (root, next, false),
                Some(r1) => if zone == DockZone::Center {
                    let (r2, done) = attach(r1, target, panel);
                    (r2, next, done)
                } else {
                    let (tid, n1) = allocate_tile(r1, next);
                    let (sid, n2) = allocate_split(r1, n1);
                    let (r2, done) = insert_split(
                        r1,
                        target,
                        sid,
                        new_tile_model(tid, seq![panel]),
                        zone,
                    );
                    (r2, n2, done)
                },
            }
        },
    }
}

/// Splitting a tile with a new empty drop target; the new tile's id when
/// done.
pub open spec fn split_tile_spec(root: NodeModel, next: nat, target: Seq<char>, zone: DockZone) -> (
    NodeModel,
    nat,
    Option<Seq<char>>,
) {
    if zone == DockZone::Center || find_tile(root, target) is None {
        (root, next, None)
    } else {
        let (tid, n1) = allocate_tile(root, next);
        let (sid, n2) = allocate_split(root, n1);
        let (r, done) = insert_split(root, target, sid, empty_tile_model(tid), zone);
        (
            r,
            n2,
            if done {
                Some(tid)
            } else {
                None
            },
        )
    }
}

/// Editor-style split: move the active tab out when the group has several,
/// otherwise open an empty sibling.
pub open spec fn split_active_spec(root: NodeModel, next: nat, tile: Seq<char>, zone: DockZone) -> (
    NodeModel,
    nat,
    bool,
) {
    match find_tile(root, tile) {
        Some(t) if t.active is Some && t.panels.len() > 1 => dock(
            root,
            next,
            t.active->0,
            tile,
            zone,
        ),
        _ => {
            let (r, n, made) = split_tile_spec(root, next, tile, zone);
            (r, n, made is Some)
        },
    }
}

/// Closing an empty tile.
pub open spec fn remove_empty_tile_spec(root: NodeModel, tile: Seq<char>) -> (NodeModel, bool) {
    match find_tile(root, tile) {
        Some(t) if t.panels.len() == 0 => match remove_tile(root, tile) {
            Some(r) => (r, true),
            None => (root, false),
        },
        _ => (root, false),
    }
}

/// Moving a panel `delta` tiles along first-child order, wrapping around.
pub open spec fn move_by_tile(root: NodeModel, next: nat, panel: Seq<char>, delta: int) -> (
    NodeModel,
    nat,
    bool,
) {
    let tiles = tile_ids(root);
    if tiles.len() < 2 {
        (root, next, false)
    } else {
        match find_panel_tile(root, panel) {
            None => (root, next, false),
            Some(source) => match first_index(tiles, source) {
                None => (root, next, false),
                Some(index) => dock(
                    root,
                    next,
                    panel,
                    tiles[(index + delta) % (tiles.len() as int)],
                    DockZone::Center,
                ),
            },
        }
    }
}

/// The distinct homes of the placements, in first-registration order.
pub open spec fn distinct_homes(pls: Seq<PlacementModel>) -> Seq<Seq<char>>
    decreases pls.len(),
{
    if pls.len() == 0 {
        Seq::empty()
    } else {
        let d = distinct_homes(pls.drop_last());
        if d.contains(pls.last().home) {
            d
        } else {
            d.push(pls.last().home)
        }
    }
}

/// One empty tile per home from index `i` on, split left to right in equal
/// shares.
pub open spec fn home_chain(homes: Seq<Seq<char>>, i: nat) -> NodeModel
    decreases homes.len() - i,
{
    if i + 1 >= homes.len() {
        NodeModel::Leaf(new_tile_model(homes.last(), Seq::empty()))
    } else {
        NodeModel::Branch {
            id: "wb-home-split-"@ + decimal(i + 1),
            axis: SplitAxis::Horizontal,
            ratio: clamp_ratio_spec(RATIO_SCALE as int / (homes.len() - i)),
            first: Box::new(NodeModel::Leaf(new_tile_model(homes[i as int], Seq::empty()))),
            second: Box::new(home_chain(homes, i + 1)),
        }
    }
}

/// The tree a first-open arrangement starts from, before reconciliation.
pub open spec fn home_root(homes: Seq<Seq<char>>) -> NodeModel {
    if homes.len() == 0 {
        NodeModel::Leaf(empty_tile_model("wb-home"@))
    } else {
        home_chain(homes, 0)
    }
}

/// A generated id: the prefix and the counter's decimal text.
fn make_name(prefix: &str, k: u64) -> (r: String)
    ensures
        r@ == id_name(prefix@, k as nat),
{
    let mut s = String::from_str(prefix);
    let digits = decimal_text(k);
    s.append(digits.as_str());
    s
}

fn tiles_contain(ids: &Vec<TileId>, id: &TileId) -> (r: bool)
    ensures
        r == tile_texts(ids@).contains(id@),
{
    let mut i: usize = 0;
    while i < ids.len()
        invariant
            i <= ids.len(),
            forall|j: int| 0 <= j < i ==> tile_texts(ids@)[j] != id@,
        decreases ids.len() - i,
    {
        if ids[i].same(id) {
            assert(tile_texts(ids@)[i as int] == id@);
            return true;
        }
        i += 1;
    }
    false
}

/// Steps of the counter that land on distinct numbers give distinct names.
pub proof fn lemma_names_distinct(prefix: Seq<char>, next: nat, d: nat, e: nat)
    requires
        next < id_space(),
        e < d,
        d < id_space(),
    ensures
        id_name(prefix, wrap_counter(next, d)) != id_name(prefix, wrap_counter(next, e)),
{
    let a = wrap_counter(next, d);
    let b = wrap_counter(next, e);
    assert(a != b) by {
        let m = id_space() as int;
        assert(next + d < 2 * m);
        if next + d < m {
            assert(a == next + d);
            assert(b == next + e);
        } else if next + e >= m {
            assert(a == next + d - m);
            assert(b == next + e - m);
        } else {
            assert(a == next + d - m);
            assert(b == next + e);
        }
    }
    if id_name(prefix, a) == id_name(prefix, b) {
        crate::ids::lemma_prefix_cancel(prefix, decimal(a), decimal(b));
        crate::ids::lemma_decimal_injective(a, b);
    }
}

/// At most `|taken|` names can be taken, so some step finds a free one.
proof fn lemma_gap_unique(taken: Seq<Seq<char>>, prefix: Seq<char>, next: nat, d: nat)
    requires
        is_gap(taken, prefix, next, d),
    ensures
        allocate(taken, prefix, next) == (
            id_name(prefix, wrap_counter(next, d)),
            wrap_counter(next, d + 1),
        ),
{
    let c = choose|c: nat| is_gap(taken, prefix, next, c);
    assert(is_gap(taken, prefix, next, c));
    if c < d {
        assert(taken.contains(id_name(prefix, wrap_counter(next, c))));
    } else if d < c {
        assert(taken.contains(id_name(prefix, wrap_counter(next, d))));
    }
    assert(c == d);
}

/// The first free id `prefix` + k from the counter on, among `ids`.
fn allocate_from(ids: &Vec<TileId>, prefix: &str, next: &mut u64) -> (r: TileId)
    ensures
        (r@, *final(next) as nat) == allocate(tile_texts(ids@), prefix@, *old(next) as nat),
{
    let ghost taken = tile_texts(ids@);
    let ghost start = *next as nat;
    let ghost mut d: nat = 0;
    let ghost mut tried: Set<Seq<char>> = Set::empty();
    loop
        invariant
            taken == tile_texts(ids@),
            start == *old(next) as nat,
            start < id_space(),
            *next as nat == wrap_counter(start, d),
            forall|e: nat| e < d ==> taken.contains(#[trigger] id_name(prefix@, wrap_counter(start, e))),
            tried.finite(),
            tried.len() == d,
            tried.subset_of(taken.to_set()),
            forall|s: Seq<char>| tried.contains(s) ==> exists|e: nat| e < d && s == #[trigger] id_name(prefix@, wrap_counter(start, e)),
            d <= ids.len(),
        decreases ids.len() - d,
    {
        let name = make_name(prefix, *next);
        let id = TileId::from_string(name);
        proof {
            assert(wrap_counter(start, d + 1) == if *next == u64::MAX { 0 } else { *next + 1 });
        }
        *next = next.wrapping_add(1);
        if !tiles_contain(ids, &id) {
            proof {
                assert(is_gap(taken, prefix@, start, d));
                lemma_gap_unique(taken, prefix@, start, d);
            }
            return id;
        }
        proof {
            let n = id@;
            assert(d < id_space()) by {
                assert(ids.len() <= usize::MAX);
            }
            assert(!tried.contains(n)) by {
                if tried.contains(n) {
                    let e = choose|e: nat| e < d && n == #[trigger] id_name(prefix@, wrap_counter(start, e));
                    lemma_names_distinct(prefix@, start, d, e);
                }
            }
            tried = tried.insert(n);
            d = d + 1;
            assert forall|s: Seq<char>| tried.contains(s) implies exists|e: nat| e < d && s == #[trigger] id_name(prefix@, wrap_counter(start, e)) by {
                if s == n {
                    assert(s == id_name(prefix@, wrap_counter(start, (d - 1) as nat)));
                }
            }
            taken.lemma_cardinality_of_set();
            vstd::set_lib::lemma_len_subset(tried, taken.to_set());
        }
    }
}

/// A fresh tile id for the tree, advancing the counter.
fn allocate_tile_id(root: &LayoutNode, next: &mut u64) -> (r: TileId)
    ensures
        (r@, *final(next) as nat) == allocate_tile(root.model(), *old(next) as nat),
{
    let mut ids: Vec<TileId> = Vec::new();
    collect_tile_ids(root, &mut ids);
    assert(tile_texts(ids@) =~= tile_ids(root.model()));
    proof {
        reveal_strlit("tile-");
    }
    allocate_from(&ids, "tile-", next)
}

/// A fresh split id for the tree, advancing the counter.
fn allocate_split_id(root: &LayoutNode, next: &mut u64) -> (r: SplitId)
    ensures
        (r@, *final(next) as nat) == allocate_split(root.model(), *old(next) as nat),
{
    let mut ids: Vec<SplitId> = Vec::new();
    collect_split_ids(root, &mut ids);
    assert(split_texts(ids@) =~= split_ids(root.model()));
    let mut as_tiles: Vec<TileId> = Vec::new();
    let mut i: usize = 0;
    while i < ids.len()
        invariant
            i <= ids.len(),
            tile_texts(as_tiles@) == split_texts(ids@).take(i as int),
        decreases ids.len() - i,
    {
        let t = TileId::from_string(String::from_str(ids[i].as_str()));
        proof {
            crate::ops::lemma_tile_texts_push(as_tiles@, t);
            assert(split_texts(ids@).take(i + 1) =~= split_texts(ids@).take(i as int).push(
                ids@[i as int]@,
            ));
        }
        as_tiles.push(t);
        i += 1;
    }
    assert(split_texts(ids@).take(i as int) =~= split_texts(ids@));
    let t = allocate_from(&as_tiles, "split-", next);
    SplitId::from_string(String::from_str(t.as_str()))
}



/// The position `delta` steps from `index`, wrapping around `len`.
fn wrapped_index(index: usize, delta: isize, len: usize) -> (r: usize)
    requires
        index < len,
    ensures
        r == (index + delta) % (len as int),
        r < len,
{
    let m: u128 = len as u128;
    let off: usize;
    if delta >= 0 {
        off = (delta as usize) % len;
        proof {
            vstd::arithmetic::div_mod::lemma_add_mod_noop_right(index as int, delta as int, len as int);
        }
    } else {
        let neg: usize = (-(delta + 1)) as usize;
        off = len - 1 - neg % len;
        proof {
            let l = len as int;
            vstd::arithmetic::div_mod::lemma_fundamental_div_mod(neg as int, l);
            assert(index + off == (index + delta) + l * (1 + neg as int / l)) by (nonlinear_arith)
                requires
                    neg as int == l * (neg as int / l) + neg as int % l,
                    off == l - 1 - neg as int % l,
                    neg == -(delta + 1),
            ;
            vstd::arithmetic::div_mod::lemma_mod_multiples_vanish(
                1 + neg as int / l,
                index + delta,
                l,
            );
        }
    }
    let r = ((index as u128 + off as u128) % m) as usize;
    proof {
        vstd::arithmetic::div_mod::lemma_mod_pos_bound((index + off) as int, len as int);
    }
    r
}

/// The first position of the tile id in the list.
fn position_of(ids: &Vec<TileId>, id: &TileId) -> (r: Option<usize>)
    ensures
        match r {
            Some(i) => first_index(tile_texts(ids@), id@) == Some(i as int) && i < ids.len(),
            None => first_index(tile_texts(ids@), id@) is None,
        },
{
    let mut i: usize = 0;
    while i < ids.len()
        invariant
            i <= ids.len(),
            forall|j: int| 0 <= j < i ==> tile_texts(ids@)[j] != id@,
        decreases ids.len() - i,
    {
        if ids[i].same(id) {
            proof {
                lemma_first_index(tile_texts(ids@), id@, i as int);
            }
            return Some(i);
        }
        i += 1;
    }
    proof {
        lemma_first_index(tile_texts(ids@), id@, i as int);
    }
    None
}

/// What closing a panel did: the tile it left, and whether it was that
/// tile's active tab.
#[derive(Clone, Debug, PartialEq, Eq)]
pub struct CloseOutcome {
    tile: TileId,
    was_active: bool,
}

impl CloseOutcome {
    /// The tile the panel left.
    pub closed spec fn tile_of(&self) -> Seq<char> {
        self.tile@
    }

    /// Whether the panel was that tile's active tab.
    pub closed spec fn was_active_of(&self) -> bool {
        self.was_active
    }

    /// The tile the panel left.
    pub fn tile(&self) -> (r: &TileId)
        ensures
            r@ == self.tile_of(),
    {
        &self.tile
    }

    /// Whether the panel was that tile's active tab.
    pub fn was_active(&self) -> (r: bool)
        ensures
            r == self.was_active_of(),
    {
        self.was_active
    }
}

/// Serializable, mutation-safe state for a complete panel workspace.
#[derive(Debug, PartialEq)]
pub struct PanelLayout {
    version: u8,
    next_id: u64,
    pub root: LayoutNode,
}

impl Clone for PanelLayout {
    fn clone(&self) -> (r: Self)
        ensures
            r.version_of() == self.version_of(),
            r.next_id_of() == self.next_id_of(),
            r.tree() == self.tree(),
    {
        self.duplicate()
    }
}

impl PanelLayout {
    /// The format version the layout carries.
    pub closed spec fn version_of(&self) -> u8 {
        self.version
    }

    /// The counter that numbers generated tiles and splits.
    pub closed spec fn next_id_of(&self) -> u64 {
        self.next_id
    }

    /// The model of the tree.
    pub closed spec fn tree(&self) -> NodeModel {
        self.root.model()
    }

    /// A layout of the current format around `root`.
    pub fn new(root: LayoutNode) -> (r: PanelLayout)
        ensures
            r.version_of() == LAYOUT_VERSION,
            r.next_id_of() == 1,
            r.tree() == root.model(),
    {
        PanelLayout { version: LAYOUT_VERSION, next_id: 1, root }
    }

    /// A layout from its persisted parts, exactly as given.
    pub fn from_parts(version: u8, next_id: u64, root: LayoutNode) -> (r: PanelLayout)
        ensures
            r.version_of() == version,
            r.next_id_of() == next_id,
            r.tree() == root.model(),
    {
        PanelLayout { version, next_id, root }
    }

    /// The tree.
    pub fn root_ref(&self) -> (r: &LayoutNode)
        ensures
            r.model() == self.tree(),
    {
        &self.root
    }

    pub fn version(&self) -> (r: u8)
        ensures
            r == self.version_of(),
    {
        self.version
    }

    pub fn next_id(&self) -> (r: u64)
        ensures
            r == self.next_id_of(),
    {
        self.next_id
    }

    /// One tile holding one panel.
    pub fn single(tile: TileId, panel: PanelId) -> (r: PanelLayout)
        ensures
            r.version_of() == LAYOUT_VERSION,
            r.next_id_of() == 1,
            r.tree() == NodeModel::Leaf(new_tile_model(tile@, seq![panel@])),
    {
        let mut panels: Vec<PanelId> = Vec::new();
        proof {
            lemma_panel_texts_push(panels@, panel);
        }
        panels.push(panel);
        assert(panel_texts(panels@) =~= seq![panel@]);
        PanelLayout::new(LayoutNode::tile(tile, panels))
    }

    /// A copy with the same model.
    pub fn duplicate(&self) -> (r: PanelLayout)
        ensures
            r.version_of() == self.version_of(),
            r.next_id_of() == self.next_id_of(),
            r.tree() == self.tree(),
    {
        PanelLayout { version: self.version, next_id: self.next_id, root: self.root.duplicate() }
    }

    /// Move the tree out, leaving an empty placeholder tile behind.
    fn take_root(&mut self) -> (r: LayoutNode)
        ensures
            r.model() == old(self).tree(),
            final(self).version_of() == old(self).version_of(),
            final(self).next_id_of() == old(self).next_id_of(),
    {
        let mut placeholder = LayoutNode::Tile(
            Tile {
                id: TileId::from_string(String::new()),
                panels: Vec::new(),
                active: None,
                preserve_when_empty: false,
            },
        );
        std::mem::swap(&mut self.root, &mut placeholder);
        placeholder
    }

    /// Remove unavailable panel ids, repair active tabs, clamp ratios, and
    /// attach newly registered panels to their home tile (or the first
    /// tile). Unclaimed empty tiles collapse unless they are a registered
    /// home or were made empty on purpose.
    pub fn reconcile(&mut self, placements: &[PanelPlacement])
        ensures
            final(self).version_of() == old(self).version_of(),
            (final(self).tree(), final(self).next_id_of() as nat) == reconcile_layout(
                old(self).tree(),
                old(self).next_id_of() as nat,
                placement_models(placements@),
            ),
    {
        let ghost pls = placement_models(placements@);
        let root = self.take_root();
        let fallback = first_tile_ref(&root).duplicate();
        let mut seen: Vec<PanelId> = Vec::new();
        assert(panel_texts(seen@) =~= Seq::<Seq<char>>::empty());
        let r1 = reconcile_tree(root, placements, &mut seen);
        let mut root = match prune_unclaimed(r1, placements) {
            Some(n) => n,
            None => LayoutNode::empty_tile(fallback),
        };
        let mut next = self.next_id;
        let ghost goal = place_all(root.model(), next as nat, panel_texts(seen@), pls, 0);
        assert(goal == reconcile_layout(old(self).tree(), old(self).next_id_of() as nat, pls));
        let mut i: usize = 0;
        while i < placements.len()
            invariant
                i <= placements.len(),
                pls == placement_models(placements@),
                pls.len() == placements.len(),
                place_all(root.model(), next as nat, panel_texts(seen@), pls, i as nat) == goal,
            decreases placements.len() - i,
        {
            let pl = &placements[i];
            assert(pls[i as int] == pl.model());
            if panels_contain(&seen, &pl.panel) {
                i += 1;
                continue;
            }
            let target = if contains_tile(&root, &pl.home) {
                pl.home.duplicate()
            } else {
                first_tile_ref(&root).duplicate()
            };
            let home_is_empty = match find_tile_ref(&root, &target) {
                Some(t) => t.panels.len() == 0,
                None => false,
            };
            let attached;
            if pl.zone == DockZone::Center || home_is_empty {
                let (r, done) = attach_to_tile(root, &target, &pl.panel);
                root = r;
                attached = done;
            } else {
                let tile_id = allocate_tile_id(&root, &mut next);
                let split_id = allocate_split_id(&root, &mut next);
                let mut panels: Vec<PanelId> = Vec::new();
                let d = pl.panel.duplicate();
                proof {
                    lemma_panel_texts_push(panels@, d);
                }
                panels.push(d);
                assert(panel_texts(panels@) =~= seq![pl.panel@]);
                let tile = Tile::new(tile_id, panels);
                let (r, done) = insert_split_at(root, &target, &split_id, &tile, pl.zone);
                root = r;
                attached = done;
            }
            if attached {
                let d = pl.panel.duplicate();
                proof {
                    lemma_panel_texts_push(seen@, d);
                }
                seen.push(d);
            }
            i += 1;
        }
        self.root = root;
        self.next_id = next;
    }

    /// A reconciled copy; this layout is left alone.
    pub fn reconciled(&self, placements: &[PanelPlacement]) -> (r: PanelLayout)
        ensures
            r.version_of() == self.version_of(),
            (r.tree(), r.next_id_of() as nat) == reconcile_layout(
                self.tree(),
                self.next_id_of() as nat,
                placement_models(placements@),
            ),
    {
        let mut next = self.duplicate();
        next.reconcile(placements);
        next
    }

    /// Bring a panel's tab to the front; true when the active tab changed.
    pub fn activate(&mut self, panel: &PanelId) -> (r: bool)
        ensures
            final(self).version_of() == old(self).version_of(),
            final(self).next_id_of() == old(self).next_id_of(),
            (final(self).tree(), r) == activate(old(self).tree(), panel@),
    {
        let root = self.take_root();
        let (root, changed) = activate_panel(root, panel);
        self.root = root;
        changed
    }

    /// Close a panel: take it out of its tile, which stays even when it
    /// empties (the next reconciliation decides whether it goes); when it
    /// was the active tab, the tab after it, else the one before, comes to
    /// the front. None when no tile holds the panel.
    pub fn close_panel(&mut self, panel: &PanelId) -> (r: Option<CloseOutcome>)
        ensures
            final(self).version_of() == old(self).version_of(),
            final(self).next_id_of() == old(self).next_id_of(),
            final(self).tree() == close(old(self).tree(), panel@).0,
            match r {
                Some(o) => close(old(self).tree(), panel@).1 == Some((o.tile_of(), o.was_active_of())),
                None => close(old(self).tree(), panel@).1 is None,
            },
    {
        let root = self.take_root();
        let (root, out) = close_panel_in(root, panel);
        self.root = root;
        match out {
            Some((tile, was_active)) => Some(CloseOutcome { tile, was_active }),
            None => None,
        }
    }

    /// The tile to focus after closing a panel of tile `closed`, given the
    /// layout that came of it: that tile while `next` still has it, else the
    /// tile of this layout that inherits its space (the nearest tile of its
    /// sibling), if `next` has that one.
    pub fn focus_tile_after_close<'a>(&self, closed: &TileId, next: &'a PanelLayout) -> (r: Option<
        &'a Tile,
    >)
        ensures
            match r {
                Some(t) => focus_after_close(self.tree(), closed@, next.tree()) == Some(t.model()),
                None => focus_after_close(self.tree(), closed@, next.tree()) is None,
            },
    {
        match find_tile_ref(&next.root, closed) {
            Some(t) => Some(t),
            None => match heir_of(&self.root, closed) {
                Some(h) => find_tile_ref(&next.root, h),
                None => None,
            },
        }
    }

    /// The tile that holds the panel.
    pub fn tile_for_panel(&self, panel: &PanelId) -> (r: Option<TileId>)
        ensures
            crate::model::opt_tile_text(r) == find_panel_tile(self.tree(), panel@),
    {
        match find_panel_tile_ref(&self.root, panel) {
            Some(t) => Some(t.duplicate()),
            None => None,
        }
    }

    /// The tile with this id.
    pub fn tile(&self, id: &TileId) -> (r: Option<&Tile>)
        ensures
            match r {
                Some(t) => find_tile(self.tree(), id@) == Some(t.model()),
                None => find_tile(self.tree(), id@) is None,
            },
    {
        find_tile_ref(&self.root, id)
    }

    /// The number of tiles.
    pub fn tile_count(&self) -> (r: usize)
        ensures
            r == tile_ids(self.tree()).len(),
    {
        let mut ids: Vec<TileId> = Vec::new();
        collect_tile_ids(&self.root, &mut ids);
        assert(tile_texts(ids@) =~= tile_ids(self.tree()));
        ids.len()
    }

    /// Every tile id in the tree, in first-child order.
    pub fn tile_ids(&self) -> (r: Vec<TileId>)
        ensures
            tile_texts(r@) == tile_ids(self.tree()),
    {
        let mut ids: Vec<TileId> = Vec::new();
        collect_tile_ids(&self.root, &mut ids);
        assert(tile_texts(ids@) =~= tile_ids(self.tree()));
        ids
    }

    /// Every split id in the tree, parent before children, first child first.
    pub fn split_ids(&self) -> (r: Vec<SplitId>)
        ensures
            split_texts(r@) == split_ids(self.tree()),
    {
        let mut ids: Vec<SplitId> = Vec::new();
        collect_split_ids(&self.root, &mut ids);
        assert(split_texts(ids@) =~= split_ids(self.tree()));
        ids
    }

    /// The ratio of the split with this id, in millionths.
    pub fn split_ratio(&self, id: &SplitId) -> (r: Option<i64>)
        ensures
            match r {
                Some(ratio) => find_split(self.tree(), id@) matches Some((_, x)) && x == ratio,
                None => find_split(self.tree(), id@) is None,
            },
    {
        match find_split_of(&self.root, id) {
            Some((_, ratio)) => Some(ratio),
            None => None,
        }
    }

    /// Set a split's ratio, clamped into range; false when there is no such
    /// split or the clamped ratio is the current one.
    pub fn set_split_ratio(&mut self, id: &SplitId, ratio: i64) -> (r: bool)
        ensures
            final(self).version_of() == old(self).version_of(),
            final(self).next_id_of() == old(self).next_id_of(),
            r == (find_split(old(self).tree(), id@) matches Some((_, current)) && current
                != clamp_ratio_spec(ratio as int)),
            final(self).tree() == if r {
                set_ratio(old(self).tree(), id@, clamp_ratio_spec(ratio as int)).0
            } else {
                old(self).tree()
            },
    {
        match find_split_of(&self.root, id) {
            None => false,
            Some((_, current)) => {
                let next = crate::model::clamp_ratio(ratio);
                if next == current {
                    return false;
                }
                let root = self.take_root();
                let (root, _) = set_split_ratio_in(root, id, next);
                self.root = root;
                true
            },
        }
    }

    /// Move a panel into a tile's center as a tab (an empty drop target
    /// too), or create an edge split around that tile. The tile the panel
    /// leaves collapses when it empties; false when nothing was done.
    pub fn dock_panel(&mut self, panel: &PanelId, target: &TileId, zone: DockZone) -> (r: bool)
        ensures
            final(self).version_of() == old(self).version_of(),
            (final(self).tree(), final(self).next_id_of() as nat, r) == dock(
                old(self).tree(),
                old(self).next_id_of() as nat,
                panel@,
                target@,
                zone,
            ),
    {
        let source = match find_panel_tile_ref(&self.root, panel) {
            None => return false,
            Some(s) => s.duplicate(),
        };
        if !contains_tile(&self.root, target) {
            return false;
        }
        if source.same(target) && zone == DockZone::Center {
            return self.activate(panel);
        }
        if source.same(target) {
            match find_tile_ref(&self.root, &source) {
                Some(t) => if t.panels.len() == 1 {
                    return false;
                },
                None => {},
            }
        }
        let copy = self.root.duplicate();
        let root = match remove_panel_from(copy, panel) {
            None => return false,
            Some(r) => r,
        };
        if zone == DockZone::Center {
            let (root, done) = attach_to_tile(root, target, panel);
            self.root = root;
            return done;
        }
        let mut next = self.next_id;
        let tile_id = allocate_tile_id(&root, &mut next);
        let split_id = allocate_split_id(&root, &mut next);
        let mut panels: Vec<PanelId> = Vec::new();
        let d = panel.duplicate();
        proof {
            lemma_panel_texts_push(panels@, d);
        }
        panels.push(d);
        assert(panel_texts(panels@) =~= seq![panel@]);
        let tile = Tile::new(tile_id, panels);
        let (root, done) = insert_split_at(root, target, &split_id, &tile, zone);
        self.root = root;
        self.next_id = next;
        done
    }

    /// Split a tile without fabricating panel content: the new sibling is
    /// an empty drop target. Its id when done.
    pub fn split_tile(&mut self, target: &TileId, zone: DockZone) -> (r: Option<TileId>)
        ensures
            final(self).version_of() == old(self).version_of(),
            (final(self).tree(), final(self).next_id_of() as nat, crate::model::opt_tile_text(r))
                == split_tile_spec(old(self).tree(), old(self).next_id_of() as nat, target@, zone),
    {
        if zone.axis().is_none() {
            return None;
        }
        if !contains_tile(&self.root, target) {
            return None;
        }
        let mut next = self.next_id;
        let tile_id = allocate_tile_id(&self.root, &mut next);
        let split_id = allocate_split_id(&self.root, &mut next);
        let tile = Tile::empty(tile_id.duplicate());
        let root = self.take_root();
        let (root, inserted) = insert_split_at(root, target, &split_id, &tile, zone);
        self.root = root;
        self.next_id = next;
        if inserted {
            Some(tile_id)
        } else {
            None
        }
    }

    /// Editor-style split: move the active tab out when the group has
    /// several; otherwise open an empty sibling ready for another panel.
    pub fn split_active(&mut self, tile: &TileId, zone: DockZone) -> (r: bool)
        ensures
            final(self).version_of() == old(self).version_of(),
            (final(self).tree(), final(self).next_id_of() as nat, r) == split_active_spec(
                old(self).tree(),
                old(self).next_id_of() as nat,
                tile@,
                zone,
            ),
    {
        let active = match find_tile_ref(&self.root, tile) {
            Some(t) => match &t.active {
                Some(a) => if t.panels.len() > 1 {
                    Some(a.duplicate())
                } else {
                    None
                },
                None => None,
            },
            None => None,
        };
        match active {
            Some(a) => self.dock_panel(&a, tile, zone),
            None => self.split_tile(tile, zone).is_some(),
        }
    }

    /// Move a panel `delta` tiles along first-child order (wrapping) and
    /// attach it there as a tab.
    pub fn move_panel_by_tile(&mut self, panel: &PanelId, delta: isize) -> (r: bool)
        ensures
            final(self).version_of() == old(self).version_of(),
            (final(self).tree(), final(self).next_id_of() as nat, r) == move_by_tile(
                old(self).tree(),
                old(self).next_id_of() as nat,
                panel@,
                delta as int,
            ),
    {
        let tiles = self.tile_ids();
        if tiles.len() < 2 {
            return false;
        }
        let source = match find_panel_tile_ref(&self.root, panel) {
            None => return false,
            Some(s) => s.duplicate(),
        };
        let index = match position_of(&tiles, &source) {
            None => return false,
            Some(i) => i,
        };
        let target_index = wrapped_index(index, delta, tiles.len());
        let target = tiles[target_index].duplicate();
        assert(target@ == tile_texts(tiles@)[target_index as int]);
        self.dock_panel(panel, &target, DockZone::Center)
    }

    /// A first-open arrangement from panel homes alone: one tile per
    /// distinct home, in first-registration order, split left to right in
    /// equal shares, then reconciled so that every panel is attached (and
    /// zone hints apply).
    pub fn from_homes(placements: &[PanelPlacement]) -> (r: PanelLayout)
        ensures
            r.version_of() == LAYOUT_VERSION,
            (r.tree(), r.next_id_of() as nat) == reconcile_layout(
                home_root(distinct_homes(placement_models(placements@))),
                1,
                placement_models(placements@),
            ),
    {
        let ghost pls = placement_models(placements@);
        let mut homes: Vec<TileId> = Vec::new();
        let mut i: usize = 0;
        while i < placements.len()
            invariant
                i <= placements.len(),
                pls == placement_models(placements@),
                tile_texts(homes@) == distinct_homes(pls.take(i as int)),
            decreases placements.len() - i,
        {
            let ghost prefix = pls.take(i + 1);
            assert(prefix.drop_last() =~= pls.take(i as int));
            assert(prefix.last() == placements@[i as int].model());
            let home = &placements[i].home;
            if !tiles_contain(&homes, home) {
                let d = home.duplicate();
                proof {
                    crate::ops::lemma_tile_texts_push(homes@, d);
                }
                homes.push(d);
            }
            i += 1;
        }
        assert(pls.take(i as int) =~= pls);
        let ghost hs = tile_texts(homes@);
        let mut layout = if homes.len() == 0 {
            proof {
                reveal_strlit("wb-home");
            }
            PanelLayout::new(LayoutNode::empty_tile(TileId::new("wb-home")))
        } else {
            let total = homes.len();
            let empty: Vec<PanelId> = Vec::new();
            assert(panel_texts(empty@) =~= Seq::<Seq<char>>::empty());
            let mut node = LayoutNode::tile(homes[total - 1].duplicate(), empty);
            assert(hs.last() == homes@[total - 1]@);
            let mut index = total - 1;
            while index > 0
                invariant
                    0 < total == homes.len(),
                    hs == tile_texts(homes@),
                    index < total,
                    node.model() == home_chain(hs, index as nat),
                decreases index,
            {
                index -= 1;
                let mut name = String::from_str("wb-home-split-");
                let digits = crate::ids::decimal_text((index + 1) as u64);
                name.append(digits.as_str());
                proof {
                    reveal_strlit("wb-home-split-");
                }
                let divisor: u64 = (total - index) as u64;
                let share: i64 = (1_000_000u64 / divisor) as i64;
                assert(share == RATIO_SCALE as int / (hs.len() - index));
                let empty: Vec<PanelId> = Vec::new();
                assert(panel_texts(empty@) =~= Seq::<Seq<char>>::empty());
                let leaf = LayoutNode::tile(homes[index].duplicate(), empty);
                assert(leaf.model() == NodeModel::Leaf(new_tile_model(hs[index as int], Seq::empty())));
                node = LayoutNode::split(
                    SplitId::from_string(name),
                    SplitAxis::Horizontal,
                    share,
                    leaf,
                    node,
                );
                assert(node.model() =~= home_chain(hs, index as nat));
            }
            PanelLayout::new(node)
        };
        layout.reconcile(placements);
        layout
    }

    /// Close a tile that holds no panel.
    pub fn remove_empty_tile(&mut self, tile: &TileId) -> (r: bool)
        ensures
            final(self).version_of() == old(self).version_of(),
            final(self).next_id_of() == old(self).next_id_of(),
            (final(self).tree(), r) == remove_empty_tile_spec(old(self).tree(), tile@),
    {
        let empty = match find_tile_ref(&self.root, tile) {
            Some(t) => t.panels.len() == 0,
            None => false,
        };
        if !empty {
            return false;
        }
        let copy = self.root.duplicate();
        match remove_tile_from(copy, tile) {
            Some(root) => {
                self.root = root;
                true
            },
            None => false,
        }
    }
}

} // verus!
