//! What holds of the library as a whole: validation accepts exactly the
//! well-formed trees; reconciliation registers exactly the registry's
//! panels, leaves placed panels where they are, sends arrivals home and
//! settles; every mutation keeps a layout well formed without losing or
//! duplicating panels.
use vstd::prelude::*;

use crate::layout::{
    allocate, allocate_split, allocate_tile, arrival_target, distinct_homes, dock, home_chain,
    home_root, id_name, id_space, is_gap, move_by_tile, place_all, reconcile_layout,
    remove_empty_tile_spec, split_active_spec, split_tile_spec, tile_is_empty, wrap_counter,
};
use crate::model::{
    clamp_ratio_spec, empty_tile_model, new_tile_model, zone_axis, zone_before, DockZone, SplitAxis, NodeModel, PlacementModel,
    TileModel, LAYOUT_VERSION,
};
use crate::tree::{
    activate, attach, close, close_tile, find_panel_tile, is_tile, find_split, find_tile, first_index,
    first_tile_id, insert_split, lemma_first_index, lemma_first_index_found, panel_set,
    placement_homes, placement_panels, prune, reconcile_node, remove_panel, remove_tile,
    repair_active, retain_new, set_ratio, split_ids, split_set, successor, tile_ids, tile_set,
    without,
};
use crate::interaction::{
    keyboard_dock_spec, splitter_delta_spec, tab_key_target_spec, KeyPress, KeyboardDock,
};
use crate::validate::validation;
use crate::wf::{
    contents_ok, ids_unique, lemma_activate, lemma_attach, lemma_check_node, lemma_find_panel_tile,
    lemma_find_split, lemma_find_tile, lemma_first_tile, lemma_id_lists, lemma_insert_split, lemma_panel_home_unique,
    lemma_prune, lemma_reconcile_node, lemma_remove_panel, lemma_remove_panel_keeps,
    lemma_remove_tile, lemma_retain_new, lemma_seq_to_set_push, lemma_set_ratio, lemma_without,
    ratio_ok, split_axis_at, tile_ok, wf,
};

verus! {

/// The names the counter produces in its first `k` steps.
pub open spec fn names_below(prefix: Seq<char>, next: nat, k: nat) -> Set<Seq<char>>
    decreases k,
{
    if k == 0 {
        Set::empty()
    } else {
        names_below(prefix, next, (k - 1) as nat).insert(
            id_name(prefix, wrap_counter(next, (k - 1) as nat)),
        )
    }
}

proof fn lemma_names_below(prefix: Seq<char>, next: nat, k: nat)
    requires
        next < id_space(),
        k <= id_space(),
    ensures
        names_below(prefix, next, k).finite(),
        names_below(prefix, next, k).len() == k,
        forall|x: Seq<char>| names_below(prefix, next, k).contains(x) ==> exists|e: nat| e < k && x
            == #[trigger] id_name(prefix, wrap_counter(next, e)),
        forall|e: nat| e < k ==> names_below(prefix, next, k).contains(
            #[trigger] id_name(prefix, wrap_counter(next, e)),
        ),
    decreases k,
{
    if k > 0 {
        let j = (k - 1) as nat;
        lemma_names_below(prefix, next, j);
        let x = id_name(prefix, wrap_counter(next, j));
        assert(!names_below(prefix, next, j).contains(x)) by {
            if names_below(prefix, next, j).contains(x) {
                let e = choose|e: nat| e < j && x == #[trigger] id_name(prefix, wrap_counter(next, e));
                crate::layout::lemma_names_distinct(prefix, next, j, e);
            }
        }
        assert forall|y: Seq<char>| names_below(prefix, next, k).contains(y) implies exists|e: nat|
            e < k && y == #[trigger] id_name(prefix, wrap_counter(next, e)) by {
            if y == x {
                assert(y == id_name(prefix, wrap_counter(next, j)));
            }
        }
    }
}

proof fn lemma_gap_search(taken: Seq<Seq<char>>, prefix: Seq<char>, next: nat, d: nat)
    requires
        next < id_space(),
        taken.to_set().len() < id_space(),
        d <= taken.to_set().len(),
        forall|e: nat| e < d ==> taken.contains(#[trigger] id_name(prefix, wrap_counter(next, e))),
    ensures
        exists|g: nat| is_gap(taken, prefix, next, g),
    decreases taken.to_set().len() - d,
{
    if !taken.contains(id_name(prefix, wrap_counter(next, d))) {
        assert(is_gap(taken, prefix, next, d));
    } else {
        vstd::seq_lib::seq_to_set_is_finite(taken);
        lemma_names_below(prefix, next, d + 1);
        assert(names_below(prefix, next, d + 1).subset_of(taken.to_set())) by {
            assert forall|x: Seq<char>| names_below(prefix, next, d + 1).contains(x) implies taken.to_set().contains(
                x,
            ) by {
                let e = choose|e: nat| e < d + 1 && x == #[trigger] id_name(
                    prefix,
                    wrap_counter(next, e),
                );
                if e < d {
                    assert(taken.contains(id_name(prefix, wrap_counter(next, e))));
                }
            }
        }
        vstd::set_lib::lemma_len_subset(names_below(prefix, next, d + 1), taken.to_set());
        lemma_gap_search(taken, prefix, next, d + 1);
    }
}

/// While fewer than 2^64 names are taken, allocation finds a free name and
/// the counter stays a 64-bit value.
pub proof fn lemma_allocate_fresh(taken: Seq<Seq<char>>, prefix: Seq<char>, next: nat)
    requires
        next < id_space(),
        taken.to_set().len() < id_space(),
    ensures
        !taken.contains(allocate(taken, prefix, next).0),
        allocate(taken, prefix, next).1 < id_space(),
{
    lemma_gap_search(taken, prefix, next, 0);
    let d = choose|d: nat| is_gap(taken, prefix, next, d);
    assert(is_gap(taken, prefix, next, d));
}

/// A fresh tile id and a fresh split id for a tree of fewer than 2^64 of
/// each.
pub proof fn lemma_allocate_tree(root: NodeModel, next: nat)
    requires
        next < id_space(),
        tile_set(root).len() < id_space(),
        split_set(root).len() < id_space(),
    ensures
        !tile_set(root).contains(allocate_tile(root, next).0),
        allocate_tile(root, next).1 < id_space(),
        !split_set(root).contains(allocate_split(root, allocate_tile(root, next).1).0),
        allocate_split(root, allocate_tile(root, next).1).1 < id_space(),
{
    lemma_id_lists(root);
    lemma_allocate_fresh(tile_ids(root), "tile-"@, next);
    let n1 = allocate_tile(root, next).1;
    lemma_allocate_fresh(split_ids(root), "split-"@, n1);
}

/// A set that gains one element grows by at most one.
proof fn lemma_insert_len(s: Set<Seq<char>>, x: Seq<char>)
    requires
        s.finite(),
    ensures
        s.insert(x).finite(),
        s.insert(x).len() <= s.len() + 1,
{
    if s.contains(x) {
        assert(s.insert(x) =~= s);
    }
}

/// Placing the arrivals from index `i` on keeps the tree well formed and
/// attaches every one of them that is not yet seen.
proof fn lemma_place_all(
    root: NodeModel,
    next: nat,
    seen: Seq<Seq<char>>,
    pls: Seq<PlacementModel>,
    i: nat,
)
    requires
        i <= pls.len(),
        wf(root),
        next < id_space(),
        panel_set(root) == seen.to_set(),
        tile_set(root).len() + (pls.len() - i) < id_space(),
        split_set(root).len() + (pls.len() - i) < id_space(),
    ensures
        wf(place_all(root, next, seen, pls, i).0),
        place_all(root, next, seen, pls, i).1 < id_space(),
        panel_set(place_all(root, next, seen, pls, i).0) == seen.to_set() + placement_panels(
            pls.subrange(i as int, pls.len() as int),
        ).to_set(),
    decreases pls.len() - i,
{
    let rest = placement_panels(pls.subrange(i as int, pls.len() as int));
    lemma_id_lists(root);
    if i >= pls.len() {
        assert(rest.to_set() =~= Set::<Seq<char>>::empty());
        assert(seen.to_set() + rest.to_set() =~= seen.to_set());
    } else {
        let pl = pls[i as int];
        let later = placement_panels(pls.subrange(i as int + 1, pls.len() as int));
        assert(rest =~= seq![pl.panel] + later);
        crate::wf::lemma_seq_to_set_add(seq![pl.panel], later);
        crate::wf::lemma_singleton_to_set(pl.panel);
        if seen.contains(pl.panel) {
            lemma_place_all(root, next, seen, pls, i + 1);
            assert(seen.to_set() + rest.to_set() =~= seen.to_set() + later.to_set());
        } else {
            let target = arrival_target(root, pl.home);
            lemma_find_tile(root, pl.home);
            lemma_first_tile(root);
            assert(tile_set(root).contains(target));
            assert(!panel_set(root).contains(pl.panel));
            lemma_seq_to_set_push(seen, pl.panel);
            if pl.zone == DockZone::Center || tile_is_empty(root, target) {
                lemma_attach(root, target, pl.panel);
                let (r, done) = attach(root, target, pl.panel);
                lemma_place_all(r, next, seen.push(pl.panel), pls, i + 1);
                assert(seen.push(pl.panel).to_set() + later.to_set() =~= seen.to_set()
                    + rest.to_set());
            } else {
                lemma_allocate_tree(root, next);
                let (tid, n1) = allocate_tile(root, next);
                let (sid, n2) = allocate_split(root, n1);
                let tile = new_tile_model(tid, seq![pl.panel]);
                crate::wf::lemma_singleton_to_set(pl.panel);
                assert(tile.panels.to_set().disjoint(panel_set(root)));
                assert(tile_ok(tile)) by {
                    assert(seq![pl.panel][0] == pl.panel);
                }
                lemma_insert_split(root, target, sid, tile, pl.zone);
                let (r, done) = insert_split(root, target, sid, tile, pl.zone);
                lemma_insert_len(tile_set(root), tid);
                lemma_insert_len(split_set(root), sid);
                assert(panel_set(r) =~= seen.push(pl.panel).to_set());
                lemma_place_all(r, n2, seen.push(pl.panel), pls, i + 1);
                assert(seen.push(pl.panel).to_set() + later.to_set() =~= seen.to_set()
                    + rest.to_set());
            }
        }
    }
}

/// Validation accepts a layout exactly when it carries the current format
/// version and its tree is well formed: tile ids, split ids and panels
/// unique, every active tab one of its tile's panels (none only in an empty
/// tile), every ratio in range.
pub proof fn law_validation_is_well_formedness(version: u8, root: NodeModel)
    ensures
        (validation(version, root) is Ok) == (version == LAYOUT_VERSION && wf(root)),
{
    lemma_check_node(root, Seq::empty(), Seq::empty(), Seq::empty());
    assert(Seq::<Seq<char>>::empty().to_set() =~= Set::<Seq<char>>::empty());
}

/// Reconciliation repairs a tree whose tile and split ids are unique into a
/// well-formed one that holds exactly the registered panels, each once
/// (while the tree and registry stay below 2^64 ids).
pub proof fn law_reconcile_registers_exactly(root: NodeModel, next: nat, pls: Seq<PlacementModel>)
    requires
        ids_unique(root),
        next < id_space(),
        tile_set(root).len() + pls.len() < id_space(),
        split_set(root).len() + pls.len() < id_space(),
    ensures
        wf(reconcile_layout(root, next, pls).0),
        panel_set(reconcile_layout(root, next, pls).0) == placement_panels(pls).to_set(),
        reconcile_layout(root, next, pls).1 < id_space(),
{
    let available = placement_panels(pls).to_set();
    lemma_reconcile_node(root, available, Seq::empty());
    let (r1, seen) = reconcile_node(root, available, Seq::empty());
    assert(Seq::<Seq<char>>::empty().to_set() =~= Set::<Seq<char>>::empty());
    assert(seen.to_set() =~= panel_set(r1));
    lemma_prune(r1, placement_homes(pls).to_set());
    lemma_id_lists(root);
    lemma_id_lists(r1);
    lemma_first_tile(root);
    assert(tile_set(root).len() >= 1) by {
        if tile_set(root).len() == 0 {
            assert(tile_set(root) =~= Set::<Seq<char>>::empty());
        }
    }
    let r2 = match prune(r1, placement_homes(pls).to_set()) {
        Some(n) => n,
        None => NodeModel::Leaf(empty_tile_model(first_tile_id(root))),
    };
    match prune(r1, placement_homes(pls).to_set()) {
        Some(n) => {
            lemma_id_lists(n);
            vstd::set_lib::lemma_len_subset(tile_set(n), tile_set(r1));
            vstd::set_lib::lemma_len_subset(split_set(n), split_set(r1));
        },
        None => {
            assert(tile_set(r2) =~= set![first_tile_id(root)]);
            assert(split_set(r2) =~= Set::<Seq<char>>::empty());
            assert(panel_set(r2) =~= Set::<Seq<char>>::empty());
        },
    }
    assert(pls.subrange(0, pls.len() as int) =~= pls);
    lemma_place_all(r2, next, seen, pls, 0);
    assert(seen.to_set() + available =~= available);
}


/// Every tile holds a panel, was made empty on purpose, or is protected:
/// pruning has nothing left to remove.
pub open spec fn settled(n: NodeModel, protected: Set<Seq<char>>) -> bool
    decreases n,
{
    match n {
        NodeModel::Leaf(t) => t.panels.len() > 0 || t.preserve || protected.contains(t.id),
        NodeModel::Branch { first, second, .. } => settled(*first, protected) && settled(
            *second,
            protected,
        ),
    }
}

proof fn lemma_prune_settles(n: NodeModel, protected: Set<Seq<char>>)
    ensures
        prune(n, protected) matches Some(m) ==> settled(m, protected),
        settled(n, protected) ==> prune(n, protected) == Some(n),
    decreases n,
{
    if let NodeModel::Branch { first, second, .. } = n {
        lemma_prune_settles(*first, protected);
        lemma_prune_settles(*second, protected);
    }
}

proof fn lemma_attach_settled(n: NodeModel, id: Seq<char>, p: Seq<char>, protected: Set<Seq<char>>)
    requires
        settled(n, protected),
    ensures
        settled(attach(n, id, p).0, protected),
    decreases n,
{
    if let NodeModel::Branch { first, second, .. } = n {
        lemma_attach_settled(*first, id, p, protected);
        lemma_attach_settled(*second, id, p, protected);
    }
}

proof fn lemma_insert_split_settled(
    n: NodeModel,
    target: Seq<char>,
    sid: Seq<char>,
    tile: TileModel,
    zone: DockZone,
    protected: Set<Seq<char>>,
)
    requires
        settled(n, protected),
        tile.panels.len() > 0,
    ensures
        settled(insert_split(n, target, sid, tile, zone).0, protected),
    decreases n,
{
    match n {
        NodeModel::Leaf(_) => {
            let r = insert_split(n, target, sid, tile, zone).0;
            assert(settled(NodeModel::Leaf(tile), protected));
            if let NodeModel::Branch { first, second, .. } = r {
                assert(settled(*first, protected) && settled(*second, protected));
            }
        },
        NodeModel::Branch { first, second, .. } => {
            lemma_insert_split_settled(*first, target, sid, tile, zone, protected);
            lemma_insert_split_settled(*second, target, sid, tile, zone, protected);
        },
    }
}

proof fn lemma_place_all_settled(
    root: NodeModel,
    next: nat,
    seen: Seq<Seq<char>>,
    pls: Seq<PlacementModel>,
    i: nat,
    protected: Set<Seq<char>>,
)
    requires
        settled(root, protected),
    ensures
        settled(place_all(root, next, seen, pls, i).0, protected),
    decreases pls.len() - i,
{
    if i < pls.len() {
        let pl = pls[i as int];
        if seen.contains(pl.panel) {
            lemma_place_all_settled(root, next, seen, pls, i + 1, protected);
        } else {
            let target = arrival_target(root, pl.home);
            if pl.zone == DockZone::Center || tile_is_empty(root, target) {
                lemma_attach_settled(root, target, pl.panel, protected);
                let (r, done) = attach(root, target, pl.panel);
                let s2 = if done {
                    seen.push(pl.panel)
                } else {
                    seen
                };
                lemma_place_all_settled(r, next, s2, pls, i + 1, protected);
            } else {
                let (tid, n1) = allocate_tile(root, next);
                let (sid, n2) = allocate_split(root, n1);
                let tile = new_tile_model(tid, seq![pl.panel]);
                lemma_insert_split_settled(root, target, sid, tile, pl.zone, protected);
                let (r, done) = insert_split(root, target, sid, tile, pl.zone);
                let s2 = if done {
                    seen.push(pl.panel)
                } else {
                    seen
                };
                lemma_place_all_settled(r, n2, s2, pls, i + 1, protected);
            }
        }
    }
}

/// Placing arrivals that are all seen already changes nothing.
proof fn lemma_place_all_seen(
    root: NodeModel,
    next: nat,
    seen: Seq<Seq<char>>,
    pls: Seq<PlacementModel>,
    i: nat,
)
    requires
        forall|j: int| i <= j < pls.len() ==> seen.contains(#[trigger] pls[j].panel),
    ensures
        place_all(root, next, seen, pls, i) == (root, next),
    decreases pls.len() - i,
{
    if i < pls.len() {
        assert(seen.contains(pls[i as int].panel));
        lemma_place_all_seen(root, next, seen, pls, i + 1);
    }
}

/// Keeping panels that are all available and new keeps them all.
proof fn lemma_retain_all(ps: Seq<Seq<char>>, available: Set<Seq<char>>, seen: Seq<Seq<char>>)
    requires
        ps.no_duplicates(),
        ps.to_set().subset_of(available),
        ps.to_set().disjoint(seen.to_set()),
    ensures
        retain_new(ps, available, seen) == (ps, seen + ps),
    decreases ps.len(),
{
    if ps.len() == 0 {
        assert(seen + ps =~= seen);
    } else {
        let init = ps.drop_last();
        let p = ps.last();
        assert(init.no_duplicates());
        assert(init.to_set().subset_of(ps.to_set())) by {
            assert forall|x: Seq<char>| init.to_set().contains(x) implies ps.to_set().contains(x) by {
                let k = choose|k: int| 0 <= k < init.len() && init[k] == x;
                assert(ps[k] == x);
            }
        }
        lemma_retain_all(init, available, seen);
        assert(ps.contains(p)) by {
            assert(ps[ps.len() - 1] == p);
        }
        assert(ps.to_set().contains(p));
        assert(!seen.contains(p)) by {
            if seen.contains(p) {
                assert(seen.to_set().contains(p));
            }
        }
        assert(!init.contains(p)) by {
            if init.contains(p) {
                let k = choose|k: int| 0 <= k < init.len() && init[k] == p;
                assert(ps[k] == ps[ps.len() - 1]);
            }
        }
        assert(!(seen + init).contains(p)) by {
            if (seen + init).contains(p) {
                let k = choose|k: int| 0 <= k < (seen + init).len() && (seen + init)[k] == p;
                if k < seen.len() {
                    assert(seen[k] == p);
                } else {
                    assert(init[k - seen.len()] == p);
                }
            }
        }
        assert(init.push(p) =~= ps);
        assert((seen + init).push(p) =~= seen + ps);
    }
}

/// A tree that already holds only available, unseen panels, each once,
/// with valid active tabs and ratios, comes out of reconciliation as it
/// went in.
proof fn lemma_reconcile_node_keeps(n: NodeModel, available: Set<Seq<char>>, seen: Seq<Seq<char>>)
    requires
        contents_ok(n),
        panel_set(n).subset_of(available),
        panel_set(n).disjoint(seen.to_set()),
    ensures
        reconcile_node(n, available, seen).0 == n,
        reconcile_node(n, available, seen).1.to_set() == seen.to_set() + panel_set(n),
    decreases n,
{
    match n {
        NodeModel::Leaf(t) => {
            lemma_retain_all(t.panels, available, seen);
            crate::wf::lemma_seq_to_set_add(seen, t.panels);
            assert(repair_active(t.panels, t.active) == t.active);
            assert(TileModel { panels: t.panels, active: t.active, ..t } == t);
        },
        NodeModel::Branch { id, axis, ratio, first, second } => {
            lemma_reconcile_node_keeps(*first, available, seen);
            let (f, s1) = reconcile_node(*first, available, seen);
            assert(panel_set(*second).disjoint(s1.to_set()));
            lemma_reconcile_node_keeps(*second, available, s1);
            assert(clamp_ratio_spec(ratio) == ratio);
            assert(reconcile_node(n, available, seen).1.to_set() =~= seen.to_set() + panel_set(n));
        },
    }
}

/// Pruning keeps each tile's contents sound and every panel.
proof fn lemma_prune_contents(n: NodeModel, protected: Set<Seq<char>>)
    requires
        contents_ok(n),
    ensures
        match prune(n, protected) {
            Some(m) => contents_ok(m) && panel_set(m) == panel_set(n),
            None => panel_set(n) == Set::<Seq<char>>::empty(),
        },
    decreases n,
{
    match n {
        NodeModel::Leaf(t) => {
            if !(t.panels.len() > 0 || t.preserve || protected.contains(t.id)) {
                assert(t.panels.to_set() =~= Set::<Seq<char>>::empty());
            }
        },
        NodeModel::Branch { first, second, .. } => {
            lemma_prune_contents(*first, protected);
            lemma_prune_contents(*second, protected);
            match (prune(*first, protected), prune(*second, protected)) {
                (Some(f), Some(sn)) => {
                    let m = prune(n, protected)->0;
                    assert(panel_set(m) =~= panel_set(n));
                },
                (Some(f), None) => {
                    assert(panel_set(f) =~= panel_set(n));
                },
                (None, Some(sn)) => {
                    assert(panel_set(sn) =~= panel_set(n));
                },
                (None, None) => {
                    assert(panel_set(n) =~= Set::<Seq<char>>::empty());
                },
            }
        },
    }
}

/// Attaching a panel no tile holds keeps each tile's contents sound.
proof fn lemma_attach_contents(n: NodeModel, id: Seq<char>, p: Seq<char>)
    requires
        contents_ok(n),
        !panel_set(n).contains(p),
    ensures
        contents_ok(attach(n, id, p).0),
        panel_set(attach(n, id, p).0) == if attach(n, id, p).1 {
            panel_set(n).insert(p)
        } else {
            panel_set(n)
        },
        !attach(n, id, p).1 ==> attach(n, id, p).0 == n,
    decreases n,
{
    match n {
        NodeModel::Leaf(t) => {
            if t.id == id {
                assert(!t.panels.contains(p)) by {
                    if t.panels.contains(p) {
                        assert(t.panels.to_set().contains(p));
                    }
                }
                crate::wf::lemma_no_dup_push(t.panels, p);
                lemma_seq_to_set_push(t.panels, p);
                assert(t.panels.push(p)[t.panels.len() as int] == p);
            }
        },
        NodeModel::Branch { first, second, .. } => {
            lemma_attach_contents(*first, id, p);
            let (f, done) = attach(*first, id, p);
            if !done {
                lemma_attach_contents(*second, id, p);
                let (sn, done2) = attach(*second, id, p);
                assert(panel_set(attach(n, id, p).0) =~= if done2 {
                    panel_set(n).insert(p)
                } else {
                    panel_set(n)
                });
            } else {
                assert(panel_set(attach(n, id, p).0) =~= panel_set(n).insert(p));
            }
        },
    }
}

/// An edge split with a sound new tile of new panels keeps each tile's
/// contents sound.
proof fn lemma_insert_split_contents(
    n: NodeModel,
    target: Seq<char>,
    sid: Seq<char>,
    tile: TileModel,
    zone: DockZone,
)
    requires
        contents_ok(n),
        tile_ok(tile),
        tile.panels.to_set().disjoint(panel_set(n)),
    ensures
        contents_ok(insert_split(n, target, sid, tile, zone).0),
        panel_set(insert_split(n, target, sid, tile, zone).0) == if insert_split(
            n,
            target,
            sid,
            tile,
            zone,
        ).1 {
            panel_set(n) + tile.panels.to_set()
        } else {
            panel_set(n)
        },
    decreases n,
{
    match n {
        NodeModel::Leaf(existing) => {
            let m = insert_split(n, target, sid, tile, zone).0;
            if insert_split(n, target, sid, tile, zone).1 {
                let new = NodeModel::Leaf(tile);
                assert(panel_set(new) == tile.panels.to_set());
                assert(contents_ok(new));
                assert(ratio_ok(crate::model::HALF_RATIO as int));
                assert(panel_set(n).disjoint(panel_set(new)));
                assert(panel_set(new).disjoint(panel_set(n)));
                if let NodeModel::Branch { first, second, .. } = m {
                    assert((*first == new && *second == n) || (*first == n && *second == new));
                }
                assert(panel_set(m) =~= panel_set(n) + tile.panels.to_set());
            }
        },
        NodeModel::Branch { first, second, .. } => {
            lemma_insert_split_contents(*first, target, sid, tile, zone);
            lemma_insert_split_contents(*second, target, sid, tile, zone);
            let (f, done) = insert_split(*first, target, sid, tile, zone);
            let (sn, done2) = insert_split(*second, target, sid, tile, zone);
            let m = insert_split(n, target, sid, tile, zone).0;
            if done {
                assert(panel_set(m) =~= panel_set(n) + tile.panels.to_set());
            } else if done2 {
                assert(panel_set(m) =~= panel_set(n) + tile.panels.to_set());
            } else {
                assert(panel_set(m) =~= panel_set(n));
            }
        },
    }
}

/// Attaching to a tile that exists is done.
proof fn lemma_attach_done(n: NodeModel, id: Seq<char>, p: Seq<char>)
    requires
        tile_set(n).contains(id),
    ensures
        attach(n, id, p).1,
    decreases n,
{
    if let NodeModel::Branch { first, second, .. } = n {
        if tile_set(*first).contains(id) {
            lemma_attach_done(*first, id, p);
        } else {
            lemma_attach_done(*second, id, p);
        }
    }
}

/// An edge split around a tile that exists is done.
proof fn lemma_insert_split_done(
    n: NodeModel,
    target: Seq<char>,
    sid: Seq<char>,
    tile: TileModel,
    zone: DockZone,
)
    requires
        tile_set(n).contains(target),
        zone != DockZone::Center,
    ensures
        insert_split(n, target, sid, tile, zone).1,
    decreases n,
{
    if let NodeModel::Branch { first, second, .. } = n {
        if tile_set(*first).contains(target) {
            lemma_insert_split_done(*first, target, sid, tile, zone);
        } else {
            lemma_insert_split_done(*second, target, sid, tile, zone);
        }
    }
}

/// Placing arrivals keeps each tile's contents sound and adds exactly the
/// arrivals not seen yet, whatever the ids.
proof fn lemma_place_all_contents(
    root: NodeModel,
    next: nat,
    seen: Seq<Seq<char>>,
    pls: Seq<PlacementModel>,
    i: nat,
)
    requires
        i <= pls.len(),
        contents_ok(root),
        panel_set(root) == seen.to_set(),
    ensures
        contents_ok(place_all(root, next, seen, pls, i).0),
        panel_set(place_all(root, next, seen, pls, i).0) == seen.to_set() + placement_panels(
            pls.subrange(i as int, pls.len() as int),
        ).to_set(),
    decreases pls.len() - i,
{
    let rest = placement_panels(pls.subrange(i as int, pls.len() as int));
    if i >= pls.len() {
        assert(rest.to_set() =~= Set::<Seq<char>>::empty());
        assert(seen.to_set() + rest.to_set() =~= seen.to_set());
    } else {
        let pl = pls[i as int];
        let later = placement_panels(pls.subrange(i as int + 1, pls.len() as int));
        assert(rest =~= seq![pl.panel] + later);
        crate::wf::lemma_seq_to_set_add(seq![pl.panel], later);
        crate::wf::lemma_singleton_to_set(pl.panel);
        if seen.contains(pl.panel) {
            lemma_place_all_contents(root, next, seen, pls, i + 1);
            assert(seen.to_set() + rest.to_set() =~= seen.to_set() + later.to_set());
        } else {
            let target = arrival_target(root, pl.home);
            assert(!panel_set(root).contains(pl.panel));
            lemma_seq_to_set_push(seen, pl.panel);
            if pl.zone == DockZone::Center || tile_is_empty(root, target) {
                lemma_attach_contents(root, target, pl.panel);
                let (r, done) = attach(root, target, pl.panel);
                if done {
                    lemma_place_all_contents(r, next, seen.push(pl.panel), pls, i + 1);
                    assert(seen.push(pl.panel).to_set() + later.to_set() =~= seen.to_set()
                        + rest.to_set());
                } else {
                    lemma_place_all_contents(r, next, seen, pls, i + 1);
                    assert(false) by {
                        lemma_find_tile(root, pl.home);
                        lemma_first_tile(root);
                        lemma_attach_done(root, target, pl.panel);
                    }
                }
            } else {
                let (tid, n1) = allocate_tile(root, next);
                let (sid, n2) = allocate_split(root, n1);
                let tile = new_tile_model(tid, seq![pl.panel]);
                assert(tile.panels.to_set().disjoint(panel_set(root)));
                assert(tile_ok(tile)) by {
                    assert(seq![pl.panel][0] == pl.panel);
                }
                lemma_insert_split_contents(root, target, sid, tile, pl.zone);
                let (r, done) = insert_split(root, target, sid, tile, pl.zone);
                if done {
                    assert(panel_set(r) =~= seen.push(pl.panel).to_set());
                    lemma_place_all_contents(r, n2, seen.push(pl.panel), pls, i + 1);
                    assert(seen.push(pl.panel).to_set() + later.to_set() =~= seen.to_set()
                        + rest.to_set());
                } else {
                    assert(false) by {
                        lemma_find_tile(root, pl.home);
                        lemma_first_tile(root);
                        lemma_insert_split_done(root, target, sid, tile, pl.zone);
                    }
                }
            }
        }
    }
}

/// Whatever its ids, reconciliation leaves every panel once, only in one
/// tile, with sound active tabs and ratios, and holds exactly the
/// registered panels; with unique ids that makes it well formed (see
/// `law_reconcile_registers_exactly`).
pub proof fn law_reconcile_repairs_contents(root: NodeModel, next: nat, pls: Seq<PlacementModel>)
    ensures
        contents_ok(reconcile_layout(root, next, pls).0),
        panel_set(reconcile_layout(root, next, pls).0) == placement_panels(pls).to_set(),
{
    let available = placement_panels(pls).to_set();
    let homes = placement_homes(pls).to_set();
    assert(Seq::<Seq<char>>::empty().to_set() =~= Set::<Seq<char>>::empty());
    lemma_reconcile_node(root, available, Seq::empty());
    let (r1, seen) = reconcile_node(root, available, Seq::empty());
    lemma_prune_contents(r1, homes);
    let r2 = match prune(r1, homes) {
        Some(m) => m,
        None => NodeModel::Leaf(empty_tile_model(first_tile_id(root))),
    };
    if prune(r1, homes) is None {
        assert(panel_set(r2) =~= Set::<Seq<char>>::empty());
    }
    assert(panel_set(r2) == seen.to_set());
    assert(pls.subrange(0, pls.len() as int) =~= pls);
    lemma_place_all_contents(r2, next, seen, pls, 0);
    assert(seen.to_set() + available =~= available);
}

/// The tiles a registry claims: those marked to survive emptiness and
/// those that are some panel's home.
pub open spec fn claimed(n: NodeModel, homes: Set<Seq<char>>) -> Set<Seq<char>>
    decreases n,
{
    match n {
        NodeModel::Leaf(t) => if t.preserve || homes.contains(t.id) {
            set![t.id]
        } else {
            Set::empty()
        },
        NodeModel::Branch { first, second, .. } => claimed(*first, homes) + claimed(*second, homes),
    }
}

proof fn lemma_reconcile_node_claimed(
    n: NodeModel,
    available: Set<Seq<char>>,
    seen: Seq<Seq<char>>,
    homes: Set<Seq<char>>,
)
    ensures
        claimed(reconcile_node(n, available, seen).0, homes) == claimed(n, homes),
    decreases n,
{
    if let NodeModel::Branch { first, second, .. } = n {
        lemma_reconcile_node_claimed(*first, available, seen, homes);
        let s1 = reconcile_node(*first, available, seen).1;
        lemma_reconcile_node_claimed(*second, available, s1, homes);
    }
}

proof fn lemma_prune_claimed(n: NodeModel, homes: Set<Seq<char>>)
    ensures
        forall|x: Seq<char>| #[trigger]
            claimed(n, homes).contains(x) ==> prune(n, homes) is Some && tile_set(
                prune(n, homes)->0,
            ).contains(x),
    decreases n,
{
    match n {
        NodeModel::Leaf(t) => {
            assert forall|x: Seq<char>| #[trigger] claimed(n, homes).contains(x) implies prune(
                n,
                homes,
            ) is Some && tile_set(prune(n, homes)->0).contains(x) by {
                assert(t.preserve || homes.contains(t.id));
                assert(x == t.id);
            }
        },
        NodeModel::Branch { first, second, .. } => {
            lemma_prune_claimed(*first, homes);
            lemma_prune_claimed(*second, homes);
            assert forall|x: Seq<char>| #[trigger] claimed(n, homes).contains(x) implies prune(
                n,
                homes,
            ) is Some && tile_set(prune(n, homes)->0).contains(x) by {
                if claimed(*first, homes).contains(x) {
                    assert(tile_set(prune(*first, homes)->0).contains(x));
                } else {
                    assert(claimed(*second, homes).contains(x));
                    assert(tile_set(prune(*second, homes)->0).contains(x));
                }
            }
        },
    }
}

proof fn lemma_attach_tiles(n: NodeModel, id: Seq<char>, q: Seq<char>)
    ensures
        tile_set(attach(n, id, q).0) == tile_set(n),
    decreases n,
{
    if let NodeModel::Branch { first, second, .. } = n {
        lemma_attach_tiles(*first, id, q);
        lemma_attach_tiles(*second, id, q);
    }
}

proof fn lemma_insert_split_tiles(
    n: NodeModel,
    target: Seq<char>,
    sid: Seq<char>,
    tile: TileModel,
    zone: DockZone,
)
    ensures
        tile_set(n).subset_of(tile_set(insert_split(n, target, sid, tile, zone).0)),
    decreases n,
{
    if let NodeModel::Branch { first, second, .. } = n {
        lemma_insert_split_tiles(*first, target, sid, tile, zone);
        lemma_insert_split_tiles(*second, target, sid, tile, zone);
    }
}

proof fn lemma_place_all_tiles(
    root: NodeModel,
    next: nat,
    seen: Seq<Seq<char>>,
    pls: Seq<PlacementModel>,
    i: nat,
)
    ensures
        tile_set(root).subset_of(tile_set(place_all(root, next, seen, pls, i).0)),
    decreases pls.len() - i,
{
    if i < pls.len() {
        let pl = pls[i as int];
        if seen.contains(pl.panel) {
            lemma_place_all_tiles(root, next, seen, pls, i + 1);
        } else {
            let target = arrival_target(root, pl.home);
            if pl.zone == DockZone::Center || tile_is_empty(root, target) {
                lemma_attach_tiles(root, target, pl.panel);
                let (r, done) = attach(root, target, pl.panel);
                let s2 = if done {
                    seen.push(pl.panel)
                } else {
                    seen
                };
                lemma_place_all_tiles(r, next, s2, pls, i + 1);
            } else {
                let (tid, n1) = allocate_tile(root, next);
                let (sid, n2) = allocate_split(root, n1);
                let tile = new_tile_model(tid, seq![pl.panel]);
                lemma_insert_split_tiles(root, target, sid, tile, pl.zone);
                let (r, done) = insert_split(root, target, sid, tile, pl.zone);
                let s2 = if done {
                    seen.push(pl.panel)
                } else {
                    seen
                };
                lemma_place_all_tiles(r, n2, s2, pls, i + 1);
            }
        }
    }
}

/// Reconciliation removes only unclaimed empty tiles: afterwards every
/// tile holds a panel, was made empty on purpose, or is a registered home;
/// and every tile that was made empty on purpose or is a registered home
/// is still there.
pub proof fn law_reconcile_prunes_only_unclaimed(root: NodeModel, next: nat, pls: Seq<PlacementModel>)
    ensures
        settled(reconcile_layout(root, next, pls).0, placement_homes(pls).to_set()),
        claimed(root, placement_homes(pls).to_set()).subset_of(
            tile_set(reconcile_layout(root, next, pls).0),
        ),
{
    let available = placement_panels(pls).to_set();
    let homes = placement_homes(pls).to_set();
    let (r1, seen) = reconcile_node(root, available, Seq::empty());
    let r2 = match prune(r1, homes) {
        Some(m) => m,
        None => NodeModel::Leaf(empty_tile_model(first_tile_id(root))),
    };
    lemma_prune_settles(r1, homes);
    lemma_place_all_settled(r2, next, seen, pls, 0, homes);
    lemma_reconcile_node_claimed(root, available, Seq::empty(), homes);
    lemma_prune_claimed(r1, homes);
    lemma_place_all_tiles(r2, next, seen, pls, 0);
    assert forall|x: Seq<char>| claimed(root, homes).contains(x) implies tile_set(
        reconcile_layout(root, next, pls).0,
    ).contains(x) by {
        assert(claimed(r1, homes).contains(x));
    }
}

/// Reconciliation settles: reconciling a layout again against the registry
/// it was just reconciled against changes nothing, neither the tree (tabs,
/// active tabs, ratios, empty drop targets) nor the id counter.
pub proof fn law_reconcile_is_idempotent(root: NodeModel, next: nat, pls: Seq<PlacementModel>)
    ensures
        reconcile_layout(reconcile_layout(root, next, pls).0, reconcile_layout(root, next, pls).1, pls)
            == reconcile_layout(root, next, pls),
{
    let available = placement_panels(pls).to_set();
    let homes = placement_homes(pls).to_set();
    assert(Seq::<Seq<char>>::empty().to_set() =~= Set::<Seq<char>>::empty());
    lemma_reconcile_node(root, available, Seq::empty());
    let (r1, seen) = reconcile_node(root, available, Seq::empty());
    assert(seen.to_set() =~= panel_set(r1));
    lemma_prune_contents(r1, homes);
    let r2 = match prune(r1, homes) {
        Some(m) => m,
        None => NodeModel::Leaf(empty_tile_model(first_tile_id(root))),
    };
    if prune(r1, homes) is None {
        assert(panel_set(r2) =~= Set::<Seq<char>>::empty());
    }
    assert(panel_set(r2) == seen.to_set());
    lemma_prune_settles(r1, homes);
    assert(settled(r2, homes));
    lemma_place_all_settled(r2, next, seen, pls, 0, homes);
    assert(pls.subrange(0, pls.len() as int) =~= pls);
    lemma_place_all_contents(r2, next, seen, pls, 0);
    let (r, n) = reconcile_layout(root, next, pls);
    assert(settled(r, homes));
    assert(panel_set(r) =~= available);
    lemma_reconcile_node_keeps(r, available, Seq::empty());
    let (r1b, seen_b) = reconcile_node(r, available, Seq::empty());
    assert(seen_b.to_set() =~= available);
    lemma_prune_settles(r, homes);
    assert forall|j: int| 0 <= j < pls.len() implies seen_b.contains(#[trigger] pls[j].panel) by {
        assert(placement_panels(pls)[j] == pls[j].panel);
        assert(available.contains(pls[j].panel));
        assert(seen_b.to_set().contains(pls[j].panel));
    }
    lemma_place_all_seen(r, n, seen_b, pls, 0);
}

/// Retaining panels keeps a subset of them.
proof fn lemma_retain_subset(ps: Seq<Seq<char>>, available: Set<Seq<char>>, seen: Seq<Seq<char>>)
    ensures
        forall|x: Seq<char>| #[trigger]
            retain_new(ps, available, seen).0.contains(x) ==> ps.contains(x),
    decreases ps.len(),
{
    if ps.len() > 0 {
        let init = ps.drop_last();
        lemma_retain_subset(init, available, seen);
        assert forall|x: Seq<char>| #[trigger]
            retain_new(ps, available, seen).0.contains(x) implies ps.contains(x) by {
            let kept = retain_new(ps, available, seen).0;
            let k0 = retain_new(init, available, seen).0;
            let last = ps.last();
            assert(kept == k0 || kept == k0.push(last));
            let i = choose|i: int| 0 <= i < kept.len() && kept[i] == x;
            if i < k0.len() {
                assert(k0[i] == x);
                assert(k0.contains(x));
                assert(init.contains(x));
                let j = choose|j: int| 0 <= j < init.len() && init[j] == x;
                assert(ps[j] == x);
            } else {
                assert(x == last);
                assert(ps[ps.len() - 1] == x);
            }
        }
    }
}

/// Reconciling a subtree keeps its tiles, keeps only panels it held, and
/// leaves an available, unseen panel of a tree whose panels are disjoint
/// across tiles in the tile that held it.
proof fn lemma_reconcile_node_tracks(
    n: NodeModel,
    available: Set<Seq<char>>,
    seen: Seq<Seq<char>>,
    p: Seq<char>,
)
    ensures
        tile_set(reconcile_node(n, available, seen).0) == tile_set(n),
        panel_set(reconcile_node(n, available, seen).0).subset_of(panel_set(n)),
        reconcile_node(n, available, seen).1.to_set().subset_of(seen.to_set() + panel_set(n)),
        available.contains(p) && !seen.contains(p) ==> find_panel_tile(
            reconcile_node(n, available, seen).0,
            p,
        ) == find_panel_tile(n, p),
    decreases n,
{
    lemma_find_panel_tile(n, p);
    match n {
        NodeModel::Leaf(t) => {
            lemma_retain_new(t.panels, available, seen);
            lemma_retain_subset(t.panels, available, seen);
            let (kept, s2) = retain_new(t.panels, available, seen);
            crate::wf::lemma_seq_to_set_add(seen, kept);
            assert(kept.to_set().subset_of(t.panels.to_set())) by {
                assert forall|x: Seq<char>| kept.to_set().contains(x) implies t.panels.to_set().contains(
                    x,
                ) by {
                    assert(kept.contains(x));
                }
            }
            if available.contains(p) && !seen.contains(p) && t.panels.contains(p) {
                assert(s2.contains(p));
                let i = choose|i: int| 0 <= i < s2.len() && s2[i] == p;
                if i < seen.len() {
                    assert(seen[i] == p);
                } else {
                    assert(kept[i - seen.len()] == p);
                }
            }
        },
        NodeModel::Branch { first, second, .. } => {
            lemma_reconcile_node_tracks(*first, available, seen, p);
            let (f, s1) = reconcile_node(*first, available, seen);
            lemma_reconcile_node_tracks(*second, available, s1, p);
            let (sn, s2) = reconcile_node(*second, available, s1);
            lemma_find_panel_tile(*first, p);
            lemma_find_panel_tile(f, p);
            lemma_find_panel_tile(*second, p);
            lemma_find_panel_tile(sn, p);
            if available.contains(p) && !seen.contains(p) && !panel_set(*first).contains(p) {
                assert(!s1.to_set().contains(p));
                assert(!s1.contains(p)) by {
                    if s1.contains(p) {
                        assert(s1.to_set().contains(p));
                    }
                }
            }
        },
    }
}

/// Pruning keeps the tile of every panel, and finds no panel where there
/// was none.
proof fn lemma_prune_tracks(n: NodeModel, protected: Set<Seq<char>>, p: Seq<char>)
    ensures
        find_panel_tile(n, p) is Some ==> prune(n, protected) is Some && find_panel_tile(
            prune(n, protected)->0,
            p,
        ) == find_panel_tile(n, p),
        find_panel_tile(n, p) is None && prune(n, protected) is Some ==> find_panel_tile(
            prune(n, protected)->0,
            p,
        ) is None,
    decreases n,
{
    match n {
        NodeModel::Leaf(t) => {
            if t.panels.contains(p) {
                assert(t.panels.len() > 0);
            }
        },
        NodeModel::Branch { first, second, .. } => {
            lemma_prune_tracks(*first, protected, p);
            lemma_prune_tracks(*second, protected, p);
        },
    }
}

/// Pruning keeps every protected tile.
proof fn lemma_prune_keeps_protected(n: NodeModel, protected: Set<Seq<char>>, x: Seq<char>)
    requires
        tile_set(n).contains(x),
        protected.contains(x),
    ensures
        prune(n, protected) is Some,
        tile_set(prune(n, protected)->0).contains(x),
    decreases n,
{
    if let NodeModel::Branch { first, second, .. } = n {
        if tile_set(*first).contains(x) {
            lemma_prune_keeps_protected(*first, protected, x);
            if let Some(s) = prune(*second, protected) {
            }
        } else {
            lemma_prune_keeps_protected(*second, protected, x);
        }
    }
}

/// Attaching one panel moves no other and keeps the tiles.
proof fn lemma_attach_tracks(n: NodeModel, id: Seq<char>, q: Seq<char>, p: Seq<char>)
    requires
        q != p,
    ensures
        find_panel_tile(attach(n, id, q).0, p) == find_panel_tile(n, p),
        tile_set(attach(n, id, q).0) == tile_set(n),
    decreases n,
{
    match n {
        NodeModel::Leaf(t) => {
            if t.id == id && !t.panels.contains(q) {
                assert(t.panels.push(q).contains(p) == t.panels.contains(p)) by {
                    if t.panels.push(q).contains(p) {
                        let i = choose|i: int| 0 <= i < t.panels.push(q).len() && t.panels.push(q)[i] == p;
                        assert(t.panels[i] == p);
                    }
                    if t.panels.contains(p) {
                        let i = choose|i: int| 0 <= i < t.panels.len() && t.panels[i] == p;
                        assert(t.panels.push(q)[i] == p);
                    }
                }
            }
        },
        NodeModel::Branch { first, second, .. } => {
            lemma_attach_tracks(*first, id, q, p);
            lemma_attach_tracks(*second, id, q, p);
        },
    }
}

/// Attaching a panel that no tile holds puts it in the first tile with the
/// id, and that is where it is found.
proof fn lemma_attach_places(n: NodeModel, id: Seq<char>, p: Seq<char>)
    requires
        tile_set(n).contains(id),
        !panel_set(n).contains(p),
    ensures
        attach(n, id, p).1,
        find_panel_tile(attach(n, id, p).0, p) == Some(id),
    decreases n,
{
    match n {
        NodeModel::Leaf(t) => {
            assert(t.panels.push(p)[t.panels.len() as int] == p);
        },
        NodeModel::Branch { first, second, .. } => {
            lemma_find_panel_tile(*first, p);
            if tile_set(*first).contains(id) {
                lemma_attach_places(*first, id, p);
            } else {
                lemma_attach_untouched(*first, id, p);
                lemma_attach_places(*second, id, p);
            }
        },
    }
}

/// Attaching to an id a subtree lacks leaves it as it is.
proof fn lemma_attach_untouched(n: NodeModel, id: Seq<char>, p: Seq<char>)
    requires
        !tile_set(n).contains(id),
    ensures
        attach(n, id, p) == (n, false),
    decreases n,
{
    if let NodeModel::Branch { first, second, .. } = n {
        lemma_attach_untouched(*first, id, p);
        lemma_attach_untouched(*second, id, p);
    }
}

/// An edge split moves no panel the new tile does not hold and keeps every
/// tile.
proof fn lemma_insert_split_tracks(
    n: NodeModel,
    target: Seq<char>,
    sid: Seq<char>,
    tile: TileModel,
    zone: DockZone,
    p: Seq<char>,
)
    requires
        !tile.panels.contains(p),
    ensures
        find_panel_tile(insert_split(n, target, sid, tile, zone).0, p) == find_panel_tile(n, p),
        tile_set(n).subset_of(tile_set(insert_split(n, target, sid, tile, zone).0)),
    decreases n,
{
    match n {
        NodeModel::Leaf(_) => {
            assert(find_panel_tile(NodeModel::Leaf(tile), p) is None);
        },
        NodeModel::Branch { first, second, .. } => {
            lemma_insert_split_tracks(*first, target, sid, tile, zone, p);
            lemma_insert_split_tracks(*second, target, sid, tile, zone, p);
        },
    }
}

/// Once a panel is seen, placing later arrivals leaves it where it is.
proof fn lemma_place_all_keeps(
    root: NodeModel,
    next: nat,
    seen: Seq<Seq<char>>,
    pls: Seq<PlacementModel>,
    i: nat,
    p: Seq<char>,
)
    requires
        seen.contains(p),
    ensures
        find_panel_tile(place_all(root, next, seen, pls, i).0, p) == find_panel_tile(root, p),
    decreases pls.len() - i,
{
    if i < pls.len() {
        let pl = pls[i as int];
        if seen.contains(pl.panel) {
            lemma_place_all_keeps(root, next, seen, pls, i + 1, p);
        } else {
            let target = arrival_target(root, pl.home);
            if pl.zone == DockZone::Center || tile_is_empty(root, target) {
                lemma_attach_tracks(root, target, pl.panel, p);
                let (r, done) = attach(root, target, pl.panel);
                let s2 = if done {
                    seen.push(pl.panel)
                } else {
                    seen
                };
                assert(s2.contains(p)) by {
                    let k = choose|k: int| 0 <= k < seen.len() && seen[k] == p;
                    assert(s2[k] == p);
                }
                lemma_place_all_keeps(r, next, s2, pls, i + 1, p);
            } else {
                let (tid, n1) = allocate_tile(root, next);
                let (sid, n2) = allocate_split(root, n1);
                let tile = new_tile_model(tid, seq![pl.panel]);
                assert(!tile.panels.contains(p)) by {
                    if tile.panels.contains(p) {
                        assert(tile.panels[0] == p);
                    }
                }
                lemma_insert_split_tracks(root, target, sid, tile, pl.zone, p);
                let (r, done) = insert_split(root, target, sid, tile, pl.zone);
                let s2 = if done {
                    seen.push(pl.panel)
                } else {
                    seen
                };
                assert(s2.contains(p)) by {
                    let k = choose|k: int| 0 <= k < seen.len() && seen[k] == p;
                    assert(s2[k] == p);
                }
                lemma_place_all_keeps(r, n2, s2, pls, i + 1, p);
            }
        }
    }
}

/// The first placement of a new panel into the center of a tile that
/// exists puts it in that tile, and the later ones leave it there.
proof fn lemma_place_all_home(
    root: NodeModel,
    next: nat,
    seen: Seq<Seq<char>>,
    pls: Seq<PlacementModel>,
    k: nat,
    i: nat,
)
    requires
        k <= i < pls.len(),
        forall|j: int| k <= j < i ==> #[trigger] pls[j].panel != pls[i as int].panel,
        !seen.contains(pls[i as int].panel),
        !panel_set(root).contains(pls[i as int].panel),
        tile_set(root).contains(pls[i as int].home),
        pls[i as int].zone == DockZone::Center,
    ensures
        find_panel_tile(place_all(root, next, seen, pls, k).0, pls[i as int].panel) == Some(
            pls[i as int].home,
        ),
    decreases i - k,
{
    let p = pls[i as int].panel;
    let pl = pls[k as int];
    lemma_find_tile(root, pls[i as int].home);
    lemma_find_panel_tile(root, p);
    if k == i {
        assert(arrival_target(root, pl.home) == pl.home);
        lemma_attach_places(root, pl.home, p);
        let r = attach(root, pl.home, p).0;
        assert(seen.push(p)[seen.len() as int] == p);
        lemma_place_all_keeps(r, next, seen.push(p), pls, k + 1, p);
    } else {
        assert(pl.panel != p);
        if seen.contains(pl.panel) {
            lemma_place_all_home(root, next, seen, pls, k + 1, i);
        } else {
            let target = arrival_target(root, pl.home);
            if pl.zone == DockZone::Center || tile_is_empty(root, target) {
                lemma_attach_tracks(root, target, pl.panel, p);
                let (r, done) = attach(root, target, pl.panel);
                let s2 = if done {
                    seen.push(pl.panel)
                } else {
                    seen
                };
                lemma_find_panel_tile(r, p);
                assert(!s2.contains(p)) by {
                    if s2.contains(p) {
                        let m = choose|m: int| 0 <= m < s2.len() && s2[m] == p;
                        if m < seen.len() {
                            assert(seen[m] == p);
                        }
                    }
                }
                lemma_place_all_home(r, next, s2, pls, k + 1, i);
            } else {
                let (tid, n1) = allocate_tile(root, next);
                let (sid, n2) = allocate_split(root, n1);
                let tile = new_tile_model(tid, seq![pl.panel]);
                assert(!tile.panels.contains(p)) by {
                    if tile.panels.contains(p) {
                        assert(tile.panels[0] == p);
                    }
                }
                lemma_insert_split_tracks(root, target, sid, tile, pl.zone, p);
                let (r, done) = insert_split(root, target, sid, tile, pl.zone);
                let s2 = if done {
                    seen.push(pl.panel)
                } else {
                    seen
                };
                lemma_find_panel_tile(r, p);
                assert(!s2.contains(p)) by {
                    if s2.contains(p) {
                        let m = choose|m: int| 0 <= m < s2.len() && s2[m] == p;
                        if m < seen.len() {
                            assert(seen[m] == p);
                        }
                    }
                }
                lemma_place_all_home(r, n2, s2, pls, k + 1, i);
            }
        }
    }
}

/// Reconciliation leaves every registered panel that a layout already
/// holds in the (first) tile that holds it: a panel's home matters only
/// for a panel the layout does not hold yet.
pub proof fn law_reconcile_keeps_placed_panels(
    root: NodeModel,
    next: nat,
    pls: Seq<PlacementModel>,
    p: Seq<char>,
)
    requires
        panel_set(root).contains(p),
        placement_panels(pls).contains(p),
    ensures
        find_panel_tile(reconcile_layout(root, next, pls).0, p) == find_panel_tile(root, p),
{
    let available = placement_panels(pls).to_set();
    let homes = placement_homes(pls).to_set();
    assert(available.contains(p));
    assert(!Seq::<Seq<char>>::empty().contains(p));
    lemma_reconcile_node_tracks(root, available, Seq::empty(), p);
    lemma_reconcile_node(root, available, Seq::empty());
    let (r1, seen) = reconcile_node(root, available, Seq::empty());
    lemma_find_panel_tile(root, p);
    lemma_prune_tracks(r1, homes, p);
    let r2 = prune(r1, homes)->0;
    assert(seen.contains(p));
    lemma_place_all_keeps(r2, next, seen, pls, 0, p);
}

/// A panel that a layout does not hold yet, registered with a home tile
/// that the layout has, joins that tile as a tab when reconciled, unless
/// its home zone asks for an edge (the first registration of a panel
/// counts).
pub proof fn law_reconcile_sends_arrivals_home(
    root: NodeModel,
    next: nat,
    pls: Seq<PlacementModel>,
    i: int,
)
    requires
        0 <= i < pls.len(),
        forall|j: int| 0 <= j < i ==> #[trigger] pls[j].panel != pls[i].panel,
        !panel_set(root).contains(pls[i].panel),
        tile_set(root).contains(pls[i].home),
        pls[i].zone == DockZone::Center,
    ensures
        find_panel_tile(reconcile_layout(root, next, pls).0, pls[i].panel) == Some(pls[i].home),
{
    let p = pls[i].panel;
    let available = placement_panels(pls).to_set();
    let homes = placement_homes(pls).to_set();
    lemma_reconcile_node_tracks(root, available, Seq::empty(), p);
    let (r1, seen) = reconcile_node(root, available, Seq::empty());
    assert(Seq::<Seq<char>>::empty().to_set() =~= Set::<Seq<char>>::empty());
    assert(!seen.contains(p)) by {
        if seen.contains(p) {
            assert(seen.to_set().contains(p));
        }
    }
    assert(placement_homes(pls)[i] == pls[i].home);
    assert(homes.contains(pls[i].home));
    lemma_prune_keeps_protected(r1, homes, pls[i].home);
    let r2 = prune(r1, homes)->0;
    lemma_prune_tracks(r1, homes, p);
    lemma_find_panel_tile(r1, p);
    lemma_find_panel_tile(r2, p);
    lemma_place_all_home(r2, next, seen, pls, 0, i as nat);
}

/// Without its only occurrence, a list loses exactly that position.
proof fn lemma_without_at(ps: Seq<Seq<char>>, p: Seq<char>, i: int)
    requires
        ps.no_duplicates(),
        0 <= i < ps.len(),
        ps[i] == p,
    ensures
        without(ps, p) == ps.remove(i),
    decreases ps.len(),
{
    let init = ps.drop_last();
    if i == ps.len() - 1 {
        assert(!init.contains(p)) by {
            if init.contains(p) {
                let k = choose|k: int| 0 <= k < init.len() && init[k] == p;
                assert(ps[k] == ps[i]);
            }
        }
        lemma_without(init, p);
        assert(init =~= ps.remove(i));
    } else {
        assert(ps.last() != p) by {
            assert(ps[ps.len() - 1] != ps[i]);
        }
        assert(init.no_duplicates());
        assert(init[i] == p);
        lemma_without_at(init, p, i);
        assert(init.remove(i).push(ps.last()) =~= ps.remove(i));
    }
}

/// The successor of a tab that is there is one of the remaining tabs, and
/// none only when no tab remains.
proof fn lemma_successor(ps: Seq<Seq<char>>, p: Seq<char>)
    requires
        ps.contains(p),
    ensures
        successor(ps, p) matches Some(a) ==> without(ps, p).contains(a),
        successor(ps, p) is None ==> without(ps, p).len() == 0,
{
    lemma_first_index_found(ps, p);
    let rest = without(ps, p);
    if let Some(i) = first_index(ps, p) {
        if i < rest.len() {
            assert(rest[i] == rest[i]);
        } else if rest.len() > 0 {
            assert(rest[rest.len() - 1] == rest.last());
        }
    }
}

/// Closing a panel in a well-formed tree, in detail.
proof fn lemma_close(n: NodeModel, p: Seq<char>)
    requires
        wf(n),
    ensures
        (close(n, p).1 is Some) == panel_set(n).contains(p),
        close(n, p).1 is None ==> close(n, p).0 == n,
        wf(close(n, p).0),
        tile_ids(close(n, p).0) == tile_ids(n),
        split_ids(close(n, p).0) == split_ids(n),
        tile_set(close(n, p).0) == tile_set(n),
        split_set(close(n, p).0) == split_set(n),
        panel_set(close(n, p).0) == panel_set(n).remove(p),
        close(n, p).1 matches Some((x, was)) ==> {
            &&& find_panel_tile(n, p) == Some(x)
            &&& find_tile(n, x) matches Some(t) && was == (t.active == Some(p)) && find_tile(
                close(n, p).0,
                x,
            ) == Some(close_tile(t, p))
        },
    decreases n,
{
    match n {
        NodeModel::Leaf(t) => {
            lemma_without(t.panels, p);
            if t.panels.contains(p) {
                lemma_successor(t.panels, p);
                let u = close_tile(t, p);
                assert(t.panels.to_set().contains(p));
                if let Some(a) = u.active {
                    if t.active != Some(p) {
                        assert(t.panels.to_set().contains(a));
                        assert(t.panels.to_set().remove(p).contains(a));
                        assert(u.panels.to_set().contains(a));
                    }
                } else {
                    if t.active != Some(p) {
                        assert(t.panels.len() == 0);
                    }
                }
                assert(tile_ok(u));
            } else {
                assert(!t.panels.to_set().contains(p));
                assert(t.panels.to_set().remove(p) =~= t.panels.to_set());
            }
        },
        NodeModel::Branch { id, axis, ratio, first, second } => {
            lemma_close(*first, p);
            lemma_close(*second, p);
            lemma_find_panel_tile(*first, p);
            lemma_find_panel_tile(*second, p);
            let (f, out) = close(*first, p);
            let m = close(n, p).0;
            if out is Some {
                assert(!panel_set(*second).contains(p));
                assert(panel_set(m) =~= panel_set(n).remove(p));
                if let Some((x, was)) = out {
                    lemma_find_tile(*first, x);
                    lemma_find_tile(f, x);
                }
            } else {
                assert(f == *first);
                let (s, out2) = close(*second, p);
                assert(panel_set(m) =~= panel_set(n).remove(p));
                if let Some((x, was)) = out2 {
                    lemma_find_tile(*first, x);
                    lemma_find_tile(*second, x);
                    lemma_find_panel_tile(*second, p);
                    assert(!tile_set(*first).contains(x));
                }
            }
        },
    }
}

/// Closing a panel of a valid layout takes out exactly that panel and
/// keeps the layout valid, with every tile and split where it was (a tile
/// it empties stays for reconciliation to judge). It reports the tile that
/// held the panel and whether the panel was its active tab; a panel no
/// tile holds changes nothing and reports nothing.
pub proof fn law_close_takes_out_one_panel(root: NodeModel, p: Seq<char>)
    requires
        wf(root),
    ensures
        wf(close(root, p).0),
        tile_ids(close(root, p).0) == tile_ids(root),
        split_ids(close(root, p).0) == split_ids(root),
        panel_set(close(root, p).0) == panel_set(root).remove(p),
        !panel_set(root).contains(p) ==> close(root, p) == (root, None::<(Seq<char>, bool)>),
        panel_set(root).contains(p) ==> close(root, p).1 == Some(
            (
                find_panel_tile(root, p)->0,
                find_tile(root, find_panel_tile(root, p)->0)->0.active == Some(p),
            ),
        ),
{
    lemma_close(root, p);
    lemma_find_panel_tile(root, p);
}

/// When the closed panel was its tile's active tab, the tab right of it
/// comes to the front, else the one left of it; a tile left with no tab
/// shows none. The other tabs keep their order.
pub proof fn law_close_fronts_a_neighbour(root: NodeModel, p: Seq<char>, x: Seq<char>, i: int)
    requires
        wf(root),
        find_tile(root, x) matches Some(t) && 0 <= i < t.panels.len() && t.panels[i] == p
            && t.active == Some(p),
    ensures
        find_tile(close(root, p).0, x) matches Some(u) && {
            let ps = find_tile(root, x)->0.panels;
            &&& u.panels == ps.remove(i)
            &&& u.active == if i + 1 < ps.len() {
                Some(ps[i + 1])
            } else if i > 0 {
                Some(ps[i - 1])
            } else {
                None
            }
        },
{
    let t = find_tile(root, x)->0;
    let ps = t.panels;
    lemma_find_tile(root, x);
    assert(ps.contains(p));
    lemma_panel_home_unique(root, p, x);
    lemma_find_panel_tile(root, p);
    lemma_close(root, p);
    assert(forall|j: int| 0 <= j < i ==> ps[j] != p) by {
        assert forall|j: int| 0 <= j < i implies ps[j] != p by {
            assert(ps.no_duplicates());
        }
    }
    lemma_first_index(ps, p, i);
    lemma_without_at(ps, p, i);
    let rest = ps.remove(i);
    if i + 1 < ps.len() {
        assert(rest[i] == ps[i + 1]);
    } else if i > 0 {
        assert(rest.last() == ps[i - 1]);
    }
}

/// Docking never loses or duplicates a panel and keeps the layout well
/// formed, also into an empty drop target. A dock that is not done changes
/// nothing; a center dock leaves the panel in the target tile, an edge dock
/// in a new tile beside it.
pub proof fn law_dock_keeps_panels(
    root: NodeModel,
    next: nat,
    p: Seq<char>,
    target: Seq<char>,
    zone: DockZone,
)
    requires
        wf(root),
        next < id_space(),
        tile_set(root).len() < id_space(),
        split_set(root).len() < id_space(),
    ensures
        wf(dock(root, next, p, target, zone).0),
        panel_set(dock(root, next, p, target, zone).0) == panel_set(root),
        dock(root, next, p, target, zone).1 < id_space(),
        !dock(root, next, p, target, zone).2 ==> dock(root, next, p, target, zone).0 == root,
        dock(root, next, p, target, zone).2 && zone == DockZone::Center ==> find_panel_tile(
            dock(root, next, p, target, zone).0,
            p,
        ) == Some(target),
        dock(root, next, p, target, zone).2 && zone != DockZone::Center ==> find_panel_tile(
            dock(root, next, p, target, zone).0,
            p,
        ) is Some && find_panel_tile(dock(root, next, p, target, zone).0, p) != Some(target),
{
    lemma_find_panel_tile(root, p);
    lemma_find_tile(root, target);
    lemma_id_lists(root);
    if find_panel_tile(root, p) is None || find_tile(root, target) is None {
        return;
    }
    let source = find_panel_tile(root, p)->0;
    let t = find_tile(root, target)->0;
    assert(tile_ok(t));
    if source == target && zone == DockZone::Center {
        lemma_activate(root, p);
        lemma_panel_home_unique(activate(root, p).0, p, target);
        return;
    }
    if source == target && t.panels.len() == 1 {
        return;
    }
    lemma_without(t.panels, p);
    if source != target {
        assert(!t.panels.contains(p)) by {
            if t.panels.contains(p) {
                lemma_panel_home_unique(root, p, target);
            }
        }
        assert(without(t.panels, p).len() > 0 || t.panels.len() == 0);
    } else {
        assert(t.panels.contains(p));
        assert(t.panels.no_duplicates());
        assert(without(t.panels, p).len() > 0) by {
            t.panels.unique_seq_to_set();
            assert(t.panels.to_set().contains(p));
            if without(t.panels, p).len() == 0 {
                assert(without(t.panels, p).to_set() =~= Set::<Seq<char>>::empty());
                assert(t.panels.to_set() =~= set![p]);
                assert(set![p].len() == 1);
            }
        }
    }
    lemma_remove_panel_keeps(root, p, target);
    lemma_remove_panel(root, p);
    let r1 = remove_panel(root, p)->0;
    lemma_find_tile(r1, target);
    assert(panel_set(root).contains(p));
    if zone == DockZone::Center {
        lemma_attach(r1, target, p);
        let m = attach(r1, target, p).0;
        assert(panel_set(m) =~= panel_set(root));
        lemma_panel_home_unique(m, p, target);
    } else {
        lemma_id_lists(r1);
        vstd::set_lib::lemma_len_subset(tile_set(r1), tile_set(root));
        vstd::set_lib::lemma_len_subset(split_set(r1), split_set(root));
        lemma_allocate_tree(r1, next);
        let (tid, n1) = allocate_tile(r1, next);
        let (sid, n2) = allocate_split(r1, n1);
        let tile = new_tile_model(tid, seq![p]);
        crate::wf::lemma_singleton_to_set(p);
        assert(tile.panels.to_set().disjoint(panel_set(r1)));
        assert(tile_ok(tile)) by {
            assert(seq![p][0] == p);
        }
        lemma_insert_split(r1, target, sid, tile, zone);
        let m = insert_split(r1, target, sid, tile, zone).0;
        assert(panel_set(m) =~= panel_set(root));
        assert(seq![p].contains(p)) by {
            assert(seq![p][0] == p);
        }
        lemma_panel_home_unique(m, p, tid);
    }
}


/// Attaching to one tile leaves every tile with another id as it was.
proof fn lemma_attach_others(n: NodeModel, id: Seq<char>, q: Seq<char>, x: Seq<char>)
    requires
        x != id,
    ensures
        find_tile(attach(n, id, q).0, x) == find_tile(n, x),
    decreases n,
{
    if let NodeModel::Branch { first, second, .. } = n {
        lemma_attach_others(*first, id, q, x);
        lemma_attach_others(*second, id, q, x);
    }
}

/// Removing a panel leaves a tile that does not hold it as it was.
proof fn lemma_remove_panel_others(n: NodeModel, p: Seq<char>, x: Seq<char>)
    requires
        wf(n),
        find_tile(n, x) matches Some(t) ==> !t.panels.contains(p),
    ensures
        find_tile(n, x) is Some ==> remove_panel(n, p) is Some,
        remove_panel(n, p) matches Some(m) ==> find_tile(m, x) == find_tile(n, x),
    decreases n,
{
    lemma_remove_panel(n, p);
    match n {
        NodeModel::Leaf(t) => {
            if t.id == x {
                lemma_without(t.panels, p);
                if t.panels.len() > 0 {
                    assert(repair_active(t.panels, t.active) == t.active);
                    assert(TileModel { panels: t.panels, active: t.active, ..t } == t);
                }
            }
        },
        NodeModel::Branch { first, second, .. } => {
            lemma_find_tile(*first, x);
            lemma_find_tile(*second, x);
            lemma_remove_panel(*first, p);
            lemma_remove_panel(*second, p);
            lemma_remove_panel_others(*first, p, x);
            lemma_remove_panel_others(*second, p, x);
            if let Some(f) = remove_panel(*first, p) {
                lemma_find_tile(f, x);
            }
            if let Some(sn) = remove_panel(*second, p) {
                lemma_find_tile(sn, x);
            }
        },
    }
}

/// Docking in a valid layout, in detail. It is refused, changing nothing,
/// when the panel or the target tile is missing; docked into the center of
/// its own tile it only activates, reporting whether the front tab
/// changed. A center dock leaves the panel active in the target; an edge
/// dock puts it alone in a new tile, under an id no other remaining tile
/// has, paired with the target in a new split on the zone's axis (new tile
/// first for left and top). Every tile other than the panel's old tile,
/// the target and the new tile is as it was.
pub proof fn law_dock_shape(root: NodeModel, next: nat, p: Seq<char>, target: Seq<char>, zone: DockZone)
    requires
        wf(root),
        next < id_space(),
        tile_set(root).len() < id_space(),
        split_set(root).len() < id_space(),
    ensures
        ({
            let (m, n2, done) = dock(root, next, p, target, zone);
            &&& (find_panel_tile(root, p) is None || find_tile(root, target) is None) ==> !done && m
                == root
            &&& find_panel_tile(root, p) == Some(target) && zone == DockZone::Center ==> done == (
            find_tile(root, target)->0.active != Some(p))
            &&& find_panel_tile(root, p) is Some && find_panel_tile(root, p) != Some(target)
                && find_tile(root, target) is Some ==> done
            &&& find_panel_tile(root, p) is Some && find_tile(root, target) is Some && zone
                != DockZone::Center && (find_panel_tile(root, p) == Some(target) ==> find_tile(
                root,
                target,
            )->0.panels.len() > 1) ==> done
            &&& done && zone == DockZone::Center ==> (find_tile(m, target) matches Some(t) && t.active
                == Some(p))
            &&& done && zone != DockZone::Center ==> exists|tid: Seq<char>, sid: Seq<char>, t2: TileModel|
                #![trigger split_node(m, sid), find_tile(m, tid), t2.id]
                {
                    &&& tid != target
                    &&& (forall|x: Seq<char>|
                        tile_set(root).contains(x) && Some(x) != find_panel_tile(root, p) ==> x
                            != tid)
                    &&& find_tile(m, tid) == Some(new_tile_model(tid, seq![p]))
                    &&& find_panel_tile(m, p) == Some(tid)
                    &&& t2.id == target
                    &&& t2.panels == without(find_tile(root, target)->0.panels, p)
                    &&& find_tile(m, target) == Some(t2)
                    &&& split_node(m, sid) == Some(
                        sided_pair(sid, zone, new_tile_model(tid, seq![p]), t2),
                    )
                }
            &&& forall|x: Seq<char>|
                Some(x) != find_panel_tile(root, p) && x != target && (done ==> tile_set(root).contains(x))
                    ==> #[trigger] find_tile(m, x) == find_tile(root, x)
        }),
{
    law_dock_keeps_panels(root, next, p, target, zone);
    lemma_find_panel_tile(root, p);
    lemma_find_tile(root, target);
    lemma_id_lists(root);
    if find_panel_tile(root, p) is None || find_tile(root, target) is None {
        return;
    }
    let source = find_panel_tile(root, p)->0;
    let t = find_tile(root, target)->0;
    if source == target && zone == DockZone::Center {
        law_activate_changes_only_the_front_tab(root, p);
        return;
    }
    if source == target && t.panels.len() == 1 {
        return;
    }
    lemma_without(t.panels, p);
    if source != target {
        assert(!t.panels.contains(p)) by {
            if t.panels.contains(p) {
                lemma_panel_home_unique(root, p, target);
            }
        }
    } else {
        assert(without(t.panels, p).len() > 0) by {
            t.panels.unique_seq_to_set();
            assert(t.panels.to_set().contains(p));
            if without(t.panels, p).len() == 0 {
                assert(without(t.panels, p).to_set() =~= Set::<Seq<char>>::empty());
                assert(t.panels.to_set() =~= set![p]);
                assert(set![p].len() == 1);
            }
        }
    }
    lemma_remove_panel_keeps(root, p, target);
    lemma_remove_panel(root, p);
    let r1 = remove_panel(root, p)->0;
    lemma_find_tile(r1, target);
    // Tiles other than the source survive the removal unchanged.
    assert forall|x: Seq<char>| x != source implies #[trigger] find_tile(r1, x) == find_tile(root, x) by {
        lemma_find_tile(root, x);
        if let Some(u) = find_tile(root, x) {
            if u.panels.contains(p) {
                lemma_panel_home_unique(root, p, x);
            }
        }
        lemma_remove_panel_others(root, p, x);
    }
    let (m, n2, done) = dock(root, next, p, target, zone);
    if zone == DockZone::Center {
        lemma_attach(r1, target, p);
        assert forall|x: Seq<char>|
            Some(x) != find_panel_tile(root, p) && x != target && (done ==> tile_set(root).contains(x))
                implies #[trigger] find_tile(m, x) == find_tile(root, x) by {
            lemma_attach_others(r1, target, p, x);
        }
    } else {
        lemma_id_lists(r1);
        vstd::set_lib::lemma_len_subset(tile_set(r1), tile_set(root));
        vstd::set_lib::lemma_len_subset(split_set(r1), split_set(root));
        lemma_allocate_tree(r1, next);
        let (tid, n1) = allocate_tile(r1, next);
        let (sid, n3) = allocate_split(r1, n1);
        let tile = new_tile_model(tid, seq![p]);
        crate::wf::lemma_singleton_to_set(p);
        assert(tile.panels.to_set().disjoint(panel_set(r1)));
        assert(tile_ok(tile)) by {
            assert(seq![p][0] == p);
        }
        lemma_insert_split(r1, target, sid, tile, zone);
        lemma_insert_split_shape(r1, target, sid, tile, zone);
        assert(seq![p].contains(p)) by {
            assert(seq![p][0] == p);
        }
        lemma_panel_home_unique(m, p, tid);
        assert forall|x: Seq<char>|
            tile_set(root).contains(x) && Some(x) != find_panel_tile(root, p) implies x != tid by {
            lemma_find_tile(root, x);
            lemma_find_tile(r1, x);
            assert(find_tile(r1, x) == find_tile(root, x));
        }
        assert forall|x: Seq<char>|
            Some(x) != find_panel_tile(root, p) && x != target && (done ==> tile_set(root).contains(x))
                implies #[trigger] find_tile(m, x) == find_tile(root, x) by {
            lemma_find_tile(root, x);
            lemma_find_tile(r1, x);
            assert(x != tid);
        }
        let t2 = find_tile(r1, target)->0;
        assert(!tile_set(r1).contains(tid));
        assert(tid != target);
        assert(find_tile(m, target) == Some(t2));
        assert(split_node(m, sid) == Some(edge_pair(sid, zone, tile, t2)));
        lemma_edge_pair_sides(sid, zone, tile, t2);
        assert(find_tile(m, tid) == Some(tile));
        assert(t2.id == target);
    }
}

/// Activation keeps the layout well formed and every panel where it is;
/// afterwards the tile that holds the panel shows it. Activating a panel
/// the layout does not hold changes nothing.
pub proof fn law_activate_brings_to_front(root: NodeModel, p: Seq<char>)
    requires
        wf(root),
    ensures
        wf(activate(root, p).0),
        panel_set(activate(root, p).0) == panel_set(root),
        tile_set(activate(root, p).0) == tile_set(root),
        !panel_set(root).contains(p) ==> activate(root, p) == (root, false),
        panel_set(root).contains(p) ==> find_panel_tile(activate(root, p).0, p) == find_panel_tile(
            root,
            p,
        ),
        panel_set(root).contains(p) ==> (find_tile(
            activate(root, p).0,
            find_panel_tile(root, p)->0,
        ) matches Some(t) && t.active == Some(p)),
{
    lemma_activate(root, p);
    lemma_find_panel_tile(root, p);
    if panel_set(root).contains(p) {
        lemma_panel_home_unique(activate(root, p).0, p, find_panel_tile(root, p)->0);
    }
}

/// Activating a panel of a valid layout changes only the active tab of the
/// tile that holds it, and reports whether that tab was not already the
/// panel; every other tile stays as it was.
pub proof fn law_activate_changes_only_the_front_tab(root: NodeModel, p: Seq<char>)
    requires
        wf(root),
        panel_set(root).contains(p),
    ensures
        find_tile(root, find_panel_tile(root, p)->0) matches Some(t) && activate(root, p).1 == (
        t.active != Some(p)) && find_tile(activate(root, p).0, t.id) == Some(
            TileModel { active: Some(p), ..t },
        ),
        forall|x: Seq<char>|
            x != find_panel_tile(root, p)->0 ==> #[trigger] find_tile(activate(root, p).0, x)
                == find_tile(root, x),
    decreases root,
{
    lemma_find_panel_tile(root, p);
    lemma_activate(root, p);
    match root {
        NodeModel::Leaf(t) => {
            if t.active == Some(p) {
                assert(TileModel { active: Some(p), ..t } == t);
            }
            assert forall|x: Seq<char>| x != find_panel_tile(root, p)->0 implies #[trigger] find_tile(
                activate(root, p).0,
                x,
            ) == find_tile(root, x) by {
                assert(activate(root, p).0 matches NodeModel::Leaf(u) && u.id == t.id);
            }
        },
        NodeModel::Branch { first, second, .. } => {
            lemma_find_panel_tile(*first, p);
            lemma_find_panel_tile(*second, p);
            lemma_activate(*first, p);
            lemma_activate(*second, p);
            let s = find_panel_tile(root, p)->0;
            if panel_set(*first).contains(p) {
                law_activate_changes_only_the_front_tab(*first, p);
                lemma_find_tile(*first, s);
                let t = find_tile(*first, s)->0;
                if !activate(*first, p).1 {
                    assert(!panel_set(*second).contains(p));
                    assert(TileModel { active: Some(p), ..t } == t);
                }
                assert forall|x: Seq<char>| x != s implies #[trigger] find_tile(
                    activate(root, p).0,
                    x,
                ) == find_tile(root, x) by {
                    assert(find_tile(activate(*first, p).0, x) == find_tile(*first, x));
                    if !activate(*first, p).1 {
                        assert(activate(*second, p).0 == *second);
                    }
                }
            } else {
                assert(panel_set(*second).contains(p));
                law_activate_changes_only_the_front_tab(*second, p);
                lemma_find_tile(*second, s);
                lemma_find_tile(*first, s);
                assert(activate(*first, p) == (*first, false));
                assert forall|x: Seq<char>| x != s implies #[trigger] find_tile(
                    activate(root, p).0,
                    x,
                ) == find_tile(root, x) by {
                    assert(find_tile(activate(*second, p).0, x) == find_tile(*second, x));
                }
            }
        },
    }
}

/// What `set_split_ratio` leaves: the ratio clamped into range when the
/// split exists and the clamped value differs, the same tree otherwise.
pub open spec fn after_set_ratio(root: NodeModel, id: Seq<char>, ratio: int) -> NodeModel {
    if find_split(root, id) matches Some((_, current)) && current != clamp_ratio_spec(ratio) {
        set_ratio(root, id, clamp_ratio_spec(ratio)).0
    } else {
        root
    }
}

/// A split's ratio reads back as the value last set, clamped into range;
/// setting it keeps the layout well formed with its ids and panels.
pub proof fn law_ratio_reads_back(root: NodeModel, id: Seq<char>, ratio: int)
    requires
        wf(root),
    ensures
        wf(after_set_ratio(root, id, ratio)),
        panel_set(after_set_ratio(root, id, ratio)) == panel_set(root),
        tile_set(after_set_ratio(root, id, ratio)) == tile_set(root),
        split_set(after_set_ratio(root, id, ratio)) == split_set(root),
        find_split(root, id) is Some ==> find_split(after_set_ratio(root, id, ratio), id) == Some(
            (split_axis_at(root, id), clamp_ratio_spec(ratio)),
        ),
{
    let c = clamp_ratio_spec(ratio);
    assert(ratio_ok(c));
    lemma_set_ratio(root, id, c);
    crate::wf::lemma_find_split(root, id);
}

/// Splitting a tile keeps the layout well formed and every panel; the new
/// sibling is an empty tile marked to survive reconciliation, with an id
/// the layout did not use.
pub proof fn law_split_tile_adds_empty_target(
    root: NodeModel,
    next: nat,
    target: Seq<char>,
    zone: DockZone,
)
    requires
        wf(root),
        next < id_space(),
        tile_set(root).len() < id_space(),
        split_set(root).len() < id_space(),
    ensures
        wf(split_tile_spec(root, next, target, zone).0),
        panel_set(split_tile_spec(root, next, target, zone).0) == panel_set(root),
        split_tile_spec(root, next, target, zone).1 < id_space(),
        split_tile_spec(root, next, target, zone).2 is None ==> split_tile_spec(
            root,
            next,
            target,
            zone,
        ).0 == root,
        split_tile_spec(root, next, target, zone).2 matches Some(tid) ==> !tile_set(root).contains(
            tid,
        ) && find_tile(split_tile_spec(root, next, target, zone).0, tid) == Some(
            empty_tile_model(tid),
        ),
        (split_tile_spec(root, next, target, zone).2 is Some) == (zone != DockZone::Center
            && tile_set(root).contains(target)),
{
    lemma_find_tile(root, target);
    if zone == DockZone::Center || find_tile(root, target) is None {
        return;
    }
    lemma_allocate_tree(root, next);
    let (tid, n1) = allocate_tile(root, next);
    let (sid, n2) = allocate_split(root, n1);
    let tile = empty_tile_model(tid);
    assert(tile.panels.to_set() =~= Set::<Seq<char>>::empty());
    lemma_insert_split(root, target, sid, tile, zone);
    let m = insert_split(root, target, sid, tile, zone).0;
    assert(panel_set(m) =~= panel_set(root));
}

/// The first split (parent before children) with this id, as a subtree.
pub open spec fn split_node(n: NodeModel, id: Seq<char>) -> Option<NodeModel>
    decreases n,
{
    match n {
        NodeModel::Leaf(_) => None,
        NodeModel::Branch { id: sid, first, second, .. } => if sid == id {
            Some(n)
        } else {
            match split_node(*first, id) {
                Some(b) => Some(b),
                None => split_node(*second, id),
            }
        },
    }
}

/// The split a new tile and an existing one form: on the zone's axis, in
/// equal shares, the new tile first when the zone is left or top.
pub open spec fn edge_pair(sid: Seq<char>, zone: DockZone, new: TileModel, existing: TileModel) -> NodeModel {
    let (first, second) = if zone_before(zone) {
        (NodeModel::Leaf(new), NodeModel::Leaf(existing))
    } else {
        (NodeModel::Leaf(existing), NodeModel::Leaf(new))
    };
    NodeModel::Branch {
        id: sid,
        axis: zone_axis(zone)->0,
        ratio: crate::model::HALF_RATIO as int,
        first: Box::new(first),
        second: Box::new(second),
    }
}

/// Where an edge places a new tile next to an existing one, zone by zone:
/// `Left` puts it left of the existing tile and `Right` right of it (a
/// horizontal split), `Top` above it and `Bottom` below it (a vertical
/// split); the two share the space equally. (`Center` makes no split.)
pub open spec fn sided_pair(sid: Seq<char>, zone: DockZone, new: TileModel, existing: TileModel) -> NodeModel {
    let (axis, first, second) = match zone {
        DockZone::Left => (SplitAxis::Horizontal, new, existing),
        DockZone::Right => (SplitAxis::Horizontal, existing, new),
        DockZone::Top => (SplitAxis::Vertical, new, existing),
        _ => (SplitAxis::Vertical, existing, new),
    };
    NodeModel::Branch {
        id: sid,
        axis,
        ratio: crate::model::HALF_RATIO as int,
        first: Box::new(NodeModel::Leaf(first)),
        second: Box::new(NodeModel::Leaf(second)),
    }
}

/// The pair an edge split builds is the one the zone names.
proof fn lemma_edge_pair_sides(sid: Seq<char>, zone: DockZone, new: TileModel, existing: TileModel)
    requires
        zone != DockZone::Center,
    ensures
        edge_pair(sid, zone, new, existing) == sided_pair(sid, zone, new, existing),
{
}

proof fn lemma_split_node_in_set(n: NodeModel, id: Seq<char>)
    ensures
        split_node(n, id) is Some ==> split_set(n).contains(id),
    decreases n,
{
    if let NodeModel::Branch { first, second, .. } = n {
        lemma_split_node_in_set(*first, id);
        lemma_split_node_in_set(*second, id);
    }
}

/// An edge split around a tile a subtree lacks leaves it as it is.
proof fn lemma_insert_split_untouched(
    n: NodeModel,
    target: Seq<char>,
    sid: Seq<char>,
    tile: TileModel,
    zone: DockZone,
)
    requires
        !tile_set(n).contains(target),
    ensures
        insert_split(n, target, sid, tile, zone) == (n, false),
    decreases n,
{
    if let NodeModel::Branch { first, second, .. } = n {
        lemma_insert_split_untouched(*first, target, sid, tile, zone);
        lemma_insert_split_untouched(*second, target, sid, tile, zone);
    }
}

/// An edge split around an existing tile pairs it with the new tile in a
/// new split and leaves every other tile as it was.
proof fn lemma_insert_split_shape(
    n: NodeModel,
    target: Seq<char>,
    sid: Seq<char>,
    tile: TileModel,
    zone: DockZone,
)
    requires
        wf(n),
        !split_set(n).contains(sid),
        !tile_set(n).contains(tile.id),
        tile_set(n).contains(target),
        zone != DockZone::Center,
    ensures
        ({
            let m = insert_split(n, target, sid, tile, zone).0;
            &&& split_node(m, sid) == Some(edge_pair(sid, zone, tile, find_tile(n, target)->0))
            &&& tile_ids(m).len() == tile_ids(n).len() + 1
            &&& forall|x: Seq<char>| x != tile.id ==> #[trigger] find_tile(m, x) == find_tile(n, x)
        }),
    decreases n,
{
    let m = insert_split(n, target, sid, tile, zone).0;
    lemma_find_tile(n, target);
    match n {
        NodeModel::Leaf(existing) => {
            assert(existing.id == target);
            assert(zone_axis(zone) is Some);
            assert(m == edge_pair(sid, zone, tile, existing));
            assert(split_node(m, sid) == Some(m));
            assert(tile_ids(NodeModel::Leaf(tile)).len() == 1);
            assert(tile_ids(n).len() == 1);
            assert(tile_ids(m).len() == 2);
            assert forall|x: Seq<char>| x != tile.id implies #[trigger] find_tile(m, x) == find_tile(
                n,
                x,
            ) by {
                assert(find_tile(NodeModel::Leaf(tile), x) is None);
            }
        },
        NodeModel::Branch { id, first, second, .. } => {
            lemma_find_tile(*first, target);
            lemma_find_tile(*second, target);
            lemma_find_tile(*first, tile.id);
            lemma_find_tile(*second, tile.id);
            if tile_set(*first).contains(target) {
                lemma_insert_split_done(*first, target, sid, tile, zone);
                lemma_insert_split_shape(*first, target, sid, tile, zone);
                let f = insert_split(*first, target, sid, tile, zone).0;
                assert forall|x: Seq<char>| x != tile.id implies #[trigger] find_tile(m, x)
                    == find_tile(n, x) by {
                    assert(find_tile(f, x) == find_tile(*first, x));
                }
            } else {
                lemma_insert_split_untouched(*first, target, sid, tile, zone);
                lemma_insert_split_shape(*second, target, sid, tile, zone);
                lemma_split_node_in_set(*first, sid);
                let sn = insert_split(*second, target, sid, tile, zone).0;
                assert forall|x: Seq<char>| x != tile.id implies #[trigger] find_tile(m, x)
                    == find_tile(n, x) by {
                    assert(find_tile(sn, x) == find_tile(*second, x));
                }
            }
        },
    }
}

/// Splitting a tile of a valid layout (at an edge) pairs the tile, as it
/// was, with a new empty tile in a new split on the zone's axis, the new
/// tile first when the zone is left or top; there is one tile more, and
/// every other tile is as it was.
pub proof fn law_split_tile_shape(root: NodeModel, next: nat, target: Seq<char>, zone: DockZone)
    requires
        wf(root),
        next < id_space(),
        tile_set(root).len() < id_space(),
        split_set(root).len() < id_space(),
        zone != DockZone::Center,
        tile_set(root).contains(target),
    ensures
        ({
            let (m, n2, made) = split_tile_spec(root, next, target, zone);
            &&& made matches Some(tid) && {
                &&& tile_ids(m).len() == tile_ids(root).len() + 1
                &&& find_tile(m, target) == find_tile(root, target)
                &&& exists|sid: Seq<char>|
                    !split_set(root).contains(sid) && split_node(m, sid) == Some(
                        sided_pair(sid, zone, empty_tile_model(tid), find_tile(root, target)->0),
                    )
                &&& forall|x: Seq<char>| x != tid ==> #[trigger] find_tile(m, x) == find_tile(root, x)
            }
        }),
{
    lemma_find_tile(root, target);
    lemma_allocate_tree(root, next);
    let (tid, n1) = allocate_tile(root, next);
    let (sid, n2) = allocate_split(root, n1);
    let tile = empty_tile_model(tid);
    lemma_insert_split(root, target, sid, tile, zone);
    lemma_insert_split_shape(root, target, sid, tile, zone);
    let m = insert_split(root, target, sid, tile, zone).0;
    assert(tid != target);
    assert(find_tile(m, target) == find_tile(root, target));
    lemma_edge_pair_sides(sid, zone, tile, find_tile(root, target)->0);
}

/// Editor-style splitting keeps the layout well formed and every panel.
pub proof fn law_split_active_keeps_panels(
    root: NodeModel,
    next: nat,
    tile: Seq<char>,
    zone: DockZone,
)
    requires
        wf(root),
        next < id_space(),
        tile_set(root).len() < id_space(),
        split_set(root).len() < id_space(),
    ensures
        wf(split_active_spec(root, next, tile, zone).0),
        panel_set(split_active_spec(root, next, tile, zone).0) == panel_set(root),
        split_active_spec(root, next, tile, zone).1 < id_space(),
{
    match find_tile(root, tile) {
        Some(t) if t.active is Some && t.panels.len() > 1 => {
            law_dock_keeps_panels(root, next, t.active->0, tile, zone);
        },
        _ => {
            law_split_tile_adds_empty_target(root, next, tile, zone);
        },
    }
}

/// Editor-style splitting, in detail: when the tile holds several panels,
/// its active tab moves out into a new tile beside it (at an edge zone)
/// and the tile keeps the rest; otherwise the call does exactly what
/// splitting the tile with an empty sibling does.
pub proof fn law_split_active_moves_the_active_tab(
    root: NodeModel,
    next: nat,
    tile: Seq<char>,
    zone: DockZone,
)
    requires
        wf(root),
        next < id_space(),
        tile_set(root).len() < id_space(),
        split_set(root).len() < id_space(),
    ensures
        (find_tile(root, tile) matches Some(t) && t.panels.len() > 1 && t.active is Some)
            ==> split_active_spec(root, next, tile, zone) == dock(
            root,
            next,
            find_tile(root, tile)->0.active->0,
            tile,
            zone,
        ),
        ({
            let t = find_tile(root, tile)->0;
            let a = t.active->0;
            let m = split_active_spec(root, next, tile, zone).0;
            find_tile(root, tile) is Some && t.panels.len() > 1 && t.active is Some && zone
                != DockZone::Center ==> {
                &&& split_active_spec(root, next, tile, zone).2
                &&& find_tile(m, tile) is Some
                &&& find_tile(m, tile)->0.panels == without(t.panels, a)
                &&& find_panel_tile(m, a) is Some
                &&& find_panel_tile(m, a) != Some(tile)
            }
        }),
        !(find_tile(root, tile) matches Some(t) && t.panels.len() > 1 && t.active is Some)
            ==> split_active_spec(root, next, tile, zone) == (
            split_tile_spec(root, next, tile, zone).0,
            split_tile_spec(root, next, tile, zone).1,
            split_tile_spec(root, next, tile, zone).2 is Some,
        ),
{
    lemma_find_tile(root, tile);
    if let Some(t) = find_tile(root, tile) {
        if t.panels.len() > 1 && t.active is Some && zone != DockZone::Center {
            let a = t.active->0;
            assert(tile_ok(t));
            lemma_panel_home_unique(root, a, tile);
            law_dock_shape(root, next, a, tile, zone);
            law_dock_keeps_panels(root, next, a, tile, zone);
        }
    }
}

/// Closing an empty tile keeps the layout well formed and every panel; the
/// tile is gone afterwards. Anything else is refused and changes nothing.
pub proof fn law_remove_empty_tile(root: NodeModel, tile: Seq<char>)
    requires
        wf(root),
    ensures
        wf(remove_empty_tile_spec(root, tile).0),
        panel_set(remove_empty_tile_spec(root, tile).0) == panel_set(root),
        !remove_empty_tile_spec(root, tile).1 ==> remove_empty_tile_spec(root, tile).0 == root,
        remove_empty_tile_spec(root, tile).1 ==> tile_set(remove_empty_tile_spec(root, tile).0)
            == tile_set(root).remove(tile),
        remove_empty_tile_spec(root, tile).1 == (tile_is_empty(root, tile) && tile_set(root).len()
            > 1),
{
    lemma_find_tile(root, tile);
    lemma_id_lists(root);
    if tile_is_empty(root, tile) {
        lemma_remove_tile(root, tile);
        if remove_tile(root, tile) is None {
            assert(tile_set(root).len() == 1) by {
                assert(tile_set(root) =~= set![tile]);
            }
        } else {
            let m = remove_tile(root, tile)->0;
            lemma_id_lists(m);
            lemma_first_tile(m);
            assert(tile_set(root).len() > 1) by {
                assert(tile_set(m).contains(first_tile_id(m)));
                assert(tile_set(root).contains(first_tile_id(m)));
                assert(first_tile_id(m) != tile);
                assert(tile_set(root).remove(tile).len() == tile_set(root).len() - 1);
                assert(tile_set(root).remove(tile).contains(first_tile_id(m)));
                if tile_set(root).remove(tile).len() == 0 {
                    assert(tile_set(root).remove(tile) =~= Set::<Seq<char>>::empty());
                }
            }
        }
    }
}

/// The split whose child is the tile with this id, and that tile's
/// sibling: what takes the split's place when the tile goes.
pub open spec fn parent_of(n: NodeModel, x: Seq<char>) -> Option<(Seq<char>, NodeModel)>
    decreases n,
{
    match n {
        NodeModel::Leaf(_) => None,
        NodeModel::Branch { id, first, second, .. } => if is_tile(*first, x) {
            Some((id, *second))
        } else if is_tile(*second, x) {
            Some((id, *first))
        } else {
            match parent_of(*first, x) {
                Some(r) => Some(r),
                None => parent_of(*second, x),
            }
        },
    }
}

proof fn lemma_remove_tile_untouched(n: NodeModel, x: Seq<char>)
    requires
        !tile_set(n).contains(x),
    ensures
        remove_tile(n, x) == Some(n),
    decreases n,
{
    if let NodeModel::Branch { first, second, .. } = n {
        lemma_remove_tile_untouched(*first, x);
        lemma_remove_tile_untouched(*second, x);
    }
}

proof fn lemma_parent_in(n: NodeModel, x: Seq<char>)
    ensures
        parent_of(n, x) matches Some((pid, sib)) ==> split_set(n).contains(pid) && tile_set(
            n,
        ).contains(x),
        !tile_set(n).contains(x) ==> parent_of(n, x) is None,
    decreases n,
{
    if let NodeModel::Branch { id, first, second, .. } = n {
        lemma_parent_in(*first, x);
        lemma_parent_in(*second, x);
        assert(split_set(n).contains(id));
        if let NodeModel::Leaf(t) = *first {
            assert(tile_set(*first).contains(t.id));
        }
        if let NodeModel::Leaf(t) = *second {
            assert(tile_set(*second).contains(t.id));
        }
    }
}

/// Removing a tile from a tree with unique ids where it sits under a split:
/// that split gives way to the tile's sibling, and every other tile and
/// split stays as it was.
proof fn lemma_remove_tile_shape(n: NodeModel, x: Seq<char>)
    requires
        ids_unique(n),
        tile_set(n).contains(x),
        n is Branch,
    ensures
        parent_of(n, x) matches Some((pid, sib)) && remove_tile(n, x) matches Some(m) && {
            &&& tile_ids(m).len() + 1 == tile_ids(n).len()
            &&& (forall|y: Seq<char>| y != x ==> #[trigger] find_tile(m, y) == find_tile(n, y))
            &&& split_set(m) == split_set(n).remove(pid)
            &&& (forall|y: Seq<char>| y != pid ==> #[trigger] find_split(m, y) == find_split(n, y))
            &&& (sib matches NodeModel::Branch { id: sid, .. } ==> split_node(m, sid) == Some(sib))
        },
    decreases n,
{
    if let NodeModel::Branch { id, axis, ratio, first, second } = n {
        lemma_id_lists(*first);
        lemma_id_lists(*second);
        if is_tile(*first, x) {
            lemma_remove_tile_untouched(*second, x);
            assert(*first matches NodeModel::Leaf(t) && t.id == x);
            assert(remove_tile(*first, x) is None);
            assert(remove_tile(n, x) == Some(*second));
            assert(tile_ids(*first).len() == 1);
            assert(split_set(*first) =~= Set::<Seq<char>>::empty());
            assert(split_set(*second) =~= split_set(n).remove(id));
            assert(parent_of(n, x) == Some((id, *second)));
            assert(tile_ids(*second).len() + 1 == tile_ids(n).len());
            assert forall|y: Seq<char>| y != x implies #[trigger] find_tile(*second, y) == find_tile(
                n,
                y,
            ) by {
                assert(find_tile(*first, y) is None);
            }
            assert forall|y: Seq<char>| y != id implies #[trigger] find_split(*second, y)
                == find_split(n, y) by {
                assert(find_split(*first, y) is None);
            }
            if let NodeModel::Branch { id: sid, .. } = *second {
                assert(split_node(*second, sid) == Some(*second));
            }
        } else if is_tile(*second, x) {
            lemma_remove_tile_untouched(*first, x);
            assert(split_set(*second) =~= Set::<Seq<char>>::empty());
            assert(split_set(*first) =~= split_set(n).remove(id));
            lemma_find_tile(*first, x);
            assert(*second matches NodeModel::Leaf(t) && t.id == x);
            assert(remove_tile(*second, x) is None);
            assert(remove_tile(n, x) == Some(*first));
            assert(tile_ids(*second).len() == 1);
            assert(parent_of(n, x) == Some((id, *first)));
            assert forall|y: Seq<char>| y != x implies #[trigger] find_tile(*first, y) == find_tile(
                n,
                y,
            ) by {
                assert(find_tile(*second, y) is None);
            }
            assert forall|y: Seq<char>| y != id implies #[trigger] find_split(*first, y)
                == find_split(n, y) by {
                assert(find_split(*second, y) is None);
            }
        } else if tile_set(*first).contains(x) {
            lemma_remove_tile_untouched(*second, x);
            lemma_remove_tile_shape(*first, x);
            let (pid, sib) = parent_of(*first, x)->0;
            lemma_parent_in(*first, x);
            let f = remove_tile(*first, x)->0;
            let m = remove_tile(n, x)->0;
            assert(split_set(m) =~= split_set(n).remove(pid));
            assert forall|y: Seq<char>| y != x implies #[trigger] find_tile(m, y) == find_tile(n, y) by {
                lemma_find_tile(f, y);
                lemma_find_tile(*first, y);
            }
            assert forall|y: Seq<char>| y != pid implies #[trigger] find_split(m, y) == find_split(
                n,
                y,
            ) by {
                lemma_find_split(f, y);
                lemma_find_split(*first, y);
            }
            if let NodeModel::Branch { id: sid, .. } = sib {
                lemma_split_node_in_set(f, sid);
                lemma_id_lists(f);
            }
        } else {
            assert(tile_set(*second).contains(x));
            lemma_remove_tile_untouched(*first, x);
            lemma_parent_in(*first, x);
            lemma_remove_tile_shape(*second, x);
            let (pid, sib) = parent_of(*second, x)->0;
            lemma_parent_in(*second, x);
            let sn = remove_tile(*second, x)->0;
            let m = remove_tile(n, x)->0;
            assert(split_set(m) =~= split_set(n).remove(pid));
            assert forall|y: Seq<char>| y != x implies #[trigger] find_tile(m, y) == find_tile(n, y) by {
                lemma_find_tile(sn, y);
                lemma_find_tile(*second, y);
            }
            assert forall|y: Seq<char>| y != pid implies #[trigger] find_split(m, y) == find_split(
                n,
                y,
            ) by {
                lemma_find_split(sn, y);
                lemma_find_split(*second, y);
                lemma_find_split(*first, y);
            }
            if let NodeModel::Branch { id: sid, .. } = sib {
                lemma_split_node_in_set(sn, sid);
                lemma_split_node_in_set(*first, sid);
                lemma_id_lists(sn);
            }
        }
    }
}

/// Closing an empty tile that sits under a split, in detail: the split
/// gives way to the tile's sibling subtree, as it was; there is one tile
/// less; every other tile, and every other split with its axis and ratio,
/// stays as it was.
pub proof fn law_remove_empty_tile_shape(root: NodeModel, tile: Seq<char>)
    requires
        wf(root),
        remove_empty_tile_spec(root, tile).1,
    ensures
        parent_of(root, tile) matches Some((pid, sib)) && {
            let m = remove_empty_tile_spec(root, tile).0;
            &&& tile_ids(m).len() + 1 == tile_ids(root).len()
            &&& (forall|y: Seq<char>| y != tile ==> #[trigger] find_tile(m, y) == find_tile(root, y))
            &&& split_set(m) == split_set(root).remove(pid)
            &&& (forall|y: Seq<char>| y != pid ==> #[trigger] find_split(m, y) == find_split(root, y))
            &&& (sib matches NodeModel::Branch { id: sid, .. } ==> split_node(m, sid) == Some(sib))
        },
{
    lemma_find_tile(root, tile);
    if let NodeModel::Leaf(t) = root {
        assert(remove_tile(root, tile) is None);
    }
    lemma_remove_tile_shape(root, tile);
}

/// The tile a keyboard move of `delta` steps sends the panel to.
pub open spec fn move_target(root: NodeModel, p: Seq<char>, delta: int) -> Option<Seq<char>> {
    let tiles = tile_ids(root);
    if tiles.len() < 2 {
        None
    } else {
        match find_panel_tile(root, p) {
            None => None,
            Some(source) => match first_index(tiles, source) {
                None => None,
                Some(index) => Some(tiles[(index + delta) % (tiles.len() as int)]),
            },
        }
    }
}

/// A keyboard move keeps the layout well formed and every panel; when done,
/// the panel sits in the tile it moved to.
pub proof fn law_move_by_tile(root: NodeModel, next: nat, p: Seq<char>, delta: int)
    requires
        wf(root),
        next < id_space(),
        tile_set(root).len() < id_space(),
        split_set(root).len() < id_space(),
    ensures
        wf(move_by_tile(root, next, p, delta).0),
        panel_set(move_by_tile(root, next, p, delta).0) == panel_set(root),
        !move_by_tile(root, next, p, delta).2 ==> move_by_tile(root, next, p, delta).0 == root,
        move_by_tile(root, next, p, delta).2 ==> find_panel_tile(
            move_by_tile(root, next, p, delta).0,
            p,
        ) == move_target(root, p, delta),
{
    if let Some(target) = move_target(root, p, delta) {
        law_dock_keeps_panels(root, next, p, target, DockZone::Center);
    }
}


/// A keyboard move by `delta` lands `delta` tiles along first-child order
/// from the tile the panel left, wrapping around: if that tile is at
/// position `i` of `n` tiles, the panel ends up in the tile at the position
/// `j` (with `0 <= j < n`) that differs from `i + delta` by a multiple of
/// `n`. So a move by -1 goes to the preceding tile (the last from the
/// first) and a move by 1 to the following one (the first from the last).
pub proof fn law_move_lands_delta_tiles_away(root: NodeModel, next: nat, p: Seq<char>, delta: int)
    requires
        wf(root),
        next < id_space(),
        tile_set(root).len() < id_space(),
        split_set(root).len() < id_space(),
    ensures
        move_by_tile(root, next, p, delta).2 ==> exists|i: int, j: int|
            #![trigger tile_ids(root)[i], tile_ids(root)[j]]
            {
                &&& 0 <= i < tile_ids(root).len()
                &&& 0 <= j < tile_ids(root).len()
                &&& Some(tile_ids(root)[i]) == find_panel_tile(root, p)
                &&& Some(tile_ids(root)[j]) == find_panel_tile(move_by_tile(root, next, p, delta).0, p)
                &&& (j - i - delta) % (tile_ids(root).len() as int) == 0
            },
{
    law_move_by_tile(root, next, p, delta);
    let tiles = tile_ids(root);
    let n = tiles.len() as int;
    if move_by_tile(root, next, p, delta).2 {
        let source = find_panel_tile(root, p)->0;
        lemma_find_panel_tile(root, p);
        lemma_id_lists(root);
        assert(tiles.to_set().contains(source));
        assert(tiles.contains(source));
        lemma_first_index_found(tiles, source);
        let i = first_index(tiles, source)->0;
        let a = i + delta;
        let j = a % n;
        vstd::arithmetic::div_mod::lemma_mod_bound(a, n);
        vstd::arithmetic::div_mod::lemma_fundamental_div_mod(a, n);
        let q = a / n;
        assert(j - i - delta == (-q) * n) by (nonlinear_arith)
            requires
                a == n * q + j,
                a == i + delta,
        ;
        vstd::arithmetic::div_mod::lemma_mod_multiples_basic(-q, n);
        assert(tiles[i] == source);
        assert(Some(tiles[j]) == find_panel_tile(move_by_tile(root, next, p, delta).0, p));
    }
}

proof fn lemma_distinct_homes(pls: Seq<PlacementModel>)
    ensures
        distinct_homes(pls).no_duplicates(),
        distinct_homes(pls).len() <= pls.len(),
        forall|i: int| 0 <= i < pls.len() ==> distinct_homes(pls).contains(#[trigger] pls[i].home),
        forall|x: Seq<char>| #[trigger]
            distinct_homes(pls).contains(x) ==> placement_homes(pls).contains(x),
    decreases pls.len(),
{
    if pls.len() > 0 {
        let init = pls.drop_last();
        let last = pls.last();
        lemma_distinct_homes(init);
        crate::wf::lemma_no_dup_push(distinct_homes(init), last.home);
        let d = distinct_homes(init);
        let r = distinct_homes(pls);
        assert(r == d || r == d.push(last.home));
        assert forall|i: int| 0 <= i < pls.len() implies r.contains(#[trigger] pls[i].home) by {
            if i < pls.len() - 1 {
                assert(init[i] == pls[i]);
                assert(d.contains(init[i].home));
                let k = choose|k: int| 0 <= k < d.len() && d[k] == init[i].home;
                assert(r[k] == d[k]);
            } else if !d.contains(last.home) {
                assert(r[d.len() as int] == last.home);
            }
        }
        assert forall|x: Seq<char>| #[trigger] r.contains(x) implies placement_homes(pls).contains(
            x,
        ) by {
            let k = choose|k: int| 0 <= k < r.len() && r[k] == x;
            if k < d.len() {
                assert(d[k] == x);
                assert(d.contains(x));
                assert(placement_homes(init).contains(x));
                let j = choose|j: int| 0 <= j < placement_homes(init).len() && placement_homes(
                    init,
                )[j] == x;
                assert(init[j] == pls[j]);
                assert(placement_homes(pls)[j] == x);
            } else {
                assert(x == last.home);
                assert(placement_homes(pls)[pls.len() - 1] == x);
            }
        }
    }
}

/// The split name for home position `k`.
pub open spec fn home_split_name(k: nat) -> Seq<char> {
    "wb-home-split-"@ + crate::ids::decimal(k)
}

proof fn lemma_home_chain(homes: Seq<Seq<char>>, i: nat)
    requires
        homes.no_duplicates(),
        i < homes.len(),
    ensures
        ids_unique(home_chain(homes, i)),
        wf(home_chain(homes, i)),
        tile_set(home_chain(homes, i)).subset_of(homes.subrange(i as int, homes.len() as int).to_set()),
        split_ids(home_chain(homes, i)).len() + i + 1 == homes.len(),
        forall|x: Seq<char>| #[trigger]
            split_set(home_chain(homes, i)).contains(x) ==> exists|k: nat|
                i < k < homes.len() && x == home_split_name(k),
        panel_set(home_chain(homes, i)) == Set::<Seq<char>>::empty(),
    decreases homes.len() - i,
{
    let rest = homes.subrange(i as int, homes.len() as int);
    if i + 1 >= homes.len() {
        assert(rest[0] == homes.last());
        assert(rest.to_set().contains(homes.last()));
        assert(Seq::<Seq<char>>::empty().to_set() =~= Set::<Seq<char>>::empty());
    } else {
        lemma_home_chain(homes, i + 1);
        let c = home_chain(homes, i + 1);
        let name = home_split_name(i + 1);
        assert(home_chain(homes, i) == NodeModel::Branch {
            id: name,
            axis: crate::model::SplitAxis::Horizontal,
            ratio: clamp_ratio_spec(crate::model::RATIO_SCALE as int / (homes.len() - i)),
            first: Box::new(NodeModel::Leaf(new_tile_model(homes[i as int], Seq::empty()))),
            second: Box::new(c),
        });
        assert(!split_set(c).contains(name)) by {
            if split_set(c).contains(name) {
                let k = choose|k: nat| i + 1 < k < homes.len() && name == home_split_name(k);
                crate::ids::lemma_prefix_cancel(
                    "wb-home-split-"@,
                    crate::ids::decimal(k),
                    crate::ids::decimal(i + 1),
                );
                crate::ids::lemma_decimal_injective(k, i + 1);
            }
        }
        let later = homes.subrange(i as int + 1, homes.len() as int);
        assert(!later.to_set().contains(homes[i as int])) by {
            if later.to_set().contains(homes[i as int]) {
                let j = choose|j: int| 0 <= j < later.len() && later[j] == homes[i as int];
                assert(homes[i + 1 + j] == homes[i as int]);
            }
        }
        assert forall|a: Seq<char>| tile_set(c).contains(a) implies rest.to_set().contains(a) by {
            assert(later.to_set().contains(a));
            let j = choose|j: int| 0 <= j < later.len() && later[j] == a;
            assert(rest[j + 1] == a);
        }
        assert(rest[0] == homes[i as int]);
        assert(rest.to_set().contains(homes[i as int]));
        assert(Seq::<Seq<char>>::empty().to_set() =~= Set::<Seq<char>>::empty());
        let leaf = NodeModel::Leaf(new_tile_model(homes[i as int], Seq::empty()));
        assert(split_set(leaf) == Set::<Seq<char>>::empty());
        assert(panel_set(leaf) == Set::<Seq<char>>::empty());
        assert(split_ids(leaf) == Seq::<Seq<char>>::empty());
        assert(split_ids(home_chain(homes, i)) == seq![name] + split_ids(leaf) + split_ids(c));
        assert(tile_set(leaf) == set![homes[i as int]]);
        assert(tile_set(c).subset_of(later.to_set()));
        assert(tile_set(leaf).disjoint(tile_set(c)));
        assert(split_set(leaf).disjoint(split_set(c)));
        assert(panel_set(leaf).disjoint(panel_set(c)));
        assert(wf(leaf)) by {
            assert(Seq::<Seq<char>>::empty().no_duplicates());
        }
        assert(split_set(home_chain(homes, i)) == set![name] + split_set(leaf) + split_set(c));
        assert(panel_set(home_chain(homes, i)) == panel_set(leaf) + panel_set(c));
        assert forall|x: Seq<char>| #[trigger]
            split_set(home_chain(homes, i)).contains(x) implies exists|k: nat|
                i < k < homes.len() && x == home_split_name(k) by {
            if x == name {
                assert(x == home_split_name(i + 1));
            } else {
                assert(split_set(c).contains(x));
            }
        }
        assert(panel_set(home_chain(homes, i)) =~= Set::<Seq<char>>::empty());
    }
}

/// The first-open arrangement derived from panel homes is a well-formed
/// layout holding exactly the registered panels, each once (for a registry
/// of fewer than 2^62 placements).
pub proof fn law_from_homes_registers_exactly(pls: Seq<PlacementModel>)
    requires
        pls.len() < 0x4000_0000_0000_0000,
    ensures
        wf(reconcile_layout(home_root(distinct_homes(pls)), 1, pls).0),
        panel_set(reconcile_layout(home_root(distinct_homes(pls)), 1, pls).0) == placement_panels(
            pls,
        ).to_set(),
{
    let homes = distinct_homes(pls);
    lemma_distinct_homes(pls);
    let root = home_root(homes);
    lemma_id_lists(root);
    if homes.len() == 0 {
        assert(tile_set(root) =~= set![("wb-home"@)]);
        assert(split_set(root) =~= Set::<Seq<char>>::empty());
    } else {
        lemma_home_chain(homes, 0);
        homes.subrange(0, homes.len() as int).lemma_cardinality_of_set();
        vstd::seq_lib::seq_to_set_is_finite(homes.subrange(0, homes.len() as int));
        vstd::set_lib::lemma_len_subset(
            tile_set(root),
            homes.subrange(0, homes.len() as int).to_set(),
        );
    }
    law_reconcile_registers_exactly(root, 1, pls);
}

/// Attaching keeps the tile list.
proof fn lemma_attach_ids(n: NodeModel, id: Seq<char>, q: Seq<char>)
    ensures
        tile_ids(attach(n, id, q).0) == tile_ids(n),
    decreases n,
{
    if let NodeModel::Branch { first, second, .. } = n {
        lemma_attach_ids(*first, id, q);
        lemma_attach_ids(*second, id, q);
    }
}

/// Placing arrivals that all join a tile's center keeps the tile list.
proof fn lemma_place_all_center_ids(
    root: NodeModel,
    next: nat,
    seen: Seq<Seq<char>>,
    pls: Seq<PlacementModel>,
    i: nat,
)
    requires
        forall|j: int| i <= j < pls.len() ==> #[trigger] pls[j].zone == DockZone::Center,
    ensures
        tile_ids(place_all(root, next, seen, pls, i).0) == tile_ids(root),
    decreases pls.len() - i,
{
    if i < pls.len() {
        let pl = pls[i as int];
        assert(pl.zone == DockZone::Center);
        if seen.contains(pl.panel) {
            lemma_place_all_center_ids(root, next, seen, pls, i + 1);
        } else {
            let target = arrival_target(root, pl.home);
            lemma_attach_ids(root, target, pl.panel);
            let (r, done) = attach(root, target, pl.panel);
            let s2 = if done {
                seen.push(pl.panel)
            } else {
                seen
            };
            lemma_place_all_center_ids(r, next, s2, pls, i + 1);
        }
    }
}

/// The chain of home tiles lists the homes in order.
proof fn lemma_home_chain_ids(homes: Seq<Seq<char>>, i: nat)
    requires
        i < homes.len(),
    ensures
        tile_ids(home_chain(homes, i)) == homes.subrange(i as int, homes.len() as int),
    decreases homes.len() - i,
{
    if i + 1 >= homes.len() {
        assert(tile_ids(home_chain(homes, i)) == seq![homes.last()]);
        assert(homes.subrange(i as int, homes.len() as int) =~= seq![homes.last()]);
    } else {
        lemma_home_chain_ids(homes, i + 1);
        let first = NodeModel::Leaf(new_tile_model(homes[i as int], Seq::empty()));
        assert(tile_ids(first) == seq![homes[i as int]]);
        assert(tile_ids(home_chain(homes, i)) == tile_ids(first) + tile_ids(home_chain(homes, i + 1)));
        assert(homes.subrange(i as int, homes.len() as int) =~= seq![homes[i as int]]
            + homes.subrange(i + 1 as int, homes.len() as int));
    }
}

/// A tree whose every tile is protected is settled.
proof fn lemma_settled_when_protected(n: NodeModel, protected: Set<Seq<char>>)
    requires
        tile_set(n).subset_of(protected),
    ensures
        settled(n, protected),
    decreases n,
{
    if let NodeModel::Branch { first, second, .. } = n {
        lemma_settled_when_protected(*first, protected);
        lemma_settled_when_protected(*second, protected);
    }
}

/// With no zone hints, the first-open arrangement has one tile per
/// distinct home, in first-registration order (one empty tile when there
/// is no home), and every panel sits in the home it was first registered
/// with.
pub proof fn law_from_homes_one_tile_per_home(pls: Seq<PlacementModel>)
    requires
        forall|j: int| 0 <= j < pls.len() ==> #[trigger] pls[j].zone == DockZone::Center,
    ensures
        tile_ids(reconcile_layout(home_root(distinct_homes(pls)), 1, pls).0) == if distinct_homes(
            pls,
        ).len() == 0 {
            seq!["wb-home"@]
        } else {
            distinct_homes(pls)
        },
        forall|i: int|
            0 <= i < pls.len() && (forall|j: int| 0 <= j < i ==> pls[j].panel != pls[i].panel)
                ==> find_panel_tile(
                reconcile_layout(home_root(distinct_homes(pls)), 1, pls).0,
                #[trigger] pls[i].panel,
            ) == Some(pls[i].home),
{
    let homes = distinct_homes(pls);
    lemma_distinct_homes(pls);
    let root = home_root(homes);
    let available = placement_panels(pls).to_set();
    let protected = placement_homes(pls).to_set();
    lemma_id_lists(root);
    if homes.len() == 0 {
        assert(tile_set(root) =~= set![("wb-home"@)]);
        assert(panel_set(root) =~= Set::<Seq<char>>::empty());
    } else {
        lemma_home_chain(homes, 0);
        lemma_home_chain_ids(homes, 0);
        assert(homes.subrange(0, homes.len() as int) =~= homes);
        assert(tile_set(root).subset_of(protected)) by {
            assert forall|x: Seq<char>| tile_set(root).contains(x) implies protected.contains(x) by {
                assert(homes.to_set().contains(x));
                assert(homes.contains(x));
                assert(placement_homes(pls).contains(x));
            }
        }
        lemma_settled_when_protected(root, protected);
    }
    lemma_reconcile_node(root, available, Seq::empty());
    let (r1, seen) = reconcile_node(root, available, Seq::empty());
    assert(settled(r1, protected)) by {
        if homes.len() > 0 {
            lemma_settled_when_protected(r1, protected);
        }
    }
    lemma_prune_settles(r1, protected);
    lemma_place_all_center_ids(r1, 1, seen, pls, 0);
    assert forall|i: int|
        0 <= i < pls.len() && (forall|j: int| 0 <= j < i ==> pls[j].panel != pls[i].panel) implies find_panel_tile(
        reconcile_layout(root, 1, pls).0,
        #[trigger] pls[i].panel,
    ) == Some(pls[i].home) by {
        assert(homes.contains(pls[i].home));
        assert(tile_set(root).contains(pls[i].home)) by {
            assert(homes.to_set().contains(pls[i].home));
            if homes.len() > 0 {
                assert(homes.subrange(0, homes.len() as int) =~= homes);
            }
        }
        law_reconcile_sends_arrivals_home(root, 1, pls, i);
    }
}

/// Every split of the tree divides its space left and right.
pub open spec fn splits_horizontal(n: NodeModel) -> bool
    decreases n,
{
    match n {
        NodeModel::Leaf(_) => true,
        NodeModel::Branch { axis, first, second, .. } => axis == SplitAxis::Horizontal
            && splits_horizontal(*first) && splits_horizontal(*second),
    }
}

/// Whether a zone hint keeps a tile beside its home, left or right (or in it).
pub open spec fn side_by_side(zone: DockZone) -> bool {
    zone == DockZone::Center || zone == DockZone::Left || zone == DockZone::Right
}

proof fn lemma_home_chain_horizontal(homes: Seq<Seq<char>>, i: nat)
    ensures
        splits_horizontal(home_chain(homes, i)),
    decreases homes.len() - i,
{
    if i + 1 < homes.len() {
        lemma_home_chain_horizontal(homes, i + 1);
        let first = NodeModel::Leaf(new_tile_model(homes[i as int], Seq::empty()));
        assert(splits_horizontal(first));
        assert(home_chain(homes, i) == NodeModel::Branch {
            id: home_split_name(i + 1),
            axis: SplitAxis::Horizontal,
            ratio: clamp_ratio_spec(crate::model::RATIO_SCALE as int / (homes.len() - i)),
            first: Box::new(first),
            second: Box::new(home_chain(homes, i + 1)),
        });
    }
}

proof fn lemma_reconcile_node_horizontal(n: NodeModel, available: Set<Seq<char>>, seen: Seq<Seq<char>>)
    requires
        splits_horizontal(n),
    ensures
        splits_horizontal(reconcile_node(n, available, seen).0),
    decreases n,
{
    if let NodeModel::Branch { first, second, .. } = n {
        lemma_reconcile_node_horizontal(*first, available, seen);
        let s1 = reconcile_node(*first, available, seen).1;
        lemma_reconcile_node_horizontal(*second, available, s1);
    }
}

proof fn lemma_prune_horizontal(n: NodeModel, protected: Set<Seq<char>>)
    requires
        splits_horizontal(n),
    ensures
        prune(n, protected) matches Some(m) ==> splits_horizontal(m),
    decreases n,
{
    if let NodeModel::Branch { first, second, .. } = n {
        lemma_prune_horizontal(*first, protected);
        lemma_prune_horizontal(*second, protected);
    }
}

proof fn lemma_attach_horizontal(n: NodeModel, id: Seq<char>, q: Seq<char>)
    requires
        splits_horizontal(n),
    ensures
        splits_horizontal(attach(n, id, q).0),
    decreases n,
{
    if let NodeModel::Branch { first, second, .. } = n {
        lemma_attach_horizontal(*first, id, q);
        lemma_attach_horizontal(*second, id, q);
    }
}

proof fn lemma_insert_split_horizontal(
    n: NodeModel,
    target: Seq<char>,
    sid: Seq<char>,
    tile: TileModel,
    zone: DockZone,
)
    requires
        splits_horizontal(n),
        side_by_side(zone),
    ensures
        splits_horizontal(insert_split(n, target, sid, tile, zone).0),
    decreases n,
{
    match n {
        NodeModel::Leaf(_) => {
            let m = insert_split(n, target, sid, tile, zone).0;
            if let NodeModel::Branch { first, second, .. } = m {
                assert(splits_horizontal(*first) && splits_horizontal(*second));
            }
        },
        NodeModel::Branch { first, second, .. } => {
            lemma_insert_split_horizontal(*first, target, sid, tile, zone);
            lemma_insert_split_horizontal(*second, target, sid, tile, zone);
        },
    }
}

proof fn lemma_place_all_horizontal(
    root: NodeModel,
    next: nat,
    seen: Seq<Seq<char>>,
    pls: Seq<PlacementModel>,
    i: nat,
)
    requires
        splits_horizontal(root),
        forall|j: int| i <= j < pls.len() ==> side_by_side(#[trigger] pls[j].zone),
    ensures
        splits_horizontal(place_all(root, next, seen, pls, i).0),
    decreases pls.len() - i,
{
    if i < pls.len() {
        let pl = pls[i as int];
        assert(side_by_side(pl.zone));
        if seen.contains(pl.panel) {
            lemma_place_all_horizontal(root, next, seen, pls, i + 1);
        } else {
            let target = arrival_target(root, pl.home);
            if pl.zone == DockZone::Center || tile_is_empty(root, target) {
                lemma_attach_horizontal(root, target, pl.panel);
                let (r, done) = attach(root, target, pl.panel);
                let s2 = if done {
                    seen.push(pl.panel)
                } else {
                    seen
                };
                lemma_place_all_horizontal(r, next, s2, pls, i + 1);
            } else {
                let (tid, n1) = allocate_tile(root, next);
                let (sid, n2) = allocate_split(root, n1);
                let tile = new_tile_model(tid, seq![pl.panel]);
                lemma_insert_split_horizontal(root, target, sid, tile, pl.zone);
                let (r, done) = insert_split(root, target, sid, tile, pl.zone);
                let s2 = if done {
                    seen.push(pl.panel)
                } else {
                    seen
                };
                lemma_place_all_horizontal(r, n2, s2, pls, i + 1);
            }
        }
    }
}

/// The first-open arrangement lays its tiles out left to right: unless some
/// panel's zone hint asks for a place above or below its home, every split
/// in it is horizontal.
pub proof fn law_from_homes_left_to_right(pls: Seq<PlacementModel>)
    requires
        forall|j: int| 0 <= j < pls.len() ==> side_by_side(#[trigger] pls[j].zone),
    ensures
        splits_horizontal(reconcile_layout(home_root(distinct_homes(pls)), 1, pls).0),
{
    let homes = distinct_homes(pls);
    let root = home_root(homes);
    if homes.len() > 0 {
        lemma_home_chain_horizontal(homes, 0);
    }
    let available = placement_panels(pls).to_set();
    let protected = placement_homes(pls).to_set();
    lemma_reconcile_node_horizontal(root, available, Seq::empty());
    let (r1, seen) = reconcile_node(root, available, Seq::empty());
    lemma_prune_horizontal(r1, protected);
    let r2 = match prune(r1, protected) {
        Some(m) => m,
        None => NodeModel::Leaf(empty_tile_model(first_tile_id(root))),
    };
    lemma_place_all_horizontal(r2, 1, seen, pls, 0);
}

/// Alt+Shift with an arrow splits the tab off toward that arrow's side: the
/// new group lands above the tab's group for Up, below for Down, left of it
/// for Left and right of it for Right. Alt+Shift with Page Up moves the tab
/// one group back, with Page Down one group forward. Other keys, or either
/// modifier missing, do nothing.
pub proof fn law_arrows_split_toward_their_side(
    alt: bool,
    shift: bool,
    key: KeyPress,
    sid: Seq<char>,
    new: TileModel,
    existing: TileModel,
)
    ensures
        !(alt && shift) ==> keyboard_dock_spec(alt, shift, key) is None,
        alt && shift ==> keyboard_dock_spec(alt, shift, key) == match key {
            KeyPress::ArrowUp => Some(KeyboardDock::Split(DockZone::Top)),
            KeyPress::ArrowDown => Some(KeyboardDock::Split(DockZone::Bottom)),
            KeyPress::ArrowLeft => Some(KeyboardDock::Split(DockZone::Left)),
            KeyPress::ArrowRight => Some(KeyboardDock::Split(DockZone::Right)),
            KeyPress::PageUp => Some(KeyboardDock::Move(-1isize)),
            KeyPress::PageDown => Some(KeyboardDock::Move(1isize)),
            _ => None,
        },
        keyboard_dock_spec(alt, shift, key) matches Some(KeyboardDock::Split(zone)) ==> ({
            let pair = sided_pair(sid, zone, new, existing);
            let new_first = pair matches NodeModel::Branch { first, .. } && *first
                == NodeModel::Leaf(new);
            let vertical = pair matches NodeModel::Branch { axis, .. } && axis == SplitAxis::Vertical;
            &&& key == KeyPress::ArrowUp ==> vertical && new_first
            &&& key == KeyPress::ArrowDown ==> vertical && (!new_first || new == existing)
            &&& key == KeyPress::ArrowLeft ==> !vertical && new_first
            &&& key == KeyPress::ArrowRight ==> !vertical && (!new_first || new == existing)
        }),
{
}

/// Arrow keys in a tab strip step to the neighbouring tab, wrapping at the
/// ends: Right to the next (the first from the last), Left to the previous
/// (the last from the first), and Right undoes Left. Home goes to the
/// first tab and End to the last.
pub proof fn law_tab_keys_step_to_neighbours(current: int, len: int)
    requires
        0 <= current < len,
    ensures
        tab_key_target_spec(current, len, KeyPress::ArrowRight) == Some(
            if current + 1 < len {
                current + 1
            } else {
                0
            },
        ),
        tab_key_target_spec(current, len, KeyPress::ArrowLeft) == Some(
            if current > 0 {
                current - 1
            } else {
                len - 1
            },
        ),
        tab_key_target_spec(
            tab_key_target_spec(current, len, KeyPress::ArrowLeft)->0,
            len,
            KeyPress::ArrowRight,
        ) == Some(current),
        tab_key_target_spec(current, len, KeyPress::Home) == Some(0int),
        tab_key_target_spec(current, len, KeyPress::End) == Some(len - 1),
{
    if current + 1 < len {
        vstd::arithmetic::div_mod::lemma_small_mod((current + 1) as nat, len as nat);
    } else {
        vstd::arithmetic::div_mod::lemma_mod_self_0(len);
    }
    if current > 0 {
        vstd::arithmetic::div_mod::lemma_mod_add_multiples_vanish(current - 1, len);
        vstd::arithmetic::div_mod::lemma_small_mod((current - 1) as nat, len as nat);
        vstd::arithmetic::div_mod::lemma_small_mod(current as nat, len as nat);
    } else {
        vstd::arithmetic::div_mod::lemma_small_mod((len - 1) as nat, len as nat);
        vstd::arithmetic::div_mod::lemma_mod_self_0(len);
    }
}

/// Arrow keys on a focused splitter move it along its axis: Left (on a
/// horizontal split) and Up (on a vertical one) shrink the first child,
/// Right and Down grow it by the same amount; Shift takes the large step.
/// Arrows across the split's axis do nothing.
pub proof fn law_splitter_keys_move_along_the_axis(shift: bool)
    ensures
        ({
            let step: int = if shift {
                80_000
            } else {
                25_000
            };
            &&& splitter_delta_spec(SplitAxis::Horizontal, KeyPress::ArrowLeft, shift) == Some(-step)
            &&& splitter_delta_spec(SplitAxis::Horizontal, KeyPress::ArrowRight, shift) == Some(step)
            &&& splitter_delta_spec(SplitAxis::Vertical, KeyPress::ArrowUp, shift) == Some(-step)
            &&& splitter_delta_spec(SplitAxis::Vertical, KeyPress::ArrowDown, shift) == Some(step)
            &&& splitter_delta_spec(SplitAxis::Horizontal, KeyPress::ArrowUp, shift) is None
            &&& splitter_delta_spec(SplitAxis::Horizontal, KeyPress::ArrowDown, shift) is None
            &&& splitter_delta_spec(SplitAxis::Vertical, KeyPress::ArrowLeft, shift) is None
            &&& splitter_delta_spec(SplitAxis::Vertical, KeyPress::ArrowRight, shift) is None
        }),
{
}

} // verus!
