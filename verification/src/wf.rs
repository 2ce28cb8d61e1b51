//! Well-formedness of the layout tree, stated declaratively, and the lemmas
//! that relate it to validation and to each tree operation.
use vstd::prelude::*;

use crate::model::{NodeModel, TileModel, MAX_SPLIT_RATIO, MIN_SPLIT_RATIO};
use crate::model::{zone_axis, zone_before, DockZone, SplitAxis, HALF_RATIO};
use crate::tree::{
    activate, attach, find_panel_tile, find_split, find_tile, first_tile_id, insert_split,
    panel_set, prune, reconcile_node, remove_panel, remove_tile, repair_active, retain_new,
    set_ratio, split_ids, split_set,
    tile_ids, tile_set, without,
};
use crate::validate::{check_node, check_panels};

verus! {

/// A tab group is well formed when no panel repeats and the active tab is
/// one of its panels (none exactly when it holds none).
pub open spec fn tile_ok(t: TileModel) -> bool {
    &&& t.panels.no_duplicates()
    &&& match t.active {
        Some(a) => t.panels.contains(a),
        None => t.panels.len() == 0,
    }
}

/// A ratio inside `MIN_SPLIT_RATIO..=MAX_SPLIT_RATIO`.
pub open spec fn ratio_ok(ratio: int) -> bool {
    MIN_SPLIT_RATIO <= ratio <= MAX_SPLIT_RATIO
}

/// Tile ids and split ids are unique across the tree.
pub open spec fn ids_unique(n: NodeModel) -> bool
    decreases n,
{
    match n {
        NodeModel::Leaf(_) => true,
        NodeModel::Branch { id, first, second, .. } => {
            &&& ids_unique(*first)
            &&& ids_unique(*second)
            &&& !split_set(*first).contains(id)
            &&& !split_set(*second).contains(id)
            &&& tile_set(*first).disjoint(tile_set(*second))
            &&& split_set(*first).disjoint(split_set(*second))
        },
    }
}

/// Every tile is well formed, every ratio in range, and no panel appears in
/// two tiles.
pub open spec fn contents_ok(n: NodeModel) -> bool
    decreases n,
{
    match n {
        NodeModel::Leaf(t) => tile_ok(t),
        NodeModel::Branch { ratio, first, second, .. } => {
            &&& contents_ok(*first)
            &&& contents_ok(*second)
            &&& ratio_ok(ratio)
            &&& panel_set(*first).disjoint(panel_set(*second))
        },
    }
}

/// The invariant every valid layout tree satisfies.
pub open spec fn wf(n: NodeModel) -> bool {
    ids_unique(n) && contents_ok(n)
}

pub proof fn lemma_seq_to_set_push<A>(s: Seq<A>, x: A)
    ensures
        s.push(x).to_set() == s.to_set().insert(x),
{
    assert forall|a: A| s.push(x).to_set().contains(a) <==> s.to_set().insert(x).contains(a) by {
        if s.push(x).contains(a) {
            let i = choose|i: int| 0 <= i < s.push(x).len() && s.push(x)[i] == a;
            if i < s.len() {
                assert(s[i] == a);
            }
        }
        if s.contains(a) {
            let i = choose|i: int| 0 <= i < s.len() && s[i] == a;
            assert(s.push(x)[i] == a);
        }
        if a == x {
            assert(s.push(x)[s.len() as int] == x);
        }
    }
    assert(s.push(x).to_set() =~= s.to_set().insert(x));
}

pub proof fn lemma_singleton_to_set<A>(x: A)
    ensures
        seq![x].to_set() == set![x],
{
    lemma_seq_to_set_push(Seq::<A>::empty(), x);
    assert(Seq::<A>::empty().to_set() =~= Set::<A>::empty());
    assert(Seq::<A>::empty().push(x) =~= seq![x]);
    assert(Set::<A>::empty().insert(x) =~= set![x]);
}

pub proof fn lemma_seq_to_set_add<A>(s: Seq<A>, t: Seq<A>)
    ensures
        (s + t).to_set() == s.to_set() + t.to_set(),
{
    assert forall|a: A| (s + t).to_set().contains(a) <==> (s.to_set() + t.to_set()).contains(a) by {
        if (s + t).contains(a) {
            let i = choose|i: int| 0 <= i < (s + t).len() && (s + t)[i] == a;
            if i < s.len() {
                assert(s[i] == a);
            } else {
                assert(t[i - s.len()] == a);
            }
        }
        if s.contains(a) {
            let i = choose|i: int| 0 <= i < s.len() && s[i] == a;
            assert((s + t)[i] == a);
        }
        if t.contains(a) {
            let i = choose|i: int| 0 <= i < t.len() && t[i] == a;
            assert((s + t)[s.len() + i] == a);
        }
    }
    assert((s + t).to_set() =~= s.to_set() + t.to_set());
}

pub proof fn lemma_no_dup_push<A>(s: Seq<A>, x: A)
    ensures
        s.push(x).no_duplicates() <==> (s.no_duplicates() && !s.contains(x)),
{
    let p = s.push(x);
    if p.no_duplicates() {
        assert forall|i: int, j: int| 0 <= i < s.len() && 0 <= j < s.len() && i != j implies s[i]
            != s[j] by {
            assert(p[i] == s[i] && p[j] == s[j]);
        }
        if s.contains(x) {
            let i = choose|i: int| 0 <= i < s.len() && s[i] == x;
            assert(p[i] == p[s.len() as int]);
        }
    }
    if s.no_duplicates() && !s.contains(x) {
        assert forall|i: int, j: int| 0 <= i < p.len() && 0 <= j < p.len() && i != j implies p[i]
            != p[j] by {
            if i == s.len() {
                assert(s[j] == p[j]);
            } else if j == s.len() {
                assert(s[i] == p[i]);
            } else {
                assert(s[i] == p[i] && s[j] == p[j]);
            }
        }
    }
}

/// Recording panels succeeds exactly when they repeat neither among
/// themselves nor what was seen, and then appends them.
pub proof fn lemma_check_panels(ps: Seq<Seq<char>>, seen: Seq<Seq<char>>)
    ensures
        check_panels(ps, seen) is Ok <==> (ps.no_duplicates() && ps.to_set().disjoint(seen.to_set())),
        check_panels(ps, seen) matches Ok(s) ==> s == seen + ps,
    decreases ps.len(),
{
    if ps.len() == 0 {
        assert(seen + ps =~= seen);
        assert(ps.to_set() =~= Set::<Seq<char>>::empty());
    } else {
        let init = ps.drop_last();
        let x = ps.last();
        lemma_check_panels(init, seen);
        assert(init.push(x) =~= ps);
        lemma_seq_to_set_push(init, x);
        lemma_no_dup_push(init, x);
        assert(ps.to_set().disjoint(seen.to_set()) <==> (init.to_set().disjoint(seen.to_set())
            && !seen.contains(x))) by {
            if ps.to_set().disjoint(seen.to_set()) {
                assert(ps.to_set().contains(x));
                assert forall|a: Seq<char>| init.to_set().contains(a) implies !seen.to_set().contains(
                    a,
                ) by {
                    assert(ps.to_set().contains(a));
                }
            }
            if init.to_set().disjoint(seen.to_set()) && !seen.contains(x) {
                assert forall|a: Seq<char>| ps.to_set().contains(a) implies !seen.to_set().contains(
                    a,
                ) by {
                    if a != x {
                        assert(init.to_set().contains(a));
                    }
                }
            }
        }
        if check_panels(init, seen) is Ok {
            let s = check_panels(init, seen)->Ok_0;
            assert(s == seen + init);
            assert(s.contains(x) <==> (seen.contains(x) || init.contains(x))) by {
                if s.contains(x) {
                    let i = choose|i: int| 0 <= i < s.len() && s[i] == x;
                    if i < seen.len() {
                        assert(seen[i] == x);
                    } else {
                        assert(init[i - seen.len()] == x);
                    }
                }
                if seen.contains(x) {
                    let i = choose|i: int| 0 <= i < seen.len() && seen[i] == x;
                    assert(s[i] == x);
                }
                if init.contains(x) {
                    let i = choose|i: int| 0 <= i < init.len() && init[i] == x;
                    assert(s[seen.len() + i] == x);
                }
            }
            assert(s.push(x) =~= seen + ps);
        } else {
            if ps.no_duplicates() && ps.to_set().disjoint(seen.to_set()) {
                assert(init.to_set().disjoint(seen.to_set())) by {
                    assert forall|a: Seq<char>| init.to_set().contains(a) implies !seen.to_set().contains(
                        a,
                    ) by {
                        assert(ps.to_set().contains(a));
                    }
                }
            }
        }
    }
}


/// Walking the tree in validation succeeds exactly when the tree is well
/// formed and shares no id with what was seen before; the seen lists then
/// grow by the tree's ids.
pub proof fn lemma_check_node(
    n: NodeModel,
    tiles: Seq<Seq<char>>,
    splits: Seq<Seq<char>>,
    panels: Seq<Seq<char>>,
)
    ensures
        check_node(n, tiles, splits, panels) is Ok <==> (wf(n) && tile_set(n).disjoint(
            tiles.to_set(),
        ) && split_set(n).disjoint(splits.to_set()) && panel_set(n).disjoint(panels.to_set())),
        check_node(n, tiles, splits, panels) matches Ok((t2, s2, p2)) ==> {
            &&& t2.to_set() == tiles.to_set() + tile_set(n)
            &&& s2.to_set() == splits.to_set() + split_set(n)
            &&& p2.to_set() == panels.to_set() + panel_set(n)
        },
    decreases n,
{
    match n {
        NodeModel::Leaf(t) => {
            lemma_check_panels(t.panels, panels);
            lemma_seq_to_set_push(tiles, t.id);
            lemma_seq_to_set_add(panels, t.panels);
            assert(set![t.id].disjoint(tiles.to_set()) <==> !tiles.contains(t.id)) by {
                if !tiles.contains(t.id) {
                    assert forall|a: Seq<char>| set![t.id].contains(a) implies !tiles.to_set().contains(
                        a,
                    ) by {}
                }
                if set![t.id].disjoint(tiles.to_set()) {
                    assert(set![t.id].contains(t.id));
                }
            }
            assert(split_set(n).disjoint(splits.to_set()));
            assert(splits.to_set() + split_set(n) =~= splits.to_set());
            assert(panels.to_set() + t.panels.to_set() == panels.to_set() + panel_set(n));
            assert(tiles.to_set().insert(t.id) =~= tiles.to_set() + tile_set(n));
            assert(t.panels.to_set().disjoint(panels.to_set()) <==> panels.to_set().disjoint(
                t.panels.to_set(),
            ));
        },
        NodeModel::Branch { id, ratio, first, second, .. } => {
            let s1 = splits.push(id);
            lemma_seq_to_set_push(splits, id);
            lemma_check_node(*first, tiles, s1, panels);
            if check_node(*first, tiles, s1, panels) is Ok {
                let (t1, sp1, p1) = check_node(*first, tiles, s1, panels)->Ok_0;
                lemma_check_node(*second, t1, sp1, p1);
            }
            let tf = tile_set(*first);
            let ts = tile_set(*second);
            let sf = split_set(*first);
            let ss = split_set(*second);
            let pf = panel_set(*first);
            let ps = panel_set(*second);
            assert(tile_set(n) == tf + ts);
            assert(split_set(n) == set![id] + sf + ss);
            assert(panel_set(n) == pf + ps);
            if check_node(n, tiles, splits, panels) is Ok {
                let (t1, sp1, p1) = check_node(*first, tiles, s1, panels)->Ok_0;
                assert(!splits.contains(id));
                assert(ratio_ok(ratio));
                assert(tile_set(n).disjoint(tiles.to_set()));
                assert(split_set(n).disjoint(splits.to_set())) by {
                    assert forall|a: Seq<char>| split_set(n).contains(a) implies !splits.to_set().contains(
                        a,
                    ) by {
                        if sf.contains(a) {
                            assert(!s1.to_set().contains(a));
                        } else if ss.contains(a) {
                            assert(!sp1.to_set().contains(a));
                        }
                    }
                }
                assert(!sf.contains(id)) by {
                    if sf.contains(id) {
                        assert(s1.to_set().contains(id));
                    }
                }
                assert(!ss.contains(id)) by {
                    if ss.contains(id) {
                        assert(sp1.to_set().contains(id));
                    }
                }
                assert(tf.disjoint(ts)) by {
                    assert forall|a: Seq<char>| tf.contains(a) implies !ts.contains(a) by {
                        assert(t1.to_set().contains(a));
                    }
                }
                assert(sf.disjoint(ss)) by {
                    assert forall|a: Seq<char>| sf.contains(a) implies !ss.contains(a) by {
                        assert(sp1.to_set().contains(a));
                    }
                }
                assert(pf.disjoint(ps)) by {
                    assert forall|a: Seq<char>| pf.contains(a) implies !ps.contains(a) by {
                        assert(p1.to_set().contains(a));
                    }
                }
                let (t2, sp2, p2) = check_node(n, tiles, splits, panels)->Ok_0;
                assert(t2.to_set() =~= tiles.to_set() + tile_set(n));
                assert(sp2.to_set() =~= splits.to_set() + split_set(n));
                assert(p2.to_set() =~= panels.to_set() + panel_set(n));
            }
            if wf(n) && tile_set(n).disjoint(tiles.to_set()) && split_set(n).disjoint(
                splits.to_set(),
            ) && panel_set(n).disjoint(panels.to_set()) {
                assert(!splits.contains(id)) by {
                    assert(split_set(n).contains(id));
                }
                assert(sf.disjoint(s1.to_set()));
                assert(tf.disjoint(tiles.to_set()));
                assert(pf.disjoint(panels.to_set()));
                let (t1, sp1, p1) = check_node(*first, tiles, s1, panels)->Ok_0;
                assert(ts.disjoint(t1.to_set()));
                assert(ss.disjoint(sp1.to_set()));
                assert(ps.disjoint(p1.to_set()));
            }
        },
    }
}


/// A tile is found exactly when its id is in the tree; in a well-formed
/// tree the tile found is well formed and its panels are the tree's.
pub proof fn lemma_find_tile(n: NodeModel, id: Seq<char>)
    ensures
        (find_tile(n, id) is Some) == tile_set(n).contains(id),
        find_tile(n, id) matches Some(t) ==> t.id == id,
        wf(n) && find_tile(n, id) is Some ==> tile_ok(find_tile(n, id)->0) && find_tile(
            n,
            id,
        )->0.panels.to_set().subset_of(panel_set(n)),
    decreases n,
{
    match n {
        NodeModel::Leaf(t) => {},
        NodeModel::Branch { first, second, .. } => {
            lemma_find_tile(*first, id);
            lemma_find_tile(*second, id);
        },
    }
}

/// A panel's tile is found exactly when the tree holds the panel; in a
/// well-formed tree it is the one tile that holds it.
pub proof fn lemma_find_panel_tile(n: NodeModel, p: Seq<char>)
    ensures
        (find_panel_tile(n, p) is Some) == panel_set(n).contains(p),
        find_panel_tile(n, p) matches Some(x) ==> tile_set(n).contains(x),
        wf(n) && find_panel_tile(n, p) is Some ==> (find_tile(n, find_panel_tile(n, p)->0) matches Some(
            t,
        ) && t.panels.contains(p)),
    decreases n,
{
    match n {
        NodeModel::Leaf(t) => {},
        NodeModel::Branch { first, second, .. } => {
            lemma_find_panel_tile(*first, p);
            lemma_find_panel_tile(*second, p);
            if find_panel_tile(*first, p) is Some {
                let x = find_panel_tile(*first, p)->0;
                lemma_find_tile(*first, x);
            } else if find_panel_tile(*second, p) is Some {
                let x = find_panel_tile(*second, p)->0;
                lemma_find_tile(*first, x);
                lemma_find_tile(*second, x);
            }
        },
    }
}

/// In a well-formed tree, a tile that holds the panel is where the panel
/// is found.
pub proof fn lemma_panel_home_unique(n: NodeModel, p: Seq<char>, x: Seq<char>)
    requires
        wf(n),
        find_tile(n, x) matches Some(t) && t.panels.contains(p),
    ensures
        find_panel_tile(n, p) == Some(x),
    decreases n,
{
    match n {
        NodeModel::Leaf(t) => {},
        NodeModel::Branch { first, second, .. } => {
            lemma_find_tile(*first, x);
            lemma_find_tile(*second, x);
            lemma_find_panel_tile(*first, p);
            if find_tile(*first, x) is Some {
                lemma_panel_home_unique(*first, p, x);
            } else {
                lemma_panel_home_unique(*second, p, x);
                let t = find_tile(*second, x)->0;
                assert(t.panels.to_set().contains(p));
                assert(panel_set(*second).contains(p));
                assert(!panel_set(*first).contains(p));
            }
        },
    }
}

/// The first tile is in the tree.
pub proof fn lemma_first_tile(n: NodeModel)
    ensures
        tile_set(n).contains(first_tile_id(n)),
    decreases n,
{
    match n {
        NodeModel::Leaf(t) => {},
        NodeModel::Branch { first, .. } => {
            lemma_first_tile(*first);
        },
    }
}

/// The id lists hold exactly the id sets, which are finite; in a
/// well-formed tree the lists repeat nothing.
pub proof fn lemma_id_lists(n: NodeModel)
    ensures
        tile_ids(n).to_set() == tile_set(n),
        split_ids(n).to_set() == split_set(n),
        tile_set(n).finite(),
        split_set(n).finite(),
        tile_set(n).len() <= tile_ids(n).len(),
        split_set(n).len() <= split_ids(n).len(),
        ids_unique(n) ==> tile_ids(n).no_duplicates() && split_ids(n).no_duplicates(),
    decreases n,
{
    match n {
        NodeModel::Leaf(t) => {
            lemma_singleton_to_set(t.id);
            assert(Seq::<Seq<char>>::empty().to_set() =~= Set::<Seq<char>>::empty());
        },
        NodeModel::Branch { id, first, second, .. } => {
            lemma_id_lists(*first);
            lemma_id_lists(*second);
            lemma_seq_to_set_add(tile_ids(*first), tile_ids(*second));
            lemma_seq_to_set_add(seq![id] + split_ids(*first), split_ids(*second));
            lemma_seq_to_set_add(seq![id], split_ids(*first));
            lemma_singleton_to_set(id);
            assert(split_ids(n) == seq![id] + split_ids(*first) + split_ids(*second));
            if ids_unique(n) {
                let a = tile_ids(*first);
                let b = tile_ids(*second);
                assert((a + b).no_duplicates()) by {
                    assert forall|i: int, j: int| 0 <= i < (a + b).len() && 0 <= j < (a + b).len()
                        && i != j implies (a + b)[i] != (a + b)[j] by {
                        if i < a.len() && j >= a.len() {
                            assert(a.to_set().contains(a[i]));
                            assert(b.to_set().contains(b[j - a.len()]));
                        } else if i >= a.len() && j < a.len() {
                            assert(a.to_set().contains(a[j]));
                            assert(b.to_set().contains(b[i - a.len()]));
                        }
                    }
                }
                let c = split_ids(*first);
                let d = split_ids(*second);
                let l = seq![id] + c + d;
                assert(l.no_duplicates()) by {
                    assert forall|i: int, j: int| 0 <= i < l.len() && 0 <= j < l.len() && i != j implies l[i]
                        != l[j] by {
                        if i > 0 && i <= c.len() {
                            assert(c.to_set().contains(c[i - 1]));
                        }
                        if j > 0 && j <= c.len() {
                            assert(c.to_set().contains(c[j - 1]));
                        }
                        if i > c.len() {
                            assert(d.to_set().contains(d[i - 1 - c.len()]));
                        }
                        if j > c.len() {
                            assert(d.to_set().contains(d[j - 1 - c.len()]));
                        }
                    }
                }
            }
        },
    }
    vstd::seq_lib::seq_to_set_is_finite(tile_ids(n));
    vstd::seq_lib::seq_to_set_is_finite(split_ids(n));
    tile_ids(n).lemma_cardinality_of_set();
    split_ids(n).lemma_cardinality_of_set();
}


/// Attaching a panel the tree does not hold keeps the tree well formed and
/// adds exactly that panel, to the tile with the id, as its active tab.
pub proof fn lemma_attach(n: NodeModel, id: Seq<char>, p: Seq<char>)
    requires
        wf(n),
        !panel_set(n).contains(p),
    ensures
        attach(n, id, p).1 == tile_set(n).contains(id),
        !attach(n, id, p).1 ==> attach(n, id, p).0 == n,
        wf(attach(n, id, p).0),
        tile_ids(attach(n, id, p).0) == tile_ids(n),
        split_ids(attach(n, id, p).0) == split_ids(n),
        tile_set(attach(n, id, p).0) == tile_set(n),
        split_set(attach(n, id, p).0) == split_set(n),
        panel_set(attach(n, id, p).0) == if attach(n, id, p).1 {
            panel_set(n).insert(p)
        } else {
            panel_set(n)
        },
        attach(n, id, p).1 ==> (find_tile(attach(n, id, p).0, id) matches Some(t) && t.panels.contains(
            p,
        ) && t.active == Some(p)),
    decreases n,
{
    match n {
        NodeModel::Leaf(t) => {
            if t.id == id {
                assert(!t.panels.contains(p)) by {
                    if t.panels.contains(p) {
                        assert(t.panels.to_set().contains(p));
                    }
                }
                lemma_no_dup_push(t.panels, p);
                lemma_seq_to_set_push(t.panels, p);
                assert(t.panels.push(p)[t.panels.len() as int] == p);
            }
        },
        NodeModel::Branch { id: sid, axis, ratio, first, second } => {
            lemma_attach(*first, id, p);
            let (f, done) = attach(*first, id, p);
            if !done {
                lemma_attach(*second, id, p);
                let (sn, done2) = attach(*second, id, p);
                if done2 {
                    lemma_find_tile(f, id);
                    lemma_find_tile(sn, id);
                }
                assert(tile_set(attach(n, id, p).0) =~= tile_set(n));
                assert(split_set(attach(n, id, p).0) =~= split_set(n));
                assert(panel_set(attach(n, id, p).0) =~= if done2 {
                    panel_set(n).insert(p)
                } else {
                    panel_set(n)
                });
            } else {
                assert(tile_set(attach(n, id, p).0) =~= tile_set(n));
                assert(split_set(attach(n, id, p).0) =~= split_set(n));
                assert(panel_set(attach(n, id, p).0) =~= panel_set(n).insert(p));
            }
        },
    }
}

/// Activating keeps the tree well formed and every tile's panels; the tile
/// that holds the panel then has it active, and nothing changes for a
/// panel the tree does not hold.
pub proof fn lemma_activate(n: NodeModel, p: Seq<char>)
    requires
        wf(n),
    ensures
        wf(activate(n, p).0),
        tile_ids(activate(n, p).0) == tile_ids(n),
        split_ids(activate(n, p).0) == split_ids(n),
        tile_set(activate(n, p).0) == tile_set(n),
        split_set(activate(n, p).0) == split_set(n),
        panel_set(activate(n, p).0) == panel_set(n),
        !activate(n, p).1 ==> activate(n, p).0 == n,
        !panel_set(n).contains(p) ==> activate(n, p) == (n, false),
        panel_set(n).contains(p) ==> (find_tile(activate(n, p).0, find_panel_tile(n, p)->0) matches Some(
            t,
        ) && t.active == Some(p) && t.panels.contains(p)),
    decreases n,
{
    match n {
        NodeModel::Leaf(t) => {
            if t.panels.contains(p) {
                assert(t.panels.to_set().contains(p));
                if t.active == Some(p) {
                    assert(activate(n, p).0 =~= n);
                }
            } else {
                assert(!t.panels.to_set().contains(p)) by {
                    if t.panels.to_set().contains(p) {
                        assert(t.panels.contains(p));
                    }
                }
            }
        },
        NodeModel::Branch { id, axis, ratio, first, second } => {
            lemma_activate(*first, p);
            lemma_activate(*second, p);
            lemma_find_panel_tile(*first, p);
            lemma_find_panel_tile(*second, p);
            let (f, changed) = activate(*first, p);
            let (sn, changed2) = activate(*second, p);
            if panel_set(*first).contains(p) {
                let x = find_panel_tile(*first, p)->0;
                lemma_find_tile(f, x);
            } else if panel_set(*second).contains(p) {
                let x = find_panel_tile(*second, p)->0;
                lemma_find_tile(*first, x);
                lemma_find_tile(sn, x);
            }
            assert(tile_set(activate(n, p).0) =~= tile_set(n));
            assert(split_set(activate(n, p).0) =~= split_set(n));
            assert(panel_set(activate(n, p).0) =~= panel_set(n));
        },
    }
}


/// Removing a panel from a list removes exactly it.
pub proof fn lemma_without(ps: Seq<Seq<char>>, p: Seq<char>)
    ensures
        without(ps, p).to_set() == ps.to_set().remove(p),
        ps.no_duplicates() ==> without(ps, p).no_duplicates(),
        !ps.contains(p) ==> without(ps, p) == ps,
    decreases ps.len(),
{
    if ps.len() == 0 {
        assert(ps.to_set() =~= Set::<Seq<char>>::empty());
        assert(without(ps, p).to_set() =~= ps.to_set().remove(p));
    } else {
        let init = ps.drop_last();
        let x = ps.last();
        lemma_without(init, p);
        assert(init.push(x) =~= ps);
        lemma_seq_to_set_push(init, x);
        lemma_no_dup_push(init, x);
        let w = without(init, p);
        if x == p {
            assert(without(ps, p).to_set() =~= ps.to_set().remove(p));
        } else {
            lemma_seq_to_set_push(w, x);
            lemma_no_dup_push(w, x);
            assert(without(ps, p).to_set() =~= ps.to_set().remove(p));
            if ps.no_duplicates() {
                assert(!w.contains(x)) by {
                    if w.contains(x) {
                        assert(w.to_set().contains(x));
                        assert(init.to_set().contains(x));
                    }
                }
            }
        }
        if !ps.contains(p) {
            assert(!init.contains(p)) by {
                if init.contains(p) {
                    let i = choose|i: int| 0 <= i < init.len() && init[i] == p;
                    assert(ps[i] == p);
                }
            }
            assert(x != p) by {
                assert(ps[ps.len() - 1] == x);
            }
        }
    }
}

/// A repaired active tab is one of the panels, and none only when there are
/// none.
pub proof fn lemma_repair_active(ps: Seq<Seq<char>>, a: Option<Seq<char>>)
    ensures
        match repair_active(ps, a) {
            Some(x) => ps.contains(x),
            None => ps.len() == 0,
        },
{
    if ps.len() > 0 {
        assert(ps[0] == ps[0]);
    }
}

/// Removing a panel keeps the tree well formed, drops only that panel, and
/// never adds an id.
pub proof fn lemma_remove_panel(n: NodeModel, p: Seq<char>)
    requires
        wf(n),
    ensures
        match remove_panel(n, p) {
            Some(m) => {
                &&& wf(m)
                &&& tile_set(m).subset_of(tile_set(n))
                &&& split_set(m).subset_of(split_set(n))
                &&& panel_set(m) == panel_set(n).remove(p)
            },
            None => panel_set(n).subset_of(set![p]),
        },
    decreases n,
{
    match n {
        NodeModel::Leaf(t) => {
            lemma_without(t.panels, p);
            let w = without(t.panels, p);
            lemma_repair_active(w, t.active);
            if w.len() == 0 {
                assert(w.to_set() =~= Set::<Seq<char>>::empty());
                assert forall|a: Seq<char>| panel_set(n).contains(a) implies set![p].contains(a) by {
                    if a != p {
                        assert(w.to_set().contains(a));
                    }
                }
            }
        },
        NodeModel::Branch { id, axis, ratio, first, second } => {
            lemma_remove_panel(*first, p);
            lemma_remove_panel(*second, p);
            match (remove_panel(*first, p), remove_panel(*second, p)) {
                (Some(f), Some(sn)) => {
                    let m = remove_panel(n, p)->0;
                    assert(panel_set(m) =~= panel_set(n).remove(p));
                },
                (Some(f), None) => {
                    assert(panel_set(f) =~= panel_set(n).remove(p));
                },
                (None, Some(sn)) => {
                    assert(panel_set(sn) =~= panel_set(n).remove(p));
                },
                (None, None) => {},
            }
        },
    }
}

/// A tile that keeps some panel, or held none, survives a removal,
/// holding what is left.
pub proof fn lemma_remove_panel_keeps(n: NodeModel, p: Seq<char>, x: Seq<char>)
    requires
        wf(n),
        find_tile(n, x) is Some,
        without(find_tile(n, x)->0.panels, p).len() > 0 || find_tile(n, x)->0.panels.len() == 0,
    ensures
        remove_panel(n, p) is Some,
        find_tile(remove_panel(n, p)->0, x) is Some,
        find_tile(remove_panel(n, p)->0, x)->0.panels == without(find_tile(n, x)->0.panels, p),
    decreases n,
{
    match n {
        NodeModel::Leaf(t) => {
            if t.panels.len() == 0 {
                assert(t.panels =~= Seq::<Seq<char>>::empty());
                assert(without(t.panels, p) == t.panels);
            }
        },
        NodeModel::Branch { id, axis, ratio, first, second } => {
            lemma_find_tile(*first, x);
            lemma_find_tile(*second, x);
            lemma_remove_panel(*first, p);
            lemma_remove_panel(*second, p);
            if find_tile(*first, x) is Some {
                lemma_remove_panel_keeps(*first, p, x);
            } else {
                lemma_remove_panel_keeps(*second, p, x);
                if remove_panel(*first, p) is Some {
                    lemma_find_tile(remove_panel(*first, p)->0, x);
                }
            }
        },
    }
}

/// Removing an empty (or absent) tile keeps the tree well formed and every
/// panel.
pub proof fn lemma_remove_tile(n: NodeModel, x: Seq<char>)
    requires
        wf(n),
        match find_tile(n, x) {
            Some(t) => t.panels.len() == 0,
            None => true,
        },
    ensures
        !tile_set(n).contains(x) ==> remove_tile(n, x) == Some(n),
        match remove_tile(n, x) {
            Some(m) => {
                &&& wf(m)
                &&& tile_set(m) == tile_set(n).remove(x)
                &&& split_set(m).subset_of(split_set(n))
                &&& panel_set(m) == panel_set(n)
            },
            None => panel_set(n) == Set::<Seq<char>>::empty() && tile_set(n) == set![x],
        },
    decreases n,
{
    match n {
        NodeModel::Leaf(t) => {
            if t.id == x {
                assert(t.panels.to_set() =~= Set::<Seq<char>>::empty());
                assert(tile_set(n) =~= set![x]);
            } else {
                assert(tile_set(n).remove(x) =~= tile_set(n));
            }
        },
        NodeModel::Branch { id, axis, ratio, first, second } => {
            lemma_find_tile(*first, x);
            lemma_find_tile(*second, x);
            lemma_remove_tile(*first, x);
            lemma_remove_tile(*second, x);
            match (remove_tile(*first, x), remove_tile(*second, x)) {
                (Some(f), Some(sn)) => {
                    let m = remove_tile(n, x)->0;
                    assert(tile_set(m) =~= tile_set(n).remove(x));
                    assert(panel_set(m) =~= panel_set(n));
                },
                (Some(f), None) => {
                    assert(tile_set(f) =~= tile_set(n).remove(x));
                    assert(panel_set(f) =~= panel_set(n));
                },
                (None, Some(sn)) => {
                    assert(tile_set(sn) =~= tile_set(n).remove(x));
                    assert(panel_set(sn) =~= panel_set(n));
                },
                (None, None) => {
                    assert(panel_set(n) =~= Set::<Seq<char>>::empty());
                },
            }
        },
    }
}

/// Splitting a tile with a fresh, well-formed tile and a fresh split id
/// keeps the tree well formed and adds exactly those ids and panels.
pub proof fn lemma_insert_split(
    n: NodeModel,
    target: Seq<char>,
    sid: Seq<char>,
    tile: TileModel,
    zone: DockZone,
)
    requires
        wf(n),
        !split_set(n).contains(sid),
        !tile_set(n).contains(tile.id),
        tile_ok(tile),
        tile.panels.to_set().disjoint(panel_set(n)),
        zone_axis(zone) is Some,
    ensures
        insert_split(n, target, sid, tile, zone).1 == tile_set(n).contains(target),
        !insert_split(n, target, sid, tile, zone).1 ==> insert_split(n, target, sid, tile, zone).0
            == n,
        wf(insert_split(n, target, sid, tile, zone).0),
        insert_split(n, target, sid, tile, zone).1 ==> {
            let m = insert_split(n, target, sid, tile, zone).0;
            &&& tile_set(m) == tile_set(n).insert(tile.id)
            &&& split_set(m) == split_set(n).insert(sid)
            &&& panel_set(m) == panel_set(n) + tile.panels.to_set()
            &&& find_tile(m, tile.id) == Some(tile)
        },
    decreases n,
{
    match n {
        NodeModel::Leaf(existing) => {
            if existing.id == target {
                let m = insert_split(n, target, sid, tile, zone).0;
                let axis = zone_axis(zone)->0;
                let new = NodeModel::Leaf(tile);
                assert(tile_set(new) == set![tile.id]);
                assert(split_set(new) == Set::<Seq<char>>::empty());
                assert(split_set(n) == Set::<Seq<char>>::empty());
                assert(panel_set(new) == tile.panels.to_set());
                assert(tile.id != existing.id);
                assert(tile_set(new).disjoint(tile_set(n)));
                assert(tile_set(n).disjoint(tile_set(new)));
                assert(panel_set(n).disjoint(panel_set(new)));
                assert(panel_set(new).disjoint(panel_set(n)));
                assert(find_tile(new, tile.id) == Some(tile));
                assert(find_tile(n, tile.id) is None);
                assert(ratio_ok(HALF_RATIO as int));
                assert(wf(new));
                if zone_before(zone) {
                    assert(m == NodeModel::Branch {
                        id: sid,
                        axis,
                        ratio: HALF_RATIO as int,
                        first: Box::new(new),
                        second: Box::new(n),
                    });
                } else {
                    assert(m == NodeModel::Branch {
                        id: sid,
                        axis,
                        ratio: HALF_RATIO as int,
                        first: Box::new(n),
                        second: Box::new(new),
                    });
                }
                assert(tile_set(m) =~= tile_set(n).insert(tile.id));
                assert(split_set(m) =~= split_set(n).insert(sid));
                assert(panel_set(m) =~= panel_set(n) + tile.panels.to_set());
            }
        },
        NodeModel::Branch { id, axis, ratio, first, second } => {
            lemma_insert_split(*first, target, sid, tile, zone);
            lemma_insert_split(*second, target, sid, tile, zone);
            let (f, done) = insert_split(*first, target, sid, tile, zone);
            let (sn, done2) = insert_split(*second, target, sid, tile, zone);
            let m = insert_split(n, target, sid, tile, zone).0;
            if done {
                lemma_find_tile(f, tile.id);
                assert(tile_set(m) =~= tile_set(n).insert(tile.id));
                assert(split_set(m) =~= split_set(n).insert(sid));
                assert(panel_set(m) =~= panel_set(n) + tile.panels.to_set());
            } else if done2 {
                lemma_find_tile(*first, tile.id);
                assert(tile_set(m) =~= tile_set(n).insert(tile.id));
                assert(split_set(m) =~= split_set(n).insert(sid));
                assert(panel_set(m) =~= panel_set(n) + tile.panels.to_set());
            }
        },
    }
}

/// Pruning keeps the tree well formed and every panel.
pub proof fn lemma_prune(n: NodeModel, protected: Set<Seq<char>>)
    requires
        wf(n),
    ensures
        match prune(n, protected) {
            Some(m) => {
                &&& wf(m)
                &&& tile_set(m).subset_of(tile_set(n))
                &&& split_set(m).subset_of(split_set(n))
                &&& panel_set(m) == panel_set(n)
            },
            None => panel_set(n) == Set::<Seq<char>>::empty(),
        },
    decreases n,
{
    match n {
        NodeModel::Leaf(t) => {
            if !(t.panels.len() > 0 || t.preserve || protected.contains(t.id)) {
                assert(t.panels.to_set() =~= Set::<Seq<char>>::empty());
            }
        },
        NodeModel::Branch { id, axis, ratio, first, second } => {
            lemma_prune(*first, protected);
            lemma_prune(*second, protected);
            match (prune(*first, protected), prune(*second, protected)) {
                (Some(f), Some(sn)) => {
                    let m = prune(n, protected)->0;
                    assert(panel_set(m) =~= panel_set(n));
                },
                (Some(f), None) => {
                    assert(panel_set(f) =~= panel_set(n));
                },
                (None, Some(sn)) => {
                    assert(panel_set(sn) =~= panel_set(n));
                },
                (None, None) => {
                    assert(panel_set(n) =~= Set::<Seq<char>>::empty());
                },
            }
        },
    }
}

/// Keeping the available, not-yet-seen panels of a list.
pub proof fn lemma_retain_new(ps: Seq<Seq<char>>, available: Set<Seq<char>>, seen: Seq<Seq<char>>)
    ensures
        retain_new(ps, available, seen).0.no_duplicates(),
        retain_new(ps, available, seen).0.to_set().disjoint(seen.to_set()),
        retain_new(ps, available, seen).0.to_set().subset_of(available),
        retain_new(ps, available, seen).1 == seen + retain_new(ps, available, seen).0,
        forall|x: Seq<char>| #[trigger]
            ps.contains(x) && available.contains(x) ==> retain_new(ps, available, seen).1.contains(
                x,
            ),
    decreases ps.len(),
{
    if ps.len() == 0 {
        assert(seen + ps =~= seen);
        assert(ps.to_set() =~= Set::<Seq<char>>::empty());
    } else {
        let init = ps.drop_last();
        let x = ps.last();
        lemma_retain_new(init, available, seen);
        let (k, s2) = retain_new(init, available, seen);
        assert(init.push(x) =~= ps);
        if available.contains(x) && !s2.contains(x) {
            lemma_no_dup_push(k, x);
            lemma_seq_to_set_push(k, x);
            assert(!k.contains(x)) by {
                if k.contains(x) {
                    let i = choose|i: int| 0 <= i < k.len() && k[i] == x;
                    assert(s2[seen.len() + i] == x);
                }
            }
            assert(!seen.contains(x)) by {
                if seen.contains(x) {
                    let i = choose|i: int| 0 <= i < seen.len() && seen[i] == x;
                    assert(s2[i] == x);
                }
            }
            assert(s2.push(x) =~= seen + k.push(x));
            assert forall|y: Seq<char>| #[trigger]
                ps.contains(y) && available.contains(y) implies s2.push(x).contains(y) by {
                if y == x {
                    assert(s2.push(x)[s2.len() as int] == x);
                } else {
                    let i = choose|i: int| 0 <= i < ps.len() && ps[i] == y;
                    assert(init[i] == y);
                    assert(init.contains(y));
                    let j = choose|j: int| 0 <= j < s2.len() && s2[j] == y;
                    assert(s2.push(x)[j] == y);
                }
            }
        } else {
            assert forall|y: Seq<char>| #[trigger]
                ps.contains(y) && available.contains(y) implies s2.contains(y) by {
                if y != x {
                    let i = choose|i: int| 0 <= i < ps.len() && ps[i] == y;
                    assert(init[i] == y);
                    assert(init.contains(y));
                }
            }
        }
    }
}

/// Reconciling a tree with unique ids makes it well formed, keeps its ids,
/// and keeps exactly the available panels not seen before (all of them
/// end up seen).
pub proof fn lemma_reconcile_node(n: NodeModel, available: Set<Seq<char>>, seen: Seq<Seq<char>>)
    ensures
        contents_ok(reconcile_node(n, available, seen).0),
        ids_unique(n) ==> wf(reconcile_node(n, available, seen).0),
        tile_ids(reconcile_node(n, available, seen).0) == tile_ids(n),
        split_ids(reconcile_node(n, available, seen).0) == split_ids(n),
        tile_set(reconcile_node(n, available, seen).0) == tile_set(n),
        split_set(reconcile_node(n, available, seen).0) == split_set(n),
        panel_set(reconcile_node(n, available, seen).0).subset_of(available),
        panel_set(reconcile_node(n, available, seen).0).disjoint(seen.to_set()),
        reconcile_node(n, available, seen).1.to_set() == seen.to_set() + panel_set(
            reconcile_node(n, available, seen).0,
        ),
        forall|x: Seq<char>| #[trigger]
            panel_set(n).contains(x) && available.contains(x) ==> reconcile_node(
                n,
                available,
                seen,
            ).1.contains(x),
    decreases n,
{
    match n {
        NodeModel::Leaf(t) => {
            lemma_retain_new(t.panels, available, seen);
            let (kept, s2) = retain_new(t.panels, available, seen);
            lemma_repair_active(kept, t.active);
            lemma_seq_to_set_add(seen, kept);
            assert forall|x: Seq<char>| #[trigger]
                panel_set(n).contains(x) && available.contains(x) implies s2.contains(x) by {
                assert(t.panels.contains(x));
            }
        },
        NodeModel::Branch { id, axis, ratio, first, second } => {
            lemma_reconcile_node(*first, available, seen);
            let (f, s1) = reconcile_node(*first, available, seen);
            lemma_reconcile_node(*second, available, s1);
            let (sn, s2) = reconcile_node(*second, available, s1);
            let m = reconcile_node(n, available, seen).0;
            assert(panel_set(f).disjoint(panel_set(sn)));
            assert(panel_set(m) =~= panel_set(f) + panel_set(sn));
            assert(s2.to_set() =~= seen.to_set() + panel_set(m));
            assert forall|x: Seq<char>| #[trigger]
                panel_set(n).contains(x) && available.contains(x) implies s2.contains(x) by {
                if panel_set(*first).contains(x) {
                    assert(s1.contains(x));
                    assert(s1.to_set().contains(x));
                    assert(s2.to_set().contains(x));
                } else {
                    assert(panel_set(*second).contains(x));
                }
            }
        },
    }
}


/// The axis of the split with this id (horizontal when there is none).
pub open spec fn split_axis_at(n: NodeModel, id: Seq<char>) -> SplitAxis {
    match find_split(n, id) {
        Some((axis, _)) => axis,
        None => SplitAxis::Horizontal,
    }
}

/// A split is found exactly when its id is in the tree.
pub proof fn lemma_find_split(n: NodeModel, id: Seq<char>)
    ensures
        (find_split(n, id) is Some) == split_set(n).contains(id),
    decreases n,
{
    match n {
        NodeModel::Leaf(_) => {},
        NodeModel::Branch { first, second, .. } => {
            lemma_find_split(*first, id);
            lemma_find_split(*second, id);
        },
    }
}

/// Setting an in-range ratio keeps the tree well formed and its ids and
/// panels; the split then reads back that ratio.
pub proof fn lemma_set_ratio(n: NodeModel, id: Seq<char>, r: int)
    requires
        wf(n),
        ratio_ok(r),
    ensures
        set_ratio(n, id, r).1 == split_set(n).contains(id),
        !set_ratio(n, id, r).1 ==> set_ratio(n, id, r).0 == n,
        wf(set_ratio(n, id, r).0),
        tile_set(set_ratio(n, id, r).0) == tile_set(n),
        split_set(set_ratio(n, id, r).0) == split_set(n),
        panel_set(set_ratio(n, id, r).0) == panel_set(n),
        set_ratio(n, id, r).1 ==> find_split(set_ratio(n, id, r).0, id) == Some(
            (split_axis_at(n, id), r),
        ),
    decreases n,
{
    lemma_find_split(n, id);
    match n {
        NodeModel::Leaf(_) => {},
        NodeModel::Branch { id: sid, axis, ratio, first, second } => {
            lemma_set_ratio(*first, id, r);
            lemma_set_ratio(*second, id, r);
            lemma_find_split(*first, id);
            lemma_find_split(*second, id);
            let m = set_ratio(n, id, r).0;
            assert(tile_set(m) =~= tile_set(n));
            assert(split_set(m) =~= split_set(n));
            assert(panel_set(m) =~= panel_set(n));
            if sid != id && !set_ratio(*first, id, r).1 && set_ratio(*second, id, r).1 {
                lemma_find_split(set_ratio(*first, id, r).0, id);
            }
        },
    }
}

} // verus!
