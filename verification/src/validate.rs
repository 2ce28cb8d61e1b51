//! Validation of a layout: format version, unique tile, split and panel
//! ids, active tabs that exist, and in-range ratios. The first violation in
//! traversal order names the error.
use vstd::prelude::*;

use crate::ids::{decimal, decimal_text, PanelId, SplitId, TileId};
use crate::layout::PanelLayout;
use crate::model::{
    panel_texts, split_texts, tile_texts, LayoutError, LayoutNode, NodeModel, LAYOUT_VERSION,
    MAX_SPLIT_RATIO, MIN_SPLIT_RATIO,
};
use crate::ops::{lemma_split_texts_push, lemma_tile_texts_push, panels_contain};
use crate::model::lemma_panel_texts_push;

verus! {

/// `n` zero digits.
pub open spec fn zeros(n: nat) -> Seq<char>
    decreases n,
{
    if n == 0 {
        Seq::empty()
    } else {
        zeros((n - 1) as nat).push('0')
    }
}

/// The digits of a fraction `f / 10^width`, without trailing zeros.
pub open spec fn fraction_text(f: nat, width: nat) -> Seq<char>
    decreases width,
{
    if width > 0 && f > 0 && f % 10 == 0 {
        fraction_text(f / 10, (width - 1) as nat)
    } else if decimal(f).len() < width {
        zeros((width - decimal(f).len()) as nat) + decimal(f)
    } else {
        decimal(f)
    }
}

/// The decimal text of a share in millionths: whole part, and a fraction
/// without trailing zeros when there is one.
pub open spec fn magnitude_text(u: nat) -> Seq<char> {
    let whole = u / 1_000_000;
    let frac = u % 1_000_000;
    if frac == 0 {
        decimal(whole)
    } else {
        decimal(whole) + "."@ + fraction_text(frac, 6)
    }
}

/// The decimal text of a ratio in millionths, signed.
pub open spec fn ratio_text(r: int) -> Seq<char> {
    if r < 0 {
        "-"@ + magnitude_text((-r) as nat)
    } else {
        magnitude_text(r as nat)
    }
}

pub open spec fn msg_duplicate_tile(id: Seq<char>) -> Seq<char> {
    "duplicate tile id `"@ + id + "`"@
}

pub open spec fn msg_duplicate_panel(panel: Seq<char>) -> Seq<char> {
    "panel `"@ + panel + "` appears in more than one tile"@
}

pub open spec fn msg_foreign_active(id: Seq<char>, active: Seq<char>) -> Seq<char> {
    "tile `"@ + id + "` activates `"@ + active + "`, which it does not contain"@
}

pub open spec fn msg_no_active(id: Seq<char>) -> Seq<char> {
    "tile `"@ + id + "` holds panels but activates none of them"@
}

pub open spec fn msg_duplicate_split(id: Seq<char>) -> Seq<char> {
    "duplicate split id `"@ + id + "`"@
}

pub open spec fn msg_ratio(id: Seq<char>, ratio: int) -> Seq<char> {
    "split `"@ + id + "` ratio "@ + ratio_text(ratio) + " is outside 0.1..=0.9"@
}

/// Record each panel as seen; the first one seen before is the error.
pub open spec fn check_panels(panels: Seq<Seq<char>>, seen: Seq<Seq<char>>) -> Result<
    Seq<Seq<char>>,
    Seq<char>,
>
    decreases panels.len(),
{
    if panels.len() == 0 {
        Ok(seen)
    } else {
        match check_panels(panels.drop_last(), seen) {
            Err(m) => Err(m),
            Ok(s) => if s.contains(panels.last()) {
                Err(msg_duplicate_panel(panels.last()))
            } else {
                Ok(s.push(panels.last()))
            },
        }
    }
}

/// Walk the tree in first-child order, recording tile, split and panel ids;
/// the first violation is the error, otherwise the ids seen.
pub open spec fn check_node(
    n: NodeModel,
    tiles: Seq<Seq<char>>,
    splits: Seq<Seq<char>>,
    panels: Seq<Seq<char>>,
) -> Result<(Seq<Seq<char>>, Seq<Seq<char>>, Seq<Seq<char>>), Seq<char>>
    decreases n,
{
    match n {
        NodeModel::Leaf(t) => if tiles.contains(t.id) {
            Err(msg_duplicate_tile(t.id))
        } else {
            match check_panels(t.panels, panels) {
                Err(m) => Err(m),
                Ok(p2) => match t.active {
                    Some(a) => if !t.panels.contains(a) {
                        Err(msg_foreign_active(t.id, a))
                    } else {
                        Ok((tiles.push(t.id), splits, p2))
                    },
                    None => if t.panels.len() > 0 {
                        Err(msg_no_active(t.id))
                    } else {
                        Ok((tiles.push(t.id), splits, p2))
                    },
                },
            }
        },
        NodeModel::Branch { id, ratio, first, second, .. } => if splits.contains(id) {
            Err(msg_duplicate_split(id))
        } else if ratio < MIN_SPLIT_RATIO || ratio > MAX_SPLIT_RATIO {
            Err(msg_ratio(id, ratio))
        } else {
            match check_node(*first, tiles, splits.push(id), panels) {
                Err(m) => Err(m),
                Ok((t1, s1, p1)) => check_node(*second, t1, s1, p1),
            }
        },
    }
}

/// What validating a layout with this version and tree yields.
pub open spec fn validation(version: u8, root: NodeModel) -> Result<(), Option<Seq<char>>> {
    if version != LAYOUT_VERSION {
        Err(None)
    } else {
        match check_node(root, Seq::empty(), Seq::empty(), Seq::empty()) {
            Ok(_) => Ok(()),
            Err(m) => Err(Some(m)),
        }
    }
}

fn join3(a: &str, b: &str, c: &str) -> (r: String)
    ensures
        r@ == a@ + b@ + c@,
{
    let mut s = String::from_str(a);
    s.append(b);
    s.append(c);
    s
}

fn digit_count(n: u64) -> (r: u64)
    ensures
        r == decimal(n as nat).len(),
        r <= n + 1,
    decreases n,
{
    if n < 10 {
        1
    } else {
        digit_count(n / 10) + 1
    }
}

fn zeros_text(n: u64) -> (r: String)
    ensures
        r@ == zeros(n as nat),
{
    let mut s = String::new();
    let mut i: u64 = 0;
    while i < n
        invariant
            i <= n,
            s@ == zeros(i as nat),
        decreases n - i,
    {
        proof {
            reveal_strlit("0");
        }
        s.append("0");
        i += 1;
    }
    s
}

fn fraction_text_of(f: u64, width: u64) -> (r: String)
    requires
        width <= 6,
    ensures
        r@ == fraction_text(f as nat, width as nat),
{
    let mut f = f;
    let mut width = width;
    let ghost goal = fraction_text(f as nat, width as nat);
    while width > 0 && f > 0 && f % 10 == 0
        invariant
            fraction_text(f as nat, width as nat) == goal,
        decreases width,
    {
        f = f / 10;
        width = width - 1;
    }
    let digits = decimal_text(f);
    let count = digit_count(f);
    if count < width {
        let mut s = zeros_text(width - count);
        s.append(digits.as_str());
        s
    } else {
        digits
    }
}

fn magnitude_text_of(u: u64) -> (r: String)
    ensures
        r@ == magnitude_text(u as nat),
{
    let whole = u / 1_000_000;
    let frac = u % 1_000_000;
    let mut s = decimal_text(whole);
    if frac != 0 {
        proof {
            reveal_strlit(".");
        }
        s.append(".");
        let f = fraction_text_of(frac, 6);
        s.append(f.as_str());
    }
    s
}

/// The decimal text of a ratio in millionths.
pub fn ratio_text_of(r: i64) -> (t: String)
    ensures
        t@ == ratio_text(r as int),
{
    if r < 0 {
        let u: u64 = if r == i64::MIN {
            9_223_372_036_854_775_808u64
        } else {
            (-r) as u64
        };
        let m = magnitude_text_of(u);
        proof {
            reveal_strlit("-");
        }
        let mut s = String::from_str("-");
        s.append(m.as_str());
        s
    } else {
        magnitude_text_of(r as u64)
    }
}

fn check_tile_panels(panels: &Vec<PanelId>, seen: &mut Vec<PanelId>) -> (r: Result<(), String>)
    ensures
        match r {
            Ok(()) => check_panels(panel_texts(panels@), panel_texts(old(seen)@)) == Ok::<
                Seq<Seq<char>>,
                Seq<char>,
            >(panel_texts(final(seen)@)),
            Err(m) => check_panels(panel_texts(panels@), panel_texts(old(seen)@)) == Err::<
                Seq<Seq<char>>,
                Seq<char>,
            >(m@),
        },
{
    let ghost ps = panel_texts(panels@);
    let mut i: usize = 0;
    while i < panels.len()
        invariant
            i <= panels.len(),
            ps == panel_texts(panels@),
            check_panels(ps.take(i as int), panel_texts(old(seen)@)) == Ok::<
                Seq<Seq<char>>,
                Seq<char>,
            >(panel_texts(seen@)),
        decreases panels.len() - i,
    {
        let ghost prefix = ps.take(i + 1);
        assert(prefix.drop_last() =~= ps.take(i as int));
        assert(prefix.last() == panels@[i as int]@);
        let p = &panels[i];
        if panels_contain(seen, p) {
            proof {
                reveal_strlit("panel `");
                reveal_strlit("` appears in more than one tile");
            }
            let m = join3("panel `", p.as_str(), "` appears in more than one tile");
            proof {
                let whole = ps.take(i as int + 1);
                assert(check_panels(whole, panel_texts(old(seen)@)) == Err::<
                    Seq<Seq<char>>,
                    Seq<char>,
                >(m@));
                lemma_check_panels_err_extends(ps, i as int + 1, panel_texts(old(seen)@), m@);
            }
            return Err(m);
        }
        let d = p.duplicate();
        proof {
            lemma_panel_texts_push(seen@, d);
        }
        seen.push(d);
        i += 1;
    }
    assert(ps.take(i as int) =~= ps);
    Ok(())
}

/// Once a prefix fails, the whole list fails with the same message.
proof fn lemma_check_panels_err_extends(ps: Seq<Seq<char>>, k: int, seen: Seq<Seq<char>>, m: Seq<
    char,
>)
    requires
        0 <= k <= ps.len(),
        check_panels(ps.take(k), seen) == Err::<Seq<Seq<char>>, Seq<char>>(m),
    ensures
        check_panels(ps, seen) == Err::<Seq<Seq<char>>, Seq<char>>(m),
    decreases ps.len() - k,
{
    if k < ps.len() {
        let next = ps.take(k + 1);
        assert(next.drop_last() =~= ps.take(k));
        lemma_check_panels_err_extends(ps, k + 1, seen, m);
    } else {
        assert(ps.take(k) =~= ps);
    }
}

fn tile_ids_contain(ids: &Vec<TileId>, id: &TileId) -> (r: bool)
    ensures
        r == tile_texts(ids@).contains(id@),
{
    let mut i: usize = 0;
    while i < ids.len()
        invariant
            i <= ids.len(),
            forall|j: int| 0 <= j < i ==> tile_texts(ids@)[j] != id@,
        decreases ids.len() - i,
    {
        if ids[i].same(id) {
            assert(tile_texts(ids@)[i as int] == id@);
            return true;
        }
        i += 1;
    }
    false
}

fn split_ids_contain(ids: &Vec<SplitId>, id: &SplitId) -> (r: bool)
    ensures
        r == split_texts(ids@).contains(id@),
{
    let mut i: usize = 0;
    while i < ids.len()
        invariant
            i <= ids.len(),
            forall|j: int| 0 <= j < i ==> split_texts(ids@)[j] != id@,
        decreases ids.len() - i,
    {
        if ids[i].same(id) {
            assert(split_texts(ids@)[i as int] == id@);
            return true;
        }
        i += 1;
    }
    false
}

/// Check a subtree against the ids seen so far, recording its own.
pub fn validate_node(
    node: &LayoutNode,
    tiles: &mut Vec<TileId>,
    splits: &mut Vec<SplitId>,
    panels: &mut Vec<PanelId>,
) -> (r: Result<(), String>)
    ensures
        match r {
            Ok(()) => check_node(
                node.model(),
                tile_texts(old(tiles)@),
                split_texts(old(splits)@),
                panel_texts(old(panels)@),
            ) == Ok::<(Seq<Seq<char>>, Seq<Seq<char>>, Seq<Seq<char>>), Seq<char>>(
                (tile_texts(final(tiles)@), split_texts(final(splits)@), panel_texts(final(panels)@)),
            ),
            Err(m) => check_node(
                node.model(),
                tile_texts(old(tiles)@),
                split_texts(old(splits)@),
                panel_texts(old(panels)@),
            ) == Err::<(Seq<Seq<char>>, Seq<Seq<char>>, Seq<Seq<char>>), Seq<char>>(m@),
        },
    decreases node,
{
    match node {
        LayoutNode::Tile(tile) => {
            if tile_ids_contain(tiles, &tile.id) {
                proof {
                    reveal_strlit("duplicate tile id `");
                    reveal_strlit("`");
                }
                return Err(join3("duplicate tile id `", tile.id.as_str(), "`"));
            }
            let d = tile.id.duplicate();
            proof {
                lemma_tile_texts_push(tiles@, d);
            }
            tiles.push(d);
            match check_tile_panels(&tile.panels, panels) {
                Err(m) => return Err(m),
                Ok(()) => {},
            }
            match &tile.active {
                Some(active) => {
                    if !panels_contain(&tile.panels, active) {
                        let mut m = join3("tile `", tile.id.as_str(), "` activates `");
                        m.append(active.as_str());
                        m.append("`, which it does not contain");
                        proof {
                            reveal_strlit("tile `");
                            reveal_strlit("` activates `");
                            reveal_strlit("`, which it does not contain");
                            assert(m@ =~= msg_foreign_active(tile.id@, active@));
                        }
                        return Err(m);
                    }
                },
                None => {
                    if tile.panels.len() > 0 {
                        proof {
                            reveal_strlit("tile `");
                            reveal_strlit("` holds panels but activates none of them");
                        }
                        return Err(
                            join3(
                                "tile `",
                                tile.id.as_str(),
                                "` holds panels but activates none of them",
                            ),
                        );
                    }
                },
            }
            Ok(())
        },
        LayoutNode::Split { id, ratio, first, second, .. } => {
            if split_ids_contain(splits, id) {
                proof {
                    reveal_strlit("duplicate split id `");
                    reveal_strlit("`");
                }
                return Err(join3("duplicate split id `", id.as_str(), "`"));
            }
            if *ratio < MIN_SPLIT_RATIO || *ratio > MAX_SPLIT_RATIO {
                let mut m = join3("split `", id.as_str(), "` ratio ");
                let t = ratio_text_of(*ratio);
                m.append(t.as_str());
                m.append(" is outside 0.1..=0.9");
                proof {
                    reveal_strlit("split `");
                    reveal_strlit("` ratio ");
                    reveal_strlit(" is outside 0.1..=0.9");
                    assert(m@ =~= msg_ratio(id@, *ratio as int));
                }
                return Err(m);
            }
            let d = id.duplicate();
            proof {
                lemma_split_texts_push(splits@, d);
            }
            splits.push(d);
            match validate_node(&**first, tiles, splits, panels) {
                Err(m) => return Err(m),
                Ok(()) => {},
            }
            validate_node(&**second, tiles, splits, panels)
        },
    }
}

impl PanelLayout {
    /// Check every invariant: format version, unique tile/split/panel ids,
    /// active tabs that exist, and in-range ratios.
    pub fn validate(&self) -> (r: Result<(), LayoutError>)
        ensures
            match r {
                Ok(()) => validation(self.version_of(), self.tree()) == Ok::<(), Option<Seq<char>>>(()),
                Err(LayoutError::Version { found }) => found == self.version_of() && validation(
                    self.version_of(),
                    self.tree(),
                ) == Err::<(), Option<Seq<char>>>(None),
                Err(LayoutError::Invalid(m)) => validation(self.version_of(), self.tree())
                    == Err::<(), Option<Seq<char>>>(Some(m@)),
                Err(LayoutError::Malformed) => false,
            },
    {
        let version = self.version();
        if version != LAYOUT_VERSION {
            return Err(LayoutError::Version { found: version });
        }
        let mut tiles: Vec<TileId> = Vec::new();
        let mut splits: Vec<SplitId> = Vec::new();
        let mut panels: Vec<PanelId> = Vec::new();
        assert(tile_texts(tiles@) =~= Seq::<Seq<char>>::empty());
        assert(split_texts(splits@) =~= Seq::<Seq<char>>::empty());
        assert(panel_texts(panels@) =~= Seq::<Seq<char>>::empty());
        match validate_node(self.root_ref(), &mut tiles, &mut splits, &mut panels) {
            Ok(()) => Ok(()),
            Err(m) => Err(LayoutError::Invalid(m)),
        }
    }

    /// Whether `validate` accepts the layout.
    pub fn valid(&self) -> (r: bool)
        ensures
            r == (validation(self.version_of(), self.tree()) is Ok),
    {
        self.validate().is_ok()
    }
}

impl LayoutError {
    /// The human-readable reason.
    pub fn message(&self) -> (r: String)
        ensures
            r@ == match self {
                LayoutError::Malformed => "not a panel layout"@,
                LayoutError::Version { found } => "layout format version "@ + decimal(*found as nat)
                    + " (this crate reads version 1)"@,
                LayoutError::Invalid(reason) => "invalid layout: "@ + reason@,
            },
    {
        match self {
            LayoutError::Malformed => String::from_str("not a panel layout"),
            LayoutError::Version { found } => {
                let digits = decimal_text(*found as u64);
                join3("layout format version ", digits.as_str(), " (this crate reads version 1)")
            },
            LayoutError::Invalid(reason) => {
                let mut s = String::from_str("invalid layout: ");
                s.append(reason.as_str());
                s
            },
        }
    }
}

} // verus!
