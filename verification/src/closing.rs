//! Finishing closes. Closing a panel is the application's decision: the
//! workspace asks, and the close completes when the application takes the
//! panel out of its registry. Until then nothing changes.
use vstd::prelude::*;

use crate::ids::PanelId;
use crate::layout::{reconcile_layout, CloseOutcome, PanelLayout};
use crate::model::{
    lemma_panel_texts_push, opt_text, panel_texts, placement_models, NodeModel, PanelPlacement, Tile,
    TileModel,
};
use crate::ops::{placements_have_panel, same_tree};
use crate::laws::law_close_takes_out_one_panel;
use crate::tree::{close, find_panel_tile, find_tile, focus_after_close, placement_panels};
use crate::wf::wf;

verus! {

/// The requested closes the registry still holds: they stay pending.
pub open spec fn still_pending(pending: Seq<Seq<char>>, registered: Seq<Seq<char>>) -> Seq<Seq<char>> {
    pending.filter(|p: Seq<char>| registered.contains(p))
}

/// The requested closes the registry no longer holds: they complete.
pub open spec fn confirmed_closes(pending: Seq<Seq<char>>, registered: Seq<Seq<char>>) -> Seq<
    Seq<char>,
> {
    pending.filter(|p: Seq<char>| !registered.contains(p))
}

/// Close the panels in order; also the last outcome that closed something.
pub open spec fn close_all(n: NodeModel, panels: Seq<Seq<char>>) -> (NodeModel, Option<(Seq<char>, bool)>)
    decreases panels.len(),
{
    if panels.len() == 0 {
        (n, None)
    } else {
        let (m, last) = close_all(n, panels.drop_last());
        let (m2, out) = close(m, panels.last());
        (m2, if out is Some { out } else { last })
    }
}

/// The tile that gets focus after the closes: chosen from the last close
/// that took a panel out.
pub open spec fn completion_focus(previous: NodeModel, confirmed: Seq<Seq<char>>, next: NodeModel) -> Option<
    TileModel,
> {
    match close_all(previous, confirmed).1 {
        Some((tile, _)) => focus_after_close(previous, tile, next),
        None => None,
    }
}

/// The panel announced as activated: the focus tile's active tab, when the
/// last closed panel was the active tab of its tile.
pub open spec fn completion_announce(previous: NodeModel, confirmed: Seq<Seq<char>>, next: NodeModel) -> Option<
    Seq<char>,
> {
    match (close_all(previous, confirmed).1, completion_focus(previous, confirmed, next)) {
        (Some((_, true)), Some(t)) => t.active,
        _ => None,
    }
}

/// What finishing the closes comes to.
pub struct CloseCompletion {
    /// The layout after the confirmed closes and reconciliation.
    pub layout: PanelLayout,
    /// The closes still waiting for the registry.
    pub pending: Vec<PanelId>,
    /// Whether the layout differs from the one before.
    pub changed: bool,
    /// The tile to focus, if any.
    pub focus: Option<Tile>,
    /// The panel to announce as activated, if any.
    pub announce: Option<PanelId>,
}

/// Finish the closes the registry confirms. A requested close whose panel
/// is still registered stays pending and changes nothing; the others are
/// closed in order, the layout is reconciled against the registry, and
/// focus goes to the tile of the last close (or the tile that inherits its
/// space), announcing its active tab when the closed panel was active.
pub fn complete_closes(
    previous: &PanelLayout,
    pending: &[PanelId],
    placements: &[PanelPlacement],
) -> (r: CloseCompletion)
    ensures
        ({
            let registered = placement_panels(placement_models(placements@));
            let confirmed = confirmed_closes(panel_texts(pending@), registered);
            &&& panel_texts(r.pending@) == still_pending(panel_texts(pending@), registered)
            &&& r.layout.version_of() == previous.version_of()
            &&& confirmed.len() == 0 ==> r.layout.tree() == previous.tree()
                && r.layout.next_id_of() == previous.next_id_of()
            &&& confirmed.len() > 0 ==> (r.layout.tree(), r.layout.next_id_of() as nat)
                == reconcile_layout(
                close_all(previous.tree(), confirmed).0,
                previous.next_id_of() as nat,
                placement_models(placements@),
            )
            &&& r.changed == (r.layout.tree() != previous.tree() || r.layout.next_id_of()
                != previous.next_id_of())
            &&& match r.focus {
                Some(t) => completion_focus(previous.tree(), confirmed, r.layout.tree()) == Some(
                    t.model(),
                ),
                None => completion_focus(previous.tree(), confirmed, r.layout.tree()) is None,
            }
            &&& opt_text(r.announce) == completion_announce(
                previous.tree(),
                confirmed,
                r.layout.tree(),
            )
        }),
{
    let ghost registered = placement_panels(placement_models(placements@));
    let ghost texts = panel_texts(pending@);
    let mut keep: Vec<PanelId> = Vec::new();
    let mut confirmed: Vec<PanelId> = Vec::new();
    let mut i: usize = 0;
    while i < pending.len()
        invariant
            i <= pending.len(),
            texts == panel_texts(pending@),
            registered == placement_panels(placement_models(placements@)),
            panel_texts(keep@) == still_pending(texts.take(i as int), registered),
            panel_texts(confirmed@) == confirmed_closes(texts.take(i as int), registered),
        decreases pending.len() - i,
    {
        let ghost prefix = texts.take(i + 1);
        assert(prefix.drop_last() =~= texts.take(i as int));
        assert(prefix.last() == pending@[i as int]@);
        reveal(Seq::filter);
        let d = pending[i].duplicate();
        if placements_have_panel(placements, &pending[i]) {
            proof {
                lemma_panel_texts_push(keep@, d);
            }
            keep.push(d);
        } else {
            proof {
                lemma_panel_texts_push(confirmed@, d);
            }
            confirmed.push(d);
        }
        i += 1;
    }
    assert(texts.take(pending.len() as int) =~= texts);
    if confirmed.len() == 0 {
        return CloseCompletion {
            layout: previous.duplicate(),
            pending: keep,
            changed: false,
            focus: None,
            announce: None,
        };
    }
    let ghost closing = panel_texts(confirmed@);
    let mut next = previous.duplicate();
    let mut last: Option<CloseOutcome> = None;
    let mut j: usize = 0;
    while j < confirmed.len()
        invariant
            j <= confirmed.len(),
            closing == panel_texts(confirmed@),
            next.version_of() == previous.version_of(),
            next.next_id_of() == previous.next_id_of(),
            next.tree() == close_all(previous.tree(), closing.take(j as int)).0,
            match last {
                Some(o) => close_all(previous.tree(), closing.take(j as int)).1 == Some(
                    (o.tile_of(), o.was_active_of()),
                ),
                None => close_all(previous.tree(), closing.take(j as int)).1 is None,
            },
        decreases confirmed.len() - j,
    {
        let ghost prefix = closing.take(j + 1);
        assert(prefix.drop_last() =~= closing.take(j as int));
        assert(prefix.last() == confirmed@[j as int]@);
        match next.close_panel(&confirmed[j]) {
            Some(o) => {
                last = Some(o);
            },
            None => {},
        }
        j += 1;
    }
    assert(closing.take(confirmed.len() as int) =~= closing);
    next.reconcile(placements);
    let changed = !same_tree(next.root_ref(), previous.root_ref()) || next.next_id()
        != previous.next_id();
    let (focus, announce) = match &last {
        Some(o) => match previous.focus_tile_after_close(o.tile(), &next) {
            Some(t) => {
                let announce = if o.was_active() {
                    match &t.active {
                        Some(a) => Some(a.duplicate()),
                        None => None,
                    }
                } else {
                    None
                };
                (Some(t.duplicate()), announce)
            },
            None => (None, None),
        },
        None => (None, None),
    };
    CloseCompletion { layout: next, pending: keep, changed, focus, announce }
}

/// While the registry still holds every panel asked to close, finishing
/// closes changes nothing: every request stays pending and no close
/// completes.
pub proof fn law_registered_closes_wait(pending: Seq<Seq<char>>, registered: Seq<Seq<char>>)
    requires
        forall|i: int| 0 <= i < pending.len() ==> registered.contains(#[trigger] pending[i]),
    ensures
        still_pending(pending, registered) == pending,
        confirmed_closes(pending, registered).len() == 0,
    decreases pending.len(),
{
    reveal(Seq::filter);
    if pending.len() > 0 {
        let init = pending.drop_last();
        assert forall|i: int| 0 <= i < init.len() implies registered.contains(#[trigger] init[i]) by {
            assert(init[i] == pending[i]);
        }
        law_registered_closes_wait(init, registered);
        assert(registered.contains(pending[pending.len() - 1]));
        assert(init.push(pending.last()) =~= pending);
    }
}

/// Closing panels one after another keeps a valid layout valid, and the
/// outcome kept is that of the last close that took a panel out: it names
/// the tile that held that panel and says whether the panel was that
/// tile's active tab just before it was closed.
pub proof fn law_close_all_reports_the_last_close(n: NodeModel, cs: Seq<Seq<char>>)
    requires
        wf(n),
    ensures
        wf(close_all(n, cs).0),
        close_all(n, cs).1 matches Some((x, w)) ==> exists|k: int|
            0 <= k < cs.len() && #[trigger] find_panel_tile(close_all(n, cs.take(k)).0, cs[k]) == Some(
                x,
            ) && w == (find_tile(close_all(n, cs.take(k)).0, x)->0.active == Some(cs[k])),
    decreases cs.len(),
{
    if cs.len() > 0 {
        let init = cs.drop_last();
        law_close_all_reports_the_last_close(n, init);
        let m = close_all(n, init).0;
        law_close_takes_out_one_panel(m, cs.last());
        crate::wf::lemma_find_panel_tile(m, cs.last());
        let k_last = cs.len() - 1;
        assert(cs.take(k_last) =~= init);
        if close(m, cs.last()).1 is Some {
            assert(find_panel_tile(close_all(n, cs.take(k_last)).0, cs[k_last]) == find_panel_tile(
                m,
                cs.last(),
            ));
        } else if let Some((x, w)) = close_all(n, init).1 {
            let k = choose|k: int|
                0 <= k < init.len() && #[trigger] find_panel_tile(close_all(n, init.take(k)).0, init[k])
                    == Some(x) && w == (find_tile(close_all(n, init.take(k)).0, x)->0.active == Some(
                    init[k],
                ));
            assert(cs.take(k) =~= init.take(k));
            assert(cs[k] == init[k]);
            assert(find_panel_tile(close_all(n, cs.take(k)).0, cs[k]) == Some(x));
        }
    }
}

/// Finishing closes announces an activation only when the last close that
/// took a panel out closed its tile's active tab; closing a background tab
/// announces nothing. What it announces is the active tab of the tile that
/// gets focus.
pub proof fn law_announce_only_after_closing_an_active_tab(
    previous: NodeModel,
    confirmed: Seq<Seq<char>>,
    next: NodeModel,
)
    requires
        wf(previous),
    ensures
        close_all(previous, confirmed).1 matches Some((_, false)) ==> completion_announce(
            previous,
            confirmed,
            next,
        ) is None,
        completion_announce(previous, confirmed, next) is Some ==> (close_all(
            previous,
            confirmed,
        ).1 matches Some((x, true)) && exists|k: int|
            0 <= k < confirmed.len() && #[trigger] find_panel_tile(
                close_all(previous, confirmed.take(k)).0,
                confirmed[k],
            ) == Some(x) && find_tile(close_all(previous, confirmed.take(k)).0, x)->0.active == Some(
                confirmed[k],
            )),
        completion_announce(previous, confirmed, next) matches Some(a) ==> (completion_focus(
            previous,
            confirmed,
            next,
        ) matches Some(t) && t.active == Some(a)),
{
    law_close_all_reports_the_last_close(previous, confirmed);
}

} // verus!
