//! The workspace's interaction decisions, apart from rendering: which key
//! does what, how far a splitter moves, which DOM id an element gets, which
//! registrations repeat, and when a programmatic activation applies.
use vstd::prelude::*;

use crate::ids::{decimal, decimal_text, PanelId};
use crate::layout::PanelLayout;
use crate::model::{placement_models, DockZone, LayoutError, PanelPlacement, SplitAxis, PlacementModel};
use crate::tree::placement_panels;
use crate::validate::validation;

verus! {

/// Keyboard step of a focused splitter, in millionths.
pub const RESIZE_KEYBOARD_STEP: i64 = 25_000;
/// Keyboard step of a focused splitter with Shift held, in millionths.
pub const RESIZE_KEYBOARD_LARGE_STEP: i64 = 80_000;

/// The keys the workspace interprets.
#[derive(Clone, Copy, Debug, Eq, PartialEq, Structural)]
pub enum KeyPress {
    ArrowLeft,
    ArrowRight,
    ArrowUp,
    ArrowDown,
    PageUp,
    PageDown,
    Home,
    End,
    Tab,
    Delete,
    Other,
}

/// What `Alt+Shift` with a key asks of a tab: split it off towards a side,
/// or move it by some groups.
#[derive(Clone, Copy, Debug, Eq, PartialEq, Structural)]
pub enum KeyboardDock {
    Split(DockZone),
    Move(isize),
}

pub open spec fn keyboard_dock_spec(alt: bool, shift: bool, key: KeyPress) -> Option<KeyboardDock> {
    if !(alt && shift) {
        None
    } else {
        match key {
            KeyPress::ArrowLeft => Some(KeyboardDock::Split(DockZone::Left)),
            KeyPress::ArrowRight => Some(KeyboardDock::Split(DockZone::Right)),
            KeyPress::ArrowUp => Some(KeyboardDock::Split(DockZone::Top)),
            KeyPress::ArrowDown => Some(KeyboardDock::Split(DockZone::Bottom)),
            KeyPress::PageUp => Some(KeyboardDock::Move(-1isize)),
            KeyPress::PageDown => Some(KeyboardDock::Move(1isize)),
            _ => None,
        }
    }
}

/// The docking action of `Alt+Shift` with an arrow or page key on a tab.
pub fn keyboard_dock(alt: bool, shift: bool, key: KeyPress) -> (r: Option<KeyboardDock>)
    ensures
        r == keyboard_dock_spec(alt, shift, key),
{
    if !(alt && shift) {
        return None;
    }
    match key {
        KeyPress::ArrowLeft => Some(KeyboardDock::Split(DockZone::Left)),
        KeyPress::ArrowRight => Some(KeyboardDock::Split(DockZone::Right)),
        KeyPress::ArrowUp => Some(KeyboardDock::Split(DockZone::Top)),
        KeyPress::ArrowDown => Some(KeyboardDock::Split(DockZone::Bottom)),
        KeyPress::PageUp => Some(KeyboardDock::Move(-1)),
        KeyPress::PageDown => Some(KeyboardDock::Move(1)),
        _ => None,
    }
}

pub open spec fn tab_key_target_spec(current: int, len: int, key: KeyPress) -> Option<int> {
    match key {
        KeyPress::ArrowLeft => Some((current + len - 1) % len),
        KeyPress::ArrowRight => Some((current + 1) % len),
        KeyPress::Home => Some(0),
        KeyPress::End => Some(len - 1),
        _ => None,
    }
}

/// The tab a plain arrow, Home or End key moves to within a strip of `len`
/// tabs, wrapping around at either end.
pub fn tab_key_target(current: usize, len: usize, key: KeyPress) -> (r: Option<usize>)
    requires
        current < len,
    ensures
        match r {
            Some(i) => tab_key_target_spec(current as int, len as int, key) == Some(i as int) && i
                < len,
            None => tab_key_target_spec(current as int, len as int, key) is None,
        },
{
    match key {
        KeyPress::ArrowLeft => {
            let back = if current == 0 {
                len - 1
            } else {
                current - 1
            };
            assert(back == (current + len - 1) % (len as int)) by {
                if current == 0 {
                    vstd::arithmetic::div_mod::lemma_small_mod((len - 1) as nat, len as nat);
                } else {
                    assert((current + len - 1) == (current - 1) + len);
                    vstd::arithmetic::div_mod::lemma_mod_multiples_vanish(
                        1,
                        (current - 1) as int,
                        len as int,
                    );
                    vstd::arithmetic::div_mod::lemma_small_mod((current - 1) as nat, len as nat);
                }
            }
            Some(back)
        },
        KeyPress::ArrowRight => {
            let forward = if current + 1 == len {
                0
            } else {
                current + 1
            };
            assert(forward == (current + 1) % (len as int)) by {
                if current + 1 < len {
                    vstd::arithmetic::div_mod::lemma_small_mod((current + 1) as nat, len as nat);
                }
            }
            Some(forward)
        },
        KeyPress::Home => Some(0),
        KeyPress::End => Some(len - 1),
        _ => None,
    }
}

pub open spec fn splitter_delta_spec(axis: SplitAxis, key: KeyPress, shift: bool) -> Option<int> {
    let step = if shift {
        RESIZE_KEYBOARD_LARGE_STEP as int
    } else {
        RESIZE_KEYBOARD_STEP as int
    };
    match (axis, key) {
        (SplitAxis::Horizontal, KeyPress::ArrowLeft) | (SplitAxis::Vertical, KeyPress::ArrowUp) => Some(
            -step,
        ),
        (SplitAxis::Horizontal, KeyPress::ArrowRight) | (SplitAxis::Vertical, KeyPress::ArrowDown) => Some(
            step,
        ),
        _ => None,
    }
}

/// How far an arrow key moves a focused splitter, in millionths: towards
/// the first child for left/up, away for right/down, along the split's axis.
pub fn splitter_delta(axis: SplitAxis, key: KeyPress, shift: bool) -> (r: Option<i64>)
    ensures
        match r {
            Some(d) => splitter_delta_spec(axis, key, shift) == Some(d as int),
            None => splitter_delta_spec(axis, key, shift) is None,
        },
{
    let step = if shift {
        RESIZE_KEYBOARD_LARGE_STEP
    } else {
        RESIZE_KEYBOARD_STEP
    };
    match (axis, key) {
        (SplitAxis::Horizontal, KeyPress::ArrowLeft) | (SplitAxis::Vertical, KeyPress::ArrowUp) => Some(
            -step,
        ),
        (SplitAxis::Horizontal, KeyPress::ArrowRight) | (SplitAxis::Vertical, KeyPress::ArrowDown) => Some(
            step,
        ),
        _ => None,
    }
}

pub open spec fn zone_name_spec(zone: DockZone) -> Seq<char> {
    match zone {
        DockZone::Center => "center"@,
        DockZone::Left => "left"@,
        DockZone::Right => "right"@,
        DockZone::Top => "top"@,
        DockZone::Bottom => "bottom"@,
    }
}

/// The name a drop zone carries in class names.
pub fn zone_name(zone: DockZone) -> (r: &'static str)
    ensures
        r@ == zone_name_spec(zone),
{
    match zone {
        DockZone::Center => "center",
        DockZone::Left => "left",
        DockZone::Right => "right",
        DockZone::Top => "top",
        DockZone::Bottom => "bottom",
    }
}

/// The color a status entry speaks in.
#[derive(Clone, Copy, Debug, Default, Eq, PartialEq, Structural)]
pub enum StatusTone {
    #[default]
    Neutral,
    Accent,
    Good,
    Caution,
    Danger,
}

pub open spec fn tone_class_spec(tone: StatusTone) -> Seq<char> {
    match tone {
        StatusTone::Neutral => ""@,
        StatusTone::Accent => "wb-tone-accent"@,
        StatusTone::Good => "wb-tone-good"@,
        StatusTone::Caution => "wb-tone-caution"@,
        StatusTone::Danger => "wb-tone-danger"@,
    }
}

impl StatusTone {
    /// The class that colors an entry in this tone (none for neutral).
    pub fn class(self) -> (r: &'static str)
        ensures
            r@ == tone_class_spec(self),
    {
        match self {
            StatusTone::Neutral => "",
            StatusTone::Accent => "wb-tone-accent",
            StatusTone::Good => "wb-tone-good",
            StatusTone::Caution => "wb-tone-caution",
            StatusTone::Danger => "wb-tone-danger",
        }
    }
}

/// A character allowed as is in a DOM id: an ASCII letter or digit, `-` or
/// `_`.
pub open spec fn id_safe_char(c: char) -> bool {
    ('a' <= c && c <= 'z') || ('A' <= c && c <= 'Z') || ('0' <= c && c <= '9') || c == '-' || c
        == '_'
}

/// The text with every other character replaced by `-`.
pub open spec fn safe_id_spec(value: Seq<char>) -> Seq<char> {
    value.map_values(|c: char| if id_safe_char(c) { c } else { '-' })
}

/// The text made safe for a DOM id: every character other than an ASCII
/// letter or digit, `-` or `_` becomes `-`.
pub fn safe_id(value: &str) -> (r: String)
    ensures
        r@ == safe_id_spec(value@),
{
    let n = value.unicode_len();
    let mut out = String::new();
    let mut i: usize = 0;
    while i < n
        invariant
            n == value@.len(),
            i <= n,
            out@ == safe_id_spec(value@.take(i as int)),
        decreases n - i,
    {
        let c = value.get_char(i);
        let keep = ('a' <= c && c <= 'z') || ('A' <= c && c <= 'Z') || ('0' <= c && c <= '9') || c
            == '-' || c == '_';
        if keep {
            out.append(value.substring_char(i, i + 1));
        } else {
            proof {
                reveal_strlit("-");
            }
            out.append("-");
        }
        i += 1;
        assert(out@ =~= safe_id_spec(value@.take(i as int)));
    }
    assert(value@.take(n as int) =~= value@);
    out
}

/// The DOM id of a workspace element: the owning instance's number, the
/// element's kind, and its key made safe.
pub open spec fn element_id_spec(scope: nat, kind: Seq<char>, key: Seq<char>) -> Seq<char> {
    "wb-"@ + decimal(scope) + "-"@ + kind + "-"@ + safe_id_spec(key)
}

/// The DOM id of an element of one workspace instance. Ids of distinct
/// instances differ, so retained or side-by-side workspaces cannot redirect
/// each other's focus, pointer capture or splitter updates.
pub fn element_id(scope: u64, kind: &str, key: &str) -> (r: String)
    ensures
        r@ == element_id_spec(scope as nat, kind@, key@),
{
    let mut s = String::from_str("wb-");
    let digits = decimal_text(scope);
    s.append(digits.as_str());
    s.append("-");
    s.append(kind);
    s.append("-");
    let safe = safe_id(key);
    s.append(safe.as_str());
    proof {
        reveal_strlit("wb-");
        reveal_strlit("-");
    }
    s
}

/// The registrations whose panel id was registered before, in order.
pub open spec fn repeated_panels(pls: Seq<PlacementModel>) -> Seq<Seq<char>>
    decreases pls.len(),
{
    if pls.len() == 0 {
        Seq::empty()
    } else {
        let init = pls.drop_last();
        let earlier = repeated_panels(init);
        if placement_panels(init).contains(pls.last().panel) {
            earlier.push(pls.last().panel)
        } else {
            earlier
        }
    }
}

/// The panel ids registered more than once, one entry per repeat: only the
/// first registration of an id renders.
pub fn duplicate_panels(placements: &[PanelPlacement]) -> (r: Vec<PanelId>)
    ensures
        crate::model::panel_texts(r@) == repeated_panels(placement_models(placements@)),
{
    let ghost pls = placement_models(placements@);
    let mut out: Vec<PanelId> = Vec::new();
    let mut i: usize = 0;
    while i < placements.len()
        invariant
            i <= placements.len(),
            pls == placement_models(placements@),
            crate::model::panel_texts(out@) == repeated_panels(pls.take(i as int)),
        decreases placements.len() - i,
    {
        let ghost prefix = pls.take(i + 1);
        assert(prefix.drop_last() =~= pls.take(i as int));
        assert(prefix.last() == placements@[i as int].model());
        let mut seen = false;
        let mut j: usize = 0;
        while j < i
            invariant
                j <= i < placements.len(),
                pls == placement_models(placements@),
                seen == placement_panels(pls.take(i as int)).take(j as int).contains(
                    placements@[i as int].panel@,
                ),
            decreases i - j,
        {
            let ghost before = placement_panels(pls.take(i as int));
            assert(before.take(j + 1) =~= before.take(j as int).push(placements@[j as int].panel@));
            if placements[j].panel.same(&placements[i].panel) {
                seen = true;
            }
            proof {
                if !seen {
                    assert(!before.take(j as int).push(placements@[j as int].panel@).contains(
                        placements@[i as int].panel@,
                    )) by {
                        if before.take(j as int).push(placements@[j as int].panel@).contains(
                            placements@[i as int].panel@,
                        ) {
                            let k = choose|k: int|
                                0 <= k < j + 1 && before.take(j as int).push(
                                    placements@[j as int].panel@,
                                )[k] == placements@[i as int].panel@;
                            if k < j {
                                assert(before.take(j as int)[k] == placements@[i as int].panel@);
                            }
                        }
                    }
                } else {
                    let x = placements@[i as int].panel@;
                    if before.take(j as int).contains(x) {
                        let k = choose|k: int| 0 <= k < j && before.take(j as int)[k] == x;
                        assert(before.take(j + 1)[k] == x);
                    } else {
                        assert(before.take(j + 1)[j as int] == x);
                    }
                }
            }
            j += 1;
        }
        assert(placement_panels(pls.take(i as int)).take(i as int) =~= placement_panels(
            pls.take(i as int),
        ));
        if seen {
            let d = placements[i].panel.duplicate();
            proof {
                crate::model::lemma_panel_texts_push(out@, d);
            }
            out.push(d);
        }
        i += 1;
    }
    assert(pls.take(i as int) =~= pls);
    out
}

/// The layout a workspace opens with: the initial layout reconciled
/// against the registry, together with what validating it found first (for
/// the host to report; reconciliation repairs what it can).
pub fn layout_for_registry(initial: PanelLayout, placements: &[PanelPlacement]) -> (r: (
    PanelLayout,
    Result<(), LayoutError>,
))
    ensures
        r.0.version_of() == initial.version_of(),
        (r.0.tree(), r.0.next_id_of() as nat) == crate::layout::reconcile_layout(
            initial.tree(),
            initial.next_id_of() as nat,
            placement_models(placements@),
        ),
        match r.1 {
            Ok(()) => validation(initial.version_of(), initial.tree()) == Ok::<(), Option<Seq<char>>>(()),
            Err(LayoutError::Version { found }) => found == initial.version_of() && validation(
                initial.version_of(),
                initial.tree(),
            ) == Err::<(), Option<Seq<char>>>(None),
            Err(LayoutError::Invalid(m)) => validation(initial.version_of(), initial.tree()) == Err::<
                (),
                Option<Seq<char>>,
            >(Some(m@)),
            Err(LayoutError::Malformed) => false,
        },
{
    let issue = initial.validate();
    let mut layout = initial;
    layout.reconcile(placements);
    (layout, issue)
}

/// What a programmatic activation request does this time round.
#[derive(Clone, Copy, Debug, Eq, PartialEq, Structural)]
pub enum ActivationStep {
    /// No request stands: forget what was applied.
    Forget,
    /// The request was applied already: leave tab state alone.
    Hold,
    /// The panel is not registered yet: keep the request pending.
    Wait,
    /// Bring the panel to the front and remember it as applied.
    Apply,
}

/// A programmatic activation is edge-triggered with memory: it applies once
/// when the request changes to a registered panel, and a standing request
/// never re-asserts itself.
pub fn activation_step(
    requested: &Option<PanelId>,
    applied: &Option<PanelId>,
    placements: &[PanelPlacement],
) -> (r: ActivationStep)
    ensures
        r == match requested {
            None => ActivationStep::Forget,
            Some(p) => if (match applied {
                Some(a) => a@ == p@,
                None => false,
            }) {
                ActivationStep::Hold
            } else if !placement_panels(placement_models(placements@)).contains(p@) {
                ActivationStep::Wait
            } else {
                ActivationStep::Apply
            },
        },
{
    match requested {
        None => ActivationStep::Forget,
        Some(p) => {
            let same = match applied {
                Some(a) => a.same(p),
                None => false,
            };
            if same {
                ActivationStep::Hold
            } else if !crate::ops::placements_have_panel(placements, p) {
                ActivationStep::Wait
            } else {
                ActivationStep::Apply
            }
        },
    }
}

} // verus!
