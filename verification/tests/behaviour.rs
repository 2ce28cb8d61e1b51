use dioxus_workbench::closing::complete_closes;
use dioxus_workbench::ids::decimal_text;
use dioxus_workbench::interaction::{
    activation_step, duplicate_panels, element_id, keyboard_dock, layout_for_registry, safe_id,
    splitter_delta, tab_key_target, zone_name, ActivationStep, KeyPress, KeyboardDock, StatusTone,
};
use dioxus_workbench::validate::ratio_text_of;
use dioxus_workbench::{
    DockZone, LayoutError, LayoutNode, PanelId, PanelLayout, PanelPlacement, SplitAxis, SplitId,
    TileId, WorkbenchStrings, MAX_SPLIT_RATIO, MIN_SPLIT_RATIO,
};

fn pid(value: &str) -> PanelId {
    PanelId::new(value)
}

fn tid(value: &str) -> TileId {
    TileId::new(value)
}

fn sid(value: &str) -> SplitId {
    SplitId::new(value)
}

fn place(panel: &str, home: &str) -> PanelPlacement {
    PanelPlacement::new(pid(panel), tid(home))
}

fn pair(ratio: i64, left: LayoutNode, right: LayoutNode) -> PanelLayout {
    PanelLayout::new(LayoutNode::Split {
        id: sid("root"),
        axis: SplitAxis::Horizontal,
        ratio,
        first: Box::new(left),
        second: Box::new(right),
    })
}

#[test]
fn validation_names_a_duplicate_tile() {
    let layout = pair(
        500_000,
        LayoutNode::tile(tid("same"), vec![pid("editor")]),
        LayoutNode::tile(tid("same"), vec![pid("terminal")]),
    );
    assert_eq!(
        layout.validate(),
        Err(LayoutError::Invalid("duplicate tile id `same`".to_owned()))
    );
    assert!(!layout.valid());
}

#[test]
fn validation_names_a_panel_in_two_tiles() {
    let layout = pair(
        500_000,
        LayoutNode::tile(tid("a"), vec![pid("editor")]),
        LayoutNode::tile(tid("b"), vec![pid("editor")]),
    );
    assert_eq!(
        layout.validate(),
        Err(LayoutError::Invalid(
            "panel `editor` appears in more than one tile".to_owned()
        ))
    );
}

#[test]
fn validation_names_an_out_of_range_ratio() {
    let layout = pair(
        1_400_000,
        LayoutNode::tile(tid("a"), vec![pid("editor")]),
        LayoutNode::tile(tid("b"), vec![pid("terminal")]),
    );
    assert_eq!(
        layout.validate(),
        Err(LayoutError::Invalid(
            "split `root` ratio 1.4 is outside 0.1..=0.9".to_owned()
        ))
    );
}

#[test]
fn validation_names_a_foreign_or_missing_active_tab() {
    let mut tile = dioxus_workbench::Tile::new(tid("a"), vec![pid("editor")]);
    tile.active = Some(pid("ghost"));
    let layout = PanelLayout::new(LayoutNode::Tile(tile));
    assert_eq!(
        layout.validate(),
        Err(LayoutError::Invalid(
            "tile `a` activates `ghost`, which it does not contain".to_owned()
        ))
    );
    let mut tile = dioxus_workbench::Tile::new(tid("a"), vec![pid("editor")]);
    tile.active = None;
    let layout = PanelLayout::new(LayoutNode::Tile(tile));
    assert_eq!(
        layout.validate(),
        Err(LayoutError::Invalid(
            "tile `a` holds panels but activates none of them".to_owned()
        ))
    );
}

#[test]
fn validation_names_a_duplicate_split() {
    let inner = LayoutNode::Split {
        id: sid("root"),
        axis: SplitAxis::Vertical,
        ratio: 500_000,
        first: Box::new(LayoutNode::tile(tid("b"), vec![pid("two")])),
        second: Box::new(LayoutNode::tile(tid("c"), vec![pid("three")])),
    };
    let layout = pair(500_000, LayoutNode::tile(tid("a"), vec![pid("one")]), inner);
    assert_eq!(
        layout.validate(),
        Err(LayoutError::Invalid("duplicate split id `root`".to_owned()))
    );
}

#[test]
fn validation_reports_a_foreign_version_first() {
    let layout = PanelLayout::from_parts(2, 1, LayoutNode::tile(tid("a"), vec![pid("one")]));
    assert_eq!(layout.validate(), Err(LayoutError::Version { found: 2 }));
    let current = PanelLayout::from_parts(1, 7, LayoutNode::tile(tid("a"), vec![pid("one")]));
    assert_eq!(current.validate(), Ok(()));
    assert_eq!(current.next_id(), 7);
}

#[test]
fn errors_explain_themselves() {
    assert_eq!(LayoutError::Malformed.message(), "not a panel layout");
    assert_eq!(
        LayoutError::Version { found: 2 }.message(),
        "layout format version 2 (this crate reads version 1)"
    );
    assert_eq!(
        LayoutError::Invalid("duplicate tile id `x`".to_owned()).message(),
        "invalid layout: duplicate tile id `x`"
    );
}

#[test]
fn ratios_read_back_clamped() {
    let mut layout = pair(
        600_000,
        LayoutNode::tile(tid("a"), vec![pid("one")]),
        LayoutNode::tile(tid("b"), vec![pid("two")]),
    );
    assert!(layout.set_split_ratio(&sid("root"), 25_000));
    assert_eq!(layout.split_ratio(&sid("root")), Some(MIN_SPLIT_RATIO));
    assert!(!layout.set_split_ratio(&sid("root"), 0));
    assert!(layout.set_split_ratio(&sid("root"), 725_000));
    assert_eq!(layout.split_ratio(&sid("root")), Some(725_000));
    assert!(layout.set_split_ratio(&sid("root"), i64::MAX));
    assert_eq!(layout.split_ratio(&sid("root")), Some(MAX_SPLIT_RATIO));
    assert!(!layout.set_split_ratio(&sid("missing"), 500_000));
    assert_eq!(layout.split_ratio(&sid("missing")), None);
    assert!(layout.valid());
}

#[test]
fn activation_reports_whether_the_front_tab_changed() {
    let mut layout = PanelLayout::new(LayoutNode::tile(tid("a"), vec![pid("one"), pid("two")]));
    assert!(layout.activate(&pid("two")));
    assert_eq!(layout.tile(&tid("a")).unwrap().active, Some(pid("two")));
    assert!(!layout.activate(&pid("two")));
    assert!(!layout.activate(&pid("absent")));
    assert!(layout.valid());
}

#[test]
fn generated_ids_count_up_and_skip_taken_names() {
    let mut layout = PanelLayout::new(LayoutNode::Split {
        id: sid("root"),
        axis: SplitAxis::Horizontal,
        ratio: 500_000,
        first: Box::new(LayoutNode::tile(tid("tile-1"), vec![pid("one")])),
        second: Box::new(LayoutNode::tile(tid("b"), vec![pid("two")])),
    });
    let made = layout.split_tile(&tid("b"), DockZone::Bottom);
    assert_eq!(made, Some(tid("tile-2")));
    assert_eq!(layout.split_ids(), vec![sid("root"), sid("split-3")]);
    assert_eq!(layout.next_id(), 4);
    assert!(layout.tile(&tid("tile-2")).unwrap().panels.is_empty());
    assert!(layout.tile(&tid("tile-2")).unwrap().preserve_when_empty);
    assert_eq!(layout.split_tile(&tid("b"), DockZone::Center), None);
    assert_eq!(layout.split_tile(&tid("missing"), DockZone::Left), None);
    assert!(layout.valid());
}

#[test]
fn empty_tiles_close_but_not_the_last_one() {
    let mut layout = PanelLayout::single(tid("a"), pid("one"));
    let empty = layout.split_tile(&tid("a"), DockZone::Right).unwrap();
    assert!(!layout.remove_empty_tile(&tid("a")));
    assert!(layout.remove_empty_tile(&empty));
    assert!(layout.tile(&empty).is_none());
    assert_eq!(layout.tile_count(), 1);
    let mut lone = PanelLayout::new(LayoutNode::empty_tile(tid("lone")));
    assert!(!lone.remove_empty_tile(&tid("lone")));
    assert_eq!(lone.tile_count(), 1);
}

#[test]
fn docking_into_an_empty_drop_target_fills_it() {
    let mut layout = PanelLayout::new(LayoutNode::split(
        sid("root"),
        SplitAxis::Horizontal,
        500_000,
        LayoutNode::tile(tid("a"), vec![pid("one"), pid("two")]),
        LayoutNode::empty_tile(tid("drop")),
    ));
    assert!(layout.dock_panel(&pid("two"), &tid("drop"), DockZone::Center));
    assert_eq!(layout.tile_for_panel(&pid("two")), Some(tid("drop")));
    assert_eq!(layout.tile(&tid("drop")).unwrap().active, Some(pid("two")));
    assert_eq!(layout.tile(&tid("a")).unwrap().panels, vec![pid("one")]);
    assert!(layout.valid());
}

#[test]
fn docking_elsewhere_leaves_other_drop_targets_standing() {
    let mut layout = PanelLayout::new(LayoutNode::split(
        sid("root"),
        SplitAxis::Horizontal,
        500_000,
        LayoutNode::tile(tid("a"), vec![pid("one"), pid("two")]),
        LayoutNode::split(
            sid("right"),
            SplitAxis::Vertical,
            500_000,
            LayoutNode::tile(tid("b"), vec![pid("three")]),
            LayoutNode::empty_tile(tid("drop")),
        ),
    ));
    assert!(layout.dock_panel(&pid("two"), &tid("b"), DockZone::Center));
    assert!(layout.tile(&tid("drop")).is_some_and(|tile| tile.panels.is_empty()));
    assert!(layout.move_panel_by_tile(&pid("two"), 1));
    assert_eq!(layout.tile_for_panel(&pid("two")), Some(tid("drop")));
    assert!(layout.valid());
}

#[test]
fn keyboard_moves_wrap_forward() {
    let mut layout = PanelLayout::new(LayoutNode::split(
        sid("root"),
        SplitAxis::Horizontal,
        500_000,
        LayoutNode::tile(tid("a"), vec![pid("one"), pid("two")]),
        LayoutNode::tile(tid("b"), vec![pid("three")]),
    ));
    assert!(layout.move_panel_by_tile(&pid("three"), 1));
    assert_eq!(layout.tile_for_panel(&pid("three")), Some(tid("a")));
    assert!(!layout.move_panel_by_tile(&pid("three"), 1));
    assert!(!layout.move_panel_by_tile(&pid("absent"), 1));
}

#[test]
fn reconciliation_keeps_only_registered_panels_once() {
    let mut layout = PanelLayout::new(LayoutNode::split(
        sid("root"),
        SplitAxis::Horizontal,
        500_000,
        LayoutNode::tile(tid("a"), vec![pid("one"), pid("gone")]),
        LayoutNode::tile(tid("b"), vec![pid("one"), pid("two")]),
    ));
    assert!(!layout.valid());
    layout.reconcile(&[place("one", "a"), place("two", "b"), place("new", "nowhere")]);
    assert!(layout.valid());
    assert_eq!(layout.tile(&tid("a")).unwrap().panels, vec![pid("one"), pid("new")]);
    assert_eq!(layout.tile(&tid("b")).unwrap().panels, vec![pid("two")]);
    assert_eq!(layout.tile_for_panel(&pid("gone")), None);
    let again = layout.reconciled(&[place("one", "a"), place("two", "b"), place("new", "nowhere")]);
    assert_eq!(again, layout);
}

#[test]
fn reconciliation_leaves_held_panels_and_sends_arrivals_home() {
    let mut layout = PanelLayout::new(LayoutNode::split(
        sid("root"),
        SplitAxis::Horizontal,
        500_000,
        LayoutNode::tile(tid("a"), vec![pid("one")]),
        LayoutNode::tile(tid("b"), vec![pid("two")]),
    ));
    // "one" names "b" as its home but already lives in "a".
    let registry = [place("one", "b"), place("two", "b"), place("three", "a")];
    layout.reconcile(&registry);
    assert_eq!(layout.tile_for_panel(&pid("one")), Some(tid("a")));
    assert_eq!(layout.tile_for_panel(&pid("three")), Some(tid("a")));
    assert_eq!(layout.tile(&tid("a")).unwrap().panels, vec![pid("one"), pid("three")]);
    assert_eq!(layout.tile(&tid("a")).unwrap().active, Some(pid("three")));
    assert_eq!(layout.reconciled(&registry), layout);
}

#[test]
fn a_single_layout_holds_one_tile() {
    let layout = PanelLayout::single(tid("docs"), pid("quickstart"));
    assert_eq!(layout.tile_count(), 1);
    assert_eq!(layout.tile(&tid("docs")).unwrap().active, Some(pid("quickstart")));
    assert_eq!(layout.version(), 1);
    assert!(layout.valid());
}

#[test]
fn from_homes_splits_homes_in_equal_shares() {
    let layout = PanelLayout::from_homes(&[
        place("files", "side"),
        place("editor", "main"),
        place("terminal", "bottom"),
    ]);
    assert_eq!(
        layout.split_ids(),
        vec![sid("wb-home-split-1"), sid("wb-home-split-2")]
    );
    assert_eq!(layout.split_ratio(&sid("wb-home-split-1")), Some(333_333));
    assert_eq!(layout.split_ratio(&sid("wb-home-split-2")), Some(500_000));
}

#[test]
fn numbers_and_ratios_print_in_decimal() {
    assert_eq!(decimal_text(0), "0");
    assert_eq!(decimal_text(1907), "1907");
    assert_eq!(ratio_text_of(1_400_000), "1.4");
    assert_eq!(ratio_text_of(5_000_000), "5");
    assert_eq!(ratio_text_of(50_000), "0.05");
    assert_eq!(ratio_text_of(-300_000), "-0.3");
    assert_eq!(ratio_text_of(123_456), "0.123456");
}

#[test]
fn keys_map_to_workspace_actions() {
    assert_eq!(
        keyboard_dock(true, true, KeyPress::ArrowLeft),
        Some(KeyboardDock::Split(DockZone::Left))
    );
    assert_eq!(
        keyboard_dock(true, true, KeyPress::ArrowDown),
        Some(KeyboardDock::Split(DockZone::Bottom))
    );
    assert_eq!(keyboard_dock(true, true, KeyPress::PageUp), Some(KeyboardDock::Move(-1)));
    assert_eq!(keyboard_dock(true, true, KeyPress::PageDown), Some(KeyboardDock::Move(1)));
    assert_eq!(keyboard_dock(true, false, KeyPress::ArrowLeft), None);
    assert_eq!(keyboard_dock(true, true, KeyPress::Home), None);
    assert_eq!(tab_key_target(0, 3, KeyPress::ArrowLeft), Some(2));
    assert_eq!(tab_key_target(2, 3, KeyPress::ArrowRight), Some(0));
    assert_eq!(tab_key_target(1, 3, KeyPress::ArrowRight), Some(2));
    assert_eq!(tab_key_target(1, 3, KeyPress::Home), Some(0));
    assert_eq!(tab_key_target(1, 3, KeyPress::End), Some(2));
    assert_eq!(tab_key_target(1, 3, KeyPress::Tab), None);
    assert_eq!(splitter_delta(SplitAxis::Horizontal, KeyPress::ArrowLeft, false), Some(-25_000));
    assert_eq!(splitter_delta(SplitAxis::Vertical, KeyPress::ArrowDown, true), Some(80_000));
    assert_eq!(splitter_delta(SplitAxis::Vertical, KeyPress::ArrowLeft, false), None);
}

#[test]
fn chrome_names_and_ids() {
    assert_eq!(zone_name(DockZone::Center), "center");
    assert_eq!(zone_name(DockZone::Top), "top");
    assert_eq!(StatusTone::Neutral.class(), "");
    assert_eq!(StatusTone::Caution.class(), "wb-tone-caution");
    assert_eq!(StatusTone::default(), StatusTone::Neutral);
    assert_eq!(safe_id("archive:a b_c-9"), "archive-a-b_c-9");
    assert_eq!(element_id(7, "tab", "main.rs"), "wb-7-tab-main-rs");
    assert_ne!(element_id(7, "tab", "x"), element_id(8, "tab", "x"));
}

#[test]
fn repeated_registrations_are_reported_once_each() {
    let repeats = duplicate_panels(&[
        place("a", "x"),
        place("b", "x"),
        place("a", "y"),
        place("a", "z"),
    ]);
    assert_eq!(repeats, vec![pid("a"), pid("a")]);
    assert!(duplicate_panels(&[place("a", "x"), place("b", "x")]).is_empty());
}

#[test]
fn programmatic_activation_is_edge_triggered() {
    let registry = [place("a", "x"), place("b", "x")];
    assert_eq!(activation_step(&None, &Some(pid("a")), &registry), ActivationStep::Forget);
    assert_eq!(
        activation_step(&Some(pid("a")), &Some(pid("a")), &registry),
        ActivationStep::Hold
    );
    assert_eq!(activation_step(&Some(pid("c")), &None, &registry), ActivationStep::Wait);
    assert_eq!(
        activation_step(&Some(pid("b")), &Some(pid("a")), &registry),
        ActivationStep::Apply
    );
}

#[test]
fn an_opening_layout_is_reconciled_and_its_issue_reported() {
    let initial = PanelLayout::new(LayoutNode::tile(tid("main"), vec![pid("gone")]));
    let (layout, issue) = layout_for_registry(initial, &[place("editor", "main")]);
    assert!(issue.is_ok());
    assert_eq!(layout.tile(&tid("main")).unwrap().panels, vec![pid("editor")]);
    let broken = PanelLayout::from_parts(3, 1, LayoutNode::tile(tid("main"), vec![pid("editor")]));
    let (_, issue) = layout_for_registry(broken, &[place("editor", "main")]);
    assert_eq!(issue, Err(LayoutError::Version { found: 3 }));
}

#[test]
fn default_strings_speak_english() {
    let strings = WorkbenchStrings::default();
    assert_eq!(strings.tab_group_label, "Panel group");
    assert_eq!(strings.close_tab, "Close {title}");
    assert_eq!(
        strings.empty_tile_keys,
        "Alt+Shift+Arrows split \u{b7} Alt+Shift+Page keys move \u{b7} Arrows switch tabs"
    );
}

#[test]
fn closing_an_active_tab_fronts_its_right_then_left_neighbour() {
    let mut layout = PanelLayout::new(LayoutNode::tile(
        tid("main"),
        vec![pid("a"), pid("b"), pid("c")],
    ));
    assert!(layout.activate(&pid("b")));
    let outcome = layout.close_panel(&pid("b")).unwrap();
    assert_eq!(outcome.tile(), &tid("main"));
    assert!(outcome.was_active());
    let tile = layout.tile(&tid("main")).unwrap();
    assert_eq!(tile.panels, vec![pid("a"), pid("c")]);
    assert_eq!(tile.active, Some(pid("c")));

    let outcome = layout.close_panel(&pid("c")).unwrap();
    assert!(outcome.was_active());
    assert_eq!(layout.tile(&tid("main")).unwrap().active, Some(pid("a")));

    let outcome = layout.close_panel(&pid("a")).unwrap();
    assert!(outcome.was_active());
    let tile = layout.tile(&tid("main")).unwrap();
    assert!(tile.panels.is_empty());
    assert_eq!(tile.active, None);
    assert!(layout.valid());
    assert!(layout.close_panel(&pid("a")).is_none());
}

#[test]
fn closing_a_background_tab_keeps_the_front_one() {
    let mut layout = PanelLayout::new(LayoutNode::tile(
        tid("main"),
        vec![pid("a"), pid("b"), pid("c")],
    ));
    let outcome = layout.close_panel(&pid("c")).unwrap();
    assert!(!outcome.was_active());
    assert_eq!(layout.tile(&tid("main")).unwrap().active, Some(pid("a")));
}

#[test]
fn focus_after_close_goes_to_the_tile_that_inherits_the_space() {
    let previous = PanelLayout::new(LayoutNode::split(
        sid("root"),
        SplitAxis::Horizontal,
        500_000,
        LayoutNode::split(
            sid("left"),
            SplitAxis::Vertical,
            500_000,
            LayoutNode::tile(tid("top"), vec![pid("one")]),
            LayoutNode::tile(tid("bottom"), vec![pid("two")]),
        ),
        LayoutNode::tile(tid("side"), vec![pid("three")]),
    ));
    // The side tile empties and is pruned: the left column's last tile
    // takes its space.
    let mut next = previous.clone();
    let outcome = next.close_panel(&pid("three")).unwrap();
    assert_eq!(outcome.tile(), &tid("side"));
    next.reconcile(&[place("one", "top"), place("two", "bottom")]);
    assert!(next.tile(&tid("side")).is_none());
    let focus = previous.focus_tile_after_close(outcome.tile(), &next).unwrap();
    assert_eq!(focus.id, tid("bottom"));

    // The top tile's space goes to the bottom one, its sibling.
    let mut next = previous.clone();
    let outcome = next.close_panel(&pid("one")).unwrap();
    next.reconcile(&[place("two", "bottom"), place("three", "side")]);
    let focus = previous.focus_tile_after_close(outcome.tile(), &next).unwrap();
    assert_eq!(focus.id, tid("bottom"));

    // A tile that survives keeps the focus.
    let mut next = previous.clone();
    let outcome = next.close_panel(&pid("one")).unwrap();
    next.reconcile(&[place("two", "bottom"), place("three", "side"), place("one", "top")]);
    let focus = previous.focus_tile_after_close(outcome.tile(), &next).unwrap();
    assert_eq!(focus.id, tid("top"));
}

#[test]
fn closes_wait_for_the_registry_then_complete() {
    let layout = PanelLayout::new(LayoutNode::tile(tid("main"), vec![pid("first"), pid("second")]));
    let pending = vec![pid("first")];

    // Still registered: nothing changes and the request stays pending.
    let waiting = complete_closes(
        &layout,
        &pending,
        &[place("first", "main"), place("second", "main")],
    );
    assert_eq!(waiting.pending, vec![pid("first")]);
    assert_eq!(waiting.layout, layout);
    assert!(!waiting.changed);
    assert!(waiting.focus.is_none());
    assert!(waiting.announce.is_none());

    // Removed from the registry: the close completes.
    let done = complete_closes(&layout, &pending, &[place("second", "main")]);
    assert!(done.pending.is_empty());
    assert!(done.changed);
    assert_eq!(done.layout.tile_for_panel(&pid("first")), None);
    assert_eq!(done.layout.tile(&tid("main")).unwrap().active, Some(pid("second")));
    assert_eq!(done.focus.unwrap().id, tid("main"));
    assert_eq!(done.announce, Some(pid("second")));
}

#[test]
fn focus_follows_the_last_completed_close() {
    let layout = PanelLayout::new(LayoutNode::split(
        sid("root"),
        SplitAxis::Horizontal,
        500_000,
        LayoutNode::tile(tid("left"), vec![pid("one")]),
        LayoutNode::tile(tid("right"), vec![pid("two"), pid("three")]),
    ));
    let done = complete_closes(
        &layout,
        &[pid("three"), pid("one"), pid("two")],
        &[place("two", "right")],
    );
    assert_eq!(done.pending, vec![pid("two")]);
    // "one" closed last; its tile is pruned and "right" inherits the space.
    assert!(done.layout.tile(&tid("left")).is_none());
    assert_eq!(done.focus.unwrap().id, tid("right"));
    assert_eq!(done.announce, Some(pid("two")));
}

#[test]
fn ids_convert_from_text() {
    assert_eq!(PanelId::from("editor"), pid("editor"));
    let tile: TileId = "main".into();
    assert_eq!(tile.as_str(), "main");
    assert_eq!(SplitId::from("root"), sid("root"));
}
