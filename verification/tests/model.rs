use dioxus_workbench::{
    DockZone, LayoutError, LayoutNode, PanelId, PanelLayout, PanelPlacement, SplitAxis, SplitId, TileId,
    MAX_SPLIT_RATIO,
};

fn pid(value: &str) -> PanelId {
    PanelId::new(value)
}

fn tid(value: &str) -> TileId {
    TileId::new(value)
}

fn place(panel: &str, home: &str) -> PanelPlacement {
    PanelPlacement::new(pid(panel), tid(home))
}

fn two_tiles() -> PanelLayout {
    PanelLayout::new(LayoutNode::split(
        SplitId::new("root"),
        SplitAxis::Horizontal,
        600_000,
        LayoutNode::tile(tid("left"), vec![pid("editor"), pid("outline")]),
        LayoutNode::tile(tid("right"), vec![pid("terminal")]),
    ))
}

#[test]
fn moving_the_last_panel_collapses_its_source_branch() {
    let mut layout = two_tiles();
    assert!(layout.dock_panel(&pid("terminal"), &tid("left"), DockZone::Center));
    assert!(layout.tile(&tid("right")).is_none());
    assert_eq!(
        layout.tile(&tid("left")).unwrap().panels,
        ["editor", "outline", "terminal"]
            .into_iter()
            .map(PanelId::new)
            .collect::<Vec<_>>()
    );
    assert!(layout.valid());
}

#[test]
fn edge_docking_splits_the_target_and_keeps_panel_identity_unique() {
    let mut layout = two_tiles();
    assert!(layout.dock_panel(&pid("outline"), &tid("right"), DockZone::Bottom));
    assert_ne!(layout.tile_for_panel(&pid("outline")), Some(tid("left")));
    assert!(layout.valid());
}

#[test]
fn split_single_panel_creates_an_explicit_empty_drop_target() {
    let mut layout = PanelLayout::single(tid("editor-group"), pid("editor"));
    assert!(layout.split_active(&tid("editor-group"), DockZone::Right));
    assert_eq!(layout.tile_ids().len(), 2);
    assert!(layout
        .tile_ids()
        .iter()
        .any(|id| layout.tile(id).is_some_and(|tile| tile.panels.is_empty())));
}

#[test]
fn a_new_panel_rejoins_its_named_home_tile() {
    let mut layout = two_tiles();
    layout.reconcile(&[
        place("editor", "left"),
        place("terminal", "right"),
        place("problems", "right"),
    ]);
    assert_eq!(layout.tile_for_panel(&pid("problems")), Some(tid("right")));
    assert!(layout.tile_for_panel(&pid("outline")).is_none());
}

#[test]
fn a_split_home_hint_keeps_late_arrivals_visible() {
    let mut layout = PanelLayout::single(tid("documents"), pid("document-empty"));
    layout.reconcile(&[
        place("document-a", "documents").with_zone(DockZone::Bottom),
        place("document-b", "documents").with_zone(DockZone::Bottom),
    ]);

    let first = layout.tile_for_panel(&pid("document-a"));
    let second = layout.tile_for_panel(&pid("document-b"));
    assert_eq!(first, Some(tid("documents")));
    assert_ne!(first, second);
    assert!(matches!(
        layout.root,
        LayoutNode::Split {
            axis: SplitAxis::Vertical,
            ..
        }
    ));
    assert!(layout.valid());
}

#[test]
fn registry_changes_prune_only_the_rows_they_empty() {
    let mut layout = PanelLayout::new(LayoutNode::split(
        SplitId::new("root"),
        SplitAxis::Horizontal,
        700_000,
        LayoutNode::tile(tid("primary"), vec![pid("editor")]),
        LayoutNode::split(
            SplitId::new("document-rows-1"),
            SplitAxis::Vertical,
            500_000,
            LayoutNode::tile(tid("documents"), vec![pid("session-a")]),
            LayoutNode::split(
                SplitId::new("document-rows-2"),
                SplitAxis::Vertical,
                500_000,
                LayoutNode::tile(tid("documents-2"), vec![pid("session-b")]),
                LayoutNode::tile(tid("documents-3"), vec![pid("session-c")]),
            ),
        ),
    ));

    layout.reconcile(&[
        place("editor", "primary"),
        place("archive:a", "documents").with_zone(DockZone::Bottom),
        place("archive:b", "documents").with_zone(DockZone::Bottom),
    ]);

    assert_eq!(layout.tile_count(), 3);
    assert_eq!(layout.tile_for_panel(&pid("archive:a")), Some(tid("documents")));
    assert_ne!(
        layout.tile_for_panel(&pid("archive:a")),
        layout.tile_for_panel(&pid("archive:b"))
    );
    assert!(layout
        .tile_ids()
        .iter()
        .all(|id| layout.tile(id).is_some_and(|tile| !tile.panels.is_empty())));
    assert!(layout.valid());
}

#[test]
fn persisted_unmarked_empty_groups_are_repaired_as_registry_artifacts() {
    let mut layout = PanelLayout::new(LayoutNode::split(
        SplitId::new("root"),
        SplitAxis::Horizontal,
        500_000,
        LayoutNode::tile(tid("editor-group"), vec![pid("editor")]),
        LayoutNode::tile(tid("stale-row"), Vec::new()),
    ));

    layout.reconcile(&[place("editor", "editor-group")]);

    assert_eq!(layout.tile_count(), 1);
    assert!(layout.tile(&tid("stale-row")).is_none());
    assert!(layout.valid());
}

#[test]
fn registry_changes_preserve_operator_created_empty_drop_targets() {
    let mut layout = PanelLayout::single(tid("editor-group"), pid("editor"));
    let empty = layout
        .split_tile(&tid("editor-group"), DockZone::Right)
        .expect("empty drop target");
    assert!(layout.validate().is_ok(), "serializable layout");
    // A persisted layout carries its version, id counter and tree.
    let mut layout =
        PanelLayout::from_parts(layout.version(), layout.next_id(), layout.root.clone());

    layout.reconcile(&[place("editor", "editor-group")]);

    assert!(layout
        .tile(&empty)
        .is_some_and(|tile| tile.panels.is_empty()));
    assert!(layout.valid());
}

#[test]
fn hand_built_invariant_violations_fail_encoding_with_a_reason() {
    let layout = PanelLayout::new(LayoutNode::Split {
        id: SplitId::new("root"),
        axis: SplitAxis::Horizontal,
        ratio: 500_000,
        first: Box::new(LayoutNode::tile(tid("same"), vec![pid("editor")])),
        second: Box::new(LayoutNode::tile(tid("same"), vec![pid("terminal")])),
    });
    let error = layout.validate().unwrap_err();
    assert!(matches!(&error, LayoutError::Invalid(reason) if reason.contains("same")));
}

#[test]
fn from_homes_builds_one_tile_per_distinct_home_in_registration_order() {
    let layout = PanelLayout::from_homes(&[
        place("files", "side"),
        place("editor", "main"),
        place("readme", "main"),
        place("terminal", "bottom"),
    ]);
    assert_eq!(layout.tile_count(), 3);
    assert_eq!(layout.tile_ids()[0], tid("side"));
    assert_eq!(
        layout.tile(&tid("main")).unwrap().panels,
        vec![pid("editor"), pid("readme")]
    );
    assert!(layout.valid());
    assert!(layout.validate().is_ok());
}

#[test]
fn from_homes_honors_home_zone_hints_and_survives_emptiness() {
    let layout = PanelLayout::from_homes(&[
        place("editor", "main"),
        place("preview", "main").with_zone(DockZone::Right),
    ]);
    assert_ne!(
        layout.tile_for_panel(&pid("editor")),
        layout.tile_for_panel(&pid("preview"))
    );
    assert!(layout.valid());

    let empty = PanelLayout::from_homes(&[]);
    assert_eq!(empty.tile_count(), 1);
    assert!(empty.valid());
}

#[test]
fn reconcile_heals_out_of_range_ratios_from_public_construction() {
    let mut layout = PanelLayout::new(LayoutNode::Split {
        id: SplitId::new("root"),
        axis: SplitAxis::Horizontal,
        ratio: 5_000_000,
        first: Box::new(LayoutNode::tile(tid("left"), vec![pid("editor")])),
        second: Box::new(LayoutNode::tile(tid("right"), vec![pid("terminal")])),
    });
    assert!(!layout.valid());
    layout.reconcile(&[place("editor", "left"), place("terminal", "right")]);
    assert_eq!(
        layout.split_ratio(&SplitId::new("root")),
        Some(MAX_SPLIT_RATIO)
    );
    assert!(layout.valid());
}

#[test]
fn keyboard_tile_moves_wrap_and_collapse_sources() {
    let mut layout = two_tiles();
    assert!(layout.move_panel_by_tile(&pid("editor"), -1));
    assert_eq!(layout.tile_for_panel(&pid("editor")), Some(tid("right")));
    assert!(layout.valid());
}

#[test]
fn docking_into_an_edge_of_the_same_multi_tab_tile_splits_it() {
    let mut layout = PanelLayout::new(LayoutNode::tile(tid("only"), vec![pid("editor"), pid("outline")]));
    assert!(layout.dock_panel(&pid("outline"), &tid("only"), DockZone::Right));
    assert_eq!(layout.tile_count(), 2);
    assert_ne!(
        layout.tile_for_panel(&pid("outline")),
        layout.tile_for_panel(&pid("editor"))
    );
    assert!(layout.valid());
}

#[test]
fn the_last_panel_cannot_be_docked_out_of_existence() {
    let mut layout = PanelLayout::single(tid("only"), pid("editor"));
    assert!(!layout.dock_panel(&pid("editor"), &tid("only"), DockZone::Right));
    assert_eq!(layout.tile_count(), 1);
    assert!(layout.valid());
}
