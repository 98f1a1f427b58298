//! Tests for the layout engine: default tree building, open/close,
//! persistence round trips, and the panel menu list.

use workbench_core::dock::{
    classify_panel_id, ContainerKind, LayoutDocument, LayoutNode, Panel, PanelSlot,
    TileLayoutState,
};
use workbench_core::undo::{EditorWorld, UndoAction, UndoStack};

fn panel(id: &str, title: &str, default_visible: bool) -> Panel {
    Panel {
        id: String::from(id),
        title: String::from(title),
        closable: true,
        default_visible,
    }
}

fn live_panes(state: &TileLayoutState) -> Vec<usize> {
    let mut panes = Vec::new();
    for slot in &state.tiles {
        if let Some(LayoutNode::Pane { panel }) = slot {
            panes.push(*panel);
        }
    }
    panes
}

fn visible_ids(state: &TileLayoutState) -> Vec<String> {
    state
        .panel_list()
        .into_iter()
        .filter(|e| e.2)
        .map(|e| e.0)
        .collect()
}

#[test]
fn classification_follows_the_naming_convention() {
    assert_eq!(classify_panel_id("my_inspector"), PanelSlot::Right);
    assert_eq!(classify_panel_id("workbench_console"), PanelSlot::Bottom);
    assert_eq!(classify_panel_id("timeline_2"), PanelSlot::Bottom);
    assert_eq!(classify_panel_id("game_view"), PanelSlot::Center);
    assert_eq!(classify_panel_id("settings"), PanelSlot::Left);
    assert_eq!(classify_panel_id(""), PanelSlot::Left);
}

#[test]
fn scenario_two_panels_close_and_reopen() {
    // Register panel A (visible, Left) and panel B (visible, Center).
    let mut state = TileLayoutState::new();
    let a = state.add_panel(panel("panel_a", "Alpha", true));
    let b = state.add_panel(panel("game_view", "Game", true));
    state.build_default_tree();

    // One horizontal row with two tab slots, weight shares 1.0 and 4.0
    // (kept in tenths).
    let root = state.root_tile.expect("a root");
    match &state.tiles[root] {
        Some(LayoutNode::Container { kind, children }) => {
            assert_eq!(*kind, ContainerKind::Horizontal);
            assert_eq!(children.len(), 2);
            assert_eq!(children[0].share, 10);
            assert_eq!(children[1].share, 40);
        }
        other => panic!("expected a horizontal row at the root, got {other:?}"),
    }
    assert_eq!(live_panes(&state), vec![a, b]);
    assert_eq!(visible_ids(&state), vec![String::from("panel_a"), String::from("game_view")]);

    // close(B): the tree retains only A's leaf.
    state.close_panel("game_view");
    assert_eq!(live_panes(&state), vec![a]);
    assert_eq!(visible_ids(&state), vec![String::from("panel_a")]);

    // open_or_focus(B): B's leaf is re-appended; panel_list reports it
    // visible again.
    state.open_or_focus_panel("game_view");
    let panes = live_panes(&state);
    assert!(panes.contains(&a) && panes.contains(&b));
    let mut after = visible_ids(&state);
    after.sort();
    assert_eq!(after, vec![String::from("game_view"), String::from("panel_a")]);
}

#[test]
fn default_tree_with_nothing_visible_is_empty() {
    let mut state = TileLayoutState::new();
    state.add_panel(panel("hidden", "Hidden", false));
    state.build_default_tree();
    assert_eq!(state.root_tile, None);
    assert!(live_panes(&state).is_empty());
    assert_eq!(visible_ids(&state), Vec::<String>::new());
}

#[test]
fn default_tree_with_bottom_region_splits_vertically() {
    let mut state = TileLayoutState::new();
    state.add_panel(panel("game_view", "Game", true));
    state.add_panel(panel("workbench_console", "Console", true));
    state.build_default_tree();
    let root = state.root_tile.expect("a root");
    match &state.tiles[root] {
        Some(LayoutNode::Container { kind, children }) => {
            assert_eq!(*kind, ContainerKind::Vertical);
            assert_eq!(children.len(), 2);
            assert_eq!(children[0].share, 40);
            assert_eq!(children[1].share, 10);
        }
        other => panic!("expected a vertical split at the root, got {other:?}"),
    }
}

#[test]
fn every_default_pane_sits_in_a_tabs_container() {
    let mut state = TileLayoutState::new();
    state.add_panel(panel("solo", "Solo", true));
    state.build_default_tree();
    // Even a single visible panel is wrapped in a tabs container.
    let root = state.root_tile.expect("a root");
    match &state.tiles[root] {
        Some(LayoutNode::Container { kind, children }) => {
            assert_eq!(*kind, ContainerKind::Tabs);
            assert_eq!(children.len(), 1);
            assert!(matches!(
                state.tiles[children[0].tile],
                Some(LayoutNode::Pane { .. })
            ));
        }
        other => panic!("expected a tabs container at the root, got {other:?}"),
    }
}

#[test]
fn open_or_focus_is_idempotent_when_visible() {
    let mut state = TileLayoutState::new();
    state.add_panel(panel("panel_a", "Alpha", true));
    state.add_panel(panel("game_view", "Game", true));
    state.build_default_tree();

    state.open_or_focus_panel("panel_a");
    let tiles_before = state.tiles.clone();
    let root_before = state.root_tile;
    let tile_of_before = state.tile_of.clone();

    // A second call produces no structural change.
    state.open_or_focus_panel("panel_a");
    assert_eq!(state.tiles, tiles_before);
    assert_eq!(state.root_tile, root_before);
    assert_eq!(state.tile_of, tile_of_before);
}

#[test]
fn open_or_focus_ignores_unknown_ids() {
    let mut state = TileLayoutState::new();
    state.add_panel(panel("panel_a", "Alpha", true));
    state.build_default_tree();
    let tiles_before = state.tiles.clone();
    state.open_or_focus_panel("no_such_panel");
    assert_eq!(state.tiles, tiles_before);
}

#[test]
fn close_then_open_restores_a_visible_leaf() {
    let mut state = TileLayoutState::new();
    state.add_panel(panel("panel_a", "Alpha", true));
    let b = state.add_panel(panel("panel_b", "Beta", true));
    state.build_default_tree();

    state.close_panel("panel_b");
    assert!(!visible_ids(&state).contains(&String::from("panel_b")));

    state.open_or_focus_panel("panel_b");
    assert!(visible_ids(&state).contains(&String::from("panel_b")));
    assert!(live_panes(&state).contains(&b));
}

#[test]
fn open_on_an_empty_tree_makes_the_pane_the_root() {
    let mut state = TileLayoutState::new();
    state.add_panel(panel("hidden", "Hidden", false));
    state.build_default_tree();
    assert_eq!(state.root_tile, None);
    state.open_or_focus_panel("hidden");
    let root = state.root_tile.expect("a root");
    assert!(matches!(state.tiles[root], Some(LayoutNode::Pane { .. })));
    assert!(visible_ids(&state).contains(&String::from("hidden")));
}

#[test]
fn save_then_load_reproduces_the_tree() {
    let mut state = TileLayoutState::new();
    state.add_panel(panel("panel_a", "Alpha", true));
    state.add_panel(panel("game_view", "Game", true));
    state.add_panel(panel("workbench_console", "Console", true));
    state.build_default_tree();
    // Disturb the default shape so the round trip is not trivial.
    state.close_panel("panel_a");
    state.open_or_focus_panel("panel_a");

    let doc = state.save_layout();
    let tiles_before = state.tiles.clone();
    let root_before = state.root_tile;
    let visible_before = visible_ids(&state);

    assert!(state.load_layout(&doc));
    assert_eq!(state.tiles, tiles_before);
    assert_eq!(state.root_tile, root_before);
    assert_eq!(visible_ids(&state), visible_before);
}

#[test]
fn load_rejects_a_document_with_dangling_children() {
    let mut state = TileLayoutState::new();
    state.add_panel(panel("panel_a", "Alpha", true));
    state.build_default_tree();
    let tiles_before = state.tiles.clone();

    let doc = LayoutDocument {
        tiles: vec![Some(LayoutNode::Container {
            kind: ContainerKind::Tabs,
            children: vec![workbench_core::dock::ChildRef { tile: 7, share: 10 }],
        })],
        root: Some(0),
        names: vec![],
    };
    assert!(!state.load_layout(&doc));
    assert_eq!(state.tiles, tiles_before);
}

#[test]
fn load_rejects_a_cyclic_document() {
    let mut state = TileLayoutState::new();
    state.add_panel(panel("panel_a", "Alpha", true));
    state.build_default_tree();
    let tiles_before = state.tiles.clone();

    // Two containers listing each other: structurally live, but a cycle.
    let doc = LayoutDocument {
        tiles: vec![
            Some(LayoutNode::Container {
                kind: ContainerKind::Tabs,
                children: vec![workbench_core::dock::ChildRef { tile: 1, share: 10 }],
            }),
            Some(LayoutNode::Container {
                kind: ContainerKind::Tabs,
                children: vec![workbench_core::dock::ChildRef { tile: 0, share: 10 }],
            }),
        ],
        root: Some(0),
        names: vec![String::from("panel_a")],
    };
    assert!(!state.load_layout(&doc));
    assert_eq!(state.tiles, tiles_before);

    // A self-listing container is equally refused.
    let doc2 = LayoutDocument {
        tiles: vec![Some(LayoutNode::Container {
            kind: ContainerKind::Tabs,
            children: vec![workbench_core::dock::ChildRef { tile: 0, share: 10 }],
        })],
        root: Some(0),
        names: vec![String::from("panel_a")],
    };
    assert!(!state.load_layout(&doc2));
    assert_eq!(state.tiles, tiles_before);
}

#[test]
fn load_rejects_a_document_naming_an_unregistered_panel() {
    let mut state = TileLayoutState::new();
    state.add_panel(panel("panel_a", "Alpha", true));
    state.build_default_tree();
    let tiles_before = state.tiles.clone();

    // A pane whose saved name no longer resolves would leave a dangling leaf.
    let doc = LayoutDocument {
        tiles: vec![Some(LayoutNode::Pane { panel: 0 })],
        root: Some(0),
        names: vec![String::from("panel_gone")],
    };
    assert!(!state.load_layout(&doc));
    assert_eq!(state.tiles, tiles_before);

    // So would a pane whose handle has no saved name at all.
    let doc2 = LayoutDocument {
        tiles: vec![Some(LayoutNode::Pane { panel: 9 })],
        root: Some(0),
        names: vec![String::from("panel_a")],
    };
    assert!(!state.load_layout(&doc2));
    assert_eq!(state.tiles, tiles_before);
}

#[test]
fn load_remaps_saved_handles_by_name() {
    // Save from one registry, load into one that registered the panels in
    // the opposite order: the leaves must follow the names.
    let mut first = TileLayoutState::new();
    first.add_panel(panel("panel_a", "Alpha", true));
    first.add_panel(panel("panel_b", "Beta", true));
    first.build_default_tree();
    let doc = first.save_layout();

    let mut second = TileLayoutState::new();
    let b = second.add_panel(panel("panel_b", "Beta", true));
    let a = second.add_panel(panel("panel_a", "Alpha", true));
    assert!(second.load_layout(&doc));
    assert_eq!(second.tile_of[a].is_some(), true);
    assert_eq!(second.tile_of[b].is_some(), true);
    let mut vis = visible_ids(&second);
    vis.sort();
    assert_eq!(vis, vec![String::from("panel_a"), String::from("panel_b")]);
}

#[test]
fn panel_list_is_sorted_by_title() {
    let mut state = TileLayoutState::new();
    state.add_panel(panel("c_panel", "Zulu", true));
    state.add_panel(panel("a_panel", "Alpha", false));
    state.add_panel(panel("b_panel", "Mike", true));
    state.build_default_tree();
    let list = state.panel_list();
    let titles: Vec<String> = list.iter().map(|e| e.1.clone()).collect();
    assert_eq!(titles, vec![String::from("Alpha"), String::from("Mike"), String::from("Zulu")]);
    let alpha = list.iter().find(|e| e.0 == "a_panel").unwrap();
    assert!(!alpha.2);
    let zulu = list.iter().find(|e| e.0 == "c_panel").unwrap();
    assert!(zulu.2);
}

#[test]
fn panel_list_keeps_rows_with_equal_titles() {
    let mut state = TileLayoutState::new();
    state.add_panel(panel("first", "Same", true));
    state.add_panel(panel("second", "Same", true));
    state.build_default_tree();
    let list = state.panel_list();
    assert_eq!(list.len(), 2);
    assert!(list.iter().any(|e| e.0 == "first"));
    assert!(list.iter().any(|e| e.0 == "second"));
    assert!(list.iter().all(|e| e.1 == "Same" && e.2));
}

#[test]
fn open_requests_queue_and_drain() {
    let mut state = TileLayoutState::new();
    state.request_open_panel("settings");
    state.request_open_panel("keybindings");
    let drained = state.take_open_requests();
    assert_eq!(drained, vec![String::from("settings"), String::from("keybindings")]);
    assert!(state.take_open_requests().is_empty());
}

#[test]
fn build_tree_prefers_a_loadable_document_and_runs_once() {
    let mut state = TileLayoutState::new();
    state.add_panel(panel("panel_a", "Alpha", true));
    state.build_default_tree();
    let doc = state.save_layout();

    let mut fresh = TileLayoutState::new();
    fresh.add_panel(panel("panel_a", "Alpha", true));
    fresh.build_tree(Some(&doc));
    assert!(fresh.tree_built);
    assert_eq!(fresh.tiles, state.tiles);

    // A later call changes nothing.
    let tiles_before = fresh.tiles.clone();
    fresh.build_tree(None);
    assert_eq!(fresh.tiles, tiles_before);
}

#[test]
fn layout_reset_rebuilds_and_records_one_undoable_action() {
    let mut layout = TileLayoutState::new();
    layout.add_panel(panel("panel_a", "Alpha", true));
    layout.add_panel(panel("panel_b", "Beta", true));
    layout.build_default_tree();
    layout.close_panel("panel_b");
    layout.layout_reset_requested = true;

    let mut stack = UndoStack::default();
    workbench_core::undo::process_layout_reset(&mut layout, &mut stack);
    assert!(!layout.layout_reset_requested);
    assert!(visible_ids(&layout).contains(&String::from("panel_b")));
    assert_eq!(stack.undo_count(), 1);
    assert_eq!(stack.undo_description(), Some(&String::from("Reset layout")));

    // One undo restores the tree that was thrown away.
    let mut world = EditorWorld { components: vec![], resources: vec![], layout };
    stack.undo(&mut world);
    assert!(!visible_ids(&world.layout).contains(&String::from("panel_b")));

    // Without a pending request nothing happens.
    workbench_core::undo::process_layout_reset(&mut world.layout, &mut stack);
    assert_eq!(stack.undo_count(), 0);
}

#[test]
fn open_requests_are_serviced_and_recorded() {
    let mut layout = TileLayoutState::new();
    layout.add_panel(panel("panel_a", "Alpha", true));
    layout.add_panel(panel("settings", "Settings", false));
    layout.build_default_tree();
    layout.request_open_panel("settings");
    layout.request_open_panel("no_such_panel");

    let mut stack = UndoStack::default();
    workbench_core::undo::process_open_requests(&mut layout, &mut stack);
    assert!(layout.pending_open_requests.is_empty());
    assert!(visible_ids(&layout).contains(&String::from("settings")));
    assert_eq!(stack.undo_count(), 1);
    assert_eq!(stack.undo_description(), Some(&String::from("Open panels")));

    let mut world = EditorWorld { components: vec![], resources: vec![], layout };
    stack.undo(&mut world);
    assert!(!visible_ids(&world.layout).contains(&String::from("settings")));
    stack.redo(&mut world);
    assert!(visible_ids(&world.layout).contains(&String::from("settings")));
}

#[test]
fn layout_snapshot_action_undoes_a_close() {
    let mut layout = TileLayoutState::new();
    layout.add_panel(panel("panel_a", "Alpha", true));
    layout.add_panel(panel("panel_b", "Beta", true));
    layout.build_default_tree();

    let before = layout.snapshot();
    layout.close_panel("panel_b");
    let after = layout.snapshot();

    let mut world = EditorWorld { components: vec![], resources: vec![], layout };
    let mut stack = UndoStack::default();
    stack.push(UndoAction::layout_snapshot(String::from("Close Beta"), before, after));

    stack.undo(&mut world);
    assert!(visible_ids(&world.layout).contains(&String::from("panel_b")));

    stack.redo(&mut world);
    assert!(!visible_ids(&world.layout).contains(&String::from("panel_b")));
}
