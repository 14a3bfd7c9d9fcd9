use wm_core::arrange::{
    drop_as_tiling_window, handle_window_moved_or_resized_end, move_window_to_position,
    try_arrange_window_between_monitors,
};
use wm_core::error::WmError;
use wm_core::geometry::{Point, Rect, TilingDirection};
use wm_core::state::{UserConfig, WmState};
use wm_core::tree::{
    ActiveDrag, ActiveDragOperation, ContainerKind, GapsConfig, Tree, WindowState,
};

fn rect(left: i32, top: i32, right: i32, bottom: i32) -> Rect {
    Rect { left, top, right, bottom }
}

fn config() -> UserConfig {
    UserConfig { gaps: GapsConfig { inner_gap: 8, outer_gap: 16 } }
}

fn monitor_rect(idx: i32) -> Rect {
    rect(idx * 1920, 0, (idx + 1) * 1920, 1080)
}

fn single_workspace_state() -> (WmState, usize) {
    let mut state = WmState::new();
    let m = state.tree.add_monitor(Some(monitor_rect(0)));
    let ws = state.tree.add_workspace(m, TilingDirection::Horizontal, true, Some(monitor_rect(0)));
    (state, ws)
}

/// Every child's recorded parent matches its actual parent, and the root
/// is the only container without one.
fn assert_tree_consistent(tree: &Tree) {
    let n = tree.node_count();
    for i in 0..n {
        match tree.parent(i) {
            None => assert_eq!(i, 0),
            Some(p) => {
                let mut found = false;
                for k in 0..tree.child_count(p) {
                    if tree.child_at(p, k) == i {
                        assert!(!found, "child listed twice");
                        found = true;
                    }
                }
                assert!(found, "child missing from its parent");
            }
        }
    }
}

#[test]
fn split_insertion_on_top_edge() {
    let (mut state, ws) = single_workspace_state();
    let w1 = state.tree.add_tiling_window(ws, 1, Some(rect(0, 0, 960, 1080)));
    let _w2 = state.tree.add_tiling_window(ws, 2, Some(rect(960, 0, 1920, 1080)));
    // a temporarily floated window, dragged from tiling, dropped on the
    // top edge of w1 (above the diagonals of w1's rectangle)
    let moved = state.tree.add_non_tiling_window(
        ws,
        3,
        WindowState::Floating,
        Some(rect(100, 0, 500, 300)),
    );
    let mouse = Point::from_xy(480, 60);
    drop_as_tiling_window(moved, &mouse, &mut state, &config()).unwrap();
    // a new vertical split stands at w1's former position, holding the
    // dropped window before the original
    let split = state.tree.parent(moved).unwrap();
    match state.tree.kind(split) {
        ContainerKind::Split { tiling_direction, gaps } => {
            assert_eq!(tiling_direction, TilingDirection::Vertical);
            assert_eq!(gaps.inner_gap, 8);
        }
        k => panic!("expected a split container, got {k:?}"),
    }
    assert_eq!(state.tree.child_count(split), 2);
    assert_eq!(state.tree.child_at(split, 0), moved);
    assert_eq!(state.tree.child_at(split, 1), w1);
    assert_eq!(state.tree.parent(split), Some(ws));
    assert_eq!(state.tree.child_at(ws, 0), split);
    // the moved window is a tiling window now
    assert!(matches!(state.tree.kind(moved), ContainerKind::TilingWindow { .. }));
    assert_tree_consistent(&state.tree);
}

#[test]
fn split_insertion_on_bottom_edge_orders_after_original() {
    let (mut state, ws) = single_workspace_state();
    let w1 = state.tree.add_tiling_window(ws, 1, Some(rect(0, 0, 960, 1080)));
    let moved = state.tree.add_non_tiling_window(
        ws,
        3,
        WindowState::Floating,
        Some(rect(100, 700, 500, 1000)),
    );
    let mouse = Point::from_xy(480, 1020);
    drop_as_tiling_window(moved, &mouse, &mut state, &config()).unwrap();
    let split = state.tree.parent(moved).unwrap();
    assert_eq!(state.tree.child_at(split, 0), w1);
    assert_eq!(state.tree.child_at(split, 1), moved);
    assert_tree_consistent(&state.tree);
}

#[test]
fn sibling_insertion_on_matching_axis() {
    let (mut state, ws) = single_workspace_state();
    let w1 = state.tree.add_tiling_window(ws, 1, Some(rect(0, 0, 960, 1080)));
    let w2 = state.tree.add_tiling_window(ws, 2, Some(rect(960, 0, 1920, 1080)));
    let moved = state.tree.add_non_tiling_window(
        ws,
        3,
        WindowState::Floating,
        Some(rect(900, 100, 1300, 400)),
    );
    // left triangle of w2's rectangle: no split needed in a horizontal
    // workspace, the window becomes w2's preceding sibling
    let mouse = Point::from_xy(1000, 540);
    drop_as_tiling_window(moved, &mouse, &mut state, &config()).unwrap();
    assert_eq!(state.tree.parent(moved), Some(ws));
    assert_eq!(state.tree.child_at(ws, 0), w1);
    assert_eq!(state.tree.child_at(ws, 1), moved);
    assert_eq!(state.tree.child_at(ws, 2), w2);
    assert_tree_consistent(&state.tree);
}

#[test]
fn drop_into_empty_workspace_converts_in_place() {
    let (mut state, ws) = single_workspace_state();
    let moved = state.tree.add_non_tiling_window(
        ws,
        3,
        WindowState::Floating,
        Some(rect(10, 10, 200, 200)),
    );
    drop_as_tiling_window(moved, &Point::from_xy(50, 50), &mut state, &config()).unwrap();
    assert!(matches!(state.tree.kind(moved), ContainerKind::TilingWindow { .. }));
    assert_eq!(state.tree.parent(moved), Some(ws));
    assert_tree_consistent(&state.tree);
}

#[test]
fn drop_with_unknown_sibling_geometry_is_a_structural_error() {
    let (mut state, ws) = single_workspace_state();
    let _w1 = state.tree.add_tiling_window(ws, 1, None);
    let moved = state.tree.add_non_tiling_window(
        ws,
        3,
        WindowState::Floating,
        Some(rect(10, 10, 200, 200)),
    );
    let r = drop_as_tiling_window(moved, &Point::from_xy(50, 50), &mut state, &config());
    assert_eq!(r, Err(WmError::NoGeometry));
    // the failed event left the tree unchanged
    assert!(matches!(state.tree.kind(moved), ContainerKind::NonTilingWindow { .. }));
}

#[test]
fn handler_does_nothing_while_paused_or_for_unknown_handles() {
    let (mut state, ws) = single_workspace_state();
    let w = state.tree.add_tiling_window(ws, 1, Some(rect(0, 0, 1920, 1080)));
    state.is_paused = true;
    handle_window_moved_or_resized_end(1, Some(rect(0, 0, 500, 500)), None, &mut state, &config())
        .unwrap();
    assert_eq!(state.tree.rect(w), Some(rect(0, 0, 1920, 1080)));
    state.is_paused = false;
    handle_window_moved_or_resized_end(99, Some(rect(0, 0, 1, 1)), None, &mut state, &config())
        .unwrap();
    assert_eq!(state.pending_sync.containers_to_redraw.len(), 0);
}

#[test]
fn handler_snaps_back_sole_tiling_window() {
    let (mut state, ws) = single_workspace_state();
    let w = state.tree.add_tiling_window(ws, 1, Some(rect(0, 0, 1920, 1080)));
    handle_window_moved_or_resized_end(
        1,
        Some(rect(100, 100, 800, 800)),
        None,
        &mut state,
        &config(),
    )
    .unwrap();
    // the sole tiling window of its workspace keeps its rectangle and is
    // only queued for redraw
    assert_eq!(state.tree.rect(w), Some(rect(0, 0, 1920, 1080)));
    assert_eq!(state.pending_sync.containers_to_redraw, vec![w]);
}

#[test]
fn handler_applies_refreshed_frame_when_siblings_exist() {
    let (mut state, ws) = single_workspace_state();
    let w1 = state.tree.add_tiling_window(ws, 1, Some(rect(0, 0, 960, 1080)));
    let _w2 = state.tree.add_tiling_window(ws, 2, Some(rect(960, 0, 1920, 1080)));
    let new_frame = rect(0, 0, 700, 1080);
    handle_window_moved_or_resized_end(1, Some(new_frame), None, &mut state, &config()).unwrap();
    // the relative resize is observable to the draining collaborator
    assert_eq!(
        state.pending_sync.resizes,
        vec![wm_core::state::ResizeEffect { window: w1, width_delta: -260, height_delta: 0 }]
    );
    assert_eq!(state.tree.rect(w1), Some(new_frame));
    assert_eq!(state.pending_sync.containers_to_redraw, vec![w1]);
}

#[test]
fn handler_reverts_dragged_floating_window_to_tiling() {
    let (mut state, ws) = single_workspace_state();
    let w1 = state.tree.add_tiling_window(ws, 1, Some(rect(0, 0, 1920, 1080)));
    let moved = state.tree.add_non_tiling_window(
        ws,
        2,
        WindowState::Floating,
        Some(rect(900, 100, 1300, 400)),
    );
    state.tree.set_active_drag(
        moved,
        Some(ActiveDrag { is_from_tiling: true, operation: Some(ActiveDragOperation::Moving) }),
    );
    let mouse = Point::from_xy(1800, 540);
    handle_window_moved_or_resized_end(2, None, Some(mouse), &mut state, &config()).unwrap();
    assert!(matches!(state.tree.kind(moved), ContainerKind::TilingWindow { .. }));
    // the drag marker is cleared afterward
    match state.tree.kind(moved) {
        ContainerKind::TilingWindow { active_drag, .. } => assert!(active_drag.is_none()),
        _ => unreachable!(),
    }
    // dropped right of w1: inserted after it
    assert_eq!(state.tree.parent(moved), Some(ws));
    assert_eq!(state.tree.child_at(ws, 0), w1);
    assert_eq!(state.tree.child_at(ws, 1), moved);
    assert_tree_consistent(&state.tree);
}

#[test]
fn handler_needs_the_mouse_for_a_drop() {
    let (mut state, ws) = single_workspace_state();
    let _w1 = state.tree.add_tiling_window(ws, 1, Some(rect(0, 0, 1920, 1080)));
    let moved = state.tree.add_non_tiling_window(
        ws,
        2,
        WindowState::Floating,
        Some(rect(900, 100, 1300, 400)),
    );
    state.tree.set_active_drag(
        moved,
        Some(ActiveDrag { is_from_tiling: true, operation: Some(ActiveDragOperation::Moving) }),
    );
    let r = handle_window_moved_or_resized_end(2, None, None, &mut state, &config());
    assert_eq!(r, Err(WmError::PlatformUnavailable));
}

#[test]
fn cross_monitor_migration_moves_window_to_mouse_monitor() {
    let mut state = WmState::new();
    let m1 = state.tree.add_monitor(Some(monitor_rect(0)));
    let ws1 = state.tree.add_workspace(
        m1,
        TilingDirection::Horizontal,
        true,
        Some(monitor_rect(0)),
    );
    let w1 = state.tree.add_tiling_window(ws1, 1, Some(rect(0, 0, 1920, 1080)));
    let m2 = state.tree.add_monitor(Some(monitor_rect(1)));
    let ws2 = state.tree.add_workspace(
        m2,
        TilingDirection::Horizontal,
        true,
        Some(monitor_rect(1)),
    );
    let w2 = state.tree.add_tiling_window(ws2, 2, Some(rect(1920, 0, 3840, 1080)));
    // the mouse settled on monitor 2, right of w2's center
    let mouse = Point::from_xy(3700, 540);
    try_arrange_window_between_monitors(w1, &mouse, &mut state, &config()).unwrap();
    assert_eq!(state.tree.workspace_of(w1), Some(ws2));
    assert_eq!(state.tree.child_at(ws2, 0), w2);
    assert_eq!(state.tree.child_at(ws2, 1), w1);
    assert_tree_consistent(&state.tree);
}

#[test]
fn migration_is_a_no_op_with_a_single_monitor() {
    let (mut state, ws) = single_workspace_state();
    let w = state.tree.add_tiling_window(ws, 1, Some(rect(0, 0, 1920, 1080)));
    try_arrange_window_between_monitors(w, &Point::from_xy(10, 10), &mut state, &config())
        .unwrap();
    assert_eq!(state.tree.workspace_of(w), Some(ws));
    assert_eq!(state.pending_sync.containers_to_redraw.len(), 0);
}

#[test]
fn move_to_position_is_a_no_op_on_an_empty_target() {
    let (mut state, ws) = single_workspace_state();
    // the dragged window is the only tiling content of the workspace, so
    // the target parent (excluding the window itself) has nothing to offer
    let w = state.tree.add_tiling_window(ws, 1, Some(rect(0, 0, 1920, 1080)));
    move_window_to_position(w, &Point::from_xy(500, 500), &mut state, &config()).unwrap();
    assert_eq!(state.tree.parent(w), Some(ws));
    assert_eq!(state.pending_sync.containers_to_redraw.len(), 0);
}

#[test]
fn consistency_after_a_sequence_of_operations() {
    let (mut state, ws) = single_workspace_state();
    let w1 = state.tree.add_tiling_window(ws, 1, Some(rect(0, 0, 960, 1080)));
    let _w2 = state.tree.add_tiling_window(ws, 2, Some(rect(960, 0, 1920, 1080)));
    let moved = state.tree.add_non_tiling_window(
        ws,
        3,
        WindowState::Floating,
        Some(rect(100, 0, 500, 300)),
    );
    state.tree.set_focused_descendant(w1);
    drop_as_tiling_window(moved, &Point::from_xy(480, 60), &mut state, &config()).unwrap();
    wm_core::focus::focus_in_direction(moved, wm_core::geometry::Direction::Down, &mut state)
        .unwrap();
    handle_window_moved_or_resized_end(
        1,
        Some(rect(0, 300, 960, 1080)),
        None,
        &mut state,
        &config(),
    )
    .unwrap();
    assert_tree_consistent(&state.tree);
}

#[test]
fn handler_clears_drag_marker_even_when_the_drop_fails() {
    let (mut state, ws) = single_workspace_state();
    // a tiling sibling without geometry makes the drop fail
    let _w1 = state.tree.add_tiling_window(ws, 1, None);
    let moved = state.tree.add_non_tiling_window(
        ws,
        2,
        WindowState::Floating,
        Some(rect(900, 100, 1300, 400)),
    );
    state.tree.set_active_drag(
        moved,
        Some(ActiveDrag { is_from_tiling: true, operation: Some(ActiveDragOperation::Moving) }),
    );
    let r = handle_window_moved_or_resized_end(
        2,
        None,
        Some(Point::from_xy(1000, 200)),
        &mut state,
        &config(),
    );
    assert_eq!(r, Err(WmError::NoGeometry));
    // the marker is cleared unconditionally, a failed drop included
    match state.tree.kind(moved) {
        ContainerKind::NonTilingWindow { active_drag, .. } => assert!(active_drag.is_none()),
        _ => unreachable!(),
    }
}

#[test]
fn sibling_insertion_lands_on_dropped_side_of_an_earlier_sibling() {
    let (mut state, ws) = single_workspace_state();
    // the floated window precedes the nearest container among the children
    let moved = state.tree.add_non_tiling_window(
        ws,
        1,
        WindowState::Floating,
        Some(rect(0, 100, 400, 400)),
    );
    let n = state.tree.add_tiling_window(ws, 2, Some(rect(0, 0, 1920, 1080)));
    // dropped on the left half of n: the window must land before n
    let mouse = Point::from_xy(200, 540);
    drop_as_tiling_window(moved, &mouse, &mut state, &config()).unwrap();
    assert_eq!(state.tree.child_at(ws, 0), moved);
    assert_eq!(state.tree.child_at(ws, 1), n);
    // and on the right half it lands after n
    let (mut state2, ws2) = single_workspace_state();
    let moved2 = state2.tree.add_non_tiling_window(
        ws2,
        1,
        WindowState::Floating,
        Some(rect(1500, 100, 1900, 400)),
    );
    let n2 = state2.tree.add_tiling_window(ws2, 2, Some(rect(0, 0, 1920, 1080)));
    drop_as_tiling_window(moved2, &Point::from_xy(1700, 540), &mut state2, &config()).unwrap();
    assert_eq!(state2.tree.child_at(ws2, 0), n2);
    assert_eq!(state2.tree.child_at(ws2, 1), moved2);
}
