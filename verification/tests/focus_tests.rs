use wm_core::focus::{
    floating_focus_target, focus_in_direction, tiling_focus_target, workspace_focus_target,
};
use wm_core::geometry::{Direction, Point, Rect, TilingDirection};
use wm_core::monitor::find_monitor_by_anchor_point;
use wm_core::state::WmState;
use wm_core::tree::WindowState;

fn rect(left: i32, top: i32, right: i32, bottom: i32) -> Rect {
    Rect { left, top, right, bottom }
}

fn monitor_rect(idx: i32) -> Rect {
    rect(idx * 1920, 0, (idx + 1) * 1920, 1080)
}

/// One monitor, one displayed horizontal workspace.
fn single_workspace_state() -> (WmState, usize) {
    let mut state = WmState::new();
    let m = state.tree.add_monitor(Some(monitor_rect(0)));
    let ws = state.tree.add_workspace(m, TilingDirection::Horizontal, true, Some(monitor_rect(0)));
    (state, ws)
}

#[test]
fn tiling_traversal_moves_to_following_sibling() {
    let (mut state, ws) = single_workspace_state();
    let w1 = state.tree.add_tiling_window(ws, 1, Some(rect(0, 0, 960, 1080)));
    let w2 = state.tree.add_tiling_window(ws, 2, Some(rect(960, 0, 1920, 1080)));
    let target = tiling_focus_target(&state.tree, w1, Direction::Right).unwrap();
    assert_eq!(target, Some(w2));
    let back = tiling_focus_target(&state.tree, w2, Direction::Left).unwrap();
    assert_eq!(back, Some(w1));
}

#[test]
fn tiling_traversal_never_wraps_within_a_level() {
    let (mut state, ws) = single_workspace_state();
    let _w1 = state.tree.add_tiling_window(ws, 1, Some(rect(0, 0, 960, 1080)));
    let w2 = state.tree.add_tiling_window(ws, 2, Some(rect(960, 0, 1920, 1080)));
    // from the last tiling window, moving Right crosses into the parent's
    // sibling search (here: nothing above), never back to the first child
    let target = tiling_focus_target(&state.tree, w2, Direction::Right).unwrap();
    assert_eq!(target, None);
}

#[test]
fn tiling_traversal_enters_split_from_near_side() {
    let (mut state, ws) = single_workspace_state();
    let w1 = state.tree.add_tiling_window(ws, 1, Some(rect(0, 0, 960, 1080)));
    let gaps = wm_core::tree::GapsConfig { inner_gap: 0, outer_gap: 0 };
    let split = state.tree.add_split(
        ws,
        TilingDirection::Vertical,
        gaps,
        Some(rect(960, 0, 1920, 1080)),
    );
    let w2 = state.tree.add_tiling_window(split, 2, Some(rect(960, 0, 1920, 540)));
    let _w3 = state.tree.add_tiling_window(split, 3, Some(rect(960, 540, 1920, 1080)));
    // moving Right from w1 enters the vertical split; the split's axis does
    // not match, so its most recently focused tiling child is used
    let target = tiling_focus_target(&state.tree, w1, Direction::Right).unwrap();
    assert_eq!(target, Some(w2));
}

#[test]
fn floating_traversal_nearest_and_no_wrap() {
    let (mut state, ws) = single_workspace_state();
    let f10 = state.tree.add_non_tiling_window(
        ws,
        10,
        WindowState::Floating,
        Some(rect(10, 0, 30, 20)),
    );
    let f50 = state.tree.add_non_tiling_window(
        ws,
        11,
        WindowState::Floating,
        Some(rect(50, 0, 70, 20)),
    );
    let f90 = state.tree.add_non_tiling_window(
        ws,
        12,
        WindowState::Floating,
        Some(rect(90, 0, 110, 20)),
    );
    // origin at x = 50 moving Right lands on x = 90
    assert_eq!(floating_focus_target(&state.tree, f50, Direction::Right), Some(f90));
    // moving Right again finds no floating target: no wraparound to x = 10
    assert_eq!(floating_focus_target(&state.tree, f90, Direction::Right), None);
    // and moving Left from x = 50 lands on x = 10
    assert_eq!(floating_focus_target(&state.tree, f50, Direction::Left), Some(f10));
}

#[test]
fn floating_window_without_geometry_sorts_first() {
    let (mut state, ws) = single_workspace_state();
    let f_unknown = state.tree.add_non_tiling_window(ws, 20, WindowState::Floating, None);
    let f50 = state.tree.add_non_tiling_window(
        ws,
        21,
        WindowState::Floating,
        Some(rect(50, 0, 70, 20)),
    );
    // the sentinel minimum anchor lies strictly left of every real anchor
    assert_eq!(floating_focus_target(&state.tree, f50, Direction::Left), Some(f_unknown));
    assert_eq!(floating_focus_target(&state.tree, f_unknown, Direction::Left), None);
}

#[test]
fn workspace_traversal_crosses_monitors() {
    let mut state = WmState::new();
    let m1 = state.tree.add_monitor(Some(monitor_rect(0)));
    let ws1 = state.tree.add_workspace(
        m1,
        TilingDirection::Horizontal,
        true,
        Some(monitor_rect(0)),
    );
    let w1 = state.tree.add_tiling_window(ws1, 1, Some(rect(0, 0, 1920, 1080)));
    let m2 = state.tree.add_monitor(Some(monitor_rect(1)));
    let ws2 = state.tree.add_workspace(
        m2,
        TilingDirection::Horizontal,
        true,
        Some(monitor_rect(1)),
    );
    let w2a = state.tree.add_tiling_window(ws2, 2, Some(rect(1920, 0, 2880, 1080)));
    let _w2b = state.tree.add_tiling_window(ws2, 3, Some(rect(2880, 0, 3840, 1080)));
    // moving Right from the only window on monitor 1 enters monitor 2's
    // displayed workspace from its left edge: the left-most window
    let target = workspace_focus_target(&state, w1, Direction::Right).unwrap();
    assert_eq!(target, Some(w2a));
    // no monitor to the left of monitor 1: absence, not an error
    let none = workspace_focus_target(&state, w1, Direction::Left).unwrap();
    assert_eq!(none, None);
}

#[test]
fn focus_in_direction_sets_focus_and_queues_effects() {
    let (mut state, ws) = single_workspace_state();
    let w1 = state.tree.add_tiling_window(ws, 1, Some(rect(0, 0, 960, 1080)));
    let w2 = state.tree.add_tiling_window(ws, 2, Some(rect(960, 0, 1920, 1080)));
    state.tree.set_focused_descendant(w1);
    assert_eq!(state.tree.focused_descendant(0), Some(w1));
    focus_in_direction(w1, Direction::Right, &mut state).unwrap();
    assert_eq!(state.tree.focused_descendant(0), Some(w2));
    assert!(state.pending_sync.focus_change);
    assert!(state.pending_sync.cursor_jump);
}

#[test]
fn focus_in_direction_at_edge_is_absence_not_error() {
    let (mut state, ws) = single_workspace_state();
    let w1 = state.tree.add_tiling_window(ws, 1, Some(rect(0, 0, 1920, 1080)));
    state.tree.set_focused_descendant(w1);
    // twice in the same direction without intervening change: both succeed,
    // the second simply finds no further target
    focus_in_direction(w1, Direction::Right, &mut state).unwrap();
    focus_in_direction(w1, Direction::Right, &mut state).unwrap();
    assert_eq!(state.tree.focused_descendant(0), Some(w1));
}

#[test]
fn minimized_window_origin_changes_nothing() {
    let (mut state, ws) = single_workspace_state();
    let w = state.tree.add_non_tiling_window(ws, 9, WindowState::Minimized, None);
    focus_in_direction(w, Direction::Right, &mut state).unwrap();
    assert!(!state.pending_sync.focus_change);
    assert!(!state.pending_sync.cursor_jump);
}

#[test]
fn fullscreen_descendant_takes_priority_across_monitors() {
    let mut state = WmState::new();
    let m1 = state.tree.add_monitor(Some(monitor_rect(0)));
    let ws1 = state.tree.add_workspace(
        m1,
        TilingDirection::Horizontal,
        true,
        Some(monitor_rect(0)),
    );
    let w1 = state.tree.add_tiling_window(ws1, 1, Some(rect(0, 0, 1920, 1080)));
    let m2 = state.tree.add_monitor(Some(monitor_rect(1)));
    let ws2 = state.tree.add_workspace(
        m2,
        TilingDirection::Horizontal,
        true,
        Some(monitor_rect(1)),
    );
    let _w2 = state.tree.add_tiling_window(ws2, 2, Some(rect(1920, 0, 3840, 1080)));
    let full = state.tree.add_non_tiling_window(
        ws2,
        3,
        WindowState::Fullscreen,
        Some(monitor_rect(1)),
    );
    state.tree.set_focused_descendant(full);
    let target = workspace_focus_target(&state, w1, Direction::Right).unwrap();
    assert_eq!(target, Some(full));
}

#[test]
fn monitor_scan_returns_unique_containing_monitor() {
    let mut state = WmState::new();
    let m1 = state.tree.add_monitor(Some(monitor_rect(0)));
    let m2 = state.tree.add_monitor(Some(monitor_rect(1)));
    assert_eq!(
        find_monitor_by_anchor_point(&state.tree, &Point::from_xy(100, 100)),
        Some(m1)
    );
    assert_eq!(
        find_monitor_by_anchor_point(&state.tree, &Point::from_xy(2000, 500)),
        Some(m2)
    );
    // a point outside all monitors is an absence, not an error
    assert_eq!(find_monitor_by_anchor_point(&state.tree, &Point::from_xy(-5, 5000)), None);
}

#[test]
fn monitor_scan_skips_unknown_geometry() {
    let mut state = WmState::new();
    let _m_unknown = state.tree.add_monitor(None);
    let m2 = state.tree.add_monitor(Some(monitor_rect(0)));
    assert_eq!(
        find_monitor_by_anchor_point(&state.tree, &Point::from_xy(10, 10)),
        Some(m2)
    );
}

#[test]
fn monitor_in_direction_picks_nearest_edge() {
    let mut state = WmState::new();
    let m1 = state.tree.add_monitor(Some(monitor_rect(0)));
    let m2 = state.tree.add_monitor(Some(monitor_rect(1)));
    let m3 = state.tree.add_monitor(Some(monitor_rect(2)));
    assert_eq!(state.monitor_in_direction(m1, Direction::Right).unwrap(), Some(m2));
    assert_eq!(state.monitor_in_direction(m3, Direction::Left).unwrap(), Some(m2));
    assert_eq!(state.monitor_in_direction(m1, Direction::Left).unwrap(), None);
    assert_eq!(state.monitor_in_direction(m1, Direction::Up).unwrap(), None);
}

#[test]
fn window_lookup_by_native_handle() {
    let (mut state, ws) = single_workspace_state();
    let w = state.tree.add_tiling_window(ws, 77, Some(rect(0, 0, 10, 10)));
    assert_eq!(state.window_from_native(77), Some(w));
    assert_eq!(state.window_from_native(78), None);
}

#[test]
fn workspace_traversal_from_the_root_is_a_structural_error() {
    let state = WmState::new();
    // the root belongs to no monitor
    let r = workspace_focus_target(&state, 0, Direction::Right);
    assert_eq!(r, Err(wm_core::error::WmError::NoMonitor));
}

#[test]
fn workspace_traversal_surfaces_unknown_monitor_geometry() {
    let mut state = WmState::new();
    let m = state.tree.add_monitor(None);
    let ws = state.tree.add_workspace(m, TilingDirection::Horizontal, true, None);
    let w = state.tree.add_tiling_window(ws, 1, Some(rect(0, 0, 100, 100)));
    // the origin's own monitor has no recorded geometry: a structural
    // condition, surfaced rather than treated as "no adjacent monitor"
    let r = workspace_focus_target(&state, w, Direction::Right);
    assert_eq!(r, Err(wm_core::error::WmError::NoGeometry));
}
