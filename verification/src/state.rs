//! Window-manager state: the container tree, the pause flag, and the
//! pending-sync queue of deferred native effects, together with whole-tree
//! queries (window lookup by native handle, adjacent-monitor resolution).

use vstd::prelude::*;
use crate::geometry::Direction;
use crate::tree::{GapsConfig, Tree};

verus! {

/// User configuration consumed by the core: the gap sizes that newly
/// created split containers carry.
pub struct UserConfig {
    pub gaps: GapsConfig,
}

/// A relative resize of a window, recorded for the draining collaborator:
/// the pixel deltas between the window's previous and refreshed frame.
#[derive(Debug, Clone, Copy, PartialEq, Eq, Structural)]
pub struct ResizeEffect {
    pub window: usize,
    pub width_delta: i64,
    pub height_delta: i64,
}

/// Deferred native-facing effects: core algorithms only enqueue; an
/// outside collaborator drains the queue and applies the effects.
pub struct PendingSync {
    pub focus_change: bool,
    pub cursor_jump: bool,
    pub containers_to_redraw: Vec<usize>,
    pub resizes: Vec<ResizeEffect>,
}

impl PendingSync {
    pub fn new() -> (r: PendingSync)
        ensures
            !r.focus_change,
            !r.cursor_jump,
            r.containers_to_redraw@.len() == 0,
            r.resizes@.len() == 0,
    {
        PendingSync {
            focus_change: false,
            cursor_jump: false,
            containers_to_redraw: Vec::new(),
            resizes: Vec::new(),
        }
    }

    pub fn queue_focus_change(&mut self)
        ensures
            final(self).focus_change,
            final(self).cursor_jump == old(self).cursor_jump,
            final(self).containers_to_redraw == old(self).containers_to_redraw,
            final(self).resizes == old(self).resizes,
    {
        self.focus_change = true;
    }

    pub fn queue_cursor_jump(&mut self)
        ensures
            final(self).cursor_jump,
            final(self).focus_change == old(self).focus_change,
            final(self).containers_to_redraw == old(self).containers_to_redraw,
            final(self).resizes == old(self).resizes,
    {
        self.cursor_jump = true;
    }

    pub fn queue_container_to_redraw(&mut self, container: usize)
        ensures
            final(self).containers_to_redraw@ == old(self).containers_to_redraw@.push(container),
            final(self).focus_change == old(self).focus_change,
            final(self).cursor_jump == old(self).cursor_jump,
            final(self).resizes == old(self).resizes,
    {
        self.containers_to_redraw.push(container);
    }

    pub fn queue_resize(&mut self, effect: ResizeEffect)
        ensures
            final(self).resizes@ == old(self).resizes@.push(effect),
            final(self).focus_change == old(self).focus_change,
            final(self).cursor_jump == old(self).cursor_jump,
            final(self).containers_to_redraw == old(self).containers_to_redraw,
    {
        self.resizes.push(effect);
    }
}

/// The whole window-manager state; the tree is exclusively owned here and
/// all mutation goes through the state's entry points.
pub struct WmState {
    pub tree: Tree,
    pub is_paused: bool,
    pub pending_sync: PendingSync,
}

impl WmState {
    pub open spec fn wf(self) -> bool {
        self.tree.wf()
    }

    pub fn new() -> (r: WmState)
        ensures
            r.wf(),
            r.tree.n() == 1,
            !r.is_paused,
            !r.pending_sync.focus_change,
            !r.pending_sync.cursor_jump,
            r.pending_sync.containers_to_redraw@.len() == 0,
            r.pending_sync.resizes@.len() == 0,
    {
        WmState { tree: Tree::new(), is_paused: false, pending_sync: PendingSync::new() }
    }

    /// Whether node `i` is a window wrapping the given native handle.
    pub open spec fn is_window_with_handle(self, i: int, handle: u64) -> bool {
        &&& self.tree.is_window(i)
        &&& self.tree.handle_of(i) == handle
    }

    /// The first window at or after identifier `k` wrapping the handle.
    pub open spec fn spec_window_from_native_from(self, handle: u64, k: int) -> Option<usize>
        decreases self.tree.n() - k,
    {
        if k < 0 || k >= self.tree.n() {
            None
        } else if self.is_window_with_handle(k, handle) {
            Some(k as usize)
        } else {
            self.spec_window_from_native_from(handle, k + 1)
        }
    }

    /// The managed window container wrapping a native handle, if any.
    pub open spec fn spec_window_from_native(self, handle: u64) -> Option<usize> {
        self.spec_window_from_native_from(handle, 0)
    }

    /// Finds the managed window container wrapping a native handle: the
    /// first window in identifier order with that handle, or absence.
    pub fn window_from_native(&self, handle: u64) -> (r: Option<usize>)
        requires
            self.wf(),
        ensures
            r == self.spec_window_from_native(handle),
            match r {
                Some(w) => {
                    &&& self.tree.valid_id(w as int)
                    &&& self.is_window_with_handle(w as int, handle)
                    &&& forall|j: int| 0 <= j < w ==> !self.is_window_with_handle(j, handle)
                },
                None => forall|j: int|
                    self.tree.valid_id(j) ==> !self.is_window_with_handle(j, handle),
            },
    {
        let n = self.tree.node_count();
        let mut i: usize = 0;
        while i < n
            invariant
                self.wf(),
                n as int == self.tree.n(),
                i <= n,
                self.spec_window_from_native(handle) == self.spec_window_from_native_from(
                    handle,
                    i as int,
                ),
                forall|j: int| 0 <= j < i ==> !self.is_window_with_handle(j, handle),
            decreases n - i,
        {
            match self.tree.kind(i) {
                crate::tree::ContainerKind::TilingWindow { handle: h, .. } => {
                    if h == handle {
                        return Some(i);
                    }
                },
                crate::tree::ContainerKind::NonTilingWindow { handle: h, .. } => {
                    if h == handle {
                        return Some(i);
                    }
                },
                _ => {},
            }
            i = i + 1;
        }
        None
    }

    /// The signed coordinate by which monitors are ordered in a direction:
    /// the left edge for Left/Right, the top edge for Up/Down.
    pub open spec fn monitor_axis_value(self, m: int, direction: Direction) -> int {
        let r = self.tree.rect_of(m).unwrap();
        match direction {
            Direction::Left | Direction::Right => r.left as int,
            Direction::Up | Direction::Down => r.top as int,
        }
    }

    /// Whether monitor `m` lies strictly in `direction` from axis value
    /// `ov`, judged by its stored rectangle.
    pub open spec fn monitor_qualifies(self, m: int, direction: Direction, ov: int) -> bool {
        &&& self.tree.is_monitor(m)
        &&& self.tree.rect_of(m) is Some
        &&& match direction {
            Direction::Right | Direction::Down => self.monitor_axis_value(m, direction) > ov,
            Direction::Left | Direction::Up => self.monitor_axis_value(m, direction) < ov,
        }
    }

    /// The adjacent-monitor scan from position `k` of the root's children,
    /// carrying the best candidate so far: a qualifying monitor replaces
    /// the best when its edge coordinate is at least as near.
    pub open spec fn spec_adjacent_monitor_from(
        self,
        direction: Direction,
        ov: int,
        k: int,
        best: Option<usize>,
    ) -> Option<usize>
        decreases self.tree.children_of(0).len() - k,
    {
        if k < 0 || k >= self.tree.children_of(0).len() {
            best
        } else {
            let m = self.tree.children_of(0)[k];
            let take = self.monitor_qualifies(m as int, direction, ov) && match best {
                None => true,
                Some(b) => match direction {
                    Direction::Right | Direction::Down => self.monitor_axis_value(
                        m as int,
                        direction,
                    ) <= self.monitor_axis_value(b as int, direction),
                    Direction::Left | Direction::Up => self.monitor_axis_value(m as int, direction)
                        >= self.monitor_axis_value(b as int, direction),
                },
            };
            self.spec_adjacent_monitor_from(
                direction,
                ov,
                k + 1,
                if take {
                    Some(m)
                } else {
                    best
                },
            )
        }
    }

    /// The result of `monitor_in_direction`: a structural error when the
    /// origin's geometry is unknown, else the winner of the scan.
    pub open spec fn spec_monitor_in_direction(self, origin_monitor: int, direction: Direction)
        -> Result<Option<usize>, crate::error::WmError> {
        match self.tree.rect_of(origin_monitor) {
            None => Err(crate::error::WmError::NoGeometry),
            Some(orect) => Ok(
                self.spec_adjacent_monitor_from(
                    direction,
                    self.monitor_axis_value(origin_monitor, direction),
                    0,
                    None,
                ),
            ),
        }
    }

    /// Resolves the monitor adjacent to `origin_monitor` in a direction:
    /// among monitors with known geometry lying strictly in that
    /// direction, the one with the nearest edge coordinate (the last in
    /// monitor order among equally near ones); absence when there is none.
    /// A monitor with unknown geometry is skipped; unknown geometry of the
    /// origin itself is a structural error.
    pub fn monitor_in_direction(&self, origin_monitor: usize, direction: Direction) -> (r: Result<
        Option<usize>,
        crate::error::WmError,
    >)
        requires
            self.wf(),
            self.tree.valid_id(origin_monitor as int),
            self.tree.is_monitor(origin_monitor as int),
        ensures
            r == self.spec_monitor_in_direction(origin_monitor as int, direction),
            ({
                let monitors = self.tree.children_of(0);
                match self.tree.rect_of(origin_monitor as int) {
                    None => r == Result::<Option<usize>, crate::error::WmError>::Err(
                        crate::error::WmError::NoGeometry,
                    ),
                    Some(orect) => {
                        let ov = self.monitor_axis_value(origin_monitor as int, direction);
                        match r {
                            Ok(Some(m)) => {
                                &&& monitors.contains(m)
                                &&& self.monitor_qualifies(m as int, direction, ov)
                                &&& forall|k: int|
                                    0 <= k < monitors.len() && self.monitor_qualifies(
                                        #[trigger] monitors[k] as int,
                                        direction,
                                        ov,
                                    ) ==> match direction {
                                        Direction::Right | Direction::Down => self
                                            .monitor_axis_value(m as int, direction)
                                            <= self.monitor_axis_value(
                                            monitors[k] as int,
                                            direction,
                                        ),
                                        Direction::Left | Direction::Up => self.monitor_axis_value(
                                            m as int,
                                            direction,
                                        ) >= self.monitor_axis_value(monitors[k] as int, direction),
                                    }
                            },
                            Ok(None) => forall|k: int|
                                0 <= k < monitors.len() ==> !self.monitor_qualifies(
                                    #[trigger] monitors[k] as int,
                                    direction,
                                    ov,
                                ),
                            Err(_) => false,
                        }
                    },
                }
            }),
    {
        let orect = match self.tree.rect(origin_monitor) {
            Some(x) => x,
            None => {
                return Err(crate::error::WmError::NoGeometry);
            },
        };
        let ov: i32 = match direction {
            Direction::Left | Direction::Right => orect.left,
            Direction::Up | Direction::Down => orect.top,
        };
        let count = self.tree.child_count(0);
        let mut k: usize = 0;
        let mut best: Option<usize> = None;
        let mut best_val: i32 = 0;
        while k < count
            invariant
                self.wf(),
                self.tree.n() >= 1,
                count as int == self.tree.children_of(0).len(),
                k <= count,
                ov as int == self.monitor_axis_value(origin_monitor as int, direction),
                self.spec_adjacent_monitor_from(direction, ov as int, k as int, best)
                    == self.spec_adjacent_monitor_from(direction, ov as int, 0, None),
                ({
                    let monitors = self.tree.children_of(0);
                    match best {
                        Some(m) => {
                            &&& monitors.contains(m)
                            &&& self.monitor_qualifies(m as int, direction, ov as int)
                            &&& self.monitor_axis_value(m as int, direction) == best_val as int
                            &&& forall|j: int|
                                0 <= j < k && self.monitor_qualifies(
                                    #[trigger] monitors[j] as int,
                                    direction,
                                    ov as int,
                                ) ==> match direction {
                                    Direction::Right | Direction::Down => best_val as int
                                        <= self.monitor_axis_value(monitors[j] as int, direction),
                                    Direction::Left | Direction::Up => best_val as int
                                        >= self.monitor_axis_value(monitors[j] as int, direction),
                                }
                        },
                        None => forall|j: int|
                            0 <= j < k ==> !self.monitor_qualifies(
                                #[trigger] self.tree.children_of(0)[j] as int,
                                direction,
                                ov as int,
                            ),
                    }
                }),
            decreases count - k,
        {
            let m = self.tree.child_at(0, k);
            proof {
                assert(self.tree.node_wf(0));
                assert(self.tree.child_ok(0, k as int));
            }
            if matches!(self.tree.kind(m), crate::tree::ContainerKind::Monitor) {
                if let Some(mr) = self.tree.rect(m) {
                    let mv: i32 = match direction {
                        Direction::Left | Direction::Right => mr.left,
                        Direction::Up | Direction::Down => mr.top,
                    };
                    let qual: bool = match direction {
                        Direction::Right | Direction::Down => mv > ov,
                        Direction::Left | Direction::Up => mv < ov,
                    };
                    if qual {
                        let take: bool = match best {
                            None => true,
                            Some(_) => match direction {
                                Direction::Right | Direction::Down => mv <= best_val,
                                Direction::Left | Direction::Up => mv >= best_val,
                            },
                        };
                        if take {
                            best = Some(m);
                            best_val = mv;
                        }
                    }
                }
            }
            proof {
                let monitors = self.tree.children_of(0);
                if best is Some {
                    assert(monitors[k as int] == m);
                    assert(monitors.contains(m)) by {
                        assert(monitors[k as int] == m);
                    }
                }
            }
            k = k + 1;
        }
        Ok(best)
    }
}

} // verus!
