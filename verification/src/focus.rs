//! Directional focus navigation: tiling traversal through ancestor splits,
//! floating nearest-neighbor traversal among siblings, and workspace
//! traversal onto the adjacent monitor.

use vstd::prelude::*;
use crate::error::WmError;
use crate::geometry::{Direction, Point, TilingDirection};
use crate::state::WmState;
use crate::tree::{ContainerKind, Tree, WindowState};

verus! {

impl Tree {
    /// The first tiling container among `children_of(i)` at or after
    /// position `k`.
    pub open spec fn spec_first_tiling_from(self, i: int, k: int) -> Option<usize>
        decreases self.children_of(i).len() - k,
    {
        if k < 0 || k >= self.children_of(i).len() {
            None
        } else if self.is_tiling_container(self.children_of(i)[k] as int) {
            Some(self.children_of(i)[k])
        } else {
            self.spec_first_tiling_from(i, k + 1)
        }
    }

    /// The last tiling container among `children_of(i)` strictly before
    /// position `k`.
    pub open spec fn spec_last_tiling_before(self, i: int, k: int) -> Option<usize>
        decreases k,
    {
        if k <= 0 || k > self.children_of(i).len() {
            None
        } else if self.is_tiling_container(self.children_of(i)[k - 1] as int) {
            Some(self.children_of(i)[k - 1])
        } else {
            self.spec_last_tiling_before(i, k - 1)
        }
    }

    /// The first tiling container in `i`'s focus order at or after
    /// position `k`.
    pub open spec fn spec_first_tiling_in_focus(self, i: int, k: int) -> Option<usize>
        decreases self.focus_of(i).len() - k,
    {
        if k < 0 || k >= self.focus_of(i).len() {
            None
        } else if self.is_tiling_container(self.focus_of(i)[k] as int) {
            Some(self.focus_of(i)[k])
        } else {
            self.spec_first_tiling_in_focus(i, k + 1)
        }
    }

    proof fn lemma_first_tiling_from(self, i: int, k: int)
        ensures
            match self.spec_first_tiling_from(i, k) {
                Some(c) => self.children_of(i).contains(c) && self.is_tiling_container(c as int),
                None => true,
            },
        decreases self.children_of(i).len() - k,
    {
        if 0 <= k < self.children_of(i).len() {
            if self.is_tiling_container(self.children_of(i)[k] as int) {
            } else {
                self.lemma_first_tiling_from(i, k + 1);
            }
        }
    }

    proof fn lemma_last_tiling_before(self, i: int, k: int)
        ensures
            match self.spec_last_tiling_before(i, k) {
                Some(c) => self.children_of(i).contains(c) && self.is_tiling_container(c as int),
                None => true,
            },
        decreases k,
    {
        if 0 < k <= self.children_of(i).len() {
            if self.is_tiling_container(self.children_of(i)[k - 1] as int) {
            } else {
                self.lemma_last_tiling_before(i, k - 1);
            }
        }
    }

    proof fn lemma_first_tiling_in_focus(self, i: int, k: int)
        ensures
            match self.spec_first_tiling_in_focus(i, k) {
                Some(c) => self.focus_of(i).contains(c) && self.is_tiling_container(c as int),
                None => true,
            },
        decreases self.focus_of(i).len() - k,
    {
        if 0 <= k < self.focus_of(i).len() {
            if self.is_tiling_container(self.focus_of(i)[k] as int) {
            } else {
                self.lemma_first_tiling_in_focus(i, k + 1);
            }
        }
    }

    /// Which tiling child a directional descent enters next from a
    /// direction container: with a matching axis, the child at the entered
    /// edge (first for Up/Left, last for Down/Right); with the other axis,
    /// the most recently focused tiling child.
    pub open spec fn spec_pick_child(self, i: int, direction: Direction) -> Option<usize> {
        if self.tiling_direction_of(i) == TilingDirection::spec_from_direction(direction) {
            match direction {
                Direction::Up | Direction::Left => self.spec_first_tiling_from(i, 0),
                Direction::Down | Direction::Right => self.spec_last_tiling_before(
                    i,
                    self.children_of(i).len() as int,
                ),
            }
        } else {
            self.spec_first_tiling_in_focus(i, 0)
        }
    }

    proof fn lemma_pick_child(self, i: int, direction: Direction)
        requires
            self.wf(),
            self.valid_id(i),
        ensures
            match self.spec_pick_child(i, direction) {
                Some(c) => self.children_of(i).contains(c) && self.is_tiling_container(c as int)
                    && self.valid_id(c as int) && self.depth_of(c as int) == self.depth_of(i) + 1,
                None => true,
            },
    {
        self.lemma_first_tiling_from(i, 0);
        self.lemma_last_tiling_before(i, self.children_of(i).len() as int);
        self.lemma_first_tiling_in_focus(i, 0);
        assert(self.node_wf(i));
        if let Some(c) = self.spec_pick_child(i, direction) {
            assert(self.children_of(i).contains(c));
            self.lemma_backlink(i, c);
        }
    }

    /// The tiling window reached by entering a direction container from
    /// the side named by `direction` and descending: at each level the
    /// entered child is `spec_pick_child`; descent stops at a window, and
    /// yields absence when a level has no tiling child.
    pub open spec fn spec_descendant_in_direction(self, i: int, direction: Direction) -> Option<
        usize,
    >
        decreases self.n() - self.depth_of(i),
        when self.wf() && self.valid_id(i) && self.depth_of(i) < self.n()
        via Self::spec_descendant_in_direction_decreases
    {
        match self.spec_pick_child(i, direction) {
            None => None,
            Some(c) => {
                if self.is_tiling_window(c as int) {
                    Some(c)
                } else {
                    self.spec_descendant_in_direction(c as int, direction)
                }
            },
        }
    }

    #[via_fn]
    proof fn spec_descendant_in_direction_decreases(self, i: int, direction: Direction) {
        self.lemma_pick_child(i, direction);
    }

    pub fn descendant_in_direction(&self, i: usize, direction: Direction) -> (r: Option<usize>)
        requires
            self.wf(),
            self.valid_id(i as int),
            self.is_direction_container(i as int),
        ensures
            r == self.spec_descendant_in_direction(i as int, direction),
            r is Some ==> self.valid_id(r.unwrap() as int) && self.is_tiling_window(
                r.unwrap() as int,
            ),
        decreases self.n() - self.depth_of(i as int),
    {
        proof {
            self.lemma_depth_bound(i as int);
            self.lemma_pick_child(i as int, direction);
        }
        let picked = self.pick_child(i, direction);
        proof {
            assert(self.spec_pick_child(i as int, direction) is None
                ==> self.spec_descendant_in_direction(i as int, direction) is None);
        }
        match picked {
            None => None,
            Some(c) => {
                proof {
                    assert(self.spec_pick_child(i as int, direction) == Some(c));
                }
                if matches!(self.kind(c), ContainerKind::TilingWindow { .. }) {
                    proof {
                        assert(self.spec_descendant_in_direction(i as int, direction) == Some(c));
                    }
                    Some(c)
                } else {
                    proof {
                        self.lemma_depth_bound(c as int);
                    }
                    self.descendant_in_direction(c, direction)
                }
            },
        }
    }

    fn pick_child(&self, i: usize, direction: Direction) -> (r: Option<usize>)
        requires
            self.wf(),
            self.valid_id(i as int),
            self.is_direction_container(i as int),
        ensures
            r == self.spec_pick_child(i as int, direction),
    {
        let td = match self.kind(i) {
            ContainerKind::Workspace { tiling_direction, .. } => tiling_direction,
            ContainerKind::Split { tiling_direction, .. } => tiling_direction,
            _ => TilingDirection::Horizontal,
        };
        if td == TilingDirection::from_direction(direction) {
            match direction {
                Direction::Up | Direction::Left => self.first_tiling_from(i, 0),
                Direction::Down | Direction::Right => {
                    let len = self.child_count(i);
                    self.last_tiling_before(i, len)
                },
            }
        } else {
            self.first_tiling_in_focus(i, 0)
        }
    }

    fn first_tiling_from(&self, i: usize, k: usize) -> (r: Option<usize>)
        requires
            self.wf(),
            self.valid_id(i as int),
        ensures
            r == self.spec_first_tiling_from(i as int, k as int),
        decreases self.children_of(i as int).len() - k,
    {
        if k >= self.child_count(i) {
            None
        } else {
            let c = self.child_at(i, k);
            proof {
                assert(self.node_wf(i as int));
                assert(self.child_ok(i as int, k as int));
            }
            if matches!(
                self.kind(c),
                ContainerKind::Split { .. } | ContainerKind::TilingWindow { .. },
            ) {
                Some(c)
            } else {
                self.first_tiling_from(i, k + 1)
            }
        }
    }

    fn last_tiling_before(&self, i: usize, k: usize) -> (r: Option<usize>)
        requires
            self.wf(),
            self.valid_id(i as int),
            k <= self.children_of(i as int).len(),
        ensures
            r == self.spec_last_tiling_before(i as int, k as int),
        decreases k,
    {
        if k == 0 {
            None
        } else {
            let c = self.child_at(i, k - 1);
            proof {
                assert(self.node_wf(i as int));
                assert(self.child_ok(i as int, k - 1));
            }
            if matches!(
                self.kind(c),
                ContainerKind::Split { .. } | ContainerKind::TilingWindow { .. },
            ) {
                Some(c)
            } else {
                self.last_tiling_before(i, k - 1)
            }
        }
    }

    fn first_tiling_in_focus(&self, i: usize, k: usize) -> (r: Option<usize>)
        requires
            self.wf(),
            self.valid_id(i as int),
        ensures
            r == self.spec_first_tiling_in_focus(i as int, k as int),
        decreases self.focus_of(i as int).len() - k,
    {
        let fcount = self.nodes[i].focus_order.len();
        if k >= fcount {
            None
        } else {
            let c = self.focus_at(i, k);
            proof {
                assert(self.node_wf(i as int));
                assert(self.children_of(i as int).contains(c));
                self.lemma_backlink(i as int, c);
            }
            if matches!(
                self.kind(c),
                ContainerKind::Split { .. } | ContainerKind::TilingWindow { .. },
            ) {
                Some(c)
            } else {
                self.first_tiling_in_focus(i, k + 1)
            }
        }
    }

    /// The most recently focused descendant of `i`: follow each
    /// container's most recently focused child downward; absence when `i`
    /// has no focus entries at all.
    pub open spec fn spec_focused_descendant(self, i: int) -> Option<usize>
        decreases self.n() - self.depth_of(i),
        when self.wf() && self.valid_id(i) && self.depth_of(i) < self.n()
        via Self::spec_focused_descendant_decreases
    {
        if self.focus_of(i).len() == 0 {
            None
        } else {
            let c = self.focus_of(i)[0] as int;
            match self.spec_focused_descendant(c) {
                None => Some(c as usize),
                Some(d) => Some(d),
            }
        }
    }

    #[via_fn]
    proof fn spec_focused_descendant_decreases(self, i: int) {
        if self.focus_of(i).len() > 0 {
            assert(self.node_wf(i));
            assert(self.children_of(i).contains(self.focus_of(i)[0]));
            self.lemma_backlink(i, self.focus_of(i)[0]);
        }
    }

    pub fn focused_descendant(&self, i: usize) -> (r: Option<usize>)
        requires
            self.wf(),
            self.valid_id(i as int),
        ensures
            r == self.spec_focused_descendant(i as int),
            r is Some ==> self.valid_id(r.unwrap() as int),
        decreases self.n() - self.depth_of(i as int),
    {
        proof {
            self.lemma_depth_bound(i as int);
        }
        let fcount = self.nodes[i].focus_order.len();
        if fcount == 0 {
            None
        } else {
            let c = self.focus_at(i, 0);
            proof {
                assert(self.node_wf(i as int));
                assert(self.children_of(i as int).contains(c));
                self.lemma_backlink(i as int, c);
            }
            proof {
                self.lemma_depth_bound(c as int);
            }
            match self.focused_descendant(c) {
                None => Some(c),
                Some(d) => Some(d),
            }
        }
    }

    /// The target of tiling traversal from `cur` in a direction: walk
    /// upward until a workspace; at each level whose parent's tiling
    /// direction matches the direction's axis, take the nearest preceding
    /// (Up/Left) or following (Down/Right) tiling sibling — a window is
    /// the target, a split is entered from the opposite side. No sibling
    /// at a level continues upward; a workspace ends the search. Focus
    /// never wraps around within a level.
    pub open spec fn spec_tiling_focus_target(self, cur: int, direction: Direction) -> Option<
        usize,
    >
        decreases self.depth_of(cur),
        when self.wf() && self.valid_id(cur)
        via Self::spec_tiling_focus_target_decreases
    {
        if self.is_workspace(cur) {
            None
        } else {
            match self.parent_of(cur) {
                None => None,
                Some(p) => {
                    if self.tiling_direction_of(p as int)
                        != TilingDirection::spec_from_direction(direction) {
                        self.spec_tiling_focus_target(p as int, direction)
                    } else {
                        let ci = self.children_of(p as int).index_of_first(cur as usize).unwrap();
                        let sib = match direction {
                            Direction::Up | Direction::Left => self.spec_last_tiling_before(
                                p as int,
                                ci,
                            ),
                            Direction::Down | Direction::Right => self.spec_first_tiling_from(
                                p as int,
                                ci + 1,
                            ),
                        };
                        match sib {
                            None => self.spec_tiling_focus_target(p as int, direction),
                            Some(target) => {
                                if self.is_tiling_window(target as int) {
                                    Some(target)
                                } else {
                                    self.spec_descendant_in_direction(
                                        target as int,
                                        direction.spec_inverse(),
                                    )
                                }
                            },
                        }
                    }
                },
            }
        }
    }

    #[via_fn]
    proof fn spec_tiling_focus_target_decreases(self, cur: int, direction: Direction) {
        if !self.is_workspace(cur) {
            if let Some(p) = self.parent_of(cur) {
                assert(self.node_wf(cur));
                self.lemma_backlink(p as int, cur as usize);
            }
        }
    }
}

/// Gets a focus target within the current workspace. Traverses upward from
/// the origin container to find an adjacent container that can be focused.
/// Under a well-formed tree the traversal always succeeds, returning the
/// target or absence, never an error.
pub fn tiling_focus_target(tree: &Tree, origin_container: usize, direction: Direction) -> (r:
    Result<Option<usize>, WmError>)
    requires
        tree.wf(),
        tree.valid_id(origin_container as int),
        tree.is_tiling_container(origin_container as int) || tree.is_workspace(
            origin_container as int,
        ),
    ensures
        r == Ok::<Option<usize>, WmError>(
            tree.spec_tiling_focus_target(origin_container as int, direction),
        ),
        r.unwrap() is Some ==> tree.valid_id(r.unwrap().unwrap() as int) && tree.is_tiling_window(
            r.unwrap().unwrap() as int,
        ),
    decreases tree.depth_of(origin_container as int),
{
    if matches!(tree.kind(origin_container), ContainerKind::Workspace { .. }) {
        return Ok(None);
    }
    let p = match tree.parent(origin_container) {
        Some(p) => p,
        None => {
            proof {
                assert(tree.node_wf(origin_container as int));
                assert(false);
            }
            return Err(WmError::NoDirectionContainer);
        },
    };
    proof {
        assert(tree.node_wf(origin_container as int));
        tree.lemma_backlink(p as int, origin_container);
    }
    let td = match tree.kind(p) {
        ContainerKind::Workspace { tiling_direction, .. } => tiling_direction,
        ContainerKind::Split { tiling_direction, .. } => tiling_direction,
        _ => {
            proof {
                assert(Tree::child_kind_ok(
                    tree.kind_of(p as int),
                    tree.kind_of(origin_container as int),
                ));
                assert(false);
            }
            return Err(WmError::NoDirectionContainer);
        },
    };
    if td != TilingDirection::from_direction(direction) {
        proof {
            assert(tree.is_tiling_container(p as int) || tree.is_workspace(p as int));
        }
        return tiling_focus_target(tree, p, direction);
    }
    let ci = tree.index_in_parent(p, origin_container);
    proof {
        let pc = tree.children_of(p as int);
        pc.index_of_first_ensures(origin_container);
        assert forall|j: int|
            0 <= j < pc.len() && pc[j] == origin_container implies j == ci as int by {
            if j != ci as int {
                assert(tree.node_wf(p as int));
            }
        }
        assert(pc.index_of_first(origin_container) == Some(ci as int));
    }
    let pcount = tree.child_count(p);
    proof {
        assert(ci < pcount);
    }
    let sib = match direction {
        Direction::Up | Direction::Left => tree.last_tiling_before(p, ci),
        Direction::Down | Direction::Right => tree.first_tiling_from(p, ci + 1),
    };
    match sib {
        None => {
            proof {
                assert(tree.is_tiling_container(p as int) || tree.is_workspace(p as int));
            }
            tiling_focus_target(tree, p, direction)
        },
        Some(target) => {
            proof {
                match direction {
                    Direction::Up | Direction::Left => tree.lemma_last_tiling_before(
                        p as int,
                        ci as int,
                    ),
                    Direction::Down | Direction::Right => tree.lemma_first_tiling_from(
                        p as int,
                        ci as int + 1,
                    ),
                }
                tree.lemma_backlink(p as int, target);
            }
            if matches!(tree.kind(target), ContainerKind::TilingWindow { .. }) {
                Ok(Some(target))
            } else {
                Ok(tree.descendant_in_direction(target, direction.inverse()))
            }
        },
    }
}

impl Tree {
    /// A floating window's anchor: the top-left corner of its rectangle,
    /// or the sentinel minimum position when its geometry is unknown.
    pub open spec fn spec_anchor(self, i: int) -> Point {
        match self.rect_of(i) {
            Some(r) => Point { x: r.left, y: r.top },
            None => Point { x: i32::MIN, y: i32::MIN },
        }
    }

    /// The anchor coordinate on the axis of a direction.
    pub open spec fn spec_anchor_axis(self, i: int, direction: Direction) -> int {
        match direction {
            Direction::Left | Direction::Right => self.spec_anchor(i).x as int,
            Direction::Up | Direction::Down => self.spec_anchor(i).y as int,
        }
    }

    /// A floating-traversal candidate: a floating sibling of the origin
    /// under parent `p`, other than the origin itself.
    pub open spec fn spec_floating_candidate(self, p: int, origin: int, c: int) -> bool {
        &&& self.children_of(p).contains(c as usize)
        &&& c != origin
        &&& self.is_floating_window(c)
    }

    /// Whether a candidate's anchor lies strictly beyond the origin's on
    /// the direction's axis (greater for Right/Down, less for Left/Up).
    pub open spec fn spec_floating_qualifies(
        self,
        p: int,
        origin: int,
        c: int,
        direction: Direction,
    ) -> bool {
        &&& self.spec_floating_candidate(p, origin, c)
        &&& match direction {
            Direction::Right | Direction::Down => self.spec_anchor_axis(c, direction)
                > self.spec_anchor_axis(origin, direction),
            Direction::Left | Direction::Up => self.spec_anchor_axis(c, direction)
                < self.spec_anchor_axis(origin, direction),
        }
    }

    /// The floating-traversal scan over the origin's siblings from
    /// position `k`, carrying the best candidate so far. Moving Right or
    /// Down, a qualifying sibling replaces the best only when strictly
    /// nearer (the earliest of equally near anchors wins); moving Left or
    /// Up it replaces the best when at least as near (the latest wins).
    pub open spec fn spec_floating_target_from(
        self,
        p: int,
        origin: int,
        direction: Direction,
        k: int,
        best: Option<usize>,
    ) -> Option<usize>
        decreases self.children_of(p).len() - k,
    {
        if k < 0 || k >= self.children_of(p).len() {
            best
        } else {
            let c = self.children_of(p)[k];
            let take = c as int != origin && self.is_floating_window(c as int) && (match direction {
                Direction::Right | Direction::Down => self.spec_anchor_axis(c as int, direction)
                    > self.spec_anchor_axis(origin, direction),
                Direction::Left | Direction::Up => self.spec_anchor_axis(c as int, direction)
                    < self.spec_anchor_axis(origin, direction),
            }) && match best {
                None => true,
                Some(b) => match direction {
                    Direction::Right | Direction::Down => self.spec_anchor_axis(
                        c as int,
                        direction,
                    ) < self.spec_anchor_axis(b as int, direction),
                    Direction::Left | Direction::Up => self.spec_anchor_axis(c as int, direction)
                        >= self.spec_anchor_axis(b as int, direction),
                },
            };
            self.spec_floating_target_from(
                p,
                origin,
                direction,
                k + 1,
                if take {
                    Some(c)
                } else {
                    best
                },
            )
        }
    }

    /// The floating focus target of an origin window.
    pub open spec fn spec_floating_target(self, origin: int, direction: Direction) -> Option<
        usize,
    > {
        match self.parent_of(origin) {
            None => None,
            Some(p) => self.spec_floating_target_from(p as int, origin, direction, 0, None),
        }
    }
}

/// Gets the floating focus target among the origin's siblings: the nearest
/// floating sibling whose anchor lies strictly beyond the origin's on the
/// direction's axis — no wraparound, so absence past the outermost window.
/// Among equally near anchors, moving Right/Down picks the earliest
/// sibling in order and Left/Up the latest.
pub fn floating_focus_target(tree: &Tree, origin_container: usize, direction: Direction) -> (r:
    Option<usize>)
    requires
        tree.wf(),
        tree.valid_id(origin_container as int),
        tree.is_window(origin_container as int),
    ensures
        r == tree.spec_floating_target(origin_container as int, direction),
        ({
            let p = tree.parent_of(origin_container as int).unwrap() as int;
            match r {
                Some(c) => {
                    &&& tree.valid_id(c as int)
                    &&& tree.spec_floating_qualifies(
                        p,
                        origin_container as int,
                        c as int,
                        direction,
                    )
                    &&& forall|d: int|
                        tree.valid_id(d) && #[trigger] tree.spec_floating_qualifies(
                            p,
                            origin_container as int,
                            d,
                            direction,
                        ) ==> match direction {
                            Direction::Right | Direction::Down => tree.spec_anchor_axis(
                                c as int,
                                direction,
                            ) <= tree.spec_anchor_axis(d, direction),
                            Direction::Left | Direction::Up => tree.spec_anchor_axis(
                                c as int,
                                direction,
                            ) >= tree.spec_anchor_axis(d, direction),
                        }
                },
                None => forall|d: int|
                    tree.valid_id(d) ==> !tree.spec_floating_qualifies(
                        p,
                        origin_container as int,
                        d,
                        direction,
                    ),
            }
        }),
{
    proof {
        assert(tree.node_wf(origin_container as int));
    }
    let p = match tree.parent(origin_container) {
        Some(p) => p,
        None => {
            proof {
                assert(false);
            }
            return None;
        },
    };
    let origin_anchor = match tree.rect(origin_container) {
        Some(rect) => Point::from_xy(rect.left, rect.top),
        None => Point::min(),
    };
    let ov: i32 = match direction {
        Direction::Left | Direction::Right => origin_anchor.x,
        Direction::Up | Direction::Down => origin_anchor.y,
    };
    let count = tree.child_count(p);
    let mut k: usize = 0;
    let mut best: Option<usize> = None;
    let mut best_val: i32 = 0;
    while k < count
        invariant
            tree.wf(),
            tree.valid_id(p as int),
            tree.valid_id(origin_container as int),
            count as int == tree.children_of(p as int).len(),
            k <= count,
            ov as int == tree.spec_anchor_axis(origin_container as int, direction),
            tree.spec_floating_target_from(p as int, origin_container as int, direction, k as int, best)
                == tree.spec_floating_target_from(p as int, origin_container as int, direction, 0, None),
            ({
                let pi = p as int;
                let oi = origin_container as int;
                match best {
                    Some(c) => {
                        &&& tree.valid_id(c as int)
                        &&& tree.spec_floating_qualifies(pi, oi, c as int, direction)
                        &&& best_val as int == tree.spec_anchor_axis(c as int, direction)
                        &&& forall|j: int|
                            0 <= j < k && tree.spec_floating_qualifies(
                                pi,
                                oi,
                                #[trigger] tree.children_of(pi)[j] as int,
                                direction,
                            ) ==> match direction {
                                Direction::Right | Direction::Down => best_val as int
                                    <= tree.spec_anchor_axis(
                                    tree.children_of(pi)[j] as int,
                                    direction,
                                ),
                                Direction::Left | Direction::Up => best_val as int
                                    >= tree.spec_anchor_axis(
                                    tree.children_of(pi)[j] as int,
                                    direction,
                                ),
                            }
                    },
                    None => forall|j: int|
                        0 <= j < k ==> !tree.spec_floating_qualifies(
                            pi,
                            oi,
                            #[trigger] tree.children_of(pi)[j] as int,
                            direction,
                        ),
                }
            }),
        decreases count - k,
    {
        let c = tree.child_at(p, k);
        proof {
            assert(tree.node_wf(p as int));
            assert(tree.child_ok(p as int, k as int));
            assert(tree.children_of(p as int).contains(c)) by {
                assert(tree.children_of(p as int)[k as int] == c);
            }
        }
        let is_cand: bool = c != origin_container && match tree.kind(c) {
            ContainerKind::NonTilingWindow { window_state, .. } => matches!(
                window_state,
                WindowState::Floating,
            ),
            _ => false,
        };
        if is_cand {
            let anchor = match tree.rect(c) {
                Some(rect) => Point::from_xy(rect.left, rect.top),
                None => Point::min(),
            };
            let cv: i32 = match direction {
                Direction::Left | Direction::Right => anchor.x,
                Direction::Up | Direction::Down => anchor.y,
            };
            let qual: bool = match direction {
                Direction::Right | Direction::Down => cv > ov,
                Direction::Left | Direction::Up => cv < ov,
            };
            if qual {
                let take: bool = match best {
                    None => true,
                    Some(_) => match direction {
                        Direction::Right | Direction::Down => cv < best_val,
                        Direction::Left | Direction::Up => cv >= best_val,
                    },
                };
                if take {
                    best = Some(c);
                    best_val = cv;
                }
            }
        }
        k = k + 1;
    }
    proof {
        let pi = p as int;
        let oi = origin_container as int;
        if let Some(c) = best {
            assert forall|d: int|
                tree.valid_id(d) && #[trigger] tree.spec_floating_qualifies(
                    pi,
                    oi,
                    d,
                    direction,
                ) implies match direction {
                Direction::Right | Direction::Down => tree.spec_anchor_axis(c as int, direction)
                    <= tree.spec_anchor_axis(d, direction),
                Direction::Left | Direction::Up => tree.spec_anchor_axis(c as int, direction)
                    >= tree.spec_anchor_axis(d, direction),
            } by {
                assert(tree.children_of(pi).contains(d as usize));
                let j = choose|j: int|
                    0 <= j < tree.children_of(pi).len() && tree.children_of(pi)[j] == (d as usize);
                assert(tree.spec_floating_qualifies(
                    pi,
                    oi,
                    tree.children_of(pi)[j] as int,
                    direction,
                ));
            }
        } else {
            assert forall|d: int|
                tree.valid_id(d) implies !tree.spec_floating_qualifies(pi, oi, d, direction) by {
                if tree.spec_floating_qualifies(pi, oi, d, direction) {
                    assert(tree.children_of(pi).contains(d as usize));
                    let j = choose|j: int|
                        0 <= j < tree.children_of(pi).len() && tree.children_of(pi)[j] == (
                        d as usize);
                    assert(tree.spec_floating_qualifies(
                        pi,
                        oi,
                        tree.children_of(pi)[j] as int,
                        direction,
                    ));
                }
            }
        }
    }
    best
}

impl Tree {
    /// The currently displayed workspace of a monitor, unique by the
    /// tree's invariant: the first child marked displayed.
    pub open spec fn spec_displayed_workspace(self, m: int, k: int) -> Option<usize>
        decreases self.children_of(m).len() - k,
    {
        if k < 0 || k >= self.children_of(m).len() {
            None
        } else if self.displayed_of(self.children_of(m)[k] as int) {
            Some(self.children_of(m)[k])
        } else {
            self.spec_displayed_workspace(m, k + 1)
        }
    }

    pub fn displayed_workspace(&self, m: usize) -> (r: Option<usize>)
        requires
            self.wf(),
            self.valid_id(m as int),
            self.is_monitor(m as int),
        ensures
            r == self.spec_displayed_workspace(m as int, 0),
            r is Some ==> self.valid_id(r.unwrap() as int) && self.is_workspace(r.unwrap() as int)
                && self.displayed_of(r.unwrap() as int),
    {
        self.displayed_workspace_from(m, 0)
    }

    fn displayed_workspace_from(&self, m: usize, k: usize) -> (r: Option<usize>)
        requires
            self.wf(),
            self.valid_id(m as int),
            self.is_monitor(m as int),
        ensures
            r == self.spec_displayed_workspace(m as int, k as int),
            r is Some ==> self.valid_id(r.unwrap() as int) && self.is_workspace(r.unwrap() as int)
                && self.displayed_of(r.unwrap() as int),
        decreases self.children_of(m as int).len() - k,
    {
        if k >= self.child_count(m) {
            None
        } else {
            let c = self.child_at(m, k);
            proof {
                assert(self.node_wf(m as int));
                assert(self.child_ok(m as int, k as int));
                assert(self.children_of(m as int).contains(c)) by {
                    assert(self.children_of(m as int)[k as int] == c);
                }
                self.lemma_backlink(m as int, c);
            }
            let disp = match self.kind(c) {
                ContainerKind::Workspace { displayed, .. } => displayed,
                _ => false,
            };
            if disp {
                Some(c)
            } else {
                self.displayed_workspace_from(m, k + 1)
            }
        }
    }

    /// The focus target inside an adjacent workspace, in priority order:
    /// its most recently focused descendant when that is a fullscreen
    /// window; else its most recently focused child when that is a
    /// non-tiling window; else the tiling descendant entered from the side
    /// opposite the movement; else the workspace itself.
    pub open spec fn spec_target_in_workspace(self, ws: int, direction: Direction) -> Option<
        usize,
    > {
        let focused = self.spec_focused_descendant(ws);
        if focused is Some && self.is_non_tiling_window(focused.unwrap() as int)
            && self.window_state_of(focused.unwrap() as int) is Fullscreen {
            focused
        } else if self.focus_of(ws).len() > 0 && self.is_non_tiling_window(
            self.focus_of(ws)[0] as int,
        ) {
            Some(self.focus_of(ws)[0])
        } else {
            match self.spec_descendant_in_direction(ws, direction.spec_inverse()) {
                Some(d) => Some(d),
                None => Some(ws as usize),
            }
        }
    }

    pub fn target_in_workspace(&self, ws: usize, direction: Direction) -> (r: Option<usize>)
        requires
            self.wf(),
            self.valid_id(ws as int),
            self.is_workspace(ws as int),
        ensures
            r == self.spec_target_in_workspace(ws as int, direction),
            r is Some,
            self.valid_id(r.unwrap() as int),
    {
        let focused = self.focused_descendant(ws);
        if let Some(f) = focused {
            let is_fullscreen = match self.kind(f) {
                ContainerKind::NonTilingWindow { window_state, .. } => matches!(
                    window_state,
                    WindowState::Fullscreen,
                ),
                _ => false,
            };
            if is_fullscreen {
                return Some(f);
            }
        }
        let fcount = self.nodes[ws].focus_order.len();
        if fcount > 0 {
            let c = self.focus_at(ws, 0);
            proof {
                assert(self.node_wf(ws as int));
                assert(self.children_of(ws as int).contains(c));
                self.lemma_backlink(ws as int, c);
            }
            if matches!(self.kind(c), ContainerKind::NonTilingWindow { .. }) {
                return Some(c);
            }
        }
        match self.descendant_in_direction(ws, direction.inverse()) {
            Some(d) => Some(d),
            None => Some(ws),
        }
    }
}

/// The Ok-value of workspace traversal once the origin's monitor is
/// known and has geometry: the monitor adjacent in the direction supplies
/// its displayed workspace, and that workspace its priority target. No
/// adjacent monitor, or no displayed workspace on it, is absence.
pub open spec fn spec_workspace_target(s: WmState, origin: int, direction: Direction) -> Option<
    usize,
> {
    let m = s.tree.spec_monitor_of(origin).unwrap() as int;
    match s.spec_monitor_in_direction(m, direction) {
        Ok(Some(am)) => match s.tree.spec_displayed_workspace(am as int, 0) {
            None => None,
            Some(ws) => s.tree.spec_target_in_workspace(ws as int, direction),
        },
        _ => None,
    }
}

/// The structural error of workspace traversal, if any: the origin must
/// belong to a monitor whose geometry is known.
pub open spec fn spec_workspace_err(s: WmState, origin: int) -> Option<WmError> {
    match s.tree.spec_monitor_of(origin) {
        None => Some(WmError::NoMonitor),
        Some(m) => if s.tree.rect_of(m as int) is None {
            Some(WmError::NoGeometry)
        } else {
            None
        },
    }
}

/// Gets a focus target outside of the current workspace in the given
/// direction: the displayed workspace of the monitor adjacent in that
/// direction supplies the target through `spec_target_in_workspace` —
/// when such a workspace exists the result is always a target, since the
/// workspace itself is the last resort. No adjacent monitor or displayed
/// workspace is absence; an origin without a monitor, or a monitor
/// without geometry, is a structural error.
pub fn workspace_focus_target(state: &WmState, origin_container: usize, direction: Direction) -> (
    r: Result<Option<usize>, WmError>)
    requires
        state.wf(),
        state.tree.valid_id(origin_container as int),
    ensures
        match spec_workspace_err(*state, origin_container as int) {
            Some(e) => r == Err::<Option<usize>, WmError>(e),
            None => r == Ok::<Option<usize>, WmError>(
                spec_workspace_target(*state, origin_container as int, direction),
            ),
        },
        r is Ok && r.unwrap() is Some ==> state.tree.valid_id(r.unwrap().unwrap() as int),
{
    let monitor = match state.tree.monitor_of(origin_container) {
        Some(m) => m,
        None => {
            return Err(WmError::NoMonitor);
        },
    };
    let target_monitor = state.monitor_in_direction(monitor, direction)?;
    let target_workspace = match target_monitor {
        Some(m) => {
            proof {
                assert(state.tree.node_wf(0));
                let monitors = state.tree.children_of(0);
                assert(monitors.contains(m));
                state.tree.lemma_backlink(0, m);
            }
            state.tree.displayed_workspace(m)
        },
        None => None,
    };
    match target_workspace {
        None => Ok(None),
        Some(ws) => {
            let t = state.tree.target_in_workspace(ws, direction);
            Ok(t)
        },
    }
}

/// The container the focus moves to from an origin, by the origin's
/// variant: tiling windows try tiling traversal and fall back to the
/// adjacent workspace; floating windows try the floating traversal first;
/// fullscreen windows and workspaces go to the adjacent workspace
/// directly; any other origin yields no target.
pub open spec fn spec_focus_target(s: WmState, origin: int, direction: Direction) -> Option<
    usize,
> {
    match s.tree.kind_of(origin) {
        ContainerKind::TilingWindow { .. } => match s.tree.spec_tiling_focus_target(
            origin,
            direction,
        ) {
            Some(x) => Some(x),
            None => spec_workspace_target(s, origin, direction),
        },
        ContainerKind::NonTilingWindow { window_state, .. } => match window_state {
            WindowState::Floating => match s.tree.spec_floating_target(origin, direction) {
                Some(x) => Some(x),
                None => spec_workspace_target(s, origin, direction),
            },
            WindowState::Fullscreen => spec_workspace_target(s, origin, direction),
            WindowState::Minimized => None,
        },
        ContainerKind::Workspace { .. } => spec_workspace_target(s, origin, direction),
        _ => None,
    }
}

/// Whether the dispatch for an origin falls through to workspace
/// traversal (and can therefore surface its structural errors).
pub open spec fn spec_consults_workspace(s: WmState, origin: int, direction: Direction) -> bool {
    match s.tree.kind_of(origin) {
        ContainerKind::TilingWindow { .. } => s.tree.spec_tiling_focus_target(origin, direction)
            is None,
        ContainerKind::NonTilingWindow { window_state, .. } => match window_state {
            WindowState::Floating => s.tree.spec_floating_target(origin, direction) is None,
            WindowState::Fullscreen => true,
            WindowState::Minimized => false,
        },
        ContainerKind::Workspace { .. } => true,
        _ => false,
    }
}

/// Computes and applies directional focus movement from an origin
/// container. When the dispatch for the origin's variant finds a target,
/// that target becomes the focused descendant of the tree and a focus
/// change plus a cursor jump are queued; when it finds none, the state is
/// left entirely unchanged — absence is not an error. A structural error
/// of the workspace fallback (no monitor, or a monitor without geometry)
/// is surfaced with the state unchanged.
pub fn focus_in_direction(origin_container: usize, direction: Direction, state: &mut WmState) -> (
    r: Result<(), WmError>)
    requires
        old(state).wf(),
        old(state).tree.valid_id(origin_container as int),
    ensures
        final(state).wf(),
        final(state).is_paused == old(state).is_paused,
        final(state).tree.n() == old(state).tree.n(),
        forall|j: int|
            old(state).tree.valid_id(j) ==> {
                &&& final(state).tree.kind_of(j) == old(state).tree.kind_of(j)
                &&& final(state).tree.parent_of(j) == old(state).tree.parent_of(j)
                &&& final(state).tree.children_of(j) == old(state).tree.children_of(j)
                &&& final(state).tree.rect_of(j) == old(state).tree.rect_of(j)
                &&& final(state).tree.depth_of(j) == old(state).tree.depth_of(j)
            },
        ({
            let errs = spec_workspace_err(*old(state), origin_container as int);
            if spec_consults_workspace(*old(state), origin_container as int, direction) && errs
                is Some {
                r == Err::<(), WmError>(errs.unwrap()) && *final(state) == *old(state)
            } else {
                &&& r is Ok
                &&& match spec_focus_target(*old(state), origin_container as int, direction) {
                    Some(x) => {
                        &&& final(state).tree.is_focused_path(x as int)
                        &&& final(state).pending_sync.focus_change
                        &&& final(state).pending_sync.cursor_jump
                        &&& final(state).pending_sync.containers_to_redraw == old(
                            state,
                        ).pending_sync.containers_to_redraw
                        &&& final(state).pending_sync.resizes == old(state).pending_sync.resizes
                    },
                    None => *final(state) == *old(state),
                }
            }
        }),
{
    let kind = state.tree.kind(origin_container);
    let focus_target: Option<usize> = match kind {
        ContainerKind::TilingWindow { .. } => {
            let within = tiling_focus_target(&state.tree, origin_container, direction)?;
            match within {
                Some(t) => Some(t),
                None => workspace_focus_target(state, origin_container, direction)?,
            }
        },
        ContainerKind::NonTilingWindow { window_state, .. } => {
            match window_state {
                WindowState::Floating => {
                    match floating_focus_target(&state.tree, origin_container, direction) {
                        Some(t) => Some(t),
                        None => workspace_focus_target(state, origin_container, direction)?,
                    }
                },
                WindowState::Fullscreen => {
                    workspace_focus_target(state, origin_container, direction)?
                },
                WindowState::Minimized => None,
            }
        },
        ContainerKind::Workspace { .. } => {
            workspace_focus_target(state, origin_container, direction)?
        },
        _ => None,
    };
    proof {
        assert(focus_target == spec_focus_target(
            *old(state),
            origin_container as int,
            direction,
        ));
    }
    if let Some(focus_target) = focus_target {
        state.tree.set_focused_descendant(focus_target);
        state.pending_sync.queue_focus_change();
        state.pending_sync.queue_cursor_jump();
    }
    Ok(())
}

/// Tiling traversal never wraps around within a level: when a container
/// has no following tiling sibling, moving focus Down or Right continues
/// the search at its parent — it does not return to an earlier sibling of
/// the same level.
pub proof fn lemma_tiling_traversal_no_wraparound(tree: Tree, cur: int, direction: Direction)
    requires
        tree.wf(),
        tree.valid_id(cur),
        !tree.is_workspace(cur),
        tree.parent_of(cur) is Some,
        tree.tiling_direction_of(tree.parent_of(cur).unwrap() as int)
            == TilingDirection::spec_from_direction(direction),
        direction == Direction::Right || direction == Direction::Down,
        ({
            let p = tree.parent_of(cur).unwrap() as int;
            let ci = tree.children_of(p).index_of_first(cur as usize).unwrap();
            tree.spec_first_tiling_from(p, ci + 1) is None
        }),
    ensures
        tree.spec_tiling_focus_target(cur, direction) == tree.spec_tiling_focus_target(
            tree.parent_of(cur).unwrap() as int,
            direction,
        ),
{
    let p = tree.parent_of(cur).unwrap() as int;
    assert(tree.node_wf(cur));
}

} // verus!
