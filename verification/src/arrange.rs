//! Drag/resize-end arrangement: finding the drop target under a screen
//! point, classifying the drop position, inserting the moved window as a
//! sibling or wrapping the target in a new split, and migrating windows
//! between monitors.

use vstd::prelude::*;
use crate::error::WmError;
use crate::geometry::{drop_position, spec_drop_position, DropPosition, Point, Rect, TilingDirection};
use crate::monitor::find_monitor_by_anchor_point;
use crate::state::{ResizeEffect, UserConfig, WmState};
use crate::tree::{ActiveDragOperation, ContainerKind, GapsConfig, Tree};

verus! {

impl Tree {
    /// Whether `d` lies in the subtree rooted at `root` (including the
    /// root itself), following parent links.
    pub open spec fn spec_is_descendant(self, d: int, root: int) -> bool
        decreases self.depth_of(d),
        when self.wf() && self.valid_id(d)
        via Self::spec_is_descendant_decreases
    {
        d == root || match self.parent_of(d) {
            None => false,
            Some(p) => self.spec_is_descendant(p as int, root),
        }
    }

    #[via_fn]
    proof fn spec_is_descendant_decreases(self, d: int, root: int) {
        if d != root {
            if let Some(p) = self.parent_of(d) {
                assert(self.node_wf(d));
                self.lemma_backlink(p as int, d as usize);
            }
        }
    }

    /// A descendant other than the root reaches the root through one of
    /// the root's children.
    proof fn lemma_descendant_via_child(self, d: int, root: int)
        requires
            self.wf(),
            self.valid_id(d),
            self.valid_id(root),
            self.spec_is_descendant(d, root),
            d != root,
        ensures
            exists|k: int|
                0 <= k < self.children_of(root).len() && self.spec_is_descendant(
                    d,
                    #[trigger] self.children_of(root)[k] as int,
                ),
        decreases self.depth_of(d),
    {
        assert(self.node_wf(d));
        let p = self.parent_of(d).unwrap() as int;
        self.lemma_backlink(p, d as usize);
        if p == root {
            assert(self.children_of(root).contains(d as usize));
            let k = choose|k: int|
                0 <= k < self.children_of(root).len() && self.children_of(root)[k] == (d as usize);
            assert(self.spec_is_descendant(d, self.children_of(root)[k] as int));
        } else {
            self.lemma_descendant_via_child(p, root);
            let k = choose|k: int|
                0 <= k < self.children_of(root).len() && self.spec_is_descendant(
                    p,
                    #[trigger] self.children_of(root)[k] as int,
                );
            assert(self.spec_is_descendant(d, self.children_of(root)[k] as int));
        }
    }

    /// A descendant of a child is a descendant of the parent.
    proof fn lemma_descendant_trans(self, d: int, mid: int, root: int)
        requires
            self.wf(),
            self.valid_id(d),
            self.valid_id(mid),
            self.valid_id(root),
            self.spec_is_descendant(d, mid),
            self.spec_is_descendant(mid, root),
        ensures
            self.spec_is_descendant(d, root),
        decreases self.depth_of(d),
    {
        if d != mid {
            assert(self.node_wf(d));
            let p = self.parent_of(d).unwrap() as int;
            self.lemma_backlink(p, d as usize);
            self.lemma_descendant_trans(p, mid, root);
        }
    }

    /// A drop-target candidate: a direction container, other than the
    /// dragged window, whose known rectangle contains the point.
    pub open spec fn spec_drop_candidate(self, x: int, pos: Point, exclude: int) -> bool {
        &&& self.is_direction_container(x)
        &&& x != exclude
        &&& match self.rect_of(x) {
            Some(r) => r.spec_contains_point(pos),
            None => false,
        }
    }

    /// Deepest direction container under `pos` in the subtree of `i`,
    /// starting from an accumulator: the accumulator is replaced only by a
    /// strictly deeper candidate.
    pub open spec fn spec_deepest_in(self, i: int, pos: Point, exclude: usize, best: usize)
        -> usize
        decreases self.n() - self.depth_of(i), 1int, 0int,
        when self.wf() && self.valid_id(i) && self.depth_of(i) < self.n()
    {
        let b = if self.spec_drop_candidate(i, pos, exclude as int) && self.depth_of(i)
            > self.depth_of(best as int) {
            i as usize
        } else {
            best
        };
        self.spec_deepest_children_from(i, 0, pos, exclude, b)
    }

    /// The same scan folded over the children of `i` from position `k`.
    pub open spec fn spec_deepest_children_from(
        self,
        i: int,
        k: int,
        pos: Point,
        exclude: usize,
        best: usize,
    ) -> usize
        decreases self.n() - self.depth_of(i), 0int, self.children_of(i).len() - k,
        when self.wf() && self.valid_id(i) && self.depth_of(i) < self.n()
        via Self::spec_deepest_children_from_decreases
    {
        if k < 0 || k >= self.children_of(i).len() {
            best
        } else {
            let b1 = self.spec_deepest_in(self.children_of(i)[k] as int, pos, exclude, best);
            self.spec_deepest_children_from(i, k + 1, pos, exclude, b1)
        }
    }

    #[via_fn]
    proof fn spec_deepest_children_from_decreases(
        self,
        i: int,
        k: int,
        pos: Point,
        exclude: usize,
        best: usize,
    ) {
        if 0 <= k < self.children_of(i).len() {
            assert(self.node_wf(i));
            assert(self.child_ok(i, k));
        }
    }

    /// The drop-target parent within workspace `ws` for a drop at `pos`:
    /// the first direction container in depth-first order among the
    /// deepest whose known rectangle contains the point, the workspace
    /// itself when none qualifies.
    pub open spec fn spec_deepest_target(self, ws: int, pos: Point, exclude: usize) -> usize {
        self.spec_deepest_in(ws, pos, exclude, ws as usize)
    }

    fn deepest_candidate_in(&self, i: usize, pos: &Point, exclude: usize, best: usize) -> (r:
        usize)
        requires
            self.wf(),
            self.valid_id(i as int),
            self.valid_id(best as int),
        ensures
            r == self.spec_deepest_in(i as int, *pos, exclude, best),
            self.valid_id(r as int),
            r == best || (self.spec_drop_candidate(r as int, *pos, exclude as int)
                && self.spec_is_descendant(r as int, i as int) && self.depth_of(r as int)
                > self.depth_of(best as int)),
            self.depth_of(r as int) >= self.depth_of(best as int),
            forall|d: int|
                self.valid_id(d) && self.spec_is_descendant(d, i as int)
                    && #[trigger] self.spec_drop_candidate(d, *pos, exclude as int) ==> self
                    .depth_of(d) <= self.depth_of(r as int),
        decreases self.n() - self.depth_of(i as int), 1int,
    {
        proof {
            self.lemma_depth_bound(i as int);
        }
        let mut b = best;
        let is_cand: bool = matches!(
            self.kind(i),
            ContainerKind::Workspace { .. } | ContainerKind::Split { .. },
        ) && i != exclude && match self.rect(i) {
            Some(r) => r.contains_point(pos),
            None => false,
        };
        if is_cand {
            let di = self.nodes[i].depth;
            let db = self.nodes[b].depth;
            if di > db {
                b = i;
            }
        }
        let r = self.deepest_candidate_children(i, 0, pos, exclude, b);
        proof {
            assert(self.spec_is_descendant(i as int, i as int));
            if r != best {
                if r == b {
                    assert(self.spec_drop_candidate(r as int, *pos, exclude as int));
                } else {
                    let j = choose|j: int|
                        0 <= j < self.children_of(i as int).len() && self.spec_is_descendant(
                            r as int,
                            #[trigger] self.children_of(i as int)[j] as int,
                        );
                    let c = self.children_of(i as int)[j] as int;
                    assert(self.node_wf(i as int));
                    assert(self.child_ok(i as int, j));
                    assert(self.spec_is_descendant(c, i as int));
                    self.lemma_descendant_trans(r as int, c, i as int);
                }
            }
            assert forall|d: int|
                self.valid_id(d) && self.spec_is_descendant(d, i as int)
                    && #[trigger] self.spec_drop_candidate(d, *pos, exclude as int) implies self
                .depth_of(d) <= self.depth_of(r as int) by {
                if d == i as int {
                } else {
                    self.lemma_descendant_via_child(d, i as int);
                }
            }
        }
        r
    }

    /// Folds `deepest_candidate_in` over the children of `i` from
    /// position `k`.
    fn deepest_candidate_children(
        &self,
        i: usize,
        k: usize,
        pos: &Point,
        exclude: usize,
        best: usize,
    ) -> (r: usize)
        requires
            self.wf(),
            self.valid_id(i as int),
            self.valid_id(best as int),
        ensures
            r == self.spec_deepest_children_from(i as int, k as int, *pos, exclude, best),
            self.valid_id(r as int),
            r == best || (self.spec_drop_candidate(r as int, *pos, exclude as int)
                && self.depth_of(r as int) > self.depth_of(best as int) && exists|j: int|
                k <= j < self.children_of(i as int).len() && self.spec_is_descendant(
                    r as int,
                    #[trigger] self.children_of(i as int)[j] as int,
                )),
            self.depth_of(r as int) >= self.depth_of(best as int),
            forall|j: int, d: int|
                k <= j < self.children_of(i as int).len() && self.valid_id(d)
                    && self.spec_is_descendant(
                    d,
                    #[trigger] self.children_of(i as int)[j] as int,
                ) && #[trigger] self.spec_drop_candidate(d, *pos, exclude as int) ==> self
                    .depth_of(d) <= self.depth_of(r as int),
        decreases self.n() - self.depth_of(i as int), 0int, self.children_of(i as int).len() - k,
    {
        proof {
            self.lemma_depth_bound(i as int);
        }
        if k >= self.child_count(i) {
            best
        } else {
            let c = self.child_at(i, k);
            proof {
                assert(self.node_wf(i as int));
                assert(self.child_ok(i as int, k as int));
                self.lemma_depth_bound(c as int);
            }
            let b1 = self.deepest_candidate_in(c, pos, exclude, best);
            let r = self.deepest_candidate_children(i, k + 1, pos, exclude, b1);
            proof {
                if r == b1 && b1 != best {
                    assert(self.spec_is_descendant(b1 as int, c as int));
                    assert(self.children_of(i as int)[k as int] == c);
                }
                assert forall|j: int, d: int|
                    k <= j < self.children_of(i as int).len() && self.valid_id(d)
                        && self.spec_is_descendant(
                        d,
                        #[trigger] self.children_of(i as int)[j] as int,
                    ) && #[trigger] self.spec_drop_candidate(d, *pos, exclude as int) implies self
                    .depth_of(d) <= self.depth_of(r as int) by {
                    if j == k as int {
                        assert(self.depth_of(d) <= self.depth_of(b1 as int));
                        assert(self.depth_of(b1 as int) <= self.depth_of(r as int));
                    }
                }
            }
            r
        }
    }

    /// The deepest direction container whose known rectangle contains the
    /// point, among the workspace and its descendants other than the
    /// dragged window; the workspace itself when no descendant qualifies.
    pub fn deepest_direction_container_at(&self, workspace: usize, pos: &Point, exclude: usize)
        -> (r: usize)
        requires
            self.wf(),
            self.valid_id(workspace as int),
            self.is_workspace(workspace as int),
        ensures
            r == self.spec_deepest_target(workspace as int, *pos, exclude),
            self.spec_is_deepest_target(workspace as int, *pos, exclude, r),
    {
        self.deepest_candidate_in(workspace, pos, exclude, workspace)
    }

    /// `tp` is a deepest drop target within workspace `ws` for `pos`: a
    /// direction container (the workspace itself, or a candidate under the
    /// point) at least as deep as every candidate in the workspace.
    pub open spec fn spec_is_deepest_target(self, ws: int, pos: Point, exclude: usize, tp: usize)
        -> bool {
        &&& self.valid_id(tp as int)
        &&& self.is_direction_container(tp as int)
        &&& (tp as int == ws || (self.spec_drop_candidate(tp as int, pos, exclude as int)
            && self.spec_is_descendant(tp as int, ws)))
        &&& forall|d: int|
            self.valid_id(d) && self.spec_is_descendant(d, ws)
                && #[trigger] self.spec_drop_candidate(d, pos, exclude as int) ==> self.depth_of(d)
                <= self.depth_of(tp as int)
    }

    /// `c` is the nearest tiling child of `p` to `pos`: minimal squared
    /// distance among the tiling children with known geometry, and the
    /// first in children order among equally near ones.
    pub open spec fn spec_is_nearest_tiling(self, p: usize, c: usize, pos: Point) -> bool {
        &&& self.valid_id(c as int)
        &&& self.spec_tiling_child(p as int, c as int)
        &&& self.rect_of(c as int) is Some
        &&& forall|d: int|
            self.valid_id(d) && #[trigger] self.spec_tiling_child(p as int, d) && self.rect_of(d)
                is Some ==> self.rect_of(c as int).unwrap().spec_distance_sq_to_point(pos)
                <= self.rect_of(d).unwrap().spec_distance_sq_to_point(pos)
        &&& forall|j: int|
            0 <= j < self.children_of(p as int).index_of_first(c).unwrap()
                && self.is_tiling_container(#[trigger] self.children_of(p as int)[j] as int)
                ==> self.rect_of(self.children_of(p as int)[j] as int) is Some && self.rect_of(
                self.children_of(p as int)[j] as int,
            ).unwrap().spec_distance_sq_to_point(pos) > self.rect_of(
                c as int,
            ).unwrap().spec_distance_sq_to_point(pos)
    }

    /// Whether node `x` is a tiling child of `p` (a split or tiling
    /// window among `p`'s children).
    pub open spec fn spec_tiling_child(self, p: int, x: int) -> bool {
        &&& self.children_of(p).contains(x as usize)
        &&& self.is_tiling_container(x)
    }

    /// Whether `p` has any tiling child.
    pub open spec fn spec_has_tiling_child(self, p: int) -> bool {
        exists|k: int|
            0 <= k < self.children_of(p).len() && self.is_tiling_container(
                #[trigger] self.children_of(p)[k] as int,
            )
    }

    pub fn has_tiling_child(&self, p: usize) -> (r: bool)
        requires
            self.wf(),
            self.valid_id(p as int),
        ensures
            r == self.spec_has_tiling_child(p as int),
    {
        let count = self.child_count(p);
        let mut k: usize = 0;
        while k < count
            invariant
                self.wf(),
                self.valid_id(p as int),
                count as int == self.children_of(p as int).len(),
                k <= count,
                forall|j: int|
                    0 <= j < k ==> !self.is_tiling_container(
                        #[trigger] self.children_of(p as int)[j] as int,
                    ),
            decreases count - k,
        {
            let c = self.child_at(p, k);
            proof {
                assert(self.node_wf(p as int));
                assert(self.child_ok(p as int, k as int));
            }
            if matches!(
                self.kind(c),
                ContainerKind::Split { .. } | ContainerKind::TilingWindow { .. },
            ) {
                proof {
                    assert(self.children_of(p as int)[k as int] == c);
                }
                return true;
            }
            k = k + 1;
        }
        false
    }

    /// The nearest-tiling-child scan over the children of `p` from
    /// position `k`, carrying the best candidate so far: a tiling child
    /// without known geometry stops the scan with a structural error; a
    /// strictly nearer tiling child replaces the best, so the first of
    /// equally near children wins.
    pub open spec fn spec_nearest_from(self, p: int, pos: Point, k: int, best: Option<usize>)
        -> Result<Option<usize>, WmError>
        decreases self.children_of(p).len() - k,
    {
        if k < 0 || k >= self.children_of(p).len() {
            Ok(best)
        } else {
            let c = self.children_of(p)[k];
            if self.is_tiling_container(c as int) {
                match self.rect_of(c as int) {
                    None => Err(WmError::NoGeometry),
                    Some(rc) => {
                        let take = match best {
                            None => true,
                            Some(b) => rc.spec_distance_sq_to_point(pos) < self.rect_of(
                                b as int,
                            ).unwrap().spec_distance_sq_to_point(pos),
                        };
                        self.spec_nearest_from(
                            p,
                            pos,
                            k + 1,
                            if take {
                                Some(c)
                            } else {
                                best
                            },
                        )
                    },
                }
            } else {
                self.spec_nearest_from(p, pos, k + 1, best)
            }
        }
    }

    /// The nearest tiling child of `p` to `pos`, or the structural error
    /// of the scan.
    pub open spec fn spec_nearest_tiling(self, p: int, pos: Point) -> Result<
        Option<usize>,
        WmError,
    > {
        self.spec_nearest_from(p, pos, 0, None)
    }

    /// The tiling child of `p` nearest to `pos` by squared distance, ties
    /// broken in favor of the first in children order. A tiling child
    /// without known geometry is a structural error; no tiling child at
    /// all yields absence.
    pub fn nearest_tiling_child(&self, p: usize, pos: &Point) -> (r: Result<
        Option<usize>,
        WmError,
    >)
        requires
            self.wf(),
            self.valid_id(p as int),
        ensures
            r == self.spec_nearest_tiling(p as int, *pos),
            match r {
                Ok(Some(c)) => self.spec_is_nearest_tiling(p, c, *pos),
                Ok(None) => !self.spec_has_tiling_child(p as int),
                Err(e) => e == WmError::NoGeometry && exists|d: int|
                    self.valid_id(d) && #[trigger] self.spec_tiling_child(p as int, d)
                        && self.rect_of(d) is None,
            },
    {
        let count = self.child_count(p);
        let mut k: usize = 0;
        let mut best: Option<usize> = None;
        let mut best_dist: u128 = 0;
        let mut bi: usize = 0;
        while k < count
            invariant
                self.wf(),
                self.valid_id(p as int),
                count as int == self.children_of(p as int).len(),
                k <= count,
                self.spec_nearest_from(p as int, *pos, k as int, best) == self.spec_nearest_tiling(
                    p as int,
                    *pos,
                ),
                match best {
                    Some(c) => {
                        &&& self.valid_id(c as int)
                        &&& self.spec_tiling_child(p as int, c as int)
                        &&& self.rect_of(c as int) is Some
                        &&& bi < k
                        &&& self.children_of(p as int)[bi as int] == c
                        &&& best_dist as int == self.rect_of(
                            c as int,
                        ).unwrap().spec_distance_sq_to_point(*pos)
                        &&& forall|j: int|
                            0 <= j < k && self.is_tiling_container(
                                #[trigger] self.children_of(p as int)[j] as int,
                            ) ==> self.rect_of(self.children_of(p as int)[j] as int) is Some
                                && best_dist as int <= self.rect_of(
                                self.children_of(p as int)[j] as int,
                            ).unwrap().spec_distance_sq_to_point(*pos)
                        &&& forall|j: int|
                            0 <= j < bi && self.is_tiling_container(
                                #[trigger] self.children_of(p as int)[j] as int,
                            ) ==> (self.rect_of(
                                self.children_of(p as int)[j] as int,
                            ).unwrap().spec_distance_sq_to_point(*pos)) > best_dist as int
                    },
                    None => forall|j: int|
                        0 <= j < k ==> !self.is_tiling_container(
                            #[trigger] self.children_of(p as int)[j] as int,
                        ),
                },
            decreases count - k,
        {
            let c = self.child_at(p, k);
            proof {
                assert(self.node_wf(p as int));
                assert(self.child_ok(p as int, k as int));
                assert(self.children_of(p as int).contains(c)) by {
                    assert(self.children_of(p as int)[k as int] == c);
                }
            }
            if matches!(
                self.kind(c),
                ContainerKind::Split { .. } | ContainerKind::TilingWindow { .. },
            ) {
                let rect = match self.rect(c) {
                    Some(rect) => rect,
                    None => {
                        proof {
                            assert(self.spec_tiling_child(p as int, c as int));
                        }
                        return Err(WmError::NoGeometry);
                    },
                };
                let dist = rect.distance_sq_to_point(pos);
                let take: bool = match best {
                    None => true,
                    Some(_) => dist < best_dist,
                };
                if take {
                    best = Some(c);
                    best_dist = dist;
                    bi = k;
                }
            }
            k = k + 1;
        }
        proof {
            if let Some(c) = best {
                // the best is the first in children order among equally near
                let pc = self.children_of(p as int);
                pc.index_of_first_ensures(c);
                assert(pc.contains(c)) by {
                    assert(pc[bi as int] == c);
                }
                assert forall|j: int| 0 <= j < bi implies pc[j] != c by {
                    if pc[j] == c {
                        assert(self.node_wf(p as int));
                    }
                }
                assert(pc.index_of_first(c) == Some(bi as int));
                assert forall|d: int|
                    self.valid_id(d) && #[trigger] self.spec_tiling_child(p as int, d)
                        && self.rect_of(d) is Some implies self.rect_of(
                    c as int,
                ).unwrap().spec_distance_sq_to_point(*pos) <= self.rect_of(
                    d,
                ).unwrap().spec_distance_sq_to_point(*pos) by {
                    let j = choose|j: int|
                        0 <= j < self.children_of(p as int).len() && self.children_of(p as int)[j]
                            == (d as usize);
                    assert(self.is_tiling_container(
                        self.children_of(p as int)[j] as int,
                    ));
                }
            } else {
                if self.spec_has_tiling_child(p as int) {
                    let j = choose|j: int|
                        0 <= j < self.children_of(p as int).len() && self.is_tiling_container(
                            self.children_of(p as int)[j] as int,
                        );
                    assert(!self.is_tiling_container(self.children_of(p as int)[j] as int));
                }
            }
        }
        Ok(best)
    }

    /// Whether dropping at `dp` conflicts with the parent's tiling
    /// direction, so that a new perpendicular split is required around a
    /// plain tiling window.
    pub open spec fn spec_should_split(
        self,
        nearest: int,
        parent_dir: TilingDirection,
        dp: DropPosition,
    ) -> bool {
        &&& self.is_tiling_window(nearest)
        &&& match parent_dir {
            TilingDirection::Horizontal => dp == DropPosition::Top || dp == DropPosition::Bottom,
            TilingDirection::Vertical => dp == DropPosition::Left || dp == DropPosition::Right,
        }
    }
}

/// The attach step's full effect on the state: the moved window is a
/// tiling window afterwards, the target parent is queued for redraw, and
/// the tree around the nearest container has the split-or-sibling shape
/// that the drop position dictates.
pub open spec fn spec_attach_outcome(
    pre: WmState,
    post: WmState,
    window: usize,
    target_parent: usize,
    nearest: usize,
    dp: DropPosition,
    gaps: GapsConfig,
) -> bool {
    &&& post.wf()
    &&& post.tree.valid_id(window as int)
    &&& post.tree.is_tiling_window(window as int)
    &&& post.tree.handle_of(window as int) == pre.tree.handle_of(window as int)
    &&& post.is_paused == pre.is_paused
    &&& post.pending_sync.focus_change == pre.pending_sync.focus_change
    &&& post.pending_sync.cursor_jump == pre.pending_sync.cursor_jump
    &&& post.pending_sync.resizes == pre.pending_sync.resizes
    &&& post.pending_sync.containers_to_redraw@ == pre.pending_sync.containers_to_redraw@.push(
        target_parent,
    )
    &&& ({
        let t0 = pre.tree;
        let t1 = post.tree;
        let pdir = t0.tiling_direction_of(target_parent as int);
        if t0.spec_should_split(nearest as int, pdir, dp) {
            let s = t0.n();
            &&& t1.n() == t0.n() + 1
            &&& t1.kind_of(s) == (ContainerKind::Split {
                tiling_direction: pdir.spec_inverse(),
                gaps,
            })
            &&& t1.parent_of(s) == Some(target_parent)
            &&& t1.children_of(s) == (if dp == DropPosition::Top || dp == DropPosition::Left {
                seq![window, nearest]
            } else {
                seq![nearest, window]
            })
            &&& t1.parent_of(nearest as int) == Some(s as usize)
            &&& t1.parent_of(window as int) == Some(s as usize)
            &&& t1.children_of(target_parent as int) == t0.children_of(
                target_parent as int,
            ).remove_value(window).update(
                t0.children_of(target_parent as int).remove_value(window).index_of_first(
                    nearest,
                ).unwrap(),
                s as usize,
            )
        } else {
            let bc = t0.children_of(target_parent as int).remove_value(window);
            let bi = bc.index_of_first(nearest).unwrap();
            let idx = if dp == DropPosition::Top || dp == DropPosition::Left {
                bi
            } else {
                bi + 1
            };
            &&& t1.n() == t0.n()
            &&& t1.parent_of(window as int) == Some(target_parent)
            &&& t1.children_of(target_parent as int) == bc.insert(idx, window)
        }
    })
}

/// Attaches a tiling window at a classified drop target. When the drop
/// conflicts with the target parent's tiling direction and the nearest
/// container is a plain tiling window, a new split with the perpendicular
/// direction is created in the nearest container's place and the window
/// is inserted before (Top/Left) or after (Bottom/Right) it; otherwise
/// the window becomes a sibling of the nearest container, landing on the
/// dropped side: at the nearest container's index (Top/Left) or just past
/// it (Bottom/Right), the index judged with the moved window already out
/// of the children. The target parent is queued for redraw.
#[verifier::rlimit(100)]
#[verifier::spinoff_prover]
pub fn attach_window_at_drop_target(
    state: &mut WmState,
    window: usize,
    target_parent: usize,
    nearest: usize,
    dp: DropPosition,
    config: &UserConfig,
) -> (r: Result<(), WmError>)
    requires
        old(state).wf(),
        old(state).tree.valid_id(window as int),
        old(state).tree.valid_id(target_parent as int),
        old(state).tree.valid_id(nearest as int),
        old(state).tree.is_tiling_window(window as int),
        old(state).tree.is_direction_container(target_parent as int),
        old(state).tree.spec_tiling_child(target_parent as int, nearest as int),
        window != nearest,
    ensures
        r is Ok,
        spec_attach_outcome(
            *old(state),
            *final(state),
            window,
            target_parent,
            nearest,
            dp,
            config.gaps,
        ),
{
    let tree = &state.tree;
    let pdir = match tree.kind(target_parent) {
        ContainerKind::Workspace { tiling_direction, .. } => tiling_direction,
        ContainerKind::Split { tiling_direction, .. } => tiling_direction,
        _ => TilingDirection::Horizontal,
    };
    let should_split: bool = matches!(tree.kind(nearest), ContainerKind::TilingWindow { .. })
        && match pdir {
        TilingDirection::Horizontal => matches!(dp, DropPosition::Top | DropPosition::Bottom),
        TilingDirection::Vertical => matches!(dp, DropPosition::Left | DropPosition::Right),
    };
    let early = matches!(dp, DropPosition::Top | DropPosition::Left);
    proof {
        old(state).tree.lemma_backlink(target_parent as int, nearest);
    }
    if should_split {
        // detach the moved window first so that the wrapped target's
        // position is judged without it
        let ghost t0 = state.tree;
        let tp_count = state.tree.child_count(target_parent);
        let wp = state.tree.parent(window);
        let append_idx: usize = match wp {
            Some(q) if q == target_parent => {
                proof {
                    assert(t0.node_wf(window as int));
                    assert(t0.children_of(target_parent as int).contains(window));
                }
                tp_count - 1
            },
            _ => tp_count,
        };
        proof {
            let c0 = t0.children_of(target_parent as int);
            c0.index_of_first_ensures(window);
            match wp {
                Some(q) if q == target_parent => {
                    assert(c0.contains(window));
                },
                _ => {
                    if c0.contains(window) {
                        t0.lemma_backlink(target_parent as int, window);
                        assert(false);
                    }
                },
            }
            assert(append_idx as int == c0.remove_value(window).len());
        }
        state.tree.move_leaf(window, target_parent, append_idx);
        let ghost ta = state.tree;
        proof {
            let bc = t0.children_of(target_parent as int).remove_value(window);
            assert(ta.children_of(target_parent as int) == bc.insert(bc.len() as int, window));
            assert(ta.kind_of(nearest as int) == t0.kind_of(nearest as int)) by {
                let op = t0.parent_of(window as int).unwrap();
                if nearest as int == op as int && op != target_parent {
                } else if nearest == target_parent {
                } else if (nearest as int) == window as int {
                } else {
                    assert(ta.nodes[nearest as int] == t0.nodes[nearest as int]);
                }
            }
            assert(ta.spec_tiling_child(target_parent as int, nearest as int)) by {
                Tree::lemma_seq_remove_value(t0.children_of(target_parent as int), window);
                assert(bc.contains(nearest));
                let j = choose|j: int| 0 <= j < bc.len() && bc[j] == nearest;
                bc.insert_ensures(bc.len() as int, window);
                assert(ta.children_of(target_parent as int)[j] == nearest);
            }
            assert(ta.is_tiling_window(nearest as int));
        }
        let split = state.tree.wrap_window_in_split(nearest, pdir.inverse(), config.gaps);
        let target_index: usize = if early {
            0
        } else {
            1
        };
        let ghost t2 = state.tree;
        proof {
            assert(t2.children_of(split as int)[0] == nearest);
            assert(t2.children_of(split as int).contains(nearest));
            t2.lemma_backlink(split as int, nearest);
            assert((window as int) != target_parent as int) by {
                assert(t0.is_tiling_window(window as int));
                assert(t0.is_direction_container(target_parent as int));
            }
            assert(t2.valid_id(window as int) && (window as int) != nearest as int
                && ta.parent_of(nearest as int) != Some(window)) by {
                ta.lemma_backlink(target_parent as int, nearest);
            }
            assert(ta.valid_id(window as int) && (window as int) != (nearest as int)
                && ta.parent_of(nearest as int) != Some(((window as int) as usize)));
            assert(t2.nodes[window as int] == ta.nodes[window as int]);
            assert(t2.is_window(window as int));
        }
        state.tree.move_leaf(window, split, target_index);
        state.pending_sync.queue_container_to_redraw(target_parent);
        proof {
            let t1 = state.tree;
            let s = t0.n();
            let bc = t0.children_of(target_parent as int).remove_value(window);
            Tree::lemma_seq_remove_value(t0.children_of(target_parent as int), window);
            let ca = ta.children_of(target_parent as int);
            assert(ca == bc.insert(bc.len() as int, window));
            bc.insert_ensures(bc.len() as int, window);
            assert(t1.children_of(s) =~= (if early {
                seq![window, nearest]
            } else {
                seq![nearest, window]
            })) by {
                let sc0 = seq![nearest];
                sc0.index_of_first_ensures(window);
                assert(!sc0.contains(window)) by {
                    if sc0.contains(window) {
                        let j = choose|j: int| 0 <= j < sc0.len() && sc0[j] == window;
                    }
                }
                assert(sc0.remove_value(window) == sc0);
                sc0.insert_ensures(if early {
                    0int
                } else {
                    1int
                }, window);
            }
            assert(t1.children_of(target_parent as int) =~= bc.update(
                bc.index_of_first(nearest).unwrap(),
                s as usize,
            )) by {
                // the wrapped window's index within the post-detach children
                let ci = ca.index_of_first(nearest).unwrap();
                ca.index_of_first_ensures(nearest);
                bc.index_of_first_ensures(nearest);
                assert(bc.contains(nearest));
                let bi = bc.index_of_first(nearest).unwrap();
                assert(ca[bi] == nearest);
                assert forall|j: int| 0 <= j < bi implies ca[j] != nearest by {
                    assert(ca[j] == bc[j]);
                }
                assert(ci == bi);
                // after wrapping, the split has replaced the nearest window
                let cw = t2.children_of(target_parent as int);
                assert(cw == ca.update(ci, s as usize));
                // the final move detaches the appended window again
                assert((target_parent as int) != split as int);
                assert(t1.children_of(target_parent as int) == cw.remove_value(window));
                cw.index_of_first_ensures(window);
                assert(cw[bc.len() as int] == window);
                assert forall|j: int| 0 <= j < bc.len() implies cw[j] != window by {
                    if j == ci {
                        assert(cw[j] == (s as usize));
                        assert((window as int) < t0.n());
                    } else {
                        assert(cw[j] == ca[j]);
                        assert(ca[j] == bc[j]);
                        Tree::lemma_seq_remove_value(
                            t0.children_of(target_parent as int),
                            window,
                        );
                    }
                }
                assert(cw.index_of_first(window) == Some(bc.len() as int));
                cw.remove_ensures(bc.len() as int);
                assert forall|j: int|
                    0 <= j < bc.len() implies cw.remove_value(window)[j] == bc.update(
                    bi,
                    s as usize,
                )[j] by {
                    assert(cw.remove_value(window)[j] == cw[j]);
                    if j != ci {
                        assert(cw[j] == ca[j]);
                        assert(ca[j] == bc[j]);
                    }
                }
            }
        }
        Ok(())
    } else {
        state.tree.move_beside(window, target_parent, nearest, early);
        state.pending_sync.queue_container_to_redraw(target_parent);
        Ok(())
    }
}

impl Tree {
    /// Re-parents `window` beside `nearest` under `target_parent`, before
    /// it when `early` and after it otherwise — the nearest container's
    /// slot judged with the moved window already out of the children, so
    /// the window lands on the dropped side.
    #[verifier::rlimit(100)]
    #[verifier::spinoff_prover]
    fn move_beside(&mut self, window: usize, target_parent: usize, nearest: usize, early: bool)
        requires
            old(self).wf(),
            old(self).valid_id(window as int),
            old(self).valid_id(target_parent as int),
            old(self).valid_id(nearest as int),
            old(self).is_tiling_window(window as int),
            old(self).is_direction_container(target_parent as int),
            old(self).spec_tiling_child(target_parent as int, nearest as int),
            window != nearest,
        ensures
            final(self).wf(),
            final(self).n() == old(self).n(),
            final(self).parent_of(window as int) == Some(target_parent),
            final(self).kind_of(window as int) == old(self).kind_of(window as int),
            final(self).rect_of(window as int) == old(self).rect_of(window as int),
            ({
                let bc = old(self).children_of(target_parent as int).remove_value(window);
                let bi = bc.index_of_first(nearest).unwrap();
                let idx = if early {
                    bi
                } else {
                    bi + 1
                };
                final(self).children_of(target_parent as int) == bc.insert(idx, window)
            }),
    {
        proof {
            old(self).lemma_backlink(target_parent as int, nearest);
        }
        let ni = self.index_in_parent(target_parent, nearest);
        let wp = self.parent(window);
        let adj: usize = match wp {
            Some(q) if q == target_parent => {
                proof {
                    assert(self.node_wf(window as int));
                }
                let wi = self.index_in_parent(target_parent, window);
                if wi < ni {
                    ni - 1
                } else {
                    ni
                }
            },
            _ => ni,
        };
        let cnt = self.child_count(target_parent);
        proof {
            assert(adj < cnt);
        }
        let target_index: usize = if early {
            adj
        } else {
            adj + 1
        };
        let ghost t0 = *self;
        proof {
            let c0 = t0.children_of(target_parent as int);
            let bc = c0.remove_value(window);
            c0.index_of_first_ensures(nearest);
            c0.index_of_first_ensures(window);
            bc.index_of_first_ensures(nearest);
            assert(t0.node_wf(target_parent as int));
            assert forall|j: int| 0 <= j < c0.len() && c0[j] == nearest implies j == ni as int by {
                if j != ni as int {
                    assert(t0.node_wf(target_parent as int));
                }
            }
            assert(c0.index_of_first(nearest) == Some(ni as int));
            match t0.parent_of(window as int) {
                Some(q) if q == target_parent => {
                    assert(c0.contains(window));
                    let wi0 = c0.index_of_first(window).unwrap();
                    c0.remove_ensures(wi0);
                    // the executable index of the window is its unique one
                    assert forall|j: int|
                        0 <= j < c0.len() && c0[j] == window implies j == wi0 by {
                        if j != wi0 {
                            assert(t0.node_wf(target_parent as int));
                        }
                    }
                    if wi0 < ni as int {
                        assert(bc[ni as int - 1] == c0[ni as int]);
                        assert forall|j: int| 0 <= j < ni as int - 1 implies bc[j] != nearest by {
                            if j < wi0 {
                                assert(bc[j] == c0[j]);
                            } else {
                                assert(bc[j] == c0[j + 1]);
                            }
                        }
                        assert(bc.index_of_first(nearest) == Some(adj as int));
                    } else {
                        assert(wi0 != ni as int);
                        assert(bc[ni as int] == c0[ni as int]);
                        assert forall|j: int| 0 <= j < ni as int implies bc[j] != nearest by {
                            assert(bc[j] == c0[j]);
                        }
                        assert(bc.index_of_first(nearest) == Some(adj as int));
                    }
                },
                _ => {
                    if c0.contains(window) {
                        t0.lemma_backlink(target_parent as int, window);
                        assert(false);
                    }
                    assert(bc == c0);
                    assert(bc.index_of_first(nearest) == Some(adj as int));
                },
            }
            // the clamp inside the re-parenting never fires
            assert((adj as int) < bc.len());
        }
        self.move_leaf(window, target_parent, target_index);
    }
}


/// The workspace against which a drop at `pos` is resolved: the displayed
/// workspace of the monitor containing the position, else the window's
/// own workspace.
pub open spec fn spec_resolved_workspace(s: WmState, window: usize, pos: Point) -> Option<usize> {
    let by_monitor = match s.tree.spec_find_monitor(pos) {
        Some(m) => s.tree.spec_displayed_workspace(m as int, 0),
        None => None,
    };
    match by_monitor {
        Some(ws) => Some(ws),
        None => s.tree.spec_workspace_of(window as int),
    }
}

/// The full effect of moving a window to the drop target under a screen
/// position: no resolvable workspace is `NoWorkspace` with the state
/// unchanged; an empty target parent, or the window being its own nearest
/// container, is a no-op; missing geometry of a tiling child is
/// `NoGeometry` with the state unchanged; otherwise the window is
/// attached per the drop rules at a deepest target parent and its nearest
/// tiling child.
pub open spec fn spec_move_outcome(
    pre: WmState,
    post: WmState,
    window: usize,
    pos: Point,
    gaps: GapsConfig,
    r: Result<(), WmError>,
) -> bool {
    match spec_resolved_workspace(pre, window, pos) {
        None => r == Err::<(), WmError>(WmError::NoWorkspace) && post == pre,
        Some(ws) => {
            let tp = pre.tree.spec_deepest_target(ws as int, pos, window);
            match r {
                Ok(_) => {
                    ||| (!pre.tree.spec_has_tiling_child(tp as int) && post == pre)
                    ||| (match pre.tree.spec_nearest_tiling(tp as int, pos) {
                        Ok(Some(nc)) => {
                            ||| (nc == window && post == pre)
                            ||| (nc != window && spec_attach_outcome(
                                pre,
                                post,
                                window,
                                tp,
                                nc,
                                spec_drop_position(pos, pre.tree.rect_of(nc as int).unwrap()),
                                gaps,
                            ))
                        },
                        _ => false,
                    })
                },
                Err(e) => {
                    &&& post == pre
                    &&& e == WmError::NoGeometry
                    &&& pre.tree.spec_has_tiling_child(tp as int)
                    &&& pre.tree.spec_nearest_tiling(tp as int, pos) == Err::<
                        Option<usize>,
                        WmError,
                    >(WmError::NoGeometry)
                },
            }
        },
    }
}

/// Moves a tiling window to the drop target under a screen position: the
/// position's monitor supplies the workspace (falling back to the window's
/// own workspace), the deepest direction container under the position is
/// the target parent, and the window is attached beside or around the
/// nearest tiling child. An empty target parent makes the move a no-op;
/// a failed lookup leaves the state unchanged and reports the condition.
/// With a resolvable workspace and every tiling container's geometry
/// known, the move always succeeds.
pub fn move_window_to_position(
    window: usize,
    position: &Point,
    state: &mut WmState,
    config: &UserConfig,
) -> (r: Result<(), WmError>)
    requires
        old(state).wf(),
        old(state).tree.valid_id(window as int),
        old(state).tree.is_tiling_window(window as int),
    ensures
        final(state).wf(),
        final(state).tree.valid_id(window as int),
        final(state).tree.is_tiling_window(window as int),
        final(state).tree.handle_of(window as int) == old(state).tree.handle_of(window as int),
        final(state).is_paused == old(state).is_paused,
        final(state).pending_sync.focus_change == old(state).pending_sync.focus_change,
        final(state).pending_sync.cursor_jump == old(state).pending_sync.cursor_jump,
        final(state).pending_sync.resizes == old(state).pending_sync.resizes,
        spec_move_outcome(*old(state), *final(state), window, *position, config.gaps, r),
        spec_resolved_workspace(*old(state), window, *position) is Some && (forall|i: int|
            old(state).tree.valid_id(i) && old(state).tree.is_tiling_container(i) ==> old(
                state,
            ).tree.rect_of(i) is Some) ==> r is Ok,
{
    let mouse_workspace: usize = {
        let by_monitor = match find_monitor_by_anchor_point(&state.tree, position) {
            Some(m) => state.tree.displayed_workspace(m),
            None => None,
        };
        match by_monitor {
            Some(ws) => ws,
            None => match state.tree.workspace_of(window) {
                Some(ws) => ws,
                None => {
                    return Err(WmError::NoWorkspace);
                },
            },
        }
    };
    proof {
        assert(spec_resolved_workspace(*old(state), window, *position) == Some(mouse_workspace));
    }
    let target_parent = state.tree.deepest_direction_container_at(
        mouse_workspace,
        position,
        window,
    );
    if !state.tree.has_tiling_child(target_parent) {
        proof {
            assert(old(state).tree.spec_is_deepest_target(
                mouse_workspace as int,
                *position,
                window,
                target_parent,
            ));
        }
        return Ok(());
    }
    let nearest_r = state.tree.nearest_tiling_child(target_parent, position);
    let nearest = match nearest_r {
        Err(e) => {
            proof {
                assert(old(state).tree.spec_is_deepest_target(
                    mouse_workspace as int,
                    *position,
                    window,
                    target_parent,
                ));
                let d = choose|d: int|
                    old(state).tree.valid_id(d) && old(state).tree.spec_tiling_child(
                        target_parent as int,
                        d,
                    ) && old(state).tree.rect_of(d) is None;
                assert(old(state).tree.is_tiling_container(d));
            }
            return Err(e);
        },
        Ok(None) => {
            proof {
                assert(false);
            }
            return Err(WmError::NoNearestContainer);
        },
        Ok(Some(c)) => c,
    };
    proof {
        assert(old(state).tree.spec_is_deepest_target(
            mouse_workspace as int,
            *position,
            window,
            target_parent,
        ));
        assert(old(state).tree.spec_is_nearest_tiling(target_parent, nearest, *position));
    }
    if nearest == window {
        return Ok(());
    }
    let nearest_rect = match state.tree.rect(nearest) {
        Some(rect) => rect,
        None => {
            proof {
                assert(false);
            }
            return Err(WmError::NoGeometry);
        },
    };
    let dp = drop_position(position, &nearest_rect);
    let r = attach_window_at_drop_target(state, window, target_parent, nearest, dp, config);
    proof {
        assert(spec_attach_outcome(
            *old(state),
            *final(state),
            window,
            target_parent,
            nearest,
            dp,
            config.gaps,
        ));
    }
    r
}

/// The in-place conversion of a floated window back to tiling: the same
/// container, parent, position and geometry, now a tiling window; nothing
/// else changes.
pub open spec fn spec_converted(pre: WmState, post: WmState, w: usize) -> bool {
    &&& post.tree.n() == pre.tree.n()
    &&& post.tree.kind_of(w as int) == (ContainerKind::TilingWindow {
        handle: pre.tree.handle_of(w as int),
        active_drag: pre.tree.active_drag_of(w as int),
    })
    &&& post.tree.parent_of(w as int) == pre.tree.parent_of(w as int)
    &&& post.tree.children_of(w as int) == pre.tree.children_of(w as int)
    &&& post.tree.focus_of(w as int) == pre.tree.focus_of(w as int)
    &&& post.tree.rect_of(w as int) == pre.tree.rect_of(w as int)
    &&& post.tree.depth_of(w as int) == pre.tree.depth_of(w as int)
    &&& forall|j: int|
        pre.tree.valid_id(j) && j != w ==> post.tree.nodes[j] == pre.tree.nodes[j]
    &&& post.is_paused == pre.is_paused
    &&& post.pending_sync == pre.pending_sync
}

/// The full effect of dropping a temporarily floated window back into
/// tiling: no workspace is `NoWorkspace` with the state unchanged; an
/// empty target parent converts the window in place; missing geometry of
/// a tiling child is `NoGeometry` with the state unchanged; otherwise the
/// window is converted and attached per the drop rules at a deepest
/// target parent and its nearest tiling child.
pub open spec fn spec_drop_outcome(
    pre: WmState,
    post: WmState,
    w: usize,
    pos: Point,
    gaps: GapsConfig,
    r: Result<(), WmError>,
) -> bool {
    match pre.tree.spec_workspace_of(w as int) {
        None => r == Err::<(), WmError>(WmError::NoWorkspace) && post == pre,
        Some(ws) => {
            let tp = pre.tree.spec_deepest_target(ws as int, pos, w);
            match r {
                Ok(_) => {
                    ||| (!pre.tree.spec_has_tiling_child(tp as int) && spec_converted(
                        pre,
                        post,
                        w,
                    ))
                    ||| (match pre.tree.spec_nearest_tiling(tp as int, pos) {
                        Ok(Some(nc)) => exists|mid: WmState|
                            #[trigger] spec_converted(pre, mid, w) && spec_attach_outcome(
                                mid,
                                post,
                                w,
                                tp,
                                nc,
                                spec_drop_position(pos, pre.tree.rect_of(nc as int).unwrap()),
                                gaps,
                            ),
                        _ => false,
                    })
                },
                Err(e) => {
                    &&& post == pre
                    &&& e == WmError::NoGeometry
                    &&& pre.tree.spec_has_tiling_child(tp as int)
                    &&& pre.tree.spec_nearest_tiling(tp as int, pos) == Err::<
                        Option<usize>,
                        WmError,
                    >(WmError::NoGeometry)
                },
            }
        },
    }
}

/// Handles the transition from a temporarily floated window back to a
/// tiling window on drag end: the window is converted in place when its
/// workspace has no tiling content, and otherwise re-parented at the drop
/// target under the mouse. On success the window is a tiling window; on a
/// failed lookup the state is unchanged. With a workspace and every
/// tiling container's geometry known, the drop always succeeds.
pub fn drop_as_tiling_window(
    moved_window: usize,
    mouse_pos: &Point,
    state: &mut WmState,
    config: &UserConfig,
) -> (r: Result<(), WmError>)
    requires
        old(state).wf(),
        old(state).tree.valid_id(moved_window as int),
        old(state).tree.is_non_tiling_window(moved_window as int),
    ensures
        final(state).wf(),
        final(state).is_paused == old(state).is_paused,
        final(state).pending_sync.focus_change == old(state).pending_sync.focus_change,
        final(state).pending_sync.cursor_jump == old(state).pending_sync.cursor_jump,
        final(state).pending_sync.resizes == old(state).pending_sync.resizes,
        spec_drop_outcome(*old(state), *final(state), moved_window, *mouse_pos, config.gaps, r),
        r is Ok ==> {
            &&& final(state).tree.valid_id(moved_window as int)
            &&& final(state).tree.is_tiling_window(moved_window as int)
            &&& final(state).tree.handle_of(moved_window as int) == old(state).tree.handle_of(
                moved_window as int,
            )
        },
        old(state).tree.spec_workspace_of(moved_window as int) is Some && (forall|i: int|
            old(state).tree.valid_id(i) && old(state).tree.is_tiling_container(i) ==> old(
                state,
            ).tree.rect_of(i) is Some) ==> r is Ok,
{
    let workspace = match state.tree.workspace_of(moved_window) {
        Some(ws) => ws,
        None => {
            return Err(WmError::NoWorkspace);
        },
    };
    let target_parent = state.tree.deepest_direction_container_at(
        workspace,
        mouse_pos,
        moved_window,
    );
    if !state.tree.has_tiling_child(target_parent) {
        // an empty workspace: the window simply becomes tiling in place
        state.tree.convert_to_tiling(moved_window);
        proof {
            assert(old(state).tree.spec_is_deepest_target(
                workspace as int,
                *mouse_pos,
                moved_window,
                target_parent,
            ));
            assert(spec_converted(*old(state), *final(state), moved_window));
        }
        return Ok(());
    }
    let nearest_r = state.tree.nearest_tiling_child(target_parent, mouse_pos);
    let nearest = match nearest_r {
        Err(e) => {
            proof {
                assert(old(state).tree.spec_is_deepest_target(
                    workspace as int,
                    *mouse_pos,
                    moved_window,
                    target_parent,
                ));
                let d = choose|d: int|
                    old(state).tree.valid_id(d) && old(state).tree.spec_tiling_child(
                        target_parent as int,
                        d,
                    ) && old(state).tree.rect_of(d) is None;
                assert(old(state).tree.is_tiling_container(d));
            }
            return Err(e);
        },
        Ok(None) => {
            proof {
                assert(false);
            }
            return Err(WmError::NoNearestContainer);
        },
        Ok(Some(c)) => c,
    };
    proof {
        assert(old(state).tree.spec_is_deepest_target(
            workspace as int,
            *mouse_pos,
            moved_window,
            target_parent,
        ));
        assert(old(state).tree.spec_is_nearest_tiling(target_parent, nearest, *mouse_pos));
    }
    let nearest_rect = match state.tree.rect(nearest) {
        Some(rect) => rect,
        None => {
            proof {
                assert(false);
            }
            return Err(WmError::NoGeometry);
        },
    };
    let dp = drop_position(mouse_pos, &nearest_rect);
    let ghost t0 = state.tree;
    state.tree.convert_to_tiling(moved_window);
    proof {
        let t1 = state.tree;
        assert((moved_window as int) != target_parent as int);
        assert(t1.nodes[target_parent as int] == t0.nodes[target_parent as int]);
        assert((moved_window as int) != nearest as int) by {
            assert(t0.is_tiling_container(nearest as int));
        }
        assert(t1.nodes[nearest as int] == t0.nodes[nearest as int]);
        assert(t1.spec_tiling_child(target_parent as int, nearest as int)) by {
            assert(t0.spec_tiling_child(target_parent as int, nearest as int));
            assert(t1.children_of(target_parent as int) == t0.children_of(target_parent as int));
        }
    }
    let ghost mid = *state;
    let ra = attach_window_at_drop_target(state, moved_window, target_parent, nearest, dp, config);
    proof {
        assert(spec_converted(*old(state), mid, moved_window));
        assert(spec_attach_outcome(
            mid,
            *final(state),
            moved_window,
            target_parent,
            nearest,
            dp,
            config.gaps,
        ));
    }
    ra
}

/// The workspace a cross-monitor migration targets, when it proceeds at
/// all: with two or more monitors, the mouse must sit on a monitor other
/// than the window's, and that monitor must display a workspace.
pub open spec fn spec_migration_target(s: WmState, window: usize, pos: Point) -> Option<usize> {
    if s.tree.children_of(0).len() < 2 {
        None
    } else {
        match s.tree.spec_find_monitor(pos) {
            None => None,
            Some(target) => match s.tree.spec_monitor_of(window as int) {
                None => None,
                Some(current) => if target == current {
                    None
                } else {
                    s.tree.spec_displayed_workspace(target as int, 0)
                },
            },
        }
    }
}

/// The window appended as the last and most recently focused child of a
/// workspace, everything else unchanged: the placement a cross-monitor
/// migration starts from before re-running the drop-target logic.
pub open spec fn spec_appended_to_workspace(pre: WmState, post: WmState, w: usize, ws: usize)
    -> bool {
    &&& post.wf()
    &&& post.tree.n() == pre.tree.n()
    &&& post.tree.parent_of(w as int) == Some(ws)
    &&& post.tree.depth_of(w as int) == pre.tree.depth_of(ws as int) + 1
    &&& post.tree.kind_of(w as int) == pre.tree.kind_of(w as int)
    &&& post.tree.rect_of(w as int) == pre.tree.rect_of(w as int)
    &&& ({
        let op = pre.tree.parent_of(w as int).unwrap() as int;
        op != ws ==> {
            &&& post.tree.children_of(op) == pre.tree.children_of(op).remove_value(w)
            &&& post.tree.focus_of(op) == pre.tree.focus_of(op).remove_value(w)
            &&& post.tree.kind_of(op) == pre.tree.kind_of(op)
            &&& post.tree.parent_of(op) == pre.tree.parent_of(op)
            &&& post.tree.rect_of(op) == pre.tree.rect_of(op)
            &&& post.tree.depth_of(op) == pre.tree.depth_of(op)
        }
    })
    &&& ({
        let bc = pre.tree.children_of(ws as int).remove_value(w);
        &&& post.tree.children_of(ws as int) == bc.insert(bc.len() as int, w)
        &&& post.tree.focus_of(ws as int) == pre.tree.focus_of(ws as int).remove_value(w).insert(
            0,
            w,
        )
        &&& post.tree.kind_of(ws as int) == pre.tree.kind_of(ws as int)
        &&& post.tree.parent_of(ws as int) == pre.tree.parent_of(ws as int)
        &&& post.tree.rect_of(ws as int) == pre.tree.rect_of(ws as int)
        &&& post.tree.depth_of(ws as int) == pre.tree.depth_of(ws as int)
    })
    &&& forall|j: int|
        pre.tree.valid_id(j) && j != w && j != ws && pre.tree.parent_of(w as int) != Some(
            j as usize,
        ) ==> post.tree.nodes[j] == pre.tree.nodes[j]
    &&& post.is_paused == pre.is_paused
    &&& post.pending_sync == pre.pending_sync
}

/// The full effect of the optional cross-monitor path: when no migration
/// applies (fewer than two monitors, the mouse outside every monitor or
/// on the window's own, or no displayed workspace on the target), the
/// state is untouched and the call succeeds; otherwise the window is
/// appended to the target monitor's displayed workspace and then placed
/// by the drop-target rules at the mouse position.
pub open spec fn spec_try_arrange_outcome(
    pre: WmState,
    post: WmState,
    window: usize,
    pos: Point,
    gaps: GapsConfig,
    r: Result<(), WmError>,
) -> bool {
    &&& post.wf()
    &&& post.tree.valid_id(window as int)
    &&& post.tree.is_tiling_window(window as int)
    &&& post.tree.handle_of(window as int) == pre.tree.handle_of(window as int)
    &&& post.is_paused == pre.is_paused
    &&& post.pending_sync.focus_change == pre.pending_sync.focus_change
    &&& post.pending_sync.cursor_jump == pre.pending_sync.cursor_jump
    &&& post.pending_sync.resizes == pre.pending_sync.resizes
    &&& match spec_migration_target(pre, window, pos) {
        None => r is Ok && post == pre,
        Some(ws) => exists|mid: WmState|
            #[trigger] spec_appended_to_workspace(pre, mid, window, ws) && spec_move_outcome(
                mid,
                post,
                window,
                pos,
                gaps,
                r,
            ),
    }
}

/// Attempts to migrate a tiling window to another monitor after a drag:
/// with at least two monitors, when the mouse settled on a monitor other
/// than the window's, the window moves to that monitor's displayed
/// workspace and is re-arranged at the mouse position there. Every
/// "nothing to do" outcome is a silent no-op; lookup failures are
/// reported so the caller can skip the optional path.
pub fn try_arrange_window_between_monitors(
    window: usize,
    mouse_pos: &Point,
    state: &mut WmState,
    config: &UserConfig,
) -> (r: Result<(), WmError>)
    requires
        old(state).wf(),
        old(state).tree.valid_id(window as int),
        old(state).tree.is_tiling_window(window as int),
    ensures
        spec_try_arrange_outcome(
            *old(state),
            *final(state),
            window,
            *mouse_pos,
            config.gaps,
            r,
        ),
{
    if state.tree.child_count(0) < 2 {
        return Ok(());
    }
    let target = match find_monitor_by_anchor_point(&state.tree, mouse_pos) {
        Some(m) => m,
        None => {
            return Ok(());
        },
    };
    let current = match state.tree.monitor_of(window) {
        Some(m) => m,
        None => {
            return Ok(());
        },
    };
    if target == current {
        return Ok(());
    }
    proof {
        assert(state.tree.node_wf(0));
        let monitors = state.tree.children_of(0);
        assert(monitors.contains(target));
        state.tree.lemma_backlink(0, target);
    }
    let workspace = match state.tree.displayed_workspace(target) {
        Some(ws) => ws,
        None => {
            return Ok(());
        },
    };
    proof {
        assert(spec_migration_target(*old(state), window, *mouse_pos) == Some(workspace));
        assert(old(state).tree.node_wf(window as int));
    }
    // move the window onto the target monitor's displayed workspace, then
    // re-run the drop-target logic against the mouse position there
    let wcount = state.tree.child_count(workspace);
    state.tree.move_leaf(window, workspace, wcount);
    let ghost mid = *state;
    proof {
        let pre = *old(state);
        let bc = pre.tree.children_of(workspace as int).remove_value(window);
        if (pre.tree.parent_of(window as int).unwrap() as int) == workspace as int {
            assert(pre.tree.children_of(workspace as int).contains(window));
            pre.tree.children_of(workspace as int).index_of_first_ensures(window);
        } else {
            if pre.tree.children_of(workspace as int).contains(window) {
                pre.tree.lemma_backlink(workspace as int, window);
                assert(false);
            }
            pre.tree.children_of(workspace as int).index_of_first_ensures(window);
        }
        assert(mid.tree.children_of(workspace as int) == bc.insert(bc.len() as int, window));
        assert(spec_appended_to_workspace(pre, mid, window, workspace));
    }
    let r = move_window_to_position(window, mouse_pos, state, config);
    proof {
        assert(spec_move_outcome(mid, *final(state), window, *mouse_pos, config.gaps, r));
    }
    r
}

/// A window's drag marker cleared, the tree otherwise untouched.
pub open spec fn spec_drag_cleared_tree(pre: Tree, post: Tree, w: usize) -> bool {
    &&& post.n() == pre.n()
    &&& post.active_drag_of(w as int) is None
    &&& post.is_tiling_window(w as int) == pre.is_tiling_window(w as int)
    &&& post.is_non_tiling_window(w as int) == pre.is_non_tiling_window(w as int)
    &&& post.handle_of(w as int) == pre.handle_of(w as int)
    &&& (pre.is_non_tiling_window(w as int) ==> post.window_state_of(w as int)
        == pre.window_state_of(w as int))
    &&& post.parent_of(w as int) == pre.parent_of(w as int)
    &&& post.children_of(w as int) == pre.children_of(w as int)
    &&& post.focus_of(w as int) == pre.focus_of(w as int)
    &&& post.rect_of(w as int) == pre.rect_of(w as int)
    &&& post.depth_of(w as int) == pre.depth_of(w as int)
    &&& forall|j: int| pre.valid_id(j) && j != w ==> post.nodes[j] == pre.nodes[j]
}

/// A window's drag marker cleared, everything else untouched.
pub open spec fn spec_drag_cleared(pre: WmState, post: WmState, w: usize) -> bool {
    &&& spec_drag_cleared_tree(pre.tree, post.tree, w)
    &&& post.is_paused == pre.is_paused
    &&& post.pending_sync == pre.pending_sync
}

/// Whether a window's drag marker records a move begun from tiling — the
/// condition under which a drag end reverts the window to tiling.
pub open spec fn spec_reverting_drag(t: Tree, w: int) -> bool {
    match t.active_drag_of(w) {
        Some(d) => d.is_from_tiling && d.operation == Some(ActiveDragOperation::Moving),
        None => false,
    }
}

/// Whether a window is the only tiling container of its workspace: the
/// condition under which a resize snaps it back instead.
pub open spec fn spec_sole_tiling_in_workspace(t: Tree, w: usize) -> bool {
    match t.parent_of(w as int) {
        Some(p) => t.is_workspace(p as int) && !(exists|k: int|
            0 <= k < t.children_of(p as int).len() && t.is_tiling_container(
                #[trigger] t.children_of(p as int)[k] as int,
            ) && t.children_of(p as int)[k] != w),
        None => false,
    }
}

/// What follows the optional migration for a resized tiling window, given
/// the state `mid` it left behind and the window's monitor before it:
/// a changed monitor only clears the drag marker (the migration already
/// placed the window); the sole tiling window of its workspace snaps back
/// — a redraw is queued, the rectangle kept; an unavailable refreshed
/// frame skips the resize; a window without previous geometry to resize
/// against is a structural error; otherwise the refreshed frame is
/// recorded, the relative resize (the pixel deltas between the previous
/// and refreshed frame) is queued for the draining collaborator, and a
/// redraw queued. The drag marker is cleared on every path.
pub open spec fn spec_resize_followup(
    mid: WmState,
    post: WmState,
    w: usize,
    pre_monitor: Option<usize>,
    new_frame: Option<Rect>,
    r: Result<(), WmError>,
) -> bool {
    if mid.tree.spec_monitor_of(w as int) != pre_monitor {
        r is Ok && spec_drag_cleared(mid, post, w)
    } else if spec_sole_tiling_in_workspace(mid.tree, w) {
        &&& r is Ok
        &&& spec_drag_cleared_tree(mid.tree, post.tree, w)
        &&& post.pending_sync.containers_to_redraw@ == mid.pending_sync
            .containers_to_redraw@.push(w)
        &&& post.pending_sync.focus_change == mid.pending_sync.focus_change
        &&& post.pending_sync.cursor_jump == mid.pending_sync.cursor_jump
        &&& post.pending_sync.resizes == mid.pending_sync.resizes
        &&& post.is_paused == mid.is_paused
    } else {
        match new_frame {
            None => r is Ok && spec_drag_cleared(mid, post, w),
            Some(f) => match mid.tree.rect_of(w as int) {
                None => r == Err::<(), WmError>(WmError::NoGeometry) && spec_drag_cleared(
                    mid,
                    post,
                    w,
                ),
                Some(old_rect) => {
                    &&& r is Ok
                    &&& post.tree.n() == mid.tree.n()
                    &&& post.tree.rect_of(w as int) == Some(f)
                    &&& post.tree.active_drag_of(w as int) is None
                    &&& post.tree.is_tiling_window(w as int)
                    &&& post.tree.handle_of(w as int) == mid.tree.handle_of(w as int)
                    &&& post.tree.parent_of(w as int) == mid.tree.parent_of(w as int)
                    &&& post.tree.children_of(w as int) == mid.tree.children_of(w as int)
                    &&& post.tree.focus_of(w as int) == mid.tree.focus_of(w as int)
                    &&& post.tree.depth_of(w as int) == mid.tree.depth_of(w as int)
                    &&& forall|j: int|
                        mid.tree.valid_id(j) && j != w ==> post.tree.nodes[j] == mid.tree.nodes[j]
                    &&& post.pending_sync.containers_to_redraw@ == mid.pending_sync
                        .containers_to_redraw@.push(w)
                    &&& post.pending_sync.resizes@ == mid.pending_sync.resizes@.push(
                        ResizeEffect {
                            window: w,
                            width_delta: (f.spec_width() - old_rect.spec_width()) as i64,
                            height_delta: (f.spec_height() - old_rect.spec_height()) as i64,
                        },
                    )
                    &&& post.pending_sync.focus_change == mid.pending_sync.focus_change
                    &&& post.pending_sync.cursor_jump == mid.pending_sync.cursor_jump
                    &&& post.is_paused == mid.is_paused
                },
            },
        }
    }
}

/// Handles the event for when a window is finished being moved or resized
/// by the user: a temporarily floated tiling window dropped mid-move is
/// re-attached as a tiling window; a resized tiling window is first
/// offered cross-monitor migration, then either snapped back (when it is
/// its workspace's only tiling container) or given its refreshed frame,
/// with the relative resize recorded in the pending-sync queue.
/// The caller supplies the refreshed frame and the mouse position, when
/// the platform could provide them. Nothing happens while the manager is
/// paused or for an unmanaged handle; the drag marker of the handled
/// window is cleared on every path, a failed drop included.
pub fn handle_window_moved_or_resized_end(
    native_handle: u64,
    new_frame: Option<Rect>,
    mouse_pos: Option<Point>,
    state: &mut WmState,
    config: &UserConfig,
) -> (r: Result<(), WmError>)
    requires
        old(state).wf(),
    ensures
        final(state).wf(),
        final(state).is_paused == old(state).is_paused,
        old(state).is_paused ==> r is Ok && *final(state) == *old(state),
        final(state).pending_sync.focus_change == old(state).pending_sync.focus_change,
        final(state).pending_sync.cursor_jump == old(state).pending_sync.cursor_jump,
        !old(state).is_paused ==> match old(state).spec_window_from_native(native_handle) {
            None => r is Ok && *final(state) == *old(state),
            Some(w) => {
                if old(state).tree.is_non_tiling_window(w as int) {
                    if spec_reverting_drag(old(state).tree, w as int) {
                        match mouse_pos {
                            None => r == Err::<(), WmError>(WmError::PlatformUnavailable)
                                && spec_drag_cleared(*old(state), *final(state), w),
                            Some(pos) => exists|mid: WmState, r1: Result<(), WmError>|
                                #[trigger] spec_drop_outcome(
                                    *old(state),
                                    mid,
                                    w,
                                    pos,
                                    config.gaps,
                                    r1,
                                ) && spec_drag_cleared(mid, *final(state), w) && r == r1,
                        }
                    } else {
                        r is Ok && spec_drag_cleared(*old(state), *final(state), w)
                    }
                } else {
                    match mouse_pos {
                        None => spec_resize_followup(
                            *old(state),
                            *final(state),
                            w,
                            old(state).tree.spec_monitor_of(w as int),
                            new_frame,
                            r,
                        ),
                        Some(pos) => exists|mid: WmState, r1: Result<(), WmError>|
                            #[trigger] spec_try_arrange_outcome(
                                *old(state),
                                mid,
                                w,
                                pos,
                                config.gaps,
                                r1,
                            ) && spec_resize_followup(
                                mid,
                                *final(state),
                                w,
                                old(state).tree.spec_monitor_of(w as int),
                                new_frame,
                                r,
                            ),
                    }
                }
            },
        },
{
    if state.is_paused {
        return Ok(());
    }
    let found_window = state.window_from_native(native_handle);
    let window = match found_window {
        Some(w) => w,
        None => {
            return Ok(());
        },
    };
    if matches!(state.tree.kind(window), ContainerKind::NonTilingWindow { .. }) {
        let drag = match state.tree.kind(window) {
            ContainerKind::NonTilingWindow { active_drag, .. } => active_drag,
            _ => None,
        };
        let reverting: bool = match drag {
            Some(active_drag) => active_drag.is_from_tiling && matches!(
                active_drag.operation,
                Some(ActiveDragOperation::Moving),
            ),
            None => false,
        };
        if reverting {
            // the window is a temporary floating window that reverts back
            // to tiling
            let pos = match mouse_pos {
                Some(pos) => pos,
                None => {
                    state.tree.set_active_drag(window, None);
                    return Err(WmError::PlatformUnavailable);
                },
            };
            let r1 = drop_as_tiling_window(window, &pos, state, config);
            let ghost mid = *state;
            proof {
                assert(mid.tree.valid_id(window as int) && mid.tree.is_window(window as int));
            }
            state.tree.set_active_drag(window, None);
            proof {
                assert(spec_drop_outcome(
                    *old(state),
                    mid,
                    window,
                    pos,
                    config.gaps,
                    r1,
                ));
                assert(spec_drag_cleared(mid, *final(state), window));
            }
            r1
        } else {
            state.tree.set_active_drag(window, None);
            Ok(())
        }
    } else {
        let monitor1 = state.tree.monitor_of(window);
        let migration: Result<(), WmError> = match mouse_pos {
            Some(pos) => {
                // a failure of the optional cross-monitor path only skips it
                try_arrange_window_between_monitors(window, &pos, state, config)
            },
            None => Ok(()),
        };
        let ghost mid = *state;
        proof {
            match mouse_pos {
                Some(pos) => {
                    assert(spec_try_arrange_outcome(
                        *old(state),
                        mid,
                        window,
                        pos,
                        config.gaps,
                        migration,
                    ));
                },
                None => {
                    assert(mid == *old(state));
                },
            }
            assert(mid.wf() && mid.tree.valid_id(window as int) && mid.tree.is_tiling_window(
                window as int,
            ));
        }
        let monitor2 = state.tree.monitor_of(window);
        let changed: bool = match (monitor1, monitor2) {
            (Some(a), Some(b)) => a != b,
            (None, None) => false,
            _ => true,
        };
        if changed {
            state.tree.set_active_drag(window, None);
            return Ok(());
        }
        let parent = match state.tree.parent(window) {
            Some(p) => p,
            None => {
                proof {
                    assert(mid.tree.node_wf(window as int));
                    assert(false);
                }
                return Err(WmError::NoDirectionContainer);
            },
        };
        let only_tiling = matches!(state.tree.kind(parent), ContainerKind::Workspace { .. })
            && {
            proof {
                assert(mid.tree.node_wf(window as int));
            }
            let sole = !state.tree.has_other_tiling_child(parent, window);
            sole
        };
        if only_tiling {
            // snap the window back to its original position: only a redraw
            state.pending_sync.queue_container_to_redraw(window);
            state.tree.set_active_drag(window, None);
            return Ok(());
        }
        let frame = match new_frame {
            Some(f) => f,
            None => {
                // the refreshed frame is unavailable: skip the resize
                state.tree.set_active_drag(window, None);
                return Ok(());
            },
        };
        let old_rect = match state.tree.rect(window) {
            Some(orr) => orr,
            None => {
                // no previous geometry to resize against
                state.tree.set_active_drag(window, None);
                return Err(WmError::NoGeometry);
            },
        };
        // apply the refreshed frame as the window's relative resize
        let width_delta: i64 = (frame.right as i64 - frame.left as i64) - (old_rect.right as i64
            - old_rect.left as i64);
        let height_delta: i64 = (frame.bottom as i64 - frame.top as i64) - (old_rect.bottom as i64
            - old_rect.top as i64);
        state.tree.set_rect(window, Some(frame));
        let ghost t_rect = state.tree;
        state.pending_sync.queue_resize(ResizeEffect { window, width_delta, height_delta });
        state.pending_sync.queue_container_to_redraw(window);
        state.tree.set_active_drag(window, None);
        proof {
            let tm = mid.tree;
            let tf = state.tree;
            assert forall|j: int| tm.valid_id(j) && j != window as int implies tf.nodes[j]
                == tm.nodes[j] by {
                assert(t_rect.nodes[j] == tm.nodes[j]);
                assert(t_rect.valid_id(j) && j != window);
                assert(tf.nodes[j] == t_rect.nodes[j]);
            }
            assert(tf.rect_of(window as int) == Some(frame));
            assert(tf.parent_of(window as int) == tm.parent_of(window as int));
            assert(tf.children_of(window as int) == tm.children_of(window as int));
            assert(tf.focus_of(window as int) == tm.focus_of(window as int));
            assert(tf.depth_of(window as int) == tm.depth_of(window as int));
            assert(tf.handle_of(window as int) == tm.handle_of(window as int));
            assert(tf.is_tiling_window(window as int));
            assert(tf.active_drag_of(window as int) is None);
        }
        Ok(())
    }
}

impl Tree {
    /// Whether `p` has a tiling child other than `window` itself.
    pub fn has_other_tiling_child(&self, p: usize, window: usize) -> (r: bool)
        requires
            self.wf(),
            self.valid_id(p as int),
        ensures
            r == exists|k: int|
                0 <= k < self.children_of(p as int).len() && self.is_tiling_container(
                    #[trigger] self.children_of(p as int)[k] as int,
                ) && self.children_of(p as int)[k] != window,
    {
        let count = self.child_count(p);
        let mut k: usize = 0;
        while k < count
            invariant
                self.wf(),
                self.valid_id(p as int),
                count as int == self.children_of(p as int).len(),
                k <= count,
                forall|j: int|
                    0 <= j < k ==> !(self.is_tiling_container(
                        #[trigger] self.children_of(p as int)[j] as int,
                    ) && self.children_of(p as int)[j] != window),
            decreases count - k,
        {
            let c = self.child_at(p, k);
            proof {
                assert(self.node_wf(p as int));
                assert(self.child_ok(p as int, k as int));
            }
            if c != window && matches!(
                self.kind(c),
                ContainerKind::Split { .. } | ContainerKind::TilingWindow { .. },
            ) {
                proof {
                    assert(self.children_of(p as int)[k as int] == c);
                }
                return true;
            }
            k = k + 1;
        }
        false
    }
}


/// Law: a temporarily floated window dropped on the Top edge of a plain
/// tiling window inside a drop-target parent tiling horizontally produces
/// a new split tiling vertically, carrying the configured gaps, standing
/// where the original window stood, and holding the dropped window before
/// the original; the dropped window is a tiling window afterwards.
pub proof fn lemma_split_insertion_on_top(
    pre: WmState,
    post: WmState,
    w: usize,
    pos: Point,
    gaps: GapsConfig,
)
    requires
        pre.wf(),
        pre.tree.valid_id(w as int),
        pre.tree.is_non_tiling_window(w as int),
        spec_drop_outcome(pre, post, w, pos, gaps, Ok(())),
        pre.tree.spec_workspace_of(w as int) is Some,
        ({
            let ws = pre.tree.spec_workspace_of(w as int).unwrap() as int;
            let tp = pre.tree.spec_deepest_target(ws, pos, w);
            &&& pre.tree.spec_is_deepest_target(ws, pos, w, tp)
            &&& pre.tree.spec_has_tiling_child(tp as int)
            &&& pre.tree.tiling_direction_of(tp as int) == TilingDirection::Horizontal
            &&& match pre.tree.spec_nearest_tiling(tp as int, pos) {
                Ok(Some(nc)) => pre.tree.valid_id(nc as int) && pre.tree.is_tiling_window(
                    nc as int,
                ) && spec_drop_position(pos, pre.tree.rect_of(nc as int).unwrap())
                    == DropPosition::Top,
                _ => false,
            }
        }),
    ensures
        ({
            let ws = pre.tree.spec_workspace_of(w as int).unwrap() as int;
            let tp = pre.tree.spec_deepest_target(ws, pos, w);
            let nc = pre.tree.spec_nearest_tiling(tp as int, pos).unwrap().unwrap();
            let s = pre.tree.n();
            &&& post.tree.n() == pre.tree.n() + 1
            &&& post.tree.kind_of(s) == (ContainerKind::Split {
                tiling_direction: TilingDirection::Vertical,
                gaps,
            })
            &&& post.tree.parent_of(s) == Some(tp)
            &&& post.tree.children_of(s) == seq![w, nc]
            &&& post.tree.is_tiling_window(w as int)
        }),
{
    let ws = pre.tree.spec_workspace_of(w as int).unwrap() as int;
    let tp = pre.tree.spec_deepest_target(ws, pos, w);
    let nc = pre.tree.spec_nearest_tiling(tp as int, pos).unwrap().unwrap();
    let dp = spec_drop_position(pos, pre.tree.rect_of(nc as int).unwrap());
    // the empty-target disjunct of the drop outcome is excluded, so the
    // drop went through conversion and attachment
    assert(exists|mid: WmState|
        #[trigger] spec_converted(pre, mid, w) && spec_attach_outcome(
            mid,
            post,
            w,
            tp,
            nc,
            dp,
            gaps,
        )) by {
        assert(pre.tree.spec_has_tiling_child(tp as int));
    }
    let mid = choose|mid: WmState|
        #[trigger] spec_converted(pre, mid, w) && spec_attach_outcome(
            mid,
            post,
            w,
            tp,
            nc,
            dp,
            gaps,
        );
    // the dropped window is no direction container and no tiling window,
    // so the target parent and the nearest container kept their nodes
    // through the conversion
    assert((tp as int) != w as int);
    assert((nc as int) != w as int);
    assert(mid.tree.nodes[tp as int] == pre.tree.nodes[tp as int]);
    assert(mid.tree.nodes[nc as int] == pre.tree.nodes[nc as int]);
    assert(mid.tree.tiling_direction_of(tp as int) == TilingDirection::Horizontal);
    assert(mid.tree.spec_should_split(nc as int, TilingDirection::Horizontal, dp));
    assert(mid.tree.n() == pre.tree.n());
}

} // verus!
