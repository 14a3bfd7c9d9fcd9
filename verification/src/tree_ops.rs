//! Mutations of the container tree: creating containers, promoting focus,
//! re-parenting a window, wrapping a window in a new split container, and
//! converting a floated window back to tiling. Every operation preserves
//! the tree's well-formedness.

use vstd::prelude::*;
use crate::geometry::{Rect, TilingDirection};
use crate::tree::{ActiveDrag, ContainerKind, GapsConfig, Node, Tree, WindowState};

verus! {

impl Tree {
    /// A tree holding only the root container.
    pub fn new() -> (t: Tree)
        ensures
            t.wf(),
            t.n() == 1,
            t.is_root(0),
            t.children_of(0).len() == 0,
    {
        let mut nodes: Vec<Node> = Vec::new();
        nodes.push(
            Node {
                kind: ContainerKind::Root,
                parent: None,
                children: Vec::new(),
                focus_order: Vec::new(),
                rect: None,
                depth: 0,
            },
        );
        let t = Tree { nodes };
        proof {
            assert forall|i: int| t.valid_id(i) implies t.node_wf(i) by {}
        }
        t
    }

    /// Appends a new container as the last child of `parent`; the new
    /// container also becomes the least recently focused child.
    #[verifier::rlimit(60)]
    pub fn add_child(&mut self, parent: usize, kind: ContainerKind, rect: Option<Rect>) -> (r:
        usize)
        requires
            old(self).wf(),
            old(self).valid_id(parent as int),
            Tree::child_kind_ok(old(self).kind_of(parent as int), kind),
            old(self).is_monitor(parent as int) && Tree::kind_displayed(kind) ==> forall|k: int|
                0 <= k < old(self).children_of(parent as int).len() ==> !old(self).displayed_of(
                    old(self).children_of(parent as int)[k] as int,
                ),
        ensures
            final(self).wf(),
            r as int == old(self).n(),
            final(self).n() == old(self).n() + 1,
            final(self).kind_of(r as int) == kind,
            final(self).parent_of(r as int) == Some(parent),
            final(self).rect_of(r as int) == rect,
            final(self).children_of(r as int).len() == 0,
            final(self).focus_of(r as int).len() == 0,
            final(self).depth_of(r as int) == old(self).depth_of(parent as int) + 1,
            final(self).children_of(parent as int) == old(self).children_of(parent as int).push(
                r,
            ),
            final(self).focus_of(parent as int) == old(self).focus_of(parent as int).push(r),
            final(self).kind_of(parent as int) == old(self).kind_of(parent as int),
            final(self).parent_of(parent as int) == old(self).parent_of(parent as int),
            final(self).rect_of(parent as int) == old(self).rect_of(parent as int),
            final(self).depth_of(parent as int) == old(self).depth_of(parent as int),
            forall|j: int|
                old(self).valid_id(j) && j != parent ==> final(self).nodes[j] == old(
                    self,
                ).nodes[j],
    {
        proof {
            self.lemma_depth_bound(parent as int);
        }
        let id = self.nodes.len();
        let d = self.nodes[parent].depth;
        self.nodes.push(
            Node {
                kind,
                parent: Some(parent),
                children: Vec::new(),
                focus_order: Vec::new(),
                rect,
                depth: d + 1,
            },
        );
        self.nodes[parent].children.push(id);
        self.nodes[parent].focus_order.push(id);
        proof {
            let pre = *old(self);
            let post = *self;
            let pc = pre.children_of(parent as int);
            let qc = post.children_of(parent as int);
            let pf = pre.focus_of(parent as int);
            let qf = post.focus_of(parent as int);
            assert forall|i: int| post.valid_id(i) implies post.node_wf(i) by {
                if i == id {
                    assert(post.children_of(parent as int).contains(id)) by {
                        assert(qc[pc.len() as int] == id);
                    }
                } else {
                    assert(pre.node_wf(i));
                    if i == parent {
                        assert forall|k: int| 0 <= k < qc.len() implies post.child_ok(i, k) by {
                            if k < pc.len() {
                                assert(pre.child_ok(parent as int, k));
                                assert(qc[k] == pc[k]);
                            } else {
                                assert(qc[k] == id);
                            }
                        }
                        assert forall|k1: int, k2: int| 0 <= k1 < k2 < qc.len() implies qc[k1]
                            != qc[k2] by {
                            if k2 < pc.len() {
                                assert(pre.node_wf(parent as int));
                            } else {
                                assert(pre.child_ok(parent as int, k1));
                                assert((qc[k1] as int) < pre.n());
                            }
                        }
                        assert forall|k1: int, k2: int| 0 <= k1 < k2 < qf.len() implies qf[k1]
                            != qf[k2] by {
                            if k2 < pf.len() {
                                assert(pre.node_wf(parent as int));
                            } else {
                                assert(qf[k2] == id);
                                assert(pc.contains(pf[k1]));
                                let j = choose|j: int| 0 <= j < pc.len() && pc[j] == pf[k1];
                                assert(pre.child_ok(parent as int, j));
                                assert((qf[k1] as int) < pre.n());
                            }
                        }
                        assert forall|k: int| 0 <= k < qf.len() implies qc.contains(qf[k]) by {
                            if k < pf.len() {
                                assert(pc.contains(pf[k]));
                                let j = choose|j: int| 0 <= j < pc.len() && pc[j] == pf[k];
                                assert(qc[j] == pc[j]);
                            } else {
                                assert(qf[k] == id);
                                assert(qc[qc.len() - 1] == id);
                            }
                        }
                        if post.is_monitor(i) {
                            assert forall|k1: int, k2: int|
                                0 <= k1 < k2 < qc.len() implies !(post.displayed_of(
                                qc[k1] as int,
                            ) && post.displayed_of(qc[k2] as int)) by {
                                if k2 < pc.len() {
                                    assert(pre.node_wf(parent as int));
                                    assert(qc[k1] == pc[k1]);
                                    assert(qc[k2] == pc[k2]);
                                    assert(pre.child_ok(parent as int, k1));
                                    assert(pre.child_ok(parent as int, k2));
                                    assert(post.nodes[pc[k1] as int] == pre.nodes[pc[k1] as int]);
                                    assert(post.nodes[pc[k2] as int] == pre.nodes[pc[k2] as int]);
                                    assert(!(pre.displayed_of(pc[k1] as int) && pre.displayed_of(
                                        pc[k2] as int,
                                    )));
                                } else {
                                    assert(qc[k2] == id);
                                    assert(qc[k1] == pc[k1]);
                                    assert(pre.child_ok(parent as int, k1));
                                    assert(post.nodes[pc[k1] as int] == pre.nodes[pc[k1] as int]);
                                    if Tree::kind_displayed(kind) {
                                        assert(!pre.displayed_of(pc[k1] as int));
                                    } else {
                                        assert(!post.displayed_of(id as int));
                                    }
                                }
                            }
                        }
                    } else {
                        assert(post.nodes[i] == pre.nodes[i]);
                        assert(post.focus_of(i) == pre.focus_of(i));
                        assert(post.children_of(i) == pre.children_of(i));
                        assert forall|k: int|
                            0 <= k < post.children_of(i).len() implies post.child_ok(i, k) by {
                            assert(pre.child_ok(i, k));
                        }
                        if post.is_monitor(i) {
                            assert forall|k1: int, k2: int|
                                0 <= k1 < k2 < post.children_of(i).len() implies !(
                                post.displayed_of(post.children_of(i)[k1] as int)
                                && post.displayed_of(post.children_of(i)[k2] as int)) by {
                                assert(pre.child_ok(i, k1));
                                assert(pre.child_ok(i, k2));
                                assert(pre.node_wf(i));
                            }
                        }
                    }
                    if let Some(q) = post.parent_of(i) {
                        assert(pre.children_of(q as int).contains(i as usize));
                        if q == parent {
                            let j = choose|j: int| 0 <= j < pc.len() && pc[j] == (i as usize);
                            assert(qc[j] == pc[j]);
                            assert(qc.contains(i as usize));
                        }
                    }
                }
            }
        }
        id
    }

    /// Adds a monitor under the root.
    pub fn add_monitor(&mut self, rect: Option<Rect>) -> (r: usize)
        requires
            old(self).wf(),
        ensures
            final(self).wf(),
            r as int == old(self).n(),
            final(self).n() == old(self).n() + 1,
            final(self).is_monitor(r as int),
            final(self).parent_of(r as int) == Some(0usize),
            final(self).rect_of(r as int) == rect,
            final(self).children_of(r as int).len() == 0,
            final(self).focus_of(r as int).len() == 0,
            final(self).children_of(0) == old(self).children_of(0).push(r),
            final(self).focus_of(0) == old(self).focus_of(0).push(r),
            final(self).kind_of(0) == old(self).kind_of(0),
            final(self).parent_of(0) == old(self).parent_of(0),
            final(self).rect_of(0) == old(self).rect_of(0),
            final(self).depth_of(0) == old(self).depth_of(0),
            forall|j: int|
                old(self).valid_id(j) && j != 0 ==> final(self).nodes[j] == old(self).nodes[j],
    {
        proof {
            assert(old(self).node_wf(0));
        }
        self.add_child(0, ContainerKind::Monitor, rect)
    }

    /// Adds a workspace under a monitor. A workspace marked displayed must
    /// be the only displayed workspace of that monitor.
    pub fn add_workspace(
        &mut self,
        monitor: usize,
        tiling_direction: TilingDirection,
        displayed: bool,
        rect: Option<Rect>,
    ) -> (r: usize)
        requires
            old(self).wf(),
            old(self).valid_id(monitor as int),
            old(self).is_monitor(monitor as int),
            displayed ==> forall|k: int|
                0 <= k < old(self).children_of(monitor as int).len() ==> !old(self).displayed_of(
                    old(self).children_of(monitor as int)[k] as int,
                ),
        ensures
            final(self).wf(),
            r as int == old(self).n(),
            final(self).n() == old(self).n() + 1,
            final(self).is_workspace(r as int),
            final(self).kind_of(r as int) == (ContainerKind::Workspace {
                tiling_direction,
                displayed,
            }),
            final(self).parent_of(r as int) == Some(monitor),
            final(self).rect_of(r as int) == rect,
            final(self).children_of(r as int).len() == 0,
            final(self).focus_of(r as int).len() == 0,
            final(self).children_of(monitor as int) == old(self).children_of(
                monitor as int,
            ).push(r),
            final(self).focus_of(monitor as int) == old(self).focus_of(monitor as int).push(r),
            final(self).kind_of(monitor as int) == old(self).kind_of(monitor as int),
            final(self).parent_of(monitor as int) == old(self).parent_of(monitor as int),
            final(self).rect_of(monitor as int) == old(self).rect_of(monitor as int),
            final(self).depth_of(monitor as int) == old(self).depth_of(monitor as int),
            forall|j: int|
                old(self).valid_id(j) && j != monitor ==> final(self).nodes[j] == old(
                    self,
                ).nodes[j],
    {
        self.add_child(monitor, ContainerKind::Workspace { tiling_direction, displayed }, rect)
    }

    /// Adds a tiling window as the last tiling child of a workspace or
    /// split container.
    pub fn add_tiling_window(&mut self, parent: usize, handle: u64, rect: Option<Rect>) -> (r:
        usize)
        requires
            old(self).wf(),
            old(self).valid_id(parent as int),
            old(self).is_direction_container(parent as int),
        ensures
            final(self).wf(),
            r as int == old(self).n(),
            final(self).n() == old(self).n() + 1,
            final(self).kind_of(r as int) == (ContainerKind::TilingWindow {
                handle,
                active_drag: None,
            }),
            final(self).parent_of(r as int) == Some(parent),
            final(self).rect_of(r as int) == rect,
            final(self).children_of(r as int).len() == 0,
            final(self).focus_of(r as int).len() == 0,
            final(self).children_of(parent as int) == old(self).children_of(parent as int).push(
                r,
            ),
            final(self).focus_of(parent as int) == old(self).focus_of(parent as int).push(r),
            final(self).kind_of(parent as int) == old(self).kind_of(parent as int),
            final(self).parent_of(parent as int) == old(self).parent_of(parent as int),
            final(self).rect_of(parent as int) == old(self).rect_of(parent as int),
            final(self).depth_of(parent as int) == old(self).depth_of(parent as int),
            forall|j: int|
                old(self).valid_id(j) && j != parent ==> final(self).nodes[j] == old(
                    self,
                ).nodes[j],
    {
        self.add_child(parent, ContainerKind::TilingWindow { handle, active_drag: None }, rect)
    }

    /// Adds a non-tiling (floating, fullscreen or minimized) window under a
    /// workspace.
    pub fn add_non_tiling_window(
        &mut self,
        workspace: usize,
        handle: u64,
        window_state: WindowState,
        rect: Option<Rect>,
    ) -> (r: usize)
        requires
            old(self).wf(),
            old(self).valid_id(workspace as int),
            old(self).is_workspace(workspace as int),
        ensures
            final(self).wf(),
            r as int == old(self).n(),
            final(self).n() == old(self).n() + 1,
            final(self).kind_of(r as int) == (ContainerKind::NonTilingWindow {
                handle,
                window_state,
                active_drag: None,
            }),
            final(self).parent_of(r as int) == Some(workspace),
            final(self).rect_of(r as int) == rect,
            final(self).children_of(r as int).len() == 0,
            final(self).focus_of(r as int).len() == 0,
            final(self).children_of(workspace as int) == old(self).children_of(
                workspace as int,
            ).push(r),
            final(self).focus_of(workspace as int) == old(self).focus_of(workspace as int).push(
                r,
            ),
            final(self).kind_of(workspace as int) == old(self).kind_of(workspace as int),
            final(self).parent_of(workspace as int) == old(self).parent_of(workspace as int),
            final(self).rect_of(workspace as int) == old(self).rect_of(workspace as int),
            final(self).depth_of(workspace as int) == old(self).depth_of(workspace as int),
            forall|j: int|
                old(self).valid_id(j) && j != workspace ==> final(self).nodes[j] == old(
                    self,
                ).nodes[j],
    {
        self.add_child(
            workspace,
            ContainerKind::NonTilingWindow { handle, window_state, active_drag: None },
            rect,
        )
    }

    /// Adds an (empty) split container under a workspace or split.
    pub fn add_split(
        &mut self,
        parent: usize,
        tiling_direction: TilingDirection,
        gaps: GapsConfig,
        rect: Option<Rect>,
    ) -> (r: usize)
        requires
            old(self).wf(),
            old(self).valid_id(parent as int),
            old(self).is_direction_container(parent as int),
        ensures
            final(self).wf(),
            r as int == old(self).n(),
            final(self).n() == old(self).n() + 1,
            final(self).kind_of(r as int) == (ContainerKind::Split { tiling_direction, gaps }),
            final(self).parent_of(r as int) == Some(parent),
            final(self).rect_of(r as int) == rect,
            final(self).children_of(r as int).len() == 0,
            final(self).focus_of(r as int).len() == 0,
            final(self).children_of(parent as int) == old(self).children_of(parent as int).push(
                r,
            ),
            final(self).focus_of(parent as int) == old(self).focus_of(parent as int).push(r),
            final(self).kind_of(parent as int) == old(self).kind_of(parent as int),
            final(self).parent_of(parent as int) == old(self).parent_of(parent as int),
            final(self).rect_of(parent as int) == old(self).rect_of(parent as int),
            final(self).depth_of(parent as int) == old(self).depth_of(parent as int),
            forall|j: int|
                old(self).valid_id(j) && j != parent ==> final(self).nodes[j] == old(
                    self,
                ).nodes[j],
    {
        self.add_child(parent, ContainerKind::Split { tiling_direction, gaps }, rect)
    }

    /// Records a container's latest native geometry.
    pub fn set_rect(&mut self, i: usize, rect: Option<Rect>)
        requires
            old(self).wf(),
            old(self).valid_id(i as int),
        ensures
            final(self).wf(),
            final(self).n() == old(self).n(),
            final(self).rect_of(i as int) == rect,
            final(self).kind_of(i as int) == old(self).kind_of(i as int),
            final(self).parent_of(i as int) == old(self).parent_of(i as int),
            final(self).children_of(i as int) == old(self).children_of(i as int),
            final(self).focus_of(i as int) == old(self).focus_of(i as int),
            final(self).depth_of(i as int) == old(self).depth_of(i as int),
            forall|j: int|
                old(self).valid_id(j) && j != i ==> final(self).nodes[j] == old(self).nodes[j],
    {
        self.nodes[i].rect = rect;
        proof {
            Tree::lemma_wf_frame(*old(self), *self, i as int);
        }
    }

    /// Replaces a window's active-drag metadata.
    pub fn set_active_drag(&mut self, w: usize, drag: Option<ActiveDrag>)
        requires
            old(self).wf(),
            old(self).valid_id(w as int),
            old(self).is_window(w as int),
        ensures
            final(self).wf(),
            final(self).n() == old(self).n(),
            final(self).active_drag_of(w as int) == drag,
            final(self).is_tiling_window(w as int) == old(self).is_tiling_window(w as int),
            final(self).is_non_tiling_window(w as int) == old(self).is_non_tiling_window(
                w as int,
            ),
            final(self).handle_of(w as int) == old(self).handle_of(w as int),
            old(self).is_non_tiling_window(w as int) ==> final(self).window_state_of(w as int)
                == old(self).window_state_of(w as int),
            final(self).parent_of(w as int) == old(self).parent_of(w as int),
            final(self).children_of(w as int) == old(self).children_of(w as int),
            final(self).focus_of(w as int) == old(self).focus_of(w as int),
            final(self).rect_of(w as int) == old(self).rect_of(w as int),
            final(self).depth_of(w as int) == old(self).depth_of(w as int),
            forall|j: int|
                old(self).valid_id(j) && j != w ==> final(self).nodes[j] == old(self).nodes[j],
    {
        let nk = match self.nodes[w].kind {
            ContainerKind::TilingWindow { handle, .. } => ContainerKind::TilingWindow {
                handle,
                active_drag: drag,
            },
            ContainerKind::NonTilingWindow { handle, window_state, .. } => {
                ContainerKind::NonTilingWindow { handle, window_state, active_drag: drag }
            },
            k => k,
        };
        self.nodes[w].kind = nk;
        proof {
            assert(old(self).node_wf(w as int));
            Tree::lemma_wf_frame(*old(self), *self, w as int);
        }
    }

    /// Converts a temporarily floated window back into a tiling window, in
    /// place: same identifier, parent, position and geometry.
    pub fn convert_to_tiling(&mut self, w: usize)
        requires
            old(self).wf(),
            old(self).valid_id(w as int),
            old(self).is_non_tiling_window(w as int),
        ensures
            final(self).wf(),
            final(self).n() == old(self).n(),
            final(self).kind_of(w as int) == (ContainerKind::TilingWindow {
                handle: old(self).handle_of(w as int),
                active_drag: old(self).active_drag_of(w as int),
            }),
            final(self).parent_of(w as int) == old(self).parent_of(w as int),
            final(self).children_of(w as int) == old(self).children_of(w as int),
            final(self).focus_of(w as int) == old(self).focus_of(w as int),
            final(self).rect_of(w as int) == old(self).rect_of(w as int),
            final(self).depth_of(w as int) == old(self).depth_of(w as int),
            forall|j: int|
                old(self).valid_id(j) && j != w ==> final(self).nodes[j] == old(self).nodes[j],
    {
        let nk = match self.nodes[w].kind {
            ContainerKind::NonTilingWindow { handle, active_drag, .. } => {
                ContainerKind::TilingWindow { handle, active_drag }
            },
            k => k,
        };
        self.nodes[w].kind = nk;
        proof {
            assert(old(self).node_wf(w as int));
            Tree::lemma_wf_frame(*old(self), *self, w as int);
        }
    }
    /// Moves child `c` to the front of `p`'s focus order, making it the
    /// most recently focused child.
    pub fn promote_child_focus(&mut self, p: usize, c: usize)
        requires
            old(self).wf(),
            old(self).valid_id(p as int),
            old(self).children_of(p as int).contains(c),
        ensures
            final(self).wf(),
            final(self).n() == old(self).n(),
            final(self).focus_of(p as int) == old(self).focus_of(p as int).remove_value(
                c,
            ).insert(0, c),
            final(self).children_of(p as int) == old(self).children_of(p as int),
            final(self).kind_of(p as int) == old(self).kind_of(p as int),
            final(self).parent_of(p as int) == old(self).parent_of(p as int),
            final(self).rect_of(p as int) == old(self).rect_of(p as int),
            final(self).depth_of(p as int) == old(self).depth_of(p as int),
            forall|j: int|
                old(self).valid_id(j) && j != p ==> final(self).nodes[j] == old(self).nodes[j],
    {
        proof {
            assert(old(self).node_wf(p as int));
        }
        let count = self.nodes[p].focus_order.len();
        let mut k: usize = 0;
        let ghost pf = self.focus_of(p as int);
        while k < count
            invariant
                self == old(self),
                old(self).wf(),
                old(self).valid_id(p as int),
                old(self).children_of(p as int).contains(c),
                count == pf.len(),
                pf == old(self).focus_of(p as int),
                k <= count,
                forall|j: int| 0 <= j < k ==> pf[j] != c,
            decreases count - k,
        {
            if self.nodes[p].focus_order[k] == c {
                self.nodes[p].focus_order.remove(k);
                self.nodes[p].focus_order.insert(0, c);
                proof {
                    let pre = *old(self);
                    let post = *self;
                    pf.index_of_first_ensures(c);
                    assert(pf.index_of_first(c) == Some(k as int));
                    assert(post.focus_of(p as int) == pf.remove(k as int).insert(0, c));
                    let nf = post.focus_of(p as int);
                    let rv = pf.remove(k as int);
                    pf.remove_ensures(k as int);
                    rv.insert_ensures(0, c);
                    assert(pre.node_wf(p as int));
                    assert forall|k1: int, k2: int| 0 <= k1 < k2 < nf.len() implies nf[k1]
                        != nf[k2] by {
                        assert(nf[k2] == rv[k2 - 1]);
                        if k1 > 0 {
                            assert(nf[k1] == rv[k1 - 1]);
                        } else {
                            if rv[k2 - 1] == c {
                                if k2 - 1 < k {
                                    assert(rv[k2 - 1] == pf[k2 - 1]);
                                } else {
                                    assert(rv[k2 - 1] == pf[k2]);
                                }
                                assert(false);
                            }
                        }
                    }
                    assert forall|j: int| 0 <= j < nf.len() implies pre.children_of(
                        p as int,
                    ).contains(nf[j]) by {
                        if j > 0 {
                            assert(nf[j] == rv[j - 1]);
                            if j - 1 < k {
                                assert(rv[j - 1] == pf[j - 1]);
                            } else {
                                assert(rv[j - 1] == pf[j]);
                            }
                        }
                    }
                    Tree::lemma_wf_frame(pre, post, p as int);
                }
                return ;
            }
            k = k + 1;
        }
        self.nodes[p].focus_order.insert(0, c);
        proof {
            let pre = *old(self);
            let post = *self;
            pf.index_of_first_ensures(c);
            assert(!pf.contains(c));
            assert(pf.remove_value(c) == pf);
            let nf = post.focus_of(p as int);
            pf.insert_ensures(0, c);
            assert(pre.node_wf(p as int));
            assert forall|k1: int, k2: int| 0 <= k1 < k2 < nf.len() implies nf[k1] != nf[k2] by {
                assert(nf[k2] == pf[k2 - 1]);
                if k1 > 0 {
                    assert(nf[k1] == pf[k1 - 1]);
                }
            }
            assert forall|j: int| 0 <= j < nf.len() implies pre.children_of(p as int).contains(
                nf[j],
            ) by {
                if j > 0 {
                    assert(nf[j] == pf[j - 1]);
                }
            }
            Tree::lemma_wf_frame(pre, post, p as int);
        }
    }

    /// The focus path from the root reaches `target`: every ancestor of
    /// `target` records the next container on the path as its most recently
    /// focused child.
    pub open spec fn is_focused_path(self, target: int) -> bool
        decreases self.depth_of(target),
        when self.wf() && self.valid_id(target)
        via Self::is_focused_path_decreases
    {
        match self.parent_of(target) {
            None => true,
            Some(p) => {
                &&& self.focus_of(p as int).len() > 0
                &&& self.focus_of(p as int)[0] == target as usize
                &&& self.is_focused_path(p as int)
            },
        }
    }

    #[via_fn]
    proof fn is_focused_path_decreases(self, target: int) {
        if let Some(p) = self.parent_of(target) {
            assert(self.node_wf(target));
            self.lemma_backlink(p as int, target as usize);
        }
    }

    /// Makes `target` the focused descendant of every one of its
    /// ancestors, up to the root.
    pub fn set_focused_descendant(&mut self, target: usize)
        requires
            old(self).wf(),
            old(self).valid_id(target as int),
        ensures
            final(self).wf(),
            final(self).n() == old(self).n(),
            final(self).is_focused_path(target as int),
            forall|j: int|
                old(self).valid_id(j) && old(self).depth_of(j) >= old(self).depth_of(
                    target as int,
                ) ==> final(self).focus_of(j) == old(self).focus_of(j),
            forall|j: int|
                old(self).valid_id(j) ==> {
                    &&& final(self).kind_of(j) == old(self).kind_of(j)
                    &&& final(self).parent_of(j) == old(self).parent_of(j)
                    &&& final(self).children_of(j) == old(self).children_of(j)
                    &&& final(self).rect_of(j) == old(self).rect_of(j)
                    &&& final(self).depth_of(j) == old(self).depth_of(j)
                },
        decreases old(self).depth_of(target as int),
    {
        let parent = self.parent(target);
        match parent {
            None => {},
            Some(p) => {
                proof {
                    assert(self.node_wf(target as int));
                    self.lemma_backlink(p as int, target);
                }
                self.promote_child_focus(p, target);
                proof {
                    assert(self.depth_of(p as int) == old(self).depth_of(p as int));
                    assert(self.focus_of(p as int)[0] == target);
                }
                let ghost mid = *self;
                self.set_focused_descendant(p);
                proof {
                    assert(self.focus_of(p as int) == mid.focus_of(p as int));
                    assert(self.focus_of(p as int)[0] == target);
                }
            },
        }
    }



    /// First-occurrence removal from a duplicate-free sequence: the result
    /// is duplicate-free, free of the removed value, and keeps every other
    /// element.
    pub proof fn lemma_seq_remove_value(s: Seq<usize>, x: usize)
        requires
            forall|k1: int, k2: int| 0 <= k1 < k2 < s.len() ==> s[k1] != s[k2],
        ensures
            ({
                let r = s.remove_value(x);
                &&& r.len() <= s.len()
                &&& forall|k: int| 0 <= k < r.len() ==> (#[trigger] r[k]) != x
                &&& forall|k: int| 0 <= k < r.len() ==> s.contains(#[trigger] r[k])
                &&& forall|k1: int, k2: int| 0 <= k1 < k2 < r.len() ==> r[k1] != r[k2]
                &&& forall|y: usize| s.contains(y) && y != x ==> r.contains(y)
            }),
    {
        let r = s.remove_value(x);
        s.index_of_first_ensures(x);
        if s.contains(x) {
            let ji = s.index_of_first(x).unwrap();
            s.remove_ensures(ji);
            assert forall|k: int| 0 <= k < r.len() implies (#[trigger] r[k]) != x && s.contains(
                r[k],
            ) by {
                if k < ji {
                    assert(r[k] == s[k]);
                } else {
                    assert(r[k] == s[k + 1]);
                }
            }
            assert forall|k1: int, k2: int| 0 <= k1 < k2 < r.len() implies r[k1] != r[k2] by {
                let m1 = if k1 < ji {
                    k1
                } else {
                    k1 + 1
                };
                let m2 = if k2 < ji {
                    k2
                } else {
                    k2 + 1
                };
                assert(r[k1] == s[m1]);
                assert(r[k2] == s[m2]);
            }
            assert forall|y: usize| s.contains(y) && y != x implies r.contains(y) by {
                let j = choose|j: int| 0 <= j < s.len() && s[j] == y;
                assert(j != ji);
                let m = if j < ji {
                    j
                } else {
                    j - 1
                };
                assert(r[m] == y);
            }
        }
    }

    /// Insertion into a sequence: the result holds the new value, keeps
    /// every old element, and is duplicate-free when the input was and did
    /// not hold the value.
    pub proof fn lemma_seq_insert(s: Seq<usize>, i: int, x: usize)
        requires
            0 <= i <= s.len(),
        ensures
            ({
                let r = s.insert(i, x);
                &&& r.len() == s.len() + 1
                &&& r[i] == x
                &&& r.contains(x)
                &&& forall|k: int| 0 <= k < r.len() ==> ((#[trigger] r[k]) == x || s.contains(r[k]))
                &&& forall|y: usize| s.contains(y) ==> r.contains(y)
                &&& ((forall|k1: int, k2: int| 0 <= k1 < k2 < s.len() ==> s[k1] != s[k2])
                    && !s.contains(x) ==> forall|k1: int, k2: int|
                    0 <= k1 < k2 < r.len() ==> r[k1] != r[k2])
            }),
    {
        let r = s.insert(i, x);
        s.insert_ensures(i, x);
        assert forall|k: int| 0 <= k < r.len() implies ((#[trigger] r[k]) == x || s.contains(
            r[k],
        )) by {
            if k < i {
                assert(r[k] == s[k]);
            } else if k > i {
                assert(r[k] == s[k - 1]);
            }
        }
        assert forall|y: usize| s.contains(y) implies r.contains(y) by {
            let j = choose|j: int| 0 <= j < s.len() && s[j] == y;
            let m = if j < i {
                j
            } else {
                j + 1
            };
            assert(r[m] == y);
        }
        if (forall|k1: int, k2: int| 0 <= k1 < k2 < s.len() ==> s[k1] != s[k2]) && !s.contains(x) {
            assert forall|k1: int, k2: int| 0 <= k1 < k2 < r.len() implies r[k1] != r[k2] by {
                if k1 == i {
                    assert(r[k2] == s[k2 - 1]);
                } else if k2 == i {
                    assert(r[k1] == s[k1]);
                } else {
                    let m1 = if k1 < i {
                        k1
                    } else {
                        k1 - 1
                    };
                    let m2 = if k2 < i {
                        k2
                    } else {
                        k2 - 1
                    };
                    assert(r[k1] == s[m1]);
                    assert(r[k2] == s[m2]);
                }
            }
        }
    }

    /// Well-formedness is preserved by detaching a leaf window from its
    /// parent and inserting it among another container's children.
    #[verifier::rlimit(100)]
    #[verifier::spinoff_prover]
    proof fn lemma_move_leaf_wf(pre: Tree, post: Tree, w: usize, op: usize, np: usize, idx2: int)
        requires
            pre.wf(),
            pre.valid_id(w as int),
            pre.valid_id(np as int),
            pre.is_window(w as int),
            pre.parent_of(w as int) == Some(op),
            Tree::child_kind_ok(pre.kind_of(np as int), pre.kind_of(w as int)),
            post.n() == pre.n(),
            post.parent_of(w as int) == Some(np),
            post.depth_of(w as int) == pre.depth_of(np as int) + 1,
            post.kind_of(w as int) == pre.kind_of(w as int),
            post.children_of(w as int) == pre.children_of(w as int),
            post.focus_of(w as int) == pre.focus_of(w as int),
            op != np ==> {
                &&& post.children_of(op as int) == pre.children_of(op as int).remove_value(w)
                &&& post.focus_of(op as int) == pre.focus_of(op as int).remove_value(w)
                &&& post.kind_of(op as int) == pre.kind_of(op as int)
                &&& post.parent_of(op as int) == pre.parent_of(op as int)
                &&& post.depth_of(op as int) == pre.depth_of(op as int)
            },
            0 <= idx2 <= pre.children_of(np as int).remove_value(w).len(),
            post.children_of(np as int) == pre.children_of(np as int).remove_value(w).insert(
                idx2,
                w,
            ),
            post.focus_of(np as int) == pre.focus_of(np as int).remove_value(w).insert(0, w),
            post.kind_of(np as int) == pre.kind_of(np as int),
            post.parent_of(np as int) == pre.parent_of(np as int),
            post.depth_of(np as int) == pre.depth_of(np as int),
            forall|j: int|
                pre.valid_id(j) && j != w && j != op && j != np ==> post.nodes[j] == pre.nodes[j],
        ensures
            post.wf(),
    {
        let opi = op as int;
        let npi = np as int;
        let wi = w as int;
        assert(pre.node_wf(wi));
        assert(pre.valid_id(opi));
        assert(pre.node_wf(opi));
        assert(pre.node_wf(npi));
        let opc = pre.children_of(opi);
        let opf = pre.focus_of(opi);
        let npc = pre.children_of(npi);
        let npf = pre.focus_of(npi);
        let bc = npc.remove_value(w);
        let bf = npf.remove_value(w);
        Self::lemma_seq_remove_value(opc, w);
        Self::lemma_seq_remove_value(npc, w);
        Self::lemma_seq_remove_value(opf, w);
        Self::lemma_seq_remove_value(npf, w);
        Self::lemma_seq_insert(bc, idx2, w);
        Self::lemma_seq_insert(bf, 0, w);
        // kinds are unchanged on every node
        assert forall|x: int| pre.valid_id(x) implies post.kind_of(x) == pre.kind_of(x) by {}
        // the moved window is in no children sequence but its parent's
        assert forall|x: int, y: usize|
            pre.valid_id(x) && pre.children_of(x).contains(y) implies pre.parent_of(y as int)
            == Some(x as usize) by {
            pre.lemma_backlink(x, y);
        }
        assert forall|i: int| post.valid_id(i) implies post.node_wf(i) by {
            assert(pre.node_wf(i));
            if i == wi {
                assert(post.children_of(npi).contains(w));
                if post.focus_of(wi).len() > 0 {
                    assert(pre.children_of(wi).contains(pre.focus_of(wi)[0]));
                }
            } else {
                let qch = post.children_of(i);
                let qfo = post.focus_of(i);
                if i != npi && i != opi {
                    assert(pre.valid_id(i) && i != w && i != op && i != np);
                    assert(post.nodes[i] == pre.nodes[i]);
                }
                // every child link of i is consistent in the post tree
                assert forall|k: int| 0 <= k < qch.len() implies post.child_ok(i, k) by {
                    let e = qch[k];
                    if i == npi && e == w {
                        assert(post.parent_of(wi) == Some(np));
                    } else {
                        assert(e != w && pre.children_of(i).contains(e)) by {
                            if i == npi {
                                assert(qch == bc.insert(idx2, w));
                                assert(bc.insert(idx2, w)[k] == w || bc.contains(
                                    bc.insert(idx2, w)[k],
                                ));
                                assert(bc.contains(e));
                                let j = choose|j: int| 0 <= j < bc.len() && bc[j] == e;
                                assert(bc[j] != w);
                                assert(npc.contains(bc[j]));
                            } else if i == opi {
                                assert(qch == opc.remove_value(w));
                                assert(opc.remove_value(w)[k] != w);
                                assert(opc.contains(opc.remove_value(w)[k]));
                            } else {
                                assert(qch == pre.children_of(i));
                                assert(pre.children_of(i).contains(e));
                                if e == w {
                                    assert(pre.parent_of(w as int) == Some(i as usize));
                                    assert(false);
                                }
                            }
                        }
                        let j = choose|j: int|
                            0 <= j < pre.children_of(i).len() && pre.children_of(i)[j] == e;
                        assert(pre.child_ok(i, j));
                        assert(post.parent_of(e as int) == pre.parent_of(e as int));
                        assert(post.depth_of(e as int) == pre.depth_of(e as int));
                    }
                }
                assert forall|k1: int, k2: int| 0 <= k1 < k2 < qch.len() implies qch[k1]
                    != qch[k2] by {
                    if i == npi {
                        assert(qch == bc.insert(idx2, w));
                        assert(forall|j1: int, j2: int|
                            0 <= j1 < j2 < bc.len() ==> bc[j1] != bc[j2]);
                        assert(!bc.contains(w)) by {
                            if bc.contains(w) {
                                let j = choose|j: int| 0 <= j < bc.len() && bc[j] == w;
                                assert(bc[j] != w);
                            }
                        }
                        assert(bc.insert(idx2, w)[k1] != bc.insert(idx2, w)[k2]);
                    } else if i == opi && op != np {
                        assert(qch == opc.remove_value(w));
                        assert(opc.remove_value(w)[k1] != opc.remove_value(w)[k2]);
                    } else {
                        assert(qch == pre.children_of(i));
                    }
                }
                assert forall|k1: int, k2: int| 0 <= k1 < k2 < qfo.len() implies qfo[k1]
                    != qfo[k2] by {
                    if i == npi {
                        assert(qfo == bf.insert(0, w));
                        assert(forall|j1: int, j2: int|
                            0 <= j1 < j2 < bf.len() ==> bf[j1] != bf[j2]);
                        assert(!bf.contains(w)) by {
                            if bf.contains(w) {
                                let j = choose|j: int| 0 <= j < bf.len() && bf[j] == w;
                                assert(bf[j] != w);
                            }
                        }
                        assert(bf.insert(0, w)[k1] != bf.insert(0, w)[k2]);
                    } else if i == opi && op != np {
                        assert(qfo == opf.remove_value(w));
                        assert(opf.remove_value(w)[k1] != opf.remove_value(w)[k2]);
                    } else {
                        assert(qfo == pre.focus_of(i));
                    }
                }
                assert forall|k: int| 0 <= k < qfo.len() implies qch.contains(qfo[k]) by {
                    let e = qfo[k];
                    if i == npi {
                        assert(qfo == bf.insert(0, w));
                        if e == w {
                            assert(qch.contains(w));
                        } else {
                            assert(bf.insert(0, w)[k] == w || bf.contains(bf.insert(0, w)[k]));
                            assert(bf.contains(e));
                            let j = choose|j: int| 0 <= j < bf.len() && bf[j] == e;
                            assert(bf[j] != w);
                            assert(npf.contains(bf[j]));
                            assert(npc.contains(e));
                            assert(bc.contains(e));
                            assert(qch.contains(e));
                        }
                    } else if i == opi && op != np {
                        assert(qfo == opf.remove_value(w));
                        assert(opf.remove_value(w)[k] != w);
                        assert(opf.contains(opf.remove_value(w)[k]));
                        assert(opf.contains(e));
                        assert(e != w);
                        assert(opc.contains(e));
                        assert(qch.contains(e));
                    } else {
                        assert(qfo == pre.focus_of(i));
                        assert(qch == pre.children_of(i));
                    }
                }
                // i's own parent still lists it
                if let Some(q) = post.parent_of(i) {
                    let qi = q as int;
                    assert(pre.children_of(qi).contains(i as usize));
                    assert((i as usize) != w);
                    if qi == npi {
                        assert(bc.contains(i as usize));
                        assert(post.children_of(npi).contains(i as usize));
                    } else if qi == opi {
                        assert(post.children_of(opi).contains(i as usize));
                    }
                }
                // windows keep no children
                if post.is_window(i) {
                    if i == npi {
                        assert(!Tree::child_kind_ok(pre.kind_of(npi), pre.kind_of(wi)));
                    }
                    if i == opi {
                        assert(pre.children_of(opi).contains(w));
                    }
                }
                // at most one displayed workspace per monitor
                if post.is_monitor(i) {
                    assert(i != npi) by {
                        assert(Tree::child_kind_ok(pre.kind_of(npi), pre.kind_of(wi)));
                    }
                    assert(i != opi) by {
                        assert(pre.children_of(opi).contains(w));
                        assert(Tree::child_kind_ok(pre.kind_of(opi), pre.kind_of(wi)));
                    }
                    assert(qch == pre.children_of(i));
                    assert forall|k1: int, k2: int|
                        0 <= k1 < k2 < qch.len() implies !(post.displayed_of(qch[k1] as int)
                        && post.displayed_of(qch[k2] as int)) by {
                        assert(pre.child_ok(i, k1));
                        assert(pre.child_ok(i, k2));
                        assert(pre.node_wf(i));
                    }
                }
            }
        }
    }

    /// Re-parents a window: detaches it from its current parent and
    /// inserts it among `new_parent`'s children at `index` (clamped to the
    /// number of children after detachment); the moved window becomes the
    /// most recently focused child of its new parent.
    pub fn move_leaf(&mut self, w: usize, new_parent: usize, index: usize)
        requires
            old(self).wf(),
            old(self).valid_id(w as int),
            old(self).valid_id(new_parent as int),
            old(self).is_window(w as int),
            Tree::child_kind_ok(old(self).kind_of(new_parent as int), old(self).kind_of(w as int)),
        ensures
            final(self).wf(),
            final(self).n() == old(self).n(),
            final(self).parent_of(w as int) == Some(new_parent),
            final(self).depth_of(w as int) == old(self).depth_of(new_parent as int) + 1,
            final(self).kind_of(w as int) == old(self).kind_of(w as int),
            final(self).rect_of(w as int) == old(self).rect_of(w as int),
            ({
                let op = old(self).parent_of(w as int).unwrap() as int;
                op != new_parent ==> {
                    &&& final(self).children_of(op) == old(self).children_of(op).remove_value(w)
                    &&& final(self).focus_of(op) == old(self).focus_of(op).remove_value(w)
                    &&& final(self).kind_of(op) == old(self).kind_of(op)
                    &&& final(self).parent_of(op) == old(self).parent_of(op)
                    &&& final(self).rect_of(op) == old(self).rect_of(op)
                    &&& final(self).depth_of(op) == old(self).depth_of(op)
                }
            }),
            ({
                let bc = old(self).children_of(new_parent as int).remove_value(w);
                let idx2 = if index <= bc.len() {
                    index as int
                } else {
                    bc.len() as int
                };
                &&& final(self).children_of(new_parent as int) == bc.insert(idx2, w)
                &&& final(self).focus_of(new_parent as int) == old(self).focus_of(
                    new_parent as int,
                ).remove_value(w).insert(0, w)
                &&& final(self).kind_of(new_parent as int) == old(self).kind_of(new_parent as int)
                &&& final(self).parent_of(new_parent as int) == old(self).parent_of(
                    new_parent as int,
                )
                &&& final(self).rect_of(new_parent as int) == old(self).rect_of(new_parent as int)
                &&& final(self).depth_of(new_parent as int) == old(self).depth_of(
                    new_parent as int,
                )
            }),
            forall|j: int|
                old(self).valid_id(j) && j != w && j != new_parent && old(self).parent_of(
                    w as int,
                ) != Some(j as usize) ==> final(self).nodes[j] == old(self).nodes[j],
    {
        proof {
            assert(old(self).node_wf(w as int));
            old(self).lemma_depth_bound(new_parent as int);
        }
        let op = match self.parent(w) {
            Some(x) => x,
            None => {
                proof {
                    assert(false);
                }
                0
            },
        };
        proof {
            old(self).lemma_backlink(op as int, w);
        }
        let ghost pre = *self;
        let ghost opc = pre.children_of(op as int);
        let ghost opf = pre.focus_of(op as int);

        // detach from the old parent's children
        let ci = self.index_in_parent(op, w);
        self.nodes[op].children.remove(ci);
        proof {
            assert(pre.node_wf(op as int));
            opc.index_of_first_ensures(w);
            assert forall|j: int| 0 <= j < opc.len() && opc[j] == w implies j == ci as int by {
                if j != ci as int {
                    assert(pre.node_wf(op as int));
                }
            }
            assert(opc.index_of_first(w) == Some(ci as int));
            assert(self.children_of(op as int) == opc.remove_value(w));
        }

        // detach from the old parent's focus order, if present
        let fcount = self.nodes[op].focus_order.len();
        let mut fk: usize = 0;
        let mut ffound: bool = false;
        while fk < fcount && !ffound
            invariant
                fcount == self.focus_of(op as int).len(),
                op < self.n(),
                fk <= fcount,
                self.focus_of(op as int) == opf,
                !ffound ==> forall|j: int| 0 <= j < fk ==> opf[j] != w,
                ffound ==> fk < fcount && opf[fk as int] == w && forall|j: int|
                    0 <= j < fk ==> opf[j] != w,
            decreases fcount - fk, (if ffound { 0int } else { 1int }),
        {
            if self.nodes[op].focus_order[fk] == w {
                ffound = true;
            } else {
                fk = fk + 1;
            }
        }
        if ffound {
            self.nodes[op].focus_order.remove(fk);
        }
        proof {
            opf.index_of_first_ensures(w);
            if ffound {
                assert(opf.index_of_first(w) == Some(fk as int));
            } else {
                if opf.contains(w) {
                    let j = choose|j: int| 0 <= j < opf.len() && opf[j] == w;
                    assert(false);
                }
            }
            assert(self.focus_of(op as int) == opf.remove_value(w));
        }

        // attach under the new parent
        let d = self.nodes[new_parent].depth;
        self.nodes[w].parent = Some(new_parent);
        self.nodes[w].depth = d + 1;
        let clen = self.nodes[new_parent].children.len();
        let idx2 = if index <= clen {
            index
        } else {
            clen
        };
        self.nodes[new_parent].children.insert(idx2, w);
        self.nodes[new_parent].focus_order.insert(0, w);

        proof {
            let post = *self;
            if op != new_parent {
                assert forall|j: int|
                    0 <= j < pre.children_of(new_parent as int).len() implies pre.children_of(
                    new_parent as int,
                )[j] != w by {
                    if pre.children_of(new_parent as int)[j] == w {
                        pre.lemma_backlink(new_parent as int, w);
                    }
                }
                pre.children_of(new_parent as int).index_of_first_ensures(w);
                if pre.children_of(new_parent as int).contains(w) {
                    let j = choose|j: int|
                        0 <= j < pre.children_of(new_parent as int).len() && pre.children_of(
                            new_parent as int,
                        )[j] == w;
                    assert(false);
                }
                pre.focus_of(new_parent as int).index_of_first_ensures(w);
                assert(pre.node_wf(new_parent as int));
                if pre.focus_of(new_parent as int).contains(w) {
                    let j = choose|j: int|
                        0 <= j < pre.focus_of(new_parent as int).len() && pre.focus_of(
                            new_parent as int,
                        )[j] == w;
                    assert(pre.children_of(new_parent as int).contains(
                        pre.focus_of(new_parent as int)[j],
                    ));
                    assert(false);
                }
            }
            assert(post.children_of(new_parent as int) == pre.children_of(
                new_parent as int,
            ).remove_value(w).insert(idx2 as int, w));
            assert(post.focus_of(new_parent as int) == pre.focus_of(
                new_parent as int,
            ).remove_value(w).insert(0, w));
            Tree::lemma_move_leaf_wf(pre, post, w, op, new_parent, idx2 as int);
        }
    }

    /// Moves the child at position `from` in `p`'s children to position
    /// `to`, leaving links, depths and the focus order unchanged.
    #[verifier::rlimit(100)]
    pub fn move_child_position(&mut self, p: usize, from: usize, to: usize)
        requires
            old(self).wf(),
            old(self).valid_id(p as int),
            from < old(self).children_of(p as int).len(),
            to < old(self).children_of(p as int).len(),
        ensures
            final(self).wf(),
            final(self).n() == old(self).n(),
            final(self).children_of(p as int) == old(self).children_of(p as int).remove(
                from as int,
            ).insert(to as int, old(self).children_of(p as int)[from as int]),
            final(self).focus_of(p as int) == old(self).focus_of(p as int),
            final(self).kind_of(p as int) == old(self).kind_of(p as int),
            final(self).parent_of(p as int) == old(self).parent_of(p as int),
            final(self).rect_of(p as int) == old(self).rect_of(p as int),
            final(self).depth_of(p as int) == old(self).depth_of(p as int),
            forall|j: int|
                old(self).valid_id(j) && j != p ==> final(self).nodes[j] == old(self).nodes[j],
    {
        let x = self.nodes[p].children[from];
        self.nodes[p].children.remove(from);
        self.nodes[p].children.insert(to, x);
        proof {
            let pre = *old(self);
            let post = *self;
            let pi = p as int;
            let pc = pre.children_of(pi);
            let rc = pc.remove(from as int);
            let qc = post.children_of(pi);
            assert(pre.node_wf(pi));
            pc.remove_ensures(from as int);
            rc.insert_ensures(to as int, x);
            assert(qc == rc.insert(to as int, x));
            assert forall|k: int| 0 <= k < rc.len() implies pc.contains(#[trigger] rc[k]) by {
                if k < from {
                    assert(rc[k] == pc[k]);
                } else {
                    assert(rc[k] == pc[k + 1]);
                }
            }
            assert forall|k: int| 0 <= k < qc.len() implies pc.contains(#[trigger] qc[k]) by {
                if k == to {
                    assert(qc[k] == x);
                } else if k < to {
                    assert(qc[k] == rc[k]);
                } else {
                    assert(qc[k] == rc[k - 1]);
                }
            }
            assert forall|y: usize| pc.contains(y) implies qc.contains(y) by {
                let j = choose|j: int| 0 <= j < pc.len() && pc[j] == y;
                if j == from {
                    assert(qc[to as int] == y);
                } else {
                    let m = if j < from {
                        j
                    } else {
                        j - 1
                    };
                    assert(rc[m] == y);
                    let m2 = if m < to {
                        m
                    } else {
                        m + 1
                    };
                    assert(qc[m2] == y);
                }
            }
            assert forall|k1: int, k2: int| 0 <= k1 < k2 < qc.len() implies qc[k1] != qc[k2] by {
                assert forall|j1: int, j2: int| 0 <= j1 < j2 < rc.len() implies rc[j1]
                    != rc[j2] by {
                    let m1 = if j1 < from {
                        j1
                    } else {
                        j1 + 1
                    };
                    let m2 = if j2 < from {
                        j2
                    } else {
                        j2 + 1
                    };
                    assert(rc[j1] == pc[m1]);
                    assert(rc[j2] == pc[m2]);
                }
                assert forall|j: int| 0 <= j < rc.len() implies rc[j] != x by {
                    let m = if j < from {
                        j
                    } else {
                        j + 1
                    };
                    assert(rc[j] == pc[m]);
                    assert(pc[from as int] == x);
                }
                if k1 == to {
                    assert(qc[k2] == rc[k2 - 1]);
                } else if k2 == to {
                    assert(qc[k1] == rc[k1]);
                } else {
                    let m1 = if k1 < to {
                        k1
                    } else {
                        k1 - 1
                    };
                    let m2 = if k2 < to {
                        k2
                    } else {
                        k2 - 1
                    };
                    assert(qc[k1] == rc[m1]);
                    assert(qc[k2] == rc[m2]);
                }
            }
            assert forall|i: int| post.valid_id(i) implies post.node_wf(i) by {
                assert(pre.node_wf(i));
                if i != pi {
                    assert(post.nodes[i] == pre.nodes[i]);
                }
                assert(post.focus_of(i) == pre.focus_of(i));
                assert forall|k: int| 0 <= k < post.children_of(i).len() implies post.child_ok(
                    i,
                    k,
                ) by {
                    let e = post.children_of(i)[k];
                    assert(pre.children_of(i).contains(e)) by {
                        if i != pi {
                            assert(post.children_of(i) == pre.children_of(i));
                        }
                    }
                    let j = choose|j: int|
                        0 <= j < pre.children_of(i).len() && pre.children_of(i)[j] == e;
                    assert(pre.child_ok(i, j));
                    assert(post.parent_of(e as int) == pre.parent_of(e as int));
                    assert(post.depth_of(e as int) == pre.depth_of(e as int));
                }
                assert forall|k: int| 0 <= k < post.focus_of(i).len() implies post.children_of(
                    i,
                ).contains(post.focus_of(i)[k]) by {
                    assert(post.focus_of(i) == pre.focus_of(i));
                    assert(pre.children_of(i).contains(pre.focus_of(i)[k]));
                    if i != pi {
                        assert(post.children_of(i) == pre.children_of(i));
                    }
                }
                if let Some(q) = post.parent_of(i) {
                    assert(pre.children_of(q as int).contains(i as usize));
                    if q == p {
                        assert(post.children_of(q as int).contains(i as usize));
                    }
                }
                if post.is_monitor(i) {
                    assert forall|k1: int, k2: int|
                        0 <= k1 < k2 < post.children_of(i).len() implies !(post.displayed_of(
                        post.children_of(i)[k1] as int,
                    ) && post.displayed_of(post.children_of(i)[k2] as int)) by {
                        let e1 = post.children_of(i)[k1];
                        let e2 = post.children_of(i)[k2];
                        assert(pre.children_of(i).contains(e1) && pre.children_of(i).contains(e2))
                            by {
                            if i != pi {
                                assert(post.children_of(i) == pre.children_of(i));
                            }
                        }
                        let j1 = choose|j: int|
                            0 <= j < pre.children_of(i).len() && pre.children_of(i)[j] == e1;
                        let j2 = choose|j: int|
                            0 <= j < pre.children_of(i).len() && pre.children_of(i)[j] == e2;
                        assert(pre.child_ok(i, j1));
                        assert(pre.child_ok(i, j2));
                        assert(e1 != e2);
                        assert(j1 != j2);
                        assert(pre.node_wf(i));
                        assert(!(pre.displayed_of(e1 as int) && pre.displayed_of(e2 as int))) by {
                            if j1 < j2 {
                                assert(pre.children_of(i)[j1] == e1);
                            } else {
                                assert(pre.children_of(i)[j2] == e2);
                            }
                        }
                        assert(post.nodes[e1 as int] == pre.nodes[e1 as int] || (e1 as int) == pi);
                        assert(post.nodes[e2 as int] == pre.nodes[e2 as int] || (e2 as int) == pi);
                    }
                }
            }
        }
    }

    /// Wraps a tiling window in a newly created split container: the split
    /// takes the window's place among its parent's children and the window
    /// becomes the split's sole child.
    #[verifier::rlimit(100)]
    #[verifier::spinoff_prover]
    pub fn wrap_window_in_split(
        &mut self,
        w: usize,
        tiling_direction: TilingDirection,
        gaps: GapsConfig,
    ) -> (r: usize)
        requires
            old(self).wf(),
            old(self).valid_id(w as int),
            old(self).is_tiling_window(w as int),
        ensures
            final(self).wf(),
            r as int == old(self).n(),
            final(self).n() == old(self).n() + 1,
            final(self).kind_of(r as int) == (ContainerKind::Split { tiling_direction, gaps }),
            final(self).parent_of(r as int) == old(self).parent_of(w as int),
            final(self).children_of(r as int) == seq![w],
            final(self).focus_of(r as int) == seq![w],
            final(self).parent_of(w as int) == Some(r),
            final(self).kind_of(w as int) == old(self).kind_of(w as int),
            final(self).rect_of(w as int) == old(self).rect_of(w as int),
            ({
                let p = old(self).parent_of(w as int).unwrap() as int;
                let ci = old(self).children_of(p).index_of_first(w).unwrap();
                &&& final(self).children_of(p) == old(self).children_of(p).update(ci, r)
                &&& final(self).focus_of(p) == old(self).focus_of(p).remove_value(w).push(r)
                &&& final(self).kind_of(p) == old(self).kind_of(p)
                &&& final(self).parent_of(p) == old(self).parent_of(p)
                &&& final(self).rect_of(p) == old(self).rect_of(p)
            }),
            forall|j: int|
                old(self).valid_id(j) && j != w && old(self).parent_of(w as int) != Some(
                    j as usize,
                ) ==> final(self).nodes[j] == old(self).nodes[j],
    {
        proof {
            assert(old(self).node_wf(w as int));
        }
        let p = match self.parent(w) {
            Some(x) => x,
            None => {
                proof {
                    assert(false);
                }
                0
            },
        };
        let ci = self.index_in_parent(p, w);
        let ghost t0 = *self;
        let split = self.add_split(p, tiling_direction, gaps, None);
        let ghost t1 = *self;
        self.move_leaf(w, split, 0);
        let ghost t2 = *self;
        proof {
            assert(t1.children_of(split as int).len() == 0);
            let ec = t1.children_of(split as int);
            let ef = t1.focus_of(split as int);
            ec.index_of_first_ensures(w);
            ef.index_of_first_ensures(w);
            assert(!ec.contains(w));
            assert(!ef.contains(w));
            assert(ec.remove_value(w) == ec);
            assert(ef.remove_value(w) == ef);
            ec.insert_ensures(0, w);
            ef.insert_ensures(0, w);
            assert(t2.children_of(split as int) =~= seq![w]);
            assert(t2.focus_of(split as int) =~= seq![w]);
            // the split sits past every original child, in particular past ci
            assert((p as int) < t0.n());
            assert(p != split);
            assert(t2.children_of(p as int) == t1.children_of(p as int).remove_value(w));
            assert(t1.children_of(p as int) == t0.children_of(p as int).push(split));
            assert(t0.children_of(p as int)[ci as int] == w);
            assert(t1.children_of(p as int)[ci as int] == w);
            t1.children_of(p as int).index_of_first_ensures(w);
            assert(t1.children_of(p as int).contains(w));
            assert(t2.children_of(p as int).len() == t0.children_of(p as int).len());
            assert(t1.children_of(p as int) == t0.children_of(p as int).push(split));
            t0.children_of(p as int).index_of_first_ensures(w);
            assert forall|j: int|
                0 <= j < t0.children_of(p as int).len() && t0.children_of(p as int)[j]
                    == w implies j == ci as int by {
                if j != ci as int {
                    assert(t0.node_wf(p as int));
                }
            }
            assert(t0.children_of(p as int).index_of_first(w) == Some(ci as int));
        }
        let count = self.child_count(p);
        proof {
            // after the move, the split is the last child of p
            let c1 = t1.children_of(p as int);
            let bc = c1.remove_value(w);
            c1.index_of_first_ensures(w);
            assert(c1[ci as int] == w);
            assert forall|j: int| 0 <= j < c1.len() && c1[j] == w implies j == ci as int by {
                if j != ci as int && j < c1.len() - 1 {
                    assert(t0.node_wf(p as int));
                    assert(c1[j] == t0.children_of(p as int)[j]);
                }
                if j == c1.len() - 1 {
                    assert(c1[j] == split);
                    assert((split as int) >= t0.n());
                    assert(t0.children_of(p as int).contains(w));
                    t0.lemma_backlink(p as int, w);
                }
            }
            assert(c1.index_of_first(w) == Some(ci as int));
            c1.remove_ensures(ci as int);
            assert(t2.children_of(p as int) == bc);
            assert(bc.len() == c1.len() - 1);
            assert((ci as int) < c1.len() - 1) by {
                assert(c1[c1.len() - 1] == split);
                assert((split as int) >= t0.n());
                t0.lemma_backlink(p as int, w);
            }
            assert(bc[bc.len() - 1] == c1[c1.len() - 1]);
            assert(t2.children_of(p as int)[t2.children_of(p as int).len() - 1] == split);
        }
        self.move_child_position(p, count - 1, ci);
        proof {
            let pre = t0;
            let post = *self;
            let pi = p as int;
            let c0 = pre.children_of(pi);
            let c1 = t1.children_of(pi);
            let bc = c1.remove_value(w);
            let c2 = t2.children_of(pi);
            let c3 = post.children_of(pi);
            c1.remove_ensures(ci as int);
            c2.remove_ensures(c2.len() - 1);
            assert(c3 == c2.remove(c2.len() - 1).insert(ci as int, split));
            assert(c3 =~= c0.update(ci as int, split)) by {
                assert(c2 == bc);
                let rc = c2.remove(c2.len() - 1);
                assert(rc.len() == c0.len() - 1);
                assert forall|j: int| 0 <= j < rc.len() implies rc[j] == (if j < ci as int {
                    c0[j]
                } else {
                    c0[j + 1]
                }) by {
                    assert(rc[j] == bc[j]);
                    if j < ci as int {
                        assert(bc[j] == c1[j]);
                    } else {
                        assert(bc[j] == c1[j + 1]);
                    }
                }
                rc.insert_ensures(ci as int, split);
            }
            // p's focus order across the three steps
            let f0 = pre.focus_of(pi);
            let f1 = t1.focus_of(pi);
            assert(f1 == f0.push(split));
            let f2 = t2.focus_of(pi);
            assert(f2 == f1.remove_value(w));
            assert(post.focus_of(pi) == f2);
            assert(f2 =~= f0.remove_value(w).push(split)) by {
                f1.index_of_first_ensures(w);
                f0.index_of_first_ensures(w);
                if f0.contains(w) {
                    let j0 = f0.index_of_first(w).unwrap();
                    assert(f1[j0] == w);
                    assert forall|j: int| 0 <= j < j0 implies f1[j] != w by {
                        assert(f1[j] == f0[j]);
                    }
                    assert(f1.index_of_first(w) == Some(j0));
                    f1.remove_ensures(j0);
                    f0.remove_ensures(j0);
                } else {
                    if f1.contains(w) {
                        let j = choose|j: int| 0 <= j < f1.len() && f1[j] == w;
                        assert(t0.children_of(pi).contains(w));
                        t0.lemma_backlink(pi, w);
                        assert((split as int) >= t0.n());
                        if j < f0.len() {
                            assert(f0[j] == w);
                        }
                        assert(false);
                    }
                }
            }
            // the split container's own fields survive the later steps
            t0.lemma_backlink(pi, w);
            assert(t0.depth_of(w as int) == t0.depth_of(pi) + 1);
            assert((w as int) != pi);
            assert((split as int) != pi);
            assert(t2.valid_id(split as int) && t2.valid_id(w as int));
            assert(t1.kind_of(split as int) == (ContainerKind::Split { tiling_direction, gaps }));
            assert(t2.kind_of(split as int) == t1.kind_of(split as int));
            assert(t2.parent_of(split as int) == t1.parent_of(split as int));
            assert(post.nodes[split as int] == t2.nodes[split as int]);
            assert(post.kind_of(split as int) == t2.kind_of(split as int));
            assert(post.parent_of(split as int) == t2.parent_of(split as int));
            assert(post.children_of(split as int) == t2.children_of(split as int));
            assert(post.focus_of(split as int) == t2.focus_of(split as int));
            assert(t2.nodes[w as int] == post.nodes[w as int]);
            assert(t2.parent_of(w as int) == Some(split));
            assert(t2.kind_of(w as int) == t0.kind_of(w as int));
            assert(t2.rect_of(w as int) == t0.rect_of(w as int));
            assert(split as int == t0.n());
            assert(t1.parent_of(w as int) == Some(p));
            assert forall|j: int|
                t0.valid_id(j) && j != w as int && j != pi implies post.nodes[j] == t0.nodes[j] by {
                assert(0 <= j < t0.n());
                assert(t1.nodes[j] == t0.nodes[j]);
                assert(j != split as int);
                assert((j as usize) as int == j);
                assert((j as usize) != p);
                assert(t1.valid_id(j) && j != w as int && j != split as int && t1.parent_of(
                    w as int,
                ) != Some(j as usize));
                assert(t2.nodes[j] == t1.nodes[j]);
                assert(t2.valid_id(j));
                assert(j != p as int);
                assert(post.nodes[j] == t2.nodes[j]);
            }
        }
        split
    }
}

} // verus!
