//! The container tree: a single arena of nodes (root, monitors, workspaces,
//! split containers, tiling and non-tiling windows) with parent
//! back-references, ordered children, and a per-node focus order. Container
//! identifiers are arena indices, unique and stable for a container's
//! lifetime; algorithms compare containers by identifier.

use vstd::prelude::*;
use crate::geometry::{Rect, TilingDirection};

verus! {

/// State of a non-tiling window.
#[derive(Debug, Clone, Copy, PartialEq, Eq, Structural)]
pub enum WindowState {
    Floating,
    Fullscreen,
    Minimized,
}

/// The operation a window is undergoing while dragged.
#[derive(Debug, Clone, Copy, PartialEq, Eq, Structural)]
pub enum ActiveDragOperation {
    Moving,
    Resizing,
}

/// Transient metadata on a window that is mid-move or mid-resize, recording
/// whether the window was tiling when the drag began.
#[derive(Debug, Clone, Copy)]
pub struct ActiveDrag {
    pub is_from_tiling: bool,
    pub operation: Option<ActiveDragOperation>,
}

/// Gap sizes carried by a split container, copied from the user
/// configuration when the split is created.
#[derive(Debug, Clone, Copy, PartialEq, Eq, Structural)]
pub struct GapsConfig {
    pub inner_gap: i32,
    pub outer_gap: i32,
}

/// The variant of a container, with the data specific to that variant.
#[derive(Debug, Clone, Copy)]
pub enum ContainerKind {
    Root,
    Monitor,
    Workspace { tiling_direction: TilingDirection, displayed: bool },
    Split { tiling_direction: TilingDirection, gaps: GapsConfig },
    TilingWindow { handle: u64, active_drag: Option<ActiveDrag> },
    NonTilingWindow { handle: u64, window_state: WindowState, active_drag: Option<ActiveDrag> },
}

/// One container in the tree. `children` is the tiling/layout order;
/// `focus_order` lists children most recently focused first.
/// `rect` is the container's last known native geometry, if any.
#[derive(Debug, Clone)]
pub struct Node {
    pub kind: ContainerKind,
    pub parent: Option<usize>,
    pub children: Vec<usize>,
    pub focus_order: Vec<usize>,
    pub rect: Option<Rect>,
    pub depth: usize,
}

/// The container tree, exclusively owned by the window-manager state.
#[derive(Debug, Clone)]
pub struct Tree {
    pub nodes: Vec<Node>,
}

impl Tree {
    pub open spec fn n(self) -> int {
        self.nodes.len() as int
    }

    pub open spec fn valid_id(self, i: int) -> bool {
        0 <= i < self.n()
    }

    pub open spec fn kind_of(self, i: int) -> ContainerKind {
        self.nodes[i].kind
    }

    pub open spec fn parent_of(self, i: int) -> Option<usize> {
        self.nodes[i].parent
    }

    pub open spec fn children_of(self, i: int) -> Seq<usize> {
        self.nodes[i].children@
    }

    pub open spec fn focus_of(self, i: int) -> Seq<usize> {
        self.nodes[i].focus_order@
    }

    pub open spec fn rect_of(self, i: int) -> Option<Rect> {
        self.nodes[i].rect
    }

    pub open spec fn depth_of(self, i: int) -> int {
        self.nodes[i].depth as int
    }

    pub open spec fn is_root(self, i: int) -> bool {
        self.kind_of(i) is Root
    }

    pub open spec fn is_monitor(self, i: int) -> bool {
        self.kind_of(i) is Monitor
    }

    pub open spec fn is_workspace(self, i: int) -> bool {
        self.kind_of(i) is Workspace
    }

    pub open spec fn is_split(self, i: int) -> bool {
        self.kind_of(i) is Split
    }

    pub open spec fn is_tiling_window(self, i: int) -> bool {
        self.kind_of(i) is TilingWindow
    }

    pub open spec fn is_non_tiling_window(self, i: int) -> bool {
        self.kind_of(i) is NonTilingWindow
    }

    pub open spec fn is_window(self, i: int) -> bool {
        self.is_tiling_window(i) || self.is_non_tiling_window(i)
    }

    /// A container with a tiling direction: workspace or split.
    pub open spec fn is_direction_container(self, i: int) -> bool {
        self.is_workspace(i) || self.is_split(i)
    }

    /// A container participating in tiling order: split or tiling window.
    pub open spec fn is_tiling_container(self, i: int) -> bool {
        self.is_split(i) || self.is_tiling_window(i)
    }

    pub open spec fn tiling_direction_of(self, i: int) -> TilingDirection {
        match self.kind_of(i) {
            ContainerKind::Workspace { tiling_direction, .. } => tiling_direction,
            ContainerKind::Split { tiling_direction, .. } => tiling_direction,
            _ => arbitrary(),
        }
    }

    pub open spec fn displayed_of(self, i: int) -> bool {
        match self.kind_of(i) {
            ContainerKind::Workspace { displayed, .. } => displayed,
            _ => arbitrary(),
        }
    }

    pub open spec fn handle_of(self, i: int) -> u64 {
        match self.kind_of(i) {
            ContainerKind::TilingWindow { handle, .. } => handle,
            ContainerKind::NonTilingWindow { handle, .. } => handle,
            _ => arbitrary(),
        }
    }

    pub open spec fn window_state_of(self, i: int) -> WindowState {
        match self.kind_of(i) {
            ContainerKind::NonTilingWindow { window_state, .. } => window_state,
            _ => arbitrary(),
        }
    }

    pub open spec fn active_drag_of(self, i: int) -> Option<ActiveDrag> {
        match self.kind_of(i) {
            ContainerKind::TilingWindow { active_drag, .. } => active_drag,
            ContainerKind::NonTilingWindow { active_drag, .. } => active_drag,
            _ => arbitrary(),
        }
    }

    /// A floating non-tiling window: the candidates of floating traversal.
    pub open spec fn is_floating_window(self, i: int) -> bool {
        self.is_non_tiling_window(i) && self.window_state_of(i) is Floating
    }

    /// Whether a container kind is a workspace marked displayed.
    pub open spec fn kind_displayed(kind: ContainerKind) -> bool {
        match kind {
            ContainerKind::Workspace { displayed, .. } => displayed,
            _ => false,
        }
    }

    /// Which container variants may appear as children of which.
    pub open spec fn child_kind_ok(pk: ContainerKind, ck: ContainerKind) -> bool {
        match pk {
            ContainerKind::Root => ck is Monitor,
            ContainerKind::Monitor => ck is Workspace,
            ContainerKind::Workspace { .. } => ck is Split || ck is TilingWindow
                || ck is NonTilingWindow,
            ContainerKind::Split { .. } => ck is Split || ck is TilingWindow,
            ContainerKind::TilingWindow { .. } => false,
            ContainerKind::NonTilingWindow { .. } => false,
        }
    }

    /// The k-th child link of node `i` is consistent: the child is a valid
    /// node whose recorded parent is `i` and whose depth is one greater.
    pub open spec fn child_ok(self, i: int, k: int) -> bool {
        let c = self.children_of(i)[k] as int;
        &&& self.valid_id(c)
        &&& self.parent_of(c) == Some(i as usize)
        &&& self.depth_of(c) == self.depth_of(i) + 1
    }

    /// Everything that must hold of one node: root/parent consistency,
    /// child links, duplicate-free children, a duplicate-free focus order
    /// drawn from the children, variant nesting rules, windows as leaves,
    /// and at most one displayed workspace per monitor.
    pub open spec fn node_wf(self, i: int) -> bool {
        &&& (self.is_root(i) <==> i == 0)
        &&& (self.parent_of(i) is None <==> i == 0)
        &&& (i == 0 ==> self.depth_of(i) == 0)
        &&& match self.parent_of(i) {
            Some(p) => {
                &&& self.valid_id(p as int)
                &&& self.children_of(p as int).contains(i as usize)
                &&& Self::child_kind_ok(self.kind_of(p as int), self.kind_of(i))
            },
            None => true,
        }
        &&& forall|k: int| 0 <= k < self.children_of(i).len() ==> self.child_ok(i, k)
        &&& forall|k1: int, k2: int|
            0 <= k1 < k2 < self.children_of(i).len() ==> self.children_of(i)[k1]
                != self.children_of(i)[k2]
        &&& forall|k1: int, k2: int|
            0 <= k1 < k2 < self.focus_of(i).len() ==> self.focus_of(i)[k1] != self.focus_of(i)[k2]
        &&& forall|k: int|
            0 <= k < self.focus_of(i).len() ==> self.children_of(i).contains(self.focus_of(i)[k])
        &&& (self.is_window(i) ==> self.children_of(i).len() == 0)
        &&& (self.is_monitor(i) ==> forall|k1: int, k2: int|
            0 <= k1 < k2 < self.children_of(i).len() ==> !(self.displayed_of(
                self.children_of(i)[k1] as int,
            ) && self.displayed_of(self.children_of(i)[k2] as int)))
    }

    /// Tree well-formedness: a non-empty arena whose node 0 is the sole
    /// root, with every node satisfying `node_wf`. Every container id
    /// (arena index) appears exactly once by construction.
    pub open spec fn wf(self) -> bool {
        &&& 1 <= self.n()
        &&& forall|i: int| self.valid_id(i) ==> self.node_wf(i)
    }

    /// The set of a node and all its ancestors, following parent links.
    pub open spec fn anc_set(self, i: int) -> Set<int>
        decreases self.depth_of(i),
        when self.wf() && self.valid_id(i)
        via Self::anc_set_decreases
    {
        match self.parent_of(i) {
            None => set![i],
            Some(p) => self.anc_set(p as int).insert(i),
        }
    }

    #[via_fn]
    proof fn anc_set_decreases(self, i: int) {
        assert(self.node_wf(i));
        if let Some(p) = self.parent_of(i) {
            assert(self.children_of(p as int).contains(i as usize));
            let k = choose|k: int|
                0 <= k < self.children_of(p as int).len() && self.children_of(p as int)[k] == (
                i as usize);
            assert(self.child_ok(p as int, k));
        }
    }

    pub proof fn lemma_anc_set(self, i: int)
        requires
            self.wf(),
            self.valid_id(i),
        ensures
            self.anc_set(i).finite(),
            self.anc_set(i).len() == self.depth_of(i) + 1,
            forall|x: int|
                self.anc_set(i).contains(x) ==> self.valid_id(x) && self.depth_of(x)
                    <= self.depth_of(i),
            self.anc_set(i).contains(i),
        decreases self.depth_of(i),
    {
        assert(self.node_wf(i));
        match self.parent_of(i) {
            None => {
                assert(self.anc_set(i) =~= set![i]);
                assert(set![i].len() == 1);
            },
            Some(p) => {
                assert(self.children_of(p as int).contains(i as usize));
                let k = choose|k: int|
                    0 <= k < self.children_of(p as int).len() && self.children_of(p as int)[k] == (
                    i as usize);
                assert(self.child_ok(p as int, k));
                self.lemma_anc_set(p as int);
                assert(!self.anc_set(p as int).contains(i));
            },
        }
    }

    /// In a well-formed tree every node's depth is below the node count, so
    /// `n - depth` is a valid descent measure.
    pub proof fn lemma_depth_bound(self, i: int)
        requires
            self.wf(),
            self.valid_id(i),
        ensures
            self.depth_of(i) < self.n(),
    {
        self.lemma_anc_set(i);
        let s = self.anc_set(i);
        let r = vstd::set_lib::set_int_range(0, self.n());
        assert forall|x: int| s.contains(x) implies r.contains(x) by {
            assert(self.anc_set(i).contains(x));
            assert(self.valid_id(x));
        }
        assert(s.subset_of(r));
        vstd::set_lib::lemma_int_range(0, self.n());
        vstd::set_lib::lemma_len_subset(s, r);
    }

    /// A child's backlink: membership in some node's children determines
    /// the child's parent, depth and validity.
    pub proof fn lemma_backlink(self, p: int, c: usize)
        requires
            self.wf(),
            self.valid_id(p),
            self.children_of(p).contains(c),
        ensures
            self.valid_id(c as int),
            self.parent_of(c as int) == Some(p as usize),
            self.depth_of(c as int) == self.depth_of(p) + 1,
            Self::child_kind_ok(self.kind_of(p), self.kind_of(c as int)),
    {
        assert(self.node_wf(p));
        let k = choose|k: int|
            0 <= k < self.children_of(p).len() && self.children_of(p)[k] == c;
        assert(self.child_ok(p, k));
        assert(self.node_wf(c as int));
    }

    /// Well-formedness is preserved by any change that keeps every link,
    /// depth, children sequence and focus sequence, and changes at most the
    /// kind of one node `w` — and that only to a kind its parent accepts,
    /// with the displayed flag unchanged and no children under `w`.
    pub proof fn lemma_wf_frame(pre: Tree, post: Tree, w: int)
        requires
            pre.wf(),
            post.n() == pre.n(),
            pre.valid_id(w),
            forall|x: int| pre.valid_id(x) ==> post.parent_of(x) == pre.parent_of(x),
            forall|x: int| pre.valid_id(x) ==> post.depth_of(x) == pre.depth_of(x),
            forall|x: int| pre.valid_id(x) ==> post.children_of(x) == pre.children_of(x),
            forall|x: int| pre.valid_id(x) && x != w ==> post.focus_of(x) == pre.focus_of(x),
            post.focus_of(w) == pre.focus_of(w) || {
                &&& forall|k1: int, k2: int|
                    0 <= k1 < k2 < post.focus_of(w).len() ==> post.focus_of(w)[k1]
                        != post.focus_of(w)[k2]
                &&& forall|k: int|
                    0 <= k < post.focus_of(w).len() ==> pre.children_of(w).contains(
                        post.focus_of(w)[k],
                    )
            },
            forall|x: int| pre.valid_id(x) && x != w ==> post.kind_of(x) == pre.kind_of(x),
            post.kind_of(w) == pre.kind_of(w) || {
                &&& !(post.kind_of(w) is Root)
                &&& match pre.parent_of(w) {
                    Some(p) => Tree::child_kind_ok(pre.kind_of(p as int), post.kind_of(w)),
                    None => false,
                }
                &&& Tree::kind_displayed(post.kind_of(w)) == Tree::kind_displayed(pre.kind_of(w))
                &&& pre.children_of(w).len() == 0
            },
        ensures
            post.wf(),
    {
        assert forall|j: int| post.valid_id(j) implies post.node_wf(j) by {
            assert(pre.node_wf(j));
            assert forall|k: int| 0 <= k < post.children_of(j).len() implies post.child_ok(
                j,
                k,
            ) by {
                assert(pre.child_ok(j, k));
            }
            if let Some(p) = post.parent_of(j) {
                if p as int == w && !(post.kind_of(w) == pre.kind_of(w)) {
                    assert(pre.children_of(w).contains(j as usize));
                    assert(false);
                }
            }
            if post.is_monitor(j) {
                assert forall|k1: int, k2: int|
                    0 <= k1 < k2 < post.children_of(j).len() implies !(post.displayed_of(
                    post.children_of(j)[k1] as int,
                ) && post.displayed_of(post.children_of(j)[k2] as int)) by {
                    assert(pre.child_ok(j, k1));
                    assert(pre.child_ok(j, k2));
                    assert(pre.node_wf(j));
                }
            }
        }
    }

    // ---- read-only accessors -------------------------------------------

    pub fn node_count(&self) -> (r: usize)
        ensures
            r as int == self.n(),
    {
        self.nodes.len()
    }

    pub fn kind(&self, i: usize) -> (r: ContainerKind)
        requires
            self.valid_id(i as int),
        ensures
            r == self.kind_of(i as int),
    {
        self.nodes[i].kind
    }

    pub fn parent(&self, i: usize) -> (r: Option<usize>)
        requires
            self.valid_id(i as int),
        ensures
            r == self.parent_of(i as int),
    {
        self.nodes[i].parent
    }

    pub fn rect(&self, i: usize) -> (r: Option<Rect>)
        requires
            self.valid_id(i as int),
        ensures
            r == self.rect_of(i as int),
    {
        self.nodes[i].rect
    }

    pub fn child_count(&self, i: usize) -> (r: usize)
        requires
            self.valid_id(i as int),
        ensures
            r as int == self.children_of(i as int).len(),
    {
        self.nodes[i].children.len()
    }

    pub fn child_at(&self, i: usize, k: usize) -> (r: usize)
        requires
            self.valid_id(i as int),
            k < self.children_of(i as int).len(),
        ensures
            r == self.children_of(i as int)[k as int],
    {
        self.nodes[i].children[k]
    }

    pub fn focus_at(&self, i: usize, k: usize) -> (r: usize)
        requires
            self.valid_id(i as int),
            k < self.focus_of(i as int).len(),
        ensures
            r == self.focus_of(i as int)[k as int],
    {
        self.nodes[i].focus_order[k]
    }

    /// The position of node `i` within its parent's ordered children.
    pub fn index_in_parent(&self, p: usize, i: usize) -> (r: usize)
        requires
            self.wf(),
            self.valid_id(p as int),
            self.children_of(p as int).contains(i),
        ensures
            r < self.children_of(p as int).len(),
            self.children_of(p as int)[r as int] == i,
    {
        let count = self.child_count(p);
        let mut k: usize = 0;
        while k < count
            invariant
                self.wf(),
                self.valid_id(p as int),
                self.children_of(p as int).contains(i),
                count == self.children_of(p as int).len(),
                k <= count,
                forall|j: int| 0 <= j < k ==> self.children_of(p as int)[j] != i,
            decreases count - k,
        {
            if self.child_at(p, k) == i {
                return k;
            }
            k = k + 1;
        }
        proof {
            let j = choose|j: int|
                0 <= j < self.children_of(p as int).len() && self.children_of(p as int)[j] == i;
            assert(false);
        }
        0
    }

    /// The monitor that a container belongs to: the nearest ancestor (or
    /// the container itself) that is a monitor.
    pub open spec fn spec_monitor_of(self, i: int) -> Option<usize>
        decreases self.depth_of(i),
        when self.wf() && self.valid_id(i)
        via Self::spec_monitor_of_decreases
    {
        if self.is_monitor(i) {
            Some(i as usize)
        } else {
            match self.parent_of(i) {
                None => None,
                Some(p) => self.spec_monitor_of(p as int),
            }
        }
    }

    #[via_fn]
    proof fn spec_monitor_of_decreases(self, i: int) {
        if !self.is_monitor(i) {
            if let Some(p) = self.parent_of(i) {
                self.lemma_backlink(p as int, i as usize);
                assert(self.node_wf(i));
            }
        }
    }

    pub fn monitor_of(&self, i: usize) -> (r: Option<usize>)
        requires
            self.wf(),
            self.valid_id(i as int),
        ensures
            r == self.spec_monitor_of(i as int),
            r is Some ==> self.valid_id(r.unwrap() as int) && self.is_monitor(r.unwrap() as int),
        decreases self.depth_of(i as int),
    {
        match self.kind(i) {
            ContainerKind::Monitor => Some(i),
            _ => {
                match self.parent(i) {
                    None => None,
                    Some(p) => {
                        proof {
                            assert(self.node_wf(i as int));
                            self.lemma_backlink(p as int, i);
                        }
                        self.monitor_of(p)
                    },
                }
            },
        }
    }

    /// The workspace that a container belongs to.
    pub open spec fn spec_workspace_of(self, i: int) -> Option<usize>
        decreases self.depth_of(i),
        when self.wf() && self.valid_id(i)
        via Self::spec_workspace_of_decreases
    {
        if self.is_workspace(i) {
            Some(i as usize)
        } else {
            match self.parent_of(i) {
                None => None,
                Some(p) => self.spec_workspace_of(p as int),
            }
        }
    }

    #[via_fn]
    proof fn spec_workspace_of_decreases(self, i: int) {
        if !self.is_workspace(i) {
            if let Some(p) = self.parent_of(i) {
                assert(self.node_wf(i));
                self.lemma_backlink(p as int, i as usize);
            }
        }
    }

    pub fn workspace_of(&self, i: usize) -> (r: Option<usize>)
        requires
            self.wf(),
            self.valid_id(i as int),
        ensures
            r == self.spec_workspace_of(i as int),
            r is Some ==> self.valid_id(r.unwrap() as int) && self.is_workspace(
                r.unwrap() as int,
            ),
        decreases self.depth_of(i as int),
    {
        match self.kind(i) {
            ContainerKind::Workspace { .. } => Some(i),
            _ => {
                match self.parent(i) {
                    None => None,
                    Some(p) => {
                        proof {
                            assert(self.node_wf(i as int));
                            self.lemma_backlink(p as int, i);
                        }
                        self.workspace_of(p)
                    },
                }
            },
        }
    }
}

} // verus!
