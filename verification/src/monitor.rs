//! Monitor/point resolution: mapping a screen point to the monitor whose
//! rectangle contains it.

use vstd::prelude::*;
use crate::geometry::Point;
use crate::tree::{ContainerKind, Tree};

verus! {

impl Tree {
    /// Whether monitor `m` has known geometry containing `anchor`.
    pub open spec fn spec_monitor_contains(self, m: int, anchor: Point) -> bool {
        &&& self.is_monitor(m)
        &&& match self.rect_of(m) {
            Some(r) => r.spec_contains_point(anchor),
            None => false,
        }
    }

    /// The first monitor at or after position `k` of the root's children
    /// whose known rectangle contains `anchor`.
    pub open spec fn spec_find_monitor_from(self, anchor: Point, k: int) -> Option<usize>
        decreases self.children_of(0).len() - k,
    {
        if k < 0 || k >= self.children_of(0).len() {
            None
        } else if self.spec_monitor_contains(self.children_of(0)[k] as int, anchor) {
            Some(self.children_of(0)[k])
        } else {
            self.spec_find_monitor_from(anchor, k + 1)
        }
    }

    /// The monitor containing `anchor`: the first match in stored order.
    pub open spec fn spec_find_monitor(self, anchor: Point) -> Option<usize> {
        self.spec_find_monitor_from(anchor, 0)
    }
}

/// Finds the monitor that contains the given anchor point: monitors are
/// scanned in the root's stored order and the first whose known rectangle
/// contains the point is returned; a monitor with unknown geometry is
/// skipped. No match is an absence, not an error.
pub fn find_monitor_by_anchor_point(tree: &Tree, anchor: &Point) -> (r: Option<usize>)
    requires
        tree.wf(),
    ensures
        r == tree.spec_find_monitor(*anchor),
        ({
            let monitors = tree.children_of(0);
            match r {
                Some(m) => {
                    &&& tree.valid_id(m as int)
                    &&& tree.spec_monitor_contains(m as int, *anchor)
                    &&& exists|k: int|
                        {
                            &&& 0 <= k < monitors.len()
                            &&& monitors[k] == m
                            &&& forall|j: int|
                                0 <= j < k ==> !tree.spec_monitor_contains(
                                    #[trigger] monitors[j] as int,
                                    *anchor,
                                )
                        }
                },
                None => forall|j: int|
                    0 <= j < monitors.len() ==> !tree.spec_monitor_contains(
                        #[trigger] monitors[j] as int,
                        *anchor,
                    ),
            }
        }),
{
    let count = tree.child_count(0);
    let mut k: usize = 0;
    while k < count
        invariant
            tree.wf(),
            tree.n() >= 1,
            count as int == tree.children_of(0).len(),
            k <= count,
            tree.spec_find_monitor(*anchor) == tree.spec_find_monitor_from(*anchor, k as int),
            forall|j: int|
                0 <= j < k ==> !tree.spec_monitor_contains(
                    #[trigger] tree.children_of(0)[j] as int,
                    *anchor,
                ),
        decreases count - k,
    {
        let m = tree.child_at(0, k);
        proof {
            assert(tree.node_wf(0));
            assert(tree.child_ok(0, k as int));
        }
        if matches!(tree.kind(m), ContainerKind::Monitor) {
            if let Some(rect) = tree.rect(m) {
                if rect.contains_point(anchor) {
                    proof {
                        assert(tree.children_of(0)[k as int] == m);
                    }
                    return Some(m);
                }
            }
        }
        k = k + 1;
    }
    None
}

/// With pairwise disjoint monitor rectangles, at most one monitor can
/// contain any given point, so the first match of the scan is the unique
/// containing monitor.
pub proof fn lemma_monitor_containment_unique(tree: Tree, anchor: Point, m1: int, m2: int)
    requires
        tree.wf(),
        tree.valid_id(m1),
        tree.valid_id(m2),
        tree.spec_monitor_contains(m1, anchor),
        tree.spec_monitor_contains(m2, anchor),
        forall|a: int, b: int|
            tree.valid_id(a) && tree.valid_id(b) && a != b && tree.is_monitor(a)
                && tree.is_monitor(b) && tree.rect_of(a) is Some && tree.rect_of(b) is Some
                ==> !(exists|p: Point|
                #[trigger] tree.rect_of(a).unwrap().spec_contains_point(p) && tree.rect_of(
                    b,
                ).unwrap().spec_contains_point(p)),
    ensures
        m1 == m2,
{
    if m1 != m2 {
        assert(tree.rect_of(m1).unwrap().spec_contains_point(anchor) && tree.rect_of(
            m2,
        ).unwrap().spec_contains_point(anchor));
        assert(exists|p: Point|
            #[trigger] tree.rect_of(m1).unwrap().spec_contains_point(p) && tree.rect_of(
                m2,
            ).unwrap().spec_contains_point(p)) by {
            assert(tree.rect_of(m1).unwrap().spec_contains_point(anchor) && tree.rect_of(
                m2,
            ).unwrap().spec_contains_point(anchor));
        }
        assert(false);
    }
}

} // verus!
