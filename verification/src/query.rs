//! Read-only questions about containers and branches.

use crate::arena::ContainerArena;
use crate::axis::{Layout, NodeKey};
use crate::cache::{leaves_state, ArrangeScope, LeafLayoutInfo};
use crate::measure::Rect;
use crate::node::ContainerData;
use crate::tile::{Tile, WindowId};
use crate::tree::Tree;
use vstd::prelude::*;

verus! {

impl Tree {
    /// Whether some container below the workspace is laid out this way.
    pub open spec fn uses_layout(self, layout: Layout) -> bool {
        exists|k: NodeKey| #[trigger] self.is_split(k) && self.nodes[k].layout == layout
    }
}

impl ContainerArena {
    /// Layout, box and number of children of a container.
    pub fn container_info(&self, key: NodeKey) -> (r: Option<(Layout, Rect, usize)>)
        ensures
            r is Some <==> self@.is_parent(key),
            r matches Some((layout, rect, count)) ==> layout == self@.nodes[key].layout && rect
                == self@.nodes[key].geometry && count == self@.kids(key).len(),
    {
        match self.get_container(key) {
            Some(container) => Some(
                (container.layout(), container.geometry(), container.child_count()),
            ),
            None => None,
        }
    }

    /// Whether a container is one the user can address: it holds several children or was asked
    /// for. The workspace was not.
    pub fn container_is_meaningful_parent(&self, key: NodeKey) -> (r: Option<bool>)
        ensures
            r == if self@.is_parent(key) {
                Some(
                    self@.kids(key).len() > 1 || (self@.is_split(key)
                        && self@.nodes[key].user_created),
                )
            } else {
                None
            },
    {
        match self.get_container(key) {
            Some(container) => {
                let asked_for = match self.get_real_container(key) {
                    Some(container) => container.is_user_container(),
                    None => false,
                };
                Some(container.child_count() > 1 || asked_for)
            },
            None => None,
        }
    }

    /// Whether some container below the workspace is laid out this way. The workspace itself
    /// does not count.
    pub fn contains_layout(&self, layout: Layout) -> (r: bool)
        requires
            self.wf(),
        ensures
            r == self@.uses_layout(layout),
    {
        let order = self.seat().order();
        let mut i: usize = 0;
        while i < order.len()
            invariant
                i <= order@.len(),
                order@ == self@.seat.order,
                forall|j: int|
                    0 <= j < i ==> !(self@.is_split(#[trigger] order@[j])
                        && self@.nodes[order@[j]].layout == layout),
            decreases order@.len() - i,
        {
            if let Some(container) = self.get_real_container(order[i]) {
                if container.common.layout() == layout {
                    assert(self@.is_split(order@[i as int]));
                    return true;
                }
            }
            i = i + 1;
        }
        proof {
            assert forall|k: NodeKey| #[trigger] self@.is_split(k) implies self@.nodes[k].layout
                != layout by {
                assert(order@.contains(k));
                let j = choose|j: int| 0 <= j < order@.len() && order@[j] == k;
                assert(order@[j] == k);
            }
        }
        false
    }

    pub fn focused_window_id(&self) -> (r: Option<WindowId>)
        ensures
            r == match self@.seat.leaf {
                Some(k) => if self@.is_view(k) {
                    Some(self@.nodes[k].tile->0.window.id)
                } else {
                    None
                },
                None => None,
            },
    {
        match self.focused_window() {
            Some(tile) => Some(tile.window.id),
            None => None,
        }
    }

    /// The container the root of a branch is, when it is a split.
    pub fn branch_container(&self, branch_root: NodeKey) -> (r: Option<&ContainerData>)
        ensures
            r is Some <==> self@.is_split(branch_root),
            r matches Some(container) ==> container@ == self@.nodes[branch_root],
    {
        self.get_real_container(branch_root)
    }

    /// The layout of the root of a branch.
    pub fn branch_layout(&self, branch_root: NodeKey) -> (r: Option<Layout>)
        ensures
            r == if self@.is_parent(branch_root) {
                Some(self@.nodes[branch_root].layout)
            } else {
                None
            },
    {
        match self.get_container(branch_root) {
            Some(container) => Some(container.layout()),
            None => None,
        }
    }

    /// How many children the root of a branch has.
    pub fn branch_children_len(&self, branch_root: NodeKey) -> (r: usize)
        ensures
            r == self@.kids(branch_root).len(),
    {
        self.child_count_of(branch_root)
    }

    /// Asks for an arrange after one floating group changed; anything else is not a group.
    pub fn layout_branch(&mut self, branch_root: NodeKey)
        requires
            old(self).wf(),
        ensures
            final(self).wf(),
            final(self)@ == if old(self)@.is_floating(branch_root) {
                old(self)@.arranging(ArrangeScope::Workspace)
            } else {
                old(self)@
            },
    {
        if !self.is_floating_root(branch_root) {
            return;
        }
        self.layout();
    }

    /// The window a branch would hand back as focused.
    pub fn focused_window_in_branch(&self, branch_root: NodeKey) -> (r: Option<&Tile>)
        requires
            self.wf(),
        ensures
            r is Some <==> (self@.branch_view(branch_root) matches Some(k) && self@.is_view(k)),
            r matches Some(tile) ==> tile@ == self@.nodes[self@.branch_view(
                branch_root,
            )->0].tile->0,
    {
        match self.focus_inactive_view_in_branch(branch_root) {
            Some(key) => self.get_tile(key),
            None => None,
        }
    }

    /// The windows the arrange of a branch waits for, as it would place them.
    pub fn pending_leaf_layouts(&self, branch: NodeKey) -> (r: Option<&Vec<LeafLayoutInfo>>)
        ensures
            r is Some <==> crate::commit::awaits(self@.caches.pending, branch),
            r matches Some(leaves) ==> exists|i: int|
                0 <= i < self@.caches.pending.len() && (#[trigger] self@.caches.pending[i]).branch
                    == branch && leaves_state(leaves@) == self@.caches.pending[i].data.leaves
                    && forall|j: int|
                    0 <= j < i ==> (#[trigger] self@.caches.pending[j]).branch != branch,
    {
        let pending = &self.cache().pending_layouts;
        let ghost all = self@.caches.pending;
        let mut i: usize = 0;
        while i < pending.len()
            invariant
                i <= pending@.len(),
                all == self@.caches.pending,
                all == crate::cache::pending_state(pending@),
                forall|j: int| 0 <= j < i ==> (#[trigger] all[j]).branch != branch,
            decreases pending@.len() - i,
        {
            assert(all[i as int] == pending@[i as int]@);
            if pending[i].branch == branch {
                return Some(&pending[i].data.leaf_layouts);
            }
            i = i + 1;
        }
        None
    }
}

} // verus!
