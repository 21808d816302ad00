//! Walking the tree: ancestry, branches, the focus order, and the windows below a node.

use crate::arena::ContainerArena;
use crate::axis::{Layout, NodeKey, ResizeReach};
use crate::tile::{Tile, WindowId};
use crate::tree::{
    acyclic, depth, lemma_active, lemma_branch_step, lemma_depth, lemma_first_of, lineage, room,
    under, Pick, Tree,
};
use vstd::prelude::*;

verus! {

impl Tree {
    /// The window a branch would hand back as focused.
    pub open spec fn branch_view(self, branch: NodeKey) -> Option<NodeKey> {
        if self.is_view(branch) {
            Some(branch)
        } else {
            match self.recent(Pick::ViewInBranch(branch)) {
                Some(c) => Some(c),
                None => self.leaf_under(branch),
            }
        }
    }

    /// The window most recently focused at or below a node.
    pub open spec fn inactive_view(self, k: NodeKey) -> Option<NodeKey> {
        if self.is_view(k) {
            Some(k)
        } else {
            match self.recent(Pick::ViewUnder(k)) {
                Some(c) => Some(c),
                None => self.leaf_under(k),
            }
        }
    }

    /// The most recently focused window of the workspace, on either side.
    pub open spec fn inactive_anywhere(self) -> Option<NodeKey> {
        match self.recent(Pick::View) {
            Some(c) => Some(c),
            None => match self.inactive_view(self.root) {
                Some(c) => Some(c),
                None => if self.all_leaves().len() > 0 {
                    Some(self.all_leaves()[0])
                } else {
                    None
                },
            },
        }
    }

    /// `slot`, if it names a node of this branch.
    pub open spec fn if_in_branch(self, slot: Option<NodeKey>, branch: NodeKey) -> Option<
        NodeKey,
    > {
        match slot {
            Some(k) if self.branch(k) == branch => Some(k),
            _ => None,
        }
    }

    /// Where a command aimed at a branch stands in it: on the selection, on the focused window,
    /// or on the window the branch would hand back.
    pub open spec fn position_in(self, branch: NodeKey) -> Option<NodeKey> {
        match self.if_in_branch(self.seat.selected, branch) {
            Some(k) => Some(k),
            None => match self.if_in_branch(self.seat.leaf, branch) {
                Some(k) => Some(k),
                None => self.branch_view(branch),
            },
        }
    }

    /// The node a command aimed at a branch operates on.
    pub open spec fn target_in(self, branch: NodeKey) -> NodeKey {
        match self.position_in(branch) {
            Some(k) => k,
            None => branch,
        }
    }

    /// The focused window, else the first one.
    pub open spec fn effective_focus(self) -> Option<NodeKey> {
        match self.seat.leaf {
            Some(k) if self.has(k) => Some(k),
            _ => self.leaf_under(self.root),
        }
    }

    /// The selection, else the focused window, else the first one.
    pub open spec fn selected_node(self) -> Option<NodeKey> {
        match self.seat.selected {
            Some(k) if self.has(k) => Some(k),
            _ => match self.seat.leaf {
                Some(k) => Some(k),
                None => self.leaf_under(self.root),
            },
        }
    }

    /// Where a node is listed in its parent.
    pub open spec fn slot_of(self, k: NodeKey) -> Option<(NodeKey, int)> {
        if self.parents.contains_key(k) && self.kids(self.parents[k]).contains(k) {
            Some((self.parents[k], self.kids(self.parents[k]).index_of(k)))
        } else {
            None
        }
    }

    /// The tiles of the windows listed in `keys`.
    pub open spec fn window_ids_of(self, keys: Seq<NodeKey>) -> Seq<WindowId> {
        Seq::new(keys.len(), |i: int| self.nodes[keys[i]].tile->0.window.id)
    }

    /// The floating window commands and rendering treat as active: the focused one, else the
    /// most recently focused.
    pub open spec fn active_floating(self) -> Option<NodeKey> {
        match self.seat.leaf {
            Some(k) if self.is_view(k) && self.in_float(k) => Some(k),
            _ => self.recent(Pick::FloatingView),
        }
    }

    /// Where a new window maps: beside the node most recently focused below the workspace,
    /// unless that is a floating root; then beside the window of the most recent tiled node.
    pub open spec fn map_target(self) -> Option<NodeKey> {
        match self.recent(Pick::BelowWorkspace) {
            Some(k) => if self.is_floating(k) {
                match self.recent(Pick::NodeInBranch(self.root)) {
                    Some(n) => self.inactive_view(n),
                    None => None,
                }
            } else {
                Some(k)
            },
            None => None,
        }
    }

    /// The nearest ancestor laid out in `layout`, with the branch of `k` inside it.
    pub open spec fn enclosing(self, k: NodeKey, layout: Layout) -> Option<(NodeKey, int)>
        decreases depth(self.parents, k),
        when acyclic(self.parents)
    {
        proof {
            if self.parents.contains_key(k) {
                lemma_depth(self.parents, k);
            }
        }
        if !self.parents.contains_key(k) {
            None
        } else {
            let p = self.parents[k];
            if self.is_parent(p) && self.nodes[p].layout == layout {
                self.slot_of(k)
            } else {
                self.enclosing(p, layout)
            }
        }
    }

    /// Whether the child at `idx` has a sibling that `reach` reaches.
    pub open spec fn has_payer(self, p: NodeKey, idx: int, reach: ResizeReach) -> bool {
        match reach {
            ResizeReach::Siblings => self.kids(p).len() > 1,
            ResizeReach::Before => idx > 0,
            ResizeReach::After => idx + 1 < self.kids(p).len(),
        }
    }

    /// The nearest ancestor laid out in `layout` in which a sibling can pay for a resize. The
    /// search ends at an ancestor of that layout that does not list the branch of `k`.
    pub open spec fn paying(self, k: NodeKey, layout: Layout, reach: ResizeReach) -> Option<
        (NodeKey, int),
    >
        decreases depth(self.parents, k),
        when acyclic(self.parents)
    {
        proof {
            if self.parents.contains_key(k) {
                lemma_depth(self.parents, k);
            }
        }
        if !self.parents.contains_key(k) {
            None
        } else {
            let p = self.parents[k];
            if self.is_parent(p) && self.nodes[p].layout == layout {
                match self.slot_of(k) {
                    None => None,
                    Some((q, idx)) => if self.has_payer(p, idx, reach) {
                        Some((q, idx))
                    } else {
                        self.paying(p, layout, reach)
                    },
                }
            } else {
                self.paying(p, layout, reach)
            }
        }
    }
}

/// Under what `slot_of` finds a place, and where.
pub proof fn lemma_slot(t: Tree, p: NodeKey, k: NodeKey, i: int)
    requires
        t.wf(),
        0 <= i < t.kids(p).len(),
        t.kids(p)[i] == k,
    ensures
        t.parents.contains_key(k),
        t.parents[k] == p,
        t.slot_of(k) == Some((p, i)),
        t.has(k),
{
    assert(t.parents.contains_key(t.nodes[p].children[i]));
    let kids = t.nodes[p].children;
    assert(kids.no_duplicates());
    assert(kids.contains(k));
    assert(kids[kids.index_of(k)] == kids[i]);
}

impl ContainerArena {
    /// Whether a node is the root of a floating group.
    pub fn is_floating_root(&self, key: NodeKey) -> (r: bool)
        ensures
            r == self@.is_floating(key),
    {
        self.floating_root_index(key).is_some()
    }

    /// The stack place of a floating group.
    pub fn floating_root_index(&self, key: NodeKey) -> (r: Option<usize>)
        ensures
            r is Some <==> self@.is_floating(key),
            r matches Some(i) ==> i < self@.floating.len() && self@.floating[i as int].key == key
                && forall|j: int| 0 <= j < i ==> (#[trigger] self@.floating[j]).key != key,
    {
        let floating = self.floating();
        let mut i: usize = 0;
        while i < floating.len()
            invariant
                i <= floating.len(),
                floating@ == self@.floating,
                forall|j: int| 0 <= j < i ==> (#[trigger] self@.floating[j]).key != key,
            decreases floating.len() - i,
        {
            if floating[i].key == key {
                assert(self@.floating[i as int].key == key);
                return Some(i);
            }
            i = i + 1;
        }
        None
    }

    /// The root of the branch a node is in.
    pub fn branch_root(&self, key: NodeKey) -> (r: NodeKey)
        requires
            self.wf(),
        ensures
            r == self@.branch(key),
    {
        let mut current = key;
        loop
            invariant
                self.wf(),
                self@.branch(current) == self@.branch(key),
            decreases depth(self@.parents, current),
        {
            match self.parent_of(current) {
                Some(parent) => {
                    proof {
                        lemma_depth(self@.parents, current);
                    }
                    if parent == self.workspace_root() {
                        if self.is_floating_root(current) {
                            return current;
                        } else {
                            return parent;
                        }
                    }
                    current = parent;
                },
                None => {
                    return current;
                },
            }
        }
    }

    /// Whether a node belongs to one of the floating groups.
    pub fn is_in_floating_branch(&self, key: NodeKey) -> (r: bool)
        requires
            self.wf(),
        ensures
            r == self@.in_float(key),
    {
        self.is_floating_root(self.branch_root(key))
    }

    /// Whether the root of a branch is a container that commands can be aimed at. The
    /// workspace is not one; the root of a floating group is.
    pub fn branch_is_addressable(&self, key: NodeKey) -> (r: bool)
        ensures
            r == self@.is_floating(key),
    {
        self.is_floating_root(key)
    }

    /// Whether `key` is `ancestor` or sits somewhere below it.
    pub fn is_descendant(&self, key: NodeKey, ancestor: NodeKey) -> (r: bool)
        requires
            self.wf(),
        ensures
            r == self@.under(key, ancestor),
    {
        let mut current = key;
        loop
            invariant
                self.wf(),
                self@.under(current, ancestor) == self@.under(key, ancestor),
            decreases depth(self@.parents, current),
        {
            if current == ancestor {
                return true;
            }
            match self.parent_of(current) {
                Some(parent) => {
                    proof {
                        lemma_depth(self@.parents, current);
                    }
                    current = parent;
                },
                None => {
                    return false;
                },
            }
        }
    }

    /// A node and its ancestors, the node first.
    pub fn focus_chain(&self, key: NodeKey) -> (r: Vec<NodeKey>)
        requires
            self.wf(),
        ensures
            r@ == lineage(self@.parents, key),
    {
        let mut chain: Vec<NodeKey> = Vec::new();
        let mut current = key;
        chain.push(key);
        assert(chain@.drop_last() + lineage(self@.parents, key) =~= lineage(
            self@.parents,
            key,
        ));
        loop
            invariant
                self.wf(),
                chain@.len() > 0,
                chain@.last() == current,
                chain@.drop_last() + lineage(self@.parents, current) == lineage(
                    self@.parents,
                    key,
                ),
            decreases depth(self@.parents, current),
        {
            match self.parent_of(current) {
                Some(parent) => {
                    proof {
                        lemma_depth(self@.parents, current);
                    }
                    let ghost before = chain@;
                    chain.push(parent);
                    proof {
                        assert(chain@.drop_last() =~= before);
                        assert(before =~= before.drop_last() + seq![current]);
                        assert(before + lineage(self@.parents, parent) =~= before.drop_last() + (
                        seq![current] + lineage(self@.parents, parent)));
                    }
                    current = parent;
                },
                None => {
                    assert(chain@ =~= chain@.drop_last() + seq![current]);
                    return chain;
                },
            }
        }
    }

    fn meets(&self, pick: Pick, key: NodeKey) -> (r: bool)
        requires
            self.wf(),
        ensures
            r == self@.meets(pick, key),
    {
        match pick {
            Pick::View => self.is_leaf(key),
            Pick::ViewUnder(top) => self.is_leaf(key) && self.is_descendant(key, top),
            Pick::ViewInBranch(branch) => self.is_leaf(key) && self.branch_root(key) == branch,
            Pick::FloatingView => self.is_leaf(key) && self.is_in_floating_branch(key),
            Pick::Window(id) => match self.get_tile(key) {
                Some(tile) => tile.window.id == id,
                None => false,
            },
            Pick::NodeInBranch(branch) => key != self.workspace_root() && self.holds_node(key)
                && self.branch_root(key) == branch,
            Pick::BelowWorkspace => key != self.workspace_root() && self.holds_node(key)
                && self.is_descendant(key, self.workspace_root()),
            Pick::ChildOf(parent) => self.parent_of(key) == Some(parent) && (parent
                != self.workspace_root() || self.branch_root(key) == self.workspace_root()),
        }
    }

    /// The most recently focused node that is what is looked for.
    pub fn first_in_order(&self, pick: Pick) -> (r: Option<NodeKey>)
        requires
            self.wf(),
        ensures
            r == self@.recent(pick),
    {
        let order = self.seat().order();
        let mut i: usize = 0;
        assert(order@.skip(0) =~= order@);
        while i < order.len()
            invariant
                self.wf(),
                order@ == self@.seat.order,
                i <= order.len(),
                self@.recent(pick) == self@.first_of(order@.skip(i as int), pick),
            decreases order.len() - i,
        {
            proof {
                assert(order@.skip(i as int).drop_first() =~= order@.skip(i as int + 1));
            }
            if self.meets(pick, order[i]) {
                return Some(order[i]);
            }
            i = i + 1;
        }
        None
    }

    /// The most recently focused child of a node; of the workspace, the tiled one.
    pub fn active_tiling_child(&self, parent: NodeKey) -> (r: Option<NodeKey>)
        requires
            self.wf(),
        ensures
            r == self@.recent(Pick::ChildOf(parent)),
    {
        self.first_in_order(Pick::ChildOf(parent))
    }

    /// The child a parent shows: the most recently focused, else the first.
    pub fn active_child(&self, parent: NodeKey) -> (r: Option<NodeKey>)
        requires
            self.wf(),
        ensures
            r == self@.active(parent),
    {
        match self.active_tiling_child(parent) {
            Some(child) => Some(child),
            None => match self.get_container(parent) {
                Some(container) => container.child_key(0),
                None => None,
            },
        }
    }

    /// Where the active child of a node is listed.
    pub fn active_child_index(&self, parent: NodeKey) -> (r: Option<usize>)
        requires
            self.wf(),
        ensures
            r is Some <==> self@.active(parent) is Some,
            r matches Some(i) ==> i < self@.kids(parent).len() && Some(
                self@.kids(parent)[i as int],
            ) == self@.active(parent),
    {
        proof {
            lemma_active(self@, parent);
        }
        match self.active_child(parent) {
            Some(child) => {
                proof {
                    lemma_active_listed(self@, parent);
                }
                self.child_index(parent, child)
            },
            None => None,
        }
    }

    /// Whether a node is the child its parent would descend to.
    pub fn is_focus_head(&self, key: NodeKey) -> (r: bool)
        requires
            self.wf(),
        ensures
            r == (self@.parent(key) matches Some(parent) && self@.active(parent) == Some(key)),
    {
        match self.parent_of(key) {
            Some(parent) => self.active_child(parent) == Some(key),
            None => false,
        }
    }

    /// The window a node leads to along active children.
    pub fn leaf_under_key(&self, key: NodeKey) -> (r: Option<NodeKey>)
        requires
            self.wf(),
        ensures
            r == self@.leaf_under(key),
            r matches Some(leaf) ==> self@.is_view(leaf),
    {
        let mut current = key;
        loop
            invariant
                self.wf(),
                self@.leaf_under(current) == self@.leaf_under(key),
            decreases room(self@.parents, current),
        {
            proof {
                lemma_active(self@, current);
            }
            match self.get_node(current) {
                Some(node) => {
                    if node.is_view() {
                        return Some(current);
                    }
                    match self.active_child(current) {
                        Some(child) => {
                            proof {
                                lemma_depth(self@.parents, child);
                            }
                            current = child;
                        },
                        None => {
                            return None;
                        },
                    }
                },
                None => {
                    return None;
                },
            }
        }
    }

    /// The first window of the tiled side.
    pub fn first_leaf_key(&self) -> (r: Option<NodeKey>)
        requires
            self.wf(),
        ensures
            r == self@.leaf_under(self@.root),
            r matches Some(k) ==> self@.is_view(k),
    {
        self.leaf_under_key(self.workspace_root())
    }

    /// The first window of one branch.
    pub fn first_leaf_in_branch(&self, branch_root: NodeKey) -> (r: Option<NodeKey>)
        requires
            self.wf(),
        ensures
            r == self@.leaf_under(branch_root),
    {
        self.leaf_under_key(branch_root)
    }

    /// Whether the tiled side holds no windows.
    pub fn is_empty(&self) -> (r: bool)
        requires
            self.wf(),
        ensures
            r == self@.leaf_under(self@.root) is None,
    {
        self.first_leaf_key().is_none()
    }

    /// Whether a branch holds no windows.
    pub fn branch_is_empty(&self, branch_root: NodeKey) -> (r: bool)
        requires
            self.wf(),
        ensures
            r == self@.leaf_under(branch_root) is None,
    {
        self.first_leaf_in_branch(branch_root).is_none()
    }

    /// The most recently focused window at or below a node.
    pub fn focus_inactive_view(&self, key: NodeKey) -> (r: Option<NodeKey>)
        requires
            self.wf(),
        ensures
            r == self@.inactive_view(key),
            r matches Some(k) ==> self@.is_view(k),
    {
        proof {
            lemma_first_of(self@, self@.seat.order, Pick::ViewUnder(key));
        }
        if self.is_leaf(key) {
            return Some(key);
        }
        match self.first_in_order(Pick::ViewUnder(key)) {
            Some(found) => Some(found),
            None => self.leaf_under_key(key),
        }
    }

    /// The most recently focused window of one branch.
    pub fn focus_inactive_view_in_branch(&self, branch_root: NodeKey) -> (r: Option<NodeKey>)
        requires
            self.wf(),
        ensures
            r == self@.branch_view(branch_root),
            r matches Some(k) ==> self@.is_view(k),
    {
        proof {
            lemma_first_of(self@, self@.seat.order, Pick::ViewInBranch(branch_root));
        }
        if self.is_leaf(branch_root) {
            return Some(branch_root);
        }
        match self.first_in_order(Pick::ViewInBranch(branch_root)) {
            Some(found) => Some(found),
            None => self.leaf_under_key(branch_root),
        }
    }

    /// The most recently focused node of one branch but the workspace.
    pub fn focus_inactive_node_in_branch(&self, branch_root: NodeKey) -> (r: Option<NodeKey>)
        requires
            self.wf(),
        ensures
            r == self@.recent(Pick::NodeInBranch(branch_root)),
    {
        self.first_in_order(Pick::NodeInBranch(branch_root))
    }

    /// The most recently focused window of the workspace, on either side.
    pub fn focus_inactive_anywhere(&self) -> (r: Option<NodeKey>)
        requires
            self.wf(),
        ensures
            r == self@.inactive_anywhere(),
            r matches Some(k) ==> self@.is_view(k),
    {
        proof {
            lemma_first_of(self@, self@.seat.order, Pick::View);
            lemma_all_leaves(self@);
        }
        match self.first_in_order(Pick::View) {
            Some(found) => Some(found),
            None => match self.focus_inactive_view(self.workspace_root()) {
                Some(found) => Some(found),
                None => {
                    let leaves = self.dfs_leaf_keys();
                    if leaves.len() > 0 {
                        Some(leaves[0])
                    } else {
                        None
                    }
                },
            },
        }
    }

    /// The node holding the window with this identity.
    pub fn window_key(&self, window_id: WindowId) -> (r: Option<NodeKey>)
        requires
            self.wf(),
        ensures
            r == self@.recent(Pick::Window(window_id)),
            r matches Some(k) ==> self@.is_view(k),
    {
        proof {
            lemma_first_of(self@, self@.seat.order, Pick::Window(window_id));
        }
        self.first_in_order(Pick::Window(window_id))
    }

    /// The most recently focused floating window.
    pub fn inactive_floating_window_id(&self) -> (r: Option<WindowId>)
        requires
            self.wf(),
        ensures
            r == match self@.recent(Pick::FloatingView) {
                Some(k) => Some(self@.nodes[k].tile->0.window.id),
                None => None,
            },
    {
        proof {
            lemma_first_of(self@, self@.seat.order, Pick::FloatingView);
        }
        match self.first_in_order(Pick::FloatingView) {
            Some(key) => match self.get_tile(key) {
                Some(tile) => Some(tile.window.id),
                None => None,
            },
            None => None,
        }
    }

    /// The floating window commands and rendering treat as active.
    pub fn active_floating_window_id(&self) -> (r: Option<WindowId>)
        requires
            self.wf(),
        ensures
            r == match self@.active_floating() {
                Some(k) => Some(self@.nodes[k].tile->0.window.id),
                None => None,
            },
    {
        if let Some(key) = self.focused_key() {
            if let Some(tile) = self.get_tile(key) {
                if self.is_in_floating_branch(key) {
                    return Some(tile.window.id);
                }
            }
        }
        self.inactive_floating_window_id()
    }

    /// Where a command aimed at a branch stands in it.
    pub fn branch_position(&self, branch_root: NodeKey) -> (r: Option<NodeKey>)
        requires
            self.wf(),
        ensures
            r == self@.position_in(branch_root),
    {
        if let Some(key) = self.selected_key() {
            if self.branch_root(key) == branch_root {
                return Some(key);
            }
        }
        if let Some(key) = self.focused_key() {
            if self.branch_root(key) == branch_root {
                return Some(key);
            }
        }
        self.focus_inactive_view_in_branch(branch_root)
    }

    /// The node a command aimed at a branch operates on.
    pub fn command_target_in(&self, branch_root: NodeKey) -> (r: NodeKey)
        requires
            self.wf(),
        ensures
            r == self@.target_in(branch_root),
    {
        match self.branch_position(branch_root) {
            Some(key) => key,
            None => branch_root,
        }
    }

    /// The focused window, else the first one.
    pub fn effective_focused_key(&self) -> (r: Option<NodeKey>)
        requires
            self.wf(),
        ensures
            r == self@.effective_focus(),
    {
        if let Some(key) = self.focused_key() {
            if self.holds_node(key) {
                return Some(key);
            }
        }
        self.first_leaf_key()
    }

    /// The selection, else the focused window, else the first one.
    pub fn selected_node_key(&self) -> (r: Option<NodeKey>)
        requires
            self.wf(),
        ensures
            r == self@.selected_node(),
    {
        if let Some(key) = self.selected_key() {
            if self.holds_node(key) {
                return Some(key);
            }
        }
        match self.focused_key() {
            Some(key) => Some(key),
            None => self.first_leaf_key(),
        }
    }

    /// The existing node beside which a new window maps.
    pub fn view_map_target(&self) -> (r: Option<NodeKey>)
        requires
            self.wf(),
        ensures
            r == self@.map_target(),
    {
        match self.first_in_order(Pick::BelowWorkspace) {
            Some(inactive) => {
                if self.is_floating_root(inactive) {
                    match self.focus_inactive_node_in_branch(self.workspace_root()) {
                        Some(node) => self.focus_inactive_view(node),
                        None => None,
                    }
                } else {
                    Some(inactive)
                }
            },
            None => None,
        }
    }

    fn collect_leaf_keys(&self, key: NodeKey, out: &mut Vec<NodeKey>)
        requires
            self.wf(),
        ensures
            final(out)@ == old(out)@ + self@.leaves(key),
        decreases room(self@.parents, key),
    {
        match self.get_node(key) {
            Some(node) => {
                if node.is_view() {
                    out.push(key);
                    assert(out@ =~= old(out)@ + self@.leaves(key));
                } else {
                    let children = &node.common().children;
                    let mut i: usize = 0;
                    assert(out@ + self@.leaves_from(key, 0) =~= old(out)@ + self@.leaves(key));
                    while i < children.len()
                        invariant
                            self.wf(),
                            i <= children.len(),
                            self@.has(key),
                            !self@.is_view(key),
                            children@ == self@.kids(key),
                            out@ + self@.leaves_from(key, i as int) == old(out)@ + self@.leaves(
                                key,
                            ),
                        decreases children.len() - i,
                    {
                        proof {
                            assert(self@.parents.contains_key(
                                self@.nodes[key].children[i as int],
                            ));
                            lemma_depth(self@.parents, children@[i as int]);
                        }
                        let ghost before = out@;
                        self.collect_leaf_keys(children[i], out);
                        assert(before + (self@.leaves(children@[i as int]) + self@.leaves_from(
                            key,
                            i as int + 1,
                        )) =~= out@ + self@.leaves_from(key, i as int + 1));
                        i = i + 1;
                    }
                    assert(out@ =~= out@ + self@.leaves_from(key, i as int));
                }
            },
            None => {
                assert(out@ =~= old(out)@ + self@.leaves(key));
            },
        }
    }

    /// The windows at or below a node, depth first.
    pub fn leaf_keys_under(&self, key: NodeKey) -> (r: Vec<NodeKey>)
        requires
            self.wf(),
        ensures
            r@ == self@.leaves(key),
    {
        let mut keys: Vec<NodeKey> = Vec::new();
        self.collect_leaf_keys(key, &mut keys);
        assert(keys@ =~= self@.leaves(key));
        keys
    }

    /// The windows of one branch, depth first.
    pub fn leaf_keys_in_branch(&self, branch_root: NodeKey) -> (r: Vec<NodeKey>)
        requires
            self.wf(),
        ensures
            r@ == self@.leaves(branch_root),
    {
        self.leaf_keys_under(branch_root)
    }

    /// Every window of the workspace, the tiled side first.
    pub fn dfs_leaf_keys(&self) -> (r: Vec<NodeKey>)
        requires
            self.wf(),
        ensures
            r@ == self@.all_leaves(),
    {
        let mut keys = self.leaf_keys_under(self.workspace_root());
        let floating = self.floating();
        let mut i: usize = 0;
        while i < floating.len()
            invariant
                self.wf(),
                floating@ == self@.floating,
                i <= floating.len(),
                keys@ + self@.floating_leaves_from(i as int) == self@.all_leaves(),
            decreases floating.len() - i,
        {
            let ghost before = keys@;
            self.collect_leaf_keys(floating[i].key, &mut keys);
            assert(before + (self@.leaves(floating@[i as int].key) + self@.floating_leaves_from(
                i as int + 1,
            )) =~= keys@ + self@.floating_leaves_from(i as int + 1));
            i = i + 1;
        }
        assert(keys@ =~= keys@ + self@.floating_leaves_from(i as int));
        keys
    }

    /// How many windows a branch holds.
    pub fn window_count_in_branch(&self, branch_root: NodeKey) -> (r: usize)
        requires
            self.wf(),
        ensures
            r == self@.leaves(branch_root).len(),
    {
        self.leaf_keys_in_branch(branch_root).len()
    }

    /// How many windows the tiled side holds.
    pub fn window_count(&self) -> (r: usize)
        requires
            self.wf(),
        ensures
            r == self@.leaves(self@.root).len(),
    {
        self.window_count_in_branch(self.workspace_root())
    }

    /// The identities of the windows at or below a node, depth first.
    pub fn window_ids_under(&self, key: NodeKey) -> (r: Vec<WindowId>)
        requires
            self.wf(),
        ensures
            r@ == self@.window_ids_of(self@.leaves(key)),
    {
        let keys = self.leaf_keys_under(key);
        proof {
            lemma_leaves_are_views(self@, key);
        }
        let mut ids: Vec<WindowId> = Vec::new();
        let mut i: usize = 0;
        while i < keys.len()
            invariant
                self.wf(),
                i <= keys.len(),
                keys@ == self@.leaves(key),
                forall|j: int| 0 <= j < keys@.len() ==> self@.is_view(#[trigger] keys@[j]),
                ids@.len() == i,
                forall|j: int|
                    0 <= j < i ==> #[trigger] ids@[j] == self@.nodes[keys@[j]].tile->0.window.id,
            decreases keys.len() - i,
        {
            assert(self@.is_view(keys@[i as int]));
            if let Some(tile) = self.get_tile(keys[i]) {
                ids.push(tile.window.id);
            }
            i = i + 1;
        }
        assert(ids@ =~= self@.window_ids_of(self@.leaves(key)));
        ids
    }

    /// Every window identity of the tiled side, depth first.
    pub fn all_window_ids(&self) -> (r: Vec<WindowId>)
        requires
            self.wf(),
        ensures
            r@ == self@.window_ids_of(self@.leaves(self@.root)),
    {
        self.window_ids_under(self.workspace_root())
    }

    /// The tiles of one branch, depth first.
    pub fn tiles_in_branch(&self, branch_root: NodeKey) -> (r: Vec<&Tile>)
        requires
            self.wf(),
        ensures
            r@.len() == self@.leaves(branch_root).len(),
            forall|i: int|
                0 <= i < r@.len() ==> #[trigger] r@[i]@ == self@.nodes[self@.leaves(
                    branch_root,
                )[i]].tile->0,
    {
        let keys = self.leaf_keys_in_branch(branch_root);
        proof {
            lemma_leaves_are_views(self@, branch_root);
        }
        let mut tiles: Vec<&Tile> = Vec::new();
        let mut i: usize = 0;
        while i < keys.len()
            invariant
                self.wf(),
                i <= keys.len(),
                keys@ == self@.leaves(branch_root),
                forall|j: int| 0 <= j < keys@.len() ==> self@.is_view(#[trigger] keys@[j]),
                tiles@.len() == i,
                forall|j: int|
                    0 <= j < i ==> #[trigger] tiles@[j]@ == self@.nodes[keys@[j]].tile->0,
            decreases keys.len() - i,
        {
            assert(self@.is_view(keys@[i as int]));
            if let Some(tile) = self.get_tile(keys[i]) {
                tiles.push(tile);
            }
            i = i + 1;
        }
        tiles
    }

    /// Every tile of the tiled side, depth first.
    pub fn all_tiles(&self) -> (r: Vec<&Tile>)
        requires
            self.wf(),
        ensures
            r@.len() == self@.leaves(self@.root).len(),
            forall|i: int|
                0 <= i < r@.len() ==> #[trigger] r@[i]@ == self@.nodes[self@.leaves(
                    self@.root,
                )[i]].tile->0,
    {
        self.tiles_in_branch(self.workspace_root())
    }

    /// The nearest ancestor laid out in `layout`, with the branch of `key` inside it.
    pub fn find_parent_with_layout(&self, key: NodeKey, layout: Layout) -> (r: Option<
        (NodeKey, usize),
    >)
        requires
            self.wf(),
        ensures
            r is Some <==> self@.enclosing(key, layout) is Some,
            r matches Some((parent, idx)) ==> self@.enclosing(key, layout) == Some(
                (parent, idx as int),
            ),
    {
        let mut current = key;
        loop
            invariant
                self.wf(),
                self@.enclosing(current, layout) == self@.enclosing(key, layout),
            decreases depth(self@.parents, current),
        {
            match self.parent_of(current) {
                Some(parent) => {
                    proof {
                        lemma_depth(self@.parents, current);
                    }
                    if let Some(container) = self.get_container(parent) {
                        if container.layout() == layout {
                            return match self.child_index(parent, current) {
                                Some(idx) => {
                                    proof {
                                        lemma_slot(self@, parent, current, idx as int);
                                    }
                                    Some((parent, idx))
                                },
                                None => None,
                            };
                        }
                    }
                    current = parent;
                },
                None => {
                    return None;
                },
            }
        }
    }

    /// The nearest ancestor laid out in `layout` that can pay for a resize with `reach`, with
    /// the branch of `key` inside it.
    pub fn find_resize_parent(
        &self,
        key: NodeKey,
        layout: Layout,
        reach: ResizeReach,
    ) -> (r: Option<(NodeKey, usize)>)
        requires
            self.wf(),
        ensures
            r is Some <==> self@.paying(key, layout, reach) is Some,
            r matches Some((parent, idx)) ==> self@.paying(key, layout, reach) == Some(
                (parent, idx as int),
            ),
    {
        let mut current = key;
        loop
            invariant
                self.wf(),
                self@.paying(current, layout, reach) == self@.paying(key, layout, reach),
            decreases depth(self@.parents, current),
        {
            match self.parent_of(current) {
                Some(parent) => {
                    proof {
                        lemma_depth(self@.parents, current);
                    }
                    if let Some(container) = self.get_container(parent) {
                        if container.layout() == layout {
                            match self.child_index(parent, current) {
                                Some(idx) => {
                                    proof {
                                        lemma_slot(self@, parent, current, idx as int);
                                    }
                                    let count: usize = container.child_count();
                                    let pays = match reach {
                                        ResizeReach::Siblings => count > 1,
                                        ResizeReach::Before => idx > 0,
                                        ResizeReach::After => idx + 1 < count,
                                    };
                                    if pays {
                                        return Some((parent, idx));
                                    }
                                },
                                None => {
                                    return None;
                                },
                            }
                        }
                    }
                    current = parent;
                },
                None => {
                    return None;
                },
            }
        }
    }
}

/// The active child is listed among the children of its parent.
pub proof fn lemma_active_listed(t: Tree, p: NodeKey)
    requires
        t.wf(),
        t.active(p) is Some,
    ensures
        t.kids(p).contains(t.active(p)->0),
        t.is_parent(p),
{
    lemma_active(t, p);
    lemma_first_of(t, t.seat.order, Pick::ChildOf(p));
    let c = t.active(p)->0;
    match t.recent(Pick::ChildOf(p)) {
        Some(_) => {
            assert(t.parents.contains_key(c));
            if p == t.root && t.is_floating(c) {
                lemma_branch_step(t, c);
            }
            assert(t.nodes[p].children.contains(c));
            assert(t.nodes[p].children.len() > 0);
        },
        None => {},
    }
}

/// Everything listed as a window is one.
pub proof fn lemma_leaves_are_views(t: Tree, k: NodeKey)
    requires
        t.wf(),
    ensures
        forall|i: int| 0 <= i < t.leaves(k).len() ==> t.is_view(#[trigger] t.leaves(k)[i]),
        forall|i: int|
            0 <= i < t.leaves(k).len() ==> t.under(#[trigger] t.leaves(k)[i], k),
    decreases room(t.parents, k), t.kids(k).len() + 2,
{
    if t.is_view(k) {
        assert(t.under(k, k));
        assert(t.leaves(k) == seq![k]);
    } else {
        lemma_leaves_from_are_views(t, k, 0);
        assert(t.leaves(k) == t.leaves_from(k, 0));
    }
}

/// Every window listed for the workspace is one.
proof fn lemma_all_leaves(t: Tree)
    requires
        t.wf(),
    ensures
        forall|i: int| 0 <= i < t.all_leaves().len() ==> t.is_view(#[trigger] t.all_leaves()[i]),
{
    lemma_leaves_are_views(t, t.root);
    lemma_floating_leaves(t, 0);
}

proof fn lemma_floating_leaves(t: Tree, i: int)
    requires
        t.wf(),
        0 <= i,
    ensures
        forall|j: int|
            0 <= j < t.floating_leaves_from(i).len() ==> t.is_view(
                #[trigger] t.floating_leaves_from(i)[j],
            ),
    decreases t.floating.len() - i,
{
    if i < t.floating.len() {
        let front = t.leaves(t.floating[i].key);
        let rest = t.floating_leaves_from(i + 1);
        lemma_leaves_are_views(t, t.floating[i].key);
        lemma_floating_leaves(t, i + 1);
        assert forall|j: int| 0 <= j < (front + rest).len() implies t.is_view(
            #[trigger] (front + rest)[j],
        ) by {
            if j >= front.len() {
                assert(t.is_view(rest[j - front.len()]));
            }
        }
    }
}

proof fn lemma_leaves_from_are_views(t: Tree, k: NodeKey, i: int)
    requires
        t.wf(),
    ensures
        forall|j: int|
            0 <= j < t.leaves_from(k, i).len() ==> t.is_view(#[trigger] t.leaves_from(k, i)[j]),
        forall|j: int|
            0 <= j < t.leaves_from(k, i).len() ==> t.under(#[trigger] t.leaves_from(k, i)[j], k),
    decreases room(t.parents, k), t.kids(k).len() - i + 1,
{
    if 0 <= i < t.kids(k).len() {
        let c = t.kids(k)[i];
        assert(t.parents.contains_key(t.nodes[k].children[i]));
        lemma_depth(t.parents, c);
        lemma_leaves_are_views(t, c);
        lemma_leaves_from_are_views(t, k, i + 1);
        let all = t.leaves_from(k, i);
        let first = t.leaves(c);
        assert forall|j: int| 0 <= j < all.len() implies t.is_view(#[trigger] all[j]) && t.under(
            all[j],
            k,
        ) by {
            if j < first.len() {
                assert(all[j] == first[j]);
                assert(t.under(k, k));
                assert(t.under(c, k));
                crate::tree::lemma_under_trans(t.parents, first[j], c, k);
            } else {
                assert(all[j] == t.leaves_from(k, i + 1)[j - first.len()]);
            }
        }
    }
}

/// Every window below a node is listed there; the floating windows are not below the workspace.
pub proof fn lemma_window_listed(t: Tree, top: NodeKey, leaf: NodeKey)
    requires
        t.wf(),
        t.is_view(leaf),
        t.under(leaf, top),
        top != t.root || t.branch(leaf) == t.root,
    ensures
        t.leaves(top).contains(leaf),
    decreases depth(t.parents, leaf) - depth(t.parents, top),
{
    if leaf == top {
        assert(t.leaves(top)[0] == leaf);
    } else {
        let c = lemma_step_down(t, top, leaf);
        crate::tree::lemma_under_depth(t.parents, leaf, c);
        lemma_depth(t.parents, c);
        assert(!t.is_floating(c)) by {
            if t.is_floating(c) {
                lemma_branch_step(t, c);
                lemma_branch_of_float(t, c, leaf);
            }
        }
        assert(t.nodes[top].children.contains(c));
        let i = choose|i: int|
            0 <= i < t.nodes[top].children.len() && t.nodes[top].children[i] == c;
        assert(t.is_parent(top));
        assert(c != t.root);
        lemma_window_listed(t, c, leaf);
        lemma_leaves_from_contains(t, top, 0, i, leaf);
        assert(!t.is_view(top));
    }
}

/// The window a node leads to is one of those below it.
pub proof fn lemma_leaf_under(t: Tree, k: NodeKey)
    requires
        t.wf(),
    ensures
        t.leaf_under(k) matches Some(leaf) ==> t.leaves(k).contains(leaf),
    decreases room(t.parents, k),
{
    if t.is_view(k) {
        assert(t.leaves(k)[0] == k);
    } else if t.active(k) is Some {
        let c = t.active(k)->0;
        lemma_active(t, k);
        lemma_active_listed(t, k);
        lemma_depth(t.parents, c);
        lemma_leaf_under(t, c);
        let i = choose|i: int| 0 <= i < t.kids(k).len() && t.kids(k)[i] == c;
        if t.leaf_under(c) is Some {
            lemma_leaves_from_contains(t, k, 0, i, t.leaf_under(c)->0);
        }
    }
}

/// What is listed below a node is exactly the windows below it; the floating windows do not count
/// as below the workspace.
pub proof fn law_leaves_are_the_windows_below(t: Tree, top: NodeKey, k: NodeKey)
    requires
        t.wf(),
        top != t.root || t.branch(k) == t.root,
    ensures
        t.leaves(top).contains(k) <==> t.is_view(k) && t.under(k, top),
{
    if t.leaves(top).contains(k) {
        lemma_leaves_are_views(t, top);
        let i = choose|i: int| 0 <= i < t.leaves(top).len() && t.leaves(top)[i] == k;
        assert(t.is_view(t.leaves(top)[i]));
    }
    if t.is_view(k) && t.under(k, top) {
        lemma_window_listed(t, top, k);
    }
}

/// The child of `top` on the way down to `k`.
pub proof fn lemma_step_down(t: Tree, top: NodeKey, k: NodeKey) -> (c: NodeKey)
    requires
        t.wf(),
        t.under(k, top),
        k != top,
    ensures
        t.parents.contains_key(c),
        t.parents[c] == top,
        t.under(k, c),
    decreases depth(t.parents, k),
{
    lemma_depth(t.parents, k);
    if t.parents[k] == top {
        assert(t.under(k, k));
        k
    } else {
        lemma_step_down(t, top, t.parents[k])
    }
}

/// Everything below the root of a floating group is in that group.
pub proof fn lemma_branch_of_float(t: Tree, f: NodeKey, k: NodeKey)
    requires
        t.wf(),
        t.is_floating(f),
        t.under(k, f),
    ensures
        t.branch(k) == f,
        f != t.root,
    decreases depth(t.parents, k),
{
    let i = choose|i: int| 0 <= i < t.floating.len() && #[trigger] t.floating[i].key == f;
    assert(t.parents.contains_key(t.floating[i].key));
    if k != f {
        lemma_depth(t.parents, k);
        lemma_branch_of_float(t, f, t.parents[k]);
        assert(t.parents[k] != t.root) by {
            if t.parents[k] == t.root {
                assert(!t.parents.contains_key(t.root));
            }
        }
    } else {
        lemma_branch_step(t, f);
    }
}

proof fn lemma_leaves_from_contains(t: Tree, k: NodeKey, from: int, i: int, leaf: NodeKey)
    requires
        t.wf(),
        0 <= from <= i < t.kids(k).len(),
        t.leaves(t.kids(k)[i]).contains(leaf),
    ensures
        t.leaves_from(k, from).contains(leaf),
    decreases i - from,
{
    let all = t.leaves_from(k, from);
    let first = t.leaves(t.kids(k)[from]);
    let rest = t.leaves_from(k, from + 1);
    assert(all == first + rest);
    if from == i {
        let j = choose|j: int| 0 <= j < first.len() && first[j] == leaf;
        assert(all[j] == leaf);
    } else {
        lemma_leaves_from_contains(t, k, from + 1, i, leaf);
        let j = choose|j: int| 0 <= j < rest.len() && rest[j] == leaf;
        assert(all[first.len() + j] == leaf);
    }
}

} // verus!
