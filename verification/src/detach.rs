//! Windows and subtrees leaving the tree, and what the departure does to the rest: emptied
//! containers are destroyed, cached addresses follow, and the focus finds a new place.

use crate::arena::ContainerArena;
use crate::axis::NodeKey;
use crate::cache::ArrangeScope;
use crate::measure::{Rect, Size};
use crate::node::{tile_state, DetachedNode};
use crate::seat::kept_in;
use crate::tile::{slot_state, InsertParentInfo, Tile, WindowId};
use crate::tree::{lemma_first_of, lineage, ArenaOptions, Pick, Tree};
use crate::walk::lemma_slot;
use vstd::prelude::*;

verus! {

impl Tree {
    /// The tree with the seat and the cached addresses brought up to date after nodes left.
    pub open spec fn repaired(self) -> Tree {
        let a = match self.seat.leaf {
            Some(k) if !self.is_view(k) => self.with_seat(
                self.seat.with_leaf(self.leaf_under(self.root)),
            ),
            _ => self,
        };
        a.deselected_dead().readdressed()
    }

    /// The tree without a selection naming a node that is gone.
    pub open spec fn deselected_dead(self) -> Tree {
        self.with_seat(self.seat.with_selected(kept_in(self.seat.selected, self.nodes.dom())))
    }

    /// The tree with a node taken out of its list, or off the floating stack.
    pub open spec fn loosened(self, k: NodeKey) -> Tree {
        if self.is_floating(k) {
            self.unfloated(self.stack_index(k))
        } else {
            self.unlinked(k)
        }
    }

    /// Whether a node is the one owning fullscreen or is below it.
    pub open spec fn in_fullscreen(self, k: NodeKey) -> bool {
        self.fullscreen matches Some(f) && self.under(k, f)
    }

    /// A window gone: the containers it leaves empty are destroyed, and the focus it held goes
    /// to the window of its nearest surviving ancestor.
    pub open spec fn window_gone(self, k: NodeKey) -> Tree {
        let p = self.parents[k];
        self.loosened(k).dropped(k).reaped(p).repaired().deselected_dead().reconciled(
            self.seat.leaf == Some(k),
            lineage(self.parents, p),
            self.in_fullscreen(k),
        ).arranging(ArrangeScope::Workspace)
    }

    /// Whether a subtree can be taken: a node of the tiled side below the workspace.
    pub open spec fn is_tiled(self, k: NodeKey) -> bool {
        self.has(k) && k != self.root && self.branch(k) == self.root
    }

    /// A tiled subtree gone.
    pub open spec fn subtree_gone(self, k: NodeKey) -> Tree {
        let p = self.parents[k];
        let held = self.seat.leaf matches Some(l) && self.under(l, k);
        let a = if self.seat.selected matches Some(s) && self.under(s, k) {
            self.superseded().with_seat(self.seat.with_selected(None))
        } else {
            self.superseded()
        };
        let b = a.unlinked(k);
        b.cut(b.below(k)).reaped(p).repaired().deselected_dead().reconciled(
            held,
            lineage(self.parents, p),
            false,
        ).arranging(ArrangeScope::Workspace)
    }

    /// A child of the workspace loose and about to leave, the focus moved to the child now in
    /// its place or to the last one.
    pub open spec fn column_loose(self, column: int) -> Tree {
        let t = self.unlinked(self.kids(self.root)[column]).repaired();
        let n = t.kids(t.root).len();
        if n > 0 {
            t.focused(
                t.kids(t.root)[if column < n {
                    column
                } else {
                    n - 1
                }],
            )
        } else {
            t.first_focused()
        }
    }
}

/// A window that is closed leaves no empty container behind: what is empty afterwards is the root
/// of the floating group whose last window it was.
pub proof fn law_closing_leaves_nothing_empty(t: Tree, k: NodeKey)
    requires
        t.wf(),
        t.occupied(),
        t.is_view(k),
        t.parents.contains_key(k),
    ensures
        forall|c: NodeKey| #[trigger]
            t.window_gone(k).hollow(c) ==> t.is_floating(c) && t.under(k, c),
{
    let p = t.parents[k];
    let u = t.loosened(k).dropped(k);
    crate::tree::lemma_parent_not_under_child(t.parents, k);
    crate::cleanup::lemma_lineage_remove(t.parents, k, p);
    crate::tree::lemma_lineage(t.parents, p);
    crate::tree::lemma_lineage(t.parents, k);
    assert(u.parents =~= t.parents.remove(k));
    let chain = lineage(u.parents, p);
    assert forall|c: NodeKey| #[trigger] u.hollow(c) implies c == p by {
        if c != p {
            assert(u.nodes[c] == t.nodes[c]);
            assert(t.is_split(c));
        }
    }
    crate::cleanup::law_reaping_leaves_nothing_empty(u, chain);
    let v = u.reaped(p);
    assert(t.window_gone(k).nodes == v.nodes);
    assert forall|c: NodeKey| #[trigger] t.window_gone(k).hollow(c) implies t.is_floating(c)
        && t.under(k, c) by {
        assert(v.hollow(c));
        assert(u.is_floating(c));
        let i = choose|i: int| 0 <= i < u.floating.len() && #[trigger] u.floating[i].key == c;
        assert(t.is_floating(u.floating[i].key));
        assert(t.under(p, c));
    }
}

/// A node of the tiled side has a parent and is listed in it.
pub proof fn lemma_tiled_listed(t: Tree, k: NodeKey)
    requires
        t.wf(),
        t.is_tiled(k),
    ensures
        t.parents.contains_key(k),
        !t.is_floating(k),
{
    if t.is_floating(k) {
        let i = choose|i: int| 0 <= i < t.floating.len() && #[trigger] t.floating[i].key == k;
        assert(t.parents[t.floating[i].key] == t.root);
    }
}

impl ContainerArena {
    /// Brings the seat and the cached addresses up to date after nodes left.
    pub fn prune_leaf_layouts(&mut self)
        requires
            old(self).wf(),
        ensures
            final(self).wf(),
            final(self)@ == old(self)@.repaired(),
            final(self)@.windows() == old(self)@.windows(),
            forall|k: NodeKey| #[trigger] final(self)@.loose(k) ==> old(self)@.loose(k),
            old(self)@.mentions_live() ==> final(self)@.mentions_live(),
    {
        if let Some(key) = self.focused_key() {
            if !self.is_leaf(key) {
                let first = self.first_leaf_key();
                self.redirect_focused_leaf(first);
            }
        }
        self.prune_selected_key();
        self.readdress_leaf_layouts();
    }

    /// Takes a node out of its list, or off the floating stack.
    fn loosen(&mut self, key: NodeKey)
        requires
            old(self).wf(),
            old(self)@.parents.contains_key(key),
        ensures
            final(self).wf(),
            final(self)@ == old(self)@.loosened(key),
            !final(self)@.parents.contains_key(key),
            final(self)@.has(key),
            final(self)@.root == old(self)@.root,
            old(self)@.is_view(key) ==> final(self)@.nodes[key] == old(self)@.nodes[key],
            final(self)@.windows() == old(self)@.windows(),
            forall|k: NodeKey| #[trigger]
                final(self)@.loose(k) ==> old(self)@.loose(k) || k == key,
            old(self)@.mentions_live() ==> final(self)@.mentions_live(),
    {
        let ghost t = self@;
        match self.floating_root_index(key) {
            Some(idx) => {
                assert(t.floating[idx as int].key == key);
                assert(t.is_floating(key));
                assert(idx == t.stack_index(key)) by {
                    let i = t.stack_index(key);
                    assert(t.floating[i].key == t.floating[idx as int].key);
                }
                self.pop_floating(idx);
            },
            None => {
                let ghost p = t.parents[key];
                self.detach_child(key);
                proof {
                    if t.is_view(key) && p == key {
                        crate::tree::lemma_depth(t.parents, key);
                    }
                }
            },
        }
    }

    /// Removes a window, handing its tile back. Answers with nothing when there is no such
    /// window here.
    pub fn remove_window(&mut self, window_id: WindowId) -> (r: Option<Tile>)
        requires
            old(self).wf(),
        ensures
            final(self).wf(),
            ({
                let k = old(self)@.recent(Pick::Window(window_id));
                let found = k matches Some(k) && old(self)@.parents.contains_key(k);
                &&& r is Some <==> found
                &&& found ==> tile_state(r) == old(self)@.nodes[k->0].tile && final(self)@ == old(
                    self,
                )@.window_gone(k->0)
                &&& found ==> final(self)@.windows() == old(self)@.windows().remove(k->0)
                &&& !found ==> final(self)@ == old(self)@
            }),
            forall|k: NodeKey| #[trigger] final(self)@.loose(k) ==> old(self)@.loose(k),
            old(self)@.mentions_live() ==> final(self)@.mentions_live(),
    {
        let ghost t = self@;
        proof {
            lemma_first_of(t, t.seat.order, Pick::Window(window_id));
        }
        let key = match self.window_key(window_id) {
            Some(key) => key,
            None => {
                return None;
            },
        };
        let parent_key = match self.parent_of(key) {
            Some(parent_key) => parent_key,
            None => {
                return None;
            },
        };
        let was_focused = self.focused_key() == Some(key);
        let from_fullscreen = match self.fullscreen_key() {
            Some(scope) => self.is_descendant(key, scope),
            None => false,
        };
        let former_ancestors = self.focus_chain(parent_key);
        self.loosen(key);
        proof {
            assert(t.is_view(key));
            assert(t.nodes.contains_key(key));
        }
        let tile = match self.remove_node_from_store(key) {
            Some(node) => node.into_tile(),
            None => None,
        };
        self.reap_empty(parent_key);
        self.prune_leaf_layouts();
        self.prune_selected_key();
        self.reconcile_focus_after_change(was_focused, &former_ancestors, from_fullscreen);
        self.layout();
        tile
    }

    /// Takes a tiled subtree out of the tree.
    #[verifier::spinoff_prover]
    fn take_tiling_subtree(&mut self, node_key: NodeKey) -> (r: Option<DetachedNode>)
        requires
            old(self).wf(),
        ensures
            final(self).wf(),
            r is Some <==> old(self)@.is_tiled(node_key),
            r matches Some(node) ==> node@ == old(self)@.branch_at(node_key) && final(self)@ == old(
                self,
            )@.subtree_gone(node_key),
            r is None ==> final(self)@ == old(self)@,
            forall|k: NodeKey| #[trigger] final(self)@.loose(k) ==> old(self)@.loose(k),
            old(self)@.mentions_live() ==> final(self)@.mentions_live(),
    {
        let ghost t = self@;
        if !self.holds_node(node_key) || node_key == self.workspace_root() || self.branch_root(
            node_key,
        ) != self.workspace_root() {
            return None;
        }
        proof {
            lemma_tiled_listed(t, node_key);
        }
        let parent_key = match self.parent_of(node_key) {
            Some(parent_key) => parent_key,
            None => {
                return None;
            },
        };
        self.discard_layout_superseded_by_transfer();
        let focused_in_subtree = match self.focused_key() {
            Some(key) => self.is_descendant(key, node_key),
            None => false,
        };
        let former_ancestors = self.focus_chain(parent_key);
        if let Some(selected_key) = self.selected_key() {
            if self.is_descendant(selected_key, node_key) {
                self.redirect_selection(None);
            }
        }
        let ghost a = self@;
        proof {
            assert(!a.is_floating(node_key)) by {
                if a.is_floating(node_key) {
                    let i = choose|i: int|
                        0 <= i < a.floating.len() && #[trigger] a.floating[i].key == node_key;
                    assert(t.floating[i].key == node_key);
                }
            }
        }
        self.detach_child(node_key);
        proof {
            lemma_unlinked_branch(a, node_key);
            lemma_same_branch(t, a, node_key);
        }
        let subtree = self.extract_subtree(node_key);
        self.reap_empty(parent_key);
        self.prune_leaf_layouts();
        self.prune_selected_key();
        self.reconcile_focus_after_change(focused_in_subtree, &former_ancestors, false);
        self.layout();
        Some(subtree)
    }

    /// Takes a subtree out of the tiled side, with the slot it had in its branch.
    pub fn take_subtree_at(&mut self, node_key: NodeKey) -> (r: Option<
        (DetachedNode, Option<InsertParentInfo>),
    >)
        requires
            old(self).wf(),
        ensures
            final(self).wf(),
            r is Some <==> old(self)@.is_tiled(node_key),
            r matches Some((node, slot)) ==> node@ == old(self)@.branch_at(node_key)
                && slot_state(slot) == old(self)@.slot_at(
                old(self)@.root,
                old(self)@.address(node_key),
            ) && final(self)@ == old(self)@.subtree_gone(node_key),
            r is None ==> final(self)@ == old(self)@,
            forall|k: NodeKey| #[trigger] final(self)@.loose(k) ==> old(self)@.loose(k),
            old(self)@.mentions_live() ==> final(self)@.mentions_live(),
    {
        let slot = self.insert_parent_info_for_node(node_key);
        match self.take_tiling_subtree(node_key) {
            Some(subtree) => Some((subtree, slot)),
            None => None,
        }
    }

    /// Takes the command target out of the tiled side. The workspace itself stays.
    pub fn take_command_target_subtree(&mut self) -> (r: Option<DetachedNode>)
        requires
            old(self).wf(),
        ensures
            final(self).wf(),
            ({
                let k = old(self)@.target_in(old(self)@.root);
                &&& r is Some <==> old(self)@.is_tiled(k)
                &&& r matches Some(node) ==> node@ == old(self)@.branch_at(k) && final(self)@
                    == old(self)@.subtree_gone(k)
                &&& r is None ==> final(self)@ == old(self)@
            }),
            forall|k: NodeKey| #[trigger] final(self)@.loose(k) ==> old(self)@.loose(k),
            old(self)@.mentions_live() ==> final(self)@.mentions_live(),
    {
        let key = self.command_target_in(self.workspace_root());
        self.take_tiling_subtree(key)
    }

    /// Takes a child of the workspace out of the tree. The focus goes to the child that comes
    /// to stand in its place.
    pub fn take_root_child_subtree(&mut self, idx: usize) -> (r: Option<DetachedNode>)
        requires
            old(self).wf(),
        ensures
            final(self).wf(),
            r is Some <==> idx < old(self)@.kids(old(self)@.root).len(),
            r is None ==> final(self)@ == old(self)@,
            r matches Some(node) ==> ({
                let c = old(self)@.kids(old(self)@.root)[idx as int];
                let t = old(self)@.column_loose(idx as int);
                node@ == t.branch_at(c) && final(self)@ == t.cut(t.below(c)).deselected_dead()
            }),
            forall|k: NodeKey| #[trigger] final(self)@.loose(k) ==> old(self)@.loose(k),
            old(self)@.mentions_live() ==> final(self)@.mentions_live(),
    {
        let ghost t = self@;
        let root = self.workspace_root();
        let child_key = match self.get_container(root) {
            Some(container) => match container.child_key(idx) {
                Some(child_key) => child_key,
                None => {
                    return None;
                },
            },
            None => {
                return None;
            },
        };
        proof {
            lemma_slot(t, root, child_key, idx as int);
            assert(!t.is_floating(child_key)) by {
                if t.is_floating(child_key) {
                    let i = choose|i: int|
                        0 <= i < t.floating.len() && #[trigger] t.floating[i].key == child_key;
                    assert(!t.nodes[t.root].children.contains(t.floating[i].key));
                    assert(t.nodes[t.root].children.contains(child_key));
                }
            }
        }
        self.detach_child(child_key);
        self.prune_leaf_layouts();
        let ghost a = self@;
        let remaining: usize = self.child_count_of(root);
        if remaining > 0 {
            let at: usize = if idx < remaining {
                idx
            } else {
                remaining - 1
            };
            let next = match self.get_container(root) {
                Some(container) => container.child_key(at),
                None => None,
            };
            if let Some(next) = next {
                self.focus_node_key(next);
            }
        } else {
            self.focus_first_leaf();
        }
        proof {
            assert(self@ == t.column_loose(idx as int));
            assert(self@.nodes == a.nodes && self@.parents == a.parents);
        }
        let subtree = self.extract_subtree(child_key);
        self.prune_selected_key();
        Some(subtree)
    }

    // -----------------------------------------------------------------------------------------
    // Settings and the focused window
    // -----------------------------------------------------------------------------------------

    /// The tile of the focused window.
    pub fn focused_window(&self) -> (r: Option<&Tile>)
        ensures
            ({
                let k = self@.seat.leaf;
                &&& r is Some <==> (k matches Some(k) && self@.is_view(k))
                &&& r matches Some(tile) ==> Some(tile@) == self@.nodes[k->0].tile
            }),
    {
        match self.focused_key() {
            Some(key) => self.get_tile(key),
            None => None,
        }
    }

    /// The tile of the focused window, or of the first one when none is focused.
    pub fn focused_tile(&self) -> (r: Option<&Tile>)
        requires
            self.wf(),
        ensures
            ({
                let k = match self@.seat.leaf {
                    Some(k) => Some(k),
                    None => self@.leaf_under(self@.root),
                };
                &&& r is Some <==> (k matches Some(k) && self@.is_view(k))
                &&& r matches Some(tile) ==> Some(tile@) == self@.nodes[k->0].tile
            }),
    {
        let key = match self.focused_key() {
            Some(key) => Some(key),
            None => self.first_leaf_key(),
        };
        match key {
            Some(key) => self.get_tile(key),
            None => None,
        }
    }

    /// Takes over the size of the output and the area windows may use.
    pub fn set_view_size(&mut self, view_size: Size, working_area: Rect)
        requires
            old(self).wf(),
        ensures
            final(self).wf(),
            final(self)@ == (Tree {
                options: ArenaOptions { view_size, working_area, ..old(self)@.options },
                ..old(self)@
            }),
            final(self)@.windows() == old(self)@.windows(),
            forall|k: NodeKey| #[trigger] final(self)@.loose(k) ==> old(self)@.loose(k),
            old(self)@.mentions_live() ==> final(self)@.mentions_live(),
    {
        let mut options = self.options();
        options.view_size = view_size;
        options.working_area = working_area;
        self.set_options(options);
        proof {
            crate::tree::lemma_same_shape(old(self)@, self@);
        }
    }

    /// Takes over the settings and the surroundings.
    pub fn update_config(&mut self, options: ArenaOptions)
        requires
            old(self).wf(),
        ensures
            final(self).wf(),
            final(self)@ == (Tree { options, ..old(self)@ }),
            final(self)@.windows() == old(self)@.windows(),
            forall|k: NodeKey| #[trigger] final(self)@.loose(k) ==> old(self)@.loose(k),
            old(self)@.mentions_live() ==> final(self)@.mentions_live(),
    {
        self.set_options(options);
        proof {
            crate::tree::lemma_same_shape(old(self)@, self@);
        }
    }
}

/// Taking a node out of its list leaves the subtree below it as it is.
proof fn lemma_unlinked_branch(t: Tree, k: NodeKey)
    requires
        t.wf(),
        t.has(k),
        t.parents.contains_key(k),
        !t.is_floating(k),
    ensures
        t.unlinked(k).wf(),
        t.unlinked(k).branch_at(k) == t.branch_at(k),
{
    let u = t.unlinked(k);
    crate::tree::lemma_unlinked(t, k);
    let p = t.parents[k];
    assert forall|x: NodeKey| #[trigger] t.under(x, k) && t.has(x) implies u.has(x) && u.nodes[x]
        == t.nodes[x] && crate::seat::within(u.seat.order, t.kids(x).to_set())
        == crate::seat::within(t.seat.order, t.kids(x).to_set()) by {
        if x == p {
            crate::tree::lemma_parent_not_under_child(t.parents, k);
        }
    }
    crate::subtree::lemma_branch_same(t, u, k);
}

/// Trees differing only in selection and cache hold the same subtrees.
proof fn lemma_same_branch(t: Tree, u: Tree, k: NodeKey)
    requires
        t.wf(),
        u.wf(),
        t.has(k),
        u.nodes == t.nodes,
        u.seat.order == t.seat.order,
    ensures
        u.branch_at(k) == t.branch_at(k),
{
    crate::subtree::lemma_branch_same(t, u, k);
}

} // verus!
