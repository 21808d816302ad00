//! Focus and selection: state, queries and directional navigation.

use crate::arena::ContainerArena;
use crate::axis::{Direction, NodeKey};
use crate::seat::{kept_in, lemma_within_all};
use crate::tile::WindowId;
use crate::tree::{
    acyclic, depth, lemma_active, lemma_depth, lemma_first_of, lemma_raised_lineage,
    lemma_same_shape, lineage, Pick, Tree,
};
use crate::walk::lemma_slot;
use vstd::prelude::*;

verus! {

impl Tree {
    // -----------------------------------------------------------------------------------------
    // Focusing and selecting
    // -----------------------------------------------------------------------------------------

    /// A node focused: it and its ancestors come first in the order, the keyboard goes to the
    /// window it leads to, and nothing stays selected. A node leading to no window clears the
    /// focus instead.
    pub open spec fn focused(self, k: NodeKey) -> Tree {
        match self.leaf_under(k) {
            Some(leaf) => self.with_seat(
                self.seat.focus(lineage(self.parents, k), Some(leaf)),
            ).refreshed(),
            None => self.defocused(),
        }
    }

    pub open spec fn defocused(self) -> Tree {
        self.with_seat(self.seat.with_leaf(None).with_selected(None))
    }

    /// Where the keyboard goes when a node is selected: to the window it leads to; with the
    /// workspace selected, it stays where it is.
    pub open spec fn keyboard_for(self, k: NodeKey) -> Option<NodeKey> {
        if k == self.root {
            match self.seat.leaf {
                Some(leaf) if self.is_view(leaf) => Some(leaf),
                _ => self.inactive_anywhere(),
            }
        } else {
            self.leaf_under(k)
        }
    }

    /// A node focused and left selected.
    pub open spec fn selecting(self, k: NodeKey) -> Tree {
        self.with_seat(
            self.seat.select(lineage(self.parents, k), k, self.keyboard_for(k)),
        ).refreshed()
    }

    /// A node landed on: selected itself when the focus is not to descend, else focused in the
    /// window most recently focused inside it.
    pub open spec fn landed(self, k: NodeKey, descend: bool) -> Tree {
        if !descend && self.is_container(k) {
            self.selecting(k)
        } else {
            match self.inactive_view(k) {
                Some(view) => self.focused(view),
                None => self.focused(k),
            }
        }
    }

    /// The first window of the tiled side focused, else the first of any.
    pub open spec fn first_focused(self) -> Tree {
        match self.leaf_under(self.root) {
            Some(k) => self.focused(k),
            None => if self.all_leaves().len() > 0 {
                self.focused(self.all_leaves()[0])
            } else {
                self.defocused()
            },
        }
    }

    /// Focus kept where it is, or given to the most recent window when nothing holds it.
    pub open spec fn resynced(self) -> Tree {
        if self.seat.leaf is Some {
            self
        } else {
            match self.inactive_anywhere() {
                Some(k) => self.focused(k),
                None => self.first_focused(),
            }
        }
    }

    pub open spec fn settled_on(self, k: NodeKey, focus: bool) -> Tree {
        if focus {
            self.focused(k)
        } else {
            self.resynced()
        }
    }

    // -----------------------------------------------------------------------------------------
    // Directional steps
    // -----------------------------------------------------------------------------------------

    /// Where a directional focus from `current` lands, and whether it wrapped.
    ///
    /// The walk goes up. At every level laid out along the direction it steps to the next
    /// sibling; where there is none it goes on, remembering the far end of the first such level
    /// with siblings to wrap to. It ends without a landing at the node owning fullscreen, and
    /// falls back on the remembered end at the boundary or at the top.
    pub open spec fn step_target(
        self,
        current: NodeKey,
        direction: Direction,
        allow_wrap: bool,
        boundary: Option<NodeKey>,
        candidate: Option<NodeKey>,
    ) -> Option<(NodeKey, bool)>
        decreases depth(self.parents, current),
        when acyclic(self.parents)
    {
        proof {
            if self.parents.contains_key(current) {
                lemma_depth(self.parents, current);
            }
        }
        let wrapped = match candidate {
            Some(end) => Some((end, true)),
            None => None,
        };
        if self.fullscreen == Some(current) {
            None
        } else if boundary == Some(current) || !self.parents.contains_key(current) {
            wrapped
        } else {
            let p = self.parents[current];
            if !self.is_parent(p) || !self.nodes[p].layout.parallel(direction) {
                self.step_target(p, direction, allow_wrap, boundary, candidate)
            } else {
                match self.slot_of(current) {
                    None => self.step_target(p, direction, allow_wrap, boundary, candidate),
                    Some((_, idx)) => {
                        let kids = self.kids(p);
                        let next = if allow_wrap && candidate is None && kids.len() > 1 {
                            Some(
                                if direction.leading() {
                                    kids.last()
                                } else {
                                    kids[0]
                                },
                            )
                        } else {
                            candidate
                        };
                        match direction.step(idx, kids.len() as int) {
                            Some(n) => Some((kids[n], false)),
                            None => self.step_target(p, direction, allow_wrap, boundary, next),
                        }
                    },
                }
            }
        }
    }

    /// A directional focus from a node, and whether it found anything. A wrap always descends.
    pub open spec fn stepped(
        self,
        from: NodeKey,
        direction: Direction,
        allow_wrap: bool,
        descend: bool,
        boundary: Option<NodeKey>,
    ) -> (Tree, bool) {
        match self.step_target(from, direction, allow_wrap, boundary, None) {
            Some((target, wrapped)) => (self.landed(target, descend || wrapped), true),
            None => (self, false),
        }
    }

    /// A directional focus from where the commands stand.
    pub open spec fn step_focused(self, direction: Direction, allow_wrap: bool) -> (Tree, bool) {
        match self.selected_node() {
            Some(k) => self.stepped(k, direction, allow_wrap, true, None),
            None => (self, false),
        }
    }

    /// The parent of what is selected, or else of what is focused, selected.
    pub open spec fn parent_selected(self) -> (Tree, bool) {
        let base = match self.seat.selected {
            Some(k) => Some(k),
            None => match self.seat.leaf {
                Some(k) => Some(k),
                None => self.leaf_under(self.root),
            },
        };
        let parent = match base {
            Some(k) => self.parent(k),
            None => None,
        };
        match parent {
            Some(p) => (self.selecting(p), true),
            None => (self, false),
        }
    }

    /// The active child of the selected container selected.
    pub open spec fn child_selected(self) -> (Tree, bool) {
        let child = match self.seat.selected {
            Some(k) if self.is_parent(k) => self.active(k),
            _ => None,
        };
        match child {
            Some(c) => (self.selecting(c), true),
            None => (self, false),
        }
    }

    /// The parent of the focused window focused.
    pub open spec fn parent_focused(self) -> (Tree, bool) {
        let parent = match self.seat.leaf {
            Some(k) => self.parent(k),
            None => None,
        };
        match parent {
            Some(p) => (self.focused(p), true),
            None => (self, false),
        }
    }

    /// The active child of the parent of the focused window focused.
    pub open spec fn child_focused(self) -> (Tree, bool) {
        let child = match self.seat.leaf {
            Some(k) => match self.parent(k) {
                Some(p) if self.is_parent(p) => self.active(p),
                _ => None,
            },
            None => None,
        };
        match child {
            Some(c) => (self.focused(c), true),
            None => (self, false),
        }
    }

    /// The direction `next` or `previous` means for a node: along its parent's layout.
    pub open spec fn along_parent(self, k: NodeKey, forward: bool) -> Option<Direction> {
        match self.parent(k) {
            Some(p) if self.is_parent(p) => Some(
                match (self.nodes[p].layout.horizontal(), forward) {
                    (true, true) => Direction::Right,
                    (true, false) => Direction::Left,
                    (false, true) => Direction::Down,
                    (false, false) => Direction::Up,
                },
            ),
            _ => None,
        }
    }

    // -----------------------------------------------------------------------------------------
    // Focus after nodes went away
    // -----------------------------------------------------------------------------------------

    /// A loose childless node dropped, with the order left as a destroyed node leaves it: when
    /// the node did not hold the focus, the most recent window at or below `surviving` comes
    /// forward, then the workspace, then the node that holds the focus.
    pub open spec fn retired(self, k: NodeKey, surviving: NodeKey) -> Tree {
        let restore = self.seat.node();
        let after = self.dropped(k);
        let held = restore matches Some(f) && (f == k || (self.has(f) && self.under(f, k)));
        if held {
            after
        } else {
            match after.recent(Pick::ViewUnder(surviving)) {
                None => after,
                Some(next) => {
                    let seat = after.seat.raw_focus(next).raw_focus(after.root);
                    match restore {
                        Some(f) if after.has(f) => after.with_seat(seat.raw_focus(f)),
                        _ => after.with_seat(seat),
                    }
                },
            }
        }
    }

    pub open spec fn pruned(self) -> Tree {
        self.with_seat(self.seat.prune(self.nodes.dom()))
    }

    /// The window to focus once a node is gone: that of its nearest surviving ancestor.
    pub open spec fn nearest_view(self, ancestors: Seq<NodeKey>) -> Option<NodeKey>
        decreases ancestors.len(),
    {
        if ancestors.len() == 0 {
            None
        } else if self.has(ancestors[0]) && self.inactive_view(ancestors[0]) is Some {
            self.inactive_view(ancestors[0])
        } else {
            self.nearest_view(ancestors.drop_first())
        }
    }

    /// Focus after a change that may have taken away what held it.
    pub open spec fn reconciled(
        self,
        focused_removed: bool,
        former_ancestors: Seq<NodeKey>,
        selection_was_below_fullscreen: bool,
    ) -> Tree {
        let t = self.pruned();
        let lost = focused_removed || !(t.seat.leaf matches Some(k) && t.has(k));
        let kept = t.seat.selected matches Some(s) && t.is_container(s) && t.leaf_under(s) is Some;
        let next = match t.nearest_view(former_ancestors) {
            Some(k) => Some(k),
            None => t.inactive_anywhere(),
        };
        if t.all_leaves().len() == 0 {
            t.defocused()
        } else if !lost {
            t
        } else {
            match next {
                Some(k) => if kept || selection_was_below_fullscreen {
                    t.with_seat(t.seat.with_leaf(Some(k)))
                } else {
                    t.focused(k)
                },
                None => t.first_focused(),
            }
        }
    }
}

/// A node that leads to a window is in the tree.
pub proof fn lemma_leads(t: Tree, k: NodeKey)
    requires
        t.wf(),
    ensures
        t.leaf_under(k) is Some ==> t.has(k),
{
}

impl ContainerArena {
    /// Focuses a node, whatever kind it is.
    pub fn focus_node_key(&mut self, key: NodeKey)
        requires
            old(self).wf(),
        ensures
            final(self)@ == old(self)@.focused(key),
            final(self).wf(),
            final(self)@.windows() == old(self)@.windows(),
            forall|k: NodeKey| #[trigger] final(self)@.loose(k) ==> old(self)@.loose(k),
            old(self)@.mentions_live() ==> final(self)@.mentions_live(),
    {
        reveal(Tree::mentions_live);
        let leaf = match self.leaf_under_key(key) {
            Some(leaf) => leaf,
            None => {
                self.clear_seat();
                return;
            },
        };
        let chain = self.focus_chain(key);
        proof {
            lemma_leads(self@, key);
            lemma_raised_lineage(self@, key, Some(leaf), None);
        }
        self.seat_mut().focus(&chain, Some(leaf));
        self.refresh_focus_visibility();
        proof {
            crate::windows::lemma_same_windows(old(self)@, self@);
        }
    }

    /// Focuses a node, whatever kind it is.
    pub fn focus_node(&mut self, key: NodeKey)
        requires
            old(self).wf(),
        ensures
            final(self)@ == old(self)@.focused(key),
            final(self).wf(),
            final(self)@.windows() == old(self)@.windows(),
            forall|k: NodeKey| #[trigger] final(self)@.loose(k) ==> old(self)@.loose(k),
            old(self)@.mentions_live() ==> final(self)@.mentions_live(),
    {
        self.focus_node_key(key);
    }

    pub(crate) fn clear_seat(&mut self)
        requires
            old(self).wf(),
        ensures
            final(self)@ == old(self)@.defocused(),
            final(self).wf(),
            final(self)@.windows() == old(self)@.windows(),
            forall|k: NodeKey| #[trigger] final(self)@.loose(k) ==> old(self)@.loose(k),
            old(self)@.mentions_live() ==> final(self)@.mentions_live(),
    {
        reveal(Tree::mentions_live);
        self.seat_mut().clear();
        proof {
            lemma_same_shape(old(self)@, self@);
        }
        proof {
            crate::windows::lemma_same_windows(old(self)@, self@);
        }
    }

    pub(crate) fn redirect_selection(&mut self, selected: Option<NodeKey>)
        requires
            old(self).wf(),
        ensures
            final(self)@ == old(self)@.with_seat(old(self)@.seat.with_selected(selected)),
            final(self).wf(),
            final(self)@.windows() == old(self)@.windows(),
            forall|k: NodeKey| #[trigger] final(self)@.loose(k) ==> old(self)@.loose(k),
            old(self)@.mentions_live() && (selected matches Some(k) ==> old(self)@.has(k))
                ==> final(self)@.mentions_live(),
    {
        reveal(Tree::mentions_live);
        self.seat_mut().redirect_selection(selected);
        proof {
            lemma_same_shape(old(self)@, self@);
        }
        proof {
            crate::windows::lemma_same_windows(old(self)@, self@);
        }
    }

    pub(crate) fn redirect_focused_leaf(&mut self, leaf: Option<NodeKey>)
        requires
            old(self).wf(),
        ensures
            final(self)@ == old(self)@.with_seat(old(self)@.seat.with_leaf(leaf)),
            final(self).wf(),
            final(self)@.windows() == old(self)@.windows(),
            forall|k: NodeKey| #[trigger] final(self)@.loose(k) ==> old(self)@.loose(k),
            old(self)@.mentions_live() && (leaf matches Some(k) ==> old(self)@.is_view(k))
                ==> final(self)@.mentions_live(),
    {
        reveal(Tree::mentions_live);
        self.seat_mut().redirect_focused_leaf(leaf);
        proof {
            lemma_same_shape(old(self)@, self@);
        }
        proof {
            crate::windows::lemma_same_windows(old(self)@, self@);
        }
    }

    /// Gives a window the keyboard without raising it anywhere.
    pub fn set_seat_focus_preserving_switcher(&mut self, leaf_key: NodeKey)
        requires
            old(self).wf(),
        ensures
            final(self)@ == if old(self)@.is_view(leaf_key) {
                old(self)@.with_seat(old(self)@.seat.with_leaf(Some(leaf_key)))
            } else {
                old(self)@
            },
            final(self).wf(),
            final(self)@.windows() == old(self)@.windows(),
            forall|k: NodeKey| #[trigger] final(self)@.loose(k) ==> old(self)@.loose(k),
            old(self)@.mentions_live() ==> final(self)@.mentions_live(),
    {
        if self.is_leaf(leaf_key) {
            self.redirect_focused_leaf(Some(leaf_key));
        }
    }

    fn select_node(&mut self, key: NodeKey)
        requires
            old(self).wf(),
            old(self)@.has(key),
        ensures
            final(self)@ == old(self)@.selecting(key),
            final(self).wf(),
            final(self)@.windows() == old(self)@.windows(),
            forall|k: NodeKey| #[trigger] final(self)@.loose(k) ==> old(self)@.loose(k),
            old(self)@.mentions_live() ==> final(self)@.mentions_live(),
    {
        reveal(Tree::mentions_live);
        let chain = self.focus_chain(key);
        let leaf = if key == self.workspace_root() {
            let held = match self.focused_key() {
                Some(focused) => if self.is_leaf(focused) {
                    Some(focused)
                } else {
                    None
                },
                None => None,
            };
            match held {
                Some(focused) => Some(focused),
                None => self.focus_inactive_anywhere(),
            }
        } else {
            self.leaf_under_key(key)
        };
        proof {
            lemma_raised_lineage(self@, key, leaf, Some(key));
        }
        self.seat_mut().select(&chain, key, leaf);
        self.refresh_focus_visibility();
        proof {
            crate::windows::lemma_same_windows(old(self)@, self@);
        }
    }

    /// Selects a container as the command target.
    pub fn select_container(&mut self, key: NodeKey) -> (r: bool)
        requires
            old(self).wf(),
        ensures
            r == old(self)@.is_container(key),
            final(self)@ == if r {
                old(self)@.selecting(key)
            } else {
                old(self)@
            },
            final(self).wf(),
            final(self)@.windows() == old(self)@.windows(),
            forall|k: NodeKey| #[trigger] final(self)@.loose(k) ==> old(self)@.loose(k),
            old(self)@.mentions_live() ==> final(self)@.mentions_live(),
    {
        if self.get_any_container(key).is_some() {
            self.select_node(key);
            true
        } else {
            false
        }
    }

    /// Selects the workspace as the command target.
    pub fn select_root_container(&mut self) -> (r: bool)
        requires
            old(self).wf(),
        ensures
            r,
            final(self)@ == old(self)@.selecting(old(self)@.root),
            final(self).wf(),
            final(self)@.windows() == old(self)@.windows(),
            forall|k: NodeKey| #[trigger] final(self)@.loose(k) ==> old(self)@.loose(k),
            old(self)@.mentions_live() ==> final(self)@.mentions_live(),
    {
        let root = self.workspace_root();
        self.select_node(root);
        true
    }

    pub fn clear_selection(&mut self)
        requires
            old(self).wf(),
        ensures
            final(self)@ == old(self)@.with_seat(old(self)@.seat.with_selected(None)),
            final(self).wf(),
            final(self)@.windows() == old(self)@.windows(),
            forall|k: NodeKey| #[trigger] final(self)@.loose(k) ==> old(self)@.loose(k),
            old(self)@.mentions_live() ==> final(self)@.mentions_live(),
    {
        self.redirect_selection(None);
    }

    /// The selected split, if a split is selected.
    pub fn selected_container_key(&self) -> (r: Option<NodeKey>)
        ensures
            r == match self@.seat.selected {
                Some(k) if self@.is_split(k) => Some(k),
                _ => None,
            },
    {
        match self.selected_key() {
            Some(key) => if self.get_real_container(key).is_some() {
                Some(key)
            } else {
                None
            },
            None => None,
        }
    }

    /// The selected node that lays out children, the workspace included.
    pub fn selected_layout_parent_key(&self) -> (r: Option<NodeKey>)
        ensures
            r == match self@.seat.selected {
                Some(k) if self@.is_parent(k) => Some(k),
                _ => None,
            },
    {
        match self.selected_key() {
            Some(key) => if self.get_container(key).is_some() {
                Some(key)
            } else {
                None
            },
            None => None,
        }
    }

    /// Whether the node commands act on lives at or below `scope_root`.
    pub fn command_position_is_in(&self, scope_root: NodeKey) -> (r: bool)
        requires
            self.wf(),
        ensures
            r == (self@.seat.node() matches Some(k) && self@.under(k, scope_root)),
    {
        match self.seat().node() {
            Some(key) => self.is_descendant(key, scope_root),
            None => false,
        }
    }

    /// Whether the workspace is the command target: selected, or holding nothing at all.
    pub fn workspace_is_selected(&self) -> (r: bool)
        requires
            self.wf(),
        ensures
            r == (self@.seat.selected == Some(self@.root) || (self@.leaf_under(self@.root) is None
                && self@.floating.len() == 0)),
    {
        self.selected_key() == Some(self.workspace_root()) || (self.is_empty()
            && self.floating().len() == 0)
    }

    /// Whether the container the focused window sits in is the workspace.
    pub fn focused_leaf_targets_workspace_layout(&self) -> (r: bool)
        requires
            self.wf(),
        ensures
            r == match self@.effective_focus() {
                Some(k) => self@.parent(k) is None || self@.parent(k) == Some(self@.root),
                None => true,
            },
    {
        match self.effective_focused_key() {
            Some(key) => match self.parent_of(key) {
                Some(parent) => parent == self.workspace_root(),
                None => true,
            },
            None => true,
        }
    }

    /// Selects the parent of the command target.
    pub fn select_parent(&mut self) -> (r: bool)
        requires
            old(self).wf(),
        ensures
            final(self).wf(),
            (final(self)@, r) == old(self)@.parent_selected(),
            final(self)@.windows() == old(self)@.windows(),
            forall|k: NodeKey| #[trigger] final(self)@.loose(k) ==> old(self)@.loose(k),
            old(self)@.mentions_live() ==> final(self)@.mentions_live(),
    {
        let base = match self.selected_key() {
            Some(key) => Some(key),
            None => match self.focused_key() {
                Some(key) => Some(key),
                None => self.first_leaf_key(),
            },
        };
        let base = match base {
            Some(key) => key,
            None => {
                return false;
            },
        };
        match self.parent_of(base) {
            Some(parent) => {
                assert(self@.parents.contains_key(base));
                self.select_node(parent);
                true
            },
            None => false,
        }
    }

    /// Selects the parent of the command target inside one subtree, whose root is the limit.
    pub fn select_parent_in(&mut self, scope_root: NodeKey) -> (r: bool)
        requires
            old(self).wf(),
        ensures
            final(self).wf(),
            ({
                let t = old(self)@;
                let base = match t.seat.selected {
                    Some(k) if t.under(k, scope_root) => Some(k),
                    _ => match t.seat.leaf {
                        Some(k) if t.under(k, scope_root) => Some(k),
                        _ => t.inactive_view(scope_root),
                    },
                };
                let parent = match base {
                    Some(k) => t.parent(k),
                    None => None,
                };
                match parent {
                    Some(p) if t.under(p, scope_root) => r && final(self)@ == t.selecting(p),
                    _ => !r && final(self)@ == t,
                }
            }),
            final(self)@.windows() == old(self)@.windows(),
            forall|k: NodeKey| #[trigger] final(self)@.loose(k) ==> old(self)@.loose(k),
            old(self)@.mentions_live() ==> final(self)@.mentions_live(),
    {
        let selected = match self.selected_key() {
            Some(key) => if self.is_descendant(key, scope_root) {
                Some(key)
            } else {
                None
            },
            None => None,
        };
        let base = match selected {
            Some(key) => Some(key),
            None => {
                let focused = match self.focused_key() {
                    Some(key) => if self.is_descendant(key, scope_root) {
                        Some(key)
                    } else {
                        None
                    },
                    None => None,
                };
                match focused {
                    Some(key) => Some(key),
                    None => self.focus_inactive_view(scope_root),
                }
            },
        };
        let base = match base {
            Some(key) => key,
            None => {
                return false;
            },
        };
        match self.parent_of(base) {
            Some(parent) => {
                assert(self@.parents.contains_key(base));
                if !self.is_descendant(parent, scope_root) {
                    return false;
                }
                self.select_node(parent);
                true
            },
            None => false,
        }
    }

    /// Selects the active child of the selected node.
    pub fn select_child(&mut self) -> (r: bool)
        requires
            old(self).wf(),
        ensures
            final(self).wf(),
            (final(self)@, r) == old(self)@.child_selected(),
            final(self)@.windows() == old(self)@.windows(),
            forall|k: NodeKey| #[trigger] final(self)@.loose(k) ==> old(self)@.loose(k),
            old(self)@.mentions_live() ==> final(self)@.mentions_live(),
    {
        let selected = match self.selected_key() {
            Some(key) => key,
            None => {
                return false;
            },
        };
        if self.get_container(selected).is_none() {
            return false;
        }
        proof {
            lemma_active(self@, selected);
        }
        match self.active_child(selected) {
            Some(child) => {
                self.select_node(child);
                true
            },
            None => false,
        }
    }

    /// Focuses a window by its identity.
    pub fn focus_window_by_id(&mut self, window_id: WindowId) -> (r: bool)
        requires
            old(self).wf(),
        ensures
            final(self).wf(),
            match old(self)@.recent(Pick::Window(window_id)) {
                Some(k) => r && final(self)@ == old(self)@.focused(k),
                None => !r && final(self)@ == old(self)@,
            },
            final(self)@.windows() == old(self)@.windows(),
            forall|k: NodeKey| #[trigger] final(self)@.loose(k) ==> old(self)@.loose(k),
            old(self)@.mentions_live() ==> final(self)@.mentions_live(),
    {
        match self.window_key(window_id) {
            Some(key) => {
                self.focus_node_key(key);
                true
            },
            None => false,
        }
    }

    /// Focuses the parent of the focused window.
    pub fn focus_parent(&mut self) -> (r: bool)
        requires
            old(self).wf(),
        ensures
            final(self).wf(),
            (final(self)@, r) == old(self)@.parent_focused(),
            final(self)@.windows() == old(self)@.windows(),
            forall|k: NodeKey| #[trigger] final(self)@.loose(k) ==> old(self)@.loose(k),
            old(self)@.mentions_live() ==> final(self)@.mentions_live(),
    {
        match self.focused_key() {
            Some(focused) => match self.parent_of(focused) {
                Some(parent) => {
                    self.focus_node_key(parent);
                    true
                },
                None => false,
            },
            None => false,
        }
    }

    /// Focuses the active child of the focused window's parent.
    pub fn focus_child(&mut self) -> (r: bool)
        requires
            old(self).wf(),
        ensures
            final(self).wf(),
            (final(self)@, r) == old(self)@.child_focused(),
            final(self)@.windows() == old(self)@.windows(),
            forall|k: NodeKey| #[trigger] final(self)@.loose(k) ==> old(self)@.loose(k),
            old(self)@.mentions_live() ==> final(self)@.mentions_live(),
    {
        match self.focused_key() {
            Some(focused) => match self.parent_of(focused) {
                Some(parent) => {
                    if self.get_container(parent).is_none() {
                        return false;
                    }
                    match self.active_child(parent) {
                        Some(child) => {
                            self.focus_node_key(child);
                            true
                        },
                        None => false,
                    }
                },
                None => false,
            },
            None => false,
        }
    }

    fn focus_landing_on(&mut self, key: NodeKey, descend: bool)
        requires
            old(self).wf(),
        ensures
            final(self)@ == old(self)@.landed(key, descend),
            final(self).wf(),
            final(self)@.windows() == old(self)@.windows(),
            forall|k: NodeKey| #[trigger] final(self)@.loose(k) ==> old(self)@.loose(k),
            old(self)@.mentions_live() ==> final(self)@.mentions_live(),
    {
        if !descend && self.get_any_container(key).is_some() {
            self.select_node(key);
            return;
        }
        let landing = match self.focus_inactive_view(key) {
            Some(view) => view,
            None => key,
        };
        self.focus_node_key(landing);
    }

    fn find_step_target(
        &self,
        selected_key: NodeKey,
        direction: Direction,
        allow_wrap: bool,
        boundary: Option<NodeKey>,
    ) -> (r: Option<(NodeKey, bool)>)
        requires
            self.wf(),
        ensures
            r == self@.step_target(selected_key, direction, allow_wrap, boundary, None),
    {
        let mut candidate: Option<NodeKey> = None;
        let mut current = selected_key;
        loop
            invariant
                self.wf(),
                self@.step_target(selected_key, direction, allow_wrap, boundary, None)
                    == self@.step_target(current, direction, allow_wrap, boundary, candidate),
            decreases depth(self@.parents, current),
        {
            if self.fullscreen_key() == Some(current) {
                return None;
            }
            let parent = if boundary == Some(current) {
                None
            } else {
                self.parent_of(current)
            };
            let parent_key = match parent {
                Some(parent_key) => parent_key,
                None => {
                    return match candidate {
                        Some(end) => Some((end, true)),
                        None => None,
                    };
                },
            };
            proof {
                lemma_depth(self@.parents, current);
            }
            if let Some(container) = self.get_container(parent_key) {
                if container.layout().is_parallel_to(direction) {
                    if let Some(current_idx) = self.child_index(parent_key, current) {
                        proof {
                            lemma_slot(self@, parent_key, current, current_idx as int);
                        }
                        let count: usize = container.child_count();
                        if allow_wrap && candidate.is_none() && count > 1 {
                            let end: usize = if direction.is_leading() {
                                count - 1
                            } else {
                                0
                            };
                            candidate = container.child_key(end);
                        }
                        if let Some(next) = direction.sibling_index(current_idx, count) {
                            return match container.child_key(next) {
                                Some(target) => Some((target, false)),
                                None => None,
                            };
                        }
                    }
                }
            }
            current = parent_key;
        }
    }

    /// Steps from a node in a direction, climbing until some level has a sibling to land on.
    pub fn focus_in_direction_from_until(
        &mut self,
        selected_key: NodeKey,
        direction: Direction,
        allow_wrap: bool,
        descend: bool,
        boundary: Option<NodeKey>,
    ) -> (r: bool)
        requires
            old(self).wf(),
        ensures
            (final(self)@, r) == old(self)@.stepped(
                selected_key,
                direction,
                allow_wrap,
                descend,
                boundary,
            ),
            final(self).wf(),
            final(self)@.windows() == old(self)@.windows(),
            forall|k: NodeKey| #[trigger] final(self)@.loose(k) ==> old(self)@.loose(k),
            old(self)@.mentions_live() ==> final(self)@.mentions_live(),
    {
        match self.find_step_target(selected_key, direction, allow_wrap, boundary) {
            Some((target, wrapped)) => {
                self.focus_landing_on(target, descend || wrapped);
                true
            },
            None => false,
        }
    }

    fn focus_in_direction_internal(&mut self, direction: Direction, allow_wrap: bool) -> (r: bool)
        requires
            old(self).wf(),
        ensures
            (final(self)@, r) == match old(self)@.selected_node() {
                Some(k) => old(self)@.stepped(k, direction, allow_wrap, true, None),
                None => (old(self)@, false),
            },
            final(self).wf(),
            final(self)@.windows() == old(self)@.windows(),
            forall|k: NodeKey| #[trigger] final(self)@.loose(k) ==> old(self)@.loose(k),
            old(self)@.mentions_live() ==> final(self)@.mentions_live(),
    {
        match self.selected_node_key() {
            Some(key) => self.focus_in_direction_from_until(
                key,
                direction,
                allow_wrap,
                true,
                None,
            ),
            None => false,
        }
    }

    /// Moves focus in a direction.
    pub fn focus_in_direction(&mut self, direction: Direction) -> (r: bool)
        requires
            old(self).wf(),
        ensures
            (final(self)@, r) == old(self)@.step_focused(direction, true),
            final(self).wf(),
            final(self)@.windows() == old(self)@.windows(),
            forall|k: NodeKey| #[trigger] final(self)@.loose(k) ==> old(self)@.loose(k),
            old(self)@.mentions_live() ==> final(self)@.mentions_live(),
    {
        self.focus_in_direction_internal(direction, true)
    }

    /// Moves focus in a direction without wrapping around.
    pub fn focus_in_direction_no_wrap(&mut self, direction: Direction) -> (r: bool)
        requires
            old(self).wf(),
        ensures
            (final(self)@, r) == old(self)@.step_focused(direction, false),
            final(self).wf(),
            final(self)@.windows() == old(self)@.windows(),
            forall|k: NodeKey| #[trigger] final(self)@.loose(k) ==> old(self)@.loose(k),
            old(self)@.mentions_live() ==> final(self)@.mentions_live(),
    {
        self.focus_in_direction_internal(direction, false)
    }

    /// Moves focus in a direction inside one branch, which it never leaves.
    pub fn focus_in_direction_in_branch(
        &mut self,
        branch_root: NodeKey,
        direction: Direction,
        allow_wrap: bool,
    ) -> (r: bool)
        requires
            old(self).wf(),
        ensures
            (final(self)@, r) == match old(self)@.position_in(branch_root) {
                Some(k) => old(self)@.stepped(k, direction, allow_wrap, true, Some(branch_root)),
                None => (old(self)@, false),
            },
            final(self).wf(),
            final(self)@.windows() == old(self)@.windows(),
            forall|k: NodeKey| #[trigger] final(self)@.loose(k) ==> old(self)@.loose(k),
            old(self)@.mentions_live() ==> final(self)@.mentions_live(),
    {
        match self.branch_position(branch_root) {
            Some(start) => self.focus_in_direction_from_until(
                start,
                direction,
                allow_wrap,
                true,
                Some(branch_root),
            ),
            None => false,
        }
    }

    /// The direction `next` or `previous` means for a node.
    pub fn direction_along_parent(&self, key: NodeKey, forward: bool) -> (r: Option<Direction>)
        ensures
            r == self@.along_parent(key, forward),
    {
        match self.parent_of(key) {
            Some(parent_key) => match self.get_container(parent_key) {
                Some(parent) => Some(
                    match (parent.layout().is_horizontal(), forward) {
                        (true, true) => Direction::Right,
                        (true, false) => Direction::Left,
                        (false, true) => Direction::Down,
                        (false, false) => Direction::Up,
                    },
                ),
                None => None,
            },
            None => None,
        }
    }

    /// Moves focus to the next or previous node along the parent's layout.
    pub fn focus_along_parent(&mut self, forward: bool, descend: bool) -> (r: bool)
        requires
            old(self).wf(),
        ensures
            (final(self)@, r) == match old(self)@.selected_node() {
                Some(k) => match old(self)@.along_parent(k, forward) {
                    Some(direction) => old(self)@.stepped(k, direction, true, descend, None),
                    None => (old(self)@, false),
                },
                None => (old(self)@, false),
            },
            final(self).wf(),
            final(self)@.windows() == old(self)@.windows(),
            forall|k: NodeKey| #[trigger] final(self)@.loose(k) ==> old(self)@.loose(k),
            old(self)@.mentions_live() ==> final(self)@.mentions_live(),
    {
        match self.selected_node_key() {
            Some(key) => match self.direction_along_parent(key, forward) {
                Some(direction) => self.focus_in_direction_from_until(
                    key,
                    direction,
                    true,
                    descend,
                    None,
                ),
                None => false,
            },
            None => false,
        }
    }

    /// Focuses the first window of the tiled side, else the first of any.
    pub fn focus_first_leaf(&mut self)
        requires
            old(self).wf(),
        ensures
            final(self)@ == old(self)@.first_focused(),
            final(self).wf(),
            final(self)@.windows() == old(self)@.windows(),
            forall|k: NodeKey| #[trigger] final(self)@.loose(k) ==> old(self)@.loose(k),
            old(self)@.mentions_live() ==> final(self)@.mentions_live(),
    {
        match self.first_leaf_key() {
            Some(key) => {
                self.focus_node_key(key);
            },
            None => {
                let leaves = self.dfs_leaf_keys();
                if leaves.len() > 0 {
                    self.focus_node_key(leaves[0]);
                } else {
                    self.clear_seat();
                }
            },
        }
    }

    /// Keeps the focus where it is, or gives it to the most recent window when nothing holds it.
    pub fn resync_focus(&mut self)
        requires
            old(self).wf(),
        ensures
            final(self)@ == old(self)@.resynced(),
            final(self).wf(),
            final(self)@.windows() == old(self)@.windows(),
            forall|k: NodeKey| #[trigger] final(self)@.loose(k) ==> old(self)@.loose(k),
            old(self)@.mentions_live() ==> final(self)@.mentions_live(),
    {
        if self.focused_key().is_some() {
            return;
        }
        match self.focus_inactive_anywhere() {
            Some(key) => {
                self.focus_node_key(key);
            },
            None => {
                self.focus_first_leaf();
            },
        }
    }

    /// Settles the focus after an insertion: on the new node, or where it was.
    pub fn settle_focus_after_insert(&mut self, key: NodeKey, focus: bool)
        requires
            old(self).wf(),
        ensures
            final(self)@ == old(self)@.settled_on(key, focus),
            final(self).wf(),
            final(self)@.windows() == old(self)@.windows(),
            forall|k: NodeKey| #[trigger] final(self)@.loose(k) ==> old(self)@.loose(k),
            old(self)@.mentions_live() ==> final(self)@.mentions_live(),
    {
        if focus {
            self.focus_node_key(key);
        } else {
            self.resync_focus();
        }
    }

    /// Drops a selection that is no longer in the tree.
    pub fn prune_selected_key(&mut self)
        requires
            old(self).wf(),
        ensures
            final(self)@ == old(self)@.with_seat(
                old(self)@.seat.with_selected(
                    kept_in(old(self)@.seat.selected, old(self)@.nodes.dom()),
                ),
            ),
            final(self).wf(),
            final(self)@.windows() == old(self)@.windows(),
            forall|k: NodeKey| #[trigger] final(self)@.loose(k) ==> old(self)@.loose(k),
            old(self)@.mentions_live() ==> final(self)@.mentions_live(),
    {
        if let Some(key) = self.selected_key() {
            if !self.holds_node(key) {
                self.redirect_selection(None);
            }
        }
    }

    /// Drops everything from the seat that is no longer in the tree.
    pub fn prune_focus_order(&mut self)
        requires
            old(self).wf(),
        ensures
            final(self)@ == old(self)@.pruned(),
            final(self).wf(),
            final(self)@.windows() == old(self)@.windows(),
            forall|k: NodeKey| #[trigger] final(self)@.loose(k) ==> old(self)@.loose(k),
            old(self)@.mentions_live() ==> final(self)@.mentions_live(),
    {
        proof {
            assert forall|k: NodeKey| #[trigger]
                self@.seat.order.contains(k) implies self@.nodes.dom().contains(k) by {
                assert(self@.has(k));
            }
            lemma_within_all(self@.seat.order, self@.nodes.dom());
        }
        if let Some(key) = self.focused_key() {
            if !self.holds_node(key) {
                self.redirect_focused_leaf(None);
            }
        }
        self.prune_selected_key();
        proof {
            crate::windows::lemma_same_windows(old(self)@, self@);
        }
    }

    /// Drops a loose childless node and leaves the focus order as a destroyed node leaves it.
    pub(crate) fn retire_node(&mut self, key: NodeKey, surviving: NodeKey)
        requires
            old(self).wf(),
            old(self)@.has(key),
            key != old(self)@.root,
            !old(self)@.parents.contains_key(key),
            old(self)@.nodes[key].children.len() == 0,
        ensures
            final(self)@ == old(self)@.retired(key, surviving),
            final(self).wf(),
            forall|k: NodeKey| #[trigger]
                final(self)@.loose(k) ==> old(self)@.loose(k) && k != key,
            old(self)@.mentions_live() ==> final(self)@.mentions_live(),
            final(self)@.windows() == old(self)@.windows().remove(key),
            !old(self)@.is_view(key) ==> final(self)@.windows() == old(self)@.windows(),
    {
        let restore = self.seat().node();
        let held = match restore {
            Some(focused) => focused == key || (self.holds_node(focused) && self.is_descendant(
                focused,
                key,
            )),
            None => false,
        };
        self.remove_node_from_store(key);
        if held {
            return;
        }
        proof {
            lemma_first_of(self@, self@.seat.order, Pick::ViewUnder(surviving));
        }
        match self.first_in_order(Pick::ViewUnder(surviving)) {
            Some(next) => {
                self.raw_focus(next);
                let root = self.workspace_root();
                self.raw_focus(root);
                if let Some(focused) = restore {
                    if self.holds_node(focused) {
                        self.raw_focus(focused);
                    }
                }
            },
            None => {},
        }
    }

    fn find_nearest_view(&self, ancestors: &Vec<NodeKey>) -> (r: Option<NodeKey>)
        requires
            self.wf(),
        ensures
            r == self@.nearest_view(ancestors@),
            r matches Some(k) ==> self@.is_view(k),
    {
        let mut i: usize = 0;
        assert(ancestors@.skip(0) =~= ancestors@);
        while i < ancestors.len()
            invariant
                self.wf(),
                i <= ancestors@.len(),
                self@.nearest_view(ancestors@) == self@.nearest_view(ancestors@.skip(i as int)),
            decreases ancestors@.len() - i,
        {
            proof {
                assert(ancestors@.skip(i as int).drop_first() =~= ancestors@.skip(i as int + 1));
            }
            if self.holds_node(ancestors[i]) {
                if let Some(view) = self.focus_inactive_view(ancestors[i]) {
                    return Some(view);
                }
            }
            i = i + 1;
        }
        None
    }

    /// Gives the focus a new place when what held it is gone: the window of the nearest
    /// surviving ancestor, else the most recent of the workspace.
    pub fn reconcile_focus_after_change(
        &mut self,
        focused_removed: bool,
        former_ancestors: &Vec<NodeKey>,
        selection_was_below_fullscreen: bool,
    )
        requires
            old(self).wf(),
        ensures
            final(self)@ == old(self)@.reconciled(
                focused_removed,
                former_ancestors@,
                selection_was_below_fullscreen,
            ),
            final(self).wf(),
            final(self)@.windows() == old(self)@.windows(),
            forall|k: NodeKey| #[trigger] final(self)@.loose(k) ==> old(self)@.loose(k),
            old(self)@.mentions_live() ==> final(self)@.mentions_live(),
    {
        self.prune_focus_order();
        if self.dfs_leaf_keys().len() == 0 {
            self.clear_seat();
            return;
        }
        let lost = focused_removed || match self.focused_key() {
            Some(key) => !self.holds_node(key),
            None => true,
        };
        if !lost {
            return;
        }
        let next = match self.find_nearest_view(former_ancestors) {
            Some(key) => Some(key),
            None => self.focus_inactive_anywhere(),
        };
        let kept = match self.selected_key() {
            Some(selected) => self.get_any_container(selected).is_some() && self.leaf_under_key(
                selected,
            ).is_some(),
            None => false,
        };
        match next {
            Some(key) => {
                if kept || selection_was_below_fullscreen {
                    self.redirect_focused_leaf(Some(key));
                } else {
                    self.focus_node_key(key);
                }
            },
            None => {
                self.focus_first_leaf();
            },
        }
    }
}

/// Settling the focus changes neither the nodes nor how they are linked.
pub proof fn lemma_settled_shape(t: Tree, k: NodeKey, focus: bool)
    ensures
        t.settled_on(k, focus).nodes == t.nodes,
        t.settled_on(k, focus).parents == t.parents,
        t.settled_on(k, focus).root == t.root,
        t.settled_on(k, focus).floating == t.floating,
        t.settled_on(k, focus).fullscreen == t.fullscreen,
        t.settled_on(k, focus).next_key == t.next_key,
{
}

/// Focus and selection never change the tree itself: the nodes, their links and the floating
/// groups stay as they are.
pub proof fn law_focus_leaves_the_tree_alone(t: Tree, k: NodeKey, d: bool)
    ensures
        t.focused(k).nodes == t.nodes,
        t.focused(k).parents == t.parents,
        t.focused(k).floating == t.floating,
        t.focused(k).fullscreen == t.fullscreen,
        t.selecting(k).nodes == t.nodes,
        t.selecting(k).parents == t.parents,
        t.selecting(k).floating == t.floating,
        t.selecting(k).fullscreen == t.fullscreen,
        t.landed(k, d).nodes == t.nodes,
        t.landed(k, d).parents == t.parents,
        t.landed(k, d).floating == t.floating,
{
}

/// Focusing a window makes it the focused one and the most recent of all.
pub proof fn law_focused_window_is_most_recent(t: Tree, k: NodeKey)
    requires
        t.wf(),
        t.is_view(k),
    ensures
        t.focused(k).seat.leaf == Some(k),
        t.focused(k).seat.selected is None,
        t.focused(k).seat.order[0] == k,
{
    crate::tree::lemma_lineage(t.parents, k);
    crate::seat::lemma_raised(t.seat.order, lineage(t.parents, k));
}

/// A directional step that does not wrap lands beside the way it came: on a child of an ancestor
/// of where it started, laid out along the direction, that does not itself hold the start.
pub proof fn law_step_lands_on_a_sibling_of_the_chain(
    t: Tree,
    from: NodeKey,
    direction: Direction,
    boundary: Option<NodeKey>,
)
    requires
        t.wf(),
        t.step_target(from, direction, false, boundary, None) is Some,
    ensures
        ({
            let (target, wrapped) = t.step_target(from, direction, false, boundary, None)->0;
            &&& !wrapped
            &&& t.parents.contains_key(target)
            &&& t.under(from, t.parents[target])
            &&& !t.under(from, target)
            &&& t.nodes[t.parents[target]].layout.parallel(direction)
        }),
    decreases depth(t.parents, from),
{
    let p = t.parents[from];
    lemma_depth(t.parents, from);
    assert(t.under(p, p));
    assert(t.under(from, p));
    if t.is_parent(p) && t.nodes[p].layout.parallel(direction) && t.slot_of(from) is Some {
        let idx = t.kids(p).index_of(from);
        let kids = t.kids(p);
        let w = choose|i: int| 0 <= i < kids.len() && kids[i] == from;
        lemma_slot(t, p, from, w);
        match direction.step(idx, kids.len() as int) {
            Some(n) => {
                let target = kids[n];
                lemma_slot(t, p, target, n);
                assert(target != from) by {
                    assert(t.nodes[p].children.no_duplicates());
                }
                if t.under(from, target) {
                    assert(t.under(p, target));
                    crate::tree::lemma_parent_not_under_child(t.parents, target);
                }
            },
            None => {
                law_step_lands_on_a_sibling_of_the_chain(t, p, direction, boundary);
                lemma_step_chain(t, from, p, direction, boundary);
            },
        }
    } else {
        law_step_lands_on_a_sibling_of_the_chain(t, p, direction, boundary);
        lemma_step_chain(t, from, p, direction, boundary);
    }
}

proof fn lemma_step_chain(
    t: Tree,
    from: NodeKey,
    p: NodeKey,
    direction: Direction,
    boundary: Option<NodeKey>,
)
    requires
        t.wf(),
        t.parents.contains_key(from),
        t.parents[from] == p,
        t.step_target(p, direction, false, boundary, None) matches Some((target, _))
            && t.parents.contains_key(target) && t.under(p, t.parents[target]) && !t.under(
            p,
            target,
        ),
    ensures
        ({
            let target = (t.step_target(p, direction, false, boundary, None)->0).0;
            &&& t.under(from, t.parents[target])
            &&& !t.under(from, target)
        }),
{
    let target = (t.step_target(p, direction, false, boundary, None)->0).0;
    if t.under(from, target) {
        assert(from == target);
        assert(t.under(p, t.parents[target]));
        // The target would be the node itself, and then its parent would be the chain's.
        lemma_depth(t.parents, from);
        lemma_target_above(t, p, direction, boundary);
    }
}

/// What a step from `k` lands on is a child of a proper ancestor of `k`.
proof fn lemma_target_above(
    t: Tree,
    k: NodeKey,
    direction: Direction,
    boundary: Option<NodeKey>,
)
    requires
        t.wf(),
        t.step_target(k, direction, false, boundary, None) is Some,
    ensures
        ({
            let target = (t.step_target(k, direction, false, boundary, None)->0).0;
            &&& t.parents.contains_key(target)
            &&& depth(t.parents, t.parents[target]) < depth(t.parents, k)
        }),
    decreases depth(t.parents, k),
{
    let p = t.parents[k];
    lemma_depth(t.parents, k);
    if t.is_parent(p) && t.nodes[p].layout.parallel(direction) && t.slot_of(k) is Some {
        let idx = t.kids(p).index_of(k);
        let kids = t.kids(p);
        let w = choose|i: int| 0 <= i < kids.len() && kids[i] == k;
        lemma_slot(t, p, k, w);
        match direction.step(idx, kids.len() as int) {
            Some(n) => {
                lemma_slot(t, p, kids[n], n);
            },
            None => {
                lemma_target_above(t, p, direction, boundary);
            },
        }
    } else {
        lemma_target_above(t, p, direction, boundary);
    }
}

} // verus!
