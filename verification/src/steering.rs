//! Commands aimed at the floating side: focus, splits, layouts and moves inside the groups.

use crate::arena::ContainerArena;
use crate::axis::{Direction, Layout, NodeKey};
use crate::measure::Real;
use crate::node::ContainerData;
use crate::space::{lemma_raised_to, lemma_dialog_groups, FloatingSpace};
use crate::split::LayoutCycleEntry;
use crate::tile::WindowId;
use crate::tree::{FloatingGeometry, Tree};
use vstd::prelude::*;

verus! {

/// How the windows of a column are shown.
#[derive(Debug, Clone, Copy, PartialEq, Eq, Structural)]
pub enum ColumnDisplay {
    /// One above the other.
    Normal,
    /// As tabs.
    Tabbed,
}

impl Tree {
    // -----------------------------------------------------------------------------------------
    // Stepping between groups
    // -----------------------------------------------------------------------------------------

    /// A group brought to the top and focused: the window it descends to, or its root.
    pub open spec fn root_focused(self, idx: int, descend: bool) -> Tree {
        let root = self.floating[idx].key;
        let landing = if descend {
            self.inactive_view(root)
        } else {
            None
        };
        let t = self.raised(idx);
        match landing {
            Some(k) => t.focused(k),
            None => if t.is_view(root) {
                t.focused(root)
            } else if t.is_container(root) {
                t.selecting(root)
            } else {
                t
            },
        }
    }

    /// The group one step from `idx`, and whether the step wrapped. The stack runs from the
    /// top down, the list it stands for from the bottom up.
    pub open spec fn group_beside(self, idx: int, direction: Direction, allow_wrap: bool) -> Option<
        (int, bool),
    > {
        let count = self.floating.len() as int;
        if count <= 1 || !self.nodes[self.root].layout.parallel(direction) {
            None
        } else if direction.leading() {
            if idx + 1 < count {
                Some((idx + 1, false))
            } else if allow_wrap {
                Some((0, true))
            } else {
                None
            }
        } else if idx > 0 {
            Some((idx - 1, false))
        } else if allow_wrap {
            Some((count - 1, true))
        } else {
            None
        }
    }

    /// A step to the next group; one that wraps always descends.
    pub open spec fn group_stepped(
        self,
        idx: int,
        direction: Direction,
        descend: bool,
        allow_wrap: bool,
    ) -> (Tree, bool) {
        match self.group_beside(idx, direction, allow_wrap) {
            Some((target, wrapped)) => (self.root_focused(target, descend || wrapped), true),
            None => (self, false),
        }
    }

    /// A step inside the active group, and from its edge to the next group unless the root
    /// itself is where the command stands or something is fullscreen.
    pub open spec fn group_walked(self, direction: Direction, allow_wrap: bool) -> (Tree, bool) {
        match self.active_group() {
            None => (self, false),
            Some(idx) => {
                let root = self.floating[idx].key;
                let (t, done) = match self.position_in(root) {
                    Some(k) => self.stepped(k, direction, allow_wrap, true, Some(root)),
                    None => (self, false),
                };
                if done {
                    (t, true)
                } else if self.position_in(root) == Some(root) || self.fullscreen is Some {
                    (self, false)
                } else {
                    self.group_stepped(idx, direction, true, allow_wrap)
                }
            },
        }
    }

    /// A window of the group at a place of the stack, activated.
    pub open spec fn group_activated(self, idx: int) -> (Tree, bool) {
        match self.branch_view(self.floating[idx].key) {
            Some(k) if self.is_view(k) => (
                self.activated(self.nodes[k].tile->0.window.id).0,
                true,
            ),
            _ => (self, false),
        }
    }

    /// The group `down` of the active one activated, or the one above it, cyclically.
    pub open spec fn stack_stepped(self, down: bool) -> (Tree, bool) {
        let count = self.floating.len() as int;
        match self.active_group() {
            Some(idx) if count > 1 => self.group_activated(
                if down {
                    if idx + 1 < count {
                        idx + 1
                    } else {
                        0
                    }
                } else if idx > 0 {
                    idx - 1
                } else {
                    count - 1
                },
            ),
            _ => (self, false),
        }
    }

    /// Whether the group at `a` was made before the one at `b`.
    pub open spec fn made_before(self, a: int, b: int) -> bool {
        self.floating[a].id < self.floating[b].id || (self.floating[a].id == self.floating[b].id
            && a < b)
    }

    /// Of the first `n` groups, the one made next after the one at `a`.
    pub open spec fn made_next(self, a: int, n: int) -> Option<int>
        decreases n,
    {
        if n <= 0 {
            None
        } else {
            let best = self.made_next(a, n - 1);
            let i = n - 1;
            if self.made_before(a, i) && (best matches Some(b) ==> self.made_before(i, b)) {
                Some(i)
            } else {
                best
            }
        }
    }

    /// Of the first `n` groups, the one made last before the one at `a`.
    pub open spec fn made_previous(self, a: int, n: int) -> Option<int>
        decreases n,
    {
        if n <= 0 {
            None
        } else {
            let best = self.made_previous(a, n - 1);
            let i = n - 1;
            if self.made_before(i, a) && (best matches Some(b) ==> self.made_before(b, i)) {
                Some(i)
            } else {
                best
            }
        }
    }

    /// Of the first `n` groups, the one made first.
    pub open spec fn made_first(self, n: int) -> int
        decreases n,
    {
        if n <= 1 {
            0
        } else {
            let best = self.made_first(n - 1);
            if self.made_before(n - 1, best) {
                n - 1
            } else {
                best
            }
        }
    }

    /// Of the first `n` groups, the one made last.
    pub open spec fn made_last(self, n: int) -> int
        decreases n,
    {
        if n <= 1 {
            0
        } else {
            let best = self.made_last(n - 1);
            if self.made_before(best, n - 1) {
                n - 1
            } else {
                best
            }
        }
    }

    /// The group after the one at `a` in the order they were made, cyclically, or in the
    /// opposite order.
    pub open spec fn in_making_order(self, a: int, descending: bool) -> int {
        let count = self.floating.len() as int;
        if descending {
            match self.made_previous(a, count) {
                Some(i) => i,
                None => self.made_last(count),
            }
        } else {
            match self.made_next(a, count) {
                Some(i) => i,
                None => self.made_first(count),
            }
        }
    }

    /// The next group in the order they were made activated.
    pub open spec fn making_stepped(self, descending: bool) -> (Tree, bool) {
        match self.active_group() {
            Some(idx) if self.floating.len() > 1 => {
                let target = self.in_making_order(idx, descending);
                if target == idx {
                    (self, false)
                } else {
                    self.group_activated(target)
                }
            },
            _ => (self, false),
        }
    }

    /// Whether several groups float and every one of them is a lone window.
    pub open spec fn lone_windows_float(self) -> bool {
        &&& self.floating.len() > 1
        &&& (self.active_root() matches Some(root) && self.is_view(root))
        &&& forall|i: int|
            0 <= i < self.floating.len() ==> self.is_view((#[trigger] self.floating[i]).key)
    }

    /// The group nearest in a direction, as it was measured, focused.
    pub open spec fn nearest_focused(self, nearest: Option<NodeKey>) -> (Tree, bool) {
        match nearest {
            Some(root) if self.is_floating(root) => (
                self.root_focused(self.stack_index(root), true),
                true,
            ),
            _ => (self, false),
        }
    }

    /// A focus command sideways on the floating side. `nearest` is the group that lies nearest
    /// in that direction.
    pub open spec fn focus_sideways(self, left: bool, nearest: Option<NodeKey>) -> (Tree, bool) {
        let direction = if left {
            Direction::Left
        } else {
            Direction::Right
        };
        let (t, done) = self.group_walked(direction, true);
        if done {
            (t, true)
        } else if self.fullscreen is Some {
            (self, false)
        } else if self.lone_windows_float() {
            self.making_stepped(left)
        } else {
            let (u, stepped) = self.stack_stepped(left);
            if stepped {
                (u, true)
            } else {
                self.nearest_focused(nearest)
            }
        }
    }

    /// A focus command on the floating side that only goes where something lies.
    pub open spec fn focus_toward(
        self,
        direction: Direction,
        allow_wrap: bool,
        nearest: Option<NodeKey>,
    ) -> (Tree, bool) {
        let (t, done) = self.group_walked(direction, allow_wrap);
        if done {
            (t, true)
        } else if self.fullscreen is Some {
            (self, false)
        } else {
            self.nearest_focused(nearest)
        }
    }

    /// `focus next` or `focus prev` on the floating side.
    pub open spec fn float_stepped(
        self,
        forward: bool,
        descend: bool,
        nearest: Option<NodeKey>,
    ) -> (Tree, bool) {
        match self.active_group() {
            None => (self, false),
            Some(idx) => {
                let root = self.floating[idx].key;
                let held = self.selected_node();
                match (self.position_in(root), held) {
                    (Some(position), Some(k)) => match self.along_parent(k, forward) {
                        None => (self, false),
                        Some(direction) => {
                            let (t, done) = self.stepped(k, direction, true, descend, None);
                            if done {
                                (t, true)
                            } else if self.fullscreen is Some || self.floating.len() <= 1 {
                                (self, false)
                            } else if position == root {
                                match nearest {
                                    Some(r) if self.is_floating(r) => (
                                        self.root_focused(self.stack_index(r), false),
                                        true,
                                    ),
                                    _ => (self, false),
                                }
                            } else {
                                self.group_stepped(idx, direction, descend, true)
                            }
                        },
                    },
                    _ => (self, false),
                }
            },
        }
    }

    // -----------------------------------------------------------------------------------------
    // Splits, layouts and moves
    // -----------------------------------------------------------------------------------------

    /// A move of the target of a group.
    #[verifier::opaque]
    pub open spec fn group_moved(self, root: NodeKey, direction: Direction) -> (Tree, bool) {
        self.move_commanded(direction, self.target_in(root))
    }

    /// A split of the target of a group. A window that is the whole group goes into a container
    /// that takes its place on the stack.
    #[verifier::opaque]
    pub open spec fn group_split(self, root: NodeKey, layout: Layout) -> Tree {
        let k = self.target_in(root);
        if self.is_view(k) && self.is_floating(k) {
            self.root_wrapped(
                k,
                NodeKey { id: self.next_key },
                Tree::asked_for(layout),
            ).readdressed()
        } else {
            self.split_commanded(layout, k).0
        }
    }

    /// A window activated if one is named, then moved inside its group, or split off where it
    /// cannot move.
    pub open spec fn consumed(self, window: Option<WindowId>, direction: Direction) -> Tree {
        let (t, ready) = match window {
            Some(id) => self.activated(id),
            None => (self, true),
        };
        if !ready {
            t
        } else {
            match t.active_root() {
                None => t,
                Some(root) => {
                    let (u, done) = t.group_moved(root, direction);
                    if done {
                        u
                    } else {
                        t.group_split(root, Layout::SplitV)
                    }
                },
            }
        }
    }

    /// The layout of the container a command in a branch stands in.
    pub open spec fn standing_layout(self, branch: NodeKey) -> Option<Layout> {
        let k = self.target_in(branch);
        if self.is_parent(k) {
            Some(self.nodes[k].layout)
        } else {
            match self.parent(k) {
                Some(p) if self.is_parent(p) => Some(self.nodes[p].layout),
                _ => None,
            }
        }
    }
}

/// Bringing a group up changes only the order of the stack.
pub proof fn lemma_raised(t: Tree, idx: int)
    requires
        t.wf(),
        0 <= idx < t.floating.len(),
    ensures
        t.raised(idx).wf(),
        t.raised(idx) == t.with_floating(t.raised(idx).floating),
        t.raised(idx).floating.len() == t.floating.len(),
{
    let u = t.restacked(idx, 0);
    crate::floats::lemma_moved_stack(t, idx, 0);
    let seen = u.group_ids(u.floating[0].key);
    lemma_dialog_groups(u, 0, u.floating.len() - 1, seen);
    let groups = u.dialog_groups(0, u.floating.len() - 1, seen);
    assert forall|i: int| 0 <= i < groups.len() implies 0 + i <= #[trigger] groups[i] && groups[i]
        < u.floating.len() by {}
    lemma_raised_to(u, groups, 0);
}

/// Activating a window adds no node.
pub proof fn lemma_activated(t: Tree, id: WindowId)
    requires
        t.wf(),
    ensures
        t.activated(id).0.next_key == t.next_key,
{
    if let Some(idx) = t.group_of(id) {
        let k = t.floating_window(id)->0;
        assert(t.in_float(k));
        let i = choose|i: int|
            0 <= i < t.floating.len() && #[trigger] t.floating[i].key == t.branch(k);
        crate::swap::lemma_stack_index(t, t.branch(k), i);
        lemma_raised(t, idx);
    }
}

impl FloatingSpace {
    fn focus_root_at(&self, containers: &mut ContainerArena, idx: usize, descend: bool)
        requires
            old(containers).wf(),
            idx < old(containers)@.floating.len(),
        ensures
            final(containers).wf(),
            final(containers)@ == old(containers)@.root_focused(idx as int, descend),
            final(containers)@.windows() == old(containers)@.windows(),
            forall|k: NodeKey| #[trigger]
                final(containers)@.loose(k) ==> old(containers)@.loose(k),
            old(containers)@.mentions_live() ==> final(containers)@.mentions_live(),
    {
        let root = containers.floating()[idx].key;
        let landing = if descend {
            containers.focus_inactive_view(root)
        } else {
            None
        };
        self.raise_container(containers, idx);
        match landing {
            Some(leaf) => containers.focus_node(leaf),
            None => if containers.is_leaf(root) {
                containers.focus_node(root);
            } else {
                containers.select_container(root);
            },
        }
    }

    fn step_root_sibling(
        &self,
        containers: &mut ContainerArena,
        idx: usize,
        direction: Direction,
        descend: bool,
        allow_wrap: bool,
    ) -> (r: bool)
        requires
            old(containers).wf(),
            idx < old(containers)@.floating.len(),
        ensures
            final(containers).wf(),
            (final(containers)@, r) == old(containers)@.group_stepped(
                idx as int,
                direction,
                descend,
                allow_wrap,
            ),
            final(containers)@.windows() == old(containers)@.windows(),
            forall|k: NodeKey| #[trigger]
                final(containers)@.loose(k) ==> old(containers)@.loose(k),
            old(containers)@.mentions_live() ==> final(containers)@.mentions_live(),
    {
        let count: usize = containers.floating_root_count();
        if count <= 1 {
            return false;
        }
        if !containers.workspace_layout().is_parallel_to(direction) {
            return false;
        }
        let (target, wrapped) = if direction.is_leading() {
            if idx + 1 < count {
                (idx + 1, false)
            } else if allow_wrap {
                (0, true)
            } else {
                return false;
            }
        } else if idx > 0 {
            (idx - 1, false)
        } else if allow_wrap {
            (count - 1, true)
        } else {
            return false;
        };
        self.focus_root_at(containers, target, descend || wrapped);
        true
    }

    fn focus_within_active_container(
        &self,
        containers: &mut ContainerArena,
        direction: Direction,
        allow_wrap: bool,
    ) -> (r: bool)
        requires
            old(containers).wf(),
        ensures
            final(containers).wf(),
            (final(containers)@, r) == old(containers)@.group_walked(direction, allow_wrap),
            !r ==> final(containers)@ == old(containers)@,
            final(containers)@.windows() == old(containers)@.windows(),
            forall|k: NodeKey| #[trigger]
                final(containers)@.loose(k) ==> old(containers)@.loose(k),
            old(containers)@.mentions_live() ==> final(containers)@.mentions_live(),
    {
        let idx: usize = match self.active_container_idx(containers) {
            Some(idx) => idx,
            None => {
                return false;
            },
        };
        let root = containers.floating()[idx].key;
        if containers.focus_in_direction_in_branch(root, direction, allow_wrap) {
            return true;
        }
        if containers.branch_position(root) == Some(root) {
            return false;
        }
        if containers.fullscreen_key().is_some() {
            return false;
        }
        self.step_root_sibling(containers, idx, direction, true, allow_wrap)
    }

    fn activate_group(&mut self, containers: &mut ContainerArena, idx: usize) -> (r: bool)
        requires
            old(containers).wf(),
            idx < old(containers)@.floating.len(),
        ensures
            final(containers).wf(),
            final(self)@ == old(self)@,
            (final(containers)@, r) == old(containers)@.group_activated(idx as int),
            final(containers)@.windows() == old(containers)@.windows(),
            forall|k: NodeKey| #[trigger]
                final(containers)@.loose(k) ==> old(containers)@.loose(k),
            old(containers)@.mentions_live() ==> final(containers)@.mentions_live(),
    {
        let root = containers.floating()[idx].key;
        let id = match containers.focused_window_in_branch(root) {
            Some(tile) => tile.window.id,
            None => {
                return false;
            },
        };
        self.activate_window(containers, id);
        true
    }

    fn focus_in_stack_order(&mut self, containers: &mut ContainerArena, down: bool) -> (r: bool)
        requires
            old(containers).wf(),
        ensures
            final(containers).wf(),
            final(self)@ == old(self)@,
            (final(containers)@, r) == old(containers)@.stack_stepped(down),
            !r ==> final(containers)@ == old(containers)@,
            final(containers)@.windows() == old(containers)@.windows(),
            forall|k: NodeKey| #[trigger]
                final(containers)@.loose(k) ==> old(containers)@.loose(k),
            old(containers)@.mentions_live() ==> final(containers)@.mentions_live(),
    {
        let count: usize = containers.floating_root_count();
        if count <= 1 {
            return false;
        }
        let idx: usize = match self.active_container_idx(containers) {
            Some(idx) => idx,
            None => {
                return false;
            },
        };
        let target: usize = if down {
            if idx + 1 < count {
                idx + 1
            } else {
                0
            }
        } else if idx > 0 {
            idx - 1
        } else {
            count - 1
        };
        self.activate_group(containers, target)
    }

    fn in_making_order(&self, containers: &ContainerArena, idx: usize, descending: bool) -> (r:
        usize)
        requires
            containers.wf(),
            idx < containers@.floating.len(),
        ensures
            r == containers@.in_making_order(idx as int, descending),
            r < containers@.floating.len(),
    {
        let floating = containers.floating();
        let ghost t = containers@;
        let count: usize = floating.len();
        let mut next: Option<usize> = None;
        let mut end: usize = 0;
        let mut i: usize = 0;
        while i < count
            invariant
                i <= count,
                t == containers@,
                floating@ == t.floating,
                count == t.floating.len(),
                idx < count,
                end < count,
                next matches Some(n) ==> n < count,
                match next {
                    Some(n) => Some(n as int),
                    None => None,
                } == if descending {
                    t.made_previous(idx as int, i as int)
                } else {
                    t.made_next(idx as int, i as int)
                },
                end == if descending {
                    t.made_last(i as int)
                } else {
                    t.made_first(i as int)
                },
            decreases count - i,
        {
            let reached = if descending {
                made_before(floating, i, idx)
            } else {
                made_before(floating, idx, i)
            };
            let better = match next {
                Some(n) => if descending {
                    made_before(floating, n, i)
                } else {
                    made_before(floating, i, n)
                },
                None => true,
            };
            if reached && better {
                next = Some(i);
            }
            let further = if descending {
                made_before(floating, end, i)
            } else {
                made_before(floating, i, end)
            };
            if i > 0 && further {
                end = i;
            }
            i = i + 1;
        }
        match next {
            Some(n) => n,
            None => end,
        }
    }

    fn focus_in_stable_container_order(
        &mut self,
        containers: &mut ContainerArena,
        descending: bool,
    ) -> (r: bool)
        requires
            old(containers).wf(),
        ensures
            final(containers).wf(),
            final(self)@ == old(self)@,
            (final(containers)@, r) == old(containers)@.making_stepped(descending),
            final(containers)@.windows() == old(containers)@.windows(),
            forall|k: NodeKey| #[trigger]
                final(containers)@.loose(k) ==> old(containers)@.loose(k),
            old(containers)@.mentions_live() ==> final(containers)@.mentions_live(),
    {
        if containers.floating_root_count() <= 1 {
            return false;
        }
        let idx: usize = match self.active_container_idx(containers) {
            Some(idx) => idx,
            None => {
                return false;
            },
        };
        let target: usize = self.in_making_order(containers, idx, descending);
        if target == idx {
            return false;
        }
        self.activate_group(containers, target)
    }

    fn should_cycle_top_level_stable_order(&self, containers: &ContainerArena) -> (r: bool)
        requires
            containers.wf(),
        ensures
            r == containers@.lone_windows_float(),
    {
        let floating = containers.floating();
        if floating.len() <= 1 {
            return false;
        }
        match self.active_root(containers) {
            Some(root) => {
                if !containers.is_leaf(root) {
                    return false;
                }
            },
            None => {
                return false;
            },
        }
        let mut i: usize = 0;
        while i < floating.len()
            invariant
                i <= floating@.len(),
                floating@ == containers@.floating,
                forall|j: int|
                    0 <= j < i ==> containers@.is_view((#[trigger] floating@[j]).key),
            decreases floating@.len() - i,
        {
            if !containers.is_leaf(floating[i].key) {
                return false;
            }
            i = i + 1;
        }
        true
    }

    fn focus_directional(&self, containers: &mut ContainerArena, nearest: Option<NodeKey>) -> (r:
        bool)
        requires
            old(containers).wf(),
        ensures
            final(containers).wf(),
            (final(containers)@, r) == old(containers)@.nearest_focused(nearest),
            final(containers)@.windows() == old(containers)@.windows(),
            forall|k: NodeKey| #[trigger]
                final(containers)@.loose(k) ==> old(containers)@.loose(k),
            old(containers)@.mentions_live() ==> final(containers)@.mentions_live(),
    {
        match nearest {
            Some(root) => match containers.floating_root_index(root) {
                Some(idx) => {
                    proof {
                        crate::swap::lemma_stack_index(containers@, root, idx as int);
                    }
                    self.focus_root_at(containers, idx, true);
                    true
                },
                None => false,
            },
            None => false,
        }
    }

    fn focus_sideways(
        &mut self,
        containers: &mut ContainerArena,
        left: bool,
        nearest: Option<NodeKey>,
    ) -> (r: bool)
        requires
            old(containers).wf(),
        ensures
            final(containers).wf(),
            final(self)@ == old(self)@,
            (final(containers)@, r) == old(containers)@.focus_sideways(left, nearest),
            final(containers)@.windows() == old(containers)@.windows(),
            forall|k: NodeKey| #[trigger]
                final(containers)@.loose(k) ==> old(containers)@.loose(k),
            old(containers)@.mentions_live() ==> final(containers)@.mentions_live(),
    {
        let direction = if left {
            Direction::Left
        } else {
            Direction::Right
        };
        if self.focus_within_active_container(containers, direction, true) {
            return true;
        }
        if containers.fullscreen_key().is_some() {
            return false;
        }
        if self.should_cycle_top_level_stable_order(containers) {
            return self.focus_in_stable_container_order(containers, left);
        }
        if self.focus_in_stack_order(containers, left) {
            return true;
        }
        self.focus_directional(containers, nearest)
    }

    fn focus_toward(
        &mut self,
        containers: &mut ContainerArena,
        direction: Direction,
        allow_wrap: bool,
        nearest: Option<NodeKey>,
    ) -> (r: bool)
        requires
            old(containers).wf(),
        ensures
            final(containers).wf(),
            final(self)@ == old(self)@,
            (final(containers)@, r) == old(containers)@.focus_toward(
                direction,
                allow_wrap,
                nearest,
            ),
            final(containers)@.windows() == old(containers)@.windows(),
            forall|k: NodeKey| #[trigger]
                final(containers)@.loose(k) ==> old(containers)@.loose(k),
            old(containers)@.mentions_live() ==> final(containers)@.mentions_live(),
    {
        if self.focus_within_active_container(containers, direction, allow_wrap) {
            return true;
        }
        if containers.fullscreen_key().is_some() {
            return false;
        }
        self.focus_directional(containers, nearest)
    }

    /// Focuses to the left. `distances` has, for each place on the stack, how far
    /// the centre of the group there lies that way.
    pub fn focus_left(&mut self, containers: &mut ContainerArena, distances: &Vec<Real>) -> (r:
        bool)
        requires
            old(containers).wf(),
        ensures
            final(containers).wf(),
            final(self)@ == old(self)@,
            (final(containers)@, r) == old(containers)@.focus_sideways(
                true,
                old(containers)@.nearest_group(distances@),
            ),
            final(containers)@.windows() == old(containers)@.windows(),
            forall|k: NodeKey| #[trigger]
                final(containers)@.loose(k) ==> old(containers)@.loose(k),
            old(containers)@.mentions_live() ==> final(containers)@.mentions_live(),
    {
        let nearest = self.directional_root(containers, distances);
        self.focus_sideways(containers, true, nearest)
    }

    pub fn focus_left_no_wrap(
        &mut self,
        containers: &mut ContainerArena,
        distances: &Vec<Real>,
    ) -> (r: bool)
        requires
            old(containers).wf(),
        ensures
            final(containers).wf(),
            final(self)@ == old(self)@,
            (final(containers)@, r) == old(containers)@.focus_toward(
                Direction::Left,
                false,
                old(containers)@.nearest_group(distances@),
            ),
            final(containers)@.windows() == old(containers)@.windows(),
            forall|k: NodeKey| #[trigger]
                final(containers)@.loose(k) ==> old(containers)@.loose(k),
            old(containers)@.mentions_live() ==> final(containers)@.mentions_live(),
    {
        let nearest = self.directional_root(containers, distances);
        self.focus_toward(containers, Direction::Left, false, nearest)
    }

    /// Focuses to the right. `distances` has, for each place on the stack, how far
    /// the centre of the group there lies that way.
    pub fn focus_right(&mut self, containers: &mut ContainerArena, distances: &Vec<Real>) -> (r:
        bool)
        requires
            old(containers).wf(),
        ensures
            final(containers).wf(),
            final(self)@ == old(self)@,
            (final(containers)@, r) == old(containers)@.focus_sideways(
                false,
                old(containers)@.nearest_group(distances@),
            ),
            final(containers)@.windows() == old(containers)@.windows(),
            forall|k: NodeKey| #[trigger]
                final(containers)@.loose(k) ==> old(containers)@.loose(k),
            old(containers)@.mentions_live() ==> final(containers)@.mentions_live(),
    {
        let nearest = self.directional_root(containers, distances);
        self.focus_sideways(containers, false, nearest)
    }

    pub fn focus_right_no_wrap(
        &mut self,
        containers: &mut ContainerArena,
        distances: &Vec<Real>,
    ) -> (r: bool)
        requires
            old(containers).wf(),
        ensures
            final(containers).wf(),
            final(self)@ == old(self)@,
            (final(containers)@, r) == old(containers)@.focus_toward(
                Direction::Right,
                false,
                old(containers)@.nearest_group(distances@),
            ),
            final(containers)@.windows() == old(containers)@.windows(),
            forall|k: NodeKey| #[trigger]
                final(containers)@.loose(k) ==> old(containers)@.loose(k),
            old(containers)@.mentions_live() ==> final(containers)@.mentions_live(),
    {
        let nearest = self.directional_root(containers, distances);
        self.focus_toward(containers, Direction::Right, false, nearest)
    }

    pub fn focus_up(&mut self, containers: &mut ContainerArena, distances: &Vec<Real>) -> (r:
        bool)
        requires
            old(containers).wf(),
        ensures
            final(containers).wf(),
            final(self)@ == old(self)@,
            (final(containers)@, r) == old(containers)@.focus_toward(
                Direction::Up,
                true,
                old(containers)@.nearest_group(distances@),
            ),
            final(containers)@.windows() == old(containers)@.windows(),
            forall|k: NodeKey| #[trigger]
                final(containers)@.loose(k) ==> old(containers)@.loose(k),
            old(containers)@.mentions_live() ==> final(containers)@.mentions_live(),
    {
        let nearest = self.directional_root(containers, distances);
        self.focus_toward(containers, Direction::Up, true, nearest)
    }

    pub fn focus_up_no_wrap(
        &mut self,
        containers: &mut ContainerArena,
        distances: &Vec<Real>,
    ) -> (r: bool)
        requires
            old(containers).wf(),
        ensures
            final(containers).wf(),
            final(self)@ == old(self)@,
            (final(containers)@, r) == old(containers)@.focus_toward(
                Direction::Up,
                false,
                old(containers)@.nearest_group(distances@),
            ),
            final(containers)@.windows() == old(containers)@.windows(),
            forall|k: NodeKey| #[trigger]
                final(containers)@.loose(k) ==> old(containers)@.loose(k),
            old(containers)@.mentions_live() ==> final(containers)@.mentions_live(),
    {
        let nearest = self.directional_root(containers, distances);
        self.focus_toward(containers, Direction::Up, false, nearest)
    }

    pub fn focus_down(&mut self, containers: &mut ContainerArena, distances: &Vec<Real>) -> (r:
        bool)
        requires
            old(containers).wf(),
        ensures
            final(containers).wf(),
            final(self)@ == old(self)@,
            (final(containers)@, r) == old(containers)@.focus_toward(
                Direction::Down,
                true,
                old(containers)@.nearest_group(distances@),
            ),
            final(containers)@.windows() == old(containers)@.windows(),
            forall|k: NodeKey| #[trigger]
                final(containers)@.loose(k) ==> old(containers)@.loose(k),
            old(containers)@.mentions_live() ==> final(containers)@.mentions_live(),
    {
        let nearest = self.directional_root(containers, distances);
        self.focus_toward(containers, Direction::Down, true, nearest)
    }

    pub fn focus_down_no_wrap(
        &mut self,
        containers: &mut ContainerArena,
        distances: &Vec<Real>,
    ) -> (r: bool)
        requires
            old(containers).wf(),
        ensures
            final(containers).wf(),
            final(self)@ == old(self)@,
            (final(containers)@, r) == old(containers)@.focus_toward(
                Direction::Down,
                false,
                old(containers)@.nearest_group(distances@),
            ),
            final(containers)@.windows() == old(containers)@.windows(),
            forall|k: NodeKey| #[trigger]
                final(containers)@.loose(k) ==> old(containers)@.loose(k),
            old(containers)@.mentions_live() ==> final(containers)@.mentions_live(),
    {
        let nearest = self.directional_root(containers, distances);
        self.focus_toward(containers, Direction::Down, false, nearest)
    }

    /// Focuses the next or the previous sibling, leaving the group when it has no more.
    /// `distances` has, for each place on the stack, how far the centre of the group there lies in
    /// the direction that means.
    pub fn focus_along_parent(
        &mut self,
        containers: &mut ContainerArena,
        forward: bool,
        descend: bool,
        distances: &Vec<Real>,
    ) -> (r: bool)
        requires
            old(containers).wf(),
        ensures
            final(containers).wf(),
            final(self)@ == old(self)@,
            (final(containers)@, r) == old(containers)@.float_stepped(
                forward,
                descend,
                old(containers)@.nearest_group(distances@),
            ),
            final(containers)@.windows() == old(containers)@.windows(),
            forall|k: NodeKey| #[trigger]
                final(containers)@.loose(k) ==> old(containers)@.loose(k),
            old(containers)@.mentions_live() ==> final(containers)@.mentions_live(),
    {
        let nearest = self.directional_root(containers, distances);
        let idx: usize = match self.active_container_idx(containers) {
            Some(idx) => idx,
            None => {
                return false;
            },
        };
        let root = containers.floating()[idx].key;
        let position = match containers.branch_position(root) {
            Some(position) => position,
            None => {
                return false;
            },
        };
        let held = match containers.selected_node_key() {
            Some(held) => held,
            None => {
                return false;
            },
        };
        let direction = match containers.direction_along_parent(held, forward) {
            Some(direction) => direction,
            None => {
                return false;
            },
        };
        if containers.focus_along_parent(forward, descend) {
            return true;
        }
        if containers.fullscreen_key().is_some() || containers.floating_root_count() <= 1 {
            return false;
        }
        if position == root {
            return match nearest {
                Some(candidate) => match containers.floating_root_index(candidate) {
                    Some(target) => {
                        proof {
                            crate::swap::lemma_stack_index(containers@, candidate, target as int);
                        }
                        self.focus_root_at(containers, target, false);
                        true
                    },
                    None => false,
                },
                None => false,
            };
        }
        self.step_root_sibling(containers, idx, direction, descend, true)
    }

    /// Selects what is above the position in the active group, and above its root the
    /// workspace. Nothing is above what is fullscreen.
    pub fn focus_parent(&mut self, containers: &mut ContainerArena) -> (r: bool)
        requires
            old(containers).wf(),
        ensures
            final(containers).wf(),
            final(self)@ == old(self)@,
            old(containers)@.active_root() is None ==> !r && final(containers)@ == old(
                containers,
            )@,
            old(containers)@.active_root() matches Some(root) ==> {
                let t = old(containers)@;
                if t.selected_node() is Some && t.fullscreen == t.selected_node() {
                    r && final(containers)@ == t
                } else {
                    let base = match t.seat.selected {
                        Some(k) if t.under(k, root) => Some(k),
                        _ => match t.seat.leaf {
                            Some(k) if t.under(k, root) => Some(k),
                            _ => t.inactive_view(root),
                        },
                    };
                    let up = match base {
                        Some(k) => t.parent(k),
                        None => None,
                    };
                    let outer = match t.seat.selected {
                        Some(k) => t.parent(k),
                        None => match t.seat.leaf {
                            Some(k) => t.parent(k),
                            None => match t.leaf_under(t.root) {
                                Some(k) => t.parent(k),
                                None => None,
                            },
                        },
                    };
                    match up {
                        Some(p) if t.under(p, root) => r && final(containers)@ == t.selecting(p),
                        _ => match outer {
                            Some(p) => r && final(containers)@ == t.selecting(p),
                            None => !r && final(containers)@ == t,
                        },
                    }
                }
            },
            final(containers)@.windows() == old(containers)@.windows(),
            forall|k: NodeKey| #[trigger]
                final(containers)@.loose(k) ==> old(containers)@.loose(k),
            old(containers)@.mentions_live() ==> final(containers)@.mentions_live(),
    {
        let root = match self.active_root(containers) {
            Some(root) => root,
            None => {
                return false;
            },
        };
        let position = containers.selected_node_key();
        if position.is_some() && containers.fullscreen_key() == position {
            return true;
        }
        if containers.select_parent_in(root) {
            return true;
        }
        containers.select_parent()
    }

    /// Selects the active child of the container selected in the active group.
    pub fn focus_child(&mut self, containers: &mut ContainerArena) -> (r: bool)
        requires
            old(containers).wf(),
        ensures
            final(containers).wf(),
            final(self)@ == old(self)@,
            ({
                let t = old(containers)@;
                let child = match (t.active_root(), t.seat.selected) {
                    (Some(root), Some(k)) if t.is_split(k) && t.under(k, root) => t.active(k),
                    _ => None,
                };
                match child {
                    Some(c) => r && final(containers)@ == t.selecting(c),
                    None => !r && final(containers)@ == t,
                }
            }),
            final(containers)@.windows() == old(containers)@.windows(),
            forall|k: NodeKey| #[trigger]
                final(containers)@.loose(k) ==> old(containers)@.loose(k),
            old(containers)@.mentions_live() ==> final(containers)@.mentions_live(),
    {
        let root = match self.active_root(containers) {
            Some(root) => root,
            None => {
                return false;
            },
        };
        match containers.selected_container_key() {
            Some(key) => containers.is_descendant(key, root) && containers.select_child(),
            None => false,
        }
    }

    // -----------------------------------------------------------------------------------------
    // Splits, layouts and moves
    // -----------------------------------------------------------------------------------------

    fn split_container(&self, containers: &mut ContainerArena, layout: Layout)
        requires
            old(containers).wf(),
            old(containers)@.next_key < u64::MAX,
        ensures
            final(containers).wf(),
            final(containers)@ == match old(containers)@.active_root() {
                Some(root) => old(containers)@.group_split(root, layout),
                None => old(containers)@,
            },
            final(containers)@.windows() == old(containers)@.windows(),
            forall|k: NodeKey| #[trigger]
                final(containers)@.loose(k) ==> old(containers)@.loose(k),
            old(containers)@.mentions_live() ==> final(containers)@.mentions_live(),
    {
        if let Some(root) = self.active_root(containers) {
            self.split_group(containers, root, layout);
        }
    }

    /// Splits the target of the active group side by side.
    pub fn split_horizontal(&mut self, containers: &mut ContainerArena)
        requires
            old(containers).wf(),
            old(containers)@.next_key < u64::MAX,
        ensures
            final(containers).wf(),
            final(self)@ == old(self)@,
            final(containers)@ == match old(containers)@.active_root() {
                Some(root) => old(containers)@.group_split(root, Layout::SplitH),
                None => old(containers)@,
            },
            final(containers)@.windows() == old(containers)@.windows(),
            forall|k: NodeKey| #[trigger]
                final(containers)@.loose(k) ==> old(containers)@.loose(k),
            old(containers)@.mentions_live() ==> final(containers)@.mentions_live(),
    {
        self.split_container(containers, Layout::SplitH);
    }

    /// Splits the target of the active group one above the other.
    pub fn split_vertical(&mut self, containers: &mut ContainerArena)
        requires
            old(containers).wf(),
            old(containers)@.next_key < u64::MAX,
        ensures
            final(containers).wf(),
            final(self)@ == old(self)@,
            final(containers)@ == match old(containers)@.active_root() {
                Some(root) => old(containers)@.group_split(root, Layout::SplitV),
                None => old(containers)@,
            },
            final(containers)@.windows() == old(containers)@.windows(),
            forall|k: NodeKey| #[trigger]
                final(containers)@.loose(k) ==> old(containers)@.loose(k),
            old(containers)@.mentions_live() ==> final(containers)@.mentions_live(),
    {
        self.split_container(containers, Layout::SplitV);
    }

    /// Takes back the splits around the target of the active group. `geometry` is the geometry
    /// of the group when its target becomes its root.
    pub fn split_none(&mut self, containers: &mut ContainerArena, geometry: FloatingGeometry)
        requires
            old(containers).wf(),
        ensures
            final(containers).wf(),
            final(self)@ == old(self)@,
            final(containers)@ == match old(containers)@.active_root() {
                Some(root) => old(containers)@.unsplit(
                    old(containers)@.target_in(root),
                    geometry,
                ).0,
                None => old(containers)@,
            },
            final(containers)@.windows() == old(containers)@.windows(),
            forall|k: NodeKey| #[trigger]
                final(containers)@.loose(k) ==> old(containers)@.loose(k),
            old(containers)@.mentions_live() ==> final(containers)@.mentions_live(),
    {
        if let Some(root) = self.active_root(containers) {
            let target = containers.command_target_in(root);
            containers.unsplit_target(target, geometry);
        }
    }

    /// A column takes the target in: it is split one above the other.
    pub fn consume_into_column(&mut self, containers: &mut ContainerArena)
        requires
            old(containers).wf(),
            old(containers)@.next_key < u64::MAX,
        ensures
            final(containers).wf(),
            final(self)@ == old(self)@,
            final(containers)@ == match old(containers)@.active_root() {
                Some(root) => old(containers)@.group_split(root, Layout::SplitV),
                None => old(containers)@,
            },
            final(containers)@.windows() == old(containers)@.windows(),
            forall|k: NodeKey| #[trigger]
                final(containers)@.loose(k) ==> old(containers)@.loose(k),
            old(containers)@.mentions_live() ==> final(containers)@.mentions_live(),
    {
        self.split_container(containers, Layout::SplitV);
    }

    /// A column lets the target go: it is split side by side.
    pub fn expel_from_column(&mut self, containers: &mut ContainerArena)
        requires
            old(containers).wf(),
            old(containers)@.next_key < u64::MAX,
        ensures
            final(containers).wf(),
            final(self)@ == old(self)@,
            final(containers)@ == match old(containers)@.active_root() {
                Some(root) => old(containers)@.group_split(root, Layout::SplitH),
                None => old(containers)@,
            },
            final(containers)@.windows() == old(containers)@.windows(),
            forall|k: NodeKey| #[trigger]
                final(containers)@.loose(k) ==> old(containers)@.loose(k),
            old(containers)@.mentions_live() ==> final(containers)@.mentions_live(),
    {
        self.split_container(containers, Layout::SplitH);
    }

    fn move_tree_command_target(
        &self,
        containers: &mut ContainerArena,
        root: NodeKey,
        direction: Direction,
    ) -> (r: bool)
        requires
            old(containers).wf(),
            old(containers)@.next_key < u64::MAX,
        ensures
            final(containers).wf(),
            (final(containers)@, r) == old(containers)@.group_moved(root, direction),
            !r ==> final(containers)@ == old(containers)@,
            final(containers)@.windows() == old(containers)@.windows(),
            forall|k: NodeKey| #[trigger]
                final(containers)@.loose(k) ==> old(containers)@.loose(k),
            old(containers)@.mentions_live() ==> final(containers)@.mentions_live(),
    {
        reveal(Tree::group_moved);
        let target = containers.command_target_in(root);
        containers.move_target_in_direction(direction, target)
    }

    fn split_group(&self, containers: &mut ContainerArena, root: NodeKey, layout: Layout)
        requires
            old(containers).wf(),
            old(containers)@.next_key < u64::MAX,
        ensures
            final(containers).wf(),
            final(containers)@ == old(containers)@.group_split(root, layout),
            final(containers)@.windows() == old(containers)@.windows(),
            forall|k: NodeKey| #[trigger]
                final(containers)@.loose(k) ==> old(containers)@.loose(k),
            old(containers)@.mentions_live() ==> final(containers)@.mentions_live(),
    {
        reveal(Tree::group_split);
        let target = containers.command_target_in(root);
        if containers.is_leaf(target) && containers.is_floating_root(target) {
            let mut wrapper = ContainerData::new(layout);
            wrapper.mark_user_created();
            containers.wrap_floating_root_in_new_container(target, wrapper);
            containers.readdress_leaf_layouts();
        } else {
            containers.split_target(layout, target);
        }
    }

    fn consume_or_expel_window(
        &mut self,
        containers: &mut ContainerArena,
        window: Option<WindowId>,
        direction: Direction,
    )
        requires
            old(containers).wf(),
            old(containers)@.next_key < u64::MAX,
        ensures
            final(containers).wf(),
            final(self)@ == old(self)@,
            final(containers)@ == old(containers)@.consumed(window, direction),
            final(containers)@.windows() == old(containers)@.windows(),
            forall|k: NodeKey| #[trigger]
                final(containers)@.loose(k) ==> old(containers)@.loose(k),
            old(containers)@.mentions_live() ==> final(containers)@.mentions_live(),
    {
        if let Some(id) = window {
            proof {
                lemma_activated(containers@, id);
            }
            if !self.activate_window(containers, id) {
                return;
            }
        }
        let root = match self.active_root(containers) {
            Some(root) => root,
            None => {
                return;
            },
        };
        if self.move_tree_command_target(containers, root, direction) {
            return;
        }
        self.split_group(containers, root, Layout::SplitV);
    }

    /// Moves a window, or the target of the active group, to the left inside its group, or
    /// splits it off where it cannot move.
    pub fn consume_or_expel_window_left(
        &mut self,
        containers: &mut ContainerArena,
        window: Option<WindowId>,
    )
        requires
            old(containers).wf(),
            old(containers)@.next_key < u64::MAX,
        ensures
            final(containers).wf(),
            final(self)@ == old(self)@,
            final(containers)@ == old(containers)@.consumed(window, Direction::Left),
            final(containers)@.windows() == old(containers)@.windows(),
            forall|k: NodeKey| #[trigger]
                final(containers)@.loose(k) ==> old(containers)@.loose(k),
            old(containers)@.mentions_live() ==> final(containers)@.mentions_live(),
    {
        self.consume_or_expel_window(containers, window, Direction::Left);
    }

    /// Moves a window, or the target of the active group, to the right inside its group, or
    /// splits it off where it cannot move.
    pub fn consume_or_expel_window_right(
        &mut self,
        containers: &mut ContainerArena,
        window: Option<WindowId>,
    )
        requires
            old(containers).wf(),
            old(containers)@.next_key < u64::MAX,
        ensures
            final(containers).wf(),
            final(self)@ == old(self)@,
            final(containers)@ == old(containers)@.consumed(window, Direction::Right),
            final(containers)@.windows() == old(containers)@.windows(),
            forall|k: NodeKey| #[trigger]
                final(containers)@.loose(k) ==> old(containers)@.loose(k),
            old(containers)@.mentions_live() ==> final(containers)@.mentions_live(),
    {
        self.consume_or_expel_window(containers, window, Direction::Right);
    }

    /// Lays out the container around the target of the active group.
    pub fn set_layout_mode(&mut self, containers: &mut ContainerArena, layout: Layout)
        requires
            old(containers).wf(),
            old(containers)@.next_key < u64::MAX,
        ensures
            final(containers).wf(),
            final(self)@ == old(self)@,
            final(containers)@ == match old(containers)@.active_root() {
                Some(root) => old(containers)@.layout_commanded(
                    layout,
                    old(containers)@.target_in(root),
                ).0,
                None => old(containers)@,
            },
            final(containers)@.windows() == old(containers)@.windows(),
            forall|k: NodeKey| #[trigger]
                final(containers)@.loose(k) ==> old(containers)@.loose(k),
            old(containers)@.mentions_live() ==> final(containers)@.mentions_live(),
    {
        if let Some(root) = self.active_root(containers) {
            let target = containers.command_target_in(root);
            containers.set_layout_for_target(layout, target);
        }
    }

    /// Shows a column one window above the other, or as tabs.
    pub fn set_column_display(&mut self, containers: &mut ContainerArena, display: ColumnDisplay)
        requires
            old(containers).wf(),
            old(containers)@.next_key < u64::MAX,
        ensures
            final(containers).wf(),
            final(self)@ == old(self)@,
            final(containers)@ == match old(containers)@.active_root() {
                Some(root) => old(containers)@.layout_commanded(
                    match display {
                        ColumnDisplay::Normal => Layout::SplitV,
                        ColumnDisplay::Tabbed => Layout::Tabbed,
                    },
                    old(containers)@.target_in(root),
                ).0,
                None => old(containers)@,
            },
            final(containers)@.windows() == old(containers)@.windows(),
            forall|k: NodeKey| #[trigger]
                final(containers)@.loose(k) ==> old(containers)@.loose(k),
            old(containers)@.mentions_live() ==> final(containers)@.mentions_live(),
    {
        let layout = match display {
            ColumnDisplay::Normal => Layout::SplitV,
            ColumnDisplay::Tabbed => Layout::Tabbed,
        };
        self.set_layout_mode(containers, layout);
    }

    fn standing_layout(&self, containers: &ContainerArena, root: NodeKey) -> (r: Option<Layout>)
        requires
            containers.wf(),
        ensures
            r == containers@.standing_layout(root),
    {
        let target = containers.command_target_in(root);
        match containers.branch_layout(target) {
            Some(layout) => Some(layout),
            None => match containers.parent_of(target) {
                Some(parent) => containers.branch_layout(parent),
                None => None,
            },
        }
    }

    /// Shows the container around the target as tabs, or no longer so.
    pub fn toggle_column_tabbed_display(&mut self, containers: &mut ContainerArena)
        requires
            old(containers).wf(),
            old(containers)@.next_key < u64::MAX,
        ensures
            final(containers).wf(),
            final(self)@ == old(self)@,
            final(containers)@ == match old(containers)@.active_root() {
                Some(root) => old(containers)@.layout_commanded(
                    if old(containers)@.standing_layout(root) == Some(Layout::Tabbed) {
                        Layout::SplitV
                    } else {
                        Layout::Tabbed
                    },
                    old(containers)@.target_in(root),
                ).0,
                None => old(containers)@,
            },
            final(containers)@.windows() == old(containers)@.windows(),
            forall|k: NodeKey| #[trigger]
                final(containers)@.loose(k) ==> old(containers)@.loose(k),
            old(containers)@.mentions_live() ==> final(containers)@.mentions_live(),
    {
        if let Some(root) = self.active_root(containers) {
            let layout = if self.standing_layout(containers, root) == Some(Layout::Tabbed) {
                Layout::SplitV
            } else {
                Layout::Tabbed
            };
            let target = containers.command_target_in(root);
            containers.set_layout_for_target(layout, target);
        }
    }

    /// Turns the split around the target of the active group.
    pub fn toggle_split_layout(&mut self, containers: &mut ContainerArena)
        requires
            old(containers).wf(),
            old(containers)@.next_key < u64::MAX,
        ensures
            final(containers).wf(),
            final(self)@ == old(self)@,
            final(containers)@ == match old(containers)@.active_root() {
                Some(root) => old(containers)@.split_toggled(old(containers)@.target_in(root)).0,
                None => old(containers)@,
            },
            final(containers)@.windows() == old(containers)@.windows(),
            forall|k: NodeKey| #[trigger]
                final(containers)@.loose(k) ==> old(containers)@.loose(k),
            old(containers)@.mentions_live() ==> final(containers)@.mentions_live(),
    {
        if let Some(root) = self.active_root(containers) {
            let target = containers.command_target_in(root);
            containers.toggle_split_for_target(target);
        }
    }

    /// Gives the container around the target the next layout of all.
    pub fn toggle_layout_all(&mut self, containers: &mut ContainerArena)
        requires
            old(containers).wf(),
            old(containers)@.next_key < u64::MAX,
        ensures
            final(containers).wf(),
            final(self)@ == old(self)@,
            final(containers)@ == match old(containers)@.active_root() {
                Some(root) => old(containers)@.layout_toggled(old(containers)@.target_in(root)).0,
                None => old(containers)@,
            },
            final(containers)@.windows() == old(containers)@.windows(),
            forall|k: NodeKey| #[trigger]
                final(containers)@.loose(k) ==> old(containers)@.loose(k),
            old(containers)@.mentions_live() ==> final(containers)@.mentions_live(),
    {
        if let Some(root) = self.active_root(containers) {
            let target = containers.command_target_in(root);
            containers.toggle_layout_all_for_target(target);
        }
    }

    /// Gives the container around the target the layout it had before.
    pub fn set_default_layout(&mut self, containers: &mut ContainerArena)
        requires
            old(containers).wf(),
            old(containers)@.next_key < u64::MAX,
        ensures
            final(containers).wf(),
            final(self)@ == old(self)@,
            final(containers)@ == match old(containers)@.active_root() {
                Some(root) => old(containers)@.layout_defaulted(
                    old(containers)@.target_in(root),
                ).0,
                None => old(containers)@,
            },
            final(containers)@.windows() == old(containers)@.windows(),
            forall|k: NodeKey| #[trigger]
                final(containers)@.loose(k) ==> old(containers)@.loose(k),
            old(containers)@.mentions_live() ==> final(containers)@.mentions_live(),
    {
        if let Some(root) = self.active_root(containers) {
            let target = containers.command_target_in(root);
            containers.set_default_layout_for_target(target);
        }
    }

    /// Gives the container around the target the next layout of a cycle.
    pub fn toggle_layout_cycle(
        &mut self,
        containers: &mut ContainerArena,
        cycle: &Vec<LayoutCycleEntry>,
    )
        requires
            old(containers).wf(),
            old(containers)@.next_key < u64::MAX,
        ensures
            final(containers).wf(),
            final(self)@ == old(self)@,
            final(containers)@ == match old(containers)@.active_root() {
                Some(root) => old(containers)@.layout_cycled(
                    old(containers)@.target_in(root),
                    cycle@,
                ).0,
                None => old(containers)@,
            },
            final(containers)@.windows() == old(containers)@.windows(),
            forall|k: NodeKey| #[trigger]
                final(containers)@.loose(k) ==> old(containers)@.loose(k),
            old(containers)@.mentions_live() ==> final(containers)@.mentions_live(),
    {
        if let Some(root) = self.active_root(containers) {
            let target = containers.command_target_in(root);
            containers.toggle_layout_cycle_for_target(target, cycle);
        }
    }

    /// The windows a close command on the active group closes: those at or below its target.
    pub fn close_window_ids_for_active_selection(&self, containers: &ContainerArena) -> (r: Vec<
        WindowId,
    >)
        requires
            containers.wf(),
        ensures
            r@ == match containers@.active_root() {
                Some(root) => containers@.group_ids(containers@.target_in(root)),
                None => Seq::empty(),
            },
    {
        match self.active_root(containers) {
            Some(root) => containers.window_ids_under(containers.command_target_in(root)),
            None => Vec::new(),
        }
    }
}

fn made_before(floating: &Vec<crate::tree::FloatingRoot>, a: usize, b: usize) -> (r: bool)
    requires
        a < floating@.len(),
        b < floating@.len(),
    ensures
        r == (floating@[a as int].id < floating@[b as int].id || (floating@[a as int].id
            == floating@[b as int].id && a < b)),
{
    floating[a].id < floating[b].id || (floating[a].id == floating[b].id && a < b)
}

} // verus!
