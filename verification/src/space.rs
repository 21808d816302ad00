//! The floating side of a workspace.
//!
//! The groups, their geometry and their stacking order are part of the tree. This side adds
//! what is transient: an interactive resize and the windows that are being closed.

use crate::arena::ContainerArena;
use crate::axis::{Layout, NodeKey};
use crate::measure::{Point, Rect, Size};
use crate::resize::ResizeEdge;
use crate::tile::{Tile, WindowId};
use crate::tree::{lemma_first_of, FloatingRootKind, Pick, Tree};
use vstd::prelude::*;

verus! {

/// A resize of a floating window by its edges that is going on.
#[derive(Debug, Clone, Copy, PartialEq, Eq, Structural)]
pub struct InteractiveResize {
    pub window: WindowId,
    pub original_window_size: Size,
    pub original_window_pos: Point,
    pub original_container_size: Size,
    /// The dragged edges that lie on the border of the group.
    pub resize_container_edges: ResizeEdge,
    pub edges: ResizeEdge,
}

/// The transient state of the floating side.
#[derive(Debug)]
pub struct FloatingSpace {
    interactive_resize: Option<InteractiveResize>,
    closing_windows: Vec<WindowId>,
}

/// [`FloatingSpace`] as a value.
pub struct Space {
    pub resize: Option<InteractiveResize>,
    /// The windows whose closing is being shown.
    pub closing: Seq<WindowId>,
}

impl View for FloatingSpace {
    type V = Space;

    closed spec fn view(&self) -> Space {
        Space { resize: self.interactive_resize, closing: self.closing_windows@ }
    }
}

/// A tile taken out of the layout, and the side it was on.
#[derive(Debug)]
pub struct RemovedTile {
    pub tile: Tile,
    pub is_floating: bool,
}

impl Space {
    /// The resize is over if it is of this window.
    pub open spec fn resize_ended(self, window: Option<WindowId>) -> Space {
        match self.resize {
            Some(resize) => if window is None || window == Some(resize.window) {
                Space { resize: None, ..self }
            } else {
                self
            },
            None => self,
        }
    }
}

impl Tree {
    // -----------------------------------------------------------------------------------------
    // Windows and groups
    // -----------------------------------------------------------------------------------------

    /// A window of the floating side.
    pub open spec fn floating_window(self, id: WindowId) -> Option<NodeKey> {
        match self.recent(Pick::Window(id)) {
            Some(k) if self.in_float(k) => Some(k),
            _ => None,
        }
    }

    /// The group a window is in, by its place on the stack.
    pub open spec fn group_of(self, id: WindowId) -> Option<int> {
        match self.floating_window(id) {
            Some(k) => Some(self.stack_index(self.branch(k))),
            None => None,
        }
    }

    /// The window commands on the floating side are aimed at.
    pub open spec fn active_id(self) -> Option<WindowId> {
        match self.active_floating() {
            Some(k) => Some(self.nodes[k].tile->0.window.id),
            None => None,
        }
    }

    /// The group commands on the floating side are aimed at.
    pub open spec fn active_group(self) -> Option<int> {
        match self.active_id() {
            Some(id) => self.group_of(id),
            None => None,
        }
    }

    /// The root of the active group.
    pub open spec fn active_root(self) -> Option<NodeKey> {
        match self.active_group() {
            Some(i) => Some(self.floating[i].key),
            None => None,
        }
    }

    /// The windows of a group.
    pub open spec fn group_ids(self, root: NodeKey) -> Seq<WindowId> {
        self.window_ids_of(self.leaves(root))
    }

    /// The owner of fullscreen, if it is on the floating side.
    pub open spec fn floating_fullscreen(self) -> Option<NodeKey> {
        match self.fullscreen {
            Some(k) if self.has(k) && self.in_float(k) => Some(k),
            _ => None,
        }
    }

    /// The window that owns fullscreen itself, if it is on the floating side.
    pub open spec fn floating_fullscreen_id(self) -> Option<WindowId> {
        match self.floating_fullscreen() {
            Some(k) if self.is_view(k) => Some(self.nodes[k].tile->0.window.id),
            _ => None,
        }
    }

    /// Whether a split in a branch is selected.
    pub open spec fn split_selected_in(self, branch: NodeKey) -> bool {
        match self.seat.selected {
            Some(k) => self.is_split(k) && self.branch(k) == branch,
            None => false,
        }
    }

    // -----------------------------------------------------------------------------------------
    // Stacking
    // -----------------------------------------------------------------------------------------

    /// Whether a group holds a dialog of one of these windows.
    pub open spec fn dialog_of(self, root: NodeKey, seen: Seq<WindowId>) -> bool {
        exists|i: int|
            0 <= i < self.leaves(root).len() && (
            self.nodes[#[trigger] self.leaves(root)[i]].tile->0.window.parent matches Some(p)
                && seen.contains(p))
    }

    /// The groups below place `idx`, up to place `i`, that hold dialogs of the windows seen, or
    /// of the windows of such groups below them.
    pub open spec fn dialog_groups(self, idx: int, i: int, seen: Seq<WindowId>) -> Seq<int>
        decreases i - idx,
    {
        if i <= idx {
            Seq::empty()
        } else if self.dialog_of(self.floating[i].key, seen) {
            self.dialog_groups(idx, i - 1, seen + self.group_ids(self.floating[i].key)).push(i)
        } else {
            self.dialog_groups(idx, i - 1, seen)
        }
    }

    /// Groups raised one after another, the first to place `to`.
    pub open spec fn raised_to(self, groups: Seq<int>, to: int) -> Tree
        decreases groups.len(),
    {
        if groups.len() == 0 {
            self
        } else {
            self.restacked(groups[0], to).raised_to(groups.drop_first(), to + 1)
        }
    }

    /// The stack with the dialogs of a group raised right above it.
    pub open spec fn dialogs_raised(self, idx: int) -> Tree {
        self.raised_to(
            self.dialog_groups(
                idx,
                self.floating.len() - 1,
                self.group_ids(self.floating[idx].key),
            ),
            idx,
        )
    }

    /// A group brought to the top, its dialogs above it.
    pub open spec fn raised(self, idx: int) -> Tree {
        self.restacked(idx, 0).dialogs_raised(0)
    }

    /// The tree with a window focused and nothing selected.
    pub open spec fn window_focused(self, id: WindowId) -> Tree {
        let t = self.with_seat(self.seat.with_selected(None));
        match t.recent(Pick::Window(id)) {
            Some(k) => t.focused(k),
            None => t,
        }
    }

    /// A floating window activated: its group comes to the top and it gets the focus.
    pub open spec fn activated(self, id: WindowId) -> (Tree, bool) {
        match self.group_of(id) {
            Some(idx) => (self.raised(idx).window_focused(id), true),
            None => (self, false),
        }
    }

    /// The place from which `tile` is not below a window it is a dialog of: the first of the
    /// places before `idx` that holds its parent.
    pub open spec fn above_parent(self, parent: Option<WindowId>, idx: int, i: int) -> int
        decreases idx - i,
    {
        if i < 0 || i >= idx || i >= self.floating.len() {
            idx
        } else if parent matches Some(p) && self.group_ids(self.floating[i].key).contains(p) {
            i
        } else {
            self.above_parent(parent, idx, i + 1)
        }
    }
}

/// The window found for an id is a window with that id.
pub proof fn lemma_window_found(t: Tree, id: WindowId)
    requires
        t.wf(),
    ensures
        t.recent(Pick::Window(id)) matches Some(k) ==> t.is_view(k)
            && t.nodes[k].tile->0.window.id == id,
{
    lemma_first_of(t, t.seat.order, Pick::Window(id));
}

/// Raising only reorders the stack.
pub proof fn lemma_raised_to(t: Tree, groups: Seq<int>, to: int)
    requires
        t.wf(),
        0 <= to,
        forall|i: int| 0 <= i < groups.len() ==> to + i <= #[trigger] groups[i]
            && groups[i] < t.floating.len(),
    ensures
        t.raised_to(groups, to).wf(),
        t.raised_to(groups, to) == t.with_floating(t.raised_to(groups, to).floating),
        t.raised_to(groups, to).floating.len() == t.floating.len(),
        forall|k: NodeKey| #[trigger] t.raised_to(groups, to).is_floating(k) <==> t.is_floating(k),
    decreases groups.len(),
{
    if groups.len() > 0 {
        assert(groups[0] < t.floating.len());
        assert(to + 0 <= groups[0]);
        let u = t.restacked(groups[0], to);
        crate::floats::lemma_moved_stack(t, groups[0], to);
        let rest = groups.drop_first();
        assert forall|i: int| 0 <= i < rest.len() implies to + 1 + i <= #[trigger] rest[i]
            && rest[i] < u.floating.len() by {
            assert(groups[i + 1] == rest[i]);
        }
        lemma_raised_to(u, rest, to + 1);
    }
}

/// The groups to raise are places below `idx`, each further down than the one before.
pub proof fn lemma_dialog_groups(t: Tree, idx: int, i: int, seen: Seq<WindowId>)
    requires
        0 <= idx,
        i < t.floating.len(),
    ensures
        forall|j: int|
            0 <= j < t.dialog_groups(idx, i, seen).len() ==> idx + 1 + j <= #[trigger] t.dialog_groups(
                idx,
                i,
                seen,
            )[j] && t.dialog_groups(idx, i, seen)[j] <= i,
        t.dialog_groups(idx, i, seen).len() <= if i > idx {
            i - idx
        } else {
            0
        },
    decreases i - idx,
{
    if i > idx {
        let next = if t.dialog_of(t.floating[i].key, seen) {
            seen + t.group_ids(t.floating[i].key)
        } else {
            seen
        };
        lemma_dialog_groups(t, idx, i - 1, next);
    }
}

impl FloatingSpace {
    pub fn new() -> (r: Self)
        ensures
            r@ == (Space { resize: None, closing: Seq::empty() }),
    {
        FloatingSpace { interactive_resize: None, closing_windows: Vec::new() }
    }

    // -----------------------------------------------------------------------------------------
    // Reading
    // -----------------------------------------------------------------------------------------

    pub(crate) fn idx_of(&self, containers: &ContainerArena, id: WindowId) -> (r: Option<usize>)
        requires
            containers.wf(),
        ensures
            r is Some <==> containers@.group_of(id) is Some,
            r matches Some(i) ==> containers@.group_of(id) == Some(i as int) && i
                < containers@.floating.len(),
    {
        let key = match containers.window_key(id) {
            Some(key) => key,
            None => {
                return None;
            },
        };
        let root = containers.branch_root(key);
        let found = containers.floating_root_index(root);
        proof {
            if let Some(i) = found {
                crate::swap::lemma_stack_index(containers@, root, i as int);
            }
        }
        found
    }

    pub(crate) fn contains(&self, containers: &ContainerArena, id: WindowId) -> (r: bool)
        requires
            containers.wf(),
        ensures
            r == containers@.group_of(id) is Some,
    {
        self.idx_of(containers, id).is_some()
    }

    pub(crate) fn active_window_id(&self, containers: &ContainerArena) -> (r: Option<WindowId>)
        requires
            containers.wf(),
        ensures
            r == containers@.active_id(),
    {
        containers.active_floating_window_id()
    }

    pub(crate) fn active_container_idx(&self, containers: &ContainerArena) -> (r: Option<usize>)
        requires
            containers.wf(),
        ensures
            r is Some <==> containers@.active_group() is Some,
            r matches Some(i) ==> containers@.active_group() == Some(i as int) && i
                < containers@.floating.len(),
    {
        match self.active_window_id(containers) {
            Some(id) => self.idx_of(containers, id),
            None => None,
        }
    }

    pub(crate) fn active_root(&self, containers: &ContainerArena) -> (r: Option<NodeKey>)
        requires
            containers.wf(),
        ensures
            r == containers@.active_root(),
            r matches Some(root) ==> containers@.is_floating(root),
    {
        match self.active_container_idx(containers) {
            Some(idx) => {
                let root = containers.floating()[idx].key;
                assert(containers@.floating[idx as int].key == root);
                Some(root)
            },
            None => None,
        }
    }

    pub(crate) fn resolve_target_id(&self, containers: &ContainerArena, id: Option<WindowId>) -> (r: Option<
        WindowId,
    >)
        requires
            containers.wf(),
        ensures
            r == if id is Some {
                id
            } else {
                containers@.active_id()
            },
    {
        match id {
            Some(id) => Some(id),
            None => self.active_window_id(containers),
        }
    }

    /// The tiles of the floating side, group by group.
    pub fn tiles<'a>(&self, containers: &'a ContainerArena) -> (r: Vec<&'a Tile>)
        requires
            containers.wf(),
        ensures
            r@.len() == containers@.floating_leaves_from(0).len(),
            forall|i: int|
                0 <= i < r@.len() ==> #[trigger] r@[i]@ == containers@.nodes[
                    containers@.floating_leaves_from(0)[i]
                ].tile->0,
    {
        let keys = self.tile_keys(containers);
        let mut out: Vec<&'a Tile> = Vec::new();
        let mut i: usize = 0;
        while i < keys.len()
            invariant
                containers.wf(),
                i <= keys@.len(),
                keys@ == containers@.floating_leaves_from(0),
                forall|j: int| 0 <= j < keys@.len() ==> containers@.is_view(#[trigger] keys@[j]),
                out@.len() == i,
                forall|j: int|
                    0 <= j < i ==> #[trigger] out@[j]@ == containers@.nodes[keys@[j]].tile->0,
            decreases keys@.len() - i,
        {
            assert(containers@.is_view(keys@[i as int]));
            if let Some(tile) = containers.get_tile(keys[i]) {
                out.push(tile);
            }
            i = i + 1;
        }
        out
    }

    /// The windows of the floating side, group by group.
    pub fn tile_keys(&self, containers: &ContainerArena) -> (r: Vec<NodeKey>)
        requires
            containers.wf(),
        ensures
            r@ == containers@.floating_leaves_from(0),
            forall|i: int| 0 <= i < r@.len() ==> containers@.is_view(#[trigger] r@[i]),
    {
        let floating = containers.floating();
        let mut out: Vec<NodeKey> = Vec::new();
        let mut i: usize = 0;
        assert(out@ + containers@.floating_leaves_from(0) =~= containers@.floating_leaves_from(0));
        while i < floating.len()
            invariant
                containers.wf(),
                i <= floating@.len(),
                floating@ == containers@.floating,
                out@ + containers@.floating_leaves_from(i as int)
                    == containers@.floating_leaves_from(0),
                forall|j: int| 0 <= j < out@.len() ==> containers@.is_view(#[trigger] out@[j]),
            decreases floating@.len() - i,
        {
            let mut keys = containers.leaf_keys_under(floating[i].key);
            proof {
                crate::walk::lemma_leaves_are_views(containers@, floating@[i as int].key);
            }
            let ghost before = out@;
            let ghost here = keys@;
            out.append(&mut keys);
            proof {
                let rest = containers@.floating_leaves_from(i as int + 1);
                assert(out@ + rest =~= before + (here + rest));
                assert forall|j: int| 0 <= j < out@.len() implies containers@.is_view(
                    #[trigger] out@[j],
                ) by {
                    if j >= before.len() {
                        assert(out@[j] == here[j - before.len()]);
                    } else {
                        assert(out@[j] == before[j]);
                    }
                }
            }
            i = i + 1;
        }
        assert(out@ + Seq::<NodeKey>::empty() =~= out@);
        out
    }

    /// The floating window commands are aimed at.
    pub fn active_window<'a>(&self, containers: &'a ContainerArena) -> (r: Option<&'a Tile>)
        requires
            containers.wf(),
        ensures
            ({
                let k = match containers@.active_id() {
                    Some(id) => containers@.floating_window(id),
                    None => None,
                };
                &&& r is Some <==> k is Some
                &&& r matches Some(tile) ==> tile@ == containers@.nodes[k->0].tile->0
            }),
    {
        let id = match self.active_window_id(containers) {
            Some(id) => id,
            None => {
                return None;
            },
        };
        proof {
            lemma_window_found(containers@, id);
        }
        match containers.window_key(id) {
            Some(key) => if containers.is_in_floating_branch(key) {
                containers.get_tile(key)
            } else {
                None
            },
            None => None,
        }
    }

    /// The tile at a place in [`Self::tiles`], to be changed in place.
    pub fn tiles_mut<'a>(&self, containers: &'a mut ContainerArena, idx: usize) -> (r: Option<
        &'a mut Tile,
    >)
        requires
            old(containers).wf(),
        ensures
            final(containers).wf(),
            ({
                let t = old(containers)@;
                let listed = t.floating_leaves_from(0);
                let k = listed[idx as int];
                match r {
                    Some(tile) => idx < listed.len() && tile@ == t.nodes[k].tile->0 
                        && final(containers)@ == t.with_tile(k, final(tile)@),
                    None => idx >= listed.len() && final(containers)@ == t,
                }
            }),
            forall|x: NodeKey| #[trigger]
                final(containers)@.loose(x) ==> old(containers)@.loose(x),
            old(containers)@.mentions_live() ==> final(containers)@.mentions_live(),
    {
        let keys = self.tile_keys(containers);
        if idx < keys.len() {
            assert(containers@.is_view(keys@[idx as int]));
            containers.get_tile_mut(keys[idx])
        } else {
            None
        }
    }

    /// The active window, to be changed in place.
    pub fn active_window_mut<'a>(&self, containers: &'a mut ContainerArena) -> (r: Option<
        &'a mut Tile,
    >)
        requires
            old(containers).wf(),
        ensures
            final(containers).wf(),
            ({
                let t = old(containers)@;
                let k = match t.active_id() {
                    Some(id) => t.floating_window(id),
                    None => None,
                };
                match r {
                    Some(tile) => k is Some && tile@ == t.nodes[k->0].tile->0 
                        && final(containers)@ == t.with_tile(k->0, final(tile)@),
                    None => k is None && final(containers)@ == t,
                }
            }),
            forall|x: NodeKey| #[trigger]
                final(containers)@.loose(x) ==> old(containers)@.loose(x),
            old(containers)@.mentions_live() ==> final(containers)@.mentions_live(),
    {
        let id = match self.active_window_id(containers) {
            Some(id) => id,
            None => {
                return None;
            },
        };
        proof {
            lemma_window_found(containers@, id);
        }
        match containers.window_key(id) {
            Some(key) => if containers.is_in_floating_branch(key) {
                containers.get_tile_mut(key)
            } else {
                None
            },
            None => None,
        }
    }

    /// Whether a window is on the floating side.
    pub fn has_window(&self, containers: &ContainerArena, id: WindowId) -> (r: bool)
        requires
            containers.wf(),
        ensures
            r == containers@.floating_window(id) is Some,
    {
        match containers.window_key(id) {
            Some(key) => containers.is_in_floating_branch(key),
            None => false,
        }
    }

    /// Whether nothing floats.
    pub fn is_empty(&self, containers: &ContainerArena) -> (r: bool)
        ensures
            r == (containers@.floating.len() == 0),
    {
        containers.floating_root_count() == 0
    }

    /// The owner of fullscreen, if it is on the floating side.
    pub fn fullscreen_key(&self, containers: &ContainerArena) -> (r: Option<NodeKey>)
        requires
            containers.wf(),
        ensures
            r == containers@.floating_fullscreen(),
    {
        match containers.fullscreen_key() {
            Some(key) => if containers.holds_node(key) && containers.is_in_floating_branch(key) {
                Some(key)
            } else {
                None
            },
            None => None,
        }
    }

    pub(crate) fn fullscreen_window_id(&self, containers: &ContainerArena) -> (r: Option<WindowId>)
        requires
            containers.wf(),
        ensures
            r == containers@.floating_fullscreen_id(),
    {
        if self.fullscreen_key(containers).is_none() {
            return None;
        }
        containers.fullscreen_leaf_window_id()
    }

    /// Whether a window owns fullscreen on the floating side.
    pub fn is_fullscreen(&self, containers: &ContainerArena, window: WindowId) -> (r: bool)
        requires
            containers.wf(),
        ensures
            r == (containers@.floating_fullscreen_id() == Some(window)),
    {
        self.fullscreen_window_id(containers) == Some(window)
    }

    /// Whether fullscreen is on the floating side.
    pub fn has_fullscreen_window(&self, containers: &ContainerArena) -> (r: bool)
        requires
            containers.wf(),
        ensures
            r == containers@.floating_fullscreen() is Some,
    {
        self.fullscreen_key(containers).is_some()
    }

    pub(crate) fn selected_is_container_in(&self, containers: &ContainerArena, root: NodeKey) -> (r: bool)
        requires
            containers.wf(),
        ensures
            r == containers@.split_selected_in(root),
    {
        match containers.selected_container_key() {
            Some(key) => containers.branch_root(key) == root,
            None => false,
        }
    }

    /// Whether a container is selected in the group of a window, or of the active one.
    pub fn selected_is_container(&self, containers: &ContainerArena, id: Option<WindowId>) -> (r:
        bool)
        requires
            containers.wf(),
        ensures
            ({
                let target = if id is Some {
                    id
                } else {
                    containers@.active_id()
                };
                r == match target {
                    Some(id) => match containers@.group_of(id) {
                        Some(idx) => containers@.split_selected_in(containers@.floating[idx].key),
                        None => false,
                    },
                    None => false,
                }
            }),
    {
        match self.resolve_target_id(containers, id) {
            Some(id) => match self.idx_of(containers, id) {
                Some(idx) => self.selected_is_container_in(
                    containers,
                    containers.floating()[idx].key,
                ),
                None => false,
            },
            None => false,
        }
    }

    /// Whether the root of the group of a window is selected.
    pub fn wrapper_selected_for_window(&self, containers: &ContainerArena, id: WindowId) -> (r:
        bool)
        requires
            containers.wf(),
        ensures
            r == match containers@.group_of(id) {
                Some(idx) => containers@.seat.selected == Some(containers@.floating[idx].key)
                    && containers@.is_split(containers@.floating[idx].key),
                None => false,
            },
    {
        match self.idx_of(containers, id) {
            Some(idx) => containers.selected_container_key() == Some(
                containers.floating()[idx].key,
            ),
            None => false,
        }
    }

    /// Whether the root of the active group is selected.
    pub fn active_wrapper_selected(&self, containers: &ContainerArena) -> (r: bool)
        requires
            containers.wf(),
        ensures
            r == (containers@.active_root() matches Some(root) && containers@.seat.selected == Some(
                root,
            ) && containers@.is_split(root)),
    {
        match self.active_root(containers) {
            Some(root) => containers.selected_container_key() == Some(root),
            None => false,
        }
    }

    /// The layout of the root of the group of a window.
    pub fn root_layout_for_window(&self, containers: &ContainerArena, id: WindowId) -> (r: Option<
        Layout,
    >)
        requires
            containers.wf(),
        ensures
            r == match containers@.group_of(id) {
                Some(idx) => if containers@.is_parent(containers@.floating[idx].key) {
                    Some(containers@.nodes[containers@.floating[idx].key].layout)
                } else {
                    None
                },
                None => None,
            },
    {
        match self.idx_of(containers, id) {
            Some(idx) => containers.branch_layout(containers.floating()[idx].key),
            None => None,
        }
    }

    /// The group of a window in lines of text.
    pub fn debug_tree_for_window(&self, containers: &ContainerArena, id: WindowId) -> (r: Option<
        String,
    >)
        requires
            containers.wf(),
        ensures
            crate::tile::text_state(r) == match containers@.group_of(id) {
                Some(idx) => Some(containers@.text_of(containers@.floating[idx].key, 0)),
                None => None,
            },
    {
        match self.idx_of(containers, id) {
            Some(idx) => Some(containers.debug_branch(containers.floating()[idx].key)),
            None => None,
        }
    }

    /// The place of the group of a window.
    pub fn container_pos(&self, containers: &ContainerArena, id: WindowId) -> (r: Option<Point>)
        requires
            containers.wf(),
        ensures
            r == match containers@.group_of(id) {
                Some(idx) => Some(containers@.floating[idx].geometry.target.loc),
                None => None,
            },
    {
        match self.idx_of(containers, id) {
            Some(idx) => Some(containers.floating()[idx].geometry.target.loc),
            None => None,
        }
    }

    /// Whether the active group is the wrapper of a whole workspace.
    pub fn active_container_is_workspace_floated(&self, containers: &ContainerArena) -> (r: bool)
        requires
            containers.wf(),
        ensures
            r == (containers@.active_group() matches Some(idx) && containers@.kind_at(idx) == Some(
                FloatingRootKind::WorkspaceWrapper,
            )),
    {
        match self.active_container_idx(containers) {
            Some(idx) => containers.floating_root_is_workspace_wrapper(idx),
            None => false,
        }
    }

    /// Whether anything on the floating side is being animated.
    pub fn are_animations_ongoing(&self, containers: &ContainerArena) -> (r: bool)
        requires
            containers.wf(),
        ensures
            r == (self@.closing.len() > 0 || exists|i: int|
                0 <= i < containers@.floating_leaves_from(0).len() && containers@.nodes[
                    #[trigger] containers@.floating_leaves_from(0)[i]
                ].tile->0.is_animating),
    {
        let tiles = self.tiles(containers);
        let mut i: usize = 0;
        while i < tiles.len()
            invariant
                i <= tiles@.len(),
                tiles@.len() == containers@.floating_leaves_from(0).len(),
                forall|j: int|
                    0 <= j < tiles@.len() ==> #[trigger] tiles@[j]@ == containers@.nodes[
                        containers@.floating_leaves_from(0)[j]
                    ].tile->0,
                forall|j: int|
                    0 <= j < i ==> !containers@.nodes[
                        #[trigger] containers@.floating_leaves_from(0)[j]
                    ].tile->0.is_animating,
            decreases tiles@.len() - i,
        {
            assert(tiles@[i as int]@ == containers@.nodes[
                containers@.floating_leaves_from(0)[i as int]
            ].tile->0);
            if tiles[i].is_animating {
                return true;
            }
            i = i + 1;
        }
        self.closing_windows.len() > 0
    }

    /// Whether a floating window is being brought in, out or elsewhere.
    pub fn are_transitions_ongoing(&self, containers: &ContainerArena) -> (r: bool)
        requires
            containers.wf(),
        ensures
            r == (self@.closing.len() > 0 || exists|i: int|
                0 <= i < containers@.floating_leaves_from(0).len() && containers@.nodes[
                    #[trigger] containers@.floating_leaves_from(0)[i]
                ].tile->0.is_transitioning),
    {
        let tiles = self.tiles(containers);
        let mut i: usize = 0;
        while i < tiles.len()
            invariant
                i <= tiles@.len(),
                tiles@.len() == containers@.floating_leaves_from(0).len(),
                forall|j: int|
                    0 <= j < tiles@.len() ==> #[trigger] tiles@[j]@ == containers@.nodes[
                        containers@.floating_leaves_from(0)[j]
                    ].tile->0,
                forall|j: int|
                    0 <= j < i ==> !containers@.nodes[
                        #[trigger] containers@.floating_leaves_from(0)[j]
                    ].tile->0.is_transitioning,
            decreases tiles@.len() - i,
        {
            assert(tiles@[i as int]@ == containers@.nodes[
                containers@.floating_leaves_from(0)[i as int]
            ].tile->0);
            if tiles[i].is_transitioning {
                return true;
            }
            i = i + 1;
        }
        self.closing_windows.len() > 0
    }

    // -----------------------------------------------------------------------------------------
    // The resize going on, and windows being closed
    // -----------------------------------------------------------------------------------------

    /// The resize going on.
    pub fn resize_in_progress(&self) -> (r: Option<InteractiveResize>)
        ensures
            r == self@.resize,
    {
        self.interactive_resize
    }

    pub(crate) fn drop_resize(&mut self)
        ensures
            final(self)@ == (Space { resize: None, ..old(self)@ }),
    {
        self.interactive_resize = None;
    }

    /// Begins a resize of a floating window by its edges, unless one is going on. `area` is the
    /// box of its group and `border_edges` the dragged edges that lie on its border.
    pub fn interactive_resize_begin(
        &mut self,
        containers: &ContainerArena,
        window: WindowId,
        edges: ResizeEdge,
        window_size: Size,
        area: Rect,
        border_edges: ResizeEdge,
    ) -> (r: bool)
        requires
            containers.wf(),
        ensures
            r == (old(self)@.resize is None && containers@.group_of(window) is Some),
            final(self)@ == if r {
                (Space {
                    resize: Some(
                        InteractiveResize {
                            window,
                            original_window_size: window_size,
                            original_window_pos: area.loc,
                            original_container_size: area.size,
                            resize_container_edges: border_edges,
                            edges,
                        },
                    ),
                    ..old(self)@
                })
            } else {
                old(self)@
            },
    {
        if self.interactive_resize.is_some() || !self.contains(containers, window) {
            return false;
        }
        self.interactive_resize = Some(
            InteractiveResize {
                window,
                original_window_size: window_size,
                original_window_pos: area.loc,
                original_container_size: area.size,
                resize_container_edges: border_edges,
                edges,
            },
        );
        true
    }

    /// The resize going on, if it is of this window and the window still floats.
    pub fn interactive_resize_of(&self, containers: &ContainerArena, window: WindowId) -> (r:
        Option<InteractiveResize>)
        requires
            containers.wf(),
        ensures
            r == match self@.resize {
                Some(resize) => if resize.window == window && containers@.group_of(window) is Some {
                    Some(resize)
                } else {
                    None
                },
                None => None,
            },
    {
        match self.interactive_resize {
            Some(resize) => if resize.window == window && self.contains(containers, window) {
                Some(resize)
            } else {
                None
            },
            None => None,
        }
    }

    /// Drops a resize whose window no longer floats.
    pub fn forget_resize_that_left(&mut self, containers: &ContainerArena)
        requires
            containers.wf(),
        ensures
            final(self)@ == match old(self)@.resize {
                Some(resize) => if containers@.group_of(resize.window) is Some {
                    old(self)@
                } else {
                    (Space { resize: None, ..old(self)@ })
                },
                None => old(self)@,
            },
    {
        if let Some(resize) = self.interactive_resize {
            if !self.contains(containers, resize.window) {
                self.interactive_resize = None;
            }
        }
    }

    /// Where a window goes when it floats: at the position it had, which `stored` gives in the
    /// present working area, else where its rules put it. A window of the scratchpad that never
    /// floated has no such place.
    pub fn stored_or_default_tile_pos(
        &self,
        tile: &Tile,
        stored: Point,
        by_rule: Option<Point>,
    ) -> (r: Option<Point>)
        ensures
            r == if tile@.floating_pos is Some {
                Some(stored)
            } else if tile@.is_scratchpad {
                None
            } else {
                by_rule
            },
    {
        if tile.floating_pos.is_some() {
            Some(stored)
        } else if tile.is_scratchpad {
            None
        } else {
            by_rule
        }
    }

    /// Shows a window closing.
    pub fn start_close_animation(&mut self, id: WindowId)
        ensures
            final(self)@ == (Space { closing: old(self)@.closing.push(id), ..old(self)@ }),
    {
        self.closing_windows.push(id);
    }

    /// The windows shown closing, the one that was closed last at the end.
    pub(crate) fn closing(&self) -> (r: &Vec<WindowId>)
        ensures
            r@ == self@.closing,
    {
        &self.closing_windows
    }

    /// Keeps showing those of the closing windows that are not done.
    pub(crate) fn keep_closing(&mut self, ongoing: &Vec<WindowId>)
        ensures
            final(self)@ == (Space {
                closing: still_in(old(self)@.closing, ongoing@),
                ..old(self)@
            }),
    {
        let ghost all = self.closing_windows@;
        let mut kept: Vec<WindowId> = Vec::new();
        let mut i: usize = 0;
        assert(all.take(0) =~= Seq::empty());
        while i < self.closing_windows.len()
            invariant
                i <= self.closing_windows@.len(),
                all == self.closing_windows@,
                self.interactive_resize == old(self).interactive_resize,
                kept@ == still_in(all.take(i as int), ongoing@),
            decreases self.closing_windows@.len() - i,
        {
            assert(all.take(i as int + 1).drop_last() =~= all.take(i as int));
            if lists_id(ongoing, self.closing_windows[i]) {
                kept.push(self.closing_windows[i]);
            }
            i = i + 1;
        }
        assert(all.take(i as int) =~= all);
        self.closing_windows = kept;
    }

    /// Ends the resize going on, if it is of this window or none is named.
    pub fn interactive_resize_end(&mut self, window: Option<WindowId>)
        ensures
            final(self)@ == old(self)@.resize_ended(window),
    {
        if let Some(resize) = self.interactive_resize {
            match window {
                Some(window) => {
                    if window == resize.window {
                        self.interactive_resize = None;
                    }
                },
                None => {
                    self.interactive_resize = None;
                },
            }
        }
    }

    // -----------------------------------------------------------------------------------------
    // Stacking and activation
    // -----------------------------------------------------------------------------------------

    pub(crate) fn has_dialog_of(
        &self,
        containers: &ContainerArena,
        root: NodeKey,
        seen: &Vec<WindowId>,
    ) -> (r: bool)
        requires
            containers.wf(),
        ensures
            r == containers@.dialog_of(root, seen@),
    {
        let tiles = containers.tiles_in_branch(root);
        let ghost leaves = containers@.leaves(root);
        let mut i: usize = 0;
        while i < tiles.len()
            invariant
                i <= tiles@.len(),
                leaves == containers@.leaves(root),
                tiles@.len() == leaves.len(),
                forall|j: int|
                    0 <= j < tiles@.len() ==> #[trigger] tiles@[j]@
                        == containers@.nodes[containers@.leaves(root)[j]].tile->0,
                forall|j: int|
                    0 <= j < i ==> !(
                    containers@.nodes[#[trigger] leaves[j]].tile->0.window.parent matches Some(p)
                        && seen@.contains(p)),
            decreases tiles@.len() - i,
        {
            assert(tiles@[i as int]@ == containers@.nodes[leaves[i as int]].tile->0);
            if let Some(parent) = tiles[i].window.parent {
                if lists_id(seen, parent) {
                    return true;
                }
            }
            i = i + 1;
        }
        false
    }

    fn dialog_groups(&self, containers: &ContainerArena, idx: usize) -> (r: Vec<usize>)
        requires
            containers.wf(),
            idx < containers@.floating.len(),
        ensures
            as_ints(r@) == containers@.dialog_groups(
                idx as int,
                containers@.floating.len() - 1,
                containers@.group_ids(containers@.floating[idx as int].key),
            ).reverse(),
    {
        let floating = containers.floating();
        let mut seen = containers.window_ids_under(floating[idx].key);
        let mut out: Vec<usize> = Vec::new();
        let mut i: usize = floating.len() - 1;
        let ghost t = containers@;
        let ghost all = t.dialog_groups(idx as int, i as int, seen@);
        assert(t.dialog_groups(idx as int, i as int, seen@) + as_ints(out@).reverse() =~= all);
        while i > idx
            invariant
                containers.wf(),
                t == containers@,
                floating@ == t.floating,
                i < floating@.len(),
                idx <= i,
                t.dialog_groups(idx as int, i as int, seen@) + as_ints(out@).reverse() == all,
            decreases i,
        {
            let root = floating[i].key;
            if self.has_dialog_of(containers, root, &seen) {
                let ghost before = seen@;
                let ghost kept = out@;
                let mut more = containers.window_ids_under(root);
                seen.append(&mut more);
                out.push(i);
                proof {
                    assert(seen@ =~= before + t.group_ids(root));
                    let rest = t.dialog_groups(idx as int, i as int - 1, seen@);
                    assert(as_ints(out@).reverse() =~= seq![i as int] + as_ints(kept).reverse());
                    assert(rest.push(i as int) + as_ints(kept).reverse() =~= rest + as_ints(
                        out@,
                    ).reverse());
                }
            }
            i = i - 1;
        }
        proof {
            assert(all =~= as_ints(out@).reverse());
            assert(as_ints(out@) =~= all.reverse());
        }
        out
    }

    pub(crate) fn bring_up_descendants_of(&self, containers: &mut ContainerArena, idx: usize)
        requires
            old(containers).wf(),
            idx < old(containers)@.floating.len(),
        ensures
            final(containers).wf(),
            final(containers)@ == old(containers)@.dialogs_raised(idx as int),
            final(containers)@.windows() == old(containers)@.windows(),
            forall|k: NodeKey| #[trigger]
                final(containers)@.loose(k) ==> old(containers)@.loose(k),
            old(containers)@.mentions_live() ==> final(containers)@.mentions_live(),
    {
        let ghost t = containers@;
        let ghost groups = t.dialog_groups(
            idx as int,
            t.floating.len() - 1,
            t.group_ids(t.floating[idx as int].key),
        );
        let descendants = self.dialog_groups(containers, idx);
        proof {
            lemma_dialog_groups(
                t,
                idx as int,
                t.floating.len() - 1,
                t.group_ids(t.floating[idx as int].key),
            );
            assert(groups =~= groups.reverse().reverse());
        }
        let count: usize = descendants.len();
        let mut done: usize = 0;
        assert(groups.skip(0) =~= groups);
        while done < count
            invariant
                containers.wf(),
                forall|k: NodeKey| #[trigger] containers@.loose(k) ==> old(containers)@.loose(k),
                old(containers)@.mentions_live() ==> containers@.mentions_live(),
                containers@.windows() == old(containers)@.windows(),
                done <= count,
                count == descendants@.len(),
                count == groups.len(),
                as_ints(descendants@) == groups.reverse(),
                t.wf(),
                idx < t.floating.len(),
                containers@.floating.len() == t.floating.len(),
                forall|j: int|
                    0 <= j < groups.len() ==> idx + 1 + j <= #[trigger] groups[j] && groups[j]
                        < t.floating.len(),
                containers@.raised_to(groups.skip(done as int), idx + done) == t.raised_to(
                    groups,
                    idx as int,
                ),
            decreases count - done,
        {
            let from: usize = descendants[count - 1 - done];
            proof {
                assert(as_ints(descendants@)[count - 1 - done] == from as int);
                assert(groups.reverse()[count - 1 - done] == groups[done as int]);
                assert(groups.skip(done as int)[0] == groups[done as int]);
                assert(groups.skip(done as int).drop_first() =~= groups.skip(done as int + 1));
                assert(idx + 1 + done <= groups[done as int]);
            }
            containers.move_floating_root(from, idx + done);
            done = done + 1;
        }
        assert(groups.skip(done as int).len() == 0);
    }

    pub(crate) fn raise_container(&self, containers: &mut ContainerArena, idx: usize)
        requires
            old(containers).wf(),
            idx < old(containers)@.floating.len(),
        ensures
            final(containers).wf(),
            final(containers)@ == old(containers)@.raised(idx as int),
            final(containers)@.windows() == old(containers)@.windows(),
            forall|k: NodeKey| #[trigger]
                final(containers)@.loose(k) ==> old(containers)@.loose(k),
            old(containers)@.mentions_live() ==> final(containers)@.mentions_live(),
    {
        containers.move_floating_root(idx, 0);
        self.bring_up_descendants_of(containers, 0);
    }

    /// Raises the dialogs of the group of a window right above it.
    pub fn descendants_added(&mut self, containers: &mut ContainerArena, id: WindowId) -> (r: bool)
        requires
            old(containers).wf(),
        ensures
            final(containers).wf(),
            final(self)@ == old(self)@,
            r == old(containers)@.group_of(id) is Some,
            final(containers)@ == match old(containers)@.group_of(id) {
                Some(idx) => old(containers)@.dialogs_raised(idx),
                None => old(containers)@,
            },
            final(containers)@.windows() == old(containers)@.windows(),
            forall|k: NodeKey| #[trigger]
                final(containers)@.loose(k) ==> old(containers)@.loose(k),
            old(containers)@.mentions_live() ==> final(containers)@.mentions_live(),
    {
        match self.idx_of(containers, id) {
            Some(idx) => {
                self.bring_up_descendants_of(containers, idx);
                true
            },
            None => false,
        }
    }

    pub(crate) fn focus_alone(&self, containers: &mut ContainerArena, id: WindowId)
        requires
            old(containers).wf(),
        ensures
            final(containers).wf(),
            final(containers)@ == old(containers)@.window_focused(id),
            final(containers)@.windows() == old(containers)@.windows(),
            forall|k: NodeKey| #[trigger]
                final(containers)@.loose(k) ==> old(containers)@.loose(k),
            old(containers)@.mentions_live() ==> final(containers)@.mentions_live(),
    {
        containers.clear_selection();
        containers.focus_window_by_id(id);
    }

    /// Focuses a floating window and leaves the stack as it is.
    pub fn activate_window_without_raising(
        &mut self,
        containers: &mut ContainerArena,
        id: WindowId,
    ) -> (r: bool)
        requires
            old(containers).wf(),
        ensures
            final(containers).wf(),
            final(self)@ == old(self)@,
            r == old(containers)@.group_of(id) is Some,
            final(containers)@ == if r {
                old(containers)@.window_focused(id)
            } else {
                old(containers)@
            },
            final(containers)@.windows() == old(containers)@.windows(),
            forall|k: NodeKey| #[trigger]
                final(containers)@.loose(k) ==> old(containers)@.loose(k),
            old(containers)@.mentions_live() ==> final(containers)@.mentions_live(),
    {
        if !self.contains(containers, id) {
            return false;
        }
        self.focus_alone(containers, id);
        true
    }

    /// Focuses a floating window.
    pub fn focus_window_by_id(&mut self, containers: &mut ContainerArena, id: WindowId) -> (r: bool)
        requires
            old(containers).wf(),
        ensures
            final(containers).wf(),
            final(self)@ == old(self)@,
            r == old(containers)@.group_of(id) is Some,
            final(containers)@ == if r {
                old(containers)@.window_focused(id)
            } else {
                old(containers)@
            },
            final(containers)@.windows() == old(containers)@.windows(),
            forall|k: NodeKey| #[trigger]
                final(containers)@.loose(k) ==> old(containers)@.loose(k),
            old(containers)@.mentions_live() ==> final(containers)@.mentions_live(),
    {
        self.activate_window_without_raising(containers, id)
    }

    /// Brings the group of a window to the top, its dialogs above it, and focuses the window.
    pub fn activate_window(&mut self, containers: &mut ContainerArena, id: WindowId) -> (r: bool)
        requires
            old(containers).wf(),
        ensures
            final(containers).wf(),
            final(self)@ == old(self)@,
            (final(containers)@, r) == old(containers)@.activated(id),
            final(containers)@.windows() == old(containers)@.windows(),
            forall|k: NodeKey| #[trigger]
                final(containers)@.loose(k) ==> old(containers)@.loose(k),
            old(containers)@.mentions_live() ==> final(containers)@.mentions_live(),
    {
        match self.idx_of(containers, id) {
            Some(idx) => {
                self.raise_container(containers, idx);
                self.focus_alone(containers, id);
                true
            },
            None => false,
        }
    }

    /// Selects nothing.
    pub fn clear_selection_context(&self, containers: &mut ContainerArena)
        requires
            old(containers).wf(),
        ensures
            final(containers).wf(),
            final(containers)@ == old(containers)@.with_seat(
                old(containers)@.seat.with_selected(None),
            ),
            final(containers)@.windows() == old(containers)@.windows(),
            forall|k: NodeKey| #[trigger]
                final(containers)@.loose(k) ==> old(containers)@.loose(k),
            old(containers)@.mentions_live() ==> final(containers)@.mentions_live(),
    {
        containers.clear_selection();
    }
}

/// The entries of `ids` that are among `ongoing`.
pub open spec fn still_in(ids: Seq<WindowId>, ongoing: Seq<WindowId>) -> Seq<WindowId>
    decreases ids.len(),
{
    if ids.len() == 0 {
        Seq::empty()
    } else if ongoing.contains(ids.last()) {
        still_in(ids.drop_last(), ongoing).push(ids.last())
    } else {
        still_in(ids.drop_last(), ongoing)
    }
}

pub open spec fn as_ints(s: Seq<usize>) -> Seq<int> {
    Seq::new(s.len(), |i: int| s[i] as int)
}

pub(crate) fn lists_id(ids: &Vec<WindowId>, id: WindowId) -> (r: bool)
    ensures
        r == ids@.contains(id),
{
    let mut i: usize = 0;
    while i < ids.len()
        invariant
            i <= ids@.len(),
            forall|j: int| 0 <= j < i ==> ids@[j] != id,
        decreases ids@.len() - i,
    {
        if ids[i] == id {
            return true;
        }
        i = i + 1;
    }
    false
}

} // verus!
