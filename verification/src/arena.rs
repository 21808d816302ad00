//! The arena that owns a workspace's nodes: storage, links, and the elementary changes every
//! command is made of.

use crate::axis::{Layout, NodeKey};
use crate::cache::{Caches, LayoutCache, LeafDecor};
use crate::measure::{NodeSizing, Rect};
use crate::node::{ContainerData, Frame, LayoutParentData, Node, NodeData, WorkspaceData};
use crate::seat::{position_of, Seat, SeatFocus};
use crate::store::KeyMap;
use crate::tile::{Tile, TileRequest, TileState};
use crate::tree::{
    lemma_added, lemma_dropped, lemma_floated, lemma_linked_at, lemma_unfloated, lemma_unlinked,
    lemma_with_node, lemma_without_is_remove, ranked, ArenaOptions, FloatingRoot, Tree,
};
use vstd::prelude::*;

verus! {

pub open spec fn nodes_state(nodes: Map<NodeKey, NodeData>) -> Map<NodeKey, Node> {
    Map::new(|k: NodeKey| nodes.contains_key(k), |k: NodeKey| nodes[k]@)
}

/// Stable node arena and topology of one workspace.
#[derive(Debug)]
pub struct ContainerArena {
    nodes: KeyMap<NodeData>,
    parents: KeyMap<NodeKey>,
    root: NodeKey,
    seat: SeatFocus,
    fullscreen: Option<NodeKey>,
    floating: Vec<FloatingRoot>,
    next_floating_id: u64,
    next_key: u64,
    cache: LayoutCache,
    options: ArenaOptions,
}

impl View for ContainerArena {
    type V = Tree;

    closed spec fn view(&self) -> Tree {
        Tree {
            nodes: nodes_state(self.nodes@),
            parents: self.parents@,
            root: self.root,
            seat: self.seat@,
            fullscreen: self.fullscreen,
            floating: self.floating@,
            next_floating_id: self.next_floating_id,
            next_key: self.next_key,
            caches: self.cache@,
            options: self.options,
        }
    }
}

impl Tree {
    /// The tree with the tile of a window replaced, if `k` is one.
    pub open spec fn with_tile(self, k: NodeKey, tile: TileState) -> Tree {
        if self.is_view(k) {
            self.with_node(k, Node { tile: Some(tile), ..self.nodes[k] })
        } else {
            self
        }
    }

    /// A workspace with nothing in it.
    pub open spec fn vacant(root: NodeKey, options: ArenaOptions) -> Tree {
        Tree {
            nodes: Map::empty().insert(root, Node::empty_workspace(Layout::SplitH)),
            parents: Map::empty(),
            root,
            seat: Seat { order: seq![root], leaf: None, selected: None },
            fullscreen: None,
            floating: Seq::empty(),
            next_floating_id: 0,
            next_key: (root.id + 1) as u64,
            caches: Caches::empty(),
            options,
        }
    }
}

/// An empty workspace is well-formed.
pub proof fn lemma_vacant(root: NodeKey, options: ArenaOptions)
    requires
        root.id < u64::MAX,
    ensures
        Tree::vacant(root, options).wf(),
{
    let t = Tree::vacant(root, options);
    let rank = |k: NodeKey| 0nat;
    assert(ranked(t.parents, rank, 0));
    assert forall|k: NodeKey| #[trigger] t.seat.order.contains(k) <==> t.has(k) by {
        assert(t.seat.order[0] == root);
    }
}

/// The workspace carries no marks.
pub proof fn lemma_workspace_markless(arena: ContainerArena, k: NodeKey)
    requires
        arena@.has(k),
        arena@.nodes[k].workspace,
    ensures
        arena@.nodes[k].own_marks() == Seq::<Seq<char>>::empty(),
        arena@.nodes[k].with_marks(Seq::empty()) == arena@.nodes[k],
{
}

/// A window with another tile is the same node but for the tile.
proof fn lemma_tiles_change(held: Map<NodeKey, NodeData>, t: Tree, key: NodeKey)
    requires
        t.wf(),
        t.nodes == nodes_state(held),
    ensures
        forall|node: NodeData| #[trigger]
            nodes_state(held.insert(key, node)) == t.nodes.insert(key, node@),
        forall|tile: TileState| #[trigger] t.with_tile(key, tile).wf(),
        t.is_view(key) ==> held.contains_key(key) && held[key] is Container,
        forall|tile: TileState|
            t.is_view(key) ==> (#[trigger] t.with_tile(key, tile)).windows()
                == t.windows().insert(key, tile.window.id),
        forall|tile: TileState, k: NodeKey| #[trigger]
            t.with_tile(key, tile).loose(k) ==> t.loose(k),
        forall|tile: TileState|
            t.mentions_live() ==> (#[trigger] t.with_tile(key, tile)).mentions_live(),
{
    reveal(Tree::mentions_live);
    reveal(Tree::windows);
    assert forall|tile: TileState| t.is_view(key) implies (#[trigger] t.with_tile(
        key,
        tile,
    )).windows() == t.windows().insert(key, tile.window.id) by {
        assert(t.with_tile(key, tile).windows() =~= t.windows().insert(key, tile.window.id));
    }
    assert forall|node: NodeData| #[trigger]
        nodes_state(held.insert(key, node)) == t.nodes.insert(key, node@) by {
        assert(nodes_state(held.insert(key, node)) =~= t.nodes.insert(key, node@));
    }
    assert forall|tile: TileState| #[trigger] t.with_tile(key, tile).wf() by {
        if t.is_view(key) {
            lemma_with_node(t, key, Node { tile: Some(tile), ..t.nodes[key] });
        }
    }
}

/// No child list of an arena is longer than an index can count.
pub proof fn law_child_lists_fit(arena: ContainerArena)
    ensures
        forall|p: NodeKey| #[trigger]
            arena@.nodes.contains_key(p) ==> arena@.nodes[p].children.len() <= usize::MAX,
{
    assert forall|p: NodeKey| #[trigger] arena@.nodes.contains_key(p) implies arena@.nodes[p].children.len()
        <= usize::MAX by {
        match arena.nodes@[p] {
            NodeData::Workspace(workspace) => {
                assert(workspace.common.children.len() == workspace.common.children@.len());
            },
            NodeData::Container(container) => {
                assert(container.common.children.len() == container.common.children@.len());
            },
        }
    }
}

impl ContainerArena {
    pub open spec fn wf(&self) -> bool {
        self@.wf()
    }

    /// An empty workspace whose nodes are numbered from `first_key` on.
    pub fn new(first_key: u64, options: ArenaOptions) -> (r: Self)
        requires
            first_key < u64::MAX,
        ensures
            r@ == Tree::vacant((NodeKey { id: first_key }), options),
            r.wf(),
            r@.mentions_live(),
    {
        reveal(Tree::mentions_live);
        let root = NodeKey { id: first_key };
        let mut nodes: KeyMap<NodeData> = KeyMap::new();
        nodes.insert(root, NodeData::Workspace(WorkspaceData::new(Layout::SplitH)));
        let mut seat = SeatFocus::default();
        seat.register(root);
        let r = ContainerArena {
            nodes,
            parents: KeyMap::new(),
            root,
            seat,
            fullscreen: None,
            floating: Vec::new(),
            next_floating_id: 0,
            next_key: first_key + 1,
            cache: LayoutCache::new(),
            options,
        };
        proof {
            lemma_vacant(root, options);
            assert(r@.nodes =~= Tree::vacant(root, options).nodes);
            assert(r@.seat.order =~= seq![root]);
        }
        r
    }

    // -----------------------------------------------------------------------------------------
    // Reading
    // -----------------------------------------------------------------------------------------

    /// The workspace node.
    pub fn workspace_root(&self) -> (r: NodeKey)
        ensures
            r == self@.root,
    {
        self.root
    }

    pub fn options(&self) -> (r: ArenaOptions)
        ensures
            r == self@.options,
    {
        self.options
    }

    pub fn set_options(&mut self, options: ArenaOptions)
        ensures
            final(self)@ == (Tree { options, ..old(self)@ }),
            final(self)@.windows() == old(self)@.windows(),
            forall|k: NodeKey| #[trigger] final(self)@.loose(k) ==> old(self)@.loose(k),
            old(self)@.mentions_live() ==> final(self)@.mentions_live(),
    {
        reveal(Tree::mentions_live);
        self.options = options;
        proof {
            crate::windows::lemma_same_windows(old(self)@, self@);
        }
    }

    pub fn next_key(&self) -> (r: u64)
        ensures
            r == self@.next_key,
    {
        self.next_key
    }

    /// Whether this arena holds a node.
    pub fn holds_node(&self, key: NodeKey) -> (r: bool)
        ensures
            r == self@.has(key),
    {
        self.nodes.contains_key(key)
    }

    pub fn get_node(&self, key: NodeKey) -> (r: Option<&NodeData>)
        ensures
            r is Some <==> self@.has(key),
            r matches Some(node) ==> node@ == self@.nodes[key],
    {
        self.nodes.get(key)
    }

    /// The layout fields of a node that lays out children: the workspace or a split.
    pub fn get_container(&self, key: NodeKey) -> (r: Option<&LayoutParentData>)
        ensures
            r is Some <==> self@.is_parent(key),
            r matches Some(common) ==> common@ == (Frame {
                layout: self@.nodes[key].layout,
                children: self@.nodes[key].children,
                prev_split_layout: self@.nodes[key].prev_split_layout,
                geometry: self@.nodes[key].geometry,
            }),
    {
        match self.nodes.get(key) {
            Some(node) => if node.is_view() {
                None
            } else {
                Some(node.common())
            },
            None => None,
        }
    }

    /// A split container, excluding the workspace and the views.
    pub fn get_real_container(&self, key: NodeKey) -> (r: Option<&ContainerData>)
        ensures
            r is Some <==> self@.is_split(key),
            r matches Some(container) ==> container@ == self@.nodes[key],
    {
        match self.nodes.get(key) {
            Some(NodeData::Container(container)) => if container.is_view() {
                None
            } else {
                Some(container)
            },
            _ => None,
        }
    }

    /// A container of either sort, excluding the workspace.
    pub fn get_any_container(&self, key: NodeKey) -> (r: Option<&ContainerData>)
        ensures
            r is Some <==> self@.is_container(key),
            r matches Some(container) ==> container@ == self@.nodes[key],
    {
        match self.nodes.get(key) {
            Some(NodeData::Container(container)) => Some(container),
            _ => None,
        }
    }

    pub fn get_workspace(&self) -> (r: Option<&WorkspaceData>)
        ensures
            r is Some <==> self@.has(self@.root) && self@.nodes[self@.root].workspace,
            r matches Some(workspace) ==> workspace@ == self@.nodes[self@.root],
    {
        match self.nodes.get(self.root) {
            Some(NodeData::Workspace(workspace)) => Some(workspace),
            _ => None,
        }
    }

    pub fn get_tile(&self, key: NodeKey) -> (r: Option<&Tile>)
        ensures
            r is Some <==> self@.is_view(key),
            r matches Some(tile) ==> tile@ == self@.nodes[key].tile->0,
    {
        match self.nodes.get(key) {
            Some(node) => node.as_tile(),
            None => None,
        }
    }

    /// Whether `key` addresses a window.
    pub fn is_leaf(&self, key: NodeKey) -> (r: bool)
        ensures
            r == self@.is_view(key),
    {
        match self.nodes.get(key) {
            Some(node) => node.is_view(),
            None => false,
        }
    }

    pub fn parent_of(&self, key: NodeKey) -> (r: Option<NodeKey>)
        ensures
            r == self@.parent(key),
    {
        match self.parents.get(key) {
            Some(parent) => Some(*parent),
            None => None,
        }
    }

    /// Where `child_key` is listed among the children of `parent_key`.
    pub fn child_index(&self, parent_key: NodeKey, child_key: NodeKey) -> (r: Option<usize>)
        ensures
            r is Some <==> self@.kids(parent_key).contains(child_key),
            r matches Some(i) ==> i < self@.kids(parent_key).len() && self@.kids(
                parent_key,
            )[i as int] == child_key && self@.is_parent(parent_key),
    {
        match self.get_container(parent_key) {
            Some(container) => position_of(&container.children, child_key),
            None => None,
        }
    }

    pub fn focused_key(&self) -> (r: Option<NodeKey>)
        ensures
            r == self@.seat.leaf,
    {
        self.seat.focused_leaf()
    }

    pub fn selected_key(&self) -> (r: Option<NodeKey>)
        ensures
            r == self@.seat.selected,
    {
        self.seat.selected()
    }

    pub fn seat(&self) -> (r: &SeatFocus)
        ensures
            r@ == self@.seat,
    {
        &self.seat
    }

    /// The one node owning workspace fullscreen.
    pub fn fullscreen_key(&self) -> (r: Option<NodeKey>)
        ensures
            r == self@.fullscreen,
    {
        self.fullscreen
    }

    pub fn cache(&self) -> (r: &LayoutCache)
        ensures
            *r == self.cache_state(),
            r@ == self@.caches,
    {
        &self.cache
    }

    /// The floating groups, topmost first.
    pub fn floating(&self) -> (r: &Vec<FloatingRoot>)
        ensures
            r@ == self@.floating,
    {
        &self.floating
    }

    pub fn next_floating_id(&self) -> (r: u64)
        ensures
            r == self@.next_floating_id,
    {
        self.next_floating_id
    }

    // -----------------------------------------------------------------------------------------
    // Elementary changes
    // -----------------------------------------------------------------------------------------

    pub(crate) fn seat_mut(&mut self) -> (r: &mut SeatFocus)
        ensures
            r@ == old(self)@.seat,
            final(self)@ == old(self)@.with_seat(final(r)@),
    {
        &mut self.seat
    }

    /// Takes the cache out to change it; [`Self::put_cache`] puts it back.
    pub(crate) fn take_cache(&mut self) -> (r: LayoutCache)
        ensures
            r == old(self).cache_state(),
            r@ == old(self)@.caches,
            final(self)@ == old(self)@.with_caches(Caches::empty()),
            final(self)@.windows() == old(self)@.windows(),
            forall|k: NodeKey| #[trigger] final(self)@.loose(k) ==> old(self)@.loose(k),
            old(self)@.mentions_live() ==> final(self)@.mentions_live(),
    {
        reveal(Tree::mentions_live);
        let mut cache = LayoutCache::new();
        std::mem::swap(&mut cache, &mut self.cache);
        proof {
            crate::windows::lemma_same_windows(old(self)@, self@);
        }
        cache
    }

    pub(crate) fn put_cache(&mut self, cache: LayoutCache)
        ensures
            final(self)@ == old(self)@.with_caches(cache@),
            final(self)@.windows() == old(self)@.windows(),
            forall|k: NodeKey| #[trigger] final(self)@.loose(k) ==> old(self)@.loose(k),
            old(self)@.mentions_live() ==> final(self)@.mentions_live(),
    {
        reveal(Tree::mentions_live);
        self.cache = cache;
        proof {
            crate::windows::lemma_same_windows(old(self)@, self@);
        }
    }

    pub closed spec fn cache_state(self) -> LayoutCache {
        self.cache
    }

    pub(crate) fn set_fullscreen(&mut self, fullscreen: Option<NodeKey>)
        ensures
            final(self)@ == old(self)@.with_fullscreen(fullscreen),
            old(self).wf() ==> final(self).wf(),
            final(self)@.windows() == old(self)@.windows(),
            forall|k: NodeKey| #[trigger] final(self)@.loose(k) ==> old(self)@.loose(k),
            old(self)@.mentions_live() && (fullscreen matches Some(k) ==> old(self)@.has(k) && k
                != old(self)@.root) ==> final(self)@.mentions_live(),
    {
        reveal(Tree::mentions_live);
        self.fullscreen = fullscreen;
        proof {
            crate::tree::lemma_with_fullscreen(old(self)@, fullscreen);
        }
        proof {
            crate::windows::lemma_same_windows(old(self)@, self@);
        }
    }

    pub(crate) fn floating_mut(&mut self) -> (r: &mut Vec<FloatingRoot>)
        ensures
            r@ == old(self)@.floating,
            final(self)@ == old(self)@.with_floating(final(r)@),
    {
        &mut self.floating
    }

    pub(crate) fn take_floating_id(&mut self) -> (r: u64)
        requires
            old(self)@.next_floating_id < u64::MAX,
        ensures
            r == old(self)@.next_floating_id,
            final(self)@ == (Tree {
                next_floating_id: (old(self)@.next_floating_id + 1) as u64,
                ..old(self)@
            }),
            final(self)@.windows() == old(self)@.windows(),
            forall|k: NodeKey| #[trigger] final(self)@.loose(k) ==> old(self)@.loose(k),
            old(self)@.mentions_live() ==> final(self)@.mentions_live(),
    {
        reveal(Tree::mentions_live);
        let id = self.next_floating_id;
        self.next_floating_id = id + 1;
        proof {
            crate::windows::lemma_same_windows(old(self)@, self@);
        }
        id
    }

    /// Takes a node's data out to change it; [`Self::put_node`] puts it back.
    fn take_node(&mut self, key: NodeKey) -> (r: Option<NodeData>)
        ensures
            r is Some <==> old(self)@.has(key),
            r matches Some(node) ==> node@ == old(self)@.nodes[key],
            final(self)@ == (Tree { nodes: old(self)@.nodes.remove(key), ..old(self)@ }),
    {
        let node = self.nodes.remove(key);
        assert(self@.nodes =~= old(self)@.nodes.remove(key));
        node
    }

    fn put_node(&mut self, key: NodeKey, node: NodeData)
        ensures
            final(self)@ == old(self)@.with_node(key, node@),
    {
        self.nodes.insert(key, node);
        assert(self@.nodes =~= old(self)@.nodes.insert(key, node@));
    }

    /// Replaces the child list of a node.
    pub(crate) fn set_children(&mut self, key: NodeKey, children: Vec<NodeKey>)
        requires
            old(self)@.has(key),
        ensures
            final(self)@ == old(self)@.with_children(key, children@),
            final(self)@.windows() == old(self)@.windows(),
            forall|k: NodeKey| #[trigger] final(self)@.loose(k) ==> old(self)@.loose(k),
            old(self)@.mentions_live() ==> final(self)@.mentions_live(),
    {
        reveal(Tree::mentions_live);
        if let Some(node) = self.take_node(key) {
            let mut node = node;
            match &mut node {
                NodeData::Workspace(workspace) => {
                    workspace.common.children = children;
                },
                NodeData::Container(container) => {
                    container.common.children = children;
                },
            }
            self.put_node(key, node);
            assert(self@.nodes =~= old(self)@.with_children(key, children@).nodes);
        }
        proof {
            crate::windows::lemma_same_windows(old(self)@, self@);
        }
    }

    pub(crate) fn set_layout_of(&mut self, key: NodeKey, layout: Layout)
        requires
            old(self)@.has(key),
        ensures
            final(self)@ == old(self)@.with_node(key, old(self)@.nodes[key].with_layout(layout)),
            old(self).wf() ==> final(self).wf(),
            final(self)@.windows() == old(self)@.windows(),
            forall|k: NodeKey| #[trigger] final(self)@.loose(k) ==> old(self)@.loose(k),
            old(self)@.mentions_live() ==> final(self)@.mentions_live(),
    {
        reveal(Tree::mentions_live);
        if let Some(node) = self.take_node(key) {
            let mut node = node;
            match &mut node {
                NodeData::Workspace(workspace) => {
                    workspace.common.layout = layout;
                },
                NodeData::Container(container) => {
                    container.common.layout = layout;
                },
            }
            let ghost changed = old(self)@.nodes[key].with_layout(layout);
            self.put_node(key, node);
            proof {
                assert(self@.nodes =~= old(self)@.nodes.insert(key, changed));
                if old(self).wf() {
                    lemma_with_node(old(self)@, key, changed);
                }
            }
        }
        proof {
            crate::windows::lemma_same_windows(old(self)@, self@);
        }
    }

    /// Changes a layout by command, remembering the split it replaces.
    pub(crate) fn command_layout_of(&mut self, key: NodeKey, layout: Layout)
        requires
            old(self)@.has(key),
        ensures
            final(self)@ == old(self)@.with_node(key, old(self)@.nodes[key].commanded(layout)),
            old(self).wf() ==> final(self).wf(),
            final(self)@.windows() == old(self)@.windows(),
            forall|k: NodeKey| #[trigger] final(self)@.loose(k) ==> old(self)@.loose(k),
            old(self)@.mentions_live() ==> final(self)@.mentions_live(),
    {
        reveal(Tree::mentions_live);
        if let Some(node) = self.take_node(key) {
            let mut node = node;
            match &mut node {
                NodeData::Workspace(workspace) => {
                    workspace.common.set_layout_from_command(layout);
                },
                NodeData::Container(container) => {
                    container.common.set_layout_from_command(layout);
                },
            }
            let ghost changed = old(self)@.nodes[key].commanded(layout);
            self.put_node(key, node);
            proof {
                assert(self@.nodes =~= old(self)@.nodes.insert(key, changed));
                if old(self).wf() {
                    lemma_with_node(old(self)@, key, changed);
                }
            }
        }
        proof {
            crate::windows::lemma_same_windows(old(self)@, self@);
        }
    }

    pub(crate) fn set_prev_split_layout_of(&mut self, key: NodeKey, prev: Option<Layout>)
        requires
            old(self)@.has(key),
        ensures
            final(self)@ == old(self)@.with_node(
                key,
                (Node { prev_split_layout: prev, ..old(self)@.nodes[key] }),
            ),
            old(self).wf() ==> final(self).wf(),
            final(self)@.windows() == old(self)@.windows(),
            forall|k: NodeKey| #[trigger] final(self)@.loose(k) ==> old(self)@.loose(k),
            old(self)@.mentions_live() ==> final(self)@.mentions_live(),
    {
        reveal(Tree::mentions_live);
        if let Some(node) = self.take_node(key) {
            let mut node = node;
            match &mut node {
                NodeData::Workspace(workspace) => {
                    workspace.common.prev_split_layout = prev;
                },
                NodeData::Container(container) => {
                    container.common.prev_split_layout = prev;
                },
            }
            let ghost changed = Node { prev_split_layout: prev, ..old(self)@.nodes[key] };
            self.put_node(key, node);
            proof {
                assert(self@.nodes =~= old(self)@.nodes.insert(key, changed));
                if old(self).wf() {
                    lemma_with_node(old(self)@, key, changed);
                }
            }
        }
        proof {
            crate::windows::lemma_same_windows(old(self)@, self@);
        }
    }

    pub(crate) fn set_geometry_of(&mut self, key: NodeKey, geometry: Rect)
        requires
            old(self)@.has(key),
        ensures
            final(self)@ == old(self)@.with_node(
                key,
                (Node { geometry, ..old(self)@.nodes[key] }),
            ),
            old(self).wf() ==> final(self).wf(),
            final(self)@.windows() == old(self)@.windows(),
            forall|k: NodeKey| #[trigger] final(self)@.loose(k) ==> old(self)@.loose(k),
            old(self)@.mentions_live() ==> final(self)@.mentions_live(),
    {
        reveal(Tree::mentions_live);
        if let Some(node) = self.take_node(key) {
            let mut node = node;
            match &mut node {
                NodeData::Workspace(workspace) => {
                    workspace.common.geometry = geometry;
                },
                NodeData::Container(container) => {
                    container.common.geometry = geometry;
                },
            }
            let ghost changed = Node { geometry, ..old(self)@.nodes[key] };
            self.put_node(key, node);
            proof {
                assert(self@.nodes =~= old(self)@.nodes.insert(key, changed));
                if old(self).wf() {
                    lemma_with_node(old(self)@, key, changed);
                }
            }
        }
        proof {
            crate::windows::lemma_same_windows(old(self)@, self@);
        }
    }

    /// Marks a container as one the user asked for, or no longer so.
    pub(crate) fn set_user_created_of(&mut self, key: NodeKey, user_created: bool)
        requires
            old(self)@.is_container(key),
        ensures
            final(self)@ == old(self)@.with_node(
                key,
                (Node { user_created, ..old(self)@.nodes[key] }),
            ),
            old(self).wf() ==> final(self).wf(),
            final(self)@.windows() == old(self)@.windows(),
            forall|k: NodeKey| #[trigger] final(self)@.loose(k) ==> old(self)@.loose(k),
            old(self)@.mentions_live() ==> final(self)@.mentions_live(),
    {
        reveal(Tree::mentions_live);
        if let Some(node) = self.take_node(key) {
            let mut node = node;
            match &mut node {
                NodeData::Workspace(_) => {},
                NodeData::Container(container) => {
                    container.user_created = user_created;
                },
            }
            let ghost changed = Node { user_created, ..old(self)@.nodes[key] };
            self.put_node(key, node);
            proof {
                assert(self@.nodes =~= old(self)@.nodes.insert(key, changed));
                if old(self).wf() {
                    lemma_with_node(old(self)@, key, changed);
                }
            }
        }
        proof {
            crate::windows::lemma_same_windows(old(self)@, self@);
        }
    }

    pub(crate) fn set_sizing_of(&mut self, key: NodeKey, sizing: NodeSizing)
        requires
            old(self)@.is_container(key),
        ensures
            final(self)@ == old(self)@.with_node(
                key,
                old(self)@.nodes[key].with_own_sizing(sizing),
            ),
            old(self).wf() ==> final(self).wf(),
            final(self)@.windows() == old(self)@.windows(),
            forall|k: NodeKey| #[trigger] final(self)@.loose(k) ==> old(self)@.loose(k),
            old(self)@.mentions_live() ==> final(self)@.mentions_live(),
    {
        reveal(Tree::mentions_live);
        if let Some(node) = self.take_node(key) {
            let ghost before = node@;
            let ghost changed = old(self)@.nodes[key].with_own_sizing(sizing);
            let node = match node {
                NodeData::Workspace(workspace) => NodeData::Workspace(workspace),
                NodeData::Container(container) => {
                    let mut container = container;
                    container.set_sizing(sizing);
                    NodeData::Container(container)
                },
            };
            self.put_node(key, node);
            proof {
                assert(self@.nodes =~= old(self)@.nodes.insert(key, changed));
                if old(self).wf() {
                    lemma_with_node(old(self)@, key, changed);
                }
            }
        }
        proof {
            crate::windows::lemma_same_windows(old(self)@, self@);
        }
    }

    /// Exchanges the tile of a window, handing the former one back.
    pub(crate) fn swap_tile_of(&mut self, key: NodeKey, tile: Tile) -> (r: Tile)
        requires
            old(self)@.is_view(key),
            old(self).wf(),
        ensures
            r@ == old(self)@.nodes[key].tile->0,
            final(self)@ == old(self)@.with_node(
                key,
                (Node { tile: Some(tile@), ..old(self)@.nodes[key] }),
            ),
            final(self).wf(),
            old(self)@.mentions_live() ==> final(self)@.mentions_live(),
    {
        reveal(Tree::mentions_live);
        let ghost changed = Node { tile: Some(tile@), ..old(self)@.nodes[key] };
        let node = self.take_node(key).unwrap();
        let (node, former) = match node {
            NodeData::Workspace(workspace) => (NodeData::Workspace(workspace), tile),
            NodeData::Container(container) => {
                let mut container = container;
                let former = container.tile.take().unwrap();
                container.tile = Some(tile);
                (NodeData::Container(container), former)
            },
        };
        self.put_node(key, node);
        proof {
            assert(self@.nodes =~= old(self)@.nodes.insert(key, changed));
            lemma_with_node(old(self)@, key, changed);
        }
        former
    }

    /// The tile of a window, to be changed in place.
    pub fn get_tile_mut(&mut self, key: NodeKey) -> (r: Option<&mut Tile>)
        requires
            old(self).wf(),
        ensures
            r is Some <==> old(self)@.is_view(key),
            match r {
                Some(tile) => tile@ == old(self)@.nodes[key].tile->0 && final(self)@
                    == old(self)@.with_tile(key, final(tile)@),
                None => final(self)@ == old(self)@,
            },
            final(self).wf(),
            final(self)@.windows() == match r {
                Some(tile) => old(self)@.windows().insert(key, final(tile)@.window.id),
                None => old(self)@.windows(),
            },
            forall|k: NodeKey| #[trigger] final(self)@.loose(k) ==> old(self)@.loose(k),
            old(self)@.mentions_live() ==> final(self)@.mentions_live(),
    {
        let ghost t = self@;
        let ghost held = self.nodes@;
        proof {
            lemma_tiles_change(held, t, key);
        }
        if !self.is_leaf(key) {
            return None;
        }
        match self.nodes.get_mut(key) {
            Some(NodeData::Container(container)) => container.tile.as_mut(),
            _ => None,
        }
    }

    /// Takes the tile of a window out to change it; [`Self::put_tile`] puts it back.
    pub(crate) fn take_tile(&mut self, key: NodeKey) -> (r: Tile)
        requires
            old(self)@.is_view(key),
        ensures
            r@ == old(self)@.nodes[key].tile->0,
            final(self)@ == old(self)@.with_node(
                key,
                (Node { tile: None, ..old(self)@.nodes[key] }),
            ),
    {
        let ghost changed = Node { tile: None, ..old(self)@.nodes[key] };
        let node = self.take_node(key).unwrap();
        match node {
            NodeData::Workspace(workspace) => {
                let node = NodeData::Workspace(workspace);
                self.put_node(key, node);
                Tile::new(key, crate::tile::Window::new(0))
            },
            NodeData::Container(container) => {
                let mut container = container;
                let tile = container.tile.take().unwrap();
                self.put_node(key, NodeData::Container(container));
                assert(self@.nodes =~= old(self)@.nodes.insert(key, changed));
                tile
            },
        }
    }

    /// Puts the tile of a window back. `before` is the tree it was taken from.
    pub(crate) fn put_tile(&mut self, key: NodeKey, tile: Tile, Ghost(before): Ghost<Tree>)
        requires
            before.wf(),
            before.is_view(key),
            old(self)@ == before.with_node(key, (Node { tile: None, ..before.nodes[key] })),
        ensures
            final(self).wf(),
            final(self)@ == before.with_tile(key, tile@),
            tile@.window.id == before.nodes[key].tile->0.window.id ==> final(self)@.windows()
                == before.windows(),
            forall|k: NodeKey| #[trigger] final(self)@.loose(k) ==> before.loose(k),
            before.mentions_live() ==> final(self)@.mentions_live(),
    {
        reveal(Tree::mentions_live);
        let ghost changed = Node { tile: Some(tile@), ..before.nodes[key] };
        let node = self.take_node(key).unwrap();
        let node = match node {
            NodeData::Workspace(workspace) => {
                assert(before.nodes.contains_key(key));
                NodeData::Workspace(workspace)
            },
            NodeData::Container(container) => {
                let mut container = container;
                container.tile = Some(tile);
                NodeData::Container(container)
            },
        };
        self.put_node(key, node);
        proof {
            assert(self@.nodes =~= before.nodes.insert(key, changed));
            lemma_with_node(before, key, changed);
            if tile@.window.id == before.nodes[key].tile->0.window.id {
                crate::windows::lemma_same_windows(before, self@);
            }
        }
    }

    /// Asks something of a window.
    pub(crate) fn ask_of(&mut self, key: NodeKey, request: TileRequest)
        requires
            old(self)@.is_view(key),
            old(self).wf(),
        ensures
            final(self)@ == old(self)@.with_node(
                key,
                (Node {
                    tile: Some(old(self)@.nodes[key].tile->0.asked(request)),
                    ..old(self)@.nodes[key]
                }),
            ),
            final(self).wf(),
            final(self)@.windows() == old(self)@.windows(),
            forall|k: NodeKey| #[trigger] final(self)@.loose(k) ==> old(self)@.loose(k),
            old(self)@.mentions_live() ==> final(self)@.mentions_live(),
    {
        reveal(Tree::mentions_live);
        let ghost changed = Node {
            tile: Some(old(self)@.nodes[key].tile->0.asked(request)),
            ..old(self)@.nodes[key]
        };
        let node = self.take_node(key).unwrap();
        let node = match node {
            NodeData::Workspace(workspace) => NodeData::Workspace(workspace),
            NodeData::Container(container) => {
                let mut container = container;
                let mut tile = container.tile.take().unwrap();
                tile.ask(request);
                container.tile = Some(tile);
                NodeData::Container(container)
            },
        };
        self.put_node(key, node);
        proof {
            assert(self@.nodes =~= old(self)@.nodes.insert(key, changed));
            lemma_with_node(old(self)@, key, changed);
        }
        proof {
            crate::windows::lemma_same_windows(old(self)@, self@);
        }
    }

    /// Gives a window the decoration of the containers around it.
    #[verifier::spinoff_prover]
    pub(crate) fn set_decor_of(&mut self, key: NodeKey, decor: LeafDecor)
        requires
            old(self)@.is_view(key),
            old(self).wf(),
        ensures
            final(self)@ == old(self)@.with_node(
                key,
                (Node {
                    tile: Some((TileState { decor, ..old(self)@.nodes[key].tile->0 })),
                    ..old(self)@.nodes[key]
                }),
            ),
            final(self).wf(),
            final(self)@.windows() == old(self)@.windows(),
            forall|k: NodeKey| #[trigger] final(self)@.loose(k) ==> old(self)@.loose(k),
            old(self)@.mentions_live() ==> final(self)@.mentions_live(),
    {
        reveal(Tree::mentions_live);
        let ghost changed = Node {
            tile: Some(TileState { decor, ..old(self)@.nodes[key].tile->0 }),
            ..old(self)@.nodes[key]
        };
        let node = self.take_node(key).unwrap();
        let node = match node {
            NodeData::Workspace(workspace) => NodeData::Workspace(workspace),
            NodeData::Container(container) => {
                let mut container = container;
                let mut tile = container.tile.take().unwrap();
                tile.decor = decor;
                container.tile = Some(tile);
                NodeData::Container(container)
            },
        };
        self.put_node(key, node);
        proof {
            assert(self@.nodes =~= old(self)@.nodes.insert(key, changed));
            lemma_with_node(old(self)@, key, changed);
        }
        proof {
            crate::windows::lemma_same_windows(old(self)@, self@);
        }
    }

    pub(crate) fn set_marks_of(&mut self, key: NodeKey, marks: Vec<String>)
        requires
            old(self)@.is_container(key),
        ensures
            final(self)@ == old(self)@.with_node(
                key,
                old(self)@.nodes[key].with_marks(crate::tile::marks_state(marks@)),
            ),
            old(self).wf() ==> final(self).wf(),
            final(self)@.windows() == old(self)@.windows(),
            forall|k: NodeKey| #[trigger] final(self)@.loose(k) ==> old(self)@.loose(k),
            old(self)@.mentions_live() ==> final(self)@.mentions_live(),
    {
        reveal(Tree::mentions_live);
        if let Some(node) = self.take_node(key) {
            let mut node = node;
            let ghost changed = old(self)@.nodes[key].with_marks(
                crate::tile::marks_state(marks@),
            );
            match &mut node {
                NodeData::Workspace(_) => {},
                NodeData::Container(container) => {
                    container.set_marks(marks);
                },
            }
            self.put_node(key, node);
            proof {
                assert(self@.nodes =~= old(self)@.nodes.insert(key, changed));
                if old(self).wf() {
                    lemma_with_node(old(self)@, key, changed);
                }
            }
        }
        proof {
            crate::windows::lemma_same_windows(old(self)@, self@);
        }
    }

    /// A fresh identity: the next one this arena hands out.
    pub(crate) fn fresh_key(&self) -> (r: NodeKey)
        requires
            self@.next_key < u64::MAX,
        ensures
            r.id == self@.next_key,
            self.wf() ==> !self@.has(r),
    {
        NodeKey { id: self.next_key }
    }

    /// Hands out an identity no node of this arena has or will get from it again.
    pub fn take_key(&mut self) -> (r: NodeKey)
        requires
            old(self).wf(),
            old(self)@.next_key < u64::MAX,
        ensures
            final(self).wf(),
            r == (NodeKey { id: old(self)@.next_key }),
            !old(self)@.has(r),
            final(self)@ == (Tree {
                next_key: (old(self)@.next_key + 1) as u64,
                ..old(self)@
            }),
            final(self)@.windows() == old(self)@.windows(),
            forall|k: NodeKey| #[trigger] final(self)@.loose(k) ==> old(self)@.loose(k),
            old(self)@.mentions_live() ==> final(self)@.mentions_live(),
    {
        reveal(Tree::mentions_live);
        let key = self.fresh_key();
        self.next_key = self.next_key + 1;
        proof {
            crate::tree::lemma_renumbered(old(self)@, self@.next_key);
        }
        proof {
            crate::windows::lemma_same_windows(old(self)@, self@);
        }
        key
    }

    /// Leaves the identities below `id` to others: this arena hands out none of them.
    pub fn reserve_keys(&mut self, id: u64)
        requires
            old(self).wf(),
        ensures
            final(self).wf(),
            final(self)@ == (Tree {
                next_key: if old(self)@.next_key < id {
                    id
                } else {
                    old(self)@.next_key
                },
                ..old(self)@
            }),
            final(self)@.windows() == old(self)@.windows(),
            forall|k: NodeKey| #[trigger] final(self)@.loose(k) ==> old(self)@.loose(k),
            old(self)@.mentions_live() ==> final(self)@.mentions_live(),
    {
        reveal(Tree::mentions_live);
        if self.next_key < id {
            self.next_key = id;
        }
        proof {
            crate::tree::lemma_renumbered(old(self)@, self@.next_key);
        }
        proof {
            crate::windows::lemma_same_windows(old(self)@, self@);
        }
    }

    /// Puts a node into this workspace under the identity it has, linked to nothing.
    pub fn insert_node_with_key(&mut self, key: NodeKey, container: ContainerData)
        requires
            old(self).wf(),
            !old(self)@.has(key),
            key.id < u64::MAX,
            container@.children.len() == 0,
        ensures
            final(self)@ == old(self)@.added(key, container@),
            final(self).wf(),
            final(self)@.windows() == match container@.tile {
                Some(tile) => old(self)@.windows().insert(key, tile.window.id),
                None => old(self)@.windows(),
            },
            forall|k: NodeKey| #[trigger]
                final(self)@.loose(k) ==> old(self)@.loose(k) || k == key,
            old(self)@.mentions_live() ==> final(self)@.mentions_live(),
    {
        reveal(Tree::mentions_live);
        proof {
            lemma_added(old(self)@, key, container@);
        }
        self.nodes.insert(key, NodeData::Container(container));
        self.seat.register(key);
        if self.next_key <= key.id {
            self.next_key = key.id + 1;
        }
        assert(self@.nodes =~= old(self)@.nodes.insert(key, container@));
        proof {
            if container@.tile is Some {
                crate::windows::lemma_window_added(old(self)@, self@, key);
            } else {
                crate::windows::lemma_same_windows(old(self)@, self@);
            }
        }
    }

    /// Puts a node into this workspace that has not been in a tree before: a window under the
    /// identity of its tile, a split under a fresh one.
    pub fn insert_node(&mut self, container: ContainerData) -> (r: NodeKey)
        requires
            old(self).wf(),
            container@.children.len() == 0,
            container@.tile is None ==> old(self)@.next_key < u64::MAX,
            container@.tile matches Some(tile) ==> !old(self)@.has(tile.key) && tile.key.id
                < u64::MAX,
        ensures
            r == match container@.tile {
                Some(tile) => tile.key,
                None => NodeKey { id: old(self)@.next_key },
            },
            !old(self)@.has(r),
            final(self)@ == old(self)@.added(r, container@),
            final(self).wf(),
            final(self)@.windows() == match container@.tile {
                Some(tile) => old(self)@.windows().insert(r, tile.window.id),
                None => old(self)@.windows(),
            },
            forall|k: NodeKey| #[trigger]
                final(self)@.loose(k) ==> old(self)@.loose(k) || k == r,
            old(self)@.mentions_live() ==> final(self)@.mentions_live(),
    {
        reveal(Tree::mentions_live);
        let key = match container.tile() {
            Some(tile) => tile.key,
            None => self.fresh_key(),
        };
        self.insert_node_with_key(key, container);
        key
    }

    /// Removes one node and everything naming it, handing its data back.
    pub fn remove_node_from_store(&mut self, key: NodeKey) -> (r: Option<NodeData>)
        ensures
            r is Some <==> old(self)@.has(key),
            r matches Some(node) ==> node@ == old(self)@.nodes[key] && final(self)@ == old(
                self,
            )@.dropped(key),
            r is None ==> final(self)@ == old(self)@,
            old(self).wf() && old(self)@.has(key) && key != old(self)@.root && !old(
                self,
            )@.parents.contains_key(key) && old(self)@.nodes[key].children.len() == 0
                ==> final(self).wf(),
            final(self)@.windows() == old(self)@.windows().remove(key),
            !old(self)@.is_view(key) ==> final(self)@.windows() == old(self)@.windows(),
            forall|k: NodeKey| #[trigger]
                final(self)@.loose(k) ==> old(self)@.loose(k) && k != key,
            old(self)@.mentions_live() ==> final(self)@.mentions_live(),
    {
        reveal(Tree::mentions_live);
        let node = self.nodes.remove(key);
        if node.is_some() {
            self.parents.remove(key);
            self.seat.unregister(key);
            if self.fullscreen == Some(key) {
                self.fullscreen = None;
            }
            proof {
                assert(self@.nodes =~= old(self)@.nodes.remove(key));
                if old(self).wf() && old(self)@.has(key) && key != old(self)@.root && !old(
                    self,
                )@.parents.contains_key(key) && old(self)@.nodes[key].children.len() == 0 {
                    lemma_dropped(old(self)@, key);
                }
            }
        } else {
            assert(self@.nodes =~= old(self)@.nodes);
        }
        proof {
            crate::windows::lemma_window_removed(old(self)@, self@, key);
            if !old(self)@.is_view(key) {
                crate::windows::lemma_same_windows(old(self)@, self@);
            }
        }
        node
    }

    /// Takes a tiled node out of its parent's child list, leaving it loose. Answers with the
    /// parent and the place it had there.
    #[verifier::spinoff_prover]
    pub fn detach_child(&mut self, key: NodeKey) -> (r: Option<(NodeKey, usize)>)
        requires
            old(self).wf(),
        ensures
            final(self).wf(),
            r is Some <==> old(self)@.parents.contains_key(key) && !old(self)@.is_floating(key),
            r is None ==> final(self)@ == old(self)@,
            r matches Some((parent, idx)) ==> final(self)@ == old(self)@.unlinked(key) && parent
                == old(self)@.parents[key] && idx < old(self)@.nodes[parent].children.len()
                && old(self)@.nodes[parent].children[idx as int] == key,
            final(self)@.windows() == old(self)@.windows(),
            forall|k: NodeKey| #[trigger]
                final(self)@.loose(k) ==> old(self)@.loose(k) || k == key,
            old(self)@.mentions_live() ==> final(self)@.mentions_live(),
    {
        reveal(Tree::mentions_live);
        let parent = match self.parent_of(key) {
            Some(parent) => parent,
            None => {
                return None;
            },
        };
        let idx: usize = match self.child_index(parent, key) {
            Some(idx) => idx,
            None => {
                proof {
                    assert(self@.parents.contains_key(key));
                    assert(self@.nodes[parent].children.contains(key) || self@.is_floating(key));
                    if self@.nodes[parent].children.contains(key) {
                        assert(self@.nodes[parent].children.len() > 0);
                    }
                }
                return None;
            },
        };
        proof {
            if self@.is_floating(key) {
                let i = choose|i: int|
                    0 <= i < self@.floating.len() && #[trigger] self@.floating[i].key == key;
                assert(self@.parents[self@.floating[i].key] == self@.root);
            }
            lemma_unlinked(self@, key);
            assert(self@.nodes[parent].children.no_duplicates());
            lemma_without_is_remove(self@.nodes[parent].children, key);
        }
        let ghost before = self@;
        if let Some(node) = self.take_node(parent) {
            let mut node = node;
            match &mut node {
                NodeData::Workspace(workspace) => {
                    workspace.common.children.remove(idx);
                },
                NodeData::Container(container) => {
                    container.common.children.remove(idx);
                },
            }
            assert(before.nodes[parent].children.index_of(key) == idx) by {
                let kids = before.nodes[parent].children;
                assert(kids[kids.index_of(key)] == kids[idx as int]);
            }
            self.put_node(parent, node);
        }
        self.parents.remove(key);
        assert(self@.nodes =~= before.unlinked(key).nodes);
        proof {
            crate::windows::lemma_same_windows(old(self)@, self@);
        }
        Some((parent, idx))
    }

    /// Puts a loose node into a child list, at the end when `idx` is past it.
    pub fn attach_child(&mut self, key: NodeKey, parent: NodeKey, idx: usize)
        requires
            old(self).wf(),
            old(self)@.has(key),
            key != old(self)@.root,
            !old(self)@.parents.contains_key(key),
            old(self)@.is_parent(parent),
            !old(self)@.under(parent, key),
        ensures
            final(self)@ == old(self)@.linked_at(key, parent, idx as int),
            final(self).wf(),
            final(self)@.windows() == old(self)@.windows(),
            forall|k: NodeKey| #[trigger]
                final(self)@.loose(k) ==> old(self)@.loose(k) && k != key,
            old(self)@.mentions_live() ==> final(self)@.mentions_live(),
    {
        reveal(Tree::mentions_live);
        proof {
            lemma_linked_at(old(self)@, key, parent, idx as int);
        }
        if let Some(node) = self.take_node(parent) {
            let mut node = node;
            match &mut node {
                NodeData::Workspace(workspace) => {
                    workspace.common.insert_child(idx, key);
                },
                NodeData::Container(container) => {
                    container.common.insert_child(idx, key);
                },
            }
            self.put_node(parent, node);
        }
        self.parents.insert(key, parent);
        assert(self@.nodes =~= old(self)@.linked_at(key, parent, idx as int).nodes);
        proof {
            crate::windows::lemma_same_windows(old(self)@, self@);
        }
    }

    /// Sets a parent link and nothing else.
    pub(crate) fn set_parent_link(&mut self, key: NodeKey, parent: NodeKey)
        ensures
            final(self)@ == (Tree {
                parents: old(self)@.parents.insert(key, parent),
                ..old(self)@
            }),
            final(self)@.windows() == old(self)@.windows(),
    {
        self.parents.insert(key, parent);
        proof {
            crate::windows::lemma_same_windows(old(self)@, self@);
        }
    }

    /// Removes a parent link and nothing else.
    pub(crate) fn clear_parent_link(&mut self, key: NodeKey)
        ensures
            final(self)@ == (Tree { parents: old(self)@.parents.remove(key), ..old(self)@ }),
            final(self)@.windows() == old(self)@.windows(),
    {
        self.parents.remove(key);
        proof {
            crate::windows::lemma_same_windows(old(self)@, self@);
        }
    }

    /// Points the parent links of `keys` at `parent` and changes nothing else.
    pub(crate) fn relink_all(&mut self, keys: &Vec<NodeKey>, parent: NodeKey)
        ensures
            final(self)@ == (Tree {
                parents: crate::tree::relinked(old(self)@.parents, keys@, parent),
                ..old(self)@
            }),
            final(self)@.windows() == old(self)@.windows(),
    {
        let mut i: usize = 0;
        assert(keys@.take(0) =~= Seq::empty());
        while i < keys.len()
            invariant
                i <= keys@.len(),
                self@ == (Tree {
                    parents: crate::tree::relinked(
                        old(self)@.parents,
                        keys@.take(i as int),
                        parent,
                    ),
                    ..old(self)@
                }),
            decreases keys@.len() - i,
        {
            assert(keys@.take(i as int + 1).drop_last() =~= keys@.take(i as int));
            self.set_parent_link(keys[i], parent);
            i = i + 1;
        }
        assert(keys@.take(keys@.len() as int) =~= keys@);
        proof {
            crate::windows::lemma_same_windows(old(self)@, self@);
        }
    }

    /// Puts a loose container on the floating stack, at the bottom when `idx` is past it.
    pub(crate) fn push_floating(&mut self, entry: FloatingRoot, idx: usize)
        requires
            old(self).wf(),
            old(self)@.has(entry.key),
            entry.key != old(self)@.root,
            !old(self)@.parents.contains_key(entry.key),
        ensures
            final(self)@ == old(self)@.floated(
                entry,
                if idx <= old(self)@.floating.len() {
                    idx as int
                } else {
                    old(self)@.floating.len() as int
                },
            ),
            final(self).wf(),
            final(self)@.is_floating(entry.key),
            final(self)@.windows() == old(self)@.windows(),
            forall|k: NodeKey| #[trigger]
                final(self)@.loose(k) ==> old(self)@.loose(k) && k != entry.key,
            old(self)@.mentions_live() ==> final(self)@.mentions_live(),
    {
        reveal(Tree::mentions_live);
        let at: usize = if idx <= self.floating.len() {
            idx
        } else {
            self.floating.len()
        };
        proof {
            lemma_floated(old(self)@, entry, at as int);
        }
        self.floating.insert(at, entry);
        self.parents.insert(entry.key, self.root);
        proof {
            crate::windows::lemma_same_windows(old(self)@, self@);
        }
    }

    /// Takes a group off the floating stack, leaving it loose.
    pub(crate) fn pop_floating(&mut self, idx: usize) -> (r: FloatingRoot)
        requires
            old(self).wf(),
            idx < old(self)@.floating.len(),
        ensures
            r == old(self)@.floating[idx as int],
            final(self)@ == old(self)@.unfloated(idx as int),
            final(self).wf(),
            !final(self)@.parents.contains_key(r.key),
            old(self)@.has(r.key),
            r.key != old(self)@.root,
            final(self)@.windows() == old(self)@.windows(),
            forall|k: NodeKey| #[trigger]
                final(self)@.loose(k) ==> old(self)@.loose(k) || k == r.key,
            old(self)@.mentions_live() ==> final(self)@.mentions_live(),
    {
        reveal(Tree::mentions_live);
        proof {
            lemma_unfloated(old(self)@, idx as int);
        }
        let entry = self.floating.remove(idx);
        self.parents.remove(entry.key);
        proof {
            crate::windows::lemma_same_windows(old(self)@, self@);
        }
        entry
    }
}

} // verus!
