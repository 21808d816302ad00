//! The nodes of the tree and the detached form they travel in.
//!
//! Below the workspace every node is one kind of thing: it is a window when it holds a tile
//! and a split when it holds children, and it carries the same state either way.

use crate::axis::{Layout, NodeKey};
use crate::measure::{ChildFractions, NodeSizing, Rect};
use crate::tile::{marks_state, Tile, TileState, WindowId};
use vstd::prelude::*;

verus! {

/// What the workspace and the containers share because both lay out children.
#[derive(Debug)]
pub struct LayoutParentData {
    pub layout: Layout,
    pub children: Vec<NodeKey>,
    pub prev_split_layout: Option<Layout>,
    pub geometry: Rect,
}

/// The workspace node: it owns the tiled child list but is not a container.
#[derive(Debug)]
pub struct WorkspaceData {
    pub common: LayoutParentData,
}

/// A container: a view when it holds a tile, a split when it holds children.
#[derive(Debug)]
pub struct ContainerData {
    pub common: LayoutParentData,
    pub tile: Option<Tile>,
    /// Whether the user asked for this container, rather than it being scaffolding.
    pub user_created: bool,
    pub sizing: NodeSizing,
    /// The marks of a split; a view keeps its own on its tile.
    pub marks: Vec<String>,
}

#[derive(Debug)]
pub enum NodeData {
    Workspace(WorkspaceData),
    Container(ContainerData),
}

/// [`LayoutParentData`] as a value.
pub struct Frame {
    pub layout: Layout,
    pub children: Seq<NodeKey>,
    pub prev_split_layout: Option<Layout>,
    pub geometry: Rect,
}

/// A node as a value.
pub struct Node {
    pub workspace: bool,
    pub layout: Layout,
    pub children: Seq<NodeKey>,
    pub prev_split_layout: Option<Layout>,
    pub geometry: Rect,
    pub tile: Option<TileState>,
    pub user_created: bool,
    pub sizing: NodeSizing,
    pub marks: Seq<Seq<char>>,
}

impl View for LayoutParentData {
    type V = Frame;

    open spec fn view(&self) -> Frame {
        Frame {
            layout: self.layout,
            children: self.children@,
            prev_split_layout: self.prev_split_layout,
            geometry: self.geometry,
        }
    }
}

pub open spec fn tile_state(tile: Option<Tile>) -> Option<TileState> {
    match tile {
        Some(tile) => Some(tile@),
        None => None,
    }
}

impl View for ContainerData {
    type V = Node;

    open spec fn view(&self) -> Node {
        Node {
            workspace: false,
            layout: self.common.layout,
            children: self.common.children@,
            prev_split_layout: self.common.prev_split_layout,
            geometry: self.common.geometry,
            tile: tile_state(self.tile),
            user_created: self.user_created,
            sizing: self.sizing,
            marks: marks_state(self.marks@),
        }
    }
}

impl View for WorkspaceData {
    type V = Node;

    open spec fn view(&self) -> Node {
        Node {
            workspace: true,
            layout: self.common.layout,
            children: self.common.children@,
            prev_split_layout: self.common.prev_split_layout,
            geometry: self.common.geometry,
            tile: None,
            user_created: false,
            sizing: NodeSizing::spec_new(),
            marks: Seq::empty(),
        }
    }
}

impl View for NodeData {
    type V = Node;

    open spec fn view(&self) -> Node {
        match self {
            NodeData::Workspace(workspace) => workspace@,
            NodeData::Container(container) => container@,
        }
    }
}

impl Frame {
    pub open spec fn blank(layout: Layout) -> Frame {
        Frame {
            layout,
            children: Seq::empty(),
            prev_split_layout: None,
            geometry: Rect::spec_zero(),
        }
    }

    /// What a `layout` command leaves behind: the split it takes the place of is remembered.
    pub open spec fn commanded(self, layout: Layout) -> Frame {
        Frame {
            layout,
            prev_split_layout: if self.layout != layout && self.layout.is_split() {
                Some(self.layout)
            } else {
                self.prev_split_layout
            },
            ..self
        }
    }

    pub open spec fn with_children(self, children: Seq<NodeKey>) -> Frame {
        Frame { children, ..self }
    }
}

/// `children` with `key` inserted at `idx`, or at the end when `idx` is past it.
pub open spec fn inserted(children: Seq<NodeKey>, idx: int, key: NodeKey) -> Seq<NodeKey> {
    if idx <= children.len() {
        children.insert(idx, key)
    } else {
        children.push(key)
    }
}

impl Node {
    /// A split container as it is created.
    pub open spec fn split(layout: Layout) -> Node {
        Node {
            workspace: false,
            layout,
            children: Seq::empty(),
            prev_split_layout: None,
            geometry: Rect::spec_zero(),
            tile: None,
            user_created: false,
            sizing: NodeSizing::spec_new(),
            marks: Seq::empty(),
        }
    }

    /// The node a window is.
    pub open spec fn view_of(tile: TileState) -> Node {
        Node { tile: Some(tile), ..Node::split(Layout::SplitH) }
    }

    /// The workspace as it is created.
    pub open spec fn empty_workspace(layout: Layout) -> Node {
        Node { workspace: true, ..Node::split(layout) }
    }

    pub open spec fn is_view(self) -> bool {
        self.tile is Some
    }

    /// Whether this is a container that lays out children.
    pub open spec fn is_split(self) -> bool {
        !self.workspace && self.tile is None
    }

    /// Whether this node lays out children: the workspace or a split.
    pub open spec fn is_parent(self) -> bool {
        self.tile is None
    }

    pub open spec fn with_children(self, children: Seq<NodeKey>) -> Node {
        Node { children, ..self }
    }

    pub open spec fn with_layout(self, layout: Layout) -> Node {
        Node { layout, ..self }
    }

    /// What a `layout` command leaves behind: the split it takes the place of is remembered.
    pub open spec fn commanded(self, layout: Layout) -> Node {
        Node {
            layout,
            prev_split_layout: if self.layout != layout && self.layout.is_split() {
                Some(self.layout)
            } else {
                self.prev_split_layout
            },
            ..self
        }
    }

    /// The size state, which a view keeps on its tile.
    pub open spec fn own_sizing(self) -> NodeSizing {
        match self.tile {
            Some(tile) => tile.sizing,
            None => self.sizing,
        }
    }

    /// The marks of this node, which a view keeps on its tile.
    pub open spec fn own_marks(self) -> Seq<Seq<char>> {
        match self.tile {
            Some(tile) => tile.marks,
            None => self.marks,
        }
    }

    pub open spec fn with_marks(self, marks: Seq<Seq<char>>) -> Node {
        match self.tile {
            Some(tile) => Node { tile: Some(TileState { marks, ..tile }), ..self },
            None => Node { marks, ..self },
        }
    }

    pub open spec fn with_own_sizing(self, sizing: NodeSizing) -> Node {
        match self.tile {
            Some(tile) => Node { tile: Some(tile.with_sizing(sizing)), ..self },
            None => Node { sizing, ..self },
        }
    }

    pub open spec fn with_fractions(self, fractions: ChildFractions) -> Node {
        self.with_own_sizing(self.own_sizing().with_fractions(fractions))
    }
}

impl LayoutParentData {
    pub fn new(layout: Layout) -> (r: Self)
        ensures
            r@ == Frame::blank(layout),
    {
        LayoutParentData {
            layout,
            children: Vec::new(),
            prev_split_layout: None,
            geometry: Rect::zero(),
        }
    }

    pub fn layout(&self) -> (r: Layout)
        ensures
            r == self@.layout,
    {
        self.layout
    }

    pub fn set_layout(&mut self, layout: Layout)
        ensures
            final(self)@ == (Frame { layout, ..old(self)@ }),
    {
        self.layout = layout;
    }

    /// Changes the layout by command: leaving a split remembers it.
    pub fn set_layout_from_command(&mut self, layout: Layout)
        ensures
            final(self)@ == old(self)@.commanded(layout),
    {
        if self.layout != layout && self.layout.is_split_layout() {
            self.prev_split_layout = Some(self.layout);
        }
        self.layout = layout;
    }

    /// A split of an empty workspace remembers the former layout unconditionally.
    pub fn set_layout_from_empty_workspace_split(&mut self, layout: Layout)
        ensures
            final(self)@ == (Frame {
                layout,
                prev_split_layout: Some(old(self)@.layout),
                ..old(self)@
            }),
    {
        self.prev_split_layout = Some(self.layout);
        self.layout = layout;
    }

    pub fn prev_split_layout(&self) -> (r: Option<Layout>)
        ensures
            r == self@.prev_split_layout,
    {
        self.prev_split_layout
    }

    pub fn children(&self) -> (r: &Vec<NodeKey>)
        ensures
            r@ == self@.children,
    {
        &self.children
    }

    pub fn child_count(&self) -> (r: usize)
        ensures
            r == self@.children.len(),
    {
        self.children.len()
    }

    pub fn add_child(&mut self, node_key: NodeKey)
        ensures
            final(self)@ == old(self)@.with_children(old(self)@.children.push(node_key)),
    {
        let idx: usize = self.children.len();
        self.insert_child(idx, node_key);
        assert(old(self)@.children.insert(idx as int, node_key) =~= old(self)@.children.push(
            node_key,
        ));
    }

    /// Takes the child at `idx` out of the list, if there is one.
    pub fn remove_child(&mut self, idx: usize) -> (r: Option<NodeKey>)
        ensures
            idx >= old(self)@.children.len() ==> r is None && final(self)@ == old(self)@,
            idx < old(self)@.children.len() ==> r == Some(old(self)@.children[idx as int])
                && final(self)@ == old(self)@.with_children(
                old(self)@.children.remove(idx as int),
            ),
    {
        if idx >= self.children.len() {
            return None;
        }
        Some(self.children.remove(idx))
    }

    pub fn child_key(&self, idx: usize) -> (r: Option<NodeKey>)
        ensures
            r == if idx < self@.children.len() {
                Some(self@.children[idx as int])
            } else {
                None
            },
    {
        if idx < self.children.len() {
            Some(self.children[idx])
        } else {
            None
        }
    }

    /// Inserts a child, at the end when `idx` is past it.
    pub fn insert_child(&mut self, idx: usize, node_key: NodeKey)
        ensures
            final(self)@ == old(self)@.with_children(
                inserted(old(self)@.children, idx as int, node_key),
            ),
    {
        let at: usize = if idx <= self.children.len() {
            idx
        } else {
            self.children.len()
        };
        self.children.insert(at, node_key);
        assert(self.children@ =~= inserted(old(self)@.children, idx as int, node_key));
    }

    /// Exchanges two children; what the nodes carry moves with them.
    pub fn swap_child_slots(&mut self, a: usize, b: usize)
        requires
            a < old(self)@.children.len(),
            b < old(self)@.children.len(),
        ensures
            final(self)@ == old(self)@.with_children(
                old(self)@.children.update(a as int, old(self)@.children[b as int]).update(
                    b as int,
                    old(self)@.children[a as int],
                ),
            ),
    {
        let first = self.children[a];
        let second = self.children[b];
        self.children.set(a, second);
        self.children.set(b, first);
    }

    pub fn set_geometry(&mut self, geometry: Rect)
        ensures
            final(self)@ == (Frame { geometry, ..old(self)@ }),
    {
        self.geometry = geometry;
    }

    pub fn geometry(&self) -> (r: Rect)
        ensures
            r == self@.geometry,
    {
        self.geometry
    }
}

impl WorkspaceData {
    pub fn new(layout: Layout) -> (r: Self)
        ensures
            r@ == Node::empty_workspace(layout),
    {
        WorkspaceData { common: LayoutParentData::new(layout) }
    }
}

impl ContainerData {
    /// A split container with the given layout.
    pub fn new(layout: Layout) -> (r: Self)
        ensures
            r@ == Node::split(layout),
    {
        let r = ContainerData {
            common: LayoutParentData::new(layout),
            tile: None,
            user_created: false,
            sizing: NodeSizing::new(),
            marks: Vec::new(),
        };
        assert(r@.marks =~= Seq::empty());
        r
    }

    /// The node a window is.
    pub fn new_view(tile: Tile) -> (r: Self)
        ensures
            r@ == Node::view_of(tile@),
    {
        let r = ContainerData {
            common: LayoutParentData::new(Layout::SplitH),
            tile: Some(tile),
            user_created: false,
            sizing: NodeSizing::new(),
            marks: Vec::new(),
        };
        assert(r@.marks =~= Seq::empty());
        r
    }

    pub fn tile(&self) -> (r: Option<&Tile>)
        ensures
            r is Some <==> self@.tile is Some,
            r matches Some(tile) ==> tile@ == self@.tile->0,
    {
        self.tile.as_ref()
    }

    pub fn is_view(&self) -> (r: bool)
        ensures
            r == self@.is_view(),
    {
        self.tile.is_some()
    }

    pub fn into_tile(self) -> (r: Option<Tile>)
        ensures
            tile_state(r) == self@.tile,
    {
        self.tile
    }

    /// The size state of this node, which a view keeps on its tile.
    pub fn sizing(&self) -> (r: NodeSizing)
        ensures
            r == self@.own_sizing(),
    {
        match &self.tile {
            Some(tile) => tile.sizing,
            None => self.sizing,
        }
    }

    pub fn set_sizing(&mut self, sizing: NodeSizing)
        ensures
            final(self)@ == old(self)@.with_own_sizing(sizing),
    {
        match self.tile.take() {
            Some(tile) => {
                let mut tile = tile;
                tile.sizing = sizing;
                self.tile = Some(tile);
            },
            None => {
                self.sizing = sizing;
            },
        }
    }

    /// Replaces the marks, wherever this node keeps them.
    pub fn set_marks(&mut self, marks: Vec<String>)
        ensures
            final(self)@ == old(self)@.with_marks(marks_state(marks@)),
    {
        match self.tile.take() {
            Some(tile) => {
                let mut tile = tile;
                tile.marks = marks;
                self.tile = Some(tile);
            },
            None => {
                self.marks = marks;
            },
        }
    }

    /// Sets the layout as an explicit choice of the user.
    pub fn set_layout_explicit(&mut self, layout: Layout)
        ensures
            final(self)@ == (Node { layout, user_created: true, ..old(self)@ }),
    {
        self.common.set_layout(layout);
        self.user_created = true;
    }

    pub fn set_layout_explicit_from_command(&mut self, layout: Layout)
        ensures
            final(self)@ == (Node { user_created: true, ..old(self)@.commanded(layout) }),
    {
        self.common.set_layout_from_command(layout);
        self.user_created = true;
    }

    pub fn is_user_container(&self) -> (r: bool)
        ensures
            r == self@.user_created,
    {
        self.user_created
    }

    pub fn mark_user_created(&mut self)
        ensures
            final(self)@ == (Node { user_created: true, ..old(self)@ }),
    {
        self.user_created = true;
    }

    pub fn clear_user_created(&mut self)
        ensures
            final(self)@ == (Node { user_created: false, ..old(self)@ }),
    {
        self.user_created = false;
    }
}

impl NodeData {
    pub fn common(&self) -> (r: &LayoutParentData)
        ensures
            r@ == (Frame {
                layout: self@.layout,
                children: self@.children,
                prev_split_layout: self@.prev_split_layout,
                geometry: self@.geometry,
            }),
    {
        match self {
            NodeData::Workspace(workspace) => &workspace.common,
            NodeData::Container(container) => &container.common,
        }
    }

    pub fn as_tile(&self) -> (r: Option<&Tile>)
        ensures
            r is Some <==> self@.tile is Some,
            r matches Some(tile) ==> tile@ == self@.tile->0,
    {
        match self {
            NodeData::Container(container) => container.tile(),
            NodeData::Workspace(_) => None,
        }
    }

    /// Whether this node is a window.
    pub fn is_view(&self) -> (r: bool)
        ensures
            r == self@.is_view(),
    {
        self.as_tile().is_some()
    }

    /// Whether this node is a container that lays out children.
    pub fn is_split(&self) -> (r: bool)
        ensures
            r == self@.is_split(),
    {
        match self {
            NodeData::Container(container) => !container.is_view(),
            NodeData::Workspace(_) => false,
        }
    }

    pub fn is_workspace(&self) -> (r: bool)
        ensures
            r == self@.workspace,
    {
        matches!(self, NodeData::Workspace(_))
    }

    pub fn into_tile(self) -> (r: Option<Tile>)
        ensures
            tile_state(r) == self@.tile,
    {
        match self {
            NodeData::Container(container) => container.into_tile(),
            NodeData::Workspace(_) => None,
        }
    }
}

/// A subtree taken out of a tree, with the identities and the inner focus order it had there.
#[derive(Debug)]
pub struct DetachedNode {
    pub key: NodeKey,
    pub sizing: NodeSizing,
    pub layout: Layout,
    pub tile: Option<Tile>,
    pub children: Vec<DetachedNode>,
    pub focus_stack: Vec<NodeKey>,
    pub user_created: bool,
    pub prev_split_layout: Option<Layout>,
    /// The marks of a split; those of a window are on its tile.
    pub marks: Vec<String>,
}

impl DetachedNode {
    /// The tiles of the subtree, depth first. A node holding a tile is a window and is not
    /// looked into.
    pub open spec fn tile_states(self) -> Seq<TileState>
        decreases self, self.children.len() + 2,
    {
        match self.tile {
            Some(tile) => seq![tile@],
            None => self.tile_states_from(0),
        }
    }

    /// The tiles of the children from index `i` on.
    pub open spec fn tile_states_from(self, i: int) -> Seq<TileState>
        decreases self, self.children.len() - i + 1,
    {
        if 0 <= i < self.children.len() {
            self.children@[i].tile_states() + self.tile_states_from(i + 1)
        } else {
            Seq::empty()
        }
    }

    /// The node a window is, under the identity its tile has.
    pub fn new_view(tile: Tile) -> (r: Self)
        ensures
            r.key == tile@.key,
            tile_state(r.tile) == Some(tile@),
            r.children@.len() == 0,
            r.focus_stack@.len() == 0,
            r.layout == Layout::SplitH,
            r.sizing == NodeSizing::spec_new(),
            !r.user_created,
            r.prev_split_layout is None,
            r.marks@.len() == 0,
            r.tile_states() == seq![tile@],
    {
        DetachedNode {
            key: tile.key,
            sizing: NodeSizing::new(),
            layout: Layout::SplitH,
            tile: Some(tile),
            children: Vec::new(),
            focus_stack: Vec::new(),
            user_created: false,
            prev_split_layout: None,
            marks: Vec::new(),
        }
    }

    /// A container around `children` under the fresh identity `key`; inside it the children
    /// are ordered as they are listed.
    pub fn new_container(key: NodeKey, layout: Layout, children: Vec<DetachedNode>) -> (r: Self)
        ensures
            r.key == key,
            r.tile is None,
            r.children == children,
            r.focus_stack@.len() == children@.len(),
            forall|i: int|
                0 <= i < children@.len() ==> #[trigger] r.focus_stack@[i] == children@[i].key,
            r.layout == layout,
            r.sizing == NodeSizing::spec_new(),
            !r.user_created,
            r.prev_split_layout is None,
            r.marks@.len() == 0,
    {
        let mut focus_stack: Vec<NodeKey> = Vec::new();
        let mut i: usize = 0;
        while i < children.len()
            invariant
                i <= children.len(),
                focus_stack@.len() == i,
                forall|j: int|
                    0 <= j < i ==> #[trigger] focus_stack@[j] == children@[j].key,
            decreases children.len() - i,
        {
            focus_stack.push(children[i].key);
            i = i + 1;
        }
        DetachedNode {
            key,
            sizing: NodeSizing::new(),
            layout,
            tile: None,
            children,
            focus_stack,
            user_created: false,
            prev_split_layout: None,
            marks: Vec::new(),
        }
    }

    /// Clears the shares of the subtree's root, wherever it keeps them.
    pub fn unset_root_fractions(&mut self)
        ensures
            final(self).key == old(self).key,
            final(self).layout == old(self).layout,
            final(self).children == old(self).children,
            final(self).focus_stack == old(self).focus_stack,
            final(self).user_created == old(self).user_created,
            final(self).prev_split_layout == old(self).prev_split_layout,
            final(self).marks == old(self).marks,
            tile_state(final(self).tile) == match old(self).tile {
                Some(tile) => Some(
                    tile@.with_sizing(
                        tile@.sizing.with_fractions(ChildFractions::spec_unset()),
                    ),
                ),
                None => None,
            },
            final(self).sizing == if old(self).tile is Some {
                old(self).sizing
            } else {
                old(self).sizing.with_fractions(ChildFractions::spec_unset())
            },
    {
        match self.tile.take() {
            Some(tile) => {
                let mut tile = tile;
                tile.sizing.unset_fractions();
                self.tile = Some(tile);
            },
            None => {
                self.sizing.unset_fractions();
            },
        }
    }

    /// The tiles of the subtree, depth first.
    pub fn tiles(&self) -> (r: Vec<&Tile>)
        ensures
            r@.len() == self.tile_states().len(),
            forall|i: int| 0 <= i < r@.len() ==> #[trigger] r@[i]@ == self.tile_states()[i],
    {
        let mut tiles: Vec<&Tile> = Vec::new();
        self.collect_tiles(&mut tiles);
        proof {
            let states = self.tile_states();
            assert forall|i: int| 0 <= i < tiles@.len() implies #[trigger] tiles@[i]@
                == states[i] by {
                assert(tiles@[0 + i]@ == states[i]);
            }
        }
        tiles
    }

    fn collect_tiles<'a>(&'a self, tiles: &mut Vec<&'a Tile>)
        ensures
            final(tiles)@.len() == old(tiles)@.len() + self.tile_states().len(),
            forall|i: int|
                0 <= i < old(tiles)@.len() ==> #[trigger] final(tiles)@[i] == old(tiles)@[i],
            forall|i: int|
                0 <= i < self.tile_states().len() ==> #[trigger] final(tiles)@[old(
                    tiles,
                )@.len() + i]@ == self.tile_states()[i],
        decreases self,
    {
        match &self.tile {
            Some(tile) => tiles.push(tile),
            None => {
                let mut i: usize = 0;
                let ghost before = tiles@.len();
                while i < self.children.len()
                    invariant
                        i <= self.children.len(),
                        before == old(tiles)@.len(),
                        tiles@.len() >= before,
                        tiles@.len() - before + self.tile_states_from(i as int).len()
                            == self.tile_states_from(0).len(),
                        forall|j: int|
                            0 <= j < before ==> #[trigger] tiles@[j] == old(tiles)@[j],
                        forall|j: int|
                            0 <= j < tiles@.len() - before ==> #[trigger] tiles@[before + j]@
                                == self.tile_states_from(0)[j],
                        self.tile_states_from(0).skip(tiles@.len() - before)
                            == self.tile_states_from(i as int),
                    decreases self.children.len() - i,
                {
                    let ghost prev = tiles@;
                    let ghost rest = self.tile_states_from(i as int);
                    let ghost all = self.tile_states_from(0);
                    self.children[i].collect_tiles(tiles);
                    proof {
                        let sub = self.children@[i as int].tile_states();
                        assert(rest == sub + self.tile_states_from(i + 1));
                        assert forall|j: int| 0 <= j < tiles@.len() - before implies
                            #[trigger] tiles@[before + j]@ == all[j] by {
                            if j >= prev.len() - before {
                                let k = j - (prev.len() - before);
                                assert(tiles@[prev.len() + k]@ == sub[k]);
                                assert(all.skip(prev.len() - before)[k] == all[j]);
                            } else {
                                assert(tiles@[before + j] == prev[before + j]);
                            }
                        }
                        assert(all.skip(tiles@.len() - before) =~= rest.skip(sub.len() as int));
                        assert(rest.skip(sub.len() as int) =~= self.tile_states_from(i + 1));
                    }
                    i = i + 1;
                }
            },
        }
    }

    /// Whether a window is somewhere in the subtree.
    pub fn contains_window(&self, window_id: WindowId) -> (r: bool)
        ensures
            r == exists|i: int|
                0 <= i < self.tile_states().len() && #[trigger] self.tile_states()[i].window.id
                    == window_id,
    {
        let tiles = self.tiles();
        let mut i: usize = 0;
        while i < tiles.len()
            invariant
                i <= tiles.len(),
                tiles@.len() == self.tile_states().len(),
                forall|j: int|
                    0 <= j < tiles@.len() ==> #[trigger] tiles@[j]@ == self.tile_states()[j],
                forall|j: int|
                    0 <= j < i ==> #[trigger] self.tile_states()[j].window.id != window_id,
            decreases tiles.len() - i,
        {
            assert(tiles@[i as int]@ == self.tile_states()[i as int]);
            if tiles[i].window.id == window_id {
                assert(self.tile_states()[i as int].window.id == window_id);
                return true;
            }
            i = i + 1;
        }
        false
    }

    /// Takes the subtree apart into its tiles, depth first.
    pub fn into_tiles(self) -> (r: Vec<Tile>)
        ensures
            r@.len() == self.tile_states().len(),
            forall|i: int| 0 <= i < r@.len() ==> #[trigger] r@[i]@ == self.tile_states()[i],
        decreases self,
    {
        match self.tile {
            Some(tile) => {
                let mut tiles: Vec<Tile> = Vec::new();
                tiles.push(tile);
                tiles
            },
            None => {
                let ghost whole = self;
                let ghost all = self.tile_states_from(0);
                let mut rest = self.children;
                let mut tail: Vec<Tile> = Vec::new();
                assert(rest@ =~= whole.children@.take(rest@.len() as int));
                while rest.len() > 0
                    invariant
                        whole == self,
                        rest@ == whole.children@.take(rest@.len() as int),
                        rest@.len() <= whole.children@.len(),
                        all == whole.tile_states_from(0),
                        tail@.len() == whole.tile_states_from(rest@.len() as int).len(),
                        forall|j: int|
                            0 <= j < tail@.len() ==> #[trigger] tail@[j]@
                                == whole.tile_states_from(rest@.len() as int)[j],
                    decreases rest@.len(),
                {
                    let last = rest.pop().unwrap();
                    let ghost i = rest@.len() as int;
                    assert(last == whole.children@[i]);
                    assert(decreases_to!(self => self.children@[i]));
                    let mut sub = last.into_tiles();
                    let ghost sub_len = sub@.len();
                    let ghost sub_before = sub@;
                    let ghost tail_before = tail@;
                    sub.append(&mut tail);
                    proof {
                        assert(whole.tile_states_from(i) == whole.children@[i].tile_states()
                            + whole.tile_states_from(i + 1));
                        assert forall|j: int| 0 <= j < sub@.len() implies #[trigger] sub@[j]@
                            == whole.tile_states_from(i)[j] by {
                            if j < sub_len {
                                assert(sub@[j] == sub_before[j]);
                            } else {
                                assert(sub@[j] == tail_before[j - sub_len]);
                            }
                        }
                    }
                    tail = sub;
                }
                tail
            },
        }
    }
}

} // verus!
