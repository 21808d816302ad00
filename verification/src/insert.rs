//! Windows and subtrees put into the tree: beside the focus, at a remembered slot, or on one
//! side of an existing node. Also the autotiling mode, which splits the node a new window lands
//! beside.

use crate::arena::ContainerArena;
use crate::axis::{Direction, Layout, NodeKey};
use crate::links::{lemma_fullscreen_moved_keeps, lemma_interposed};
use crate::measure::{Point, Real, Rect, Size};
use crate::node::{ContainerData, DetachedNode, Node};
use crate::subtree::{lemma_keys, lemma_planted};
use crate::tile::{InsertParentInfo, Slot, Tile, TileState, WindowId};
use crate::tree::{
    depth, lemma_active, lemma_added, lemma_childless, lemma_depth, lemma_first_of,
    lemma_under_chain, lemma_under_trans, lemma_unlinked, room, FloatingGeometry, Pick, Tree,
};
use crate::walk::lemma_slot;
use vstd::prelude::*;

verus! {

impl FloatingGeometry {
    pub open spec fn spec_zero() -> FloatingGeometry {
        FloatingGeometry {
            pos: Point { x: Real::spec_zero(), y: Real::spec_zero() },
            working_area: Rect::spec_zero(),
            target: Rect::spec_zero(),
            resize_base_size: Size { w: Real::spec_zero(), h: Real::spec_zero() },
        }
    }

    /// A geometry at the origin with no extent.
    pub fn zero() -> (r: FloatingGeometry)
        ensures
            r == FloatingGeometry::spec_zero(),
    {
        FloatingGeometry {
            pos: Point { x: Real::zero(), y: Real::zero() },
            working_area: Rect::zero(),
            target: Rect::zero(),
            resize_base_size: Size { w: Real::zero(), h: Real::zero() },
        }
    }
}

impl Tree {
    /// Whether a new window can arrive: its identity was handed out and is not in use.
    pub open spec fn expects(self, k: NodeKey) -> bool {
        !self.has(k) && k.id < self.next_key
    }

    /// A loose node put into a child list, with the focus settled on it or where it was.
    pub open spec fn joined(self, k: NodeKey, p: NodeKey, idx: int, focus: bool) -> Tree {
        self.linked_at(k, p, idx).settled_on(k, focus)
    }

    /// The slot for a new node of a branch: right after the node new windows map beside, or at
    /// the end of a branch that has none.
    pub open spec fn focus_slot(self, branch: NodeKey) -> Option<(NodeKey, int)> {
        let end = if self.is_parent(branch) {
            Some((branch, self.kids(branch).len() as int))
        } else {
            None
        };
        match self.map_target() {
            Some(k) if self.branch(k) == branch => match self.slot_of(k) {
                Some((p, i)) => Some((p, i + 1)),
                None => end,
            },
            _ => end,
        }
    }

    /// A loose node put beside the focus of a branch.
    #[verifier::opaque]
    pub open spec fn joined_at_focus(self, branch: NodeKey, k: NodeKey, focus: bool) -> Tree {
        match self.focus_slot(branch) {
            Some((p, i)) => self.joined(k, p, i, focus),
            None => self,
        }
    }

    /// A loose node put among the children of the root of a branch.
    pub open spec fn joined_to(self, branch: NodeKey, idx: int, k: NodeKey, focus: bool) -> Tree {
        self.joined(
            k,
            branch,
            if idx <= self.kids(branch).len() {
                idx
            } else {
                self.kids(branch).len() as int
            },
            focus,
        )
    }

    // -----------------------------------------------------------------------------------------
    // Autotiling
    // -----------------------------------------------------------------------------------------

    /// Whether the parent of a node shows one child at a time.
    pub open spec fn in_switcher(self, k: NodeKey) -> bool {
        self.parent(k) matches Some(p) && self.is_parent(p) && !self.nodes[p].layout.is_split()
    }

    /// The layout autotiling gives a node: along its box, `wide` being whether that is wide.
    /// Nothing when the mode is off, the node is not tiled, its parent is a switcher, or its
    /// box has no extent.
    pub open spec fn autotile(self, k: NodeKey, wide: bool) -> Option<Layout> {
        if !self.options.autotile || self.branch(k) != self.root || self.in_switcher(k) {
            None
        } else {
            match self.box_of(k) {
                Some(rect) => if rect.size.w.at_most_zero() || rect.size.h.at_most_zero() {
                    None
                } else if wide {
                    Some(Layout::SplitH)
                } else {
                    Some(Layout::SplitV)
                },
                None => None,
            }
        }
    }

    /// The node autotiling looks at before a window maps: the tiled window it maps beside.
    pub open spec fn autotile_target(self, branch: NodeKey) -> Option<NodeKey> {
        if branch != self.root {
            None
        } else {
            match self.map_target() {
                Some(k) if self.branch(k) == branch && self.is_view(k) => Some(k),
                _ => None,
            }
        }
    }

    /// The split autotiling makes before a window maps into a branch.
    #[verifier::opaque]
    pub open spec fn presplit(self, branch: NodeKey, wide: bool) -> Tree {
        match self.autotile_target(branch) {
            Some(k) => match self.autotile(k, wide) {
                Some(layout) => self.split_commanded(layout, k).0,
                None => self,
            },
            None => self,
        }
    }

    /// A new window mapped into a branch.
    pub open spec fn window_mapped(
        self,
        branch: NodeKey,
        tile: TileState,
        focus: bool,
        wide: bool,
    ) -> Tree {
        self.presplit(branch, wide).added(tile.key, Node::view_of(tile)).joined_at_focus(
            branch,
            tile.key,
            focus,
        )
    }

    /// Where autotiling lets an arrival beside `neighbour` go: into a container the split of
    /// the neighbour builds. Nothing when the list is short or no container comes of it.
    pub open spec fn pair_slot(self, neighbour: NodeKey, after: bool, wide: bool) -> (
        Tree,
        Option<(NodeKey, int)>,
    ) {
        match self.parent(neighbour) {
            Some(p) if self.is_parent(p) && self.kids(p).len() >= 2 => match self.autotile(
                neighbour,
                wide,
            ) {
                Some(layout) => {
                    let (t, done) = self.split_commanded(layout, neighbour);
                    let u = t.with_seat(t.seat.with_selected(self.seat.selected));
                    if !done {
                        (t, None)
                    } else if u.parent(neighbour) is None || u.parents[neighbour] == p {
                        (u, None)
                    } else {
                        (
                            u,
                            Some(
                                (
                                    u.parents[neighbour],
                                    if after {
                                        1
                                    } else {
                                        0
                                    },
                                ),
                            ),
                        )
                    }
                },
                None => (self, None),
            },
            _ => (self, None),
        }
    }

    /// The child of the first split below `k` that holds it alone, depth first.
    pub open spec fn lone_child(self, k: NodeKey) -> Option<NodeKey>
        decreases room(self.parents, k), self.kids(k).len() + 2,
        when self.wf()
    {
        if k != self.root && self.is_split(k) && self.kids(k).len() == 1
            && self.nodes[k].layout.is_split() {
            Some(self.kids(k)[0])
        } else {
            self.lone_child_from(k, 0)
        }
    }

    pub open spec fn lone_child_from(self, k: NodeKey, i: int) -> Option<NodeKey>
        decreases room(self.parents, k), self.kids(k).len() - i + 1,
        when self.wf()
    {
        proof {
            if 0 <= i < self.kids(k).len() {
                assert(self.parents.contains_key(self.nodes[k].children[i]));
                lemma_depth(self.parents, self.kids(k)[i]);
            }
        }
        if 0 <= i < self.kids(k).len() {
            match self.lone_child(self.kids(k)[i]) {
                Some(c) => Some(c),
                None => self.lone_child_from(k, i + 1),
            }
        } else {
            None
        }
    }

    /// The first tiled split holding a single child flattened, and whether one was.
    #[verifier::opaque]
    pub open spec fn lone_round(self) -> (Tree, bool) {
        match self.lone_child(self.root) {
            Some(c) => {
                let (t, branch) = self.unsplit(c, FloatingGeometry::spec_zero());
                (t, branch is Some)
            },
            None => (self, false),
        }
    }

    /// The tiled splits holding a single child flattened, in at most `n` rounds.
    pub open spec fn lone_flattened(self, n: nat) -> Tree
        decreases n,
    {
        if n == 0 {
            self
        } else {
            let (t, again) = self.lone_round();
            if again {
                t.lone_flattened((n - 1) as nat)
            } else {
                t
            }
        }
    }

    // -----------------------------------------------------------------------------------------
    // Other places
    // -----------------------------------------------------------------------------------------

    /// A new window put right after a tiled one, or at the end of the workspace.
    pub open spec fn joined_after(self, id: WindowId, tile: TileState, focus: bool) -> Tree {
        let slot = match self.recent(Pick::Window(id)) {
            Some(k) if self.branch(k) == self.root => self.slot_of(k),
            _ => None,
        };
        let t = self.added(tile.key, Node::view_of(tile));
        match slot {
            Some((p, i)) => t.joined(tile.key, p, i + 1, focus),
            None => t.joined_to(
                self.root,
                self.kids(self.root).len() as int,
                tile.key,
                focus,
            ),
        }
    }

    /// A new window at the end of the workspace.
    pub open spec fn appended(self, tile: TileState, focus: bool) -> Tree {
        let t = self.added(tile.key, Node::view_of(tile));
        t.joined_to(self.root, self.kids(self.root).len() as int, tile.key, focus)
    }

    /// A new window inside the child of the workspace at `column`, which is wrapped first when
    /// it is a window.
    pub open spec fn joined_column(
        self,
        column: int,
        at: Option<usize>,
        tile: TileState,
        focus: bool,
    ) -> (Tree, bool) {
        if !(0 <= column < self.kids(self.root).len()) {
            (self, false)
        } else {
            let c = self.kids(self.root)[column];
            let t = if self.is_view(c) {
                self.wrapped(
                    self.root,
                    c,
                    NodeKey { id: self.next_key },
                    Node::split(Layout::SplitV),
                )
            } else {
                self
            };
            let p = t.kids(t.root)[column];
            let idx = match at {
                Some(i) if i <= t.kids(p).len() => i as int,
                _ => t.kids(p).len() as int,
            };
            (
                t.added(tile.key, Node::view_of(tile)).settled_on(tile.key, focus).linked_at(
                    tile.key,
                    p,
                    idx,
                ),
                true,
            )
        }
    }

    /// The container a remembered slot is in, when the path still leads to one.
    pub open spec fn slot_parent(self, branch: NodeKey, path: Seq<usize>) -> Option<NodeKey> {
        match self.at_path(branch, path) {
            Some(p) if self.is_parent(p) => Some(p),
            _ => None,
        }
    }

    /// A loose node put back into a remembered slot, or at the end of the branch.
    pub open spec fn joined_at_slot(
        self,
        branch: NodeKey,
        slot: Slot,
        k: NodeKey,
        focus: bool,
    ) -> Tree {
        match self.slot_parent(branch, slot.parent_path) {
            Some(p) => self.joined(k, p, slot.insert_idx as int, focus),
            None => self.joined_to(branch, self.kids(branch).len() as int, k, focus),
        }
    }

    /// `k` and the loose node `new` put together into the new split `w` in the slot of `k`,
    /// `new` on the side the direction points to.
    pub open spec fn paired(
        self,
        k: NodeKey,
        new: NodeKey,
        w: NodeKey,
        direction: Direction,
    ) -> Tree {
        let at = if direction.leading() {
            0int
        } else {
            1
        };
        self.added(w, Tree::asked_for(direction.along())).interposed(k, w).linked_at(
            new,
            w,
            at,
        ).with_fractions(w, self.fractions_of(k)->0.narrowed()).fullscreen_moved(k, w)
    }

    /// A new window on one side of an existing node.
    pub open spec fn joined_beside(
        self,
        target: NodeKey,
        direction: Direction,
        tile: TileState,
        focus: bool,
    ) -> Tree {
        if self.leaf_under(self.root) is None || self.slot_of(target) is None {
            self.appended(tile, focus)
        } else {
            let (p, i) = self.slot_of(target)->0;
            let t = self.added(tile.key, Node::view_of(tile));
            if self.nodes[p].layout == direction.along() {
                t.joined(
                    tile.key,
                    p,
                    if direction.leading() {
                        i
                    } else {
                        i + 1
                    },
                    focus,
                )
            } else {
                t.paired(target, tile.key, NodeKey { id: t.next_key }, direction).settled_on(
                    tile.key,
                    focus,
                )
            }
        }
    }

    /// A new window at one edge of the workspace, which turns to face it if it has to.
    pub open spec fn joined_edge(self, direction: Direction, tile: TileState, focus: bool) -> Tree {
        let own = self.nodes[self.root].layout;
        let t = if own != direction.along() && self.leaf_under(self.root) is Some && self.kids(
            self.root,
        ).len() > 0 {
            self.gathered(self.root, NodeKey { id: self.next_key }, own, direction.along())
        } else {
            self
        };
        t.added(tile.key, Node::view_of(tile)).joined(
            tile.key,
            t.root,
            if direction.leading() {
                0
            } else {
                t.kids(t.root).len() as int
            },
            focus,
        )
    }
}

/// A loose node other than the workspace is not above anything below the workspace.
pub proof fn lemma_loose_not_above(t: Tree, p: NodeKey, k: NodeKey)
    requires
        t.wf(),
        t.under(p, t.root),
        !t.parents.contains_key(k),
        k != t.root,
    ensures
        !t.under(p, k),
{
    if t.under(p, k) {
        lemma_under_chain(t.parents, p, t.root, k);
    }
}

/// A loose childless node is above nothing but itself.
pub proof fn lemma_childless_not_above(t: Tree, p: NodeKey, k: NodeKey)
    requires
        t.wf(),
        t.has(k),
        k != t.root,
        t.nodes[k].children.len() == 0,
        p != k,
    ensures
        !t.under(p, k),
{
    if t.under(p, k) {
        assert forall|c: NodeKey| #[trigger] t.parents.contains_key(c) implies t.parents[c]
            != k by {
            if t.parents[c] == k {
                assert(t.nodes[k].children.contains(c));
            }
        }
        lemma_childless(t.parents, p, k);
    }
}

/// A node of the tiled side is below the workspace.
pub proof fn lemma_tiled_below_root(t: Tree, k: NodeKey)
    requires
        t.wf(),
        t.branch(k) == t.root,
    ensures
        t.under(k, t.root),
    decreases depth(t.parents, k),
{
    assert(t.under(t.root, t.root));
    if t.parents.contains_key(k) {
        lemma_depth(t.parents, k);
        if t.parents[k] != t.root {
            lemma_tiled_below_root(t, t.parents[k]);
        }
    }
}

/// The window a node leads to is below it.
pub proof fn lemma_leaf_below(t: Tree, k: NodeKey)
    requires
        t.wf(),
    ensures
        t.leaf_under(k) matches Some(l) ==> t.under(l, k) && t.is_view(l),
    decreases room(t.parents, k),
{
    assert(t.under(k, k));
    lemma_active(t, k);
    if !t.is_view(k) && t.is_parent(k) && t.active(k) is Some {
        let c = t.active(k)->0;
        lemma_depth(t.parents, c);
        lemma_leaf_below(t, c);
        assert(t.under(c, k));
        if t.leaf_under(c) is Some {
            lemma_under_trans(t.parents, t.leaf_under(c)->0, c, k);
        }
    }
}

/// The node new windows map beside is below the workspace, and so is the parent it is listed in.
pub proof fn lemma_map_target(t: Tree)
    requires
        t.wf(),
    ensures
        t.map_target() matches Some(k) ==> t.under(k, t.root),
        t.map_target() matches Some(k) ==> (t.slot_of(k) matches Some((p, i)) ==> t.is_parent(p)
            && 0 <= i < t.kids(p).len() && t.kids(p)[i] == k && t.parents[k] == p && t.under(
            p,
            t.root,
        )),
{
    match t.map_target() {
        Some(k) => {
            lemma_first_of(t, t.seat.order, Pick::BelowWorkspace);
            lemma_first_of(t, t.seat.order, Pick::NodeInBranch(t.root));
            let first = t.recent(Pick::BelowWorkspace)->0;
            if t.is_floating(first) {
                let n = t.recent(Pick::NodeInBranch(t.root))->0;
                lemma_tiled_below_root(t, n);
                lemma_first_of(t, t.seat.order, Pick::ViewUnder(n));
                lemma_leaf_below(t, n);
                assert(t.under(n, n));
                assert(t.under(k, n));
                lemma_under_trans(t.parents, k, n, t.root);
            }
            match t.slot_of(k) {
                Some((p, i)) => {
                    let w = choose|w: int| 0 <= w < t.kids(p).len() && t.kids(p)[w] == k;
                    lemma_slot(t, p, k, w);
                    assert(k != t.root);
                    assert(t.under(p, t.root));
                },
                None => {},
            }
        },
        None => {},
    }
}

impl ContainerArena {
    /// Puts a loose node into a child list and settles the focus.
    fn join(&mut self, key: NodeKey, parent: NodeKey, idx: usize, focus: bool)
        requires
            old(self).wf(),
            old(self)@.has(key),
            key != old(self)@.root,
            !old(self)@.parents.contains_key(key),
            old(self)@.is_parent(parent),
            !old(self)@.under(parent, key),
        ensures
            final(self).wf(),
            final(self)@ == old(self)@.joined(key, parent, idx as int, focus),
            final(self)@.windows() == old(self)@.windows(),
            forall|k: NodeKey| #[trigger]
                final(self)@.loose(k) ==> old(self)@.loose(k) && k != key,
            old(self)@.mentions_live() ==> final(self)@.mentions_live(),
    {
        self.attach_child(key, parent, idx);
        self.settle_focus_after_insert(key, focus);
    }

    /// Puts a window's node into the tree, linked to nothing.
    fn insert_view(&mut self, tile: Tile) -> (r: NodeKey)
        requires
            old(self).wf(),
            !old(self)@.has(tile@.key),
            tile@.key.id < u64::MAX,
        ensures
            final(self).wf(),
            r == tile@.key,
            final(self)@ == old(self)@.added(r, Node::view_of(tile@)),
            final(self)@.has(r),
            r != final(self)@.root,
            !final(self)@.parents.contains_key(r),
            forall|p: NodeKey| p != r ==> !(#[trigger] final(self)@.under(p, r)),
            final(self)@.windows() == old(self)@.windows().insert(
                tile@.key,
                tile@.window.id,
            ),
            forall|k: NodeKey| #[trigger]
                final(self)@.loose(k) ==> old(self)@.loose(k) || k == r,
            old(self)@.mentions_live() ==> final(self)@.mentions_live(),
    {
        proof {
            lemma_added(self@, tile@.key, Node::view_of(tile@));
        }
        let key = self.insert_node(ContainerData::new_view(tile));
        proof {
            assert forall|p: NodeKey| p != key implies !(#[trigger] self@.under(p, key)) by {
                lemma_childless_not_above(self@, p, key);
            }
        }
        key
    }

    // -----------------------------------------------------------------------------------------
    // Beside the focus
    // -----------------------------------------------------------------------------------------

    fn focus_slot(&self, branch_root: NodeKey) -> (r: Option<(NodeKey, usize)>)
        requires
            self.wf(),
        ensures
            r is Some <==> self@.focus_slot(branch_root) is Some,
            r matches Some((p, i)) ==> self@.focus_slot(branch_root) == Some((p, i as int))
                && self@.is_parent(p) && (p == branch_root || self@.under(p, self@.root)),
    {
        proof {
            lemma_map_target(self@);
        }
        if let Some(key) = self.view_map_target() {
            if self.branch_root(key) == branch_root {
                if let Some(parent_key) = self.parent_of(key) {
                    if let Some(idx) = self.child_index(parent_key, key) {
                        proof {
                            lemma_slot(self@, parent_key, key, idx as int);
                        }
                        let count: usize = self.child_count_of(parent_key);
                        assert(idx < count);
                        return Some((parent_key, idx + 1));
                    }
                }
            }
        }
        match self.get_container(branch_root) {
            Some(container) => Some((branch_root, container.child_count())),
            None => None,
        }
    }

    /// Puts a loose node beside the focus of a branch.
    pub fn insert_key_as_focus_sibling(
        &mut self,
        branch_root: NodeKey,
        node_key: NodeKey,
        focus: bool,
    )
        requires
            old(self).wf(),
            old(self)@.has(node_key),
            node_key != old(self)@.root,
            !old(self)@.parents.contains_key(node_key),
            !old(self)@.under(branch_root, node_key),
        ensures
            final(self).wf(),
            final(self)@ == old(self)@.joined_at_focus(branch_root, node_key, focus),
            final(self)@.windows() == old(self)@.windows(),
            forall|k: NodeKey| #[trigger]
                final(self)@.loose(k) ==> old(self)@.loose(k) && (old(self)@.focus_slot(
                    branch_root,
                ) is Some ==> k != node_key),
            old(self)@.mentions_live() ==> final(self)@.mentions_live(),
    {
        reveal(Tree::joined_at_focus);
        if let Some((parent_key, idx)) = self.focus_slot(branch_root) {
            proof {
                if parent_key != branch_root {
                    lemma_loose_not_above(self@, parent_key, node_key);
                }
            }
            self.join(node_key, parent_key, idx, focus);
        }
    }

    /// Whether the parent of a node shows one child at a time.
    pub fn parent_is_switcher(&self, key: NodeKey) -> (r: bool)
        ensures
            r == self@.in_switcher(key),
    {
        match self.parent_of(key) {
            Some(parent_key) => match self.get_container(parent_key) {
                Some(parent) => !parent.layout().is_split_layout(),
                None => false,
            },
            None => false,
        }
    }

    /// The layout autotiling gives a node, `wide` being whether its box is.
    pub fn autotile_layout_for(&self, key: NodeKey, wide: bool) -> (r: Option<Layout>)
        requires
            self.wf(),
        ensures
            r == self@.autotile(key, wide),
    {
        if !self.options().autotile || self.branch_root(key) != self.workspace_root()
            || self.parent_is_switcher(key) {
            return None;
        }
        let rect = match self.node_geometry(key) {
            Some(rect) => rect,
            None => {
                return None;
            },
        };
        if rect.size.w.is_at_most_zero() || rect.size.h.is_at_most_zero() {
            return None;
        }
        if wide {
            Some(Layout::SplitH)
        } else {
            Some(Layout::SplitV)
        }
    }

    /// The node autotiling looks at before a window maps into a branch.
    pub fn autotile_target(&self, branch_root: NodeKey) -> (r: Option<NodeKey>)
        requires
            self.wf(),
        ensures
            r == self@.autotile_target(branch_root),
    {
        if branch_root != self.workspace_root() {
            return None;
        }
        match self.view_map_target() {
            Some(key) => if self.branch_root(key) == branch_root && self.is_leaf(key) {
                Some(key)
            } else {
                None
            },
            None => None,
        }
    }

    fn autotile_presplit(&mut self, branch_root: NodeKey, wide: bool)
        requires
            old(self).wf(),
            old(self)@.next_key < u64::MAX,
        ensures
            final(self).wf(),
            final(self)@ == old(self)@.presplit(branch_root, wide),
            final(self)@.windows() == old(self)@.windows(),
            forall|k: NodeKey| #[trigger] final(self)@.loose(k) ==> old(self)@.loose(k),
            old(self)@.mentions_live() ==> final(self)@.mentions_live(),
            final(self)@.root == old(self)@.root,
            old(self)@.is_parent(branch_root) ==> final(self)@.is_parent(branch_root),
    {
        reveal(Tree::presplit);
        if let Some(target) = self.autotile_target(branch_root) {
            if let Some(layout) = self.autotile_layout_for(target, wide) {
                proof {
                    crate::split::lemma_split_keeps(self@, layout, target, self@.root);
                    if self@.is_parent(branch_root) {
                        crate::split::lemma_split_keeps(self@, layout, target, branch_root);
                    }
                }
                self.split_target(layout, target);
            }
        }
    }

    /// Maps a new window into a branch: the tiled side, or one floating group. `wide` is
    /// whether the box of the node autotiling looks at is wide.
    #[verifier::spinoff_prover]
    pub fn insert_window_into_branch(
        &mut self,
        branch_root: NodeKey,
        tile: Tile,
        focus: bool,
        wide: bool,
    )
        requires
            old(self).wf(),
            old(self)@.next_key < u64::MAX,
            old(self)@.expects(tile@.key),
            branch_root != tile@.key,
        ensures
            final(self).wf(),
            final(self)@ == old(self)@.window_mapped(branch_root, tile@, focus, wide),
            final(self)@.windows() == old(self)@.windows().insert(
                tile@.key,
                tile@.window.id,
            ),
            old(self)@.is_parent(branch_root) ==> forall|k: NodeKey| #[trigger]
                final(self)@.loose(k) ==> old(self)@.loose(k),
            old(self)@.mentions_live() ==> final(self)@.mentions_live(),
    {
        self.autotile_presplit(branch_root, wide);
        proof {
            lemma_presplit_keys(old(self)@, branch_root, wide, tile@.key);
        }
        let key = self.insert_view(tile);
        self.insert_key_as_focus_sibling(branch_root, key, focus);
    }

    /// Maps a new window on the tiled side.
    pub fn insert_window_with_focus(&mut self, tile: Tile, focus: bool, wide: bool)
        requires
            old(self).wf(),
            old(self)@.next_key < u64::MAX,
            old(self)@.expects(tile@.key),
        ensures
            final(self).wf(),
            final(self)@ == old(self)@.window_mapped(old(self)@.root, tile@, focus, wide),
            final(self)@.windows() == old(self)@.windows().insert(
                tile@.key,
                tile@.window.id,
            ),
            forall|k: NodeKey| #[trigger] final(self)@.loose(k) ==> old(self)@.loose(k),
            old(self)@.mentions_live() ==> final(self)@.mentions_live(),
    {
        let root = self.workspace_root();
        self.insert_window_into_branch(root, tile, focus, wide);
    }

    /// Maps a new window on the tiled side and focuses it.
    pub fn insert_window(&mut self, tile: Tile, wide: bool)
        requires
            old(self).wf(),
            old(self)@.next_key < u64::MAX,
            old(self)@.expects(tile@.key),
        ensures
            final(self).wf(),
            final(self)@ == old(self)@.window_mapped(old(self)@.root, tile@, true, wide),
            final(self)@.windows() == old(self)@.windows().insert(
                tile@.key,
                tile@.window.id,
            ),
            forall|k: NodeKey| #[trigger] final(self)@.loose(k) ==> old(self)@.loose(k),
            old(self)@.mentions_live() ==> final(self)@.mentions_live(),
    {
        self.insert_window_with_focus(tile, true, wide);
    }

    /// Where autotiling lets a node arriving beside `neighbour` go.
    pub fn autotile_pair_slot(&mut self, neighbour: NodeKey, after: bool, wide: bool) -> (r: Option<
        (NodeKey, usize),
    >)
        requires
            old(self).wf(),
            old(self)@.next_key < u64::MAX,
        ensures
            final(self).wf(),
            final(self)@ == old(self)@.pair_slot(neighbour, after, wide).0,
            r is Some <==> old(self)@.pair_slot(neighbour, after, wide).1 is Some,
            r matches Some((p, i)) ==> old(self)@.pair_slot(neighbour, after, wide).1 == Some(
                (p, i as int),
            ),
            final(self)@.windows() == old(self)@.windows(),
            forall|k: NodeKey| #[trigger] final(self)@.loose(k) ==> old(self)@.loose(k),
            old(self)@.mentions_live() ==> final(self)@.mentions_live(),
    {
        let parent_key = match self.parent_of(neighbour) {
            Some(parent_key) => parent_key,
            None => {
                return None;
            },
        };
        if self.child_count_of(parent_key) < 2 {
            return None;
        }
        let layout = match self.autotile_layout_for(neighbour, wide) {
            Some(layout) => layout,
            None => {
                return None;
            },
        };
        let selected_before = self.selected_key();
        let ghost t = self@;
        if !self.split_target(layout, neighbour) {
            return None;
        }
        proof {
            reveal(Tree::mentions_live);
            if t.mentions_live() && selected_before is Some {
                crate::split::lemma_split_keeps(t, layout, neighbour, selected_before->0);
            }
        }
        self.redirect_selection(selected_before);
        match self.parent_of(neighbour) {
            Some(wrapper_key) => if wrapper_key == parent_key {
                None
            } else if after {
                Some((wrapper_key, 1))
            } else {
                Some((wrapper_key, 0))
            },
            None => None,
        }
    }

    fn lone_split_child(&self, key: NodeKey) -> (r: Option<NodeKey>)
        requires
            self.wf(),
        ensures
            r == self@.lone_child(key),
        decreases room(self@.parents, key),
    {
        let container = match self.get_container(key) {
            Some(container) => container,
            None => {
                assert(self@.lone_child_from(key, 0) is None);
                return None;
            },
        };
        let count: usize = container.child_count();
        if key != self.workspace_root() && self.get_real_container(key).is_some() && count == 1
            && container.layout().is_split_layout() {
            return container.child_key(0);
        }
        let mut i: usize = 0;
        while i < count
            invariant
                self.wf(),
                i <= count,
                container@.children == self@.kids(key),
                count == self@.kids(key).len(),
                self@.lone_child(key) == self@.lone_child_from(key, i as int),
            decreases count - i,
        {
            if let Some(child_key) = container.child_key(i) {
                proof {
                    assert(self@.parents.contains_key(self@.nodes[key].children[i as int]));
                    lemma_depth(self@.parents, child_key);
                }
                if let Some(found) = self.lone_split_child(child_key) {
                    return Some(found);
                }
            }
            i = i + 1;
        }
        None
    }

    fn flatten_lone_child(&mut self) -> (r: bool)
        requires
            old(self).wf(),
        ensures
            final(self).wf(),
            (final(self)@, r) == old(self)@.lone_round(),
            final(self)@.windows() == old(self)@.windows(),
            forall|k: NodeKey| #[trigger] final(self)@.loose(k) ==> old(self)@.loose(k),
            old(self)@.mentions_live() ==> final(self)@.mentions_live(),
    {
        proof {
            reveal(Tree::lone_round);
        }
        match self.lone_split_child(self.workspace_root()) {
            Some(child_key) => self.unsplit_target(child_key, FloatingGeometry::zero()).is_some(),
            None => false,
        }
    }

    /// Autotiling after a departure: flattens the tiled splits left holding a single child.
    pub fn autotile_squash_lone_children(&mut self)
        requires
            old(self).wf(),
        ensures
            final(self).wf(),
            final(self)@ == if old(self)@.options.autotile {
                old(self)@.lone_flattened(old(self)@.seat.order.len())
            } else {
                old(self)@
            },
            final(self)@.windows() == old(self)@.windows(),
            forall|k: NodeKey| #[trigger] final(self)@.loose(k) ==> old(self)@.loose(k),
            old(self)@.mentions_live() ==> final(self)@.mentions_live(),
    {
        if !self.options().autotile {
            return;
        }
        let rounds: usize = self.seat().order().len();
        let ghost t = self@;
        let mut i: usize = 0;
        while i < rounds
            invariant
                self.wf(),
                forall|k: NodeKey| #[trigger] self@.loose(k) ==> old(self)@.loose(k),
                old(self)@.mentions_live() ==> self@.mentions_live(),
                self@.windows() == old(self)@.windows(),
                i <= rounds,
                t == old(self)@,
                t.options.autotile,
                rounds == t.seat.order.len(),
                t.lone_flattened(rounds as nat) == self@.lone_flattened((rounds - i) as nat),
            decreases rounds - i,
        {
            if !self.flatten_lone_child() {
                return;
            }
            i = i + 1;
        }
    }

    /// Puts a detached subtree beside the focus of the tiled side.
    pub fn insert_subtree_with_focus(&mut self, subtree: DetachedNode, focus: bool)
        requires
            old(self).wf(),
            old(self)@.admits(subtree@),
        ensures
            final(self).wf(),
            final(self)@ == old(self)@.planted(subtree@).joined_at_focus(
                old(self)@.root,
                subtree@.key,
                focus,
            ),
            forall|k: NodeKey| #[trigger] final(self)@.loose(k) ==> old(self)@.loose(k),
            old(self)@.mentions_live() ==> final(self)@.mentions_live(),
    {
        proof {
            lemma_planted(self@, subtree@);
            lemma_keys(subtree@);
        }
        let root = self.workspace_root();
        let key = self.insert_subtree(subtree);
        proof {
            assert(self@.has(key));
            assert(!old(self)@.has(key));
            assert(key != root);
            assert(!self@.under(root, key));
        }
        self.insert_key_as_focus_sibling(root, key, focus);
    }
}

/// A split hands out only fresh identities.
pub proof fn lemma_presplit_keys(t: Tree, branch: NodeKey, wide: bool, k: NodeKey)
    requires
        t.wf(),
        t.next_key < u64::MAX,
        t.expects(k),
    ensures
        !t.presplit(branch, wide).has(k),
{
    reveal(Tree::split_commanded);
    reveal(Tree::presplit);
    match t.autotile_target(branch) {
        Some(target) => match t.autotile(target, wide) {
            Some(layout) => {
                assert(t.is_view(target) && target != t.root) by {
                    assert(t.nodes.contains_key(target));
                }
                lemma_leaf_split_keys(t, target, layout, k);
            },
            None => {},
        },
        None => {},
    }
}

proof fn lemma_leaf_split_keys(t: Tree, target: NodeKey, layout: Layout, k: NodeKey)
    requires
        t.wf(),
        t.next_key < u64::MAX,
        t.expects(k),
    ensures
        !t.leaf_split(target, layout).0.has(k),
{
    reveal(Tree::leaf_split);
    match t.parent(target) {
        Some(p) => {
            if !(t.nodes[p].layout.is_split() && t.kids(p).len() == 1) && t.kids(p).contains(
                target,
            ) {
                let w = NodeKey { id: t.next_key };
                let named = t.added(
                    w,
                    Node { geometry: t.box_of(target)->0, ..Tree::asked_for(layout) },
                );
                assert(named.has(k) <==> t.has(k) || k == w);
                let placed = named.interposed(target, w).with_fractions(
                    w,
                    t.fractions_of(target)->0.narrowed(),
                );
                assert(!placed.has(k)) by {
                    let i = choose|i: int| 0 <= i < t.kids(p).len() && t.kids(p)[i] == target;
                    lemma_slot(t, p, target, i);
                }
                lemma_fullscreen_moved_keeps(placed, target, w);
                assert(placed.fullscreen_moved(target, w).has(k) == placed.has(k));
            }
        },
        None => {},
    }
}

impl ContainerArena {
    // -----------------------------------------------------------------------------------------
    // At a given place
    // -----------------------------------------------------------------------------------------

    /// Puts a loose node among the children of the root of a branch.
    pub fn insert_key_into_branch(
        &mut self,
        branch_root: NodeKey,
        index: usize,
        node_key: NodeKey,
        focus: bool,
    )
        requires
            old(self).wf(),
            old(self)@.is_parent(branch_root),
            old(self)@.has(node_key),
            node_key != old(self)@.root,
            !old(self)@.parents.contains_key(node_key),
            !old(self)@.under(branch_root, node_key),
        ensures
            final(self).wf(),
            final(self)@ == old(self)@.joined_to(branch_root, index as int, node_key, focus),
            final(self)@.windows() == old(self)@.windows(),
            forall|k: NodeKey| #[trigger]
                final(self)@.loose(k) ==> old(self)@.loose(k) && k != node_key,
            old(self)@.mentions_live() ==> final(self)@.mentions_live(),
    {
        let count: usize = self.child_count_of(branch_root);
        let idx: usize = if index <= count {
            index
        } else {
            count
        };
        self.join(node_key, branch_root, idx, focus);
    }

    /// Puts a loose node among the children of the workspace.
    pub fn insert_key_at_root(&mut self, index: usize, node_key: NodeKey, focus: bool)
        requires
            old(self).wf(),
            old(self)@.has(node_key),
            node_key != old(self)@.root,
            !old(self)@.parents.contains_key(node_key),
        ensures
            final(self).wf(),
            final(self)@ == old(self)@.joined_to(
                old(self)@.root,
                index as int,
                node_key,
                focus,
            ),
            final(self)@.windows() == old(self)@.windows(),
            forall|k: NodeKey| #[trigger]
                final(self)@.loose(k) ==> old(self)@.loose(k) && k != node_key,
            old(self)@.mentions_live() ==> final(self)@.mentions_live(),
    {
        let root = self.workspace_root();
        assert(!self@.under(root, node_key));
        self.insert_key_into_branch(root, index, node_key, focus);
    }

    /// Puts a new window among the children of the root of a branch.
    pub fn insert_leaf_into_branch(
        &mut self,
        branch_root: NodeKey,
        index: usize,
        tile: Tile,
        focus: bool,
    )
        requires
            old(self).wf(),
            old(self)@.expects(tile@.key),
            old(self)@.is_parent(branch_root),
        ensures
            final(self).wf(),
            final(self)@ == old(self)@.added(tile@.key, Node::view_of(tile@)).joined_to(
                branch_root,
                index as int,
                tile@.key,
                focus,
            ),
            final(self)@.windows() == old(self)@.windows().insert(
                tile@.key,
                tile@.window.id,
            ),
            forall|k: NodeKey| #[trigger] final(self)@.loose(k) ==> old(self)@.loose(k),
            old(self)@.mentions_live() ==> final(self)@.mentions_live(),
    {
        let key = self.insert_view(tile);
        self.insert_key_into_branch(branch_root, index, key, focus);
    }

    /// Puts a new window among the children of the workspace.
    pub fn insert_leaf_at(&mut self, index: usize, tile: Tile, focus: bool)
        requires
            old(self).wf(),
            old(self)@.expects(tile@.key),
        ensures
            final(self).wf(),
            final(self)@ == old(self)@.added(tile@.key, Node::view_of(tile@)).joined_to(
                old(self)@.root,
                index as int,
                tile@.key,
                focus,
            ),
            final(self)@.windows() == old(self)@.windows().insert(
                tile@.key,
                tile@.window.id,
            ),
            forall|k: NodeKey| #[trigger] final(self)@.loose(k) ==> old(self)@.loose(k),
            old(self)@.mentions_live() ==> final(self)@.mentions_live(),
    {
        let root = self.workspace_root();
        self.insert_leaf_into_branch(root, index, tile, focus);
    }

    /// Puts a new window at the end of the workspace.
    pub fn append_leaf(&mut self, tile: Tile, focus: bool)
        requires
            old(self).wf(),
            old(self)@.expects(tile@.key),
        ensures
            final(self).wf(),
            final(self)@ == old(self)@.appended(tile@, focus),
            final(self)@.windows() == old(self)@.windows().insert(
                tile@.key,
                tile@.window.id,
            ),
            forall|k: NodeKey| #[trigger] final(self)@.loose(k) ==> old(self)@.loose(k),
            old(self)@.mentions_live() ==> final(self)@.mentions_live(),
    {
        let count: usize = self.child_count_of(self.workspace_root());
        self.insert_leaf_at(count, tile, focus);
    }

    /// Puts a new window right after a tiled one, or at the end of the workspace when that one
    /// is not tiled here.
    pub fn insert_leaf_after(&mut self, window_id: WindowId, tile: Tile, focus: bool)
        requires
            old(self).wf(),
            old(self)@.expects(tile@.key),
        ensures
            final(self).wf(),
            final(self)@ == old(self)@.joined_after(window_id, tile@, focus),
            final(self)@.windows() == old(self)@.windows().insert(
                tile@.key,
                tile@.window.id,
            ),
            forall|k: NodeKey| #[trigger] final(self)@.loose(k) ==> old(self)@.loose(k),
            old(self)@.mentions_live() ==> final(self)@.mentions_live(),
    {
        if let Some(current_key) = self.window_key(window_id) {
            if self.branch_root(current_key) == self.workspace_root() {
                if let Some(parent_key) = self.parent_of(current_key) {
                    if let Some(idx) = self.child_index(parent_key, current_key) {
                        proof {
                            lemma_slot(self@, parent_key, current_key, idx as int);
                        }
                        let count: usize = self.child_count_of(parent_key);
                        assert(idx < count);
                        let key = self.insert_view(tile);
                        self.join(key, parent_key, idx + 1, focus);
                        return;
                    }
                }
            }
        }
        self.append_leaf(tile, focus);
    }

    /// Puts a new window inside the child of the workspace at `root_idx`. A window standing
    /// there is wrapped in a vertical split first. Answers whether there is such a child.
    pub fn insert_leaf_in_root_container(
        &mut self,
        root_idx: usize,
        tile_idx: Option<usize>,
        tile: Tile,
        focus: bool,
    ) -> (r: bool)
        requires
            old(self).wf(),
            old(self)@.next_key < u64::MAX,
            old(self)@.expects(tile@.key),
        ensures
            final(self).wf(),
            (final(self)@, r) == old(self)@.joined_column(
                root_idx as int,
                tile_idx,
                tile@,
                focus,
            ),
            final(self)@.windows() == if r {
                old(self)@.windows().insert(tile@.key, tile@.window.id)
            } else {
                old(self)@.windows()
            },
            forall|k: NodeKey| #[trigger] final(self)@.loose(k) ==> old(self)@.loose(k),
            old(self)@.mentions_live() ==> final(self)@.mentions_live(),
    {
        let ghost t = self@;
        let root = self.workspace_root();
        let child_key = match self.get_container(root) {
            Some(container) => match container.child_key(root_idx) {
                Some(child_key) => child_key,
                None => {
                    return false;
                },
            },
            None => {
                return false;
            },
        };
        proof {
            lemma_slot(t, root, child_key, root_idx as int);
        }
        let column = if self.is_leaf(child_key) {
            match self.wrap_child_in_new_container(
                root,
                child_key,
                ContainerData::new(Layout::SplitV),
            ) {
                Some(wrapper) => {
                    proof {
                        lemma_wrapped_slot(
                            t,
                            root,
                            child_key,
                            wrapper,
                            Node::split(Layout::SplitV),
                            root_idx as int,
                        );
                    }
                    wrapper
                },
                None => {
                    assert(t.kids(root).contains(child_key));
                    return false;
                },
            }
        } else {
            proof {
                assert(t.nodes.contains_key(child_key));
            }
            child_key
        };
        let ghost u = self@;
        assert(u.kids(root)[root_idx as int] == column);
        assert(u.is_parent(column));
        let count: usize = self.child_count_of(column);
        let idx: usize = match tile_idx {
            Some(idx) => if idx <= count {
                idx
            } else {
                count
            },
            None => count,
        };
        let key = self.insert_view(tile);
        let ghost v = self@;
        self.settle_focus_after_insert(key, focus);
        proof {
            crate::focus::lemma_settled_shape(v, key, focus);
            assert(!v.under(column, key));
        }
        self.attach_child(key, column, idx);
        true
    }

    /// The node a remembered path leads to: the root of the branch for the empty path.
    pub fn ensure_container_at_path(&self, branch_root: NodeKey, path: &Vec<usize>) -> (r: Option<
        NodeKey,
    >)
        requires
            self@.has(branch_root),
        ensures
            r == self@.at_path(branch_root, path@),
    {
        if path.len() == 0 {
            return Some(branch_root);
        }
        self.node_at_branch_path(branch_root, path)
    }

    /// Puts a loose node back into a remembered slot, or at the end of the branch when the
    /// slot is gone.
    pub fn insert_key_with_parent_info(
        &mut self,
        branch_root: NodeKey,
        info: &InsertParentInfo,
        node_key: NodeKey,
        focus: bool,
    ) -> (r: bool)
        requires
            old(self).wf(),
            old(self)@.is_parent(branch_root),
            old(self)@.has(node_key),
            node_key != old(self)@.root,
            !old(self)@.parents.contains_key(node_key),
            !old(self)@.under(branch_root, node_key),
        ensures
            final(self).wf(),
            r,
            final(self)@ == old(self)@.joined_at_slot(branch_root, info@, node_key, focus),
            final(self)@.windows() == old(self)@.windows(),
            forall|k: NodeKey| #[trigger]
                final(self)@.loose(k) ==> old(self)@.loose(k) && k != node_key,
            old(self)@.mentions_live() ==> final(self)@.mentions_live(),
    {
        let found = match self.ensure_container_at_path(branch_root, &info.parent_path) {
            Some(key) => if self.get_container(key).is_some() {
                Some(key)
            } else {
                None
            },
            None => None,
        };
        match found {
            Some(container_key) => {
                proof {
                    lemma_path_below(self@, branch_root, info.parent_path@);
                    if self@.under(container_key, node_key) {
                        lemma_under_chain(self@.parents, container_key, branch_root, node_key);
                    }
                }
                self.join(node_key, container_key, info.insert_idx, focus);
            },
            None => {
                let end: usize = self.child_count_of(branch_root);
                self.insert_key_into_branch(branch_root, end, node_key, focus);
            },
        }
        true
    }

    /// Puts a new window into a remembered slot.
    pub fn insert_leaf_with_parent_info(
        &mut self,
        branch_root: NodeKey,
        info: &InsertParentInfo,
        tile: Tile,
        focus: bool,
    ) -> (r: bool)
        requires
            old(self).wf(),
            old(self)@.expects(tile@.key),
            old(self)@.is_parent(branch_root),
        ensures
            final(self).wf(),
            r,
            final(self)@ == old(self)@.added(tile@.key, Node::view_of(tile@)).joined_at_slot(
                branch_root,
                info@,
                tile@.key,
                focus,
            ),
            final(self)@.windows() == old(self)@.windows().insert(
                tile@.key,
                tile@.window.id,
            ),
            forall|k: NodeKey| #[trigger] final(self)@.loose(k) ==> old(self)@.loose(k),
            old(self)@.mentions_live() ==> final(self)@.mentions_live(),
    {
        let key = self.insert_view(tile);
        self.insert_key_with_parent_info(branch_root, info, key, focus)
    }

    /// Puts a detached subtree into a remembered slot of the tiled side.
    pub fn insert_subtree_with_parent_info(
        &mut self,
        info: &InsertParentInfo,
        subtree: DetachedNode,
        focus: bool,
    ) -> (r: bool)
        requires
            old(self).wf(),
            old(self)@.admits(subtree@),
        ensures
            final(self).wf(),
            r,
            final(self)@ == old(self)@.planted(subtree@).joined_at_slot(
                old(self)@.root,
                info@,
                subtree@.key,
                focus,
            ),
            forall|k: NodeKey| #[trigger] final(self)@.loose(k) ==> old(self)@.loose(k),
            old(self)@.mentions_live() ==> final(self)@.mentions_live(),
    {
        proof {
            lemma_planted(self@, subtree@);
            lemma_keys(subtree@);
        }
        let root = self.workspace_root();
        let key = self.insert_subtree(subtree);
        proof {
            assert(self@.has(key));
            assert(!old(self)@.has(key));
            assert(!self@.under(root, key));
        }
        self.insert_key_with_parent_info(root, info, key, focus)
    }

    /// Exchanges the tile a window's node holds, handing the former one back. Answers with
    /// nothing when the node is not a window.
    pub fn replace_leaf(&mut self, key: NodeKey, tile: Tile) -> (r: Option<Tile>)
        requires
            old(self).wf(),
        ensures
            final(self).wf(),
            crate::node::tile_state(r) == if old(self)@.is_view(key) {
                old(self)@.nodes[key].tile
            } else {
                None
            },
            final(self)@ == if old(self)@.is_view(key) {
                old(self)@.with_node(key, (Node { tile: Some(tile@), ..old(self)@.nodes[key] }))
            } else {
                old(self)@
            },
            forall|k: NodeKey| #[trigger] final(self)@.loose(k) ==> old(self)@.loose(k),
            old(self)@.mentions_live() ==> final(self)@.mentions_live(),
    {
        if !self.is_leaf(key) {
            return None;
        }
        Some(self.swap_tile_of(key, tile))
    }

    // -----------------------------------------------------------------------------------------
    // On one side of a node
    // -----------------------------------------------------------------------------------------

    /// Puts a node and a loose one together into a new split in the slot of the first.
    fn new_split_pair_container(
        &mut self,
        existing: NodeKey,
        new_key: NodeKey,
        direction: Direction,
    ) -> (r: NodeKey)
        requires
            old(self).wf(),
            old(self)@.next_key < u64::MAX,
            old(self)@.slot_of(existing) is Some,
            old(self)@.is_view(new_key),
            !old(self)@.parents.contains_key(new_key),
        ensures
            final(self).wf(),
            r == (NodeKey { id: old(self)@.next_key }),
            final(self)@ == old(self)@.paired(existing, new_key, r, direction),
            final(self)@.windows() == old(self)@.windows(),
            forall|k: NodeKey| #[trigger]
                final(self)@.loose(k) ==> old(self)@.loose(k) && k != new_key,
            old(self)@.mentions_live() ==> final(self)@.mentions_live(),
    {
        let ghost t = self@;
        let ghost w = NodeKey { id: t.next_key };
        let parent_key = match self.parent_of(existing) {
            Some(parent_key) => parent_key,
            None => {
                return existing;
            },
        };
        let idx: usize = match self.child_index(parent_key, existing) {
            Some(idx) => idx,
            None => {
                return existing;
            },
        };
        proof {
            lemma_slot(t, parent_key, existing, idx as int);
        }
        let fractions = match self.node_fractions(existing) {
            Some(fractions) => fractions,
            None => {
                return existing;
            },
        };
        let mut container = ContainerData::new(direction.split_layout());
        container.mark_user_created();
        proof {
            lemma_added(t, w, container@);
        }
        let container_key = self.insert_node(container);
        let ghost named = self@;
        proof {
            assert(container_key != existing && container_key != new_key && container_key
                != parent_key);
            assert(!t.is_floating(existing)) by {
                if t.is_floating(existing) {
                    let i = choose|i: int|
                        0 <= i < t.floating.len() && #[trigger] t.floating[i].key == existing;
                    assert(t.parents[t.floating[i].key] == t.root);
                    assert(t.nodes[t.root].children.contains(existing));
                }
            }
            assert(!named.is_floating(existing)) by {
                if named.is_floating(existing) {
                    let i = choose|i: int|
                        0 <= i < named.floating.len() && #[trigger] named.floating[i].key
                            == existing;
                    assert(t.floating[i].key == existing);
                }
            }
            lemma_interposed(named, existing, container_key);
            assert(named.kids(parent_key) == t.kids(parent_key));
        }
        self.detach_child(existing);
        self.attach_child(container_key, parent_key, idx);
        self.attach_child(existing, container_key, 0);
        let ghost placed = self@;
        proof {
            assert(placed == named.interposed(existing, container_key));
            assert(new_key != existing) by {
                assert(t.parents.contains_key(existing));
            }
            assert(t.nodes.contains_key(new_key));
            assert(placed.nodes[new_key] == t.nodes[new_key]);
            lemma_childless_not_above(placed, container_key, new_key);
        }
        let at: usize = if direction.is_leading() {
            0
        } else {
            1
        };
        self.attach_child(new_key, container_key, at);
        self.set_node_fractions(container_key, fractions.narrow());
        self.transfer_fullscreen_to_replacement(existing, container_key);
        container_key
    }

    /// Puts a new window on one side of an existing node: as a sibling where the parent runs
    /// that way, else with the node in a new split. An empty workspace, or a node standing in
    /// no list, sends it to the end of the workspace.
    pub fn insert_leaf_split(
        &mut self,
        target_key: NodeKey,
        direction: Direction,
        tile: Tile,
        focus: bool,
    ) -> (r: bool)
        requires
            old(self).wf(),
            old(self)@.next_key < u64::MAX,
            old(self)@.expects(tile@.key),
        ensures
            final(self).wf(),
            r,
            final(self)@ == old(self)@.joined_beside(target_key, direction, tile@, focus),
            final(self)@.windows() == old(self)@.windows().insert(
                tile@.key,
                tile@.window.id,
            ),
            forall|k: NodeKey| #[trigger] final(self)@.loose(k) ==> old(self)@.loose(k),
            old(self)@.mentions_live() ==> final(self)@.mentions_live(),
    {
        let ghost t = self@;
        if self.is_empty() {
            self.append_leaf(tile, focus);
            return true;
        }
        let parent_key = match self.parent_of(target_key) {
            Some(parent_key) => parent_key,
            None => {
                self.append_leaf(tile, focus);
                return true;
            },
        };
        let idx: usize = match self.child_index(parent_key, target_key) {
            Some(idx) => idx,
            None => {
                self.append_leaf(tile, focus);
                return true;
            },
        };
        proof {
            lemma_slot(t, parent_key, target_key, idx as int);
        }
        let count: usize = self.child_count_of(parent_key);
        assert(idx < count);
        let same_way = match self.get_container(parent_key) {
            Some(parent) => parent.layout() == direction.split_layout(),
            None => false,
        };
        let key = self.insert_view(tile);
        if same_way {
            let at: usize = if direction.is_leading() {
                idx
            } else {
                idx + 1
            };
            self.join(key, parent_key, at, focus);
            return true;
        }
        proof {
            let u = self@;
            assert(u.kids(parent_key) == t.kids(parent_key));
            lemma_slot(u, parent_key, target_key, idx as int);
        }
        self.new_split_pair_container(target_key, key, direction);
        self.settle_focus_after_insert(key, focus);
        true
    }

    /// Puts a new window at one edge of the workspace, which turns first when it runs across.
    pub fn insert_leaf_split_root(&mut self, direction: Direction, tile: Tile, focus: bool) -> (r:
        bool)
        requires
            old(self).wf(),
            old(self)@.next_key < u64::MAX,
            old(self)@.expects(tile@.key),
        ensures
            final(self).wf(),
            r,
            final(self)@ == old(self)@.joined_edge(direction, tile@, focus),
            final(self)@.windows() == old(self)@.windows().insert(
                tile@.key,
                tile@.window.id,
            ),
            forall|k: NodeKey| #[trigger] final(self)@.loose(k) ==> old(self)@.loose(k),
            old(self)@.mentions_live() ==> final(self)@.mentions_live(),
    {
        let ghost t = self@;
        let root = self.workspace_root();
        let previous = self.root_container_layout();
        if previous != direction.split_layout() && !self.is_empty() {
            let wrapped = self.wrap_workspace_children(previous, direction.split_layout());
            proof {
                if wrapped is Some {
                    crate::movement::lemma_gathered(
                        t,
                        root,
                        wrapped->0,
                        previous,
                        direction.along(),
                    );
                    lemma_gathered_keys(t, root, wrapped->0, previous, direction.along());
                }
            }
        }
        let count: usize = self.child_count_of(root);
        let key = self.insert_view(tile);
        let at: usize = if direction.is_leading() {
            0
        } else {
            count
        };
        self.join(key, root, at, focus);
        true
    }
}

/// What autotiling rests on: a tiled window that is split stands alone in its list afterwards, so
/// that a window put beside it makes a pair, and no other list changes its length.
#[verifier::spinoff_prover]
pub proof fn law_a_split_window_stands_alone(t: Tree, layout: Layout, k: NodeKey)
    requires
        t.wf(),
        t.is_view(k),
        t.parents.contains_key(k),
        !t.is_floating(k),
        t.next_key < u64::MAX,
    ensures
        ({
            let u = t.split_commanded(layout, k).0;
            &&& u.parents.contains_key(k)
            &&& u.kids(u.parents[k]) == seq![k]
            &&& forall|c: NodeKey|
                c != u.parents[k] ==> (#[trigger] u.kids(c)).len() == t.kids(c).len()
        }),
{
    reveal(Tree::leaf_split);
    reveal(Tree::split_commanded);
    let p = t.parents[k];
    let u = t.split_commanded(layout, k).0;
    lemma_unlinked(t, k);
    assert(t.is_parent(p));
    assert(t.kids(p).contains(k));
    if t.nodes[p].layout.is_split() && t.kids(p).len() == 1 {
        assert(t.kids(p) =~= seq![k]);
        assert(u.kids(p) == t.kids(p));
    } else {
        let w = NodeKey { id: t.next_key };
        let own = Node { geometry: t.box_of(k)->0, ..Tree::asked_for(layout) };
        let i = t.kids(p).index_of(k);
        lemma_wrapped_slot(t, p, k, w, Tree::asked_for(layout), i);
        lemma_added(t, w, own);
        let named = t.added(w, own);
        assert(!named.is_floating(k)) by {
            if named.is_floating(k) {
                let j = choose|j: int|
                    0 <= j < named.floating.len() && #[trigger] named.floating[j].key == k;
                assert(t.is_floating(t.floating[j].key));
            }
        }
        crate::links::lemma_interposed(named, k, w);
        let placed = named.interposed(k, w).with_fractions(
            w,
            t.fractions_of(k)->0.narrowed(),
        );
        crate::links::lemma_fullscreen_moved_keeps(placed, k, w);
        assert(placed.fullscreen_moved(k, w).has(w) == placed.has(w));
        assert(u.parents[k] == w);
        assert(u.kids(w) =~= seq![k]);
        assert forall|c: NodeKey| c != w implies (#[trigger] u.kids(c)).len() == t.kids(c).len() by {
            assert(placed.fullscreen_moved(k, w).has(c) == placed.has(c));
            assert(placed.has(c) == t.has(c));
            if c != p && t.has(c) {
                assert(placed.nodes[c].children == t.nodes[c].children);
                assert(u.nodes[c].children == placed.nodes[c].children);
            }
        }
    }
}

/// A wrapper stands in the slot of what it wraps.
pub proof fn lemma_wrapped_slot(
    t: Tree,
    p: NodeKey,
    c: NodeKey,
    w: NodeKey,
    node: Node,
    i: int,
)
    requires
        t.wf(),
        0 <= i < t.kids(p).len(),
        t.kids(p)[i] == c,
        !t.has(w),
        w.id < u64::MAX,
        node.children.len() == 0,
        node.is_split(),
    ensures
        t.wrapped(p, c, w, node).kids(p).len() == t.kids(p).len(),
        t.wrapped(p, c, w, node).kids(p)[i] == w,
        t.wrapped(p, c, w, node).is_split(w),
        t.wrapped(p, c, w, node).root == t.root,
        forall|x: NodeKey| #[trigger] t.wrapped(p, c, w, node).has(x) <==> t.has(x) || x == w,
{
    lemma_slot(t, p, c, i);
    let own = Node { geometry: t.box_of(c)->0, ..node };
    lemma_added(t, w, own);
    let named = t.added(w, own);
    assert(!t.is_floating(c)) by {
        if t.is_floating(c) {
            let j = choose|j: int| 0 <= j < t.floating.len() && #[trigger] t.floating[j].key == c;
            assert(t.parents[t.floating[j].key] == t.root);
            assert(t.nodes[t.root].children.contains(c));
        }
    }
    assert(!named.is_floating(c)) by {
        if named.is_floating(c) {
            let j = choose|j: int|
                0 <= j < named.floating.len() && #[trigger] named.floating[j].key == c;
            assert(t.floating[j].key == c);
        }
    }
    lemma_interposed(named, c, w);
    assert(p != w && c != w);
    assert(named.kids(p) == t.kids(p));
    let kids = t.nodes[p].children;
    let a = named.unlinked(c);
    assert(kids.no_duplicates());
    crate::tree::lemma_without_is_remove(kids, c);
    assert(kids.index_of(c) == i) by {
        assert(kids[kids.index_of(c)] == kids[i]);
    }
    assert(a.nodes[p].children == kids.remove(i));
    let b = a.linked_at(w, p, i);
    assert(b.nodes[p].children =~= kids.update(i, w));
    let placed = named.interposed(c, w);
    assert(placed.nodes[p].children == b.nodes[p].children);
    let shared = placed.with_fractions(w, t.fractions_of(c)->0.narrowed());
    lemma_fullscreen_moved_keeps(shared, c, w);
    let moved = shared.fullscreen_moved(c, w);
    assert(shared.has(p) && shared.has(w));
    assert(moved.nodes[p].children == shared.nodes[p].children);
    let u = t.wrapped(p, c, w, node);
    assert(u.nodes == moved.nodes);
    assert forall|x: NodeKey| #[trigger] u.has(x) <==> t.has(x) || x == w by {
        assert(moved.has(x) == shared.has(x));
    }
}

/// Gathering names one new node.
proof fn lemma_gathered_keys(t: Tree, p: NodeKey, w: NodeKey, inner: Layout, outer: Layout)
    requires
        t.has(p),
    ensures
        forall|x: NodeKey| #[trigger]
            t.gathered(p, w, inner, outer).has(x) <==> t.has(x) || x == w,
{
}

/// What a path leads to is below where it starts.
pub proof fn lemma_path_below(t: Tree, k: NodeKey, path: Seq<usize>)
    requires
        t.wf(),
    ensures
        t.at_path(k, path) matches Some(x) ==> t.under(x, k),
    decreases path.len(),
{
    assert(t.under(k, k));
    if path.len() > 0 && path[0] < t.kids(k).len() {
        let c = t.kids(k)[path[0] as int];
        lemma_slot(t, k, c, path[0] as int);
        assert(t.under(c, k));
        lemma_path_below(t, c, path.drop_first());
        if t.at_path(c, path.drop_first()) is Some {
            lemma_under_trans(t.parents, t.at_path(c, path.drop_first())->0, c, k);
        }
    }
}

} // verus!
