//! The floating side of the workspace: groups going over from the tiled side and back, the
//! stack they stand on, and the tiled node a group comes back beside.

use crate::arena::ContainerArena;
use crate::axis::{Layout, NodeKey};
use crate::columns::lemma_moved_entry;
use crate::insert::{lemma_childless_not_above, lemma_tiled_below_root};
use crate::links::{lemma_fullscreen_moved_keeps, lemma_under_remove};
use crate::measure::{Point, Rect, Size};
use crate::node::{ContainerData, Node};
use crate::swap::{lemma_restacked, lemma_stack_index};
use crate::tile::Tile;
use crate::tree::{
    lemma_added, lemma_depth, lemma_first_of, lemma_lineage, lemma_unfloated, lemma_unlinked,
    lineage, FloatingGeometry, FloatingRoot, FloatingRootKind, Pick, Tree,
};
use crate::walk::{lemma_branch_of_float, lemma_slot};
use vstd::prelude::*;

verus! {

/// The tiled node the seat would come back to, kept as the place to return a group to.
#[derive(Debug, Clone, Copy, PartialEq, Eq, Structural)]
pub struct InactiveTilingReference {
    pub key: NodeKey,
}

impl InactiveTilingReference {
    pub fn new(key: NodeKey) -> (r: Self)
        ensures
            r.key == key,
    {
        InactiveTilingReference { key }
    }

    pub fn key(self) -> (r: NodeKey)
        ensures
            r == self.key,
    {
        self.key
    }
}

impl FloatingRootKind {
    pub fn is_workspace_wrapper(self) -> (r: bool)
        ensures
            r == (self is WorkspaceWrapper),
    {
        match self {
            FloatingRootKind::WorkspaceWrapper => true,
            _ => false,
        }
    }
}

impl FloatingGeometry {
    /// The geometry with the group asked back to the size it is resized from, at `loc`.
    pub open spec fn retargeted(self, loc: Point) -> FloatingGeometry {
        FloatingGeometry { target: Rect { loc, size: self.resize_base_size }, ..self }
    }
}

impl Tree {
    // -----------------------------------------------------------------------------------------
    // The stack
    // -----------------------------------------------------------------------------------------

    /// The entry of a floating root.
    pub open spec fn entry_of(self, k: NodeKey) -> Option<FloatingRoot> {
        if self.is_floating(k) {
            Some(self.floating[self.stack_index(k)])
        } else {
            None
        }
    }

    /// How the group at a place of the stack counts: a group of one window counts as a floated
    /// container once the user has made its root an explicit container.
    pub open spec fn kind_at(self, i: int) -> Option<FloatingRootKind> {
        if !(0 <= i < self.floating.len()) {
            None
        } else {
            let root = self.floating[i];
            if root.kind is ImplicitWindowGroup && self.is_split(root.key)
                && self.nodes[root.key].user_created {
                Some(FloatingRootKind::FloatedContainer)
            } else {
                Some(root.kind)
            }
        }
    }

    /// The stack with one entry moved to another place.
    pub open spec fn restacked(self, from: int, to: int) -> Tree {
        self.with_floating(self.floating.remove(from).insert(to, self.floating[from]))
    }

    /// The tree with the geometry of a floating root replaced.
    pub open spec fn regeometried(self, k: NodeKey, geometry: FloatingGeometry) -> Tree {
        let i = self.stack_index(k);
        self.with_floating(
            self.floating.update(i, FloatingRoot { geometry, ..self.floating[i] }),
        )
    }

    /// The tree with the boxes of some nodes replaced, in turn.
    pub open spec fn with_boxes(self, boxes: Seq<(NodeKey, Rect)>) -> Tree
        decreases boxes.len(),
    {
        if boxes.len() == 0 {
            self
        } else {
            self.with_boxes(boxes.drop_last()).with_box(boxes.last().0, boxes.last().1)
        }
    }

    /// A loose node put on the stack under a fresh id.
    pub open spec fn registered(
        self,
        k: NodeKey,
        geometry: FloatingGeometry,
        at: int,
        kind: FloatingRootKind,
    ) -> Tree {
        let entry = FloatingRoot { id: self.next_floating_id, key: k, kind, geometry };
        let idx = if at <= self.floating.len() {
            at
        } else {
            self.floating.len() as int
        };
        Tree {
            next_floating_id: (self.next_floating_id + 1) as u64,
            ..self.floated(entry, idx)
        }
    }

    // -----------------------------------------------------------------------------------------
    // Over to the floating side
    // -----------------------------------------------------------------------------------------

    /// Whether a node can be floated: any container of the tiled side.
    pub open spec fn floatable(self, k: NodeKey) -> bool {
        k != self.root && self.has(k) && !self.in_float(k)
    }

    /// A tiled subtree moved to the floating side. A focused one has its old parent and then
    /// itself brought to the front of the order.
    pub open spec fn subtree_floated(
        self,
        k: NodeKey,
        geometry: FloatingGeometry,
        at: int,
        kind: FloatingRootKind,
    ) -> Tree {
        let a = self.superseded();
        match self.parent(k) {
            Some(p) => {
                let b = a.unlinked(k).registered(k, geometry, at, kind);
                let c = if self.seat.node() == Some(k) {
                    b.with_seat(b.seat.raw_focus(p).raw_focus(k))
                } else {
                    b
                };
                c.reaped(p).readdressed()
            },
            None => a.registered(k, geometry, at, kind).readdressed(),
        }
    }

    /// Everything the workspace holds moved to the floating side in one container.
    pub open spec fn workspace_floated(self, geometry: FloatingGeometry, at: int) -> Tree {
        let root = self.nodes[self.root];
        let w = NodeKey { id: self.next_key };
        let a = self.gathered(self.root, w, root.layout, Layout::SplitH);
        let b = a.with_node(
            w,
            Node { prev_split_layout: root.prev_split_layout, ..a.nodes[w] },
        ).selecting(w);
        b.subtree_floated(w, geometry, at, FloatingRootKind::WorkspaceWrapper)
    }

    /// A new container in the place of a floating root, which becomes its only child.
    pub open spec fn root_wrapped(self, k: NodeKey, w: NodeKey, node: Node) -> Tree {
        let i = self.stack_index(k);
        let a = self.added(w, Node { geometry: self.box_of(k)->0, ..node }).unfloated(
            i,
        ).linked_at(k, w, 0).floated(FloatingRoot { key: w, ..self.floating[i] }, i);
        let b = a.fullscreen_moved(k, w);
        if self.seat.node() == Some(k) {
            b.with_seat(b.seat.raw_focus(w).raw_focus(k))
        } else {
            b
        }
    }

    // -----------------------------------------------------------------------------------------
    // And back
    // -----------------------------------------------------------------------------------------

    /// A floating root moved into a child list, where its former shares say nothing.
    pub open spec fn subtree_unfloated(self, k: NodeKey, p: NodeKey, idx: int) -> Tree {
        self.unfloated(self.stack_index(k)).linked_at(k, p, idx).unset(k)
    }

    /// A floating root taken off the stack, and out of the tree when it holds no window.
    pub open spec fn forgotten(self, k: NodeKey) -> Tree {
        let a = if self.is_floating(k) {
            self.unfloated(self.stack_index(k))
        } else {
            self
        };
        if a.leaf_under(k) is Some {
            a
        } else if a.has(k) {
            a.cut(a.below(k)).pruned()
        } else {
            a.pruned()
        }
    }

    /// The window of a group that is only the container around it.
    pub open spec fn implicit_child(self, group: NodeKey) -> Option<NodeKey> {
        if self.is_floating(group) && self.kind_at(self.stack_index(group)) == Some(
            FloatingRootKind::ImplicitWindowGroup,
        ) && self.is_split(group) && self.kids(group).len() == 1
            && self.nodes[group].layout.is_split() {
            Some(self.kids(group)[0])
        } else {
            None
        }
    }

    /// A group moved back into a child list, and the node that lands there. A group that is
    /// only the container around one window goes back as the window.
    pub open spec fn group_unfloated(self, group: NodeKey, p: NodeKey, idx: int) -> (
        Tree,
        Option<NodeKey>,
    ) {
        match self.implicit_child(group) {
            Some(c) => (
                self.unlinked(c).forgotten(group).linked_at(c, p, idx).unset(c).pruned(),
                Some(c),
            ),
            None => if self.is_floating(group) {
                (self.subtree_unfloated(group, p, idx), Some(group))
            } else {
                (self, None)
            },
        }
    }

    /// A node with the size of a box it is to be arranged into; its position stays.
    pub open spec fn seeded(self, k: NodeKey, size: Size) -> Tree {
        match self.box_of(k) {
            Some(rect) => self.with_box(k, Rect { size, ..rect }),
            None => self,
        }
    }

    /// A group placed back into the tiling.
    pub open spec fn placed(self, group: NodeKey, p: NodeKey, idx: int) -> (Tree, bool) {
        let (t, landed) = self.group_unfloated(group, p, idx);
        if landed is Some {
            (t.refreshed(), true)
        } else {
            (t, false)
        }
    }

    /// A group placed at the end of the workspace.
    pub open spec fn placed_at_end(self, group: NodeKey) -> (Tree, bool) {
        let t = self.seeded(group, self.nodes[self.root].geometry.size);
        t.placed(group, t.root, t.kids(t.root).len() as int)
    }

    /// Where a tiled node receives a returning one: a container at its end, a window right
    /// after itself.
    pub open spec fn insertion_point(self, k: NodeKey) -> Option<(NodeKey, int)> {
        if !self.has(k) || self.branch(k) != self.root || k == self.root {
            None
        } else if self.is_split(k) {
            Some((k, self.kids(k).len() as int))
        } else {
            match self.slot_of(k) {
                Some((p, i)) => Some((p, i + 1)),
                None => None,
            }
        }
    }

    /// A group placed where a tiled node receives it, or at the end of the workspace.
    pub open spec fn placed_by(self, group: NodeKey, reference: NodeKey) -> (Tree, bool) {
        match self.insertion_point(reference) {
            Some((p, i)) => self.seeded(group, self.box_of(reference)->0.size).placed(
                group,
                p,
                i,
            ),
            None => self.placed_at_end(group),
        }
    }

    /// One node of a floating group moved back to the tiling, and whether the group is gone.
    pub open spec fn node_unfloated(self, k: NodeKey, reference: Option<NodeKey>) -> (
        Tree,
        Option<bool>,
    ) {
        let group = self.branch(k);
        if !self.in_float(k) {
            (self, None)
        } else if k == group {
            let (t, done) = match reference {
                Some(r) => self.placed_by(group, r),
                None => self.placed_at_end(group),
            };
            if done {
                (t, Some(true))
            } else {
                (t, None)
            }
        } else {
            let a = self.unlinked(k).reaped(self.parents[k]);
            let emptied = a.leaf_under(group) is None;
            let b = if emptied {
                a.forgotten(group)
            } else {
                a
            };
            let (p, i) = match reference {
                Some(r) => match b.insertion_point(r) {
                    Some(point) => point,
                    None => (b.root, b.kids(b.root).len() as int),
                },
                None => (b.root, b.kids(b.root).len() as int),
            };
            (b.joined_to(p, i, k, false).unset(k).refreshed(), Some(emptied))
        }
    }

    /// The wrapper of a floated workspace put back first on the workspace.
    pub open spec fn wrapper_unfloated(self, group: NodeKey) -> (Tree, bool) {
        let t = self.seeded(group, self.nodes[self.root].geometry.size);
        if t.is_floating(group) {
            (t.subtree_unfloated(group, t.root, 0).refreshed(), true)
        } else {
            (t, false)
        }
    }
}

/// Floating costs a subtree nothing: every node of it is there afterwards, with its window, its
/// children, its layout and its marks.
pub proof fn law_floating_keeps_a_subtree(
    t: Tree,
    k: NodeKey,
    geometry: FloatingGeometry,
    at: int,
    kind: FloatingRootKind,
    x: NodeKey,
)
    requires
        t.wf(),
        t.floatable(k),
        t.has(x),
        t.under(x, k),
        0 <= at,
    ensures
        t.subtree_floated(k, geometry, at, kind).has(x),
        t.subtree_floated(k, geometry, at, kind).nodes[x] == t.nodes[x],
{
    if t.parents.contains_key(k) {
        let p = t.parents[k];
        let b = t.superseded().unlinked(k).registered(k, geometry, at, kind);
        let c = if t.seat.node() == Some(k) {
            b.with_seat(b.seat.raw_focus(p).raw_focus(k))
        } else {
            b
        };
        crate::tree::lemma_parent_not_under_child(t.parents, k);
        crate::cleanup::lemma_lineage_remove(t.parents, k, p);
        crate::tree::lemma_lineage(t.parents, p);
        crate::tree::lemma_acyclic_insert(t.parents.remove(k), k, t.root);
        assert(t.parents.remove(k).insert(k, t.root) =~= c.parents);
        if c.under(p, k) {
            crate::links::lemma_under_insert(t.parents.remove(k), k, t.root, p, k);
            crate::links::lemma_under_remove(t.parents, k, p, k);
        }
        crate::tree::lemma_lineage(c.parents, p);
        assert(t.parents.remove(k) =~= c.parents.remove(k));
        crate::cleanup::lemma_lineage_remove(c.parents, k, p);
        let chain = lineage(c.parents, p);
        assert(chain == lineage(t.parents, p));
        if chain.contains(x) {
            assert(t.under(p, x));
            crate::tree::lemma_under_trans(t.parents, p, x, k);
        }
        assert(c.has(x) && c.nodes[x] == t.nodes[x]) by {
            assert(x != p) by {
                if x == p {
                    assert(t.under(p, k));
                }
            }
        }
        crate::cleanup::lemma_reaping_keeps(c, chain, x);
    }
}

/// A tiled node is in no floating group.
pub proof fn lemma_tiled_not_below_group(t: Tree, k: NodeKey, group: NodeKey)
    requires
        t.wf(),
        t.is_floating(group),
        t.branch(k) == t.root,
    ensures
        !t.under(k, group),
{
    if t.under(k, group) {
        lemma_branch_of_float(t, group, k);
    }
}

/// Replacing the geometry of an entry keeps the tree well-formed.
proof fn lemma_regeometried(t: Tree, k: NodeKey, geometry: FloatingGeometry)
    requires
        t.wf(),
        t.is_floating(k),
    ensures
        t.regeometried(k, geometry).wf(),
        0 <= t.stack_index(k) < t.floating.len(),
        t.floating[t.stack_index(k)].key == k,
{
    let u = t.regeometried(k, geometry);
    let i = t.stack_index(k);
    let w = choose|w: int| 0 <= w < t.floating.len() && #[trigger] t.floating[w].key == k;
    assert(t.floating[w].key == k);
    assert forall|x: NodeKey| #[trigger] t.is_floating(x) <==> u.is_floating(x) by {
        if t.is_floating(x) {
            let n = choose|n: int| 0 <= n < t.floating.len() && #[trigger] t.floating[n].key == x;
            assert(u.floating[n].key == x);
        }
        if u.is_floating(x) {
            let n = choose|n: int| 0 <= n < u.floating.len() && #[trigger] u.floating[n].key == x;
            assert(t.floating[n].key == x);
        }
    }
    assert forall|x: int, y: int|
        0 <= x < u.floating.len() && 0 <= y < u.floating.len() && x != y implies (
    #[trigger] u.floating[x]).key != (#[trigger] u.floating[y]).key by {
        assert(u.floating[x].key == t.floating[x].key);
        assert(u.floating[y].key == t.floating[y].key);
    }
    lemma_restacked(t, u.floating);
}

/// A group without windows leads to none.
proof fn lemma_leads_nowhere(t: Tree, u: Tree, k: NodeKey)
    requires
        t.wf(),
        u.wf(),
        k != t.root,
        t.leaves(k).len() == 0,
        u.nodes == t.nodes,
        forall|c: NodeKey| #[trigger] u.parents.contains_key(c) ==> t.parents.contains_key(c)
            && t.parents[c] == u.parents[c],
    ensures
        u.leaf_under(k) is None,
{
    if u.leaf_under(k) is Some {
        let leaf = u.leaf_under(k)->0;
        crate::walk::lemma_leaf_under(u, k);
        crate::walk::lemma_leaves_are_views(u, k);
        let i = choose|i: int| 0 <= i < u.leaves(k).len() && u.leaves(k)[i] == leaf;
        assert(u.is_view(u.leaves(k)[i]) && u.under(u.leaves(k)[i], k));
        crate::subtree::lemma_under_fewer(t.parents, u.parents, leaf, k);
        crate::walk::lemma_window_listed(t, k, leaf);
    }
}

/// A group without windows takes none along.
proof fn lemma_nothing_below(t: Tree, u: Tree, k: NodeKey)
    requires
        t.wf(),
        u.wf(),
        t.has(k),
        k != t.root,
        t.leaves(k).len() == 0,
        u.nodes == t.nodes,
        forall|c: NodeKey| #[trigger] u.parents.contains_key(c) ==> t.parents.contains_key(c)
            && t.parents[c] == u.parents[c],
    ensures
        u.windows().remove_keys(u.below(k)) == u.windows(),
{
    assert forall|x: NodeKey| #[trigger] u.below(k).contains(x) implies !u.windows().contains_key(
        x,
    ) by {
        crate::subtree::lemma_under_fewer(t.parents, u.parents, x, k);
        if t.is_view(x) {
            crate::walk::lemma_window_listed(t, k, x);
        }
        crate::windows::lemma_windows(u, x);
    }
    assert(u.windows().remove_keys(u.below(k)) =~= u.windows());
}

impl ContainerArena {
    // -----------------------------------------------------------------------------------------
    // The stack
    // -----------------------------------------------------------------------------------------

    /// The floating roots, topmost first.
    pub fn floating_roots(&self) -> (r: Vec<NodeKey>)
        ensures
            r@.len() == self@.floating.len(),
            forall|i: int| 0 <= i < r@.len() ==> #[trigger] r@[i] == self@.floating[i].key,
    {
        let floating = self.floating();
        let mut keys: Vec<NodeKey> = Vec::new();
        let mut i: usize = 0;
        while i < floating.len()
            invariant
                i <= floating@.len(),
                keys@.len() == i,
                forall|j: int| 0 <= j < i ==> #[trigger] keys@[j] == floating@[j].key,
            decreases floating@.len() - i,
        {
            keys.push(floating[i].key);
            i = i + 1;
        }
        keys
    }

    pub fn floating_root_count(&self) -> (r: usize)
        ensures
            r == self@.floating.len(),
    {
        self.floating().len()
    }

    pub fn floating_root_at(&self, index: usize) -> (r: Option<NodeKey>)
        ensures
            r == if index < self@.floating.len() {
                Some(self@.floating[index as int].key)
            } else {
                None
            },
    {
        if index < self.floating().len() {
            Some(self.floating()[index].key)
        } else {
            None
        }
    }

    pub fn floating_root_id_at(&self, index: usize) -> (r: Option<u64>)
        ensures
            r == if index < self@.floating.len() {
                Some(self@.floating[index as int].id)
            } else {
                None
            },
    {
        if index < self.floating().len() {
            Some(self.floating()[index].id)
        } else {
            None
        }
    }

    /// The place on the stack of the group with an id, the topmost when several have it.
    pub fn floating_root_index_by_id(&self, id: u64) -> (r: Option<usize>)
        ensures
            r matches Some(i) ==> i < self@.floating.len() && self@.floating[i as int].id == id
                && forall|j: int| 0 <= j < i ==> (#[trigger] self@.floating[j]).id != id,
            r is None ==> forall|j: int|
                0 <= j < self@.floating.len() ==> (#[trigger] self@.floating[j]).id != id,
    {
        let floating = self.floating();
        let mut i: usize = 0;
        while i < floating.len()
            invariant
                i <= floating@.len(),
                floating@ == self@.floating,
                forall|j: int| 0 <= j < i ==> (#[trigger] floating@[j]).id != id,
            decreases floating@.len() - i,
        {
            if floating[i].id == id {
                return Some(i);
            }
            i = i + 1;
        }
        None
    }

    /// How the group at a place of the stack counts.
    pub fn floating_root_kind_at(&self, index: usize) -> (r: Option<FloatingRootKind>)
        ensures
            r == self@.kind_at(index as int),
    {
        if index >= self.floating().len() {
            return None;
        }
        let root = self.floating()[index];
        if root.kind == FloatingRootKind::ImplicitWindowGroup {
            if let Some(container) = self.get_real_container(root.key) {
                if container.is_user_container() {
                    return Some(FloatingRootKind::FloatedContainer);
                }
            }
        }
        Some(root.kind)
    }

    pub fn floating_root_is_workspace_wrapper(&self, index: usize) -> (r: bool)
        ensures
            r == (index < self@.floating.len()
                && self@.floating[index as int].kind is WorkspaceWrapper),
    {
        index < self.floating().len() && self.floating()[index].kind.is_workspace_wrapper()
    }

    /// Moves a group to another place of the stack. Answers whether both places are there.
    pub fn move_floating_root(&mut self, from: usize, to: usize) -> (r: bool)
        requires
            old(self).wf(),
        ensures
            final(self).wf(),
            r == (from < old(self)@.floating.len() && to < old(self)@.floating.len()),
            final(self)@ == if r {
                old(self)@.restacked(from as int, to as int)
            } else {
                old(self)@
            },
            final(self)@.windows() == old(self)@.windows(),
            forall|k: NodeKey| #[trigger] final(self)@.loose(k) ==> old(self)@.loose(k),
            old(self)@.mentions_live() ==> final(self)@.mentions_live(),
    {
        reveal(Tree::mentions_live);
        let ghost t = self@;
        if from >= self.floating().len() || to >= self.floating().len() {
            return false;
        }
        let floating = self.floating_mut();
        let root = floating.remove(from);
        floating.insert(to, root);
        proof {
            lemma_moved_stack(t, from as int, to as int);
        }
        proof {
            crate::windows::lemma_same_windows(old(self)@, self@);
        }
        true
    }

    fn entry_of(&self, key: NodeKey) -> (r: Option<FloatingRoot>)
        requires
            self.wf(),
        ensures
            r == self@.entry_of(key),
    {
        match self.floating_root_index(key) {
            Some(i) => {
                proof {
                    lemma_stack_index(self@, key, i as int);
                }
                Some(self.floating()[i])
            },
            None => None,
        }
    }

    /// Every floating root with the box its group is laid out in, topmost first.
    pub fn floating_roots_snapshot(&self) -> (r: Vec<(NodeKey, Rect)>)
        ensures
            r@.len() == self@.floating.len(),
            forall|i: int|
                0 <= i < r@.len() ==> #[trigger] r@[i] == (
                    self@.floating[i].key,
                    self@.floating[i].geometry.target,
                ),
    {
        let floating = self.floating();
        let mut out: Vec<(NodeKey, Rect)> = Vec::new();
        let mut i: usize = 0;
        while i < floating.len()
            invariant
                i <= floating@.len(),
                out@.len() == i,
                forall|j: int|
                    0 <= j < i ==> #[trigger] out@[j] == (
                        floating@[j].key,
                        floating@[j].geometry.target,
                    ),
            decreases floating@.len() - i,
        {
            out.push((floating[i].key, floating[i].geometry.target));
            i = i + 1;
        }
        out
    }

    /// The geometry of a floating root.
    pub fn floating_geometry(&self, key: NodeKey) -> (r: Option<FloatingGeometry>)
        requires
            self.wf(),
        ensures
            r == match self@.entry_of(key) {
                Some(root) => Some(root.geometry),
                None => None,
            },
    {
        match self.entry_of(key) {
            Some(root) => Some(root.geometry),
            None => None,
        }
    }

    /// The box a floating group is laid out in.
    pub fn floating_area(&self, key: NodeKey) -> (r: Option<Rect>)
        requires
            self.wf(),
        ensures
            r == match self@.entry_of(key) {
                Some(root) => Some(root.geometry.target),
                None => None,
            },
    {
        match self.entry_of(key) {
            Some(root) => Some(root.geometry.target),
            None => None,
        }
    }

    /// The position of a floating group, relative to its working area.
    pub fn floating_position(&self, key: NodeKey) -> (r: Option<Point>)
        requires
            self.wf(),
        ensures
            r == match self@.entry_of(key) {
                Some(root) => Some(root.geometry.pos),
                None => None,
            },
    {
        match self.entry_of(key) {
            Some(root) => Some(root.geometry.pos),
            None => None,
        }
    }

    /// Replaces the geometry of a floating root.
    pub fn set_floating_geometry(&mut self, key: NodeKey, geometry: FloatingGeometry)
        requires
            old(self).wf(),
            old(self)@.is_floating(key),
        ensures
            final(self).wf(),
            final(self)@ == old(self)@.regeometried(key, geometry),
            final(self)@.windows() == old(self)@.windows(),
            forall|k: NodeKey| #[trigger] final(self)@.loose(k) ==> old(self)@.loose(k),
            old(self)@.mentions_live() ==> final(self)@.mentions_live(),
    {
        reveal(Tree::mentions_live);
        let ghost t = self@;
        if let Some(i) = self.floating_root_index(key) {
            proof {
                lemma_stack_index(t, key, i as int);
                lemma_regeometried(t, key, geometry);
            }
            let root = self.floating()[i];
            self.floating_mut().set(
                i,
                FloatingRoot { id: root.id, key: root.key, kind: root.kind, geometry },
            );
        }
        proof {
            crate::windows::lemma_same_windows(old(self)@, self@);
        }
    }

    /// Moves a floating group: its geometry and the boxes of everything in it.
    pub fn set_floating_logical_pos(
        &mut self,
        key: NodeKey,
        geometry: FloatingGeometry,
        boxes: &Vec<(NodeKey, Rect)>,
    )
        requires
            old(self).wf(),
            old(self)@.is_floating(key),
        ensures
            final(self).wf(),
            final(self)@ == old(self)@.regeometried(key, geometry).with_boxes(boxes@),
            final(self)@.windows() == old(self)@.windows(),
            forall|k: NodeKey| #[trigger] final(self)@.loose(k) ==> old(self)@.loose(k),
            old(self)@.mentions_live() ==> final(self)@.mentions_live(),
    {
        self.set_floating_geometry(key, geometry);
        self.set_boxes(boxes);
    }

    /// Replaces the boxes of some nodes, in turn.
    pub fn set_boxes(&mut self, boxes: &Vec<(NodeKey, Rect)>)
        requires
            old(self).wf(),
        ensures
            final(self).wf(),
            final(self)@ == old(self)@.with_boxes(boxes@),
            final(self)@.windows() == old(self)@.windows(),
            forall|k: NodeKey| #[trigger] final(self)@.loose(k) ==> old(self)@.loose(k),
            old(self)@.mentions_live() ==> final(self)@.mentions_live(),
    {
        let ghost t = self@;
        let mut i: usize = 0;
        assert(boxes@.take(0) =~= Seq::empty());
        while i < boxes.len()
            invariant
                self.wf(),
                forall|k: NodeKey| #[trigger] self@.loose(k) ==> old(self)@.loose(k),
                old(self)@.mentions_live() ==> self@.mentions_live(),
                self@.windows() == old(self)@.windows(),
                i <= boxes@.len(),
                self@ == t.with_boxes(boxes@.take(i as int)),
            decreases boxes@.len() - i,
        {
            let (key, rect) = boxes[i];
            self.set_node_geometry(key, rect);
            assert(boxes@.take(i as int + 1).drop_last() =~= boxes@.take(i as int));
            i = i + 1;
        }
        assert(boxes@.take(i as int) =~= boxes@);
    }

    /// Records the size the next resize of a floating group starts from.
    pub fn record_floating_resize_base(&mut self, key: NodeKey, size: Size)
        requires
            old(self).wf(),
            old(self)@.is_floating(key),
        ensures
            final(self).wf(),
            final(self)@ == old(self)@.regeometried(
                key,
                (FloatingGeometry {
                    resize_base_size: size,
                    ..old(self)@.floating[old(self)@.stack_index(key)].geometry
                }),
            ),
            final(self)@.windows() == old(self)@.windows(),
            forall|k: NodeKey| #[trigger] final(self)@.loose(k) ==> old(self)@.loose(k),
            old(self)@.mentions_live() ==> final(self)@.mentions_live(),
    {
        if let Some(geometry) = self.floating_geometry(key) {
            let mut geometry = geometry;
            geometry.resize_base_size = size;
            self.set_floating_geometry(key, geometry);
        }
    }

    fn register_floating_root(
        &mut self,
        key: NodeKey,
        geometry: FloatingGeometry,
        stack_index: usize,
        kind: FloatingRootKind,
    )
        requires
            old(self).wf(),
            old(self)@.has(key),
            key != old(self)@.root,
            !old(self)@.parents.contains_key(key),
            old(self)@.next_floating_id < u64::MAX,
        ensures
            final(self).wf(),
            final(self)@ == old(self)@.registered(key, geometry, stack_index as int, kind),
            final(self)@.is_floating(key),
            final(self)@.windows() == old(self)@.windows(),
            forall|k: NodeKey| #[trigger]
                final(self)@.loose(k) ==> old(self)@.loose(k) && k != key,
            old(self)@.mentions_live() ==> final(self)@.mentions_live(),
    {
        let id = self.take_floating_id();
        let ghost a = self@;
        proof {
            crate::tree::lemma_same_shape(old(self)@, a);
        }
        self.push_floating(FloatingRoot { id, key, kind, geometry }, stack_index);
    }
}

/// Moving an entry of the stack keeps the tree well-formed.
pub proof fn lemma_moved_stack(t: Tree, from: int, to: int)
    requires
        t.wf(),
        0 <= from < t.floating.len(),
        0 <= to < t.floating.len(),
    ensures
        t.restacked(from, to).wf(),
{
    let u = t.restacked(from, to);
    let keys = Seq::new(t.floating.len(), |i: int| t.floating[i].key);
    let moved = keys.remove(from).insert(to, keys[from]);
    assert(keys.no_duplicates());
    lemma_moved_entry(keys, from, to);
    assert(u.floating.len() == t.floating.len());
    assert forall|i: int| 0 <= i < u.floating.len() implies (#[trigger] u.floating[i]).key
        == moved[i] by {}
    assert forall|k: NodeKey| #[trigger] t.is_floating(k) <==> u.is_floating(k) by {
        assert(keys.contains(k) <==> moved.contains(k));
        if t.is_floating(k) {
            let n = choose|n: int| 0 <= n < t.floating.len() && #[trigger] t.floating[n].key == k;
            assert(keys[n] == k);
            let m = choose|m: int| 0 <= m < moved.len() && moved[m] == k;
            assert(u.floating[m].key == k);
        }
        if u.is_floating(k) {
            let n = choose|n: int| 0 <= n < u.floating.len() && #[trigger] u.floating[n].key == k;
            assert(moved[n] == k);
            let m = choose|m: int| 0 <= m < keys.len() && keys[m] == k;
            assert(t.floating[m].key == k);
        }
    }
    assert forall|x: int, y: int|
        0 <= x < u.floating.len() && 0 <= y < u.floating.len() && x != y implies (
    #[trigger] u.floating[x]).key != (#[trigger] u.floating[y]).key by {
        assert(moved[x] != moved[y]);
    }
    lemma_restacked(t, u.floating);
}

/// Moving a group on the stack and moving it back leaves the tree as it was.
pub proof fn law_restacking_is_undone(t: Tree, from: int, to: int)
    requires
        0 <= from < t.floating.len(),
        0 <= to < t.floating.len(),
    ensures
        t.restacked(from, to).restacked(to, from) == t,
{
    let once = t.floating.remove(from).insert(to, t.floating[from]);
    assert(once.remove(to) =~= t.floating.remove(from));
    assert(once.remove(to).insert(from, once[to]) =~= t.floating);
}

impl ContainerArena {
    // -----------------------------------------------------------------------------------------
    // Over to the floating side
    // -----------------------------------------------------------------------------------------

    /// Moves a tiled subtree to the floating side, keeping its identity. Answers whether there
    /// was one to move.
    pub fn float_subtree(
        &mut self,
        key: NodeKey,
        geometry: FloatingGeometry,
        stack_index: usize,
        kind: FloatingRootKind,
    ) -> (r: bool)
        requires
            old(self).wf(),
            old(self)@.next_floating_id < u64::MAX,
        ensures
            final(self).wf(),
            r == old(self)@.floatable(key),
            final(self)@ == if r {
                old(self)@.subtree_floated(key, geometry, stack_index as int, kind)
            } else {
                old(self)@
            },
            final(self)@.windows() == old(self)@.windows(),
            forall|k: NodeKey| #[trigger] final(self)@.loose(k) ==> old(self)@.loose(k),
            old(self)@.mentions_live() ==> final(self)@.mentions_live(),
    {
        let ghost t = self@;
        if key == self.workspace_root() || !self.holds_node(key) || self.is_in_floating_branch(
            key,
        ) {
            return false;
        }
        proof {
            assert(!t.is_floating(key)) by {
                if t.is_floating(key) {
                    let i = choose|i: int|
                        0 <= i < t.floating.len() && #[trigger] t.floating[i].key == key;
                    assert(t.parents[t.floating[i].key] == t.root);
                    assert(t.branch(key) == key);
                }
            }
        }
        let restore_raw_focus = self.seat().node() == Some(key);
        self.discard_layout_superseded_by_transfer();
        let ghost a = self@;
        assert(!a.is_floating(key)) by {
            if a.is_floating(key) {
                let i = choose|i: int|
                    0 <= i < a.floating.len() && #[trigger] a.floating[i].key == key;
                assert(t.floating[i].key == key);
            }
        }
        match self.parent_of(key) {
            Some(parent) => {
                self.detach_child(key);
                assert(self@.has(parent));
                self.register_floating_root(key, geometry, stack_index, kind);
                if restore_raw_focus {
                    self.raw_focus(parent);
                    self.raw_focus(key);
                }
                self.reap_empty(parent);
            },
            None => {
                self.register_floating_root(key, geometry, stack_index, kind);
            },
        }
        self.readdress_leaf_layouts();
        true
    }

    /// Floats a node as a group of its own and answers with the root of the group, the node
    /// itself.
    pub fn float_as_group(
        &mut self,
        key: NodeKey,
        geometry: FloatingGeometry,
        stack_index: usize,
        kind: FloatingRootKind,
    ) -> (r: Option<NodeKey>)
        requires
            old(self).wf(),
            old(self)@.next_floating_id < u64::MAX,
        ensures
            final(self).wf(),
            r == if old(self)@.floatable(key) {
                Some(key)
            } else {
                None
            },
            final(self)@ == if r is Some {
                old(self)@.subtree_floated(key, geometry, stack_index as int, kind)
            } else {
                old(self)@
            },
            final(self)@.windows() == old(self)@.windows(),
            forall|k: NodeKey| #[trigger] final(self)@.loose(k) ==> old(self)@.loose(k),
            old(self)@.mentions_live() ==> final(self)@.mentions_live(),
    {
        if self.float_subtree(key, geometry, stack_index, kind) {
            Some(key)
        } else {
            None
        }
    }

    /// Floats a window that was not in the tree. Answers with the root of the group and the
    /// window's node, which are the same.
    pub fn float_new_group(&mut self, tile: Tile, geometry: FloatingGeometry, stack_index: usize) -> (r:
        (NodeKey, NodeKey))
        requires
            old(self).wf(),
            old(self)@.expects(tile@.key),
            old(self)@.next_floating_id < u64::MAX,
        ensures
            final(self).wf(),
            r == (tile@.key, tile@.key),
            final(self)@ == old(self)@.superseded().added(
                tile@.key,
                Node::view_of(tile@),
            ).registered(
                tile@.key,
                geometry,
                stack_index as int,
                FloatingRootKind::ImplicitWindowGroup,
            ),
            final(self)@.windows() == old(self)@.windows().insert(
                tile@.key,
                tile@.window.id,
            ),
            forall|k: NodeKey| #[trigger] final(self)@.loose(k) ==> old(self)@.loose(k),
            old(self)@.mentions_live() ==> final(self)@.mentions_live(),
    {
        self.discard_layout_superseded_by_transfer();
        proof {
            lemma_added(self@, tile@.key, Node::view_of(tile@));
        }
        let leaf = self.insert_node(ContainerData::new_view(tile));
        self.register_floating_root(
            leaf,
            geometry,
            stack_index,
            FloatingRootKind::ImplicitWindowGroup,
        );
        (leaf, leaf)
    }

    /// Floats everything the workspace holds as one group and answers with its root. An empty
    /// workspace has nothing to float.
    pub fn float_whole_workspace(&mut self, geometry: FloatingGeometry, stack_index: usize) -> (r:
        Option<NodeKey>)
        requires
            old(self).wf(),
            old(self)@.next_key < u64::MAX,
            old(self)@.next_floating_id < u64::MAX,
        ensures
            final(self).wf(),
            r == if old(self)@.leaf_under(old(self)@.root) is Some {
                Some(NodeKey { id: old(self)@.next_key })
            } else {
                None
            },
            final(self)@ == if r is Some {
                old(self)@.workspace_floated(geometry, stack_index as int)
            } else {
                old(self)@
            },
            final(self)@.windows() == old(self)@.windows(),
            forall|k: NodeKey| #[trigger] final(self)@.loose(k) ==> old(self)@.loose(k),
            old(self)@.mentions_live() ==> final(self)@.mentions_live(),
    {
        let ghost t = self@;
        if self.is_empty() {
            return None;
        }
        let root = self.workspace_root();
        let layout = self.root_container_layout();
        let prev = match self.get_container(root) {
            Some(workspace) => workspace.prev_split_layout(),
            None => None,
        };
        proof {
            crate::tree::lemma_active(t, root);
            lemma_active_kids(t, root);
        }
        let wrapper = match self.wrap_workspace_children(layout, Layout::SplitH) {
            Some(wrapper) => wrapper,
            None => {
                return None;
            },
        };
        let ghost a = self@;
        proof {
            crate::movement::lemma_gathered(t, root, wrapper, layout, Layout::SplitH);
        }
        self.set_prev_split_layout_of(wrapper, prev);
        self.select_container(wrapper);
        proof {
            let u = self@;
            assert(u.parents == a.parents);
            assert(u.floating == t.floating);
            assert(u.parents[wrapper] == root);
            assert(!u.is_floating(wrapper)) by {
                if u.is_floating(wrapper) {
                    let i = choose|i: int|
                        0 <= i < u.floating.len() && #[trigger] u.floating[i].key == wrapper;
                    assert(t.parents.contains_key(t.floating[i].key));
                    assert(t.has(wrapper));
                }
            }
            assert(u.branch(wrapper) == u.root);
            assert(!u.is_floating(u.root)) by {
                if u.is_floating(u.root) {
                    let i = choose|i: int|
                        0 <= i < u.floating.len() && #[trigger] u.floating[i].key == u.root;
                    assert(u.parents.contains_key(u.floating[i].key));
                }
            }
            assert(u.floatable(wrapper));
        }
        self.float_subtree(wrapper, geometry, stack_index, FloatingRootKind::WorkspaceWrapper);
        Some(wrapper)
    }

    /// Puts a new container in the place of a floating root, with the old root inside it.
    /// Answers with the new root, or with nothing when the node is no floating root or the
    /// wrapper already has children.
    pub fn wrap_floating_root_in_new_container(&mut self, key: NodeKey, wrapper: ContainerData) -> (r:
        Option<NodeKey>)
        requires
            old(self).wf(),
            old(self)@.next_key < u64::MAX,
            wrapper@.tile is None,
        ensures
            final(self).wf(),
            r == if wrapper@.children.len() == 0 && old(self)@.is_floating(key) {
                Some(NodeKey { id: old(self)@.next_key })
            } else {
                None
            },
            final(self)@ == if r is Some {
                old(self)@.root_wrapped(key, r->0, wrapper@)
            } else {
                old(self)@
            },
            final(self)@.windows() == old(self)@.windows(),
            forall|k: NodeKey| #[trigger] final(self)@.loose(k) ==> old(self)@.loose(k),
            old(self)@.mentions_live() ==> final(self)@.mentions_live(),
    {
        let ghost t = self@;
        if wrapper.common.children.len() != 0 {
            return None;
        }
        let idx: usize = match self.floating_root_index(key) {
            Some(idx) => idx,
            None => {
                return None;
            },
        };
        proof {
            lemma_stack_index(t, key, idx as int);
            assert(t.parents.contains_key(t.floating[idx as int].key));
        }
        let rect = match self.node_geometry(key) {
            Some(rect) => rect,
            None => {
                return None;
            },
        };
        let focused = self.seat().node() == Some(key);
        let mut wrapper = wrapper;
        wrapper.common.set_geometry(rect);
        proof {
            lemma_added(t, NodeKey { id: t.next_key }, wrapper@);
        }
        let wrapper_key = self.insert_node(wrapper);
        let ghost a = self@;
        proof {
            assert(a.floating == t.floating);
            lemma_unfloated(a, idx as int);
            assert(wrapper_key != key);
        }
        let entry = self.pop_floating(idx);
        let ghost b = self@;
        proof {
            assert(!b.parents.contains_key(wrapper_key));
            assert(!b.under(wrapper_key, key));
        }
        self.attach_child(key, wrapper_key, 0);
        assert(self@.has(wrapper_key) && !self@.parents.contains_key(wrapper_key));
        self.push_floating(
            FloatingRoot {
                id: entry.id,
                key: wrapper_key,
                kind: entry.kind,
                geometry: entry.geometry,
            },
            idx,
        );
        let ghost c = self@;
        self.transfer_fullscreen_to_replacement(key, wrapper_key);
        proof {
            lemma_fullscreen_moved_keeps(c, key, wrapper_key);
            assert(self@.has(key) == c.has(key));
            assert(self@.has(wrapper_key) == c.has(wrapper_key));
        }
        if focused {
            self.raw_focus(wrapper_key);
            self.raw_focus(key);
        }
        Some(wrapper_key)
    }

    // -----------------------------------------------------------------------------------------
    // And back
    // -----------------------------------------------------------------------------------------

    /// Moves a floating root into a child list outside its group. Answers whether it could.
    pub fn unfloat_subtree(&mut self, key: NodeKey, parent: NodeKey, index: usize) -> (r: bool)
        requires
            old(self).wf(),
            !old(self)@.under(parent, key),
        ensures
            final(self).wf(),
            r == (old(self)@.is_floating(key) && old(self)@.is_parent(parent)),
            final(self)@ == if r {
                old(self)@.subtree_unfloated(key, parent, index as int)
            } else {
                old(self)@
            },
            final(self)@.windows() == old(self)@.windows(),
            forall|k: NodeKey| #[trigger] final(self)@.loose(k) ==> old(self)@.loose(k),
            old(self)@.mentions_live() ==> final(self)@.mentions_live(),
    {
        let ghost t = self@;
        let idx: usize = match self.floating_root_index(key) {
            Some(idx) => idx,
            None => {
                return false;
            },
        };
        proof {
            lemma_stack_index(t, key, idx as int);
        }
        if self.get_container(parent).is_none() {
            return false;
        }
        self.pop_floating(idx);
        proof {
            if self@.under(parent, key) {
                lemma_under_remove(t.parents, key, parent, key);
            }
        }
        self.attach_child(key, parent, index);
        self.unset_node_fractions(key);
        true
    }

    /// Takes a floating root off the stack, and out of the tree when it holds no window.
    pub fn forget_floating_root(&mut self, key: NodeKey)
        requires
            old(self).wf(),
            old(self)@.is_floating(key) || !old(self)@.has(key),
        ensures
            final(self).wf(),
            final(self)@ == old(self)@.forgotten(key),
            old(self)@.leaves(key).len() == 0 ==> final(self)@.windows() == old(self)@.windows(),
            forall|k: NodeKey| #[trigger]
                final(self)@.loose(k) ==> old(self)@.loose(k) || (k == key
                    && final(self)@.leaf_under(key) is Some),
            old(self)@.mentions_live() ==> final(self)@.mentions_live(),
            old(self)@.leaves(key).len() == 0 ==> forall|k: NodeKey| #[trigger]
                final(self)@.loose(k) ==> old(self)@.loose(k),
    {
        let ghost t = self@;
        if let Some(idx) = self.floating_root_index(key) {
            proof {
                lemma_stack_index(t, key, idx as int);
            }
            self.pop_floating(idx);
        }
        proof {
            if t.leaves(key).len() == 0 {
                lemma_leads_nowhere(t, self@, key);
            }
        }
        if self.leaf_under_key(key).is_none() {
            if self.holds_node(key) {
                proof {
                    if t.leaves(key).len() == 0 {
                        lemma_nothing_below(t, self@, key);
                    }
                }
                self.extract_subtree(key);
            }
            self.prune_focus_order();
        }
    }

    fn implicit_group_child(&self, group: NodeKey) -> (r: Option<NodeKey>)
        requires
            self.wf(),
        ensures
            r == self@.implicit_child(group),
    {
        let idx: usize = match self.floating_root_index(group) {
            Some(idx) => idx,
            None => {
                return None;
            },
        };
        proof {
            lemma_stack_index(self@, group, idx as int);
        }
        if self.floating_root_kind_at(idx) != Some(FloatingRootKind::ImplicitWindowGroup) {
            return None;
        }
        match self.get_real_container(group) {
            Some(container) => {
                if container.common.child_count() != 1
                    || !container.common.layout().is_split_layout() {
                    None
                } else {
                    container.common.child_key(0)
                }
            },
            None => None,
        }
    }

    /// Moves a group into a child list outside it and answers with the node that lands there.
    pub fn unfloat_group(&mut self, group: NodeKey, parent: NodeKey, index: usize) -> (r: Option<
        NodeKey,
    >)
        requires
            old(self).wf(),
            old(self)@.is_parent(parent),
            old(self)@.is_floating(group) ==> !old(self)@.under(parent, group),
        ensures
            final(self).wf(),
            (final(self)@, r) == old(self)@.group_unfloated(group, parent, index as int),
            final(self)@.windows() == old(self)@.windows(),
            forall|k: NodeKey| #[trigger] final(self)@.loose(k) ==> old(self)@.loose(k),
            old(self)@.mentions_live() ==> final(self)@.mentions_live(),
    {
        let ghost t = self@;
        let child = match self.implicit_group_child(group) {
            Some(child) => child,
            None => {
                if !self.is_floating_root(group) {
                    return None;
                }
                self.unfloat_subtree(group, parent, index);
                return Some(group);
            },
        };
        proof {
            lemma_slot(t, group, child, 0);
            crate::swap::lemma_listed_not_floating(t, child);
            lemma_emptied_group(t, group, child, parent);
        }
        self.detach_child(child);
        proof {
            assert(t.nodes[group].children =~= seq![child]);
            assert(t.nodes[group].children.drop_last() =~= Seq::empty());
            reveal_with_fuel(crate::seat::within, 2);
            assert(self@.nodes[group].children.len() == 0);
        }
        self.forget_floating_root(group);
        self.attach_child(child, parent, index);
        self.unset_node_fractions(child);
        self.prune_focus_order();
        Some(child)
    }

    fn seed_unfloated_size(&mut self, group: NodeKey, size: Size)
        requires
            old(self).wf(),
        ensures
            final(self).wf(),
            final(self)@ == old(self)@.seeded(group, size),
            final(self)@.windows() == old(self)@.windows(),
            forall|k: NodeKey| #[trigger] final(self)@.loose(k) ==> old(self)@.loose(k),
            old(self)@.mentions_live() ==> final(self)@.mentions_live(),
    {
        if let Some(rect) = self.node_geometry(group) {
            self.set_node_geometry(group, Rect { loc: rect.loc, size });
        }
    }

    fn place_unfloated(&mut self, group: NodeKey, parent: NodeKey, index: usize) -> (r: bool)
        requires
            old(self).wf(),
            old(self)@.is_parent(parent),
            old(self)@.is_floating(group) ==> !old(self)@.under(parent, group),
        ensures
            final(self).wf(),
            (final(self)@, r) == old(self)@.placed(group, parent, index as int),
            final(self)@.windows() == old(self)@.windows(),
            forall|k: NodeKey| #[trigger] final(self)@.loose(k) ==> old(self)@.loose(k),
            old(self)@.mentions_live() ==> final(self)@.mentions_live(),
    {
        if self.unfloat_group(group, parent, index).is_none() {
            return false;
        }
        self.refresh_focus_visibility();
        true
    }

    /// Puts a floating group back at the end of the workspace. Answers whether it could.
    pub fn unfloat_into_workspace(&mut self, group: NodeKey) -> (r: bool)
        requires
            old(self).wf(),
        ensures
            final(self).wf(),
            (final(self)@, r) == old(self)@.placed_at_end(group),
            final(self)@.windows() == old(self)@.windows(),
            forall|k: NodeKey| #[trigger] final(self)@.loose(k) ==> old(self)@.loose(k),
            old(self)@.mentions_live() ==> final(self)@.mentions_live(),
    {
        let ghost t = self@;
        let root = self.workspace_root();
        if let Some(rect) = self.node_geometry(root) {
            self.seed_unfloated_size(group, rect.size);
        }
        proof {
            assert(t.nodes[t.root].tile is None);
            assert(self@ == t.seeded(group, t.nodes[t.root].geometry.size));
            assert(!self@.under(root, group) || root == group);
            if self@.is_floating(group) {
                let i = choose|i: int|
                    0 <= i < self@.floating.len() && #[trigger] self@.floating[i].key == group;
                assert(self@.parents.contains_key(self@.floating[i].key));
            }
        }
        let end: usize = self.child_count_of(root);
        self.place_unfloated(group, root, end)
    }

    /// Puts the wrapper of a floated workspace back first on the workspace. Answers whether it
    /// could.
    pub fn unfloat_as_workspace(&mut self, group: NodeKey) -> (r: bool)
        requires
            old(self).wf(),
            group != old(self)@.root,
        ensures
            final(self).wf(),
            (final(self)@, r) == old(self)@.wrapper_unfloated(group),
            final(self)@.windows() == old(self)@.windows(),
            forall|k: NodeKey| #[trigger] final(self)@.loose(k) ==> old(self)@.loose(k),
            old(self)@.mentions_live() ==> final(self)@.mentions_live(),
    {
        let ghost t = self@;
        let root = self.workspace_root();
        if let Some(rect) = self.node_geometry(root) {
            self.seed_unfloated_size(group, rect.size);
        }
        proof {
            assert(self@ == t.seeded(group, t.nodes[t.root].geometry.size));
            assert(!self@.under(root, group));
        }
        if !self.unfloat_subtree(group, root, 0) {
            return false;
        }
        self.refresh_focus_visibility();
        true
    }

    // -----------------------------------------------------------------------------------------
    // The tiled node to come back to
    // -----------------------------------------------------------------------------------------

    /// The tiled node most recently focused.
    pub fn inactive_tiling_key(&self) -> (r: Option<NodeKey>)
        requires
            self.wf(),
        ensures
            r == self@.recent(Pick::NodeInBranch(self@.root)),
    {
        self.focus_inactive_node_in_branch(self.workspace_root())
    }

    pub fn inactive_tiling_reference(&self) -> (r: Option<InactiveTilingReference>)
        requires
            self.wf(),
        ensures
            r == match self@.recent(Pick::NodeInBranch(self@.root)) {
                Some(key) => Some(InactiveTilingReference { key }),
                None => None,
            },
    {
        match self.inactive_tiling_key() {
            Some(key) => Some(InactiveTilingReference::new(key)),
            None => None,
        }
    }

    /// Where a tiled node receives a returning one.
    pub fn tiling_insertion_point(&self, reference: InactiveTilingReference) -> (r: Option<
        (NodeKey, usize),
    >)
        requires
            self.wf(),
        ensures
            r is Some <==> self@.insertion_point(reference.key) is Some,
            r matches Some((p, i)) ==> self@.insertion_point(reference.key) == Some((p, i as int))
                && self@.is_parent(p) && self@.branch(p) == self@.root,
    {
        let key = reference.key();
        if !self.holds_node(key) || self.branch_root(key) != self.workspace_root() || key
            == self.workspace_root() {
            return None;
        }
        if let Some(container) = self.get_real_container(key) {
            return Some((key, container.common.child_count()));
        }
        let parent_key = match self.parent_of(key) {
            Some(parent_key) => parent_key,
            None => {
                return None;
            },
        };
        match self.child_index(parent_key, key) {
            Some(idx) => {
                proof {
                    lemma_slot(self@, parent_key, key, idx as int);
                    crate::tree::lemma_branch_step(self@, key);
                }
                let count: usize = self.child_count_of(parent_key);
                assert(idx < count);
                Some((parent_key, idx + 1))
            },
            None => None,
        }
    }

    /// Puts a floating group where a tiled node receives it, or at the end of the workspace.
    /// Answers whether it could.
    pub fn unfloat_with_tiling_reference(
        &mut self,
        group: NodeKey,
        reference: InactiveTilingReference,
    ) -> (r: bool)
        requires
            old(self).wf(),
        ensures
            final(self).wf(),
            (final(self)@, r) == old(self)@.placed_by(group, reference.key),
            final(self)@.windows() == old(self)@.windows(),
            forall|k: NodeKey| #[trigger] final(self)@.loose(k) ==> old(self)@.loose(k),
            old(self)@.mentions_live() ==> final(self)@.mentions_live(),
    {
        let ghost t = self@;
        match self.tiling_insertion_point(reference) {
            Some((parent, index)) => {
                if let Some(rect) = self.node_geometry(reference.key()) {
                    self.seed_unfloated_size(group, rect.size);
                }
                proof {
                    assert(self@.parents == t.parents);
                    assert(self@.is_parent(parent));
                    if self@.is_floating(group) {
                        let i = choose|i: int|
                            0 <= i < self@.floating.len() && #[trigger] self@.floating[i].key
                                == group;
                        assert(t.floating[i].key == group);
                        assert(t.is_floating(group));
                        lemma_tiled_not_below_group(t, parent, group);
                    }
                }
                self.place_unfloated(group, parent, index)
            },
            None => self.unfloat_into_workspace(group),
        }
    }

    /// Focuses a tiled node and asks for an arrange. Answers whether it is one.
    pub fn focus_inactive_tiling_key(&mut self, key: NodeKey) -> (r: bool)
        requires
            old(self).wf(),
        ensures
            final(self).wf(),
            r == old(self)@.is_tiled(key),
            final(self)@ == if r {
                old(self)@.focused(key).arranging(crate::cache::ArrangeScope::Workspace)
            } else {
                old(self)@
            },
            final(self)@.windows() == old(self)@.windows(),
            forall|k: NodeKey| #[trigger] final(self)@.loose(k) ==> old(self)@.loose(k),
            old(self)@.mentions_live() ==> final(self)@.mentions_live(),
    {
        if key == self.workspace_root() || !self.holds_node(key) || self.branch_root(key)
            != self.workspace_root() {
            return false;
        }
        self.focus_node_key(key);
        self.layout();
        true
    }

    /// The tile of a tiled window.
    pub fn window_for_inactive_tiling_key(&self, key: NodeKey) -> (r: Option<&Tile>)
        requires
            self.wf(),
        ensures
            r is Some <==> self@.is_view(key) && self@.branch(key) == self@.root,
            r matches Some(tile) ==> Some(tile@) == self@.nodes[key].tile,
    {
        if !self.holds_node(key) || self.branch_root(key) != self.workspace_root() {
            return None;
        }
        self.get_tile(key)
    }

    /// Moves one node of a floating group back to the tiling. Answers whether the group is
    /// gone, or with nothing when the node is in no group.
    pub fn unfloat_node(&mut self, key: NodeKey, reference: Option<InactiveTilingReference>) -> (r:
        Option<bool>)
        requires
            old(self).wf(),
        ensures
            final(self).wf(),
            (final(self)@, r) == old(self)@.node_unfloated(
                key,
                match reference {
                    Some(reference) => Some(reference.key),
                    None => None,
                },
            ),
            old(self)@.is_floating(key) ==> final(self)@.windows() == old(self)@.windows(),
            old(self)@.is_floating(key) ==> forall|k: NodeKey| #[trigger]
                final(self)@.loose(k) ==> old(self)@.loose(k),
            old(self)@.mentions_live() ==> final(self)@.mentions_live(),
    {
        let ghost t = self@;
        if !self.is_in_floating_branch(key) {
            return None;
        }
        let group = self.branch_root(key);
        if key == group {
            let changed = match reference {
                Some(reference) => self.unfloat_with_tiling_reference(group, reference),
                None => self.unfloat_into_workspace(group),
            };
            return if changed {
                Some(true)
            } else {
                None
            };
        }
        let old_parent = match self.parent_of(key) {
            Some(old_parent) => old_parent,
            None => {
                return None;
            },
        };
        proof {
            assert(!t.is_floating(key)) by {
                if t.is_floating(key) {
                    crate::tree::lemma_branch_step(t, key);
                }
            }
        }
        self.detach_child(key);
        let ghost a = self@;
        self.reap_empty(old_parent);
        proof {
            crate::tree::lemma_parent_not_under_child(t.parents, key);
            if a.under(old_parent, key) {
                lemma_under_remove(t.parents, key, old_parent, key);
            }
            assert(a.is_floating(group)) by {
                let i = choose|i: int|
                    0 <= i < t.floating.len() && #[trigger] t.floating[i].key == group;
                assert(a.floating[i].key == group);
            }
            lemma_reaped_keeps(a, old_parent, key, group);
        }
        let group_empty = self.leaf_under_key(group).is_none();
        let ghost b = self@;
        if group_empty {
            self.forget_floating_root(group);
            proof {
                lemma_forgotten_keeps(b, group, key);
            }
        }
        let root = self.workspace_root();
        let (parent, index) = match reference {
            Some(reference) => match self.tiling_insertion_point(reference) {
                Some(point) => point,
                None => (root, self.child_count_of(root)),
            },
            None => (root, self.child_count_of(root)),
        };
        proof {
            assert(self@.branch(parent) == self@.root);
            lemma_tiled_below_root(self@, parent);
            crate::insert::lemma_loose_not_above(self@, parent, key);
        }
        self.insert_key_into_branch(parent, index, key, false);
        self.unset_node_fractions(key);
        self.refresh_focus_visibility();
        Some(group_empty)
    }
}

/// A node that leads to a window has children.
proof fn lemma_active_kids(t: Tree, k: NodeKey)
    requires
        t.wf(),
        k == t.root,
        t.leaf_under(k) is Some,
    ensures
        t.kids(k).len() > 0,
{
    lemma_first_of(t, t.seat.order, Pick::ChildOf(k));
    crate::walk::lemma_active_listed(t, k);
}

/// The child of an implicit group once it is out: loose, the group empty, and the list it goes
/// to still there.
proof fn lemma_emptied_group(t: Tree, group: NodeKey, c: NodeKey, p: NodeKey)
    requires
        t.wf(),
        t.is_floating(group),
        t.kids(group) == seq![c] || (t.kids(group).len() == 1 && t.kids(group)[0] == c),
        t.is_parent(p),
        !t.under(p, group),
    ensures
        t.unlinked(c).wf(),
        t.unlinked(c).is_floating(group),
        t.unlinked(c).forgotten(group).has(c),
        !t.unlinked(c).forgotten(group).has(group),
        c != t.unlinked(c).forgotten(group).root,
        !t.unlinked(c).forgotten(group).parents.contains_key(c),
        t.unlinked(c).forgotten(group).is_parent(p),
        !t.unlinked(c).forgotten(group).under(p, c),
{
    lemma_slot(t, group, c, 0);
    crate::swap::lemma_listed_not_floating(t, c);
    lemma_unlinked(t, c);
    lemma_depth(t.parents, c);
    let a = t.unlinked(c);
    let w = choose|w: int| 0 <= w < t.floating.len() && #[trigger] t.floating[w].key == group;
    assert(a.floating[w].key == group);
    lemma_stack_index(a, group, w);
    lemma_unfloated(a, w);
    let b = a.unfloated(w);
    let kids = t.nodes[group].children;
    crate::tree::lemma_without_is_remove(kids, c);
    assert(kids =~= seq![c]);
    assert(a.nodes[group].children =~= Seq::empty()) by {
        assert(seq![c].index_of(c) == 0) by {
            assert(seq![c][seq![c].index_of(c)] == c);
        }
    }
    assert(!b.is_view(group));
    assert(b.leaf_under(group) is None) by {
        crate::tree::lemma_active(b, group);
        lemma_first_of(b, b.seat.order, Pick::ChildOf(group));
        if b.active(group) is Some {
            let x = b.active(group)->0;
            assert(b.parents[x] == group);
            assert(b.nodes[group].children.contains(x));
        }
    }
    assert(b.below(group) =~= set![group]) by {
        assert forall|x: NodeKey| b.below(group).contains(x) <==> x == group by {
            if b.under(x, group) && x != group {
                lemma_childless_not_above(b, x, group);
            }
        }
    }
    let d = b.cut(b.below(group)).pruned();
    assert(t.unlinked(c).forgotten(group) == d);
    assert(p != group);
    assert(d.is_parent(p));
    assert(!t.under(p, c)) by {
        if t.under(p, c) {
            assert(t.under(c, group)) by {
                assert(t.under(group, group));
            }
            crate::tree::lemma_under_trans(t.parents, p, c, group);
        }
    }
    if d.under(p, c) {
        lemma_forgotten_wf(a, group);
        crate::subtree::lemma_under_fewer(t.parents, d.parents, p, c);
    }
}

/// Forgetting a group that holds no window keeps the tree well-formed.
proof fn lemma_forgotten_wf(t: Tree, group: NodeKey)
    requires
        t.wf(),
        t.is_floating(group),
    ensures
        crate::tree::acyclic(t.forgotten(group).parents),
{
    let (rank, bound) = crate::tree::ranks(t.parents);
    crate::tree::lemma_ranks_fit(t.parents);
    let u = t.forgotten(group);
    assert(crate::tree::ranked(u.parents, rank, bound)) by {
        assert forall|x: NodeKey| #[trigger] u.parents.contains_key(x) implies rank(u.parents[x])
            < rank(x) && rank(x) <= bound by {
            assert(t.parents.contains_key(x));
        }
    }
}

/// A loose node outside a group stays when the group goes.
proof fn lemma_forgotten_keeps(t: Tree, group: NodeKey, k: NodeKey)
    requires
        t.wf(),
        t.is_floating(group),
        t.has(k),
        !t.parents.contains_key(k),
    ensures
        t.forgotten(group).has(k),
        !t.forgotten(group).parents.contains_key(k),
        t.forgotten(group).root == t.root,
{
    let w = choose|w: int| 0 <= w < t.floating.len() && #[trigger] t.floating[w].key == group;
    lemma_stack_index(t, group, w);
    assert(t.parents.contains_key(t.floating[w].key));
    lemma_unfloated(t, w);
    let b = t.unfloated(w);
    assert(k != group);
    assert(!b.under(k, group));
}

/// Destroying emptied containers leaves alone a loose node that is not above them, and every
/// floating root.
proof fn lemma_reaped_keeps(t: Tree, p: NodeKey, k: NodeKey, group: NodeKey)
    requires
        t.wf(),
        t.has(k),
        !t.parents.contains_key(k),
        !t.under(p, k),
        t.is_floating(group),
    ensures
        t.reaped(p).has(k),
        !t.reaped(p).parents.contains_key(k),
        t.reaped(p).is_floating(group),
        t.reaped(p).root == t.root,
{
    let chain = lineage(t.parents, p);
    lemma_lineage(t.parents, p);
    assert(!chain.contains(k));
    lemma_reap_chain_keeps(t, chain, k);
    let i = choose|i: int| 0 <= i < t.floating.len() && #[trigger] t.floating[i].key == group;
    assert(t.reaped(p).floating[i].key == group);
}

proof fn lemma_reap_chain_keeps(t: Tree, chain: Seq<NodeKey>, k: NodeKey)
    requires
        t.has(k),
        !t.parents.contains_key(k),
        !chain.contains(k),
    ensures
        t.reap_chain(chain).has(k),
        !t.reap_chain(chain).parents.contains_key(k),
        t.reap_chain(chain).floating == t.floating,
        t.reap_chain(chain).root == t.root,
    decreases chain.len(),
{
    if chain.len() > 0 && t.is_barren(chain[0]) {
        let x = chain[0];
        assert(chain.contains(x));
        let loose = if t.parents.contains_key(x) {
            t.unlinked(x)
        } else {
            t
        };
        let next = if chain.len() == 1 {
            loose.dropped(x)
        } else if t.bequeaths(x) {
            loose.with_seat(loose.seat.with_selected(Some(chain[1]))).dropped(x)
        } else {
            loose.retired(x, chain[1])
        };
        assert(next.has(k));
        assert(!next.parents.contains_key(k));
        assert(!chain.drop_first().contains(k)) by {
            if chain.drop_first().contains(k) {
                let i = choose|i: int|
                    0 <= i < chain.drop_first().len() && chain.drop_first()[i] == k;
                assert(chain[i + 1] == k);
            }
        }
        lemma_reap_chain_keeps(next, chain.drop_first(), k);
    }
}

} // verus!
